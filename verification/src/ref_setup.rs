//! Setting up a set of drawings: every picture goes into the slot of the view
//! that it shows, and from the slots follows where it is placed.

use vstd::prelude::*;
use crate::images::{
    base64_encode, base64_text, fits_text, image_dimensions, read_dimensions, small_image,
    small_picture, Pixels,
};
use crate::modifier_ops::{plural, push_plural};
use crate::scalar::{clamped, larger, Scalar, ONE_BITS};
use crate::text::{decimal, push_decimal};

verus! {

/// A view. Elevations stand around the model; a floor is a plan of a storey.
#[derive(Clone, Copy, PartialEq, Eq, Structural, Debug)]
pub enum Slot {
    Front,
    Back,
    Left,
    Right,
    Top,
    Floor(u32),
}

/// The plane that a picture stands in, by the axis across it.
#[derive(Clone, Copy, PartialEq, Eq, Structural, Debug)]
pub enum ImagePlane {
    X,
    Y,
    Z,
}

impl Slot {
    /// The name of the view.
    pub open spec fn name(self) -> Seq<char> {
        match self {
            Slot::Front => "Front"@,
            Slot::Back => "Back"@,
            Slot::Left => "Left"@,
            Slot::Right => "Right"@,
            Slot::Top => "Top"@,
            Slot::Floor(n) => if n == 0 {
                "Ground floor"@
            } else if n == 1 {
                "1st floor"@
            } else if n == 2 {
                "2nd floor"@
            } else if n == 3 {
                "3rd floor"@
            } else {
                decimal(n as nat) + "th floor"@
            },
        }
    }

    /// The name of the view.
    pub fn label(self) -> (r: String)
        ensures
            r@ == self.name(),
    {
        match self {
            Slot::Front => "Front".to_owned(),
            Slot::Back => "Back".to_owned(),
            Slot::Left => "Left".to_owned(),
            Slot::Right => "Right".to_owned(),
            Slot::Top => "Top".to_owned(),
            Slot::Floor(n) => if n == 0 {
                "Ground floor".to_owned()
            } else if n == 1 {
                "1st floor".to_owned()
            } else if n == 2 {
                "2nd floor".to_owned()
            } else if n == 3 {
                "3rd floor".to_owned()
            } else {
                let mut s = String::new();
                push_decimal(&mut s, n as u64);
                s.append("th floor");
                assert(s@ =~= decimal(n as nat) + "th floor"@);
                s
            },
        }
    }

    /// What is said of the view.
    pub fn hover(self) -> (r: &'static str)
        ensures
            r@ == (match self {
                Slot::Front => "Elevation seen from the front (-Y), placed behind the model"@,
                Slot::Back => "Elevation seen from the back (+Y), mirrored automatically"@,
                Slot::Left => "Elevation seen from the left (-X), mirrored automatically"@,
                Slot::Right => "Elevation seen from the right (+X)"@,
                Slot::Top => "Roof / top view, placed at roof height"@,
                Slot::Floor(_) => "Floor plan, placed flat at this storey's height"@,
            }),
    {
        match self {
            Slot::Front => "Elevation seen from the front (-Y), placed behind the model",
            Slot::Back => "Elevation seen from the back (+Y), mirrored automatically",
            Slot::Left => "Elevation seen from the left (-X), mirrored automatically",
            Slot::Right => "Elevation seen from the right (+X)",
            Slot::Top => "Roof / top view, placed at roof height",
            Slot::Floor(_) => "Floor plan, placed flat at this storey's height",
        }
    }

    /// How far down the view is in the order in which pictures are trusted
    /// to give the scale.
    pub open spec fn rank(self) -> nat {
        match self {
            Slot::Front => 0,
            Slot::Back => 1,
            Slot::Right => 2,
            Slot::Left => 3,
            Slot::Top => 4,
            Slot::Floor(n) => 5 + n as nat,
        }
    }

    fn anchor_rank(self) -> (r: u64)
        ensures
            r == self.rank(),
    {
        match self {
            Slot::Front => 0,
            Slot::Back => 1,
            Slot::Right => 2,
            Slot::Left => 3,
            Slot::Top => 4,
            Slot::Floor(n) => 5 + n as u64,
        }
    }

    /// The view is an elevation.
    pub open spec fn elevation(self) -> bool {
        self is Front || self is Back || self is Left || self is Right
    }

    /// Is the view an elevation?
    pub fn is_elevation(self) -> (r: bool)
        ensures
            r == self.elevation(),
    {
        matches!(self, Slot::Front | Slot::Back | Slot::Left | Slot::Right)
    }
}

/// A picture that was loaded.
#[derive(Debug)]
pub struct SetupImage {
    pub name: String,
    pub bytes: Vec<u8>,
    /// Its width and height in pixels.
    pub px: (u32, u32),
}

/// The first of the first `n` slots with the least rank.
pub open spec fn anchor_place(slots: Seq<Slot>, n: nat) -> Option<int>
    decreases n,
{
    if n == 0 {
        None
    } else {
        match anchor_place(slots, (n - 1) as nat) {
            Some(k) => if slots[n - 1].rank() < slots[k].rank() {
                Some(n - 1)
            } else {
                Some(k)
            },
            None => Some(n - 1),
        }
    }
}

/// The place of a slot among the first `n`.
pub open spec fn slot_place(slots: Seq<Slot>, wanted: Slot, n: nat) -> Option<int>
    decreases n,
{
    if n == 0 {
        None
    } else if slot_place(slots, wanted, (n - 1) as nat) is Some {
        slot_place(slots, wanted, (n - 1) as nat)
    } else if slots[n - 1] == wanted {
        Some(n - 1)
    } else {
        None
    }
}

/// The first floor plan among the first `n` slots.
pub open spec fn floor_place(slots: Seq<Slot>, n: nat) -> Option<int>
    decreases n,
{
    if n == 0 {
        None
    } else if floor_place(slots, (n - 1) as nat) is Some {
        floor_place(slots, (n - 1) as nat)
    } else if slots[n - 1] is Floor {
        Some(n - 1)
    } else {
        None
    }
}

/// The first that is there.
pub open spec fn either(a: Option<int>, b: Option<int>) -> Option<int> {
    if a is Some {
        a
    } else {
        b
    }
}

/// The picture that shows the outline from above: the ground floor, the roof,
/// or any floor.
pub open spec fn plan_place(slots: Seq<Slot>) -> Option<int> {
    let n = slots.len();
    either(
        slot_place(slots, Slot::Floor(0), n),
        either(slot_place(slots, Slot::Top, n), floor_place(slots, n)),
    )
}

/// The number of storeys that floor plans show: at least one.
pub open spec fn storeys_of(slots: Seq<Slot>, n: nat) -> nat
    decreases n,
{
    if n == 0 {
        1
    } else {
        let before = storeys_of(slots, (n - 1) as nat);
        match slots[n - 1] {
            Slot::Floor(k) => if k as nat + 1 > before {
                k as nat + 1
            } else {
                before
            },
            _ => before,
        }
    }
}

/// What gives the extent of the building along an axis.
#[derive(Clone, Copy, PartialEq, Eq, Structural, Debug)]
pub enum Extent {
    /// The width of a picture.
    Width(usize),
    /// The height of a picture.
    Height(usize),
    /// The width that was typed.
    Typed,
    /// The extent along x.
    SameAsX,
}

/// What gives the extent along x: the front, the back, or a plan.
pub open spec fn x_extent(slots: Seq<Slot>) -> Extent {
    let n = slots.len();
    match either(
        either(slot_place(slots, Slot::Front, n), slot_place(slots, Slot::Back, n)),
        plan_place(slots),
    ) {
        Some(i) => Extent::Width(i as usize),
        None => Extent::Typed,
    }
}

/// What gives the extent along y: a side, or the height of a plan, or else
/// the extent along x.
pub open spec fn y_extent(slots: Seq<Slot>) -> Extent {
    let n = slots.len();
    match either(slot_place(slots, Slot::Left, n), slot_place(slots, Slot::Right, n)) {
        Some(i) => Extent::Width(i as usize),
        None => match plan_place(slots) {
            Some(i) => Extent::Height(i as usize),
            None => Extent::SameAsX,
        },
    }
}

/// Where a picture is placed, from the extents of the building. An elevation
/// is behind the model as seen from its side, with its lower edge on the
/// ground.
#[derive(Clone, Copy, PartialEq, Eq, Structural, Debug)]
pub enum Stand {
    /// Half the extent along x behind the origin; the sign says which way.
    AlongX { positive: bool },
    /// Half the extent along y behind the origin.
    AlongY { positive: bool },
    /// At the height of the roof.
    Roof,
    /// At the height of a storey.
    Storey(u32),
}

/// Where the picture of a view goes.
pub open spec fn stand_of(slot: Slot) -> (ImagePlane, Stand, bool) {
    match slot {
        Slot::Front => (ImagePlane::Y, Stand::AlongY { positive: true }, false),
        Slot::Back => (ImagePlane::Y, Stand::AlongY { positive: false }, true),
        Slot::Right => (ImagePlane::X, Stand::AlongX { positive: false }, false),
        Slot::Left => (ImagePlane::X, Stand::AlongX { positive: true }, true),
        Slot::Top => (ImagePlane::Z, Stand::Roof, false),
        Slot::Floor(n) => (ImagePlane::Z, Stand::Storey(n), false),
    }
}

/// One picture to place.
#[derive(Debug)]
pub struct Placement {
    pub name: String,
    pub plane: ImagePlane,
    pub stand: Stand,
    pub flip_h: bool,
    /// Its width and height in pixels, at least one each.
    pub px: (u32, u32),
    pub opacity: Scalar,
    pub data_base64: String,
}

/// A number of pixels that can be divided by.
pub open spec fn at_least_one(n: u32) -> u32 {
    if n == 0 {
        1
    } else {
        n
    }
}

fn or_one(n: u32) -> (r: u32)
    ensures
        r == at_least_one(n),
{
    if n == 0 {
        1
    } else {
        n
    }
}

/// The slots of an assignment.
pub open spec fn slots_of(assigned: Seq<(Slot, &SetupImage)>) -> Seq<Slot> {
    Seq::new(assigned.len(), |i: int| assigned[i].0)
}

/// How a set of drawings is placed. One picture gives the scale of all.
#[derive(Debug)]
pub struct PlacementPlan {
    /// The picture whose width is the typed one.
    pub anchor: usize,
    pub x_extent: Extent,
    pub y_extent: Extent,
    /// The pictures whose heights the roof is at least as high as.
    pub elevations: Vec<usize>,
    /// The storeys that the roof is at least as high as.
    pub storeys: u64,
    pub placements: Vec<Placement>,
}

/// The elevations among the first `n` slots, by place.
pub open spec fn elevations_in(slots: Seq<Slot>, n: nat) -> Seq<usize>
    decreases n,
{
    if n == 0 {
        seq![]
    } else if slots[n - 1].elevation() {
        elevations_in(slots, (n - 1) as nat).push((n - 1) as usize)
    } else {
        elevations_in(slots, (n - 1) as nat)
    }
}

/// The placement is that of a picture in a view.
pub open spec fn is_placement(
    p: Placement,
    slot: Slot,
    image: SetupImage,
    opacity: Scalar,
) -> bool {
    &&& p.name@ == slot.name()
    &&& (p.plane, p.stand, p.flip_h) == stand_of(slot)
    &&& p.px == (at_least_one(image.px.0), at_least_one(image.px.1))
    &&& p.opacity == clamped(opacity, Scalar { bits: 0 }, Scalar { bits: ONE_BITS })
    &&& p.data_base64@ == base64_text(image.bytes@)
}

fn place_of_slot(slots: &Vec<Slot>, wanted: Slot) -> (r: Option<usize>)
    ensures
        r matches Some(i) ==> slot_place(slots@, wanted, slots@.len()) == Some(i as int),
        r is None ==> slot_place(slots@, wanted, slots@.len()) is None,
{
    let mut found: Option<usize> = None;
    let mut n: usize = 0;
    while n < slots.len()
        invariant
            n <= slots@.len(),
            found matches Some(i) ==> slot_place(slots@, wanted, n as nat) == Some(i as int),
            found is None ==> slot_place(slots@, wanted, n as nat) is None,
        decreases slots@.len() - n,
    {
        if found.is_none() && slots[n] == wanted {
            found = Some(n);
        }
        n += 1;
    }
    found
}

fn place_of_floor(slots: &Vec<Slot>) -> (r: Option<usize>)
    ensures
        r matches Some(i) ==> floor_place(slots@, slots@.len()) == Some(i as int),
        r is None ==> floor_place(slots@, slots@.len()) is None,
{
    let mut found: Option<usize> = None;
    let mut n: usize = 0;
    while n < slots.len()
        invariant
            n <= slots@.len(),
            found matches Some(i) ==> floor_place(slots@, n as nat) == Some(i as int),
            found is None ==> floor_place(slots@, n as nat) is None,
        decreases slots@.len() - n,
    {
        if found.is_none() && matches!(slots[n], Slot::Floor(_)) {
            found = Some(n);
        }
        n += 1;
    }
    found
}

fn place_of_plan(slots: &Vec<Slot>) -> (r: Option<usize>)
    ensures
        r matches Some(i) ==> plan_place(slots@) == Some(i as int),
        r is None ==> plan_place(slots@) is None,
{
    match place_of_slot(slots, Slot::Floor(0)) {
        Some(i) => Some(i),
        None => match place_of_slot(slots, Slot::Top) {
            Some(i) => Some(i),
            None => place_of_floor(slots),
        },
    }
}

/// How the pictures in these slots are placed. Nothing is placed where there
/// are none.
pub fn build_placements(assigned: &Vec<(Slot, &SetupImage)>, opacity: Scalar) -> (r: Option<
    PlacementPlan,
>)
    requires
        forall|i: int| 0 <= i < assigned@.len() ==> fits_text((#[trigger] assigned@[i]).1.bytes@.len()),
    ensures
        r is Some == (assigned@.len() > 0),
        r matches Some(plan) ==> {
            let slots = slots_of(assigned@);
            &&& anchor_place(slots, slots.len()) == Some(plan.anchor as int)
            &&& plan.x_extent == x_extent(slots)
            &&& plan.y_extent == y_extent(slots)
            &&& plan.elevations@ == elevations_in(slots, slots.len())
            &&& plan.storeys == storeys_of(slots, slots.len())
            &&& plan.placements@.len() == slots.len()
            &&& forall|i: int|
                0 <= i < slots.len() ==> is_placement(
                    #[trigger] plan.placements@[i],
                    slots[i],
                    *assigned@[i].1,
                    opacity,
                )
        },
{
    if assigned.len() == 0 {
        return None;
    }
    let mut slots: Vec<Slot> = Vec::new();
    let mut anchor: usize = 0;
    let mut elevations: Vec<usize> = Vec::new();
    let mut storeys: u64 = 1;
    let mut placements: Vec<Placement> = Vec::new();
    let ghost all = slots_of(assigned@);
    let mut n: usize = 0;
    while n < assigned.len()
        invariant
            n <= assigned@.len(),
            forall|i: int|
                0 <= i < assigned@.len() ==> fits_text(
                    (#[trigger] assigned@[i]).1.bytes@.len(),
                ),
            all == slots_of(assigned@),
            slots@ == all.take(n as int),
            n > 0 ==> anchor_place(all, n as nat) == Some(anchor as int) && anchor < n,
            elevations@ == elevations_in(all, n as nat),
            storeys == storeys_of(all, n as nat),
            placements@.len() == n,
            forall|i: int|
                0 <= i < n ==> is_placement(
                    #[trigger] placements@[i],
                    all[i],
                    *assigned@[i].1,
                    opacity,
                ),
        decreases assigned@.len() - n,
    {
        let (slot, image) = assigned[n];
        assert(fits_text(assigned@[n as int].1.bytes@.len()));
        if n == 0 {
            assert(anchor_place(all, 0) is None);
            anchor = 0;
        } else if slot.anchor_rank() < slots[anchor].anchor_rank() {
            anchor = n;
        }
        if slot.is_elevation() {
            elevations.push(n);
        }
        match slot {
            Slot::Floor(k) => {
                if k as u64 + 1 > storeys {
                    storeys = k as u64 + 1;
                }
            },
            _ => {},
        }
        let (plane, stand, flip_h) = match slot {
            Slot::Front => (ImagePlane::Y, Stand::AlongY { positive: true }, false),
            Slot::Back => (ImagePlane::Y, Stand::AlongY { positive: false }, true),
            Slot::Right => (ImagePlane::X, Stand::AlongX { positive: false }, false),
            Slot::Left => (ImagePlane::X, Stand::AlongX { positive: true }, true),
            Slot::Top => (ImagePlane::Z, Stand::Roof, false),
            Slot::Floor(k) => (ImagePlane::Z, Stand::Storey(k), false),
        };
        placements.push(
            Placement {
                name: slot.label(),
                plane,
                stand,
                flip_h,
                px: (or_one(image.px.0), or_one(image.px.1)),
                opacity: opacity.held_between(Scalar { bits: 0 }, Scalar { bits: ONE_BITS }),
                data_base64: base64_encode(image.bytes.as_slice()),
            },
        );
        slots.push(slot);
        assert(slots@ =~= all.take(n + 1));
        n += 1;
    }
    assert(slots@ =~= all);
    let slots = &slots;
    let plan_at = place_of_plan(slots);
    let x = match place_of_slot(slots, Slot::Front) {
        Some(i) => Extent::Width(i),
        None => match place_of_slot(slots, Slot::Back) {
            Some(i) => Extent::Width(i),
            None => match plan_at {
                Some(i) => Extent::Width(i),
                None => Extent::Typed,
            },
        },
    };
    let y = match place_of_slot(slots, Slot::Left) {
        Some(i) => Extent::Width(i),
        None => match place_of_slot(slots, Slot::Right) {
            Some(i) => Extent::Width(i),
            None => match plan_at {
                Some(i) => Extent::Height(i),
                None => Extent::SameAsX,
            },
        },
    };
    Some(PlacementPlan { anchor, x_extent: x, y_extent: y, elevations, storeys, placements })
}

/// The picture that gives the scale is the most trusted one.
pub proof fn law_anchor_is_most_trusted(slots: Seq<Slot>, n: nat)
    requires
        0 < n <= slots.len(),
    ensures
        anchor_place(slots, n) matches Some(k) && 0 <= k < n && forall|i: int|
            0 <= i < n ==> slots[k].rank() <= (#[trigger] slots[i]).rank(),
    decreases n,
{
    if n > 1 {
        law_anchor_is_most_trusted(slots, (n - 1) as nat);
    } else {
        assert(anchor_place(slots, 0) is None);
    }
}

/// Opposite views stand on opposite sides of the model, and just one of them
/// is mirrored.
pub proof fn law_opposite_views_face_each_other()
    ensures
        stand_of(Slot::Front).0 == stand_of(Slot::Back).0,
        stand_of(Slot::Front).1 == (Stand::AlongY { positive: true }),
        stand_of(Slot::Back).1 == (Stand::AlongY { positive: false }),
        stand_of(Slot::Left).0 == stand_of(Slot::Right).0,
        stand_of(Slot::Left).1 == (Stand::AlongX { positive: true }),
        stand_of(Slot::Right).1 == (Stand::AlongX { positive: false }),
        stand_of(Slot::Front).2 != stand_of(Slot::Back).2,
        stand_of(Slot::Left).2 != stand_of(Slot::Right).2,
{
}

/// A tenth: the least width of a building, in meters.
pub const LEAST_WIDTH_BITS: u32 = 0x3dcc_cccd;

/// One half: the least height of a storey, in meters, and the opacity at
/// first.
pub const HALF_BITS: u32 = 0x3f00_0000;

/// Ten: the width of a building at first.
pub const TEN_BITS: u32 = 0x4120_0000;

/// Three: the height of a storey at first.
pub const THREE_BITS: u32 = 0x4040_0000;

/// Small pictures are at most this many pixels wide and high.
pub const THUMB_SIDE: u32 = 256;

/// The dialog.
#[derive(Debug)]
pub struct RefSetupDialog {
    pub open: bool,
    images: Vec<SetupImage>,
    assigned: Vec<(Slot, usize)>,
    selected: Option<usize>,
    extra_floors: u32,
    building_width_m: Scalar,
    floor_height_m: Scalar,
    opacity: Scalar,
}

/// A loaded picture, by what it holds.
pub struct SetupImageView {
    pub name: Seq<char>,
    pub bytes: Seq<u8>,
    pub px: (u32, u32),
}

/// The state of the dialog.
pub struct DialogView {
    pub open: bool,
    pub images: Seq<SetupImageView>,
    pub assigned: Seq<(Slot, usize)>,
    pub selected: Option<usize>,
    pub extra_floors: u32,
    pub building_width: Scalar,
    pub floor_height: Scalar,
    pub opacity: Scalar,
}

/// What the loaded pictures are.
pub open spec fn images_view(images: Seq<SetupImage>) -> Seq<SetupImageView> {
    Seq::new(
        images.len(),
        |i: int|
            SetupImageView { name: images[i].name@, bytes: images[i].bytes@, px: images[i].px },
    )
}

impl View for RefSetupDialog {
    type V = DialogView;

    closed spec fn view(&self) -> DialogView {
        DialogView {
            open: self.open,
            images: images_view(self.images@),
            assigned: self.assigned@,
            selected: self.selected,
            extra_floors: self.extra_floors,
            building_width: self.building_width_m,
            floor_height: self.floor_height_m,
            opacity: self.opacity,
        }
    }
}

/// The picture is the one described.
pub open spec fn shows(image: SetupImage, v: SetupImageView) -> bool {
    image.name@ == v.name && image.bytes@ == v.bytes && image.px == v.px
}

/// The placement is that of a loaded picture in a view.
pub open spec fn is_placement_of(
    p: Placement,
    slot: Slot,
    image: SetupImageView,
    opacity: Scalar,
) -> bool {
    &&& p.name@ == slot.name()
    &&& (p.plane, p.stand, p.flip_h) == stand_of(slot)
    &&& p.px == (at_least_one(image.px.0), at_least_one(image.px.1))
    &&& p.opacity == clamped(opacity, Scalar { bits: 0 }, Scalar { bits: ONE_BITS })
    &&& p.data_base64@ == base64_text(image.bytes)
}

impl DialogView {
    /// The slots that hold pictures.
    pub open spec fn slots(self) -> Seq<Slot> {
        Seq::new(self.assigned.len(), |i: int| self.assigned[i].0)
    }

    /// The slot is offered: every view, and the floors up to the uppermost
    /// one.
    pub open spec fn offers(self, slot: Slot) -> bool {
        slot matches Slot::Floor(n) ==> n <= self.extra_floors
    }

    /// No slot has two pictures, no picture is in two slots, and every
    /// picture in a slot is loaded, and its slot offered. Every picture can be
    /// embedded as text.
    pub open spec fn wf(self) -> bool {
        &&& forall|i: int, j: int|
            0 <= i < j < self.assigned.len() ==> (#[trigger] self.assigned[i]).0 != (
            #[trigger] self.assigned[j]).0 && self.assigned[i].1 != self.assigned[j].1
        &&& forall|i: int|
            0 <= i < self.assigned.len() ==> (#[trigger] self.assigned[i]).1 < self.images.len()
                && self.offers(self.assigned[i].0)
        &&& self.selected matches Some(i) ==> i < self.images.len()
        &&& forall|i: int|
            0 <= i < self.images.len() ==> fits_text((#[trigger] self.images[i]).bytes.len())
    }
}

proof fn lemma_assigned_place(assigned: Seq<(Slot, usize)>, slot: Slot, n: nat, i: int)
    requires
        0 <= i < n <= assigned.len(),
        assigned_place(assigned, slot, n) is None,
    ensures
        assigned[i].0 != slot,
    decreases n,
{
    if i < n - 1 {
        lemma_assigned_place(assigned, slot, (n - 1) as nat, i);
    }
}

/// The first `n` assignments without those of a slot or a picture.
pub open spec fn without(
    assigned: Seq<(Slot, usize)>,
    slot: Slot,
    index: Option<usize>,
    n: nat,
) -> Seq<(Slot, usize)>
    decreases n,
{
    if n == 0 {
        seq![]
    } else {
        let before = without(assigned, slot, index, (n - 1) as nat);
        if assigned[n - 1].0 != slot && Some(assigned[n - 1].1) != index {
            before.push(assigned[n - 1])
        } else {
            before
        }
    }
}

proof fn lemma_without(
    assigned: Seq<(Slot, usize)>,
    slot: Slot,
    index: Option<usize>,
    n: nat,
)
    requires
        n <= assigned.len(),
        forall|i: int, j: int|
            0 <= i < j < assigned.len() ==> (#[trigger] assigned[i]).0 != (
            #[trigger] assigned[j]).0 && assigned[i].1 != assigned[j].1,
    ensures
        ({
            let left = without(assigned, slot, index, n);
            &&& forall|k: int|
                0 <= k < left.len() ==> (#[trigger] left[k]).0 != slot && Some(left[k].1) != index
            &&& forall|k: int|
                0 <= k < left.len() ==> exists|i: int|
                    0 <= i < n && assigned[i] == #[trigger] left[k]
            &&& forall|i: int, j: int|
                0 <= i < j < left.len() ==> (#[trigger] left[i]).0 != (#[trigger] left[j]).0
                    && left[i].1 != left[j].1
        }),
    decreases n,
{
    if n > 0 {
        let m = (n - 1) as nat;
        lemma_without(assigned, slot, index, m);
        let before = without(assigned, slot, index, m);
        let left = without(assigned, slot, index, n);
        assert forall|k: int| 0 <= k < left.len() implies exists|i: int|
            0 <= i < n && assigned[i] == #[trigger] left[k] by {
            if k < before.len() {
                let i = choose|i: int| 0 <= i < m && assigned[i] == before[k];
                assert(assigned[i] == left[k]);
            } else {
                assert(assigned[n - 1] == left[k]);
            }
        }
        assert forall|i: int, j: int| 0 <= i < j < left.len() implies (#[trigger] left[i]).0 != (
        #[trigger] left[j]).0 && left[i].1 != left[j].1 by {
            if j < before.len() {
                assert(before[i].0 != before[j].0);
            } else {
                let a = choose|a: int| 0 <= a < m && assigned[a] == before[i];
                assert(assigned[a].0 != assigned[n - 1].0);
            }
        }
    }
}

/// The place of a slot among the first `n` assignments.
pub open spec fn assigned_place(assigned: Seq<(Slot, usize)>, slot: Slot, n: nat) -> Option<int>
    decreases n,
{
    if n == 0 {
        None
    } else if assigned_place(assigned, slot, (n - 1) as nat) is Some {
        assigned_place(assigned, slot, (n - 1) as nat)
    } else if assigned[n - 1].0 == slot {
        Some(n - 1)
    } else {
        None
    }
}

/// The place of a picture among the first `n` assignments.
pub open spec fn holder_place(assigned: Seq<(Slot, usize)>, index: usize, n: nat) -> Option<int>
    decreases n,
{
    if n == 0 {
        None
    } else if holder_place(assigned, index, (n - 1) as nat) is Some {
        holder_place(assigned, index, (n - 1) as nat)
    } else if assigned[n - 1].1 == index {
        Some(n - 1)
    } else {
        None
    }
}

/// The pictures among the first `n` that are in no slot.
pub open spec fn tray_of(assigned: Seq<(Slot, usize)>, n: nat) -> Seq<usize>
    decreases n,
{
    if n == 0 {
        seq![]
    } else if holder_place(assigned, (n - 1) as usize, assigned.len()) is None {
        tray_of(assigned, (n - 1) as nat).push((n - 1) as usize)
    } else {
        tray_of(assigned, (n - 1) as nat)
    }
}

/// The dialog with one more file, which is ignored where it is no picture.
pub open spec fn with_file(v: DialogView, name: Seq<char>, bytes: Seq<u8>) -> DialogView {
    match image_dimensions(bytes) {
        Some(px) => DialogView { images: v.images.push(SetupImageView { name, bytes, px }), ..v },
        None => v,
    }
}

/// The dialog with the first `n` files that arrived. It opens by itself.
pub open spec fn with_files(v: DialogView, files: Seq<(String, Vec<u8>)>, n: nat) -> DialogView
    decreases n,
{
    if n == 0 {
        DialogView { open: v.open || files.len() > 0, ..v }
    } else {
        with_file(with_files(v, files, (n - 1) as nat), files[n - 1].0@, files[n - 1].1@)
    }
}

/// The dialog with a loaded picture put into a slot: it leaves the slot it was
/// in, and what was in this one leaves it. A slot that is not offered takes
/// nothing.
pub open spec fn with_assigned(v: DialogView, slot: Slot, index: usize) -> DialogView {
    if v.offers(slot) {
        DialogView {
            assigned: without(v.assigned, slot, Some(index), v.assigned.len()).push((slot, index)),
            selected: None,
            ..v
        }
    } else {
        v
    }
}

/// The uppermost floor can be taken away: there is one above the ground
/// floor, and it holds no picture.
pub open spec fn is_floor_free(v: DialogView) -> bool {
    v.extra_floors > 0 && assigned_place(
        v.assigned,
        Slot::Floor(v.extra_floors),
        v.assigned.len(),
    ) is None
}

/// The dialog emptied and closed.
pub open spec fn emptied(v: DialogView) -> DialogView {
    DialogView { open: false, images: seq![], assigned: seq![], selected: None, ..v }
}

impl RefSetupDialog {
    /// The dialog, closed and empty.
    pub fn new() -> (r: RefSetupDialog)
        ensures
            r@ == (DialogView {
                open: false,
                images: seq![],
                assigned: seq![],
                selected: None,
                extra_floors: 1,
                building_width: Scalar { bits: TEN_BITS },
                floor_height: Scalar { bits: THREE_BITS },
                opacity: Scalar { bits: HALF_BITS },
            }),
            r@.wf(),
    {
        let r = RefSetupDialog {
            open: false,
            images: Vec::new(),
            assigned: Vec::new(),
            selected: None,
            extra_floors: 1,
            building_width_m: Scalar { bits: TEN_BITS },
            floor_height_m: Scalar { bits: THREE_BITS },
            opacity: Scalar { bits: HALF_BITS },
        };
        assert(r@.images =~= seq![]);
        assert(r@.assigned =~= seq![]);
        r
    }

    /// Opens the dialog.
    pub fn open(&mut self)
        ensures
            final(self)@ == (DialogView { open: true, ..old(self)@ }),
    {
        self.open = true;
    }

    fn add_image(&mut self, name: String, bytes: Vec<u8>)
        ensures
            final(self)@ == with_file(old(self)@, name@, bytes@),
    {
        match read_dimensions(bytes.as_slice()) {
            Some(px) => {
                let ghost before = self@.images;
                let ghost said = SetupImageView { name: name@, bytes: bytes@, px };
                self.images.push(SetupImage { name, bytes, px });
                assert(self@.images =~= before.push(said));
            },
            None => {},
        }
    }

    /// Takes files that were chosen or dropped on the window.
    pub fn arrive(&mut self, files: Vec<(String, Vec<u8>)>)
        requires
            old(self)@.wf(),
            forall|i: int| 0 <= i < files@.len() ==> fits_text((#[trigger] files@[i]).1@.len()),
        ensures
            final(self)@ == with_files(old(self)@, files@, files@.len()),
            final(self)@.wf(),
    {
        let ghost v = self@;
        let ghost all = files@;
        if files.len() > 0 {
            self.open = true;
        }
        for file in it: files.into_iter()
            invariant
                it.seq() == all,
                forall|i: int| 0 <= i < all.len() ==> fits_text((#[trigger] all[i]).1@.len()),
                v.wf(),
                self@.wf(),
                self@ == with_files(v, all, it.index() as nat),
        {
            assert(fits_text(all[it.index()].1@.len()));
            let (name, bytes) = file;
            let ghost before = self@;
            self.add_image(name, bytes);
            assert(self@.wf()) by {
                assert(self@.assigned == before.assigned);
                assert(before.images.len() <= self@.images.len());
            }
        }
    }

    /// Is the slot offered?
    pub fn is_offered(&self, slot: Slot) -> (r: bool)
        ensures
            r == self@.offers(slot),
    {
        match slot {
            Slot::Floor(n) => n <= self.extra_floors,
            _ => true,
        }
    }

    /// Puts a loaded picture into a slot. It leaves the slot it was in, and
    /// what was in this one leaves it. A slot that is not offered takes
    /// nothing.
    pub fn assign(&mut self, slot: Slot, index: usize)
        requires
            old(self)@.wf(),
            index < old(self)@.images.len(),
        ensures
            final(self)@ == with_assigned(old(self)@, slot, index),
            final(self)@.wf(),
    {
        if !self.is_offered(slot) {
            return;
        }
        let ghost was = self.assigned@;
        let mut kept: Vec<(Slot, usize)> = Vec::new();
        let mut n: usize = 0;
        while n < self.assigned.len()
            invariant
                n <= self.assigned@.len(),
                self.assigned@ == was,
                kept@ == without(was, slot, Some(index), n as nat),
            decreases self.assigned@.len() - n,
        {
            let (s, i) = self.assigned[n];
            if s != slot && i != index {
                kept.push((s, i));
            }
            n += 1;
        }
        proof {
            lemma_without(was, slot, Some(index), was.len());
            let left = without(was, slot, Some(index), was.len());
            assert forall|k: int| 0 <= k < left.len() implies (#[trigger] left[k]).1
                < self@.images.len() && self@.offers(left[k].0) by {
                let i = choose|i: int| 0 <= i < was.len() && was[i] == left[k];
                assert(was[i].1 < self@.images.len());
            }
        }
        kept.push((slot, index));
        self.assigned = kept;
        self.selected = None;
    }

    /// Takes the picture out of a slot.
    pub fn clear_slot(&mut self, slot: Slot)
        requires
            old(self)@.wf(),
        ensures
            final(self)@ == (DialogView {
                assigned: without(
                    old(self)@.assigned,
                    slot,
                    None,
                    old(self)@.assigned.len(),
                ),
                ..old(self)@
            }),
            final(self)@.wf(),
    {
        let ghost was = self.assigned@;
        let mut kept: Vec<(Slot, usize)> = Vec::new();
        let mut n: usize = 0;
        while n < self.assigned.len()
            invariant
                n <= self.assigned@.len(),
                self.assigned@ == was,
                kept@ == without(was, slot, None, n as nat),
            decreases self.assigned@.len() - n,
        {
            let (s, i) = self.assigned[n];
            if s != slot {
                kept.push((s, i));
            }
            n += 1;
        }
        proof {
            lemma_without(was, slot, None, was.len());
            let left = without(was, slot, None, was.len());
            assert forall|k: int| 0 <= k < left.len() implies (#[trigger] left[k]).1
                < self@.images.len() && self@.offers(left[k].0) by {
                let i = choose|i: int| 0 <= i < was.len() && was[i] == left[k];
                assert(was[i].1 < self@.images.len());
            }
        }
        self.assigned = kept;
    }

    /// The picture in a slot.
    pub fn assignment(&self, slot: Slot) -> (r: Option<usize>)
        ensures
            r == (match assigned_place(self@.assigned, slot, self@.assigned.len()) {
                Some(k) => Some(self@.assigned[k].1),
                None => None,
            }),
    {
        let ghost all = self@.assigned;
        let mut found: Option<usize> = None;
        let mut n: usize = 0;
        while n < self.assigned.len()
            invariant
                n <= self.assigned@.len(),
                all == self.assigned@,
                match assigned_place(all, slot, n as nat) {
                    Some(k) => 0 <= k < n && found == Some(all[k].1),
                    None => found is None,
                },
            decreases self.assigned@.len() - n,
        {
            if found.is_none() && self.assigned[n].0 == slot {
                found = Some(self.assigned[n].1);
            }
            n += 1;
        }
        found
    }

    /// The slot that a picture is in.
    pub fn slot_of(&self, index: usize) -> (r: Option<Slot>)
        ensures
            r == (match holder_place(self@.assigned, index, self@.assigned.len()) {
                Some(k) => Some(self@.assigned[k].0),
                None => None,
            }),
    {
        let ghost all = self@.assigned;
        let mut found: Option<Slot> = None;
        let mut n: usize = 0;
        while n < self.assigned.len()
            invariant
                n <= self.assigned@.len(),
                all == self.assigned@,
                match holder_place(all, index, n as nat) {
                    Some(k) => 0 <= k < n && found == Some(all[k].0),
                    None => found is None,
                },
            decreases self.assigned@.len() - n,
        {
            if found.is_none() && self.assigned[n].1 == index {
                found = Some(self.assigned[n].0);
            }
            n += 1;
        }
        found
    }

    /// A small picture of a loaded one, where it can be made.
    pub fn texture_for(&self, index: usize) -> (r: Option<Pixels>)
        requires
            index < self@.images.len(),
        ensures
            (match r {
                Some(p) => Some(p@),
                None => None,
            }) == small_image(self@.images[index as int].bytes, THUMB_SIDE, THUMB_SIDE),
    {
        small_picture(self.images[index].bytes.as_slice(), THUMB_SIDE, THUMB_SIDE)
    }

    /// The pictures that are in no slot yet.
    pub fn tray(&self) -> (r: Vec<usize>)
        ensures
            r@ == tray_of(self@.assigned, self@.images.len()),
    {
        let mut r: Vec<usize> = Vec::new();
        let mut n: usize = 0;
        while n < self.images.len()
            invariant
                n <= self.images@.len(),
                r@ == tray_of(self@.assigned, n as nat),
            decreases self.images@.len() - n,
        {
            if self.slot_of(n).is_none() {
                r.push(n);
            }
            n += 1;
        }
        r
    }

    /// A picture of the tray was clicked: it is chosen, or chosen no longer.
    pub fn click_image(&mut self, index: usize)
        requires
            old(self)@.wf(),
            index < old(self)@.images.len(),
        ensures
            final(self)@ == (DialogView {
                selected: if old(self)@.selected == Some(index) {
                    None
                } else {
                    Some(index)
                },
                ..old(self)@
            }),
            final(self)@.wf(),
    {
        let chosen = match self.selected {
            Some(i) => i == index,
            None => false,
        };
        self.selected = if chosen {
            None
        } else {
            Some(index)
        };
    }

    /// A slot was clicked: the chosen picture, if any, goes into it.
    pub fn click_slot(&mut self, slot: Slot)
        requires
            old(self)@.wf(),
        ensures
            final(self)@.wf(),
            final(self)@ == (match old(self)@.selected {
                Some(index) => with_assigned(old(self)@, slot, index),
                None => old(self)@,
            }),
    {
        match self.selected {
            Some(index) => self.assign(slot, index),
            None => {},
        }
    }

    /// Shows one more floor.
    pub fn add_floor(&mut self)
        requires
            old(self)@.wf(),
            old(self)@.extra_floors < u32::MAX,
        ensures
            final(self)@ == (DialogView {
                extra_floors: (old(self)@.extra_floors + 1) as u32,
                ..old(self)@
            }),
            final(self)@.wf(),
    {
        let ghost v = self@;
        self.extra_floors = self.extra_floors + 1;
        assert forall|i: int| 0 <= i < self@.assigned.len() implies (
        #[trigger] self@.assigned[i]).1 < self@.images.len() && self@.offers(
            self@.assigned[i].0,
        ) by {
            assert(v.offers(v.assigned[i].0));
        }
    }

    /// Can the uppermost floor be taken away?
    pub fn can_remove_floor(&self) -> (r: bool)
        ensures
            r == is_floor_free(self@),
    {
        self.extra_floors > 0 && self.assignment(Slot::Floor(self.extra_floors)).is_none()
    }

    /// Takes the uppermost floor away, where it can be.
    pub fn remove_floor(&mut self)
        requires
            old(self)@.wf(),
        ensures
            final(self)@ == (if is_floor_free(old(self)@) {
                DialogView { extra_floors: (old(self)@.extra_floors - 1) as u32, ..old(self)@ }
            } else {
                old(self)@
            }),
            final(self)@.wf(),
    {
        if !self.can_remove_floor() {
            return;
        }
        let ghost v = self@;
        self.extra_floors = self.extra_floors - 1;
        assert forall|i: int| 0 <= i < self@.assigned.len() implies (
        #[trigger] self@.assigned[i]).1 < self@.images.len() && self@.offers(
            self@.assigned[i].0,
        ) by {
            assert(v.offers(v.assigned[i].0));
            lemma_assigned_place(v.assigned, Slot::Floor(v.extra_floors), v.assigned.len(), i);
        }
    }

    /// The number of floors shown above the ground floor.
    pub fn extra_floors(&self) -> (r: u32)
        ensures
            r == self@.extra_floors,
    {
        self.extra_floors
    }

    /// Sets the width of the building.
    pub fn set_building_width(&mut self, meters: Scalar)
        ensures
            final(self)@ == (DialogView {
                building_width: larger(meters, Scalar { bits: LEAST_WIDTH_BITS }),
                ..old(self)@
            }),
    {
        self.building_width_m = meters.at_least(Scalar { bits: LEAST_WIDTH_BITS });
    }

    /// Sets the height of a storey.
    pub fn set_floor_height(&mut self, meters: Scalar)
        ensures
            final(self)@ == (DialogView {
                floor_height: larger(meters, Scalar { bits: HALF_BITS }),
                ..old(self)@
            }),
    {
        self.floor_height_m = meters.at_least(Scalar { bits: HALF_BITS });
    }

    /// Sets how opaque the pictures are.
    pub fn set_opacity(&mut self, opacity: Scalar)
        ensures
            final(self)@ == (DialogView { opacity, ..old(self)@ }),
    {
        self.opacity = opacity;
    }

    /// The slots that hold pictures, each with its picture.
    fn held(&self) -> (r: Vec<(Slot, &SetupImage)>)
        requires
            self@.wf(),
        ensures
            r@.len() == self@.assigned.len(),
            forall|i: int|
                0 <= i < r@.len() ==> (#[trigger] r@[i]).0 == self@.assigned[i].0 && shows(
                    *r@[i].1,
                    self@.images[self@.assigned[i].1 as int],
                ),
    {
        let mut r: Vec<(Slot, &SetupImage)> = Vec::new();
        let mut n: usize = 0;
        while n < self.assigned.len()
            invariant
                n <= self.assigned@.len(),
                self@.wf(),
                r@.len() == n,
                forall|i: int|
                    0 <= i < n ==> (#[trigger] r@[i]).0 == self@.assigned[i].0 && shows(
                        *r@[i].1,
                        self@.images[self@.assigned[i].1 as int],
                    ),
            decreases self.assigned@.len() - n,
        {
            let (slot, index) = self.assigned[n];
            assert(self@.assigned[n as int].1 < self@.images.len());
            r.push((slot, &self.images[index]));
            n += 1;
        }
        r
    }

    /// How the pictures in the slots are placed.
    pub fn placements(&self) -> (r: Option<PlacementPlan>)
        requires
            self@.wf(),
        ensures
            r is Some == (self@.assigned.len() > 0),
            r matches Some(plan) ==> {
                let slots = self@.slots();
                &&& anchor_place(slots, slots.len()) == Some(plan.anchor as int)
                &&& plan.x_extent == x_extent(slots)
                &&& plan.y_extent == y_extent(slots)
                &&& plan.elevations@ == elevations_in(slots, slots.len())
                &&& plan.storeys == storeys_of(slots, slots.len())
                &&& plan.placements@.len() == slots.len()
                &&& forall|i: int|
                    0 <= i < slots.len() ==> is_placement_of(
                        #[trigger] plan.placements@[i],
                        slots[i],
                        self@.images[self@.assigned[i].1 as int],
                        self@.opacity,
                    )
            },
    {
        let held = self.held();
        assert forall|i: int| 0 <= i < held@.len() implies fits_text(
            (#[trigger] held@[i]).1.bytes@.len(),
        ) by {
            assert(self@.assigned[i].1 < self@.images.len());
            assert(fits_text(self@.images[self@.assigned[i].1 as int].bytes.len()));
        }
        let r = build_placements(&held, self.opacity);
        assert(slots_of(held@) =~= self@.slots());
        proof {
            if r is Some {
                let plan = r->0;
                assert forall|i: int| 0 <= i < self@.slots().len() implies is_placement_of(
                    #[trigger] plan.placements@[i],
                    self@.slots()[i],
                    self@.images[self@.assigned[i].1 as int],
                    self@.opacity,
                ) by {
                    assert(held@[i].0 == self@.assigned[i].0);
                }
            }
        }
        r
    }

    /// The typed width of the building and the typed height of a storey.
    pub fn measures(&self) -> (r: (Scalar, Scalar))
        ensures
            r == (self@.building_width, self@.floor_height),
    {
        (self.building_width_m, self.floor_height_m)
    }

    /// How opaque the placed pictures will be.
    pub fn opacity(&self) -> (r: Scalar)
        ensures
            r == self@.opacity,
    {
        self.opacity
    }

    /// The picture that a click on a slot would put there.
    pub fn selected(&self) -> (r: Option<usize>)
        ensures
            r == self@.selected,
    {
        self.selected
    }

    /// The loaded pictures.
    pub fn images(&self) -> (r: &Vec<SetupImage>)
        ensures
            images_view(r@) == self@.images,
    {
        &self.images
    }

    /// The slots that hold pictures, with the pictures in them, in the order
    /// in which they were filled.
    pub fn assigned(&self) -> (r: &Vec<(Slot, usize)>)
        ensures
            r@ == self@.assigned,
    {
        &self.assigned
    }

    /// Ends a frame of the dialog: where it was accepted, cancelled or closed
    /// it is emptied. Says how many pictures were placed, where it was
    /// accepted.
    pub fn end_frame(&mut self, accepted: bool, cancelled: bool, still_open: bool) -> (status: Option<
        String,
    >)
        ensures
            status is Some == accepted,
            status matches Some(s) ==> s@ == "placed "@ + decimal(old(self)@.assigned.len())
                + " reference image"@ + plural(old(self)@.assigned.len()),
            final(self)@ == (if accepted || cancelled || !still_open {
                emptied(old(self)@)
            } else {
                old(self)@
            }),
    {
        let count: usize = self.assigned.len();
        if accepted || cancelled || !still_open {
            self.images = Vec::new();
            self.assigned = Vec::new();
            self.selected = None;
            self.open = false;
            assert(self@.images =~= seq![]);
            assert(self@.assigned =~= seq![]);
        }
        if accepted {
            let mut s = "placed ".to_owned();
            push_decimal(&mut s, count as u64);
            s.append(" reference image");
            push_plural(&mut s, count);
            Some(s)
        } else {
            None
        }
    }
}

/// Views differ in how far they are trusted. Elevations go first, the front
/// before the back, the right before the left; then comes the view from
/// above, and last the floors upwards.
pub proof fn law_views_are_ranked(s: Slot, t: Slot)
    ensures
        s != t ==> s.rank() != t.rank(),
        Slot::Front.rank() < Slot::Back.rank(),
        Slot::Back.rank() < Slot::Right.rank(),
        Slot::Right.rank() < Slot::Left.rank(),
        Slot::Left.rank() < Slot::Top.rank(),
        Slot::Top.rank() < Slot::Floor(0).rank(),
        s is Floor && t is Floor ==> (s->Floor_0 < t->Floor_0 <==> s.rank() < t.rank()),
{
}

/// Putting a picture into a slot leaves it there and nowhere else, and
/// nothing else in that slot.
pub proof fn law_assignment_is_one_to_one(v: DialogView, slot: Slot, index: usize, k: int)
    requires
        v.wf(),
        index < v.images.len(),
        0 <= k < without(v.assigned, slot, Some(index), v.assigned.len()).len(),
    ensures
        without(v.assigned, slot, Some(index), v.assigned.len())[k].0 != slot,
        without(v.assigned, slot, Some(index), v.assigned.len())[k].1 != index,
{
    lemma_without(v.assigned, slot, Some(index), v.assigned.len());
}

/// Some picture is in this slot.
pub open spec fn is_filled(slots: Seq<Slot>, wanted: Slot) -> bool {
    exists|i: int| 0 <= i < slots.len() && #[trigger] slots[i] == wanted
}

/// Some picture shows the building from above.
pub open spec fn has_plan(slots: Seq<Slot>) -> bool {
    exists|i: int| 0 <= i < slots.len() && ((#[trigger] slots[i]) is Top || slots[i] is Floor)
}

proof fn lemma_slot_place(slots: Seq<Slot>, wanted: Slot, n: nat)
    requires
        n <= slots.len(),
    ensures
        slot_place(slots, wanted, n) matches Some(i) ==> 0 <= i < n && slots[i] == wanted,
        slot_place(slots, wanted, n) is None ==> forall|i: int|
            0 <= i < n ==> #[trigger] slots[i] != wanted,
    decreases n,
{
    if n > 0 {
        lemma_slot_place(slots, wanted, (n - 1) as nat);
    }
}

proof fn lemma_floor_place(slots: Seq<Slot>, n: nat)
    requires
        n <= slots.len(),
    ensures
        floor_place(slots, n) matches Some(i) ==> 0 <= i < n && slots[i] is Floor,
        floor_place(slots, n) is None ==> forall|i: int|
            0 <= i < n ==> !((#[trigger] slots[i]) is Floor),
    decreases n,
{
    if n > 0 {
        lemma_floor_place(slots, (n - 1) as nat);
    }
}

/// What is read as the outline from above is a plan: the ground floor before
/// the roof, the roof before another floor, and always some plan where there
/// is one.
pub proof fn law_plan_is_the_outline_from_above(slots: Seq<Slot>)
    ensures
        plan_place(slots) is Some <==> has_plan(slots),
        plan_place(slots) matches Some(i) ==> {
            &&& 0 <= i < slots.len()
            &&& slots[i] is Top || slots[i] is Floor
            &&& is_filled(slots, Slot::Floor(0)) ==> slots[i] == Slot::Floor(0)
            &&& !is_filled(slots, Slot::Floor(0)) && is_filled(slots, Slot::Top) ==> slots[i]
                == Slot::Top
        },
{
    lemma_slot_place(slots, Slot::Floor(0), slots.len());
    lemma_slot_place(slots, Slot::Top, slots.len());
    lemma_floor_place(slots, slots.len());
}

/// The building is as wide along x as a picture that shows x across: the
/// front, else the back, else a plan. It is as deep along y as a side view is
/// wide, the left before the right; a plan lies flat with y upwards in it, so
/// there it is the height. A view that does not show an axis never gives the
/// extent along it.
pub proof fn law_extents_are_read_where_they_are_shown(slots: Seq<Slot>)
    requires
        slots.len() <= usize::MAX,
    ensures
        match x_extent(slots) {
            Extent::Width(i) => {
                &&& i < slots.len()
                &&& is_filled(slots, Slot::Front) ==> slots[i as int] == Slot::Front
                &&& !is_filled(slots, Slot::Front) && is_filled(slots, Slot::Back)
                    ==> slots[i as int] == Slot::Back
                &&& !is_filled(slots, Slot::Front) && !is_filled(slots, Slot::Back)
                    ==> slots[i as int] is Top || slots[i as int] is Floor
            },
            Extent::Typed => !is_filled(slots, Slot::Front) && !is_filled(slots, Slot::Back)
                && !has_plan(slots),
            _ => false,
        },
        match y_extent(slots) {
            Extent::Width(i) => {
                &&& i < slots.len()
                &&& slots[i as int] == Slot::Left || slots[i as int] == Slot::Right
                &&& is_filled(slots, Slot::Left) ==> slots[i as int] == Slot::Left
            },
            Extent::Height(i) => {
                &&& i < slots.len()
                &&& slots[i as int] is Top || slots[i as int] is Floor
                &&& plan_place(slots) == Some(i as int)
                &&& !is_filled(slots, Slot::Left) && !is_filled(slots, Slot::Right)
            },
            Extent::SameAsX => !is_filled(slots, Slot::Left) && !is_filled(slots, Slot::Right)
                && !has_plan(slots),
            Extent::Typed => false,
        },
{
    lemma_slot_place(slots, Slot::Front, slots.len());
    lemma_slot_place(slots, Slot::Back, slots.len());
    lemma_slot_place(slots, Slot::Left, slots.len());
    lemma_slot_place(slots, Slot::Right, slots.len());
    law_plan_is_the_outline_from_above(slots);
}

/// The roof is above every storey that has a plan: there are as many storeys
/// as the highest plan needs, and one at least.
pub proof fn law_every_plan_has_its_storey(slots: Seq<Slot>, n: nat)
    requires
        n <= slots.len(),
    ensures
        storeys_of(slots, n) >= 1,
        forall|i: int|
            0 <= i < n && (#[trigger] slots[i]) is Floor ==> slots[i]->Floor_0 < storeys_of(
                slots,
                n,
            ),
        storeys_of(slots, n) == 1 || exists|i: int|
            0 <= i < n && (#[trigger] slots[i]) is Floor && slots[i]->Floor_0 + 1 == storeys_of(
                slots,
                n,
            ),
    decreases n,
{
    if n > 0 {
        law_every_plan_has_its_storey(slots, (n - 1) as nat);
        if storeys_of(slots, n) != storeys_of(slots, (n - 1) as nat) {
            assert(slots[n - 1] is Floor);
        } else if storeys_of(slots, n) != 1 {
            let i = choose|i: int|
                0 <= i < n - 1 && (#[trigger] slots[i]) is Floor && slots[i]->Floor_0 + 1
                    == storeys_of(slots, (n - 1) as nat);
            assert(slots[i] is Floor);
        }
    }
}

/// The roof is as high as the highest elevation: all four elevations count,
/// each once, and no plan does.
pub proof fn law_roof_clears_the_elevations(slots: Seq<Slot>, n: nat)
    requires
        n <= slots.len() <= usize::MAX,
    ensures
        forall|i: usize| #[trigger]
            elevations_in(slots, n).contains(i) <==> i < n && !(slots[i as int] is Top)
                && !(slots[i as int] is Floor),
        elevations_in(slots, n).no_duplicates(),
    decreases n,
{
    if n > 0 {
        law_roof_clears_the_elevations(slots, (n - 1) as nat);
        let before = elevations_in(slots, (n - 1) as nat);
        let now = elevations_in(slots, n);
        let last = (n - 1) as usize;
        assert(!before.contains(last));
        assert forall|i: usize| #[trigger] now.contains(i) <==> i < n && !(slots[i as int] is Top)
            && !(slots[i as int] is Floor) by {
            assert(before.contains(i) <==> i < n - 1 && !(slots[i as int] is Top) && !(
            slots[i as int] is Floor));
            if before.contains(i) {
                let k = choose|k: int| 0 <= k < before.len() && before[k] == i;
                assert(now[k] == i);
            }
            if now.contains(i) && !before.contains(i) {
                assert(i == last);
            }
            if slots[n - 1].elevation() && i == last {
                assert(now[before.len() as int] == i);
            }
        }
    }
}

/// Plans lie flat at their height, elevations stand upright. What is seen
/// from behind or from the left is mirrored, so that it lines up with what is
/// seen from the front and from the right.
pub proof fn law_views_stand_where_they_are_seen_from(slot: Slot)
    ensures
        stand_of(slot).0 is Z <==> slot is Top || slot is Floor,
        stand_of(slot).0 is Y <==> slot is Front || slot is Back,
        stand_of(slot).2 <==> slot is Back || slot is Left,
        slot is Floor ==> stand_of(slot).1 == Stand::Storey(slot->Floor_0),
        slot is Top ==> stand_of(slot).1 == Stand::Roof,
        // behind the model, as seen from the side the view is named after
        slot is Front ==> stand_of(slot).1 == (Stand::AlongY { positive: true }),
        slot is Right ==> stand_of(slot).1 == (Stand::AlongX { positive: false }),
{
}

proof fn lemma_assigned_without(
    assigned: Seq<(Slot, usize)>,
    slot: Slot,
    index: Option<usize>,
    n: nat,
    pair: (Slot, usize),
)
    requires
        n <= assigned.len(),
    ensures
        without(assigned, slot, index, n).contains(pair) <==> pair.0 != slot && Some(pair.1)
            != index && exists|k: int| 0 <= k < n && #[trigger] assigned[k] == pair,
    decreases n,
{
    if n > 0 {
        lemma_assigned_without(assigned, slot, index, (n - 1) as nat, pair);
        let before = without(assigned, slot, index, (n - 1) as nat);
        let now = without(assigned, slot, index, n);
        if before.contains(pair) {
            let k = choose|k: int| 0 <= k < before.len() && before[k] == pair;
            assert(now[k] == pair);
        }
        if assigned[n - 1] == pair && now.len() > before.len() {
            assert(now[before.len() as int] == pair);
        }
        if now.contains(pair) && !before.contains(pair) {
            assert(assigned[n - 1] == pair);
        }
    }
}

/// Assigning an image to a slot puts it there, takes it from where it was
/// and what was there away, and leaves all other assignments.
pub proof fn law_assigning_leaves_the_others(
    v: DialogView,
    slot: Slot,
    index: usize,
    pair: (Slot, usize),
)
    ensures
        v.offers(slot) ==> with_assigned(v, slot, index).assigned.contains((slot, index)),
        v.offers(slot) && pair.0 != slot && pair.1 != index ==> (with_assigned(
            v,
            slot,
            index,
        ).assigned.contains(pair) <==> v.assigned.contains(pair)),
        v.offers(slot) && pair != (slot, index) && (pair.0 == slot || pair.1 == index)
            ==> !with_assigned(v, slot, index).assigned.contains(pair),
        !v.offers(slot) ==> with_assigned(v, slot, index) == v,
        with_assigned(v, slot, index).images == v.images,
{
    let n = v.assigned.len();
    let rest = without(v.assigned, slot, Some(index), n);
    lemma_assigned_without(v.assigned, slot, Some(index), n, pair);
    let now = rest.push((slot, index));
    assert(now[rest.len() as int] == (slot, index));
    if rest.contains(pair) {
        let k = choose|k: int| 0 <= k < rest.len() && rest[k] == pair;
        assert(now[k] == pair);
    }
    if v.assigned.contains(pair) {
        let k = choose|k: int| 0 <= k < n && v.assigned[k] == pair;
        assert(v.assigned[k] == pair);
    }
}

/// Clearing a slot empties it and no other.
pub proof fn law_clearing_leaves_the_others(v: DialogView, slot: Slot, pair: (Slot, usize))
    ensures
        without(v.assigned, slot, None, v.assigned.len()).contains(pair) <==> v.assigned.contains(
            pair,
        ) && pair.0 != slot,
{
    lemma_assigned_without(v.assigned, slot, None, v.assigned.len(), pair);
    if v.assigned.contains(pair) {
        let k = choose|k: int| 0 <= k < v.assigned.len() && v.assigned[k] == pair;
        assert(v.assigned[k] == pair);
    }
}

proof fn lemma_found_places(assigned: Seq<(Slot, usize)>, slot: Slot, index: usize, n: nat)
    requires
        n <= assigned.len(),
    ensures
        assigned_place(assigned, slot, n) matches Some(k) ==> 0 <= k < n && assigned[k].0 == slot,
        assigned_place(assigned, slot, n) is None ==> forall|k: int|
            0 <= k < n ==> (#[trigger] assigned[k]).0 != slot,
        holder_place(assigned, index, n) matches Some(k) ==> 0 <= k < n && assigned[k].1 == index,
        holder_place(assigned, index, n) is None ==> forall|k: int|
            0 <= k < n ==> (#[trigger] assigned[k]).1 != index,
    decreases n,
{
    if n > 0 {
        lemma_found_places(assigned, slot, index, (n - 1) as nat);
    }
}

/// What a slot shows and where an image is shown are two sides of the same
/// assignment.
pub proof fn law_slots_and_images_agree(v: DialogView, k: int)
    requires
        v.wf(),
        0 <= k < v.assigned.len(),
    ensures
        assigned_place(v.assigned, v.assigned[k].0, v.assigned.len()) == Some(k),
        holder_place(v.assigned, v.assigned[k].1, v.assigned.len()) == Some(k),
{
    let (slot, index) = v.assigned[k];
    lemma_found_places(v.assigned, slot, index, v.assigned.len());
    assert(v.assigned[k].0 == slot && v.assigned[k].1 == index);
    let a = assigned_place(v.assigned, slot, v.assigned.len())->0;
    let b = holder_place(v.assigned, index, v.assigned.len())->0;
    if a < k {
        assert(v.assigned[a].0 != v.assigned[k].0);
    } else if k < a {
        assert(v.assigned[k].0 != v.assigned[a].0);
    }
    if b < k {
        assert(v.assigned[b].1 != v.assigned[k].1);
    } else if k < b {
        assert(v.assigned[k].1 != v.assigned[b].1);
    }
}

/// The tray holds the images that no slot has.
pub proof fn law_tray_holds_the_rest(assigned: Seq<(Slot, usize)>, n: nat, i: usize)
    requires
        n <= usize::MAX,
    ensures
        tray_of(assigned, n).contains(i) <==> i < n && forall|k: int|
            0 <= k < assigned.len() ==> (#[trigger] assigned[k]).1 != i,
    decreases n,
{
    lemma_found_places(assigned, Slot::Top, i, assigned.len());
    if n > 0 {
        law_tray_holds_the_rest(assigned, (n - 1) as nat, i);
        let before = tray_of(assigned, (n - 1) as nat);
        let now = tray_of(assigned, n);
        if before.contains(i) {
            let k = choose|k: int| 0 <= k < before.len() && before[k] == i;
            assert(now[k] == i);
        }
        if now.len() > before.len() {
            assert(now[before.len() as int] == n - 1);
        }
        if now.contains(i) && !before.contains(i) {
            assert(i == n - 1);
        }
    }
}

/// Files that are pictures join the others in the order they come, with
/// their size; others are passed over. Nothing that is there changes, but
/// that the dialog opens.
pub proof fn law_arriving_files_join_the_images(
    v: DialogView,
    files: Seq<(String, Vec<u8>)>,
    n: nat,
)
    requires
        0 < n <= files.len(),
    ensures
        ({
            let before = with_files(v, files, (n - 1) as nat);
            let after = with_files(v, files, n);
            let size = image_dimensions(files[n - 1].1@);
            &&& after.open
            &&& after.assigned == v.assigned && after.selected == v.selected
            &&& v.images.is_prefix_of(before.images) && before.images.is_prefix_of(after.images)
            &&& size is None ==> after.images == before.images
            &&& size is Some ==> after.images.len() == before.images.len() + 1
                && after.images.last().name == files[n - 1].0@ && after.images.last().bytes
                == files[n - 1].1@ && after.images.last().px == size->0
        }),
    decreases n,
{
    if n > 1 {
        law_arriving_files_join_the_images(v, files, (n - 1) as nat);
    } else {
        assert(with_files(v, files, 0).images == v.images);
    }
}

/// Every picture is at least a pixel each way.
pub proof fn law_pictures_have_pixels(n: u32)
    ensures
        at_least_one(n) >= 1,
        n >= 1 ==> at_least_one(n) == n,
{
}

/// A placed picture is the one that was assigned, at least a pixel each way
/// and never more than opaque, and it lies flat just where it is a plan.
pub proof fn law_placed_pictures_are_those_assigned(
    p: Placement,
    slot: Slot,
    image: SetupImageView,
    opacity: Scalar,
)
    requires
        is_placement_of(p, slot, image, opacity),
    ensures
        p.data_base64@ == base64_text(image.bytes),
        p.px.0 >= 1 && p.px.1 >= 1,
        image.px.0 >= 1 ==> p.px.0 == image.px.0,
        image.px.1 >= 1 ==> p.px.1 == image.px.1,
        !p.opacity.less(Scalar { bits: 0 }),
        !(Scalar { bits: ONE_BITS }).less(p.opacity),
        p.plane is Z <==> slot is Top || slot is Floor,
        p.flip_h <==> slot is Back || slot is Left,
{
}

/// A floor is taken away only from the top, and only while it is empty.
pub proof fn law_only_empty_floors_go(v: DialogView, k: int)
    requires
        is_floor_free(v),
        0 <= k < v.assigned.len(),
    ensures
        v.extra_floors > 0,
        v.assigned[k].0 != Slot::Floor(v.extra_floors),
{
    lemma_found_places(v.assigned, Slot::Floor(v.extra_floors), 0, v.assigned.len());
}

} // verus!
