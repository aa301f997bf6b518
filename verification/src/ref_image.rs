//! Reference images: taking files in, drawing, the two-point scale
//! calibration, markers, and moving an image by hand.

use vstd::prelude::*;
use std::collections::HashMap;
use crate::images::{
    base64_bytes, base64_encode, base64_text, decode_rgba, decode_texture, decoded_image, fits_text, Pixels,
    PixelsView,
};
use crate::modal::{axis_letter, axis_name, Button, ModalKey, Mouse, Reply};
use crate::pdf::{files_view, has_header, is_pdf, name_pages, named_pages, NamedFile};
use crate::ref_setup::{at_least_one, ImagePlane, HALF_BITS};
use crate::scalar::{larger, smaller, Scalar, Vec3, ONE_BITS};
use crate::settings::Unit;
use crate::text::{chars_of, same};

verus! {

broadcast use vstd::std_specs::hash::group_hash_axioms;

/// A picture of the document that stands in the viewport.
#[derive(Debug)]
pub struct ReferenceImage {
    pub id: u64,
    pub name: String,
    pub plane: ImagePlane,
    pub location: Vec3,
    pub rotation_deg: Scalar,
    pub width_m: Scalar,
    pub aspect: Scalar,
    pub opacity: Scalar,
    pub visible: bool,
    pub flip_h: bool,
    pub flip_v: bool,
    pub data_base64: String,
}

/// The first of the images with this identifier.
pub open spec fn image_place(images: Seq<ReferenceImage>, id: u64, n: nat) -> Option<int>
    decreases n,
{
    if n == 0 {
        None
    } else if image_place(images, id, (n - 1) as nat) is Some {
        image_place(images, id, (n - 1) as nat)
    } else if images[n - 1].id == id {
        Some(n - 1)
    } else {
        None
    }
}

pub proof fn lemma_image_place(images: Seq<ReferenceImage>, id: u64, n: nat)
    requires
        n <= images.len(),
    ensures
        image_place(images, id, n) matches Some(i) ==> 0 <= i < n && images[i].id == id,
        image_place(images, id, n) is None ==> forall|i: int|
            0 <= i < n ==> (#[trigger] images[i]).id != id,
    decreases n,
{
    if n > 0 {
        lemma_image_place(images, id, (n - 1) as nat);
    }
}

fn find_image(images: &Vec<ReferenceImage>, id: u64) -> (r: Option<usize>)
    ensures
        r matches Some(i) ==> image_place(images@, id, images@.len()) == Some(i as int) && i
            < images@.len(),
        r is None ==> image_place(images@, id, images@.len()) is None,
{
    let mut found: Option<usize> = None;
    let mut n: usize = 0;
    while n < images.len()
        invariant
            n <= images@.len(),
            found matches Some(i) ==> image_place(images@, id, n as nat) == Some(i as int) && i < n,
            found is None ==> image_place(images@, id, n as nat) is None,
        decreases images@.len() - n,
    {
        if found.is_none() && images[n].id == id {
            found = Some(n);
        }
        n += 1;
    }
    found
}

/// The code of a character, a letter taken as a small one.
pub open spec fn small_code(c: char) -> u32 {
    if 'A' <= c <= 'Z' {
        (c as u32 + 32) as u32
    } else {
        c as u32
    }
}

/// The text is this word, in letters large or small.
pub open spec fn spells(text: Seq<char>, word: Seq<char>) -> bool {
    &&& text.len() == word.len()
    &&& forall|i: int| 0 <= i < text.len() ==> small_code(#[trigger] text[i]) == word[i] as u32
}

fn is_spelled(text: &str, word: &str) -> (r: bool)
    ensures
        r == spells(text@, word@),
{
    let a = chars_of(text);
    let b = chars_of(word);
    if a.len() != b.len() {
        return false;
    }
    let mut i: usize = 0;
    while i < a.len()
        invariant
            i <= a@.len(),
            a@ == text@,
            b@ == word@,
            a@.len() == b@.len(),
            forall|k: int| 0 <= k < i ==> small_code(#[trigger] text@[k]) == word@[k] as u32,
        decreases a@.len() - i,
    {
        let c = a[i];
        let code: u32 = if 'A' <= c && c <= 'Z' {
            c as u32 + 32
        } else {
            c as u32
        };
        if code != b[i] as u32 {
            assert(small_code(text@[i as int]) != word@[i as int] as u32);
            return false;
        }
        i += 1;
    }
    true
}

/// The ending of a file's name is that of a picture or of a PDF.
pub open spec fn supported(extension: Seq<char>) -> bool {
    spells(extension, "png"@) || spells(extension, "jpg"@) || spells(extension, "jpeg"@) || spells(
        extension,
        "pdf"@,
    )
}

/// Is a file with this ending taken in when it is dropped on the window?
pub fn is_supported(extension: &str) -> (r: bool)
    ensures
        r == supported(extension@),
{
    is_spelled(extension, "png") || is_spelled(extension, "jpg") || is_spelled(extension, "jpeg")
        || is_spelled(extension, "pdf")
}

/// What a chosen or dropped file brings: the pages of a PDF, anything else as
/// it is.
pub fn deliver_setup_file(name: String, bytes: Vec<u8>, pages: Vec<Option<Vec<u8>>>) -> (r: Vec<
    (String, Vec<u8>),
>)
    ensures
        files_view(r@) == (if has_header(bytes@) {
            named_pages(name@, pages@, pages@.len())
        } else {
            seq![NamedFile { name: name@, bytes: bytes@ }]
        }),
{
    if is_pdf(bytes.as_slice()) {
        name_pages(name.as_str(), pages)
    } else {
        let mut r: Vec<(String, Vec<u8>)> = Vec::new();
        let ghost file = NamedFile { name: name@, bytes: bytes@ };
        r.push((name, bytes));
        assert(files_view(r@) =~= seq![file]);
        r
    }
}

/// Two: the width of a new image, in meters.
pub const NEW_WIDTH_BITS: u32 = 0x4000_0000;

/// A new reference image. It stands upright on the front plane, with its
/// lower edge on the ground.
#[derive(Debug)]
pub struct NewReference {
    pub name: String,
    pub plane: ImagePlane,
    /// Its width and height in pixels, at least one each.
    pub px: (u32, u32),
    pub width_m: Scalar,
    pub opacity: Scalar,
    pub data_base64: String,
}

/// A reference image from the bytes of a file, or what is wrong with them.
pub fn make_reference(name: String, bytes: &[u8]) -> (r: Result<NewReference, String>)
    requires
        fits_text(bytes@.len()),
    ensures
        match decoded_image(bytes@) {
            Ok(pixels) => r matches Ok(image) && image.name == name && image.plane is Y && image.px
                == (at_least_one(pixels.width), at_least_one(pixels.height)) && image.width_m
                == (Scalar { bits: NEW_WIDTH_BITS }) && image.opacity == (Scalar { bits: HALF_BITS })
                && image.data_base64@ == base64_text(bytes@),
            Err(e) => r matches Err(said) && said@ == e,
        },
{
    match decode_rgba(bytes) {
        Ok(pixels) => Ok(
            NewReference {
                name,
                plane: ImagePlane::Y,
                px: (
                    if pixels.width == 0 {
                        1
                    } else {
                        pixels.width
                    },
                    if pixels.height == 0 {
                        1
                    } else {
                        pixels.height
                    },
                ),
                width_m: Scalar { bits: NEW_WIDTH_BITS },
                opacity: Scalar { bits: HALF_BITS },
                data_base64: base64_encode(bytes),
            },
        ),
        Err(e) => Err(e),
    }
}

/// The number of bytes of a text.
pub open spec fn byte_len(text: Seq<char>) -> usize {
    vstd::utf8::encode_utf8(text).len() as usize
}

/// The picture that an embedded text holds.
pub open spec fn texture_of(data: Seq<char>) -> Option<PixelsView> {
    match base64_bytes(data) {
        Some(bytes) => match decoded_image(bytes) {
            Ok(p) => Some(p),
            Err(_) => None,
        },
        None => None,
    }
}

/// What the graphics card holds of the reference images: for each the length
/// of the text that its texture was made from.
#[derive(Debug)]
pub struct RefImageRender {
    cache: HashMap<u64, usize>,
    order: Vec<u64>,
}

/// What a [`RefImageRender`] holds, and what it had uploaded on the way.
#[verifier::ext_equal]
pub struct RenderView {
    pub cache: Map<u64, usize>,
    /// The images to draw, in order.
    pub order: Seq<u64>,
    pub uploads: Seq<(u64, PixelsView)>,
}

/// The texture of an image is there and was made from what it holds.
pub open spec fn is_fresh(cache: Map<u64, usize>, image: ReferenceImage) -> bool {
    cache.dom().contains(image.id) && cache[image.id] == byte_len(image.data_base64@)
}

/// What is held once the first `n` images are drawn.
pub open spec fn drawn(cache: Map<u64, usize>, images: Seq<ReferenceImage>, n: nat) -> RenderView
    decreases n,
{
    if n == 0 {
        RenderView { cache, order: seq![], uploads: seq![] }
    } else {
        let before = drawn(cache, images, (n - 1) as nat);
        let image = images[n - 1];
        if !image.visible {
            before
        } else if is_fresh(before.cache, image) {
            RenderView { order: before.order.push(image.id), ..before }
        } else {
            match texture_of(image.data_base64@) {
                Some(p) => RenderView {
                    cache: before.cache.insert(image.id, byte_len(image.data_base64@)),
                    order: before.order.push(image.id),
                    uploads: before.uploads.push((image.id, p)),
                },
                None => before,
            }
        }
    }
}

/// The identifier belongs to one of the first `n` images.
pub open spec fn is_alive(images: Seq<ReferenceImage>, id: u64, n: nat) -> bool {
    exists|i: int| 0 <= i < n && (#[trigger] images[i]).id == id
}

/// The part of the cache that belongs to images.
pub open spec fn kept(cache: Map<u64, usize>, images: Seq<ReferenceImage>, n: nat) -> Map<
    u64,
    usize,
> {
    Map::new(|id: u64| cache.dom().contains(id) && is_alive(images, id, n), |id: u64| cache[id])
}

impl RefImageRender {
    pub closed spec fn held(&self) -> Map<u64, usize> {
        self.cache@
    }

    pub closed spec fn shown(&self) -> Seq<u64> {
        self.order@
    }

    pub fn new() -> (r: RefImageRender)
        ensures
            r.held() == Map::<u64, usize>::empty(),
            r.shown() == Seq::<u64>::empty(),
    {
        RefImageRender { cache: HashMap::new(), order: Vec::new() }
    }

    /// Follows the document: says which textures to upload.
    pub fn sync(&mut self, images: &Vec<ReferenceImage>) -> (uploads: Vec<(u64, Pixels)>)
        ensures
            ({
                let all = drawn(old(self).held(), images@, images@.len());
                &&& final(self).shown() == all.order
                &&& final(self).held() == kept(all.cache, images@, images@.len())
                &&& uploads@.len() == all.uploads.len()
                &&& forall|i: int|
                    0 <= i < uploads@.len() ==> (#[trigger] uploads@[i]).0 == all.uploads[i].0
                        && uploads@[i].1@ == all.uploads[i].1
            }),
    {
        let ghost held = self.cache@;
        let mut uploads: Vec<(u64, Pixels)> = Vec::new();
        self.order = Vec::new();
        let mut n: usize = 0;
        while n < images.len()
            invariant
                n <= images@.len(),
                self.order@ == drawn(held, images@, n as nat).order,
                self.cache@ == drawn(held, images@, n as nat).cache,
                uploads@.len() == drawn(held, images@, n as nat).uploads.len(),
                forall|i: int|
                    0 <= i < uploads@.len() ==> (#[trigger] uploads@[i]).0 == drawn(
                        held,
                        images@,
                        n as nat,
                    ).uploads[i].0 && uploads@[i].1@ == drawn(
                        held,
                        images@,
                        n as nat,
                    ).uploads[i].1,
            decreases images@.len() - n,
        {
            let image = &images[n];
            n += 1;
            if image.visible {
                let len: usize = image.data_base64.as_str().len();
                let fresh = match self.cache.get(&image.id) {
                    Some(had) => *had == len,
                    None => false,
                };
                if fresh {
                    self.order.push(image.id);
                } else {
                    match decode_texture(image.data_base64.as_str()) {
                        Some(pixels) => {
                            self.cache.insert(image.id, len);
                            self.order.push(image.id);
                            uploads.push((image.id, pixels));
                        },
                        None => {},
                    }
                }
            }
        }
        let ghost all = drawn(held, images@, images@.len());
        let mut left: HashMap<u64, usize> = HashMap::new();
        assert(left@ =~= kept(all.cache, images@, 0));
        let mut k: usize = 0;
        while k < images.len()
            invariant
                k <= images@.len(),
                self.cache@ == all.cache,
                left@ == kept(all.cache, images@, k as nat),
                self.order@ == all.order,
            decreases images@.len() - k,
        {
            let id: u64 = images[k].id;
            let ghost before = left@;
            match self.cache.get(&id) {
                Some(len) => {
                    left.insert(id, *len);
                },
                None => {},
            }
            assert(left@ =~= kept(all.cache, images@, (k + 1) as nat)) by {
                assert(is_alive(images@, id, (k + 1) as nat)) by {
                    assert(images@[k as int].id == id);
                }
                assert forall|other: u64| is_alive(images@, other, (k + 1) as nat) implies other
                    == id || is_alive(images@, other, k as nat) by {
                    let i = choose|i: int| 0 <= i < k + 1 && (#[trigger] images@[i]).id == other;
                    if i < k {
                        assert(images@[i].id == other);
                    }
                }
                assert forall|other: u64| is_alive(images@, other, k as nat) implies is_alive(
                    images@,
                    other,
                    (k + 1) as nat,
                ) by {
                    let i = choose|i: int| 0 <= i < k && (#[trigger] images@[i]).id == other;
                    assert(images@[i].id == other);
                }
            }
            k += 1;
        }
        self.cache = left;
        uploads
    }

    /// The images to draw, in order.
    pub fn models(&self) -> (r: &Vec<u64>)
        ensures
            r@ == self.shown(),
    {
        &self.order
    }
}

/// No two images have one identifier.
pub open spec fn images_distinct(images: Seq<ReferenceImage>) -> bool {
    forall|i: int, j: int|
        0 <= i < j < images.len() ==> (#[trigger] images[i]).id != (#[trigger] images[j]).id
}

proof fn lemma_drawn_is_fresh(
    cache: Map<u64, usize>,
    images: Seq<ReferenceImage>,
    n: nat,
    i: int,
)
    requires
        images_distinct(images),
        0 <= i < n <= images.len(),
        images[i].visible,
        texture_of(images[i].data_base64@) is Some,
    ensures
        is_fresh(drawn(cache, images, n).cache, images[i]),
    decreases n,
{
    if i < n - 1 {
        lemma_drawn_is_fresh(cache, images, (n - 1) as nat, i);
        assert(images[i].id != images[n - 1].id);
    }
}

proof fn lemma_nothing_to_upload(
    cache: Map<u64, usize>,
    images: Seq<ReferenceImage>,
    n: nat,
)
    requires
        n <= images.len(),
        forall|i: int|
            0 <= i < images.len() && (#[trigger] images[i]).visible && texture_of(
                images[i].data_base64@,
            ) is Some ==> is_fresh(cache, images[i]),
    ensures
        drawn(cache, images, n).uploads == Seq::<(u64, PixelsView)>::empty(),
        drawn(cache, images, n).cache == cache,
    decreases n,
{
    if n > 0 {
        lemma_nothing_to_upload(cache, images, (n - 1) as nat);
        assert(images[n - 1].visible ==> true);
    }
}

/// A texture is uploaded only when the bytes of its image change: following
/// the same images once more uploads nothing.
pub proof fn law_textures_are_uploaded_once(
    cache: Map<u64, usize>,
    images: Seq<ReferenceImage>,
)
    requires
        images_distinct(images),
    ensures
        ({
            let held = kept(drawn(cache, images, images.len()).cache, images, images.len());
            drawn(held, images, images.len()).uploads == Seq::<(u64, PixelsView)>::empty()
        }),
{
    let all = drawn(cache, images, images.len()).cache;
    let held = kept(all, images, images.len());
    assert forall|i: int|
        0 <= i < images.len() && (#[trigger] images[i]).visible && texture_of(
            images[i].data_base64@,
        ) is Some implies is_fresh(held, images[i]) by {
        lemma_drawn_is_fresh(cache, images, images.len(), i);
        assert(is_alive(images, images[i].id, images.len()));
    }
    lemma_nothing_to_upload(held, images, images.len());
}

/// Where a ray meets the plane of an image.
#[derive(Clone, Copy, PartialEq, Eq, Structural, Debug)]
pub struct PlanePick {
    /// How far the ray faces the plane, without its sign.
    pub facing: Scalar,
    /// How far along the ray the plane is met.
    pub distance: Scalar,
    pub point: Vec3,
    /// How far from the middle of the image the point is along its width and
    /// its height, without the signs.
    pub u: Scalar,
    pub v: Scalar,
    /// How far from the middle a point may be.
    pub reach_u: Scalar,
    pub reach_v: Scalar,
    /// The point within the image: (0, 0) is its upper left corner, (1, 1)
    /// its lower right one.
    pub uv: Uv,
}

/// A point within an image.
#[derive(Clone, Copy, PartialEq, Eq, Structural, Debug)]
pub struct Uv {
    pub x: Scalar,
    pub y: Scalar,
}

/// A millionth: a ray that faces a plane less than this runs along it.
pub const LEAST_FACING_BITS: u32 = 0x3586_37bd;

/// The ray meets the plane in front of the eye.
pub open spec fn meets_plane(pick: PlanePick) -> bool {
    !pick.facing.less(Scalar { bits: LEAST_FACING_BITS }) && !(pick.distance.less(
        Scalar { bits: 0 },
    ) || pick.distance.equal(Scalar { bits: 0 }))
}

fn is_meeting(pick: PlanePick) -> (r: bool)
    ensures
        r == meets_plane(pick),
{
    let zero = Scalar { bits: 0 };
    !pick.facing.is_less(Scalar { bits: LEAST_FACING_BITS }) && !(pick.distance.is_less(zero)
        || pick.distance.is_equal(zero))
}

/// The pick is on the image, or just off its edge.
pub open spec fn on_image(pick: PlanePick) -> bool {
    meets_plane(pick) && !pick.reach_u.less(pick.u) && !pick.reach_v.less(pick.v)
}

/// The calibration tool: two points are picked on an image, then their real
/// distance is typed.
#[derive(Debug)]
pub struct CalibrateTool {
    pub target: Option<u64>,
    pub points: Vec<Vec3>,
    pub distance_input: String,
}

impl CalibrateTool {
    /// The tool is not in use.
    pub open spec fn idle(&self) -> bool {
        self.target is None && self.points@ == Seq::<Vec3>::empty() && self.distance_input@
            == Seq::<char>::empty()
    }

    pub fn new() -> (r: CalibrateTool)
        ensures
            r.idle(),
    {
        let r = CalibrateTool { target: None, points: Vec::new(), distance_input: String::new() };
        proof {
            reveal_strlit("");
        }
        assert(r.distance_input@ =~= Seq::<char>::empty());
        r
    }

    pub fn active(&self) -> (r: bool)
        ensures
            r == (self.target is Some),
    {
        self.target.is_some()
    }

    pub open spec fn is_picking(&self) -> bool {
        self.target is Some && self.points@.len() < 2
    }

    /// Are fewer than two points picked?
    pub fn picking(&self) -> (r: bool)
        ensures
            r == self.is_picking(),
    {
        self.active() && self.points.len() < 2
    }

    /// Starts on an image.
    pub fn start(&mut self, image_id: u64)
        ensures
            final(self).target == Some(image_id),
            final(self).points@ == Seq::<Vec3>::empty(),
            final(self).distance_input@ == Seq::<char>::empty(),
    {
        *self = CalibrateTool::new();
        self.target = Some(image_id);
    }

    pub fn cancel(&mut self)
        ensures
            final(self).idle(),
    {
        *self = CalibrateTool::new();
    }

    /// The two points whose distance is measured.
    pub fn measured(&self) -> (r: Option<(Vec3, Vec3)>)
        ensures
            r == (if self.points@.len() == 2 {
                Some((self.points@[0], self.points@[1]))
            } else {
                None
            }),
    {
        if self.points.len() == 2 {
            Some((self.points[0], self.points[1]))
        } else {
            None
        }
    }

    /// Takes a pick. One that is not on the image is ignored.
    pub fn add_ray(&mut self, images: &Vec<ReferenceImage>, pick: PlanePick)
        ensures
            !old(self).is_picking() ==> *final(self) == *old(self),
            old(self).is_picking() && image_place(
                images@,
                old(self).target->0,
                images@.len(),
            ) is None ==> final(self).idle(),
            old(self).is_picking() && image_place(
                images@,
                old(self).target->0,
                images@.len(),
            ) is Some ==> {
                &&& final(self).target == old(self).target
                &&& final(self).distance_input == old(self).distance_input
                &&& final(self).points@ == (if on_image(pick) {
                    old(self).points@.push(pick.point)
                } else {
                    old(self).points@
                })
            },
    {
        match self.target {
            Some(id) => {
                if self.points.len() >= 2 {
                    return ;
                }
                match find_image(images, id) {
                    Some(_) => {
                        if is_meeting(pick) && !pick.reach_u.is_less(pick.u)
                            && !pick.reach_v.is_less(pick.v) {
                            self.points.push(pick.point);
                        }
                    },
                    None => self.cancel(),
                }
            },
            None => {},
        }
    }
}

#[derive(Clone, Copy, PartialEq, Eq, Structural, Debug)]
pub enum MarkerKind {
    Point,
    Line,
    Area,
}

impl MarkerKind {
    /// The number of points a marker of this kind has at least.
    pub open spec fn least_points(self) -> usize {
        match self {
            MarkerKind::Point => 1,
            MarkerKind::Line => 2,
            MarkerKind::Area => 3,
        }
    }

    pub fn min_points(self) -> (r: usize)
        ensures
            r == self.least_points(),
    {
        match self {
            MarkerKind::Point => 1,
            MarkerKind::Line => 2,
            MarkerKind::Area => 3,
        }
    }
}

/// A twentieth below zero: how far off an image a pick may be.
pub const LEAST_UV_BITS: u32 = 0xbd4c_cccd;

/// A twentieth above one.
pub const MOST_UV_BITS: u32 = 0x3f86_6666;

/// The pick is on the image, or just off its edge.
pub open spec fn uv_near(uv: Uv) -> bool {
    !uv.x.less(Scalar { bits: LEAST_UV_BITS }) && !Scalar { bits: MOST_UV_BITS }.less(uv.x)
        && !uv.y.less(Scalar { bits: LEAST_UV_BITS }) && !Scalar { bits: MOST_UV_BITS }.less(uv.y)
}

/// The point of the image that is nearest to the pick.
pub open spec fn uv_within(uv: Uv) -> Uv {
    let zero = Scalar { bits: 0 };
    let one = Scalar { bits: ONE_BITS };
    Uv { x: smaller(larger(uv.x, zero), one), y: smaller(larger(uv.y, zero), one) }
}

/// The marker tool: a point, a line or an area is picked on an image, then
/// named.
#[derive(Debug)]
pub struct MarkerTool {
    pub target: Option<u64>,
    pub kind: MarkerKind,
    pub points: Vec<Uv>,
    /// The points are picked; a name is asked for.
    pub done: bool,
    pub name_input: String,
    pub note_input: String,
}

impl MarkerTool {
    /// Nothing is picked or typed yet.
    pub open spec fn blank(&self) -> bool {
        !self.done && self.points@ == Seq::<Uv>::empty() && self.name_input@ == Seq::<
            char,
        >::empty() && self.note_input@ == Seq::<char>::empty()
    }

    /// A marker whose points are picked has as many as its kind needs.
    pub open spec fn wf(&self) -> bool {
        self.done ==> self.target is Some && self.points@.len() >= self.kind.least_points()
    }

    pub fn new() -> (r: MarkerTool)
        ensures
            r.wf(),
            r.target is None,
            r.kind is Point,
            r.blank(),
    {
        MarkerTool::with(None, MarkerKind::Point)
    }

    fn with(target: Option<u64>, kind: MarkerKind) -> (r: MarkerTool)
        ensures
            r.target == target,
            r.kind == kind,
            r.blank(),
    {
        let r = MarkerTool {
            target,
            kind,
            points: Vec::new(),
            done: false,
            name_input: String::new(),
            note_input: String::new(),
        };
        proof {
            reveal_strlit("");
        }
        assert(r.name_input@ =~= Seq::<char>::empty());
        r
    }

    pub fn active(&self) -> (r: bool)
        ensures
            r == (self.target is Some),
    {
        self.target.is_some()
    }

    pub open spec fn is_picking(&self) -> bool {
        self.target is Some && !self.done
    }

    /// Are points still being picked?
    pub fn picking(&self) -> (r: bool)
        ensures
            r == self.is_picking(),
    {
        self.active() && !self.done
    }

    pub fn start(&mut self, image_id: u64, kind: MarkerKind)
        ensures
            final(self).wf(),
            final(self).target == Some(image_id),
            final(self).kind == kind,
            final(self).blank(),
    {
        *self = MarkerTool::with(Some(image_id), kind);
    }

    pub fn cancel(&mut self)
        ensures
            final(self).wf(),
            final(self).target is None,
            final(self).kind == old(self).kind,
            final(self).blank(),
    {
        *self = MarkerTool::with(None, self.kind);
    }

    /// Ends the picking, where the points make a marker.
    pub fn finish(&mut self)
        ensures
            old(self).wf() ==> final(self).wf(),
            final(self).done == (old(self).done || (old(self).target is Some
                && old(self).points@.len() >= old(self).kind.least_points())),
            final(self).target == old(self).target,
            final(self).kind == old(self).kind,
            final(self).points == old(self).points,
            final(self).name_input == old(self).name_input,
            final(self).note_input == old(self).note_input,
    {
        if self.picking() && self.points.len() >= self.kind.min_points() {
            self.done = true;
        }
    }

    /// Takes a pick. One well off the image is ignored, one just off its edge
    /// is moved onto it. A point is done with its first pick.
    pub fn add_ray(&mut self, images: &Vec<ReferenceImage>, pick: PlanePick)
        ensures
            old(self).wf() ==> final(self).wf(),
            !old(self).is_picking() ==> *final(self) == *old(self),
            old(self).is_picking() && image_place(
                images@,
                old(self).target->0,
                images@.len(),
            ) is None ==> final(self).target is None && final(self).blank() && final(self).kind
                == old(self).kind,
            old(self).is_picking() && image_place(
                images@,
                old(self).target->0,
                images@.len(),
            ) is Some ==> {
                let taken = meets_plane(pick) && uv_near(pick.uv);
                &&& final(self).target == old(self).target
                &&& final(self).kind == old(self).kind
                &&& final(self).name_input == old(self).name_input
                &&& final(self).note_input == old(self).note_input
                &&& final(self).done == (taken && old(self).kind is Point)
                &&& final(self).points@ == (if taken {
                    old(self).points@.push(uv_within(pick.uv))
                } else {
                    old(self).points@
                })
            },
    {
        if self.done {
            return ;
        }
        match self.target {
            Some(id) => match find_image(images, id) {
                Some(_) => {
                    let uv = pick.uv;
                    let low = Scalar { bits: LEAST_UV_BITS };
                    let high = Scalar { bits: MOST_UV_BITS };
                    let zero = Scalar { bits: 0 };
                    let one = Scalar { bits: ONE_BITS };
                    if is_meeting(pick) && !uv.x.is_less(low) && !high.is_less(uv.x)
                        && !uv.y.is_less(low) && !high.is_less(uv.y) {
                        self.points.push(
                            Uv {
                                x: uv.x.at_least(zero).at_most(one),
                                y: uv.y.at_least(zero).at_most(one),
                            },
                        );
                        if self.kind == MarkerKind::Point {
                            self.done = true;
                        }
                    }
                },
                None => self.cancel(),
            },
            None => {},
        }
    }
}

/// An image that is being moved.
#[derive(Clone, Copy, PartialEq, Eq, Structural, Debug)]
pub struct ImageGrab {
    pub id: u64,
    /// Where it was.
    pub original: Vec3,
    pub start_mouse: Mouse,
    pub cur_mouse: Mouse,
    /// The axis that it moves along, where it is held to one.
    pub constraint: Option<usize>,
}

/// Moves the selected image: in the plane of the screen, or along an axis.
#[derive(Debug)]
pub struct ImageMoveTool {
    state: Option<ImageGrab>,
    last_mouse: Mouse,
}

/// Something that happened. `handled` says that it was used up before.
#[derive(Debug)]
pub enum ImageEvent {
    Motion { at: Mouse, handled: bool },
    Press { button: Button, at: Mouse, handled: bool },
    Key { key: ModalKey, handled: bool },
    /// `taken` says that a text field has the keyboard.
    Text { text: String, taken: bool },
}

/// The axis that a letter names.
pub open spec fn letter_axis(text: Seq<char>) -> Option<usize> {
    if text == "x"@ || text == "X"@ {
        Some(0)
    } else if text == "y"@ || text == "Y"@ {
        Some(1)
    } else if text == "z"@ || text == "Z"@ {
        Some(2)
    } else {
        None
    }
}

fn axis_of_letter(text: &str) -> (r: Option<usize>)
    ensures
        r == letter_axis(text@),
{
    if same(text, "x") || same(text, "X") {
        Some(0)
    } else if same(text, "y") || same(text, "Y") {
        Some(1)
    } else if same(text, "z") || same(text, "Z") {
        Some(2)
    } else {
        None
    }
}

/// The movement after an event.
pub open spec fn grab_after(
    state: Option<ImageGrab>,
    mouse: Mouse,
    images: Seq<ReferenceImage>,
    selected: Option<u64>,
    event: ImageEvent,
) -> Option<ImageGrab> {
    match (event, state) {
        (ImageEvent::Motion { at, .. }, Some(s)) => Some(ImageGrab { cur_mouse: at, ..s }),
        (ImageEvent::Text { text, taken }, Some(s)) => if taken {
            state
        } else {
            match letter_axis(text@) {
                Some(axis) => Some(
                    ImageGrab {
                        constraint: if s.constraint == Some(axis) {
                            None
                        } else {
                            Some(axis)
                        },
                        ..s
                    },
                ),
                None => state,
            }
        },
        (ImageEvent::Text { text, taken }, None) => if !taken && (text@ == "g"@ || text@ == "G"@) {
            match selected {
                Some(id) => match image_place(images, id, images.len()) {
                    Some(i) => Some(
                        ImageGrab {
                            id,
                            original: images[i].location,
                            start_mouse: mouse,
                            cur_mouse: mouse,
                            constraint: None,
                        },
                    ),
                    None => None,
                },
                None => None,
            }
        } else {
            None
        },
        _ => state,
    }
}

/// What an event does, where it finds a movement or not.
pub open spec fn grab_reply(active: bool, selected: Option<u64>, event: ImageEvent) -> Reply {
    match event {
        ImageEvent::Motion { handled, .. } => Reply {
            handled: handled || active,
            confirm: false,
            cancel: false,
        },
        ImageEvent::Press { button, handled, .. } => Reply {
            handled: handled || (active && !(button is Middle)),
            confirm: active && !handled && button is Left,
            cancel: active && !handled && button is Right,
        },
        ImageEvent::Key { key, handled } => Reply {
            handled: handled || active,
            confirm: active && !handled && key is Enter,
            cancel: active && !handled && key is Escape,
        },
        ImageEvent::Text { text, taken } => Reply {
            handled: !taken && text@.len() > 0 && (active || ((text@ == "g"@ || text@ == "G"@)
                && selected is Some)),
            confirm: false,
            cancel: false,
        },
    }
}

/// The pointer after an event.
pub open spec fn pointer_after(mouse: Mouse, active: bool, event: ImageEvent) -> Mouse {
    match event {
        ImageEvent::Motion { at, .. } => at,
        ImageEvent::Press { at, handled, .. } => if active && !handled {
            at
        } else {
            mouse
        },
        _ => mouse,
    }
}

/// The images with one moved to a place.
pub open spec fn moved_to(
    before: Seq<ReferenceImage>,
    after: Seq<ReferenceImage>,
    id: u64,
    place: Vec3,
) -> bool {
    match image_place(before, id, before.len()) {
        Some(i) => after == before.update(i, ReferenceImage { location: place, ..before[i] }),
        None => after == before,
    }
}

fn put_image(images: &mut Vec<ReferenceImage>, id: u64, place: Vec3)
    ensures
        moved_to(old(images)@, final(images)@, id, place),
{
    match find_image(images, id) {
        Some(i) => {
            images[i].location = place;
        },
        None => {},
    }
}

impl ImageMoveTool {
    pub closed spec fn grab(&self) -> Option<ImageGrab> {
        self.state
    }

    pub closed spec fn pointer(&self) -> Mouse {
        self.last_mouse
    }

    /// A movement that is held to an axis is held to one of the three.
    pub open spec fn wf(&self) -> bool {
        self.grab() matches Some(s) ==> (s.constraint matches Some(a) ==> a < 3)
    }

    pub fn new() -> (r: ImageMoveTool)
        ensures
            r.wf(),
            r.grab() is None,
            r.pointer() == (Mouse { x: Scalar { bits: 0 }, y: Scalar { bits: 0 } }),
    {
        ImageMoveTool {
            state: None,
            last_mouse: Mouse { x: Scalar { bits: 0 }, y: Scalar { bits: 0 } },
        }
    }

    pub fn active(&self) -> (r: bool)
        ensures
            r == (self.grab() is Some),
    {
        self.state.is_some()
    }

    /// The movement, for computing where the image goes.
    pub fn current(&self) -> (r: Option<ImageGrab>)
        ensures
            r == self.grab(),
    {
        self.state
    }

    /// Handles an event.
    pub fn handle_event(
        &mut self,
        event: &ImageEvent,
        images: &Vec<ReferenceImage>,
        selected: Option<u64>,
    ) -> (r: Reply)
        requires
            old(self).wf(),
        ensures
            final(self).wf(),
            r == grab_reply(old(self).grab() is Some, selected, *event),
            final(self).grab() == grab_after(
                old(self).grab(),
                old(self).pointer(),
                images@,
                selected,
                *event,
            ),
            final(self).pointer() == pointer_after(
                old(self).pointer(),
                old(self).grab() is Some,
                *event,
            ),
    {
        let active = self.state.is_some();
        match event {
            ImageEvent::Motion { at, handled } => {
                self.last_mouse = *at;
                match &mut self.state {
                    Some(s) => {
                        s.cur_mouse = *at;
                    },
                    None => {},
                }
                Reply { handled: *handled || active, confirm: false, cancel: false }
            },
            ImageEvent::Press { button, at, handled } => {
                let counts = active && !*handled;
                if counts {
                    self.last_mouse = *at;
                }
                Reply {
                    handled: *handled || (active && *button != Button::Middle),
                    confirm: counts && *button == Button::Left,
                    cancel: counts && *button == Button::Right,
                }
            },
            ImageEvent::Key { key, handled } => Reply {
                handled: *handled || active,
                confirm: active && !*handled && *key == ModalKey::Enter,
                cancel: active && !*handled && *key == ModalKey::Escape,
            },
            ImageEvent::Text { text, taken } => {
                proof {
                    reveal_strlit("g");
                    reveal_strlit("G");
                }
                let some = !text.as_str().is_empty();
                if *taken {
                    return Reply { handled: false, confirm: false, cancel: false };
                }
                match &mut self.state {
                    Some(s) => {
                        match axis_of_letter(text.as_str()) {
                            Some(axis) => {
                                let held = match s.constraint {
                                    Some(now) => now == axis,
                                    None => false,
                                };
                                s.constraint = if held {
                                    None
                                } else {
                                    Some(axis)
                                };
                            },
                            None => {},
                        }
                        return Reply { handled: some, confirm: false, cancel: false };
                    },
                    None => {},
                }
                if !(same(text.as_str(), "g") || same(text.as_str(), "G")) {
                    return Reply { handled: false, confirm: false, cancel: false };
                }
                match selected {
                    Some(id) => {
                        match find_image(images, id) {
                            Some(i) => {
                                self.state = Some(
                                    ImageGrab {
                                        id,
                                        original: images[i].location,
                                        start_mouse: self.last_mouse,
                                        cur_mouse: self.last_mouse,
                                        constraint: None,
                                    },
                                );
                            },
                            None => {},
                        }
                        Reply { handled: true, confirm: false, cancel: false }
                    },
                    None => Reply { handled: false, confirm: false, cancel: false },
                }
            },
        }
    }

    /// Cancels the movement: the image goes back to where it was.
    pub fn cancel(&mut self, images: &mut Vec<ReferenceImage>)
        ensures
            final(self).grab() is None,
            final(self).pointer() == old(self).pointer(),
            match old(self).grab() {
                Some(s) => moved_to(old(images)@, final(images)@, s.id, s.original),
                None => final(images)@ == old(images)@,
            },
    {
        match self.state.take() {
            Some(s) => put_image(images, s.id, s.original),
            None => {},
        }
    }

    /// Moves the image to where the pointer has it.
    pub fn apply(&self, images: &mut Vec<ReferenceImage>, target: Vec3)
        ensures
            match self.grab() {
                Some(s) => moved_to(old(images)@, final(images)@, s.id, target),
                None => final(images)@ == old(images)@,
            },
    {
        match self.state {
            Some(s) => put_image(images, s.id, target),
            None => {},
        }
    }

    /// Ends the movement; the image stays where it is.
    pub fn confirm(&mut self)
        ensures
            final(self).grab() is None,
            final(self).pointer() == old(self).pointer(),
    {
        self.state = None;
    }

    /// What is said of the movement, from the three numbers as they are
    /// shown.
    pub fn status_line(&self, x: &str, y: &str, z: &str, unit: Unit) -> (r: Option<String>)
        requires
            self.wf(),
        ensures
            r is Some == (self.grab() is Some),
            r matches Some(said) ==> said@ == "Move image: ("@ + x@ + ", "@ + y@ + ", "@ + z@
                + ") "@ + unit.sign() + (match self.grab()->0.constraint {
                Some(a) => "  along "@ + axis_letter(a),
                None => Seq::<char>::empty(),
            }) + "   |   LMB/Enter confirm · RMB/Esc cancel"@,
    {
        match self.state {
            Some(s) => {
                let mut said = "Move image: (".to_owned();
                said.append(x);
                said.append(", ");
                said.append(y);
                said.append(", ");
                said.append(z);
                said.append(") ");
                said.append(unit.suffix());
                match s.constraint {
                    Some(a) => {
                        said.append("  along ");
                        said.append(axis_name(a));
                    },
                    None => {},
                }
                said.append("   |   LMB/Enter confirm · RMB/Esc cancel");
                assert(said@ =~= "Move image: ("@ + x@ + ", "@ + y@ + ", "@ + z@ + ") "@
                    + unit.sign() + (match s.constraint {
                    Some(a) => "  along "@ + axis_letter(a),
                    None => Seq::<char>::empty(),
                }) + "   |   LMB/Enter confirm · RMB/Esc cancel"@);
                Some(said)
            },
            None => None,
        }
    }
}

proof fn lemma_ids_stay(
    before: Seq<ReferenceImage>,
    after: Seq<ReferenceImage>,
    id: u64,
    n: nat,
)
    requires
        n <= before.len() == after.len(),
        forall|i: int| 0 <= i < before.len() ==> (#[trigger] before[i]).id == after[i].id,
    ensures
        image_place(before, id, n) == image_place(after, id, n),
    decreases n,
{
    if n > 0 {
        lemma_ids_stay(before, after, id, (n - 1) as nat);
        assert(before[n - 1].id == after[n - 1].id);
    }
}

/// Cancelling undoes the movement: whatever place the image was moved to, it
/// goes back to the one where it was taken up, and no other image changes.
pub proof fn law_cancel_puts_the_image_back(
    start: Seq<ReferenceImage>,
    moved: Seq<ReferenceImage>,
    end: Seq<ReferenceImage>,
    id: u64,
    target: Vec3,
)
    requires
        image_place(start, id, start.len()) is Some,
        moved_to(start, moved, id, target),
        moved_to(moved, end, id, start[image_place(start, id, start.len())->0].location),
    ensures
        end == start,
{
    lemma_image_place(start, id, start.len());
    lemma_ids_stay(start, moved, id, start.len());
    assert(end =~= start);
}

/// A file is taken for a picture by its ending, in whatever case it is
/// written: letters are compared by their small form and nothing else is
/// changed.
pub proof fn law_endings_ignore_case(extension: Seq<char>, other: Seq<char>)
    requires
        extension.len() == other.len(),
        forall|i: int|
            0 <= i < other.len() ==> (#[trigger] other[i] == extension[i] || ('A' <= other[i] <= 'Z'
                && extension[i] as u32 == other[i] as u32 + 32)),
        forall|i: int| 0 <= i < other.len() ==> !('A' <= #[trigger] extension[i] <= 'Z'),
    ensures
        supported(other) == supported(extension),
{
    assert forall|i: int| 0 <= i < other.len() implies small_code(#[trigger] other[i]) == small_code(
        extension[i],
    ) by {}
    assert forall|word: Seq<char>| #[trigger] spells(other, word) == spells(extension, word) by {
        if spells(other, word) {
            assert forall|i: int| 0 <= i < extension.len() implies small_code(
                #[trigger] extension[i],
            ) == word[i] as u32 by {
                assert(small_code(other[i]) == word[i] as u32);
            }
        }
        if spells(extension, word) {
            assert forall|i: int| 0 <= i < other.len() implies small_code(#[trigger] other[i])
                == word[i] as u32 by {
                assert(small_code(extension[i]) == word[i] as u32);
            }
        }
    }
}

/// Only visible images are drawn, each where it stands in the list, and one
/// that is drawn has a texture: it was there, or is uploaded now.
pub proof fn law_visible_images_are_drawn(
    cache: Map<u64, usize>,
    images: Seq<ReferenceImage>,
    n: nat,
    i: int,
)
    requires
        0 <= i < n <= images.len(),
    ensures
        images[i].visible && (is_fresh(
            drawn(cache, images, i as nat).cache,
            images[i],
        ) || texture_of(images[i].data_base64@) is Some) ==> drawn(cache, images, n).order.contains(
            images[i].id,
        ),
        forall|k: int|
            0 <= k < drawn(cache, images, n).order.len() ==> exists|j: int|
                0 <= j < n && (#[trigger] images[j]).visible && images[j].id == #[trigger] drawn(
                    cache,
                    images,
                    n,
                ).order[k],
        forall|k: int|
            0 <= k < drawn(cache, images, n).uploads.len() ==> exists|j: int|
                0 <= j < n && (#[trigger] images[j]).visible && images[j].id == (#[trigger] drawn(
                    cache,
                    images,
                    n,
                ).uploads[k]).0 && texture_of(images[j].data_base64@) == Some(
                    drawn(cache, images, n).uploads[k].1,
                ),
    decreases n,
{
    let before = drawn(cache, images, (n - 1) as nat);
    let now = drawn(cache, images, n);
    if n > 1 {
        law_visible_images_are_drawn(
            cache,
            images,
            (n - 1) as nat,
            if i < n - 1 {
                i
            } else {
                0
            },
        );
    } else {
        assert(before.order.len() == 0 && before.uploads.len() == 0);
    }
    if i < n - 1 {
        if before.order.contains(images[i].id) {
            let k = choose|k: int|
                0 <= k < before.order.len() && before.order[k] == images[i].id;
            assert(now.order[k] == images[i].id);
        }
    } else if now.order.len() > before.order.len() {
        assert(now.order[before.order.len() as int] == images[i].id);
    }
    assert forall|k: int| 0 <= k < now.order.len() implies exists|j: int|
        0 <= j < n && (#[trigger] images[j]).visible && images[j].id == #[trigger] now.order[k] by {
        if k < before.order.len() {
            assert(now.order[k] == before.order[k]);
            let j = choose|j: int|
                0 <= j < n - 1 && (#[trigger] images[j]).visible && images[j].id
                    == before.order[k];
            assert(images[j].visible);
        } else {
            assert(images[n - 1].visible);
        }
    }
    assert forall|k: int| 0 <= k < now.uploads.len() implies exists|j: int|
        0 <= j < n && (#[trigger] images[j]).visible && images[j].id == (#[trigger] now.uploads[k]).0
            && texture_of(images[j].data_base64@) == Some(now.uploads[k].1) by {
        if k < before.uploads.len() {
            assert(now.uploads[k] == before.uploads[k]);
            let j = choose|j: int|
                0 <= j < n - 1 && (#[trigger] images[j]).visible && images[j].id
                    == before.uploads[k].0 && texture_of(images[j].data_base64@) == Some(
                    before.uploads[k].1,
                );
            assert(images[j].visible);
        } else {
            assert(images[n - 1].visible);
        }
    }
}

/// A marked point lies on the image, and is the one picked where that does.
pub proof fn law_marked_points_are_on_the_image(uv: Uv)
    ensures
        ({
            let p = uv_within(uv);
            let zero = Scalar { bits: 0 };
            let one = Scalar { bits: ONE_BITS };
            &&& !p.x.less(zero) && !one.less(p.x)
            &&& !p.y.less(zero) && !one.less(p.y)
            &&& !uv.x.nan() && !uv.x.less(zero) && !one.less(uv.x) ==> p.x == uv.x
            &&& !uv.y.nan() && !uv.y.less(zero) && !one.less(uv.y) ==> p.y == uv.y
            &&& uv.x.less(zero) ==> p.x == zero
            &&& one.less(uv.x) ==> p.x == one
        }),
{
}

/// A line needs one point more than a point, and an area one more again.
pub proof fn law_markers_need_enough_points(kind: MarkerKind)
    ensures
        1 <= kind.least_points() <= 3,
        MarkerKind::Line.least_points() == MarkerKind::Point.least_points() + 1,
        MarkerKind::Area.least_points() == MarkerKind::Line.least_points() + 1,
{
}

/// Typing the letter of an axis, in either case, holds the image to it, and
/// typing it again lets it go; nothing else about the move changes.
pub proof fn law_axis_letters_hold_the_image(
    s: ImageGrab,
    mouse: Mouse,
    images: Seq<ReferenceImage>,
    selected: Option<u64>,
    text: String,
    axis: usize,
)
    requires
        letter_axis(text@) == Some(axis),
    ensures
        ({
            let event = ImageEvent::Text { text, taken: false };
            let once = grab_after(Some(s), mouse, images, selected, event);
            &&& once == Some(
                ImageGrab {
                    constraint: if s.constraint == Some(axis) {
                        None
                    } else {
                        Some(axis)
                    },
                    ..s
                },
            )
            &&& s.constraint is None ==> grab_after(once, mouse, images, selected, event) == Some(s)
            &&& axis < 3
        }),
{
}

/// Each of the six letters names its axis.
pub proof fn law_letters_name_axes(axis: usize)
    requires
        axis < 3,
    ensures
        letter_axis(axis_letter(axis)) == Some(axis),
        letter_axis(seq![(axis_letter(axis)[0] as u32 + 32) as char]) == Some(axis),
{
    reveal_strlit("x");
    reveal_strlit("X");
    reveal_strlit("y");
    reveal_strlit("Y");
    reveal_strlit("z");
    reveal_strlit("Z");
    let small = seq![(axis_letter(axis)[0] as u32 + 32) as char];
    if axis == 0 {
        assert(small =~= "x"@);
    } else if axis == 1 {
        assert(small =~= "y"@);
        assert(small[0] != "x"@[0] && small[0] != "X"@[0]);
        assert("Y"@[0] != "x"@[0] && "Y"@[0] != "X"@[0]);
    } else {
        assert(small =~= "z"@);
        assert(small[0] != "x"@[0] && small[0] != "X"@[0]);
        assert(small[0] != "y"@[0] && small[0] != "Y"@[0]);
        assert("Z"@[0] != "x"@[0] && "Z"@[0] != "X"@[0]);
        assert("Z"@[0] != "y"@[0] && "Z"@[0] != "Y"@[0]);
    }
}

/// A move remembers the image and where it was until it ends: events change
/// only the pointer and the axis.
pub proof fn law_moves_remember_the_start(
    s: ImageGrab,
    mouse: Mouse,
    images: Seq<ReferenceImage>,
    selected: Option<u64>,
    event: ImageEvent,
)
    ensures
        grab_after(Some(s), mouse, images, selected, event) matches Some(t) && t.id == s.id
            && t.original == s.original && t.start_mouse == s.start_mouse && (event is Motion
            ==> t.cur_mouse == event->Motion_at) && (!(event is Motion) ==> t.cur_mouse
            == s.cur_mouse),
{
}

/// A move starts only from the selected image, at its own place and where
/// the pointer is.
pub proof fn law_moves_start_at_the_image(
    mouse: Mouse,
    images: Seq<ReferenceImage>,
    selected: Option<u64>,
    event: ImageEvent,
)
    ensures
        grab_after(None, mouse, images, selected, event) matches Some(s) ==> {
            &&& event is Text && !event->taken
            &&& selected == Some(s.id)
            &&& s.constraint is None
            &&& s.start_mouse == mouse && s.cur_mouse == mouse
            &&& exists|i: int|
                0 <= i < images.len() && (#[trigger] images[i]).id == s.id && images[i].location
                    == s.original
        },
{
    if let Some(id) = selected {
        lemma_image_place(images, id, images.len());
    }
}

/// A move ends only by an event that reaches it, and no event both confirms
/// and cancels it.
pub proof fn law_moves_end_on_purpose(active: bool, selected: Option<u64>, event: ImageEvent)
    ensures
        ({
            let r = grab_reply(active, selected, event);
            &&& !(r.confirm && r.cancel)
            &&& r.confirm <==> active && ((event is Press && !event->Press_handled && event->button
                is Left) || (event is Key && !event->Key_handled && event->key is Enter))
            &&& r.cancel <==> active && ((event is Press && !event->Press_handled && event->button
                is Right) || (event is Key && !event->Key_handled && event->key is Escape))
            &&& r.confirm || r.cancel ==> r.handled
            &&& event is Press && event->button is Middle ==> r.handled == event->Press_handled
        }),
{
}

} // verus!
