//! Dragging the ends of selected ropes.
//!
//! Pressing on an end detaches it; while the pointer moves the end follows
//! it; letting go over an object pins the end there, and over nothing leaves
//! it free. Escape puts everything back.

use vstd::prelude::*;
use crate::physics::with_length;
use crate::scalar::{larger, Scalar, Transform, Vec3, ONE_BITS};
use crate::scene::{
    exists_in, free_end, lemma_place_of, place_of, Object, ObjectId, Primitive, RopeEnd, Scene,
};
use crate::selection::Selection;
use crate::soft_bodies::LEAST_LENGTH_BITS;

verus! {

/// An end of a rope.
#[derive(Clone, Copy, PartialEq, Eq, Structural, Debug)]
pub enum Which {
    Start,
    End,
}

/// The object under the pointer that an end would be pinned to.
#[derive(Clone, Copy, PartialEq, Eq, Structural, Debug)]
pub struct HoverTarget {
    pub object: ObjectId,
    /// Where the pointer meets its surface.
    pub world_point: Vec3,
}

/// A drag of one end, with what Escape puts back.
#[derive(Clone, Copy, PartialEq, Eq, Structural, Debug)]
pub struct Drag {
    pub id: ObjectId,
    pub which: Which,
    pub orig_transform: Transform,
    pub orig_length: Scalar,
    pub orig_start: RopeEnd,
    pub orig_end: RopeEnd,
    pub hover: Option<HoverTarget>,
}

/// An end on the screen. `distance` is how far it is from the pointer, where
/// it is in view.
#[derive(Clone, Copy, PartialEq, Eq, Structural, Debug)]
pub struct Tip {
    pub id: ObjectId,
    pub which: Which,
    pub distance: Option<Scalar>,
}

/// What the caller is to do after an event.
#[derive(Clone, Copy, PartialEq, Eq, Structural, Debug)]
pub enum Reaction {
    Nothing,
    /// The event is used up.
    Taken,
    /// Lay the rope so that the dragged end is at this point.
    PlaceEnd { id: ObjectId, which: Which, world: Vec3 },
    /// Lay the rope along its pins.
    SnapToPins { id: ObjectId },
}

/// Is an end being dragged?
#[derive(Debug)]
pub struct RopeHandles {
    drag: Option<Drag>,
}

impl View for RopeHandles {
    type V = Option<Drag>;

    closed spec fn view(&self) -> Option<Drag> {
        self.drag
    }
}

/// The selected visible ropes among the first `n` objects.
pub open spec fn shown_ropes(objects: Seq<Object>, selected: Seq<ObjectId>, n: nat) -> Seq<ObjectId>
    decreases n,
{
    if n == 0 {
        seq![]
    } else {
        let before = shown_ropes(objects, selected, (n - 1) as nat);
        let o = objects[n - 1];
        if o.visible && o.primitive.rope() && selected.contains(o.id) {
            before.push(o.id)
        } else {
            before
        }
    }
}

/// The nearest of the first `n` tips that are within reach of the pointer;
/// of two equally near the earlier.
pub open spec fn nearest_tip(tips: Seq<Tip>, reach: Scalar, n: nat) -> Option<int>
    decreases n,
{
    if n == 0 {
        None
    } else {
        let before = nearest_tip(tips, reach, (n - 1) as nat);
        match tips[n - 1].distance {
            Some(d) => {
                let nearer = match before {
                    Some(k) => d.less(tips[k].distance->0),
                    None => true,
                };
                if d.less(reach) && nearer {
                    Some(n - 1)
                } else {
                    before
                }
            },
            None => before,
        }
    }
}

fn find_tip(tips: &Vec<Tip>, reach: Scalar) -> (r: Option<usize>)
    ensures
        r matches Some(k) ==> nearest_tip(tips@, reach, tips@.len()) == Some(k as int) && k
            < tips@.len(),
        r is None ==> nearest_tip(tips@, reach, tips@.len()) is None,
{
    let mut best: Option<usize> = None;
    let mut least = Scalar { bits: 0 };
    let mut n: usize = 0;
    while n < tips.len()
        invariant
            n <= tips@.len(),
            match nearest_tip(tips@, reach, n as nat) {
                Some(k) => best == Some(k as usize) && 0 <= k < n && tips@[k].distance == Some(
                    least,
                ),
                None => best is None,
            },
        decreases tips@.len() - n,
    {
        match tips[n].distance {
            Some(d) => {
                if d.is_less(reach) && (best.is_none() || d.is_less(least)) {
                    best = Some(n);
                    least = d;
                }
            },
            None => {},
        }
        n += 1;
    }
    best
}

/// The rope with one end pinned as said.
pub open spec fn with_end(o: Object, which: Which, end: RopeEnd) -> Object {
    match which {
        Which::Start => Object { rope_start: end, ..o },
        Which::End => Object { rope_end: end, ..o },
    }
}

/// The length of a rope; one where it is none.
pub open spec fn length_of(p: Primitive) -> Scalar {
    match p {
        Primitive::Rope { length, .. } => length,
        _ => Scalar { bits: ONE_BITS },
    }
}

/// The drag that starts on an end of `o`.
pub open spec fn drag_of(o: Object, which: Which) -> Drag {
    Drag {
        id: o.id,
        which,
        orig_transform: o.transform,
        orig_length: length_of(o.primitive),
        orig_start: o.rope_start,
        orig_end: o.rope_end,
        hover: None,
    }
}

/// The rope with everything put back that the drag recorded.
pub open spec fn put_back(o: Object, drag: Drag) -> Object {
    Object {
        transform: drag.orig_transform,
        primitive: with_length(o.primitive, drag.orig_length),
        rope_start: drag.orig_start,
        rope_end: drag.orig_end,
        mesh_revision: o.mesh_revision.wrapping_add(1),
        ..o
    }
}

/// The objects with that at the place of `id` replaced, where there is one.
pub open spec fn replaced(objects: Seq<Object>, id: ObjectId, by: Object) -> Seq<Object> {
    match place_of(objects, id) {
        Some(i) => objects.update(i, by),
        None => objects,
    }
}

/// The object `id`.
pub open spec fn at(objects: Seq<Object>, id: ObjectId) -> Object {
    objects[place_of(objects, id)->0]
}

fn set_end(scene: &mut Scene, id: ObjectId, which: Which, end: RopeEnd)
    ensures
        final(scene).objects@ == replaced(
            old(scene).objects@,
            id,
            with_end(at(old(scene).objects@, id), which, end),
        ),
        final(scene).folders == old(scene).folders,
        final(scene).next_id == old(scene).next_id,
{
    match scene.find(id) {
        Some(i) => {
            match which {
                Which::Start => {
                    scene.objects[i].rope_start = end;
                },
                Which::End => {
                    scene.objects[i].rope_end = end;
                },
            }
            assert(scene.objects@ =~= replaced(
                old(scene).objects@,
                id,
                with_end(at(old(scene).objects@, id), which, end),
            ));
        },
        None => {},
    }
}

impl RopeHandles {
    pub fn new() -> (r: RopeHandles)
        ensures
            r@ is None,
    {
        RopeHandles { drag: None }
    }

    pub fn dragging(&self) -> (r: bool)
        ensures
            r == (self@ is Some),
    {
        self.drag.is_some()
    }

    /// The drag in progress.
    pub fn drag(&self) -> (r: Option<Drag>)
        ensures
            r == self@,
    {
        self.drag
    }

    /// Forgets the drag, leaving the rope as it is.
    pub fn cancel(&mut self)
        ensures
            final(self)@ is None,
    {
        self.drag = None;
    }

    /// The selected visible ropes, whose ends can be dragged.
    pub fn ropes(scene: &Scene, selection: &Selection) -> (r: Vec<ObjectId>)
        ensures
            r@ == shown_ropes(scene.objects@, selection@.selected, scene.objects@.len()),
    {
        let mut r: Vec<ObjectId> = Vec::new();
        let mut n: usize = 0;
        while n < scene.objects.len()
            invariant
                n <= scene.objects@.len(),
                r@ == shown_ropes(scene.objects@, selection@.selected, n as nat),
            decreases scene.objects@.len() - n,
        {
            let o = &scene.objects[n];
            if o.visible && o.primitive.is_rope() && selection.is_selected(o.id) {
                r.push(o.id);
            }
            n += 1;
        }
        r
    }

    /// The left button went down. It starts a drag of the nearest end within
    /// reach, which it detaches.
    pub fn press(
        &mut self,
        scene: &mut Scene,
        tips: &Vec<Tip>,
        reach: Scalar,
        handled: bool,
        over_ui: bool,
    ) -> (r: Reaction)
        ensures
            final(scene).folders == old(scene).folders,
            final(scene).next_id == old(scene).next_id,
            ({
                let free = !handled && !over_ui && old(self)@ is None;
                match nearest_tip(tips@, reach, tips@.len()) {
                    Some(k) if free && old(scene).has(tips@[k].id) => {
                        let o = at(old(scene).objects@, tips@[k].id);
                        &&& r is Taken
                        &&& final(self)@ == Some(drag_of(o, tips@[k].which))
                        &&& final(scene).objects@ == replaced(
                            old(scene).objects@,
                            tips@[k].id,
                            with_end(o, tips@[k].which, free_end()),
                        )
                    },
                    _ => {
                        &&& r is Nothing
                        &&& final(self)@ == old(self)@
                        &&& final(scene).objects@ == old(scene).objects@
                    },
                }
            }),
    {
        if handled || over_ui || self.drag.is_some() {
            return Reaction::Nothing;
        }
        match find_tip(tips, reach) {
            Some(k) => {
                let tip = tips[k];
                match scene.find(tip.id) {
                    Some(i) => {
                        let o = &scene.objects[i];
                        let length = match o.primitive {
                            Primitive::Rope { length, .. } => length,
                            _ => Scalar { bits: ONE_BITS },
                        };
                        let drag = Drag {
                            id: tip.id,
                            which: tip.which,
                            orig_transform: o.transform,
                            orig_length: length,
                            orig_start: o.rope_start,
                            orig_end: o.rope_end,
                            hover: None,
                        };
                        set_end(scene, tip.id, tip.which, RopeEnd::default());
                        self.drag = Some(drag);
                        Reaction::Taken
                    },
                    None => Reaction::Nothing,
                }
            },
            None => Reaction::Nothing,
        }
    }

    /// The pointer moved. The dragged end goes to the surface under the
    /// pointer, or else to the point `free` under it; where there is neither,
    /// it stays.
    pub fn motion(&mut self, hover: Option<HoverTarget>, free: Option<Vec3>) -> (r: Reaction)
        ensures
            match old(self)@ {
                Some(drag) if hover is Some || free is Some => {
                    &&& final(self)@ == Some(Drag { hover, ..drag })
                    &&& r == (Reaction::PlaceEnd {
                        id: drag.id,
                        which: drag.which,
                        world: match hover {
                            Some(h) => h.world_point,
                            None => free->0,
                        },
                    })
                },
                _ => final(self)@ == old(self)@ && r is Nothing,
            },
    {
        match self.drag {
            Some(drag) => {
                let world = match hover {
                    Some(h) => h.world_point,
                    None => match free {
                        Some(p) => p,
                        None => {
                            return Reaction::Nothing;
                        },
                    },
                };
                self.drag = Some(Drag { hover, ..drag });
                Reaction::PlaceEnd { id: drag.id, which: drag.which, world }
            },
            None => Reaction::Nothing,
        }
    }

    /// The left button went up: the end is pinned to what it hovers over, at
    /// the point `local` of that object's own frame, or left free.
    pub fn release(&mut self, scene: &mut Scene, local: Vec3) -> (r: Reaction)
        ensures
            final(self)@ is None,
            final(scene).folders == old(scene).folders,
            final(scene).next_id == old(scene).next_id,
            match old(self)@ {
                Some(drag) => {
                    let o = at(old(scene).objects@, drag.id);
                    match drag.hover {
                        Some(h) => {
                            &&& r == (Reaction::SnapToPins { id: drag.id })
                            &&& final(scene).objects@ == replaced(
                                old(scene).objects@,
                                drag.id,
                                with_end(
                                    o,
                                    drag.which,
                                    RopeEnd { object: Some(h.object), local_point: local },
                                ),
                            )
                        },
                        None => {
                            &&& r is Nothing
                            &&& final(scene).objects@ == replaced(
                                old(scene).objects@,
                                drag.id,
                                with_end(o, drag.which, free_end()),
                            )
                        },
                    }
                },
                None => r is Nothing && final(scene).objects@ == old(scene).objects@,
            },
    {
        match self.drag {
            Some(drag) => {
                self.drag = None;
                match drag.hover {
                    Some(h) => {
                        let end = RopeEnd { object: Some(h.object), local_point: local };
                        set_end(scene, drag.id, drag.which, end);
                        Reaction::SnapToPins { id: drag.id }
                    },
                    None => {
                        set_end(scene, drag.id, drag.which, RopeEnd::default());
                        Reaction::Nothing
                    },
                }
            },
            None => Reaction::Nothing,
        }
    }

    /// Escape was pressed: the drag ends and the rope is put back.
    pub fn escape(&mut self, scene: &mut Scene, handled: bool) -> (r: Reaction)
        ensures
            final(scene).folders == old(scene).folders,
            final(scene).next_id == old(scene).next_id,
            match old(self)@ {
                Some(drag) if !handled => {
                    &&& r is Taken
                    &&& final(self)@ is None
                    &&& final(scene).objects@ == replaced(
                        old(scene).objects@,
                        drag.id,
                        put_back(at(old(scene).objects@, drag.id), drag),
                    )
                },
                _ => r is Nothing && final(self)@ == old(self)@ && final(scene).objects@ == old(
                    scene,
                ).objects@,
            },
    {
        if handled {
            return Reaction::Nothing;
        }
        match self.drag {
            Some(drag) => {
                self.drag = None;
                match scene.find(drag.id) {
                    Some(i) => {
                        let primitive = match scene.objects[i].primitive {
                            Primitive::Rope { radius, segments, .. } => Primitive::Rope {
                                length: drag.orig_length,
                                radius,
                                segments,
                            },
                            other => other,
                        };
                        let revision: u64 = scene.objects[i].mesh_revision.wrapping_add(1);
                        scene.objects[i].transform = drag.orig_transform;
                        scene.objects[i].primitive = primitive;
                        scene.objects[i].rope_start = drag.orig_start;
                        scene.objects[i].rope_end = drag.orig_end;
                        scene.objects[i].mesh_revision = revision;
                        assert(scene.objects@ =~= replaced(
                            old(scene).objects@,
                            drag.id,
                            put_back(at(old(scene).objects@, drag.id), drag),
                        ));
                    },
                    None => {},
                }
                Reaction::Taken
            },
            None => Reaction::Nothing,
        }
    }
}

/// A rope `o` that was dragged: it may have been moved, given another
/// length, detached and laid anew.
pub open spec fn dragged(o: Object, now: Object) -> bool {
    exists|length: Scalar|
        now == (Object {
            transform: now.transform,
            primitive: #[trigger] with_length(o.primitive, length),
            rope_start: now.rope_start,
            rope_end: now.rope_end,
            mesh_revision: now.mesh_revision,
            ..o
        })
}

/// Escape undoes a drag: whatever the drag did to the rope, it ends up as it
/// was when the button went down. Only the revision of its mesh moves on.
pub proof fn law_escape_undoes_the_drag(o: Object, which: Which, now: Object)
    requires
        o.primitive.rope(),
        dragged(o, now),
    ensures
        put_back(now, drag_of(o, which)) == (Object {
            mesh_revision: now.mesh_revision.wrapping_add(1),
            ..o
        }),
{
}

/// An end can be pinned to the object: it is visible, no light and no rope.
pub open spec fn attachable(objects: Seq<Object>, rope: ObjectId, target: ObjectId) -> bool {
    target != rope && (place_of(objects, target) matches Some(i) && objects[i].visible && !(
    objects[i].primitive is Light) && !objects[i].primitive.rope())
}

/// Can an end of `rope` be pinned to `target`?
pub fn valid_attach_target(scene: &Scene, rope: ObjectId, target: ObjectId) -> (r: bool)
    ensures
        r == attachable(scene.objects@, rope, target),
{
    if target == rope {
        return false;
    }
    match scene.find(target) {
        Some(i) => {
            let o = &scene.objects[i];
            o.visible && !o.primitive.is_light() && !o.primitive.is_rope()
        },
        None => false,
    }
}

/// What an end would be pinned to: the object that the ray under the pointer
/// meets, or else the one whose surface is near. Neither is taken where it
/// cannot be pinned to.
pub fn ray_attach_target(
    scene: &Scene,
    rope: ObjectId,
    hit: Option<(ObjectId, Vec3)>,
    near: Option<(ObjectId, Vec3)>,
) -> (r: Option<HoverTarget>)
    ensures
        r == (match hit {
            Some(h) if attachable(scene.objects@, rope, h.0) => Some(
                HoverTarget { object: h.0, world_point: h.1 },
            ),
            _ => match near {
                Some(n) if attachable(scene.objects@, rope, n.0) => Some(
                    HoverTarget { object: n.0, world_point: n.1 },
                ),
                _ => None,
            },
        }),
{
    match hit {
        Some((target, world_point)) => {
            if valid_attach_target(scene, rope, target) {
                return Some(HoverTarget { object: target, world_point });
            }
        },
        None => {},
    }
    match near {
        Some((target, world_point)) => {
            if valid_attach_target(scene, rope, target) {
                return Some(HoverTarget { object: target, world_point });
            }
        },
        None => {},
    }
    None
}

/// The ropes among the first `n` objects.
pub open spec fn all_ropes(objects: Seq<Object>, n: nat) -> Seq<ObjectId>
    decreases n,
{
    if n == 0 {
        seq![]
    } else if objects[n - 1].primitive.rope() {
        all_ropes(objects, (n - 1) as nat).push(objects[n - 1].id)
    } else {
        all_ropes(objects, (n - 1) as nat)
    }
}

/// The objects that a ray passes through when it looks for something to pin
/// `rope` to: every rope, and `rope` itself.
pub fn attach_exclusions(scene: &Scene, rope: ObjectId) -> (r: Vec<ObjectId>)
    ensures
        ({
            let ropes = all_ropes(scene.objects@, scene.objects@.len());
            r@ == (if ropes.contains(rope) {
                ropes
            } else {
                ropes.push(rope)
            })
        }),
{
    let mut r: Vec<ObjectId> = Vec::new();
    let mut found = false;
    let mut n: usize = 0;
    while n < scene.objects.len()
        invariant
            n <= scene.objects@.len(),
            r@ == all_ropes(scene.objects@, n as nat),
            found == r@.contains(rope),
        decreases scene.objects@.len() - n,
    {
        let o = &scene.objects[n];
        if o.primitive.is_rope() {
            let ghost before = r@;
            r.push(o.id);
            if o.id == rope {
                found = true;
                assert(r@[r@.len() - 1] == rope);
            }
            proof {
                if before.contains(rope) {
                    let k = choose|k: int| 0 <= k < before.len() && before[k] == rope;
                    assert(r@[k] == rope);
                }
                if r@.contains(rope) && o.id != rope {
                    let k = choose|k: int| 0 <= k < r@.len() && r@[k] == rope;
                    assert(before[k] == rope);
                }
            }
        }
        n += 1;
    }
    if !found {
        r.push(rope);
    }
    r
}

/// A rope laid at `placement`, with the length kept or set.
pub open spec fn laid(o: Object, placement: Transform, length: Option<Scalar>) -> Object {
    Object {
        transform: placement,
        primitive: match length {
            Some(l) => with_length(o.primitive, l),
            None => o.primitive,
        },
        mesh_revision: o.mesh_revision.wrapping_add(1),
        ..o
    }
}

fn lay(scene: &mut Scene, id: ObjectId, placement: Transform, length: Option<Scalar>)
    ensures
        final(scene).objects@ == replaced(
            old(scene).objects@,
            id,
            laid(at(old(scene).objects@, id), placement, length),
        ),
        final(scene).folders == old(scene).folders,
        final(scene).next_id == old(scene).next_id,
{
    match scene.find(id) {
        Some(i) => {
            let primitive = match (scene.objects[i].primitive, length) {
                (Primitive::Rope { radius, segments, .. }, Some(l)) => Primitive::Rope {
                    length: l,
                    radius,
                    segments,
                },
                (other, _) => other,
            };
            let revision: u64 = scene.objects[i].mesh_revision.wrapping_add(1);
            scene.objects[i].transform = placement;
            scene.objects[i].primitive = primitive;
            scene.objects[i].mesh_revision = revision;
            assert(scene.objects@ =~= replaced(
                old(scene).objects@,
                id,
                laid(at(old(scene).objects@, id), placement, length),
            ));
        },
        None => {},
    }
}

/// Lays the rope `id` at `placement` and makes it as long as the span
/// between its ends, but not shorter than the least length.
pub fn set_rope_span(scene: &mut Scene, id: ObjectId, placement: Transform, span: Scalar)
    ensures
        final(scene).objects@ == replaced(
            old(scene).objects@,
            id,
            laid(
                at(old(scene).objects@, id),
                placement,
                Some(larger(span, Scalar { bits: LEAST_LENGTH_BITS })),
            ),
        ),
        final(scene).folders == old(scene).folders,
        final(scene).next_id == old(scene).next_id,
{
    let length = span.at_least(Scalar { bits: LEAST_LENGTH_BITS });
    lay(scene, id, placement, Some(length));
}

/// Lays the rope `id` at `placement`, between its pins. It keeps its length:
/// a rope longer than the span between its pins sags.
pub fn snap_rope_rest_pose(scene: &mut Scene, id: ObjectId, placement: Transform)
    ensures
        final(scene).objects@ == replaced(
            old(scene).objects@,
            id,
            laid(at(old(scene).objects@, id), placement, None),
        ),
        final(scene).folders == old(scene).folders,
        final(scene).next_id == old(scene).next_id,
{
    lay(scene, id, placement, None);
}

/// The visible ropes among the first `n` objects that are pinned to
/// something.
pub open spec fn pinned_ropes(objects: Seq<Object>, n: nat) -> Seq<ObjectId>
    decreases n,
{
    if n == 0 {
        seq![]
    } else {
        let before = pinned_ropes(objects, (n - 1) as nat);
        let o = objects[n - 1];
        if o.visible && o.primitive.rope() && (o.rope_start.object is Some || o.rope_end.object
            is Some) {
            before.push(o.id)
        } else {
            before
        }
    }
}

/// The visible ropes that are pinned to something, which follow their pins
/// while those are edited.
pub fn attached_ropes(scene: &Scene) -> (r: Vec<ObjectId>)
    ensures
        r@ == pinned_ropes(scene.objects@, scene.objects@.len()),
{
    let mut r: Vec<ObjectId> = Vec::new();
    let mut n: usize = 0;
    while n < scene.objects.len()
        invariant
            n <= scene.objects@.len(),
            r@ == pinned_ropes(scene.objects@, n as nat),
        decreases scene.objects@.len() - n,
    {
        let o = &scene.objects[n];
        if o.visible && o.primitive.is_rope() && (o.rope_start.object.is_some()
            || o.rope_end.object.is_some()) {
            r.push(o.id);
        }
        n += 1;
    }
    r
}

/// How far a rope is from where its pins want it.
#[derive(Clone, Copy, PartialEq, Eq, Structural, Debug)]
pub struct Misfit {
    /// The square of the distance of its start from where it should be.
    pub start_squared: Scalar,
    /// The square of the length of the direction it should point in: one, or
    /// zero where its pins coincide.
    pub aim_squared: Scalar,
    /// The cosine of the angle between that direction and its own.
    pub aim_cosine: Scalar,
}

/// A millionth of a square meter: a start this near is in place.
pub const IN_PLACE_BITS: u32 = 0x3586_37bd;

/// A hundred-millionth: a direction this short is none.
pub const NO_DIRECTION_BITS: u32 = 0x322b_cc77;

/// Nine hundred and ninety-nine thousandths: a cosine above this is aimed.
pub const AIMED_BITS: u32 = 0x3f7f_be77;

/// Is the rope to be laid anew?
pub fn needs_snap(m: &Misfit) -> (r: bool)
    ensures
        r == ((Scalar { bits: IN_PLACE_BITS }).less(m.start_squared) || (
        (Scalar { bits: NO_DIRECTION_BITS }).less(m.aim_squared) && m.aim_cosine.less(
            Scalar { bits: AIMED_BITS },
        ))),
{
    let in_place = Scalar { bits: IN_PLACE_BITS };
    let none = Scalar { bits: NO_DIRECTION_BITS };
    in_place.is_less(m.start_squared) || (none.is_less(m.aim_squared) && m.aim_cosine.is_less(
        Scalar { bits: AIMED_BITS },
    ))
}

/// Handles are shown for the ropes that are visible and selected.
pub proof fn law_handles_are_on_selected_ropes(
    objects: Seq<Object>,
    selected: Seq<ObjectId>,
    n: nat,
    id: ObjectId,
)
    requires
        n <= objects.len(),
    ensures
        shown_ropes(objects, selected, n).contains(id) <==> selected.contains(id) && exists|k: int|
            0 <= k < n && (#[trigger] objects[k]).id == id && objects[k].visible
                && objects[k].primitive is Rope,
    decreases n,
{
    if n > 0 {
        law_handles_are_on_selected_ropes(objects, selected, (n - 1) as nat, id);
        let before = shown_ropes(objects, selected, (n - 1) as nat);
        let now = shown_ropes(objects, selected, n);
        if before.contains(id) {
            let k = choose|k: int| 0 <= k < before.len() && before[k] == id;
            assert(now[k] == id);
        }
        if objects[n - 1].id == id && now.len() > before.len() {
            assert(now[before.len() as int] == id);
        }
        if now.contains(id) && !before.contains(id) {
            assert(objects[n - 1].id == id);
        }
    }
}

/// The tip that is taken is within reach, and no other is nearer; none is
/// taken only where none is within reach.
pub proof fn law_nearest_tip_is_taken(tips: Seq<Tip>, reach: Scalar, n: nat)
    requires
        n <= tips.len(),
    ensures
        match nearest_tip(tips, reach, n) {
            Some(k) => {
                &&& 0 <= k < n
                &&& tips[k].distance is Some
                &&& (tips[k].distance->0).less(reach)
                &&& forall|i: int|
                    0 <= i < n && (#[trigger] tips[i]).distance is Some ==> !(
                    tips[i].distance->0).less(tips[k].distance->0)
            },
            None => forall|i: int|
                0 <= i < n && (#[trigger] tips[i]).distance is Some ==> !(
                tips[i].distance->0).less(reach),
        },
    decreases n,
{
    if n > 0 {
        law_nearest_tip_is_taken(tips, reach, (n - 1) as nat);
    }
}

/// An end that is set leaves the other end, and all else of the rope, as it
/// was.
pub proof fn law_ends_are_set_apart(o: Object, end: RopeEnd, other: RopeEnd)
    ensures
        with_end(o, Which::Start, end).rope_start == end,
        with_end(o, Which::Start, end).rope_end == o.rope_end,
        with_end(o, Which::End, end).rope_end == end,
        with_end(o, Which::End, end).rope_start == o.rope_start,
        with_end(with_end(o, Which::Start, end), Which::End, other) == with_end(
            with_end(o, Which::End, other),
            Which::Start,
            end,
        ),
        with_end(with_end(o, Which::Start, other), Which::Start, o.rope_start) == o,
        with_end(with_end(o, Which::End, other), Which::End, o.rope_end) == o,
{
}

/// A rope hangs on no rope, no light, nothing hidden and never on itself; on
/// any other object it may.
pub proof fn law_ropes_hang_on_solid_things(objects: Seq<Object>, rope: ObjectId, target: ObjectId)
    ensures
        attachable(objects, rope, target) ==> target != rope && exists_in(objects, target),
        place_of(objects, target) is Some ==> ({
            let o = objects[place_of(objects, target)->0];
            attachable(objects, rope, target) <==> target != rope && o.visible && !(o.primitive
                is Light) && !(o.primitive is Rope)
        }),
{
    lemma_place_of(objects, target);
}

/// All ropes are left out of what a rope may hang on, hidden ones too.
pub proof fn law_every_rope_is_left_out(objects: Seq<Object>, n: nat, id: ObjectId)
    requires
        n <= objects.len(),
    ensures
        all_ropes(objects, n).contains(id) <==> exists|k: int|
            0 <= k < n && (#[trigger] objects[k]).id == id && objects[k].primitive is Rope,
    decreases n,
{
    if n > 0 {
        law_every_rope_is_left_out(objects, (n - 1) as nat, id);
        let before = all_ropes(objects, (n - 1) as nat);
        let now = all_ropes(objects, n);
        if before.contains(id) {
            let k = choose|k: int| 0 <= k < before.len() && before[k] == id;
            assert(now[k] == id);
        }
        if objects[n - 1].id == id && now.len() > before.len() {
            assert(now[before.len() as int] == id);
        }
        if now.contains(id) && !before.contains(id) {
            assert(objects[n - 1].id == id);
        }
    }
}

/// A rope that is laid anew is where it is put, as long as it is told to be,
/// and drawn again; its ends and its thickness stay.
pub proof fn law_laid_ropes_keep_their_ends(o: Object, placement: Transform, length: Option<Scalar>)
    requires
        o.primitive is Rope,
    ensures
        ({
            let r = laid(o, placement, length);
            &&& r.transform == placement
            &&& r.primitive is Rope
            &&& r.primitive->Rope_length == (match length {
                Some(l) => l,
                None => o.primitive->Rope_length,
            })
            &&& r.primitive->Rope_radius == o.primitive->Rope_radius
            &&& r.primitive->Rope_segments == o.primitive->Rope_segments
            &&& r.rope_start == o.rope_start && r.rope_end == o.rope_end
            &&& r.id == o.id
            &&& r.mesh_revision != o.mesh_revision
        }),
{
}

/// The ropes that follow their pins are the visible ones that hang on
/// something, by either end.
pub proof fn law_pinned_ropes_hang_on_something(objects: Seq<Object>, n: nat, id: ObjectId)
    requires
        n <= objects.len(),
    ensures
        pinned_ropes(objects, n).contains(id) <==> exists|k: int|
            0 <= k < n && (#[trigger] objects[k]).id == id && objects[k].visible
                && objects[k].primitive is Rope && (objects[k].rope_start.object is Some
                || objects[k].rope_end.object is Some),
    decreases n,
{
    if n > 0 {
        law_pinned_ropes_hang_on_something(objects, (n - 1) as nat, id);
        let before = pinned_ropes(objects, (n - 1) as nat);
        let now = pinned_ropes(objects, n);
        if before.contains(id) {
            let k = choose|k: int| 0 <= k < before.len() && before[k] == id;
            assert(now[k] == id);
        }
        if objects[n - 1].id == id && now.len() > before.len() {
            assert(now[before.len() as int] == id);
        }
        if now.contains(id) && !before.contains(id) {
            assert(objects[n - 1].id == id);
        }
    }
}

} // verus!
