//! What an active operator does to its objects: where the motion comes from,
//! how it is constrained and snapped, what the status line says, and how the
//! new placements are written back. Duplicating the selection is here too.

use vstd::prelude::*;
use crate::modal::{
    axis_letter, axis_name, entry_at, following_entries, guide_axes, hangs_on, hangs_on_some,
    has_axis, records, selected_entries, started, Constraint, Kind, Mouse, OriginalEntry,
};
use crate::physics::placed_back;
use crate::physics_laws::{lemma_placed_back, own_or_recorded};
use crate::scalar::{Scalar, Transform, Vec3, SIGN_BIT};
use crate::scene::{ids_distinct, is_copy, place_of, Object, ObjectId, Scene};
use crate::selection::{contains, Selection};

verus! {

/// How far from a vertex on the screen, in pixels, the pointer snaps to it:
/// thirty.
pub const SNAP_PIXELS_BITS: u32 = 0x41f0_0000;

/// Where the motion of a grab comes from.
#[derive(Clone, Copy, PartialEq, Eq, Structural, Debug)]
pub enum GrabSource {
    /// The typed value, along this axis.
    Typed { axis: usize },
    /// The vertex that the selection snaps to.
    Vertex,
    /// The pointer.
    Pointer,
}

/// How a grab moves its objects.
#[derive(Clone, Copy, PartialEq, Eq, Structural, Debug)]
pub struct GrabPlan {
    pub source: GrabSource,
    /// Every object is put on the nearest point of the grid.
    pub grid: bool,
    /// A vertex is being snapped to.
    pub vertex: bool,
}

/// How a grab moves its objects. `vertex` says that a vertex to snap to is
/// near the pointer. A typed value overrides the pointer; it is taken along
/// the axis of the constraint, or else along x. Ctrl inverts the grid switch.
pub open spec fn grab_plan(
    constraint: Constraint,
    typed: bool,
    snap_to_grid: bool,
    snap_to_vertex: bool,
    ctrl: bool,
    vertex: bool,
) -> GrabPlan {
    let on_vertex = snap_to_vertex && !typed && vertex;
    let snapping = snap_to_grid != ctrl && !on_vertex;
    GrabPlan {
        source: if typed {
            GrabSource::Typed {
                axis: match constraint {
                    Constraint::Axis(i) => i,
                    _ => 0,
                },
            }
        } else if on_vertex {
            GrabSource::Vertex
        } else {
            GrabSource::Pointer
        },
        grid: snapping && !typed,
        vertex: on_vertex,
    }
}

/// How a grab moves its objects.
pub fn plan_grab(
    constraint: Constraint,
    typed: bool,
    snap_to_grid: bool,
    snap_to_vertex: bool,
    ctrl: bool,
    vertex: bool,
) -> (r: GrabPlan)
    ensures
        r == grab_plan(constraint, typed, snap_to_grid, snap_to_vertex, ctrl, vertex),
{
    let on_vertex = snap_to_vertex && !typed && vertex;
    let snapping = snap_to_grid != ctrl && !on_vertex;
    let axis: usize = match constraint {
        Constraint::Axis(i) => i,
        _ => 0,
    };
    let source = if typed {
        GrabSource::Typed { axis }
    } else if on_vertex {
        GrabSource::Vertex
    } else {
        GrabSource::Pointer
    };
    GrabPlan { source, grid: snapping && !typed, vertex: on_vertex }
}

/// The axis that a rotation turns around.
#[derive(Clone, Copy, PartialEq, Eq, Structural, Debug)]
pub enum TurnAxis {
    /// The axis from the pivot to the viewer.
    View,
    /// An axis of the world.
    World(usize),
}

/// The axis that a rotation turns around, and whether its angle snaps to
/// steps.
pub fn plan_rotation(constraint: Constraint, typed: bool, ctrl: bool) -> (r: (TurnAxis, bool))
    ensures
        r.0 == (match constraint {
            Constraint::Free => TurnAxis::View,
            Constraint::Axis(i) => TurnAxis::World(i),
            Constraint::Plane(i) => TurnAxis::World(i),
        }),
        r.1 == (!typed && ctrl),
{
    let axis = match constraint {
        Constraint::Free => TurnAxis::View,
        Constraint::Axis(i) => TurnAxis::World(i),
        Constraint::Plane(i) => TurnAxis::World(i),
    };
    (axis, !typed && ctrl)
}

/// The axis is scaled under the constraint.
pub open spec fn scales_along(constraint: Constraint, axis: usize) -> bool {
    match constraint {
        Constraint::Free => true,
        Constraint::Axis(i) => i == axis,
        Constraint::Plane(i) => i != axis,
    }
}

/// Which axes a scaling scales, and whether its factor snaps to steps.
pub fn plan_scaling(constraint: Constraint, typed: bool, ctrl: bool) -> (r: (
    (bool, bool, bool),
    bool,
))
    ensures
        r.0 == (
            scales_along(constraint, 0),
            scales_along(constraint, 1),
            scales_along(constraint, 2),
        ),
        r.1 == (!typed && ctrl),
{
    let axes = match constraint {
        Constraint::Free => (true, true, true),
        Constraint::Axis(i) => (i == 0, i == 1, i == 2),
        Constraint::Plane(i) => (i != 0, i != 1, i != 2),
    };
    (axes, !typed && ctrl)
}

/// What the status line says of the constraint.
pub open spec fn constraint_tag(c: Constraint) -> Seq<char> {
    match c {
        Constraint::Free => seq![],
        Constraint::Axis(i) => " along "@ + axis_letter(i),
        Constraint::Plane(i) => " locking "@ + axis_letter(i),
    }
}

/// What the status line says of the typed value.
pub open spec fn numeric_tag(numeric: Seq<char>) -> Seq<char> {
    if numeric.len() == 0 {
        seq![]
    } else {
        "  ["@ + numeric + "]"@
    }
}

/// What the status line says of snapping.
pub open spec fn snap_tag(plan: GrabPlan) -> Seq<char> {
    if plan.vertex {
        "  [snap: vertex]"@
    } else if plan.grid {
        "  [snap]"@
    } else {
        ""@
    }
}

fn push_tags(s: &mut String, c: Constraint, numeric: &str)
    requires
        has_axis(c),
    ensures
        final(s)@ == old(s)@ + constraint_tag(c) + numeric_tag(numeric@),
{
    match c {
        Constraint::Free => {},
        Constraint::Axis(i) => {
            s.append(" along ");
            s.append(axis_name(i));
        },
        Constraint::Plane(i) => {
            s.append(" locking ");
            s.append(axis_name(i));
        },
    }
    assert(s@ =~= old(s)@ + constraint_tag(c));
    let ghost first = s@;
    if !numeric.is_empty() {
        s.append("  [");
        s.append(numeric);
        s.append("]");
    }
    assert(s@ =~= first + numeric_tag(numeric@));
}

/// The status line of a grab. `x`, `y` and `z` are the motion in the unit
/// `suffix`.
pub fn grab_status(
    x: &str,
    y: &str,
    z: &str,
    suffix: &str,
    c: Constraint,
    numeric: &str,
    plan: &GrabPlan,
) -> (r: String)
    requires
        has_axis(c),
    ensures
        r@ == "Move: ("@ + x@ + ", "@ + y@ + ", "@ + z@ + ") "@ + suffix@ + constraint_tag(c)
            + numeric_tag(numeric@) + snap_tag(*plan),
{
    let mut s = "Move: (".to_owned();
    s.append(x);
    s.append(", ");
    s.append(y);
    s.append(", ");
    s.append(z);
    s.append(") ");
    s.append(suffix);
    push_tags(&mut s, c, numeric);
    if plan.vertex {
        s.append("  [snap: vertex]");
    } else if plan.grid {
        s.append("  [snap]");
    } else {
        s.append("");
    }
    s
}

/// The status line of a rotation by `degrees`.
pub fn rotate_status(degrees: &str, c: Constraint, numeric: &str) -> (r: String)
    requires
        has_axis(c),
    ensures
        r@ == "Rotate: "@ + degrees@ + "°"@ + constraint_tag(c) + numeric_tag(numeric@),
{
    let mut s = "Rotate: ".to_owned();
    s.append(degrees);
    s.append("°");
    push_tags(&mut s, c, numeric);
    s
}

/// The status line of a scaling by `factor`.
pub fn scale_status(factor: &str, c: Constraint, numeric: &str) -> (r: String)
    requires
        has_axis(c),
    ensures
        r@ == "Scale: "@ + factor@ + constraint_tag(c) + numeric_tag(numeric@),
{
    let mut s = "Scale: ".to_owned();
    s.append(factor);
    push_tags(&mut s, c, numeric);
    s
}

/// Where the new placement of an object in the world comes from.
#[derive(Clone, Copy, PartialEq, Eq, Structural, Debug)]
pub enum WorldSource {
    /// The operator gives it, to its object number `i`.
    Target(usize),
    /// It keeps the one it had when the operator started, as frozen object
    /// number `i`.
    Frozen(usize),
    /// The operator does not touch it.
    Scene(ObjectId),
}

/// The new placement of an object in the world: from its nearest ancestor that
/// the operator moves or pins, through the placements within one another of
/// the objects between, the outermost first and the object itself last.
#[derive(Debug)]
pub struct Frame {
    pub base: WorldSource,
    pub chain: Vec<ObjectId>,
}

/// A frame as a value.
pub struct FrameView {
    pub base: WorldSource,
    pub chain: Seq<ObjectId>,
}

impl View for Frame {
    type V = FrameView;

    open spec fn view(&self) -> FrameView {
        FrameView { base: self.base, chain: self.chain@ }
    }
}

/// A placement to write: that of `id` in the world, seen from its parent.
#[derive(Debug)]
pub struct Write {
    pub id: ObjectId,
    pub world: WorldSource,
    pub parent: Option<Frame>,
}

/// A write as a value.
pub struct WriteView {
    pub id: ObjectId,
    pub world: WorldSource,
    pub parent: Option<FrameView>,
}

impl View for Write {
    type V = WriteView;

    open spec fn view(&self) -> WriteView {
        WriteView {
            id: self.id,
            world: self.world,
            parent: match self.parent {
                Some(f) => Some(f@),
                None => None,
            },
        }
    }
}

/// The writes as values.
pub open spec fn writes_view(writes: Seq<Write>) -> Seq<WriteView> {
    Seq::new(writes.len(), |i: int| writes[i]@)
}

/// The place of `id` among the first `n` entries.
pub open spec fn entry_place(entries: Seq<OriginalEntry>, id: ObjectId, n: nat) -> Option<int>
    decreases n,
{
    if n == 0 {
        None
    } else if entry_place(entries, id, (n - 1) as nat) is Some {
        entry_place(entries, id, (n - 1) as nat)
    } else if entries[n - 1].id == id {
        Some(n - 1)
    } else {
        None
    }
}

fn find_entry(entries: &Vec<OriginalEntry>, id: ObjectId) -> (r: Option<usize>)
    ensures
        r matches Some(i) ==> entry_place(entries@, id, entries@.len()) == Some(i as int) && i
            < entries@.len(),
        r is None ==> entry_place(entries@, id, entries@.len()) is None,
{
    let mut found: Option<usize> = None;
    let mut n: usize = 0;
    while n < entries.len()
        invariant
            n <= entries@.len(),
            found matches Some(i) ==> entry_place(entries@, id, n as nat) == Some(i as int) && i
                < n,
            found is None ==> entry_place(entries@, id, n as nat) is None,
        decreases entries@.len() - n,
    {
        if found.is_none() && entries[n].id == id {
            found = Some(n);
        }
        n += 1;
    }
    found
}

/// Where the new placement of `id` comes from.
pub open spec fn world_source(
    originals: Seq<OriginalEntry>,
    frozen: Seq<OriginalEntry>,
    id: ObjectId,
) -> WorldSource {
    match entry_place(originals, id, originals.len()) {
        Some(i) => WorldSource::Target(i as usize),
        None => match entry_place(frozen, id, frozen.len()) {
            Some(i) => WorldSource::Frozen(i as usize),
            None => WorldSource::Scene(id),
        },
    }
}

fn source_of(originals: &Vec<OriginalEntry>, frozen: &Vec<OriginalEntry>, id: ObjectId) -> (r:
    WorldSource)
    ensures
        r == world_source(originals@, frozen@, id),
{
    match find_entry(originals, id) {
        Some(i) => WorldSource::Target(i),
        None => match find_entry(frozen, id) {
            Some(i) => WorldSource::Frozen(i),
            None => WorldSource::Scene(id),
        },
    }
}

/// The new placement of `id` in the world, looking for an ancestor that the
/// operator moves or pins at most `steps` parents up. Where there is none, the
/// object stays where it is.
pub open spec fn new_frame(
    objects: Seq<Object>,
    originals: Seq<OriginalEntry>,
    frozen: Seq<OriginalEntry>,
    id: ObjectId,
    steps: nat,
) -> FrameView
    decreases steps,
{
    let own = FrameView { base: world_source(originals, frozen, id), chain: seq![] };
    if steps == 0 || !(own.base is Scene) {
        own
    } else {
        match place_of(objects, id) {
            Some(i) => match objects[i].parent {
                Some(p) => {
                    let above = new_frame(objects, originals, frozen, p, (steps - 1) as nat);
                    if above.base is Scene {
                        own
                    } else {
                        FrameView { base: above.base, chain: above.chain.push(id) }
                    }
                },
                None => own,
            },
            None => own,
        }
    }
}

/// The frame of the lowest of `path`, which leads up to an object in the frame
/// `above`.
spec fn led_to(path: Seq<ObjectId>, above: FrameView) -> FrameView {
    if path.len() == 0 {
        above
    } else if above.base is Scene {
        FrameView { base: WorldSource::Scene(path[0]), chain: seq![] }
    } else {
        FrameView { base: above.base, chain: above.chain + path.reverse() }
    }
}

fn frame_of(
    scene: &Scene,
    originals: &Vec<OriginalEntry>,
    frozen: &Vec<OriginalEntry>,
    id: ObjectId,
) -> (r: Frame)
    ensures
        r@ == new_frame(scene.objects@, originals@, frozen@, id, scene.objects@.len()),
{
    let ghost goal = new_frame(scene.objects@, originals@, frozen@, id, scene.objects@.len());
    let mut path: Vec<ObjectId> = Vec::new();
    let mut at = id;
    let mut base = source_of(originals, frozen, at);
    let mut steps: usize = scene.objects.len();
    let mut up = true;
    while up
        invariant
            base == world_source(originals@, frozen@, at),
            path@.len() == 0 ==> at == id,
            path@.len() > 0 ==> path@[0] == id,
            up ==> goal == led_to(
                path@,
                new_frame(scene.objects@, originals@, frozen@, at, steps as nat),
            ),
            !up ==> goal == led_to(path@, FrameView { base, chain: seq![] }),
        decreases
                steps,
                if up {
                    1int
                } else {
                    0int
                },
    {
        let ghost before = path@;
        let ghost here = new_frame(scene.objects@, originals@, frozen@, at, steps as nat);
        let touched = match base {
            WorldSource::Scene(_) => false,
            _ => true,
        };
        let parent = match scene.find(at) {
            Some(i) => scene.objects[i].parent,
            None => None,
        };
        match parent {
            Some(p) if steps > 0 && !touched => {
                path.push(at);
                at = p;
                base = source_of(originals, frozen, at);
                steps = steps - 1;
                proof {
                    let above = new_frame(scene.objects@, originals@, frozen@, p, steps as nat);
                    if !(above.base is Scene) {
                        assert(above.chain.push(path@.last()) + before.reverse() =~= above.chain
                            + path@.reverse());
                    }
                }
            },
            _ => {
                up = false;
            },
        }
    }
    let untouched = match base {
        WorldSource::Scene(_) => true,
        _ => false,
    };
    if untouched {
        let r = Frame { base: WorldSource::Scene(id), chain: Vec::new() };
        assert(r@.chain =~= seq![]);
        assert(r@ == goal);
        return r;
    }
    let mut chain: Vec<ObjectId> = Vec::new();
    let mut n: usize = path.len();
    while n > 0
        invariant
            n <= path@.len(),
            chain@ == path@.skip(n as int).reverse(),
        decreases n,
    {
        n = n - 1;
        chain.push(path[n]);
        assert(chain@ =~= path@.skip(n as int).reverse());
    }
    assert(path@.skip(0) =~= path@);
    let r = Frame { base, chain };
    assert(r@.chain =~= goal.chain);
    r
}

/// The frame of the parent of an entry.
pub open spec fn parent_frame(
    objects: Seq<Object>,
    originals: Seq<OriginalEntry>,
    frozen: Seq<OriginalEntry>,
    parent: Option<ObjectId>,
) -> Option<FrameView> {
    match parent {
        Some(p) => Some(new_frame(objects, originals, frozen, p, objects.len())),
        None => None,
    }
}

/// The writes for the first `n` transformed objects.
pub open spec fn target_writes(
    objects: Seq<Object>,
    originals: Seq<OriginalEntry>,
    frozen: Seq<OriginalEntry>,
    n: nat,
) -> Seq<WriteView>
    decreases n,
{
    if n == 0 {
        seq![]
    } else {
        let e = originals[n - 1];
        target_writes(objects, originals, frozen, (n - 1) as nat).push(
            WriteView {
                id: e.id,
                world: WorldSource::Target((n - 1) as usize),
                parent: parent_frame(objects, originals, frozen, e.parent),
            },
        )
    }
}

/// The writes for the first `n` frozen objects: those with a parent.
pub open spec fn frozen_writes(
    objects: Seq<Object>,
    originals: Seq<OriginalEntry>,
    frozen: Seq<OriginalEntry>,
    n: nat,
) -> Seq<WriteView>
    decreases n,
{
    if n == 0 {
        seq![]
    } else {
        let before = frozen_writes(objects, originals, frozen, (n - 1) as nat);
        let e = frozen[n - 1];
        match e.parent {
            Some(_) => before.push(
                WriteView {
                    id: e.id,
                    world: WorldSource::Frozen((n - 1) as usize),
                    parent: parent_frame(objects, originals, frozen, e.parent),
                },
            ),
            None => before,
        }
    }
}

/// How the new placements are written back: each as seen from the new
/// placement of its parent, which follows what the operator moves or pins
/// above it. Frozen objects are pinned to where they were in the world.
pub fn write_targets(
    scene: &Scene,
    originals: &Vec<OriginalEntry>,
    frozen: &Vec<OriginalEntry>,
) -> (r: Vec<Write>)
    ensures
        writes_view(r@) == target_writes(scene.objects@, originals@, frozen@, originals@.len())
            + frozen_writes(scene.objects@, originals@, frozen@, frozen@.len()),
{
    let mut r: Vec<Write> = Vec::new();
    let mut n: usize = 0;
    assert(writes_view(r@) =~= target_writes(scene.objects@, originals@, frozen@, 0));
    while n < originals.len()
        invariant
            n <= originals@.len(),
            writes_view(r@) == target_writes(scene.objects@, originals@, frozen@, n as nat),
        decreases originals@.len() - n,
    {
        let ghost before = writes_view(r@);
        let e = originals[n];
        let parent = match e.parent {
            Some(p) => Some(frame_of(scene, originals, frozen, p)),
            None => None,
        };
        let w = Write { id: e.id, world: WorldSource::Target(n), parent };
        let ghost written = w@;
        r.push(w);
        n += 1;
        assert(writes_view(r@) =~= before.push(written));
    }
    let ghost first = writes_view(r@);
    let mut k: usize = 0;
    assert(writes_view(r@) =~= first + frozen_writes(scene.objects@, originals@, frozen@, 0));
    while k < frozen.len()
        invariant
            k <= frozen@.len(),
            writes_view(r@) == first + frozen_writes(
                scene.objects@,
                originals@,
                frozen@,
                k as nat,
            ),
        decreases frozen@.len() - k,
    {
        let ghost before = frozen_writes(scene.objects@, originals@, frozen@, k as nat);
        let ghost all = writes_view(r@);
        let e = frozen[k];
        match e.parent {
            Some(p) => {
                let w = Write {
                    id: e.id,
                    world: WorldSource::Frozen(k),
                    parent: Some(frame_of(scene, originals, frozen, p)),
                };
                let ghost written = w@;
                r.push(w);
                assert(writes_view(r@) =~= all.push(written));
                assert(all.push(written) =~= first + before.push(written));
            },
            None => {},
        }
        k += 1;
    }
    r
}

/// The operator moves or pins the object.
pub open spec fn is_touched(
    originals: Seq<OriginalEntry>,
    frozen: Seq<OriginalEntry>,
    id: ObjectId,
) -> bool {
    !(world_source(originals, frozen, id) is Scene)
}

/// A frame leads through untouched objects only, each the parent of the next,
/// from its base down to the object itself.
pub open spec fn leads_down(
    objects: Seq<Object>,
    originals: Seq<OriginalEntry>,
    frozen: Seq<OriginalEntry>,
    frame: FrameView,
    id: ObjectId,
) -> bool {
    if frame.chain.len() == 0 {
        frame.base == world_source(originals, frozen, id)
    } else {
        &&& frame.chain.last() == id
        &&& forall|k: int|
            0 <= k < frame.chain.len() ==> {
                let here = #[trigger] frame.chain[k];
                &&& !is_touched(originals, frozen, here)
                &&& place_of(objects, here) matches Some(i) && objects[i].parent matches Some(p)
                    && if k == 0 {
                    is_touched(originals, frozen, p) && frame.base == world_source(
                        originals,
                        frozen,
                        p,
                    )
                } else {
                    p == frame.chain[k - 1]
                }
            }
    }
}

/// The new placement of an object follows the nearest ancestor that the
/// operator moves or pins, and where it follows none, there is none: neither
/// the object nor any of its ancestors, `steps` parents up, is touched.
pub proof fn law_frames_follow_what_moves(
    objects: Seq<Object>,
    originals: Seq<OriginalEntry>,
    frozen: Seq<OriginalEntry>,
    id: ObjectId,
    steps: nat,
)
    ensures
        leads_down(
            objects,
            originals,
            frozen,
            new_frame(objects, originals, frozen, id, steps),
            id,
        ),
        new_frame(objects, originals, frozen, id, steps).base is Scene ==> !is_touched(
            originals,
            frozen,
            id,
        ) && forall|a: ObjectId| #[trigger]
            hangs_on(objects, id, a, steps) ==> !is_touched(originals, frozen, a),
    decreases steps,
{
    let f = new_frame(objects, originals, frozen, id, steps);
    if steps > 0 && !is_touched(originals, frozen, id) {
        match place_of(objects, id) {
            Some(i) => match objects[i].parent {
                Some(p) => {
                    let m = (steps - 1) as nat;
                    law_frames_follow_what_moves(objects, originals, frozen, p, m);
                    let above = new_frame(objects, originals, frozen, p, m);
                    if !(above.base is Scene) {
                        assert forall|k: int| 0 <= k < f.chain.len() implies {
                            let here = #[trigger] f.chain[k];
                            &&& !is_touched(originals, frozen, here)
                            &&& place_of(objects, here) matches Some(i)
                                && objects[i].parent matches Some(p) && if k == 0 {
                                is_touched(originals, frozen, p) && f.base == world_source(
                                    originals,
                                    frozen,
                                    p,
                                )
                            } else {
                                p == f.chain[k - 1]
                            }
                        } by {
                            if k < above.chain.len() {
                                assert(f.chain[k] == above.chain[k]);
                                if k > 0 {
                                    assert(f.chain[k - 1] == above.chain[k - 1]);
                                }
                            }
                        }
                    } else {
                        assert forall|a: ObjectId| #[trigger]
                            hangs_on(objects, id, a, steps) implies !is_touched(
                            originals,
                            frozen,
                            a,
                        ) by {
                            assert(a == p || hangs_on(objects, p, a, m));
                        }
                    }
                },
                None => {},
            },
            None => {},
        }
    }
}

/// The selected ones among the first `n` objects, by place.
pub open spec fn selected_places(objects: Seq<Object>, selected: Seq<ObjectId>, n: nat) -> Seq<int>
    decreases n,
{
    if n == 0 {
        seq![]
    } else if selected.contains(objects[n - 1].id) {
        selected_places(objects, selected, (n - 1) as nat).push(n - 1)
    } else {
        selected_places(objects, selected, (n - 1) as nat)
    }
}

/// The id that the copy of `id` has: copies have the ids from `first` on, in
/// the order of `places`. `None` where it was not copied.
pub open spec fn copy_id(
    objects: Seq<Object>,
    places: Seq<int>,
    first: u64,
    id: ObjectId,
    n: nat,
) -> Option<ObjectId>
    decreases n,
{
    if n == 0 {
        None
    } else if objects[places[n - 1]].id == id {
        Some(ObjectId((first + (n - 1)) as u64))
    } else {
        copy_id(objects, places, first, id, (n - 1) as nat)
    }
}

/// The parent of the copy of an object.
pub open spec fn copy_parent(
    objects: Seq<Object>,
    places: Seq<int>,
    first: u64,
    parent: Option<ObjectId>,
) -> Option<ObjectId> {
    match parent {
        Some(p) => match copy_id(objects, places, first, p, places.len()) {
            Some(c) => Some(c),
            None => Some(p),
        },
        None => None,
    }
}

/// The objects `now` are `before` with the first `n` copies added. A copy
/// follows the copy of its parent, where that was copied too.
pub open spec fn copies_added(
    before: Seq<Object>,
    now: Seq<Object>,
    places: Seq<int>,
    names: Seq<String>,
    first: u64,
    n: nat,
) -> bool {
    &&& now.len() == before.len() + n
    &&& forall|i: int| 0 <= i < before.len() ==> #[trigger] now[i] == before[i]
    &&& forall|k: int|
        0 <= k < n ==> is_copy(
            before[places[k]],
            #[trigger] now[before.len() + k],
            ObjectId((first + k) as u64),
            copy_parent(before, places, first, before[places[k]].parent),
            names[k]@,
        )
}

/// The active object of the copies: the copy of the active one, or else the
/// last copy.
pub open spec fn copy_active(
    objects: Seq<Object>,
    places: Seq<int>,
    first: u64,
    active: Option<ObjectId>,
) -> Option<ObjectId> {
    let last = ObjectId((first + places.len() - 1) as u64);
    match active {
        Some(a) => match copy_id(objects, places, first, a, places.len()) {
            Some(c) => Some(c),
            None => Some(last),
        },
        None => Some(last),
    }
}

fn places_of(scene: &Scene, selected: &Vec<ObjectId>) -> (r: Vec<usize>)
    ensures
        r@.len() == selected_places(scene.objects@, selected@, scene.objects@.len()).len(),
        forall|k: int|
            0 <= k < r@.len() ==> #[trigger] r@[k] as int == selected_places(
                scene.objects@,
                selected@,
                scene.objects@.len(),
            )[k] && r@[k] < scene.objects@.len(),
{
    let mut r: Vec<usize> = Vec::new();
    let mut n: usize = 0;
    while n < scene.objects.len()
        invariant
            n <= scene.objects@.len(),
            r@.len() == selected_places(scene.objects@, selected@, n as nat).len(),
            forall|k: int|
                0 <= k < r@.len() ==> #[trigger] r@[k] as int == selected_places(
                    scene.objects@,
                    selected@,
                    n as nat,
                )[k] && r@[k] < n,
        decreases scene.objects@.len() - n,
    {
        if contains(selected, scene.objects[n].id) {
            r.push(n);
        }
        n += 1;
    }
    r
}

/// The ids of the copied objects, in the order of the places.
fn copied_ids(scene: &Scene, places: &Vec<usize>) -> (r: Vec<ObjectId>)
    requires
        forall|k: int| 0 <= k < places@.len() ==> #[trigger] places@[k] < scene.objects@.len(),
    ensures
        r@.len() == places@.len(),
        forall|k: int|
            0 <= k < r@.len() ==> #[trigger] r@[k] == scene.objects@[places@[k] as int].id,
{
    let mut r: Vec<ObjectId> = Vec::new();
    let mut n: usize = 0;
    while n < places.len()
        invariant
            n <= places@.len(),
            r@.len() == n,
            forall|k: int| 0 <= k < places@.len() ==> #[trigger] places@[k] < scene.objects@.len(),
            forall|k: int|
                0 <= k < r@.len() ==> #[trigger] r@[k] == scene.objects@[places@[k] as int].id,
        decreases places@.len() - n,
    {
        r.push(scene.objects[places[n]].id);
        n += 1;
    }
    r
}

/// The id of the copy of `id`.
fn find_copy(
    ids: &Vec<ObjectId>,
    first: u64,
    id: ObjectId,
    Ghost(objects): Ghost<Seq<Object>>,
    Ghost(places): Ghost<Seq<int>>,
) -> (r: Option<ObjectId>)
    requires
        places.len() == ids@.len(),
        first + ids@.len() <= u64::MAX,
        forall|k: int| 0 <= k < ids@.len() ==> #[trigger] ids@[k] == objects[places[k]].id,
    ensures
        r == copy_id(objects, places, first, id, places.len()),
{
    let mut found: Option<ObjectId> = None;
    let mut n: usize = 0;
    while n < ids.len()
        invariant
            n <= ids@.len(),
            places.len() == ids@.len(),
            first + ids@.len() <= u64::MAX,
            forall|k: int| 0 <= k < ids@.len() ==> #[trigger] ids@[k] == objects[places[k]].id,
            found == copy_id(objects, places, first, id, n as nat),
        decreases ids@.len() - n,
    {
        if ids[n] == id {
            found = Some(ObjectId(first + n as u64));
        }
        n += 1;
    }
    found
}

/// Puts the copies into the scene, in order.
fn lay_copies(
    scene: &mut Scene,
    places: &Vec<usize>,
    ids: &Vec<ObjectId>,
    names: Vec<String>,
    Ghost(spots): Ghost<Seq<int>>,
)
    requires
        old(scene).wf(),
        old(scene).next_id + places@.len() <= u64::MAX,
        names@.len() == places@.len(),
        ids@.len() == places@.len(),
        spots.len() == places@.len(),
        forall|k: int|
            0 <= k < places@.len() ==> #[trigger] places@[k] < old(scene).objects@.len()
                && places@[k] as int == spots[k],
        forall|k: int|
            0 <= k < ids@.len() ==> #[trigger] ids@[k] == old(scene).objects@[spots[k]].id,
    ensures
        final(scene).wf(),
        final(scene).folders == old(scene).folders,
        final(scene).next_id == old(scene).next_id + places@.len(),
        copies_added(
            old(scene).objects@,
            final(scene).objects@,
            spots,
            names@,
            old(scene).next_id,
            places@.len(),
        ),
{
    let ghost all = names@;
    let total: usize = places.len();
    let first = scene.next_id;
    let mut n: usize = 0;
    for name in it: names.into_iter()
        invariant
            n == it.index(),
            n <= total,
            total == places@.len(),
            total == all.len(),
            it.seq() == all,
            first == old(scene).next_id,
            first + total <= u64::MAX,
            ids@.len() == total,
            spots.len() == total,
            forall|k: int|
                0 <= k < places@.len() ==> #[trigger] places@[k] < old(scene).objects@.len()
                    && places@[k] as int == spots[k],
            forall|k: int|
                0 <= k < ids@.len() ==> #[trigger] ids@[k] == old(scene).objects@[spots[k]].id,
            scene.wf(),
            scene.folders == old(scene).folders,
            scene.next_id == first + n,
            copies_added(old(scene).objects@, scene.objects@, spots, all, first, n as nat),
    {
        let ghost before = scene.objects@;
        let place: usize = places[n];
        assert(places@[n as int] < old(scene).objects@.len());
        assert(before[place as int] == old(scene).objects@[place as int]);
        let source = &scene.objects[place];
        let parent = match source.parent {
            Some(p) => match find_copy(
                ids,
                first,
                p,
                Ghost(old(scene).objects@),
                Ghost(spots),
            ) {
                Some(c) => Some(c),
                None => Some(p),
            },
            None => None,
        };
        let copy = source.copied(ObjectId(scene.next_id), parent, name);
        let id = scene.insert_object(copy);
        proof {
            let now = scene.objects@;
            let len = old(scene).objects@.len();
            assert forall|k: int| 0 <= k < n + 1 implies is_copy(
                old(scene).objects@[spots[k]],
                #[trigger] now[len + k],
                ObjectId((first + k) as u64),
                copy_parent(
                    old(scene).objects@,
                    spots,
                    first,
                    old(scene).objects@[spots[k]].parent,
                ),
                all[k]@,
            ) by {
                if k < n {
                    assert(now[len + k] == before[len + k]);
                }
            }
        }
        n += 1;
    }
}

/// The ids from `first` on.
pub open spec fn new_ids(first: u64, n: nat) -> Seq<ObjectId> {
    Seq::new(n, |i: int| ObjectId((first + i) as u64))
}

/// Duplicates the selected objects; the copies become the selection. They
/// have the `names` given, as many as there are selected objects. Returns
/// whether there was anything to duplicate.
pub fn duplicate_selection(
    scene: &mut Scene,
    selection: &mut Selection,
    names: Vec<String>,
) -> (r: bool)
    requires
        old(scene).wf(),
        names@.len() == selected_places(
            old(scene).objects@,
            old(selection)@.selected,
            old(scene).objects@.len(),
        ).len(),
        old(scene).next_id + names@.len() <= u64::MAX,
        old(selection)@.stamp < u64::MAX,
    ensures
        final(scene).wf(),
        final(scene).folders == old(scene).folders,
        r == (names@.len() > 0),
        final(scene).next_id == old(scene).next_id + names@.len(),
        !r ==> final(scene).objects@ == old(scene).objects@ && final(selection)@ == old(
            selection,
        )@,
        r ==> {
            let places = selected_places(
                old(scene).objects@,
                old(selection)@.selected,
                old(scene).objects@.len(),
            );
            let first = old(scene).next_id;
            &&& copies_added(
                old(scene).objects@,
                final(scene).objects@,
                places,
                names@,
                first,
                places.len(),
            )
            &&& final(selection)@.selected == new_ids(first, places.len())
            &&& final(selection)@.active == copy_active(
                old(scene).objects@,
                places,
                first,
                old(selection)@.active,
            )
            &&& final(selection)@.image is None
            &&& final(selection)@.stamp == old(selection)@.stamp + 1
        },
{
    let places = places_of(scene, selection.selected());
    if places.len() == 0 {
        return false;
    }
    let ghost spots = selected_places(
        scene.objects@,
        selection@.selected,
        scene.objects@.len(),
    );
    let ids = copied_ids(scene, &places);
    let first = scene.next_id;
    let count: usize = places.len();
    let active = match selection.active() {
        Some(a) => match find_copy(&ids, first, a, Ghost(scene.objects@), Ghost(spots)) {
            Some(c) => Some(c),
            None => Some(ObjectId(first + (count as u64 - 1))),
        },
        None => Some(ObjectId(first + (count as u64 - 1))),
    };
    lay_copies(scene, &places, &ids, names, Ghost(spots));
    let mut copies: Vec<ObjectId> = Vec::new();
    let mut n: usize = 0;
    while n < count
        invariant
            n <= count,
            first + count <= u64::MAX,
            copies@ == new_ids(first, n as nat),
        decreases count - n,
    {
        copies.push(ObjectId(first + n as u64));
        n += 1;
        assert(copies@ =~= new_ids(first, n as nat));
    }
    selection.set(copies, active);
    true
}

/// The nearest of the first `n` vertices that are within `limit` of the
/// pointer on the screen; of two equally near the earlier.
pub open spec fn nearest_vertex(distances: Seq<Scalar>, limit: Scalar, n: nat) -> Option<int>
    decreases n,
{
    if n == 0 {
        None
    } else {
        let before = nearest_vertex(distances, limit, (n - 1) as nat);
        let d = distances[n - 1];
        let nearer = match before {
            Some(k) => d.less(distances[k]),
            None => true,
        };
        if d.less(limit) && nearer {
            Some(n - 1)
        } else {
            before
        }
    }
}

/// The vertex that the pointer snaps to, given how far each is from it.
pub fn snap_target(distances: &Vec<Scalar>, limit: Scalar) -> (r: Option<usize>)
    ensures
        r matches Some(k) ==> nearest_vertex(distances@, limit, distances@.len()) == Some(
            k as int,
        ) && k < distances@.len(),
        r is None ==> nearest_vertex(distances@, limit, distances@.len()) is None,
{
    let mut best: Option<usize> = None;
    let mut n: usize = 0;
    while n < distances.len()
        invariant
            n <= distances@.len(),
            best matches Some(k) ==> nearest_vertex(distances@, limit, n as nat) == Some(k as int)
                && k < n,
            best is None ==> nearest_vertex(distances@, limit, n as nat) is None,
        decreases distances@.len() - n,
    {
        let d = distances[n];
        let nearer = match best {
            Some(k) => d.is_less(distances[k]),
            None => true,
        };
        if d.is_less(limit) && nearer {
            best = Some(n);
        }
        n += 1;
    }
    best
}

/// An integer that orders all encodings, what is not a number included: the
/// order of the IEEE 754 `totalOrder` predicate.
pub open spec fn total_rank(s: Scalar) -> int {
    if s.bits >= SIGN_BIT {
        SIGN_BIT - 1 - s.bits
    } else {
        s.bits as int
    }
}

/// The first of the first `n` numbers that none of the others is below.
pub open spec fn least_place(numbers: Seq<Scalar>, n: nat) -> Option<int>
    decreases n,
{
    if n == 0 {
        None
    } else {
        match least_place(numbers, (n - 1) as nat) {
            Some(k) => if total_rank(numbers[n - 1]) < total_rank(numbers[k]) {
                Some(n - 1)
            } else {
                Some(k)
            },
            None => Some(n - 1),
        }
    }
}

fn rank(s: Scalar) -> (r: i64)
    ensures
        r == total_rank(s),
{
    if s.bits >= SIGN_BIT {
        SIGN_BIT as i64 - 1 - s.bits as i64
    } else {
        s.bits as i64
    }
}

/// The vertex of the selection that is put on the one snapped to: the
/// nearest, given the squares of the distances.
pub fn snap_source(squares: &Vec<Scalar>) -> (r: Option<usize>)
    ensures
        r is Some == (squares@.len() > 0),
        r matches Some(k) ==> least_place(squares@, squares@.len()) == Some(k as int) && k
            < squares@.len(),
{
    let mut best: Option<usize> = None;
    let mut n: usize = 0;
    while n < squares.len()
        invariant
            n <= squares@.len(),
            best is Some == (n > 0),
            best matches Some(k) ==> least_place(squares@, n as nat) == Some(k as int) && k < n,
        decreases squares@.len() - n,
    {
        match best {
            Some(k) => {
                if rank(squares[n]) < rank(squares[k]) {
                    best = Some(n);
                }
            },
            None => {
                best = Some(n);
            },
        }
        n += 1;
    }
    best
}

/// No vertex within reach is nearer to the pointer than the one snapped to.
pub proof fn law_snap_target_is_nearest(distances: Seq<Scalar>, limit: Scalar, n: nat)
    requires
        n <= distances.len(),
    ensures
        match nearest_vertex(distances, limit, n) {
            Some(k) => {
                &&& 0 <= k < n
                &&& distances[k].less(limit)
                &&& forall|i: int|
                    0 <= i < n ==> !(#[trigger] distances[i]).less(distances[k])
            },
            None => forall|i: int| 0 <= i < n ==> !(#[trigger] distances[i]).less(limit),
        },
    decreases n,
{
    if n > 0 {
        law_snap_target_is_nearest(distances, limit, (n - 1) as nat);
    }
}

/// No vertex of the selection is nearer to the one snapped to than the one
/// that is put on it.
pub proof fn law_snap_source_is_nearest(squares: Seq<Scalar>, n: nat)
    requires
        0 < n <= squares.len(),
    ensures
        least_place(squares, n) is Some,
        0 <= least_place(squares, n)->0 < n,
        forall|i: int|
            0 <= i < n ==> total_rank(squares[least_place(squares, n)->0]) <= total_rank(
                #[trigger] squares[i],
            ),
    decreases n,
{
    if n > 1 {
        law_snap_source_is_nearest(squares, (n - 1) as nat);
    } else {
        assert(least_place(squares, 0) is None);
    }
}

/// The entry is that of some object.
spec fn is_entry(e: OriginalEntry, objects: Seq<Object>, worlds: Seq<Transform>) -> bool {
    exists|k: int| 0 <= k < objects.len() && e == #[trigger] entry_at(objects, worlds, k)
}

proof fn lemma_selected_entries(
    objects: Seq<Object>,
    worlds: Seq<Transform>,
    selected: Seq<ObjectId>,
    n: nat,
)
    requires
        n <= objects.len(),
    ensures
        forall|k: int|
            0 <= k < selected_entries(objects, worlds, selected, n).len() ==> is_entry(
                #[trigger] selected_entries(objects, worlds, selected, n)[k],
                objects,
                worlds,
            ) && selected.contains(selected_entries(objects, worlds, selected, n)[k].id),
        forall|i: int|
            0 <= i < n && selected.contains((#[trigger] objects[i]).id) ==> selected_entries(
                objects,
                worlds,
                selected,
                n,
            ).contains(entry_at(objects, worlds, i)),
    decreases n,
{
    if n > 0 {
        let m = (n - 1) as nat;
        lemma_selected_entries(objects, worlds, selected, m);
        let before = selected_entries(objects, worlds, selected, m);
        let now = selected_entries(objects, worlds, selected, n);
        assert forall|k: int| 0 <= k < now.len() implies is_entry(
            #[trigger] now[k],
            objects,
            worlds,
        ) && selected.contains(now[k].id) by {
            if k < before.len() {
                assert(now[k] == before[k]);
            } else {
                assert(now[k] == entry_at(objects, worlds, n - 1));
            }
        }
        assert forall|i: int|
            0 <= i < n && selected.contains((#[trigger] objects[i]).id) implies now.contains(
            entry_at(objects, worlds, i),
        ) by {
            if i < m {
                let k = choose|k: int|
                    0 <= k < before.len() && before[k] == entry_at(objects, worlds, i);
                assert(now[k] == entry_at(objects, worlds, i));
            } else {
                assert(now[now.len() - 1] == entry_at(objects, worlds, i));
            }
        }
    }
}

proof fn lemma_following_entries(
    objects: Seq<Object>,
    worlds: Seq<Transform>,
    selected: Seq<ObjectId>,
    n: nat,
)
    requires
        n <= objects.len(),
    ensures
        forall|k: int|
            0 <= k < following_entries(objects, worlds, selected, n).len() ==> is_entry(
                #[trigger] following_entries(objects, worlds, selected, n)[k],
                objects,
                worlds,
            ),
        forall|i: int|
            0 <= i < n && !selected.contains((#[trigger] objects[i]).id) && hangs_on_some(
                objects,
                objects[i].id,
                selected,
                selected.len(),
            ) ==> following_entries(objects, worlds, selected, n).contains(
                entry_at(objects, worlds, i),
            ),
    decreases n,
{
    if n > 0 {
        let m = (n - 1) as nat;
        lemma_following_entries(objects, worlds, selected, m);
        let before = following_entries(objects, worlds, selected, m);
        let now = following_entries(objects, worlds, selected, n);
        assert forall|k: int| 0 <= k < now.len() implies is_entry(
            #[trigger] now[k],
            objects,
            worlds,
        ) by {
            if k < before.len() {
                assert(now[k] == before[k]);
            } else {
                assert(now[k] == entry_at(objects, worlds, n - 1));
            }
        }
        assert forall|i: int|
            0 <= i < n && !selected.contains((#[trigger] objects[i]).id) && hangs_on_some(
                objects,
                objects[i].id,
                selected,
                selected.len(),
            ) implies now.contains(entry_at(objects, worlds, i)) by {
            if i < m {
                let e = entry_at(objects, worlds, i);
                let k = choose|k: int| 0 <= k < before.len() && before[k] == e;
                assert(now[k] == e);
            } else {
                assert(now[now.len() - 1] == entry_at(objects, worlds, i));
            }
        }
    }
}

proof fn lemma_recorded_placement(
    first: Seq<Object>,
    worlds: Seq<Transform>,
    entries: Seq<OriginalEntry>,
    o: Object,
    i: int,
    n: nat,
)
    requires
        ids_distinct(first),
        0 <= i < first.len(),
        o.id == first[i].id,
        n <= entries.len(),
        forall|k: int| 0 <= k < entries.len() ==> is_entry(#[trigger] entries[k], first, worlds),
    ensures
        own_or_recorded(o, records(entries), n) == first[i].transform || own_or_recorded(
            o,
            records(entries),
            n,
        ) == o.transform,
        (exists|k: int| 0 <= k < n && (#[trigger] entries[k]).id == o.id) ==> own_or_recorded(
            o,
            records(entries),
            n,
        ) == first[i].transform,
    decreases n,
{
    if n > 0 {
        lemma_recorded_placement(first, worlds, entries, o, i, (n - 1) as nat);
        let e = entries[n - 1];
        assert(records(entries)[n - 1] == (e.id, e.local));
        if e.id == o.id {
            assert(is_entry(e, first, worlds));
            let k = choose|k: int| 0 <= k < first.len() && e == #[trigger] entry_at(first, worlds, k);
            if k < i {
                assert(first[k].id != first[i].id);
            }
            if i < k {
                assert(first[i].id != first[k].id);
            }
        }
    }
}

/// What an operator moves or pins: the selected objects and, unless it grabs,
/// what hangs on them.
pub open spec fn is_recorded(
    kind: Kind,
    objects: Seq<Object>,
    selected: Seq<ObjectId>,
    id: ObjectId,
) -> bool {
    selected.contains(id) || (!(kind is Grab) && hangs_on_some(
        objects,
        id,
        selected,
        selected.len(),
    ))
}

/// Cancelling an operator puts every object back where it was when the
/// operator started: what the operator moved or pinned, whatever became of
/// it, and what it did not touch, where that is still where it was.
pub proof fn law_cancel_puts_every_object_back(
    kind: Kind,
    first: Seq<Object>,
    worlds: Seq<Transform>,
    selected: Seq<ObjectId>,
    pivot: Vec3,
    mouse: Mouse,
    last: Seq<Object>,
    i: int,
    j: int,
)
    requires
        ids_distinct(first),
        ids_distinct(last),
        0 <= i < first.len(),
        0 <= j < last.len(),
        last[j].id == first[i].id,
        is_recorded(kind, first, selected, first[i].id) || last[j].transform
            == first[i].transform,
    ensures
        ({
            let s = started(kind, first, worlds, selected, pivot, mouse);
            let put = records(s.originals + s.frozen);
            &&& placed_back(last, put, put.len()).len() == last.len()
            &&& placed_back(last, put, put.len())[j] == (Object {
                transform: first[i].transform,
                ..last[j]
            })
        }),
{
    let s = started(kind, first, worlds, selected, pivot, mouse);
    let all = s.originals + s.frozen;
    let put = records(all);
    lemma_selected_entries(first, worlds, selected, first.len());
    lemma_following_entries(first, worlds, selected, first.len());
    assert forall|k: int| 0 <= k < all.len() implies is_entry(
        #[trigger] all[k],
        first,
        worlds,
    ) by {
        if k < s.originals.len() {
            assert(all[k] == s.originals[k]);
        } else {
            assert(all[k] == s.frozen[k - s.originals.len()]);
        }
    }
    if is_recorded(kind, first, selected, first[i].id) {
        let e = entry_at(first, worlds, i);
        if selected.contains(first[i].id) {
            assert(s.originals.contains(e));
            let k = choose|k: int| 0 <= k < s.originals.len() && s.originals[k] == e;
            assert(all[k].id == last[j].id);
        } else {
            assert(s.frozen.contains(e));
            let k = choose|k: int| 0 <= k < s.frozen.len() && s.frozen[k] == e;
            assert(all[s.originals.len() + k].id == last[j].id);
        }
    }
    lemma_recorded_placement(first, worlds, all, last[j], i, all.len());
    lemma_placed_back(last, put, put.len());
}

proof fn lemma_writes_name_entries(
    objects: Seq<Object>,
    originals: Seq<OriginalEntry>,
    frozen: Seq<OriginalEntry>,
    n: nat,
    m: nat,
)
    requires
        n <= originals.len(),
        m <= frozen.len(),
    ensures
        target_writes(objects, originals, frozen, n).len() == n,
        forall|k: int|
            0 <= k < n ==> (#[trigger] target_writes(objects, originals, frozen, n)[k]).id
                == originals[k].id,
        forall|k: int|
            0 <= k < frozen_writes(objects, originals, frozen, m).len() ==> exists|e: int|
                0 <= e < frozen.len() && frozen[e].id == (#[trigger] frozen_writes(
                    objects,
                    originals,
                    frozen,
                    m,
                )[k]).id,
    decreases n + m,
{
    if n > 0 {
        lemma_writes_name_entries(objects, originals, frozen, (n - 1) as nat, m);
    } else if m > 0 {
        lemma_writes_name_entries(objects, originals, frozen, n, (m - 1) as nat);
        let before = frozen_writes(objects, originals, frozen, (m - 1) as nat);
        let now = frozen_writes(objects, originals, frozen, m);
        assert forall|k: int| 0 <= k < now.len() implies exists|e: int|
            0 <= e < frozen.len() && frozen[e].id == (#[trigger] now[k]).id by {
            if k < before.len() {
                assert(now[k] == before[k]);
            } else {
                assert(frozen[m - 1].id == now[k].id);
            }
        }
    }
}

/// An operator writes to nothing but what it recorded when it started.
pub proof fn law_operators_write_what_they_recorded(
    objects: Seq<Object>,
    originals: Seq<OriginalEntry>,
    frozen: Seq<OriginalEntry>,
    k: int,
)
    requires
        0 <= k < (target_writes(objects, originals, frozen, originals.len()) + frozen_writes(
            objects,
            originals,
            frozen,
            frozen.len(),
        )).len(),
    ensures
        exists|e: int|
            0 <= e < (originals + frozen).len() && (#[trigger] (originals + frozen)[e]).id == (
            target_writes(objects, originals, frozen, originals.len()) + frozen_writes(
                objects,
                originals,
                frozen,
                frozen.len(),
            ))[k].id,
{
    lemma_writes_name_entries(objects, originals, frozen, originals.len(), frozen.len());
    let all = originals + frozen;
    if k < originals.len() {
        assert(all[k].id == originals[k].id);
    } else {
        let w = frozen_writes(objects, originals, frozen, frozen.len())[k - originals.len()];
        let e = choose|e: int| 0 <= e < frozen.len() && frozen[e].id == w.id;
        assert(all[originals.len() + e].id == w.id);
    }
}

/// A typed value is taken as it is: it moves along the axis that the
/// constraint names, or the first, and nothing snaps.
pub proof fn law_typed_values_do_not_snap(
    c: Constraint,
    grid: bool,
    to_vertex: bool,
    ctrl: bool,
    vertex: bool,
)
    ensures
        ({
            let plan = grab_plan(c, true, grid, to_vertex, ctrl, vertex);
            &&& !plan.grid && !plan.vertex
            &&& c is Axis ==> plan.source == (GrabSource::Typed { axis: c->Axis_0 })
            &&& !(c is Axis) ==> plan.source == (GrabSource::Typed { axis: 0 })
        }),
{
}

/// Without a typed value a vertex is snapped to wherever that is switched on
/// and one is near, before the grid; the control key turns the grid over.
pub proof fn law_vertices_come_before_the_grid(
    c: Constraint,
    grid: bool,
    to_vertex: bool,
    ctrl: bool,
    vertex: bool,
)
    ensures
        ({
            let plan = grab_plan(c, false, grid, to_vertex, ctrl, vertex);
            let other = grab_plan(c, false, grid, to_vertex, !ctrl, vertex);
            &&& plan.vertex <==> to_vertex && vertex
            &&& plan.vertex <==> plan.source is Vertex
            &&& !plan.vertex <==> plan.source is Pointer
            &&& plan.vertex ==> !plan.grid
            &&& !plan.vertex ==> plan.grid != other.grid
            &&& !plan.vertex && !ctrl ==> plan.grid == grid
        }),
{
}

/// Scaling reaches every axis when free, only the named one along an axis,
/// and all the others in a plane: what the guides show.
pub proof fn law_scaling_keeps_to_the_guides(c: Constraint, axis: usize)
    requires
        has_axis(c),
        axis < 3,
    ensures
        c is Free ==> scales_along(c, axis),
        !(c is Free) ==> (scales_along(c, axis) <==> guide_axes(c).contains(axis)),
{
    let axes = guide_axes(c);
    if axes.len() > 0 {
        assert(axes.contains(axes[0]));
        if axes.len() > 1 {
            assert(axes.contains(axes[1]));
        }
    }
}

proof fn lemma_entry_place(entries: Seq<OriginalEntry>, id: ObjectId, n: nat)
    requires
        n <= entries.len(),
    ensures
        entry_place(entries, id, n) matches Some(i) ==> 0 <= i < n && entries[i].id == id,
        entry_place(entries, id, n) is None ==> forall|i: int|
            0 <= i < n ==> (#[trigger] entries[i]).id != id,
    decreases n,
{
    if n > 0 {
        lemma_entry_place(entries, id, (n - 1) as nat);
    }
}

/// An object takes its world transform from the operator where the operator
/// moves it, from its record where it is to stay, and from the scene
/// otherwise.
pub proof fn law_worlds_come_from_the_records(
    originals: Seq<OriginalEntry>,
    frozen: Seq<OriginalEntry>,
    id: ObjectId,
)
    requires
        originals.len() <= usize::MAX,
        frozen.len() <= usize::MAX,
    ensures
        match world_source(originals, frozen, id) {
            WorldSource::Target(i) => i < originals.len() && originals[i as int].id == id,
            WorldSource::Frozen(i) => i < frozen.len() && frozen[i as int].id == id
                && forall|k: int| 0 <= k < originals.len() ==> (#[trigger] originals[k]).id != id,
            WorldSource::Scene(o) => o == id && (forall|k: int|
                0 <= k < originals.len() ==> (#[trigger] originals[k]).id != id) && forall|k: int|
                0 <= k < frozen.len() ==> (#[trigger] frozen[k]).id != id,
        },
{
    lemma_entry_place(originals, id, originals.len());
    lemma_entry_place(frozen, id, frozen.len());
}

/// Every object that the operator moves is written once, in order, with its
/// own target, and relative to a parent just where it has one.
pub proof fn law_every_target_is_written(
    objects: Seq<Object>,
    originals: Seq<OriginalEntry>,
    frozen: Seq<OriginalEntry>,
    n: nat,
    k: int,
)
    requires
        0 <= k < n <= originals.len() <= usize::MAX,
    ensures
        target_writes(objects, originals, frozen, n).len() == n,
        ({
            let w = target_writes(objects, originals, frozen, n)[k];
            &&& w.id == originals[k].id
            &&& w.world == WorldSource::Target(k as usize)
            &&& w.parent is Some <==> originals[k].parent is Some
            &&& w.parent matches Some(f) ==> leads_down(
                objects,
                originals,
                frozen,
                f,
                originals[k].parent->0,
            )
        }),
    decreases n,
{
    if n > k + 1 {
        law_every_target_is_written(objects, originals, frozen, (n - 1) as nat, k);
    } else {
        if n > 1 {
            law_every_target_is_written(objects, originals, frozen, (n - 1) as nat, 0);
        } else {
            assert(target_writes(objects, originals, frozen, 0).len() == 0);
        }
        if let Some(p) = originals[k].parent {
            law_frames_follow_what_moves(objects, originals, frozen, p, objects.len());
        }
    }
}

/// What is to stay where it is gets a new transform under its parent, where
/// it has one: those and no others are written after the targets.
pub proof fn law_frozen_objects_are_written(
    objects: Seq<Object>,
    originals: Seq<OriginalEntry>,
    frozen: Seq<OriginalEntry>,
    n: nat,
    k: int,
)
    requires
        0 <= k < n <= frozen.len() <= usize::MAX,
    ensures
        ({
            let writes = frozen_writes(objects, originals, frozen, n);
            let w = WriteView {
                id: frozen[k].id,
                world: WorldSource::Frozen(k as usize),
                parent: parent_frame(objects, originals, frozen, frozen[k].parent),
            };
            &&& writes.contains(w) <==> frozen[k].parent is Some
            &&& forall|m: int|
                0 <= m < writes.len() ==> (#[trigger] writes[m]).world is Frozen
                    && writes[m].world->Frozen_0 < n
        }),
    decreases n,
{
    let writes = frozen_writes(objects, originals, frozen, n);
    let before = frozen_writes(objects, originals, frozen, (n - 1) as nat);
    let w = WriteView {
        id: frozen[k].id,
        world: WorldSource::Frozen(k as usize),
        parent: parent_frame(objects, originals, frozen, frozen[k].parent),
    };
    if n > 1 {
        law_frozen_objects_are_written(
            objects,
            originals,
            frozen,
            (n - 1) as nat,
            if k < n - 1 {
                k
            } else {
                0
            },
        );
    } else {
        assert(before.len() == 0);
    }
    assert forall|m: int| 0 <= m < writes.len() implies (#[trigger] writes[m]).world is Frozen
        && writes[m].world->Frozen_0 < n by {
        if m < before.len() {
            assert(writes[m] == before[m]);
        }
    }
    if k < n - 1 {
        if before.contains(w) {
            let m = choose|m: int| 0 <= m < before.len() && before[m] == w;
            assert(writes[m] == w);
        }
        if writes.contains(w) {
            let m = choose|m: int| 0 <= m < writes.len() && writes[m] == w;
            assert(m < before.len());
            assert(before[m] == w);
        }
    } else if frozen[k].parent is Some {
        assert(writes[before.len() as int] == w);
    } else if writes.contains(w) {
        let m = choose|m: int| 0 <= m < writes.len() && writes[m] == w;
        assert(before[m] == w);
        assert(before[m].world->Frozen_0 < n - 1);
    }
}

/// The objects that are copied are exactly the selected ones, in scene
/// order.
pub proof fn law_copies_are_of_the_selected(
    objects: Seq<Object>,
    selected: Seq<ObjectId>,
    n: nat,
    i: int,
)
    requires
        n <= objects.len(),
    ensures
        selected_places(objects, selected, n).contains(i) <==> 0 <= i < n && selected.contains(
            objects[i].id,
        ),
        forall|a: int, b: int|
            0 <= a < b < selected_places(objects, selected, n).len() ==> #[trigger] selected_places(
                objects,
                selected,
                n,
            )[a] < #[trigger] selected_places(objects, selected, n)[b],
        forall|a: int|
            0 <= a < selected_places(objects, selected, n).len() ==> 0 <= #[trigger] selected_places(
                objects,
                selected,
                n,
            )[a] < n,
    decreases n,
{
    if n > 0 {
        law_copies_are_of_the_selected(objects, selected, (n - 1) as nat, i);
        let before = selected_places(objects, selected, (n - 1) as nat);
        let now = selected_places(objects, selected, n);
        if before.contains(i) {
            let k = choose|k: int| 0 <= k < before.len() && before[k] == i;
            assert(now[k] == i);
        }
        if now.len() > before.len() {
            assert(now[before.len() as int] == n - 1);
        }
        if now.contains(i) && !before.contains(i) {
            assert(i == n - 1);
        }
    }
}

proof fn lemma_copy_id(objects: Seq<Object>, places: Seq<int>, first: u64, id: ObjectId, n: nat)
    requires
        n <= places.len(),
        first + places.len() <= u64::MAX,
    ensures
        copy_id(objects, places, first, id, n) matches Some(c) ==> exists|k: int|
            0 <= k < n && objects[#[trigger] places[k]].id == id && c.0 == first + k,
        copy_id(objects, places, first, id, n) is None ==> forall|k: int|
            0 <= k < n ==> objects[#[trigger] places[k]].id != id,
    decreases n,
{
    if n > 0 {
        lemma_copy_id(objects, places, first, id, (n - 1) as nat);
        if objects[places[n - 1]].id == id {
            assert(objects[places[n - 1]].id == id);
        }
    }
}

/// A copied family stays together: a copy has the copy of its original's
/// parent as parent where that was copied too, and the same parent
/// otherwise. The copy of the active object becomes active, or else the last
/// copy.
pub proof fn law_copied_families_stay_together(
    objects: Seq<Object>,
    places: Seq<int>,
    first: u64,
    parent: Option<ObjectId>,
    active: Option<ObjectId>,
)
    requires
        first + places.len() <= u64::MAX,
        places.len() > 0,
    ensures
        parent is None ==> copy_parent(objects, places, first, parent) is None,
        parent matches Some(p) ==> {
            let c = copy_parent(objects, places, first, parent);
            ||| c == Some(p) && forall|k: int|
                0 <= k < places.len() ==> objects[#[trigger] places[k]].id != p
            ||| exists|k: int|
                0 <= k < places.len() && objects[#[trigger] places[k]].id == p && c == Some(
                    ObjectId((first + k) as u64),
                )
        },
        ({
            let now = copy_active(objects, places, first, active);
            ||| (active is None || forall|k: int|
                0 <= k < places.len() ==> objects[#[trigger] places[k]].id != active->0) && now
                == Some(ObjectId((first + places.len() - 1) as u64))
            ||| active is Some && exists|k: int|
                0 <= k < places.len() && objects[#[trigger] places[k]].id == active->0 && now
                    == Some(ObjectId((first + k) as u64))
        }),
{
    if let Some(p) = parent {
        lemma_copy_id(objects, places, first, p, places.len());
    }
    if let Some(a) = active {
        lemma_copy_id(objects, places, first, a, places.len());
    }
}

} // verus!
