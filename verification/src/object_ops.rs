//! Operations on whole objects: deleting, placing on the ground, applying
//! scale, and laying a floor under walls.

use vstd::prelude::*;
use crate::modifier_ops::{plural, push_plural};
use crate::scalar::{smaller, Scalar, Transform, Vec3, INFINITY_BITS, ONE_BITS};
use crate::scene::{
    exists_in, ids_distinct, lemma_place_of, place_of, Handle, Object, ObjectId, Primitive, Scene,
    WallCutout,
};
use crate::selection::{contains, copied, Selection};
use crate::text::{decimal, push_decimal};

verus! {

/// A point of the window.
#[derive(Clone, Copy, PartialEq, Eq, Structural, Debug)]
pub struct ScreenPoint {
    pub x: Scalar,
    pub y: Scalar,
}

/// Where the popup opens before the pointer has moved: 200 points from the
/// left and from the top.
pub const START_BITS: u32 = 0x4348_0000;

/// The objects without the first `n` of `ids`.
pub open spec fn removed(objects: Seq<Object>, ids: Seq<ObjectId>, n: nat) -> Seq<Object>
    decreases n,
{
    if n == 0 {
        objects
    } else {
        let before = removed(objects, ids, (n - 1) as nat);
        match place_of(before, ids[n - 1]) {
            Some(i) => before.remove(i),
            None => before,
        }
    }
}

/// Removes the selected objects from the scene, and from the selection what
/// is gone.
pub fn delete_selected(scene: &mut Scene, selection: &mut Selection)
    requires
        old(scene).wf(),
        old(selection)@.stamp < u64::MAX,
    ensures
        final(scene).wf(),
        final(scene).objects@ == removed(
            old(scene).objects@,
            old(selection)@.selected,
            old(selection)@.selected.len(),
        ),
        final(scene).folders == old(scene).folders,
        final(scene).next_id == old(scene).next_id,
        final(selection)@ == old(selection)@.retained(*final(scene)),
{
    let ids = copied(selection.selected());
    let mut n: usize = 0;
    while n < ids.len()
        invariant
            n <= ids@.len(),
            ids@ == old(selection)@.selected,
            scene.wf(),
            scene.objects@ == removed(old(scene).objects@, ids@, n as nat),
            scene.folders == old(scene).folders,
            scene.next_id == old(scene).next_id,
        decreases ids@.len() - n,
    {
        let ghost before = *scene;
        let gone = scene.remove_object(ids[n]);
        proof {
            lemma_place_of(before.objects@, ids@[n as int]);
        }
        n += 1;
    }
    selection.retain_existing(scene);
}

proof fn lemma_removal(objects: Seq<Object>, i: int, id: ObjectId)
    requires
        ids_distinct(objects),
        0 <= i < objects.len(),
    ensures
        ids_distinct(objects.remove(i)),
        exists_in(objects.remove(i), id) <==> exists_in(objects, id) && id != objects[i].id,
{
    let now = objects.remove(i);
    assert forall|a: int, b: int| 0 <= a < b < now.len() implies (#[trigger] now[a]).id != (
    #[trigger] now[b]).id by {
        let x = if a < i { a } else { a + 1 };
        let y = if b < i { b } else { b + 1 };
        assert(now[a] == objects[x] && now[b] == objects[y]);
        assert(objects[x].id != objects[y].id);
    }
    if exists_in(objects, id) && id != objects[i].id {
        let k = choose|k: int| 0 <= k < objects.len() && (#[trigger] objects[k]).id == id;
        let a = if k < i { k } else { k - 1 };
        assert(now[a] == objects[k]);
    }
    if exists_in(now, id) {
        let a = choose|a: int| 0 <= a < now.len() && (#[trigger] now[a]).id == id;
        let x = if a < i { a } else { a + 1 };
        assert(now[a] == objects[x]);
        if x < i {
            assert(objects[x].id != objects[i].id);
        } else {
            assert(objects[i].id != objects[x].id);
        }
    }
}

/// Deleting removes exactly the deleted objects.
pub proof fn law_deleting_removes_what_was_named(
    objects: Seq<Object>,
    ids: Seq<ObjectId>,
    n: nat,
    id: ObjectId,
)
    requires
        ids_distinct(objects),
        n <= ids.len(),
    ensures
        ids_distinct(removed(objects, ids, n)),
        exists_in(removed(objects, ids, n), id) <==> exists_in(objects, id) && !ids.take(
            n as int,
        ).contains(id),
    decreases n,
{
    if n > 0 {
        let m = (n - 1) as nat;
        law_deleting_removes_what_was_named(objects, ids, m, id);
        let before = removed(objects, ids, m);
        let out = ids[n - 1];
        lemma_place_of(before, out);
        assert(ids.take(n as int) =~= ids.take(n - 1).push(out));
        assert(ids.take(n as int).contains(id) <==> ids.take(n - 1).contains(id) || id == out) by {
            let long = ids.take(n as int);
            let short = ids.take(n - 1);
            if short.contains(id) {
                let k = choose|k: int| 0 <= k < short.len() && short[k] == id;
                assert(long[k] == id);
            }
            if id == out {
                assert(long[n - 1] == id);
            }
            if long.contains(id) && id != out {
                let k = choose|k: int| 0 <= k < long.len() && long[k] == id;
                assert(short[k] == id);
            }
        }
        match place_of(before, out) {
            Some(i) => {
                lemma_removal(before, i, id);
            },
            None => {},
        }
    } else {
        assert(ids.take(0) =~= seq![]);
    }
}

/// Something that happened, as far as deleting cares.
#[derive(Clone, Copy, PartialEq, Eq, Structural, Debug)]
pub enum DeleteEvent {
    /// The pointer moved.
    Motion { to: ScreenPoint },
    /// A text was typed; is it the letter x, and does a text field have the
    /// keyboard?
    Typed { x: bool, keyboard_taken: bool },
    /// The Delete key.
    DeleteKey { handled: bool },
    /// The Escape key.
    EscapeKey { handled: bool },
    /// A mouse button went down.
    MousePress { handled: bool },
}

/// Deleting by X, with a popup that asks, or by the Delete key, without.
#[derive(Clone, Copy, PartialEq, Eq, Structural, Debug)]
pub struct DeleteTool {
    pub confirm_open: bool,
    /// Where the popup stands.
    pub position: ScreenPoint,
    pub last_mouse: ScreenPoint,
}

impl DeleteTool {
    pub fn new() -> (r: DeleteTool)
        ensures
            !r.confirm_open,
            r.position == r.last_mouse,
            r.position.x.bits == START_BITS && r.position.y.bits == START_BITS,
    {
        let start = ScreenPoint { x: Scalar { bits: START_BITS }, y: Scalar { bits: START_BITS } };
        DeleteTool { confirm_open: false, position: start, last_mouse: start }
    }

    /// The tool after an event.
    pub open spec fn after(self, event: DeleteEvent, empty: bool) -> DeleteTool {
        match event {
            DeleteEvent::Motion { to } => DeleteTool { last_mouse: to, ..self },
            DeleteEvent::Typed { x, keyboard_taken } => if x && !keyboard_taken && !empty {
                DeleteTool { confirm_open: true, position: self.last_mouse, ..self }
            } else {
                self
            },
            DeleteEvent::DeleteKey { .. } => self,
            DeleteEvent::EscapeKey { handled } => DeleteTool {
                confirm_open: self.confirm_open && handled,
                ..self
            },
            DeleteEvent::MousePress { handled } => DeleteTool {
                confirm_open: self.confirm_open && handled,
                ..self
            },
        }
    }

    /// The event is used up by the tool.
    pub open spec fn takes(self, event: DeleteEvent, empty: bool) -> bool {
        match event {
            DeleteEvent::Typed { x, keyboard_taken } => x && !keyboard_taken && !empty,
            DeleteEvent::DeleteKey { handled } => !handled,
            DeleteEvent::EscapeKey { handled } => !handled && self.confirm_open,
            _ => false,
        }
    }

    /// Handles an event, and says whether it is used up.
    pub fn handle_event(
        &mut self,
        event: DeleteEvent,
        scene: &mut Scene,
        selection: &mut Selection,
    ) -> (taken: bool)
        requires
            old(scene).wf(),
            old(selection)@.stamp < u64::MAX,
        ensures
            final(scene).wf(),
            *final(self) == old(self).after(event, old(selection)@.selected.len() == 0),
            taken == old(self).takes(event, old(selection)@.selected.len() == 0),
            final(scene).objects@ == (if event == (DeleteEvent::DeleteKey { handled: false }) {
                removed(
                    old(scene).objects@,
                    old(selection)@.selected,
                    old(selection)@.selected.len(),
                )
            } else {
                old(scene).objects@
            }),
            final(scene).folders == old(scene).folders,
            final(scene).next_id == old(scene).next_id,
            final(selection)@ == (if event == (DeleteEvent::DeleteKey { handled: false }) {
                old(selection)@.retained(*final(scene))
            } else {
                old(selection)@
            }),
    {
        match event {
            DeleteEvent::Motion { to } => {
                self.last_mouse = to;
                false
            },
            DeleteEvent::Typed { x, keyboard_taken } => {
                if x && !keyboard_taken && !selection.is_empty() {
                    self.confirm_open = true;
                    self.position = self.last_mouse;
                    true
                } else {
                    false
                }
            },
            DeleteEvent::DeleteKey { handled } => {
                if !handled {
                    delete_selected(scene, selection);
                    true
                } else {
                    false
                }
            },
            DeleteEvent::EscapeKey { handled } => {
                if !handled && self.confirm_open {
                    self.confirm_open = false;
                    true
                } else {
                    false
                }
            },
            DeleteEvent::MousePress { handled } => {
                if !handled {
                    self.confirm_open = false;
                }
                false
            },
        }
    }

    /// What the popup asks, where it is open. It closes where nothing is
    /// selected any more.
    pub fn ui(&mut self, selection: &Selection) -> (question: Option<String>)
        ensures
            ({
                let count = selection@.selected.len();
                let open = old(self).confirm_open && count > 0;
                &&& *final(self) == (DeleteTool { confirm_open: open, ..*old(self) })
                &&& question is Some == open
                &&& question matches Some(q) ==> q@ == (if count == 1 {
                    "Delete?"@
                } else {
                    "Delete "@ + decimal(count) + " objects?"@
                })
            }),
    {
        if !self.confirm_open {
            return None;
        }
        let count: usize = selection.selected().len();
        if count == 0 {
            self.confirm_open = false;
            return None;
        }
        if count == 1 {
            Some("Delete?".to_owned())
        } else {
            let mut q = "Delete ".to_owned();
            push_decimal(&mut q, count as u64);
            q.append(" objects?");
            Some(q)
        }
    }

    /// The popup's button was clicked.
    pub fn confirm(&mut self, scene: &mut Scene, selection: &mut Selection)
        requires
            old(scene).wf(),
            old(selection)@.stamp < u64::MAX,
        ensures
            final(scene).wf(),
            *final(self) == (DeleteTool { confirm_open: false, ..*old(self) }),
            final(scene).objects@ == removed(
                old(scene).objects@,
                old(selection)@.selected,
                old(selection)@.selected.len(),
            ),
            final(scene).folders == old(scene).folders,
            final(scene).next_id == old(scene).next_id,
            final(selection)@ == old(selection)@.retained(*final(scene)),
    {
        delete_selected(scene, selection);
        self.confirm_open = false;
    }
}

/// The selected object stands by itself: its parent is not selected with it.
pub open spec fn is_root(objects: Seq<Object>, selected: Seq<ObjectId>, id: ObjectId) -> bool {
    match place_of(objects, id) {
        Some(i) => match objects[i].parent {
            Some(p) => !selected.contains(p),
            None => true,
        },
        None => false,
    }
}

/// Those of the first `n` selected objects that stand by themselves.
pub open spec fn roots_in(objects: Seq<Object>, selected: Seq<ObjectId>, n: nat) -> Seq<ObjectId>
    decreases n,
{
    if n == 0 {
        seq![]
    } else {
        let before = roots_in(objects, selected, (n - 1) as nat);
        if is_root(objects, selected, selected[n - 1]) {
            before.push(selected[n - 1])
        } else {
            before
        }
    }
}

/// The roots of the selection, which are placed on the ground each with
/// everything that hangs on it.
pub fn ground_roots(scene: &Scene, selection: &Selection) -> (r: Vec<ObjectId>)
    ensures
        r@ == roots_in(scene.objects@, selection@.selected, selection@.selected.len()),
{
    let selected = selection.selected();
    let mut r: Vec<ObjectId> = Vec::new();
    let mut n: usize = 0;
    while n < selected.len()
        invariant
            n <= selected@.len(),
            selected@ == selection@.selected,
            r@ == roots_in(scene.objects@, selected@, n as nat),
        decreases selected@.len() - n,
    {
        match scene.find(selected[n]) {
            Some(i) => {
                let root = match scene.objects[i].parent {
                    Some(p) => !contains(selected, p),
                    None => true,
                };
                if root {
                    r.push(selected[n]);
                }
            },
            None => {},
        }
        n += 1;
    }
    r
}

/// The smallest of the first `n` numbers; infinity where there is none.
pub open spec fn lowest(points: Seq<Scalar>, n: nat) -> Scalar
    decreases n,
{
    if n == 0 {
        Scalar { bits: INFINITY_BITS }
    } else {
        smaller(lowest(points, (n - 1) as nat), points[n - 1])
    }
}

/// How far an assembly is above the ground, given the lowest point of each
/// of its parts. `None` where no part has a shape.
pub fn height_above_ground(points: &Vec<Scalar>) -> (r: Option<Scalar>)
    ensures
        r == (if lowest(points@, points@.len()).finite() {
            Some(lowest(points@, points@.len()))
        } else {
            None
        }),
{
    let mut low = Scalar { bits: INFINITY_BITS };
    let mut n: usize = 0;
    while n < points.len()
        invariant
            n <= points@.len(),
            low == lowest(points@, n as nat),
        decreases points@.len() - n,
    {
        low = low.at_most(points[n]);
        n += 1;
    }
    if low.is_finite() {
        Some(low)
    } else {
        None
    }
}

/// How the scale of an object is worked into it.
#[derive(Clone, Copy, PartialEq, Eq, Structural, Debug)]
pub enum Bake {
    /// It has none.
    Unscaled,
    /// It is a light, whose size means nothing.
    Light,
    /// Into the mesh that editing gave it.
    EditedMesh,
    /// Into the parameters of its primitive.
    Parameters,
    /// Into a mesh made from its primitive.
    NewMesh,
}

/// The parameters of the primitive can express a scale. `xy` says that the
/// factors along x and y agree, `yz` that those along y and z do.
pub open spec fn absorbs(p: Primitive, xy: bool, yz: bool) -> bool {
    match p {
        Primitive::Plane { .. } => xy,
        Primitive::Cylinder { .. } => xy,
        Primitive::Cone { .. } => xy,
        Primitive::Cube { .. } => xy && yz,
        Primitive::UvSphere { .. } => xy && yz,
        Primitive::IcoSphere { .. } => xy && yz,
        Primitive::Torus { .. } => xy && yz,
        Primitive::Wall { .. } => true,
        Primitive::Floor { .. } => true,
        Primitive::Empty { .. } => true,
        _ => false,
    }
}

/// Can the parameters of the primitive express the scale?
pub fn bake_into_primitive(p: &Primitive, xy: bool, yz: bool) -> (r: bool)
    ensures
        r == absorbs(*p, xy, yz),
{
    match *p {
        Primitive::Plane { .. } => xy,
        Primitive::Cylinder { .. } => xy,
        Primitive::Cone { .. } => xy,
        Primitive::Cube { .. } => xy && yz,
        Primitive::UvSphere { .. } => xy && yz,
        Primitive::IcoSphere { .. } => xy && yz,
        Primitive::Torus { .. } => xy && yz,
        Primitive::Wall { .. } => true,
        Primitive::Floor { .. } => true,
        Primitive::Empty { .. } => true,
        _ => false,
    }
}

/// How many objects a scale was worked into, and how.
#[derive(Clone, Copy, PartialEq, Eq, Structural, Debug)]
pub struct ScaleTally {
    pub applied: usize,
    pub baked_meshes: usize,
    pub skipped_lights: usize,
}

/// What is said of applied scales.
pub open spec fn scale_message(t: ScaleTally) -> Seq<char> {
    (if t.applied == 0 {
        "nothing to apply: selection has no scale"@
    } else {
        "applied scale to "@ + decimal(t.applied as nat) + " object"@ + plural(t.applied as nat)
    }) + (if t.baked_meshes > 0 {
        " ("@ + decimal(t.baked_meshes as nat) + " baked into mesh data)"@
    } else {
        seq![]
    }) + (if t.skipped_lights > 0 {
        " — "@ + decimal(t.skipped_lights as nat) + " light(s) skipped"@
    } else {
        seq![]
    })
}

impl ScaleTally {
    pub fn new() -> (r: ScaleTally)
        ensures
            r == (ScaleTally { applied: 0, baked_meshes: 0, skipped_lights: 0 }),
    {
        ScaleTally { applied: 0, baked_meshes: 0, skipped_lights: 0 }
    }

    /// Decides how the scale of an object is worked into it, and counts it.
    /// `unscaled` says that its scale is one along every axis.
    pub fn take(&mut self, o: &Object, unscaled: bool, xy: bool, yz: bool) -> (r: Bake)
        requires
            old(self).applied < usize::MAX,
            old(self).baked_meshes < usize::MAX,
            old(self).skipped_lights < usize::MAX,
        ensures
            r == (if unscaled {
                Bake::Unscaled
            } else if o.primitive is Light {
                Bake::Light
            } else if o.edited_mesh is Some {
                Bake::EditedMesh
            } else if absorbs(o.primitive, xy, yz) {
                Bake::Parameters
            } else {
                Bake::NewMesh
            }),
            final(self).applied == old(self).applied + (if r is Unscaled || r is Light {
                0int
            } else {
                1
            }),
            final(self).baked_meshes == old(self).baked_meshes + (if r is NewMesh {
                1int
            } else {
                0
            }),
            final(self).skipped_lights == old(self).skipped_lights + (if r is Light {
                1int
            } else {
                0
            }),
    {
        if unscaled {
            return Bake::Unscaled;
        }
        if o.primitive.is_light() {
            self.skipped_lights = self.skipped_lights + 1;
            return Bake::Light;
        }
        self.applied = self.applied + 1;
        if o.edited_mesh.is_some() {
            Bake::EditedMesh
        } else if bake_into_primitive(&o.primitive, xy, yz) {
            Bake::Parameters
        } else {
            self.baked_meshes = self.baked_meshes + 1;
            Bake::NewMesh
        }
    }

    /// What is said of the applied scales.
    pub fn message(&self) -> (r: String)
        ensures
            r@ == scale_message(*self),
    {
        let mut s = "nothing to apply: selection has no scale".to_owned();
        if self.applied > 0 {
            s = "applied scale to ".to_owned();
            push_decimal(&mut s, self.applied as u64);
            s.append(" object");
            push_plural(&mut s, self.applied);
        }
        let ghost first = s@;
        if self.baked_meshes > 0 {
            s.append(" (");
            push_decimal(&mut s, self.baked_meshes as u64);
            s.append(" baked into mesh data)");
        }
        let ghost second = s@;
        if self.skipped_lights > 0 {
            s.append(" — ");
            push_decimal(&mut s, self.skipped_lights as u64);
            s.append(" light(s) skipped");
        }
        assert(s@ =~= scale_message(*self));
        s
    }
}

/// The children of `id` among the first `n` objects.
pub open spec fn children_in(objects: Seq<Object>, id: ObjectId, n: nat) -> Seq<ObjectId>
    decreases n,
{
    if n == 0 {
        seq![]
    } else if objects[n - 1].parent == Some(id) {
        children_in(objects, id, (n - 1) as nat).push(objects[n - 1].id)
    } else {
        children_in(objects, id, (n - 1) as nat)
    }
}

/// The children of `id`, which keep their place in the world when the scale
/// of `id` is applied.
pub fn children_of(scene: &Scene, id: ObjectId) -> (r: Vec<ObjectId>)
    ensures
        r@ == children_in(scene.objects@, id, scene.objects@.len()),
{
    let mut r: Vec<ObjectId> = Vec::new();
    let mut n: usize = 0;
    while n < scene.objects.len()
        invariant
            n <= scene.objects@.len(),
            r@ == children_in(scene.objects@, id, n as nat),
        decreases scene.objects@.len() - n,
    {
        let child = match scene.objects[n].parent {
            Some(p) => p == id,
            None => false,
        };
        if child {
            r.push(scene.objects[n].id);
        }
        n += 1;
    }
    r
}

/// What a scale makes of the parts of an object that it is worked into.
pub struct Baked {
    pub primitive: Primitive,
    pub cutouts: Vec<WallCutout>,
    pub floor_outline: Vec<(Scalar, Scalar)>,
    /// The mesh, where the scale goes into one.
    pub mesh: Option<Handle>,
    pub pivot: Vec3,
    pub anchor: Vec3,
}

/// The scale that changes nothing.
pub open spec fn unit_scale() -> Vec3 {
    Vec3 {
        x: Scalar { bits: ONE_BITS },
        y: Scalar { bits: ONE_BITS },
        z: Scalar { bits: ONE_BITS },
    }
}

/// The scale is worked into the object.
pub open spec fn is_worked_in(bake: Bake) -> bool {
    !(bake is Unscaled) && !(bake is Light)
}

/// An object with its scale worked into it: its parameters, openings and
/// outline take the scaled values, or its mesh does.
pub open spec fn baked_object(o: Object, bake: Bake, baked: Baked) -> Object {
    Object {
        primitive: if bake is Parameters {
            baked.primitive
        } else {
            o.primitive
        },
        cutouts: if bake is Parameters {
            baked.cutouts
        } else {
            o.cutouts
        },
        floor_outline: if bake is Parameters {
            baked.floor_outline
        } else {
            o.floor_outline
        },
        edited_mesh: if bake is Parameters {
            o.edited_mesh
        } else {
            baked.mesh
        },
        pivot: baked.pivot,
        anchor: baked.anchor,
        transform: Transform { scale: unit_scale(), ..o.transform },
        mesh_revision: (o.mesh_revision + 1) as u64,
        ..o
    }
}

/// The objects after the first `n` of `places` were given to those they name.
pub open spec fn placed(
    objects: Seq<Object>,
    places: Seq<(ObjectId, Transform)>,
    n: nat,
) -> Seq<Object>
    decreases n,
{
    if n == 0 {
        objects
    } else {
        let before = placed(objects, places, (n - 1) as nat);
        match place_of(before, places[n - 1].0) {
            Some(i) => before.update(i, Object { transform: places[n - 1].1, ..before[i] }),
            None => before,
        }
    }
}

/// Placing objects moves none of them in the list, renames none, and changes
/// nothing about them but where they are.
pub proof fn law_placing_changes_placements_alone(
    objects: Seq<Object>,
    places: Seq<(ObjectId, Transform)>,
    n: nat,
)
    requires
        n <= places.len(),
    ensures
        placed(objects, places, n).len() == objects.len(),
        forall|i: int|
            0 <= i < objects.len() ==> #[trigger] placed(objects, places, n)[i] == (Object {
                transform: placed(objects, places, n)[i].transform,
                ..objects[i]
            }),
        forall|i: int|
            0 <= i < objects.len() && (forall|k: int|
                0 <= k < n ==> (#[trigger] places[k]).0 != objects[i].id)
                ==> #[trigger] placed(objects, places, n)[i] == objects[i],
    decreases n,
{
    if n > 0 {
        law_placing_changes_placements_alone(objects, places, (n - 1) as nat);
        let before = placed(objects, places, (n - 1) as nat);
        lemma_place_of(before, places[n - 1].0);
        assert forall|i: int|
            0 <= i < objects.len() && (forall|k: int|
                0 <= k < n ==> (#[trigger] places[k]).0 != objects[i].id) implies #[trigger] placed(
            objects,
            places,
            n,
        )[i] == objects[i] by {
            assert(places[n - 1].0 != objects[i].id);
            assert(before[i] == objects[i]);
        }
    }
}

/// Works a scale into an object: `baked` holds the scaled values, `children`
/// the placements with which its children keep their place in the world. An
/// object that has no scale, a light, and a missing object are left alone.
pub fn write_scaled(
    scene: &mut Scene,
    id: ObjectId,
    bake: Bake,
    baked: Baked,
    children: &Vec<(ObjectId, Transform)>,
)
    requires
        old(scene).has(id) && is_worked_in(bake) ==> old(scene).objects@[place_of(
            old(scene).objects@,
            id,
        )->0].mesh_revision < u64::MAX,
    ensures
        final(scene).folders == old(scene).folders,
        final(scene).next_id == old(scene).next_id,
        old(scene).wf() ==> final(scene).wf(),
        final(scene).objects@ == (match place_of(old(scene).objects@, id) {
            Some(i) if is_worked_in(bake) => placed(
                old(scene).objects@.update(i, baked_object(old(scene).objects@[i], bake, baked)),
                children@,
                children@.len(),
            ),
            _ => old(scene).objects@,
        }),
{
    match bake {
        Bake::Unscaled | Bake::Light => {
            return;
        },
        _ => {},
    }
    let at = match scene.find(id) {
        Some(i) => i,
        None => return,
    };
    let ghost before = scene.objects@;
    let ghost object = before[at as int];
    let Baked { primitive, cutouts, floor_outline, mesh, pivot, anchor } = baked;
    match bake {
        Bake::Parameters => {
            scene.objects[at].primitive = primitive;
            scene.objects[at].cutouts = cutouts;
            scene.objects[at].floor_outline = floor_outline;
        },
        _ => {
            scene.objects[at].edited_mesh = mesh;
        },
    }
    scene.objects[at].pivot = pivot;
    scene.objects[at].anchor = anchor;
    let one = Scalar { bits: ONE_BITS };
    scene.objects[at].transform.scale = Vec3 { x: one, y: one, z: one };
    scene.objects[at].mesh_revision = scene.objects[at].mesh_revision + 1;
    let ghost written = scene.objects@;
    assert(written[at as int] == baked_object(object, bake, baked));
    assert(written =~= before.update(at as int, baked_object(object, bake, baked)));
    let mut n: usize = 0;
    while n < children.len()
        invariant
            n <= children@.len(),
            scene.objects@ == placed(written, children@, n as nat),
            scene.folders == old(scene).folders,
            scene.next_id == old(scene).next_id,
        decreases children@.len() - n,
    {
        if let Some(k) = scene.find(children[n].0) {
            scene.objects[k].transform = children[n].1;
        }
        n += 1;
        assert(scene.objects@ =~= placed(written, children@, n as nat));
    }
    proof {
        law_placing_changes_placements_alone(written, children@, children@.len());
        if old(scene).wf() {
            let after = scene.objects@;
            assert forall|j: int| 0 <= j < after.len() implies (#[trigger] after[j]).id
                == before[j].id by {
                assert(placed(written, children@, children@.len())[j].id == written[j].id);
            }
            assert forall|a: int, b: int| 0 <= a < b < after.len() implies (#[trigger] after[a]).id
                != (#[trigger] after[b]).id by {
                assert(before[a].id != before[b].id);
            }
            assert forall|j: int| 0 <= j < after.len() implies (#[trigger] after[j]).id.0
                < scene.next_id by {
                assert(before[j].id.0 < old(scene).next_id);
            }
        }
    }
}

/// Applying a scale leaves an object without one. A child keeps all but its
/// placement, and every other object keeps what it was.
pub proof fn law_applied_scale_is_one(
    before: Seq<Object>,
    id: ObjectId,
    bake: Bake,
    baked: Baked,
    children: Seq<(ObjectId, Transform)>,
    i: int,
)
    requires
        place_of(before, id) == Some(i),
        is_worked_in(bake),
        ids_distinct(before),
        forall|k: int| 0 <= k < children.len() ==> (#[trigger] children[k]).0 != id,
    ensures
        ({
            let after = placed(
                before.update(i, baked_object(before[i], bake, baked)),
                children,
                children.len(),
            );
            &&& after.len() == before.len()
            &&& after[i] == baked_object(before[i], bake, baked)
            &&& after[i].transform.scale == unit_scale()
            &&& forall|j: int|
                0 <= j < before.len() && j != i ==> #[trigger] after[j] == (Object {
                    transform: after[j].transform,
                    ..before[j]
                })
            &&& forall|j: int|
                0 <= j < before.len() && j != i && (forall|k: int|
                    0 <= k < children.len() ==> (#[trigger] children[k]).0 != before[j].id)
                    ==> #[trigger] after[j] == before[j]
        }),
{
    lemma_place_of(before, id);
    let written = before.update(i, baked_object(before[i], bake, baked));
    law_placing_changes_placements_alone(written, children, children.len());
    let after = placed(written, children, children.len());
    assert(written[i].id == id);
    assert(after[i] == written[i]);
    assert forall|j: int| 0 <= j < before.len() && j != i implies #[trigger] after[j] == (Object {
        transform: after[j].transform,
        ..before[j]
    }) by {
        assert(written[j] == before[j]);
    }
    assert forall|j: int|
        0 <= j < before.len() && j != i && (forall|k: int|
            0 <= k < children.len() ==> (#[trigger] children[k]).0 != before[j].id) implies
        #[trigger] after[j] == before[j] by {
        assert(written[j] == before[j]);
    }
}

/// What is put on the ground are the selected objects of the scene that no
/// selected parent carries, in the order selected.
pub proof fn law_roots_are_not_carried(
    objects: Seq<Object>,
    selected: Seq<ObjectId>,
    n: nat,
    id: ObjectId,
)
    requires
        n <= selected.len(),
    ensures
        roots_in(objects, selected, n).contains(id) <==> (exists|k: int|
            0 <= k < n && #[trigger] selected[k] == id) && exists_in(objects, id) && ({
            let o = objects[place_of(objects, id)->0];
            o.parent is Some ==> !selected.contains(o.parent->0)
        }),
    decreases n,
{
    lemma_place_of(objects, id);
    if n > 0 {
        law_roots_are_not_carried(objects, selected, (n - 1) as nat, id);
        let before = roots_in(objects, selected, (n - 1) as nat);
        let now = roots_in(objects, selected, n);
        if before.contains(id) {
            let k = choose|k: int| 0 <= k < before.len() && before[k] == id;
            assert(now[k] == id);
        }
        if selected[n - 1] == id && is_root(objects, selected, id) {
            assert(now[before.len() as int] == id);
        }
        if now.contains(id) && !before.contains(id) {
            assert(selected[n - 1] == id);
        }
    }
}

/// The lowest point is one of the points, and no other is lower.
pub proof fn law_lowest_point_is_lowest(points: Seq<Scalar>, n: nat)
    requires
        0 < n <= points.len(),
        forall|i: int| 0 <= i < points.len() ==> (#[trigger] points[i]).finite(),
    ensures
        lowest(points, n).finite(),
        forall|i: int| 0 <= i < n ==> !(#[trigger] points[i]).less(lowest(points, n)),
        exists|i: int| 0 <= i < n && #[trigger] points[i] == lowest(points, n),
    decreases n,
{
    assert(points[n - 1].finite());
    if n > 1 {
        law_lowest_point_is_lowest(points, (n - 1) as nat);
        let k = choose|k: int| 0 <= k < n - 1 && #[trigger] points[k] == lowest(points, (n - 1) as nat);
        assert(points[k].finite());
        assert forall|i: int| 0 <= i < n implies !(#[trigger] points[i]).less(lowest(points, n)) by {
            assert(points[i].finite());
        }
    } else {
        assert(lowest(points, 0) == (Scalar { bits: INFINITY_BITS }));
        assert(lowest(points, 1) == points[0]);
    }
}

/// Without points there is no height.
pub proof fn law_nothing_has_no_height(points: Seq<Scalar>)
    ensures
        !lowest(points, 0).finite(),
{
}

/// A scale goes into the parameters of a primitive only where they can hold
/// it: round things must stay round, one scale for all axes for what has one
/// measure, and walls, floors and empties take any. A scale that is the same
/// along all axes is held by every one of these.
pub proof fn law_parameters_hold_what_they_can(p: Primitive, xy: bool, yz: bool)
    ensures
        p is Cube || p is UvSphere || p is IcoSphere || p is Torus ==> (absorbs(p, xy, yz) <==> xy
            && yz),
        p is Plane || p is Cylinder || p is Cone ==> (absorbs(p, xy, yz) <==> xy),
        p is Wall || p is Floor || p is Empty ==> absorbs(p, xy, yz),
        absorbs(p, xy, yz) ==> absorbs(p, true, true),
        p is Terrain || p is Rope || p is Cloth || p is Light || p is Camera || p is Roof
            ==> !absorbs(p, true, true),
{
}

/// The children of an object are those that name it as their parent.
pub proof fn law_children_name_their_parent(
    objects: Seq<Object>,
    id: ObjectId,
    n: nat,
    child: ObjectId,
)
    requires
        n <= objects.len(),
    ensures
        children_in(objects, id, n).contains(child) <==> exists|k: int|
            0 <= k < n && (#[trigger] objects[k]).id == child && objects[k].parent == Some(id),
    decreases n,
{
    if n > 0 {
        law_children_name_their_parent(objects, id, (n - 1) as nat, child);
        let before = children_in(objects, id, (n - 1) as nat);
        let now = children_in(objects, id, n);
        if before.contains(child) {
            let k = choose|k: int| 0 <= k < before.len() && before[k] == child;
            assert(now[k] == child);
        }
        if objects[n - 1].id == child && now.len() > before.len() {
            assert(now[before.len() as int] == child);
        }
        if now.contains(child) && !before.contains(child) {
            assert(objects[n - 1].id == child);
        }
    }
}

/// A scale that was worked in is gone from the object, which stays where it
/// is: into its parameters, with the mesh it had, or into a mesh, with the
/// parameters it had. It is drawn anew.
pub proof fn law_scale_goes_to_one_place(o: Object, bake: Bake, baked: Baked)
    requires
        o.mesh_revision < u64::MAX,
    ensures
        ({
            let now = baked_object(o, bake, baked);
            let one = Scalar { bits: ONE_BITS };
            &&& now.transform.scale.x == one && now.transform.scale.y == one
                && now.transform.scale.z == one
            &&& now.transform.location == o.transform.location
            &&& now.transform.rotation == o.transform.rotation
            &&& bake is Parameters ==> now.primitive == baked.primitive && now.edited_mesh
                == o.edited_mesh
            &&& bake is NewMesh || bake is EditedMesh ==> now.primitive == o.primitive
                && now.edited_mesh == baked.mesh && now.cutouts == o.cutouts
            &&& now.mesh_revision == o.mesh_revision + 1
            &&& now.id == o.id && now.parent == o.parent && now.modifiers == o.modifiers
        }),
{
}

/// The question is asked where the pointer is, for a selection only, and goes
/// away with Escape or a click beside it.
pub proof fn law_deleting_asks_first(tool: DeleteTool, event: DeleteEvent, empty: bool)
    ensures
        ({
            let now = tool.after(event, empty);
            &&& !tool.confirm_open && now.confirm_open ==> event is Typed && event->x
                && !event->keyboard_taken && !empty && now.position == tool.last_mouse
            &&& event is Typed && event->x && !event->keyboard_taken && !empty ==> now.confirm_open
            &&& tool.confirm_open && !now.confirm_open <==> tool.confirm_open && ((event
                is EscapeKey && !event->EscapeKey_handled) || (event is MousePress
                && !event->MousePress_handled))
            &&& event is Motion ==> now.last_mouse == event->to && now.position == tool.position
            &&& event is EscapeKey ==> (tool.takes(event, empty) <==> tool.confirm_open
                && !now.confirm_open)
        }),
{
}

} // verus!
