//! The document: objects, their primitives and modifier stacks, and the
//! folders that file them.

use vstd::prelude::*;
use crate::scalar::{Scalar, Transform, Vec3};

verus! {

/// Names an object of a scene for as long as the scene lives.
#[derive(Clone, Copy, PartialEq, Eq, Structural, Debug, Hash)]
pub struct ObjectId(pub u64);

#[derive(Clone, Copy, PartialEq, Eq, Structural, Debug, Hash)]
pub enum LightKind {
    Point,
    Sun,
    Spot,
}

/// How two meshes combine.
#[derive(Clone, Copy, PartialEq, Eq, Structural, Debug, Hash)]
pub enum BooleanOp {
    Union,
    Subtract,
    Intersect,
}

/// A linear colour.
#[derive(Clone, Copy, PartialEq, Eq, Structural, Debug, Hash)]
pub struct Color {
    pub r: Scalar,
    pub g: Scalar,
    pub b: Scalar,
}

/// What an object is, with its parameters. Roof and prop kinds are places in
/// the caller's lists of kinds.
#[allow(inconsistent_fields)]
#[derive(Clone, Copy, PartialEq, Eq, Structural, Debug, Hash)]
pub enum Primitive {
    Plane { size: Scalar },
    Cube { size: Scalar },
    UvSphere { segments: u32, rings: u32, radius: Scalar },
    IcoSphere { subdivisions: u32, radius: Scalar },
    Cylinder { vertices: u32, radius: Scalar, depth: Scalar },
    Cone { vertices: u32, radius_bottom: Scalar, radius_top: Scalar, depth: Scalar },
    Torus {
        major_segments: u32,
        minor_segments: u32,
        major_radius: Scalar,
        minor_radius: Scalar,
    },
    Wall { length: Scalar, height: Scalar, thickness: Scalar },
    Floor { width: Scalar, depth: Scalar, thickness: Scalar },
    Roof {
        kind: u32,
        width: Scalar,
        depth: Scalar,
        height: Scalar,
        overhang: Scalar,
        ridge_x: bool,
    },
    Empty { size: Scalar },
    Light {
        kind: LightKind,
        color: Color,
        intensity: Scalar,
        spot_angle_deg: Scalar,
        shadows: bool,
    },
    Camera { fov_deg: Scalar, clip_start: Scalar, clip_end: Scalar },
    Rope { length: Scalar, radius: Scalar, segments: u32 },
    Cloth {
        width: Scalar,
        height: Scalar,
        segments_u: u32,
        segments_v: u32,
        stiffness: Scalar,
    },
    Terrain { size: Scalar, resolution: u32, height: Scalar, seed: u32 },
    Prop { kind: u32, seed: u32, size: Scalar },
}

impl Primitive {
    pub open spec fn rope(self) -> bool {
        self is Rope
    }

    pub open spec fn cloth(self) -> bool {
        self is Cloth
    }

    /// A marker in the viewport: nothing that takes up space.
    pub open spec fn gizmo(self) -> bool {
        self is Empty || self is Light || self is Camera
    }

    pub fn is_rope(&self) -> (r: bool)
        ensures
            r == self.rope(),
    {
        matches!(self, Primitive::Rope { .. })
    }

    pub fn is_cloth(&self) -> (r: bool)
        ensures
            r == self.cloth(),
    {
        matches!(self, Primitive::Cloth { .. })
    }

    /// Does a simulation bend it?
    pub fn is_soft_sim(&self) -> (r: bool)
        ensures
            r == (self.rope() || self.cloth()),
    {
        self.is_rope() || self.is_cloth()
    }

    pub fn is_light(&self) -> (r: bool)
        ensures
            r == (self is Light),
    {
        matches!(self, Primitive::Light { .. })
    }

    pub fn is_gizmo(&self) -> (r: bool)
        ensures
            r == self.gizmo(),
    {
        matches!(self, Primitive::Empty { .. } | Primitive::Light { .. } | Primitive::Camera { .. })
    }
}

/// The two primitives are equal, their numbers compared as numbers.
pub open spec fn primitives_equal(p: Primitive, q: Primitive) -> bool {
    match (p, q) {
        (Primitive::Plane { size: a0 }, Primitive::Plane { size: b0 }) => a0.equal(b0),
        (Primitive::Cube { size: a0 }, Primitive::Cube { size: b0 }) => a0.equal(b0),
        (Primitive::UvSphere { segments: a0, rings: a1, radius: a2 }, Primitive::UvSphere { segments: b0, rings: b1, radius: b2 }) => a0 == b0 && a1 == b1 && a2.equal(b2),
        (Primitive::IcoSphere { subdivisions: a0, radius: a1 }, Primitive::IcoSphere { subdivisions: b0, radius: b1 }) => a0 == b0 && a1.equal(b1),
        (Primitive::Cylinder { vertices: a0, radius: a1, depth: a2 }, Primitive::Cylinder { vertices: b0, radius: b1, depth: b2 }) => a0 == b0 && a1.equal(b1) && a2.equal(b2),
        (Primitive::Cone { vertices: a0, radius_bottom: a1, radius_top: a2, depth: a3 }, Primitive::Cone { vertices: b0, radius_bottom: b1, radius_top: b2, depth: b3 }) => a0 == b0 && a1.equal(b1) && a2.equal(b2) && a3.equal(b3),
        (Primitive::Torus { major_segments: a0, minor_segments: a1, major_radius: a2, minor_radius: a3 }, Primitive::Torus { major_segments: b0, minor_segments: b1, major_radius: b2, minor_radius: b3 }) => a0 == b0 && a1 == b1 && a2.equal(b2) && a3.equal(b3),
        (Primitive::Wall { length: a0, height: a1, thickness: a2 }, Primitive::Wall { length: b0, height: b1, thickness: b2 }) => a0.equal(b0) && a1.equal(b1) && a2.equal(b2),
        (Primitive::Floor { width: a0, depth: a1, thickness: a2 }, Primitive::Floor { width: b0, depth: b1, thickness: b2 }) => a0.equal(b0) && a1.equal(b1) && a2.equal(b2),
        (Primitive::Roof { kind: a0, width: a1, depth: a2, height: a3, overhang: a4, ridge_x: a5 }, Primitive::Roof { kind: b0, width: b1, depth: b2, height: b3, overhang: b4, ridge_x: b5 }) => a0 == b0 && a1.equal(b1) && a2.equal(b2) && a3.equal(b3) && a4.equal(b4) && a5 == b5,
        (Primitive::Empty { size: a0 }, Primitive::Empty { size: b0 }) => a0.equal(b0),
        (Primitive::Light { kind: a0, color: a1, intensity: a2, spot_angle_deg: a3, shadows: a4 }, Primitive::Light { kind: b0, color: b1, intensity: b2, spot_angle_deg: b3, shadows: b4 }) => a0 == b0 && a1.r.equal(b1.r) && a1.g.equal(b1.g) && a1.b.equal(b1.b) && a2.equal(b2) && a3.equal(b3) && a4 == b4,
        (Primitive::Camera { fov_deg: a0, clip_start: a1, clip_end: a2 }, Primitive::Camera { fov_deg: b0, clip_start: b1, clip_end: b2 }) => a0.equal(b0) && a1.equal(b1) && a2.equal(b2),
        (Primitive::Rope { length: a0, radius: a1, segments: a2 }, Primitive::Rope { length: b0, radius: b1, segments: b2 }) => a0.equal(b0) && a1.equal(b1) && a2 == b2,
        (Primitive::Cloth { width: a0, height: a1, segments_u: a2, segments_v: a3, stiffness: a4 }, Primitive::Cloth { width: b0, height: b1, segments_u: b2, segments_v: b3, stiffness: b4 }) => a0.equal(b0) && a1.equal(b1) && a2 == b2 && a3 == b3 && a4.equal(b4),
        (Primitive::Terrain { size: a0, resolution: a1, height: a2, seed: a3 }, Primitive::Terrain { size: b0, resolution: b1, height: b2, seed: b3 }) => a0.equal(b0) && a1 == b1 && a2.equal(b2) && a3 == b3,
        (Primitive::Prop { kind: a0, seed: a1, size: a2 }, Primitive::Prop { kind: b0, seed: b1, size: b2 }) => a0 == b0 && a1 == b1 && a2.equal(b2),
        _ => false,
    }
}

/// Are the two primitives equal, their numbers compared as numbers?
pub fn same_primitive(p: &Primitive, q: &Primitive) -> (r: bool)
    ensures
        r == primitives_equal(*p, *q),
{
    match (*p, *q) {
        (Primitive::Plane { size: a0 }, Primitive::Plane { size: b0 }) => a0.is_equal(b0),
        (Primitive::Cube { size: a0 }, Primitive::Cube { size: b0 }) => a0.is_equal(b0),
        (Primitive::UvSphere { segments: a0, rings: a1, radius: a2 }, Primitive::UvSphere { segments: b0, rings: b1, radius: b2 }) => a0 == b0 && a1 == b1 && a2.is_equal(b2),
        (Primitive::IcoSphere { subdivisions: a0, radius: a1 }, Primitive::IcoSphere { subdivisions: b0, radius: b1 }) => a0 == b0 && a1.is_equal(b1),
        (Primitive::Cylinder { vertices: a0, radius: a1, depth: a2 }, Primitive::Cylinder { vertices: b0, radius: b1, depth: b2 }) => a0 == b0 && a1.is_equal(b1) && a2.is_equal(b2),
        (Primitive::Cone { vertices: a0, radius_bottom: a1, radius_top: a2, depth: a3 }, Primitive::Cone { vertices: b0, radius_bottom: b1, radius_top: b2, depth: b3 }) => a0 == b0 && a1.is_equal(b1) && a2.is_equal(b2) && a3.is_equal(b3),
        (Primitive::Torus { major_segments: a0, minor_segments: a1, major_radius: a2, minor_radius: a3 }, Primitive::Torus { major_segments: b0, minor_segments: b1, major_radius: b2, minor_radius: b3 }) => a0 == b0 && a1 == b1 && a2.is_equal(b2) && a3.is_equal(b3),
        (Primitive::Wall { length: a0, height: a1, thickness: a2 }, Primitive::Wall { length: b0, height: b1, thickness: b2 }) => a0.is_equal(b0) && a1.is_equal(b1) && a2.is_equal(b2),
        (Primitive::Floor { width: a0, depth: a1, thickness: a2 }, Primitive::Floor { width: b0, depth: b1, thickness: b2 }) => a0.is_equal(b0) && a1.is_equal(b1) && a2.is_equal(b2),
        (Primitive::Roof { kind: a0, width: a1, depth: a2, height: a3, overhang: a4, ridge_x: a5 }, Primitive::Roof { kind: b0, width: b1, depth: b2, height: b3, overhang: b4, ridge_x: b5 }) => a0 == b0 && a1.is_equal(b1) && a2.is_equal(b2) && a3.is_equal(b3) && a4.is_equal(b4) && a5 == b5,
        (Primitive::Empty { size: a0 }, Primitive::Empty { size: b0 }) => a0.is_equal(b0),
        (Primitive::Light { kind: a0, color: a1, intensity: a2, spot_angle_deg: a3, shadows: a4 }, Primitive::Light { kind: b0, color: b1, intensity: b2, spot_angle_deg: b3, shadows: b4 }) => a0 == b0 && a1.r.is_equal(b1.r) && a1.g.is_equal(b1.g) && a1.b.is_equal(b1.b) && a2.is_equal(b2) && a3.is_equal(b3) && a4 == b4,
        (Primitive::Camera { fov_deg: a0, clip_start: a1, clip_end: a2 }, Primitive::Camera { fov_deg: b0, clip_start: b1, clip_end: b2 }) => a0.is_equal(b0) && a1.is_equal(b1) && a2.is_equal(b2),
        (Primitive::Rope { length: a0, radius: a1, segments: a2 }, Primitive::Rope { length: b0, radius: b1, segments: b2 }) => a0.is_equal(b0) && a1.is_equal(b1) && a2 == b2,
        (Primitive::Cloth { width: a0, height: a1, segments_u: a2, segments_v: a3, stiffness: a4 }, Primitive::Cloth { width: b0, height: b1, segments_u: b2, segments_v: b3, stiffness: b4 }) => a0.is_equal(b0) && a1.is_equal(b1) && a2 == b2 && a3 == b3 && a4.is_equal(b4),
        (Primitive::Terrain { size: a0, resolution: a1, height: a2, seed: a3 }, Primitive::Terrain { size: b0, resolution: b1, height: b2, seed: b3 }) => a0.is_equal(b0) && a1 == b1 && a2.is_equal(b2) && a3 == b3,
        (Primitive::Prop { kind: a0, seed: a1, size: a2 }, Primitive::Prop { kind: b0, seed: b1, size: b2 }) => a0 == b0 && a1 == b1 && a2.is_equal(b2),
        _ => false,
    }
}

/// One entry of a modifier stack.
#[derive(Clone, Copy, PartialEq, Eq, Structural, Debug)]
pub enum ModifierKind {
    Subdivision { levels: u8 },
    Boolean { op: BooleanOp, object: ObjectId },
}

#[derive(Clone, Copy, PartialEq, Eq, Structural, Debug)]
pub struct Modifier {
    pub kind: ModifierKind,
    pub enabled: bool,
}

impl Modifier {
    /// A new entry, switched on.
    pub fn new(kind: ModifierKind) -> (r: Modifier)
        ensures
            r == (Modifier { kind, enabled: true }),
    {
        Modifier { kind, enabled: true }
    }
}

/// An opening in a wall, in the wall's own frame.
#[derive(Clone, Copy, PartialEq, Eq, Structural, Debug)]
pub struct WallCutout {
    pub offset: Scalar,
    pub width: Scalar,
    pub bottom: Scalar,
    pub height: Scalar,
}

/// Names a mesh, or a material, that the caller keeps.
#[derive(Clone, Copy, PartialEq, Eq, Structural, Debug, Hash)]
pub struct Handle(pub u64);

/// An end of a rope: pinned to a point of an object, in that object's own
/// frame, or free.
#[derive(Clone, Copy, PartialEq, Eq, Structural, Debug)]
pub struct RopeEnd {
    pub object: Option<ObjectId>,
    pub local_point: Vec3,
}

/// The end that is pinned to nothing.
pub open spec fn free_end() -> RopeEnd {
    let zero = Scalar { bits: 0 };
    RopeEnd { object: None, local_point: Vec3 { x: zero, y: zero, z: zero } }
}

impl Default for RopeEnd {
    fn default() -> (r: RopeEnd)
        ensures
            r == free_end(),
    {
        let zero = Scalar { bits: 0 };
        RopeEnd { object: None, local_point: Vec3 { x: zero, y: zero, z: zero } }
    }
}

/// A node of a cloth that is pinned to a point of an object.
#[derive(Clone, Copy, PartialEq, Eq, Structural, Debug)]
pub struct ClothAnchor {
    pub u: u32,
    pub v: u32,
    pub object: Option<ObjectId>,
    pub local_point: Vec3,
}

/// One object of the document.
#[derive(Debug)]
pub struct Object {
    pub id: ObjectId,
    pub name: String,
    pub primitive: Primitive,
    pub transform: Transform,
    /// The pivot, a point in the object's own frame.
    pub pivot: Vec3,
    /// The anchor, a point in the object's own frame.
    pub anchor: Vec3,
    pub parent: Option<ObjectId>,
    pub folder: Option<u64>,
    pub visible: bool,
    pub group: bool,
    pub smooth: bool,
    pub locked: bool,
    pub dynamic: bool,
    pub density: Scalar,
    pub bounciness: Scalar,
    /// The impulse that a simulation starts the object with.
    pub initial_force: Vec3,
    pub material: Handle,
    pub face_materials: Vec<Handle>,
    pub show_label: bool,
    pub show_dimensions: bool,
    pub modifiers: Vec<Modifier>,
    /// The mesh baked by editing, where there is one.
    pub edited_mesh: Option<Handle>,
    pub cutouts: Vec<WallCutout>,
    pub floor_outline: Vec<(Scalar, Scalar)>,
    /// The noise stack of a terrain, where there is one.
    pub terrain: Option<Handle>,
    /// The draped shape of a rope, where there is one.
    pub rope_nodes: Option<Vec<Vec3>>,
    /// The draped shape of a cloth, where there is one.
    pub cloth_nodes: Option<Vec<Vec3>>,
    pub rope_start: RopeEnd,
    pub rope_end: RopeEnd,
    pub cloth_anchors: Vec<ClothAnchor>,
    pub mesh_revision: u64,
    pub sculpt_revision: u64,
}

/// The nodes of a draped shape, where there are any.
pub open spec fn nodes_of(nodes: Option<Vec<Vec3>>) -> Option<Seq<Vec3>> {
    match nodes {
        Some(v) => Some(v@),
        None => None,
    }
}

/// `copy` is `source` under another id, parent and name: everything else is
/// the same.
pub open spec fn is_copy(
    source: Object,
    copy: Object,
    id: ObjectId,
    parent: Option<ObjectId>,
    name: Seq<char>,
) -> bool {
    &&& copy.id == id
    &&& copy.name@ == name
    &&& copy.parent == parent
    &&& copy.primitive == source.primitive
    &&& copy.transform == source.transform
    &&& copy.pivot == source.pivot
    &&& copy.anchor == source.anchor
    &&& copy.folder == source.folder
    &&& copy.visible == source.visible
    &&& copy.group == source.group
    &&& copy.smooth == source.smooth
    &&& copy.locked == source.locked
    &&& copy.dynamic == source.dynamic
    &&& copy.density == source.density
    &&& copy.bounciness == source.bounciness
    &&& copy.initial_force == source.initial_force
    &&& copy.material == source.material
    &&& copy.face_materials@ == source.face_materials@
    &&& copy.show_label == source.show_label
    &&& copy.show_dimensions == source.show_dimensions
    &&& copy.modifiers@ == source.modifiers@
    &&& copy.edited_mesh == source.edited_mesh
    &&& copy.cutouts@ == source.cutouts@
    &&& copy.floor_outline@ == source.floor_outline@
    &&& copy.terrain == source.terrain
    &&& nodes_of(copy.rope_nodes) == nodes_of(source.rope_nodes)
    &&& nodes_of(copy.cloth_nodes) == nodes_of(source.cloth_nodes)
    &&& copy.rope_start == source.rope_start
    &&& copy.rope_end == source.rope_end
    &&& copy.cloth_anchors@ == source.cloth_anchors@
    &&& copy.mesh_revision == source.mesh_revision
    &&& copy.sculpt_revision == source.sculpt_revision
}

fn copy_list<T: Copy>(list: &Vec<T>) -> (r: Vec<T>)
    ensures
        r@ == list@,
{
    let mut r: Vec<T> = Vec::new();
    let mut i: usize = 0;
    while i < list.len()
        invariant
            i <= list@.len(),
            r@ == list@.take(i as int),
        decreases list@.len() - i,
    {
        r.push(list[i]);
        i += 1;
        assert(r@ =~= list@.take(i as int));
    }
    assert(r@ =~= list@);
    r
}

fn copy_nodes(nodes: &Option<Vec<Vec3>>) -> (r: Option<Vec<Vec3>>)
    ensures
        nodes_of(r) == nodes_of(*nodes),
{
    match nodes {
        Some(v) => Some(copy_list(v)),
        None => None,
    }
}

impl Object {
    /// A copy of the object under another id, parent and name.
    pub fn copied(&self, id: ObjectId, parent: Option<ObjectId>, name: String) -> (r: Object)
        ensures
            is_copy(*self, r, id, parent, name@),
    {
        Object {
            id,
            name,
            primitive: self.primitive,
            transform: self.transform,
            pivot: self.pivot,
            anchor: self.anchor,
            parent,
            folder: self.folder,
            visible: self.visible,
            group: self.group,
            smooth: self.smooth,
            locked: self.locked,
            dynamic: self.dynamic,
            density: self.density,
            bounciness: self.bounciness,
            initial_force: self.initial_force,
            material: self.material,
            face_materials: copy_list(&self.face_materials),
            show_label: self.show_label,
            show_dimensions: self.show_dimensions,
            modifiers: copy_list(&self.modifiers),
            edited_mesh: self.edited_mesh,
            cutouts: copy_list(&self.cutouts),
            floor_outline: copy_list(&self.floor_outline),
            terrain: self.terrain,
            rope_nodes: copy_nodes(&self.rope_nodes),
            cloth_nodes: copy_nodes(&self.cloth_nodes),
            rope_start: self.rope_start,
            rope_end: self.rope_end,
            cloth_anchors: copy_list(&self.cloth_anchors),
            mesh_revision: self.mesh_revision,
            sculpt_revision: self.sculpt_revision,
        }
    }
}

/// A folder of the outliner. One made by breaking an object into bricks
/// keeps that object for rebuilding.
#[derive(Debug)]
pub struct Folder {
    pub id: u64,
    pub name: String,
    pub source: Option<Object>,
}

/// The document.
#[derive(Debug)]
pub struct Scene {
    pub objects: Vec<Object>,
    pub folders: Vec<Folder>,
    pub next_id: u64,
}

/// The place of the object `id` among `objects`.
pub open spec fn place_of(objects: Seq<Object>, id: ObjectId) -> Option<int>
    decreases objects.len(),
{
    if objects.len() == 0 {
        None
    } else if place_of(objects.drop_last(), id) is Some {
        place_of(objects.drop_last(), id)
    } else if objects.last().id == id {
        Some(objects.len() - 1)
    } else {
        None
    }
}

/// The object `id` is one of `objects`.
pub open spec fn exists_in(objects: Seq<Object>, id: ObjectId) -> bool {
    exists|i: int| 0 <= i < objects.len() && (#[trigger] objects[i]).id == id
}

pub proof fn lemma_place_of(objects: Seq<Object>, id: ObjectId)
    ensures
        exists_in(objects, id) <==> place_of(objects, id) is Some,
        place_of(objects, id) matches Some(i) ==> {
            &&& 0 <= i < objects.len()
            &&& objects[i].id == id
            &&& forall|j: int| 0 <= j < i ==> (#[trigger] objects[j]).id != id
        },
    decreases objects.len(),
{
    if objects.len() > 0 {
        let rest = objects.drop_last();
        lemma_place_of(rest, id);
        assert forall|j: int| 0 <= j < rest.len() implies rest[j] == objects[j] by {}
        if place_of(rest, id) is None {
            assert forall|j: int| 0 <= j < rest.len() implies (#[trigger] objects[j]).id != id by {
                assert(rest[j] == objects[j]);
            }
        }
    }
}

/// The scan that stops at the first object with this id finds its place.
pub proof fn lemma_place_found(objects: Seq<Object>, id: ObjectId, i: int)
    requires
        0 <= i < objects.len(),
        objects[i].id == id,
        forall|j: int| 0 <= j < i ==> (#[trigger] objects[j]).id != id,
    ensures
        place_of(objects, id) == Some(i),
{
    lemma_place_of(objects, id);
    assert(exists_in(objects, id));
    let p = place_of(objects, id)->0;
    if p < i {
        assert(objects[p].id != id);
    }
    if i < p {
        assert(objects[i].id != id);
    }
}

/// No two objects have the same id.
pub open spec fn ids_distinct(objects: Seq<Object>) -> bool {
    forall|i: int, j: int|
        0 <= i < j < objects.len() ==> (#[trigger] objects[i]).id != (#[trigger] objects[j]).id
}

impl Scene {
    /// Ids are distinct and below the next free one; so are folder ids.
    pub open spec fn wf(&self) -> bool {
        &&& ids_distinct(self.objects@)
        &&& forall|i: int|
            0 <= i < self.objects@.len() ==> (#[trigger] self.objects@[i]).id.0 < self.next_id
        &&& forall|i: int, j: int|
            0 <= i < j < self.folders@.len() ==> (#[trigger] self.folders@[i]).id != (
            #[trigger] self.folders@[j]).id
        &&& forall|i: int|
            0 <= i < self.folders@.len() ==> (#[trigger] self.folders@[i]).id < self.next_id
    }

    /// Are ids distinct and below the next free one, and folder ids too? A
    /// scene read from a file need not be so.
    pub fn is_sound(&self) -> (r: bool)
        ensures
            r == self.wf(),
    {
        let mut i: usize = 0;
        while i < self.objects.len()
            invariant
                i <= self.objects@.len(),
                forall|a: int, b: int|
                    0 <= a < b < i ==> (#[trigger] self.objects@[a]).id != (
                    #[trigger] self.objects@[b]).id,
                forall|a: int| 0 <= a < i ==> (#[trigger] self.objects@[a]).id.0 < self.next_id,
            decreases self.objects@.len() - i,
        {
            if self.objects[i].id.0 >= self.next_id {
                assert(self.objects@[i as int].id.0 >= self.next_id);
                return false;
            }
            let mut j: usize = 0;
            while j < i
                invariant
                    j <= i < self.objects@.len(),
                    forall|a: int|
                        0 <= a < j ==> (#[trigger] self.objects@[a]).id
                            != self.objects@[i as int].id,
                decreases i - j,
            {
                if self.objects[j].id == self.objects[i].id {
                    assert(!ids_distinct(self.objects@)) by {
                        assert(self.objects@[j as int].id == self.objects@[i as int].id);
                    }
                    return false;
                }
                j += 1;
            }
            i += 1;
        }
        let mut i: usize = 0;
        while i < self.folders.len()
            invariant
                i <= self.folders@.len(),
                forall|a: int, b: int|
                    0 <= a < b < i ==> (#[trigger] self.folders@[a]).id != (
                    #[trigger] self.folders@[b]).id,
                forall|a: int| 0 <= a < i ==> (#[trigger] self.folders@[a]).id < self.next_id,
            decreases self.folders@.len() - i,
        {
            if self.folders[i].id >= self.next_id {
                assert(self.folders@[i as int].id >= self.next_id);
                return false;
            }
            let mut j: usize = 0;
            while j < i
                invariant
                    j <= i < self.folders@.len(),
                    forall|a: int|
                        0 <= a < j ==> (#[trigger] self.folders@[a]).id
                            != self.folders@[i as int].id,
                decreases i - j,
            {
                if self.folders[j].id == self.folders[i].id {
                    assert(self.folders@[j as int].id == self.folders@[i as int].id);
                    return false;
                }
                j += 1;
            }
            i += 1;
        }
        true
    }

    /// The object `id` is in the scene.
    pub open spec fn has(&self, id: ObjectId) -> bool {
        exists_in(self.objects@, id)
    }

    /// The place of the object `id`.
    pub fn find(&self, id: ObjectId) -> (r: Option<usize>)
        ensures
            r matches Some(i) ==> place_of(self.objects@, id) == Some(i as int),
            r is None ==> place_of(self.objects@, id) is None,
            r is Some == self.has(id),
            r matches Some(i) ==> i < self.objects@.len() && self.objects@[i as int].id == id,
    {
        let mut i: usize = 0;
        while i < self.objects.len()
            invariant
                i <= self.objects@.len(),
                forall|j: int| 0 <= j < i ==> (#[trigger] self.objects@[j]).id != id,
            decreases self.objects@.len() - i,
        {
            if self.objects[i].id == id {
                proof {
                    lemma_place_found(self.objects@, id, i as int);
                }
                return Some(i);
            }
            i += 1;
        }
        proof {
            lemma_place_of(self.objects@, id);
        }
        None
    }

    /// Is the object `id` in the scene?
    pub fn contains(&self, id: ObjectId) -> (r: bool)
        ensures
            r == self.has(id),
    {
        self.find(id).is_some()
    }

    /// The object `id`.
    pub fn object(&self, id: ObjectId) -> (r: Option<&Object>)
        ensures
            r is Some == self.has(id),
            r matches Some(o) ==> *o == self.objects@[place_of(self.objects@, id)->0] && o.id == id,
    {
        match self.find(id) {
            Some(i) => Some(&self.objects[i]),
            None => None,
        }
    }

    /// A scene without objects.
    pub fn new() -> (r: Scene)
        ensures
            r.wf(),
            r.objects@.len() == 0,
            r.folders@.len() == 0,
            r.next_id == 1,
    {
        Scene { objects: Vec::new(), folders: Vec::new(), next_id: 1 }
    }

    /// Takes the object `id` out of the scene. What refers to it keeps its
    /// id, which then names nothing.
    pub fn remove_object(&mut self, id: ObjectId) -> (r: Option<Object>)
        ensures
            r is Some == old(self).has(id),
            r is None ==> final(self).objects@ == old(self).objects@,
            r matches Some(o) ==> {
                let i = place_of(old(self).objects@, id)->0;
                &&& o == old(self).objects@[i]
                &&& final(self).objects@ == old(self).objects@.remove(i)
            },
            final(self).folders == old(self).folders,
            final(self).next_id == old(self).next_id,
            old(self).wf() ==> final(self).wf() && !final(self).has(id),
    {
        match self.find(id) {
            None => None,
            Some(i) => {
                let o = self.objects.remove(i);
                proof {
                    lemma_remove_keeps_distinct(old(self).objects@, i as int);
                    lemma_place_of(old(self).objects@, id);
                    let new = self.objects@;
                    assert forall|j: int| 0 <= j < new.len() implies (#[trigger] new[j])
                        == old(self).objects@[if j < i { j } else { j + 1 }] by {}
                }
                Some(o)
            },
        }
    }

    /// Puts an object into the scene under a new id, which it returns.
    pub fn insert_object(&mut self, object: Object) -> (id: ObjectId)
        requires
            old(self).wf(),
            old(self).next_id < u64::MAX,
        ensures
            final(self).wf(),
            id.0 == old(self).next_id,
            !old(self).has(id),
            final(self).next_id == old(self).next_id + 1,
            final(self).folders == old(self).folders,
            final(self).objects@ == old(self).objects@.push(Object { id, ..object }),
    {
        let id = ObjectId(self.next_id);
        let mut o = object;
        o.id = id;
        self.objects.push(o);
        self.next_id = self.next_id + 1;
        id
    }

    /// A new folder. Returns its id.
    pub fn add_folder(&mut self, name: String) -> (id: u64)
        requires
            old(self).wf(),
            old(self).next_id < u64::MAX,
        ensures
            final(self).wf(),
            id == old(self).next_id,
            final(self).next_id == old(self).next_id + 1,
            final(self).objects == old(self).objects,
            final(self).folders@ == old(self).folders@.push(
                (Folder { id, name, source: None }),
            ),
    {
        let id = self.next_id;
        self.folders.push(Folder { id, name, source: None });
        self.next_id = self.next_id + 1;
        id
    }
}

proof fn lemma_remove_keeps_distinct(objects: Seq<Object>, i: int)
    requires
        0 <= i < objects.len(),
    ensures
        ids_distinct(objects) ==> {
            &&& ids_distinct(objects.remove(i))
            &&& !exists_in(objects.remove(i), objects[i].id)
        },
{
    let new = objects.remove(i);
    if ids_distinct(objects) {
        assert forall|a: int, b: int| 0 <= a < b < new.len() implies (#[trigger] new[a]).id != (
        #[trigger] new[b]).id by {
            let x = if a < i { a } else { a + 1 };
            let y = if b < i { b } else { b + 1 };
            assert(new[a] == objects[x] && new[b] == objects[y]);
        }
        assert forall|a: int| 0 <= a < new.len() implies (#[trigger] new[a]).id != objects[i].id by {
            let x = if a < i { a } else { a + 1 };
            assert(new[a] == objects[x]);
        }
    }
}

/// Primitives are compared the same either way round, and as numbers: one
/// that equals another equals whatever that equals.
pub proof fn law_primitives_are_compared_as_numbers(p: Primitive, q: Primitive, r: Primitive)
    ensures
        primitives_equal(p, q) == primitives_equal(q, p),
        primitives_equal(p, q) && primitives_equal(q, r) ==> primitives_equal(p, r),
        primitives_equal(p, q) ==> primitives_equal(p, p),
        p is Wall && primitives_equal(p, q) ==> q is Wall,
        p is Floor && primitives_equal(p, q) ==> q is Floor,
{
}

} // verus!
