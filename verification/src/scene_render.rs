//! The engine's mirror of the document: which meshes, materials and objects
//! it holds after each frame, and the commands that bring it there.
//!
//! A mesh is uploaded only when its key is new, and objects with the same
//! key share one upload. An object that stays keeps its engine object from
//! frame to frame; what a frame did not draw is retired.

use vstd::prelude::*;
use crate::scalar::Transform;
use crate::scene::ObjectId;
use crate::shading::ShadeMode;
use crate::slot_ranges::SlotRange;

verus! {

/// One thing for the engine to do.
#[derive(Clone, Copy, PartialEq, Eq, Debug)]
pub enum Command {
    /// Upload the mesh of this object under this key.
    UploadMesh { key: u64, object: ObjectId },
    /// Add the material of this object's slot under this key.
    AddMaterial { key: u64, object: ObjectId, slot: u32 },
    /// Make an engine object for this object's slot.
    Insert { draw: DrawCall },
    /// Bring the engine object of this object's slot up to date, and show it.
    Update { draw: DrawCall },
    /// Drop the engine object of this object's slot.
    RemoveObject { object: ObjectId, slot: u32 },
    RemoveMesh { key: u64 },
    RemoveMaterial { key: u64 },
    /// Show or hide the engine object of this object's slot.
    Show { object: ObjectId, slot: u32, visible: bool },
}

/// What an engine object draws.
#[derive(Clone, Copy, PartialEq, Eq, Debug)]
pub struct DrawCall {
    pub object: ObjectId,
    pub slot: u32,
    pub mesh: u64,
    pub material: u64,
    /// The part of the mesh, or all of it.
    pub range: Option<SlotRange>,
    /// Where it is in the world.
    pub place: Transform,
    pub casts_shadow: bool,
}

/// An uploaded mesh, and where each slot lies in it; no ranges where it is
/// drawn whole.
#[derive(Debug)]
pub struct CachedMesh {
    pub key: u64,
    pub ranges: Vec<SlotRange>,
}

/// One object of the document, as far as drawing it is concerned.
#[derive(Debug)]
pub struct DrawObject {
    pub id: ObjectId,
    pub visible: bool,
    /// Where it is in the world.
    pub place: Transform,
    /// The key of its geometry.
    pub mesh: u64,
    /// The slot ranges of its mesh, were it uploaded now; `None` for a mesh
    /// without triangles.
    pub upload: Option<Vec<SlotRange>>,
    /// The slots that it draws, each with the key of its material.
    pub materials: Vec<(u32, u64)>,
    /// A light, camera or empty: shown, but not part of the picture.
    pub gizmo: bool,
    /// Its outline is traced.
    pub outlined: bool,
}

/// An object as a value.
pub struct DrawView {
    pub id: ObjectId,
    pub visible: bool,
    pub place: Transform,
    pub mesh: u64,
    pub upload: Option<Seq<SlotRange>>,
    pub materials: Seq<(u32, u64)>,
    pub gizmo: bool,
    pub outlined: bool,
}

impl View for DrawObject {
    type V = DrawView;

    open spec fn view(&self) -> DrawView {
        DrawView {
            id: self.id,
            visible: self.visible,
            place: self.place,
            mesh: self.mesh,
            upload: match self.upload {
                Some(r) => Some(r@),
                None => None,
            },
            materials: self.materials@,
            gizmo: self.gizmo,
            outlined: self.outlined,
        }
    }
}

/// The objects of a frame.
pub open spec fn frame_view(objects: Seq<DrawObject>) -> Seq<DrawView> {
    Seq::new(objects.len(), |i: int| objects[i]@)
}

/// The meshes as values.
pub open spec fn meshes_view(meshes: Seq<CachedMesh>) -> Seq<(u64, Seq<SlotRange>)> {
    Seq::new(meshes.len(), |i: int| (meshes[i].key, meshes[i].ranges@))
}

/// The ranges of the mesh `key`, if it is uploaded.
pub open spec fn ranges_for(meshes: Seq<(u64, Seq<SlotRange>)>, key: u64) -> Option<Seq<SlotRange>>
    decreases meshes.len(),
{
    if meshes.len() == 0 {
        None
    } else if ranges_for(meshes.drop_last(), key) is Some {
        ranges_for(meshes.drop_last(), key)
    } else if meshes.last().0 == key {
        Some(meshes.last().1)
    } else {
        None
    }
}

/// What the mirror holds.
pub struct RenderView {
    pub meshes: Seq<(u64, Seq<SlotRange>)>,
    pub materials: Seq<u64>,
    pub objects: Seq<(ObjectId, u32)>,
    pub gizmos: Seq<(ObjectId, u32)>,
    pub outlined: Seq<ObjectId>,
    pub visible: Seq<ObjectId>,
}

/// A frame in the making: the mirror so far, what of it is in use, and the
/// commands given.
pub struct FrameView {
    pub meshes: Seq<(u64, Seq<SlotRange>)>,
    pub materials: Seq<u64>,
    pub known: Seq<(ObjectId, u32)>,
    pub live_meshes: Seq<u64>,
    pub live_materials: Seq<u64>,
    pub live_objects: Seq<(ObjectId, u32)>,
    pub gizmos: Seq<(ObjectId, u32)>,
    pub outlined: Seq<ObjectId>,
    pub visible: Seq<ObjectId>,
    pub commands: Seq<Command>,
}

/// The material key listed for a slot.
pub open spec fn listed_material(materials: Seq<(u32, u64)>, slot: u32) -> Option<u64>
    decreases materials.len(),
{
    if materials.len() == 0 {
        None
    } else if listed_material(materials.drop_last(), slot) is Some {
        listed_material(materials.drop_last(), slot)
    } else if materials.last().0 == slot {
        Some(materials.last().1)
    } else {
        None
    }
}

/// The material key of a slot; a slot that is not listed has the first one.
pub open spec fn slot_material(materials: Seq<(u32, u64)>, slot: u32) -> u64 {
    match listed_material(materials, slot) {
        Some(key) => key,
        None => materials[0].1,
    }
}

/// The frame after one more slot of an object.
pub open spec fn slot_drawn(
    f: FrameView,
    o: DrawView,
    slot: u32,
    range: Option<SlotRange>,
) -> FrameView {
    let material = slot_material(o.materials, slot);
    let new_material = !f.materials.contains(material);
    let draw = DrawCall {
        object: o.id,
        slot,
        mesh: o.mesh,
        material,
        range,
        place: o.place,
        casts_shadow: !o.gizmo,
    };
    let with_material = if new_material {
        f.commands.push(Command::AddMaterial { key: material, object: o.id, slot })
    } else {
        f.commands
    };
    FrameView {
        materials: if new_material {
            f.materials.push(material)
        } else {
            f.materials
        },
        live_materials: f.live_materials.push(material),
        live_objects: f.live_objects.push((o.id, slot)),
        gizmos: if o.gizmo {
            f.gizmos.push((o.id, slot))
        } else {
            f.gizmos
        },
        commands: with_material.push(
            if f.known.contains((o.id, slot)) {
                Command::Update { draw }
            } else {
                Command::Insert { draw }
            },
        ),
        ..f
    }
}

/// The frame after the first `n` ranges of an object.
pub open spec fn slots_drawn(f: FrameView, o: DrawView, ranges: Seq<SlotRange>, n: nat) -> FrameView
    decreases n,
{
    if n == 0 {
        f
    } else {
        slot_drawn(
            slots_drawn(f, o, ranges, (n - 1) as nat),
            o,
            ranges[n - 1].slot,
            Some(ranges[n - 1]),
        )
    }
}

/// The frame once the mesh of a visible object is in use, uploaded if it was
/// not yet and has triangles.
pub open spec fn mesh_used(f: FrameView, o: DrawView) -> FrameView {
    let live = f.live_meshes.push(o.mesh);
    if ranges_for(f.meshes, o.mesh) is None && o.upload is Some {
        FrameView {
            meshes: f.meshes.push((o.mesh, o.upload->0)),
            live_meshes: live,
            commands: f.commands.push(Command::UploadMesh { key: o.mesh, object: o.id }),
            ..f
        }
    } else {
        FrameView { live_meshes: live, ..f }
    }
}

/// The frame after one more object. A hidden object, or one whose mesh has
/// no triangles, draws nothing.
pub open spec fn object_drawn(f: FrameView, o: DrawView) -> FrameView {
    if !o.visible {
        f
    } else {
        let g = mesh_used(f, o);
        match ranges_for(g.meshes, o.mesh) {
            None => g,
            Some(ranges) => {
                let h = if ranges.len() == 0 {
                    slot_drawn(g, o, 0, None)
                } else {
                    slots_drawn(g, o, ranges, ranges.len())
                };
                FrameView {
                    visible: h.visible.push(o.id),
                    outlined: if o.outlined {
                        h.outlined.push(o.id)
                    } else {
                        h.outlined
                    },
                    ..h
                }
            },
        }
    }
}

/// The frame after the first `n` objects.
pub open spec fn objects_drawn(f: FrameView, objects: Seq<DrawView>, n: nat) -> FrameView
    decreases n,
{
    if n == 0 {
        f
    } else {
        object_drawn(objects_drawn(f, objects, (n - 1) as nat), objects[n - 1])
    }
}

/// A frame about to begin.
pub open spec fn frame_start(v: RenderView) -> FrameView {
    FrameView {
        meshes: v.meshes,
        materials: v.materials,
        known: v.objects,
        live_meshes: seq![],
        live_materials: seq![],
        live_objects: seq![],
        gizmos: seq![],
        outlined: seq![],
        visible: seq![],
        commands: seq![],
    }
}

/// The removal of each of `known` that is not `live`.
pub open spec fn retired_objects(known: Seq<(ObjectId, u32)>, live: Seq<(ObjectId, u32)>) -> Seq<
    Command,
>
    decreases known.len(),
{
    if known.len() == 0 {
        seq![]
    } else {
        let before = retired_objects(known.drop_last(), live);
        let k = known.last();
        if live.contains(k) {
            before
        } else {
            before.push(Command::RemoveObject { object: k.0, slot: k.1 })
        }
    }
}

/// Those meshes that are live.
pub open spec fn kept_meshes(meshes: Seq<(u64, Seq<SlotRange>)>, live: Seq<u64>) -> Seq<
    (u64, Seq<SlotRange>),
>
    decreases meshes.len(),
{
    if meshes.len() == 0 {
        seq![]
    } else {
        let before = kept_meshes(meshes.drop_last(), live);
        if live.contains(meshes.last().0) {
            before.push(meshes.last())
        } else {
            before
        }
    }
}

/// The removal of each mesh that is not live.
pub open spec fn retired_meshes(meshes: Seq<(u64, Seq<SlotRange>)>, live: Seq<u64>) -> Seq<Command>
    decreases meshes.len(),
{
    if meshes.len() == 0 {
        seq![]
    } else {
        let before = retired_meshes(meshes.drop_last(), live);
        if live.contains(meshes.last().0) {
            before
        } else {
            before.push(Command::RemoveMesh { key: meshes.last().0 })
        }
    }
}

/// Those materials that are live.
pub open spec fn kept_materials(materials: Seq<u64>, live: Seq<u64>) -> Seq<u64>
    decreases materials.len(),
{
    if materials.len() == 0 {
        seq![]
    } else {
        let before = kept_materials(materials.drop_last(), live);
        if live.contains(materials.last()) {
            before.push(materials.last())
        } else {
            before
        }
    }
}

/// The removal of each material that is not live.
pub open spec fn retired_materials(materials: Seq<u64>, live: Seq<u64>) -> Seq<Command>
    decreases materials.len(),
{
    if materials.len() == 0 {
        seq![]
    } else {
        let before = retired_materials(materials.drop_last(), live);
        if live.contains(materials.last()) {
            before
        } else {
            before.push(Command::RemoveMaterial { key: materials.last() })
        }
    }
}

/// The mirror after a frame, and all commands of the frame. In wireframe
/// mode no surface is drawn, while meshes and materials stay for the switch
/// back.
pub open spec fn synced(v: RenderView, mode: ShadeMode, objects: Seq<DrawView>) -> (
    RenderView,
    Seq<Command>,
) {
    if mode == ShadeMode::Wireframe {
        (
            RenderView {
                objects: seq![],
                gizmos: seq![],
                outlined: seq![],
                visible: seq![],
                ..v
            },
            retired_objects(v.objects, seq![]),
        )
    } else {
        let f = objects_drawn(frame_start(v), objects, objects.len());
        (
            RenderView {
                meshes: kept_meshes(f.meshes, f.live_meshes),
                materials: kept_materials(f.materials, f.live_materials),
                objects: f.live_objects,
                gizmos: f.gizmos,
                outlined: f.outlined,
                visible: f.visible,
            },
            f.commands + retired_objects(v.objects, f.live_objects) + retired_meshes(
                f.meshes,
                f.live_meshes,
            ) + retired_materials(f.materials, f.live_materials),
        )
    }
}

/// The engine's mirror of the document.
#[derive(Debug)]
pub struct SceneRender {
    meshes: Vec<CachedMesh>,
    materials: Vec<u64>,
    objects: Vec<(ObjectId, u32)>,
    gizmos: Vec<(ObjectId, u32)>,
    outlined: Vec<ObjectId>,
    visible: Vec<ObjectId>,
}

impl View for SceneRender {
    type V = RenderView;

    closed spec fn view(&self) -> RenderView {
        RenderView {
            meshes: meshes_view(self.meshes@),
            materials: self.materials@,
            objects: self.objects@,
            gizmos: self.gizmos@,
            outlined: self.outlined@,
            visible: self.visible@,
        }
    }
}

struct Frame {
    live_meshes: Vec<u64>,
    live_materials: Vec<u64>,
    live_objects: Vec<(ObjectId, u32)>,
    commands: Vec<Command>,
}

fn has_key(keys: &Vec<u64>, key: u64) -> (r: bool)
    ensures
        r == keys@.contains(key),
{
    let mut i: usize = 0;
    while i < keys.len()
        invariant
            i <= keys@.len(),
            forall|k: int| 0 <= k < i ==> keys@[k] != key,
        decreases keys@.len() - i,
    {
        if keys[i] == key {
            assert(keys@[i as int] == key);
            return true;
        }
        i += 1;
    }
    false
}

fn has_object(objects: &Vec<(ObjectId, u32)>, id: ObjectId, slot: u32) -> (r: bool)
    ensures
        r == objects@.contains((id, slot)),
{
    let mut i: usize = 0;
    while i < objects.len()
        invariant
            i <= objects@.len(),
            forall|k: int| 0 <= k < i ==> objects@[k] != (id, slot),
        decreases objects@.len() - i,
    {
        if objects[i].0 == id && objects[i].1 == slot {
            assert(objects@[i as int] == (id, slot));
            return true;
        }
        i += 1;
    }
    false
}

fn find_material(materials: &Vec<(u32, u64)>, slot: u32) -> (r: u64)
    requires
        materials@.len() > 0,
    ensures
        r == slot_material(materials@, slot),
{
    let mut found: Option<u64> = None;
    let mut i: usize = 0;
    while i < materials.len()
        invariant
            i <= materials@.len(),
            found == listed_material(materials@.take(i as int), slot),
        decreases materials@.len() - i,
    {
        if found.is_none() && materials[i].0 == slot {
            found = Some(materials[i].1);
        }
        i += 1;
        assert(materials@.take(i as int).drop_last() =~= materials@.take(i - 1));
    }
    assert(materials@.take(i as int) =~= materials@);
    match found {
        Some(key) => key,
        None => materials[0].1,
    }
}

impl SceneRender {
    /// The frame in the making, where `known` were the engine objects before.
    spec fn frame(&self, known: Seq<(ObjectId, u32)>, f: Frame) -> FrameView {
        FrameView {
            meshes: meshes_view(self.meshes@),
            materials: self.materials@,
            known,
            live_meshes: f.live_meshes@,
            live_materials: f.live_materials@,
            live_objects: f.live_objects@,
            gizmos: self.gizmos@,
            outlined: self.outlined@,
            visible: self.visible@,
            commands: f.commands@,
        }
    }

    /// A mirror of nothing.
    pub fn new() -> (r: SceneRender)
        ensures
            r@ == (RenderView {
                meshes: seq![],
                materials: seq![],
                objects: seq![],
                gizmos: seq![],
                outlined: seq![],
                visible: seq![],
            }),
    {
        let r = SceneRender {
            meshes: Vec::new(),
            materials: Vec::new(),
            objects: Vec::new(),
            gizmos: Vec::new(),
            outlined: Vec::new(),
            visible: Vec::new(),
        };
        assert(r@.meshes =~= seq![]);
        assert(r@.materials =~= seq![]);
        assert(r@.objects =~= seq![]);
        assert(r@.gizmos =~= seq![]);
        assert(r@.outlined =~= seq![]);
        assert(r@.visible =~= seq![]);
        r
    }

    /// The place of an uploaded mesh.
    fn find_mesh(&self, key: u64) -> (r: Option<usize>)
        ensures
            r is Some == ranges_for(meshes_view(self.meshes@), key) is Some,
            r matches Some(i) ==> i < self.meshes@.len() && ranges_for(
                meshes_view(self.meshes@),
                key,
            ) == Some(self.meshes@[i as int].ranges@),
    {
        let ghost all = meshes_view(self.meshes@);
        let mut found: Option<usize> = None;
        let mut i: usize = 0;
        while i < self.meshes.len()
            invariant
                i <= self.meshes@.len(),
                all == meshes_view(self.meshes@),
                found is Some == ranges_for(all.take(i as int), key) is Some,
                found matches Some(k) ==> k < i && ranges_for(all.take(i as int), key) == Some(
                    self.meshes@[k as int].ranges@,
                ),
            decreases self.meshes@.len() - i,
        {
            if found.is_none() && self.meshes[i].key == key {
                found = Some(i);
            }
            i += 1;
            assert(all.take(i as int).drop_last() =~= all.take(i - 1));
            assert(all.take(i as int).last() == all[i - 1]);
        }
        assert(all.take(i as int) =~= all);
        found
    }

    /// The slot ranges of the mesh under this key, where it is uploaded.
    pub fn ranges(&self, key: u64) -> (r: Option<&Vec<SlotRange>>)
        ensures
            r is Some == ranges_for(self@.meshes, key) is Some,
            r matches Some(ranges) ==> ranges_for(self@.meshes, key) == Some(ranges@),
    {
        match self.find_mesh(key) {
            Some(i) => Some(&self.meshes[i].ranges),
            None => None,
        }
    }

    /// Must the mesh under this key be uploaded before it can be drawn?
    pub fn needs_mesh(&self, key: u64) -> (r: bool)
        ensures
            r == (ranges_for(self@.meshes, key) is None),
    {
        self.find_mesh(key).is_none()
    }

    fn draw_slot(
        &mut self,
        f: &mut Frame,
        known: &Vec<(ObjectId, u32)>,
        o: &DrawObject,
        slot: u32,
        range: Option<SlotRange>,
    )
        requires
            o.materials@.len() > 0,
        ensures
            final(self).frame(known@, *final(f)) == slot_drawn(
                old(self).frame(known@, *old(f)),
                o@,
                slot,
                range,
            ),
            final(self).meshes == old(self).meshes,
            final(self).objects == old(self).objects,
    {
        let material = find_material(&o.materials, slot);
        if !has_key(&self.materials, material) {
            self.materials.push(material);
            f.commands.push(Command::AddMaterial { key: material, object: o.id, slot });
        }
        f.live_materials.push(material);
        f.live_objects.push((o.id, slot));
        if o.gizmo {
            self.gizmos.push((o.id, slot));
        }
        let draw = DrawCall {
            object: o.id,
            slot,
            mesh: o.mesh,
            material,
            range,
            place: o.place,
            casts_shadow: !o.gizmo,
        };
        if has_object(known, o.id, slot) {
            f.commands.push(Command::Update { draw });
        } else {
            f.commands.push(Command::Insert { draw });
        }
    }

    fn draw_object(&mut self, f: &mut Frame, known: &Vec<(ObjectId, u32)>, o: &DrawObject)
        requires
            o.materials@.len() > 0,
        ensures
            final(self).frame(known@, *final(f)) == object_drawn(
                old(self).frame(known@, *old(f)),
                o@,
            ),
            final(self).objects == old(self).objects,
    {
        if !o.visible {
            return;
        }
        let ghost begun = self.frame(known@, *f);
        f.live_meshes.push(o.mesh);
        if self.find_mesh(o.mesh).is_none() {
            match &o.upload {
                None => {
                    return;
                },
                Some(ranges) => {
                    let mut copy: Vec<SlotRange> = Vec::new();
                    let mut i: usize = 0;
                    while i < ranges.len()
                        invariant
                            i <= ranges@.len(),
                            copy@ == ranges@.take(i as int),
                        decreases ranges@.len() - i,
                    {
                        copy.push(ranges[i]);
                        i += 1;
                        assert(copy@ =~= ranges@.take(i as int));
                    }
                    assert(copy@ =~= ranges@);
                    let ghost before = meshes_view(self.meshes@);
                    self.meshes.push(CachedMesh { key: o.mesh, ranges: copy });
                    assert(meshes_view(self.meshes@) =~= before.push((o.mesh, ranges@)));
                    f.commands.push(Command::UploadMesh { key: o.mesh, object: o.id });
                    proof {
                        let now = before.push((o.mesh, ranges@));
                        assert(now.drop_last() =~= before);
                    }
                },
            }
        }
        let ghost used = self.frame(known@, *f);
        assert(used == mesh_used(begun, o@));
        let at = self.find_mesh(o.mesh).unwrap();
        let ghost ranges = self.meshes@[at as int].ranges@;
        let count = self.meshes[at].ranges.len();
        if count == 0 {
            self.draw_slot(f, known, o, 0, None);
        } else {
            let mut n: usize = 0;
            while n < count
                invariant
                    n <= count,
                    o.materials@.len() > 0,
                    at < self.meshes@.len(),
                    count == ranges.len(),
                    self.meshes@[at as int].ranges@ == ranges,
                    self.objects == old(self).objects,
                    self.frame(known@, *f) == slots_drawn(used, o@, ranges, n as nat),
                decreases count - n,
            {
                let range = self.meshes[at].ranges[n];
                self.draw_slot(f, known, o, range.slot, Some(range));
                n += 1;
            }
        }
        self.visible.push(o.id);
        if o.outlined {
            self.outlined.push(o.id);
        }
    }

    fn retire_objects(
        known: &Vec<(ObjectId, u32)>,
        live: &Vec<(ObjectId, u32)>,
        commands: &mut Vec<Command>,
    )
        ensures
            final(commands)@ == old(commands)@ + retired_objects(known@, live@),
    {
        let ghost start = commands@;
        let mut i: usize = 0;
        assert(start + retired_objects(known@.take(0), live@) =~= start);
        while i < known.len()
            invariant
                i <= known@.len(),
                commands@ == start + retired_objects(known@.take(i as int), live@),
            decreases known@.len() - i,
        {
            let k = known[i];
            let ghost before = retired_objects(known@.take(i as int), live@);
            i += 1;
            assert(known@.take(i as int).drop_last() =~= known@.take(i - 1));
            assert(known@.take(i as int).last() == k);
            if !has_object(live, k.0, k.1) {
                let c = Command::RemoveObject { object: k.0, slot: k.1 };
                commands.push(c);
                assert(commands@ =~= start + before.push(c));
            }
        }
        assert(known@.take(i as int) =~= known@);
    }

    fn retire_meshes(&mut self, live: &Vec<u64>, commands: &mut Vec<Command>)
        ensures
            final(commands)@ == old(commands)@ + retired_meshes(
                meshes_view(old(self).meshes@),
                live@,
            ),
            meshes_view(final(self).meshes@) == kept_meshes(
                meshes_view(old(self).meshes@),
                live@,
            ),
            *final(self) == (SceneRender { meshes: final(self).meshes, ..*old(self) }),
    {
        let ghost all = meshes_view(self.meshes@);
        let mut pending: Vec<CachedMesh> = Vec::new();
        std::mem::swap(&mut self.meshes, &mut pending);
        let mut kept: Vec<CachedMesh> = Vec::new();
        let ghost start = commands@;
        let mut done: usize = 0;
        let total: usize = pending.len();
        assert(start + retired_meshes(all.take(0), live@) =~= start);
        assert(meshes_view(kept@) =~= kept_meshes(all.take(0), live@));
        while done < total
            invariant
                done <= total,
                total == all.len(),
                pending@.len() == total - done,
                meshes_view(pending@) == all.skip(done as int),
                commands@ == start + retired_meshes(all.take(done as int), live@),
                meshes_view(kept@) == kept_meshes(all.take(done as int), live@),
            decreases total - done,
        {
            let ghost was = pending@;
            let m = pending.remove(0);
            let key = m.key;
            let ghost entry = (m.key, m.ranges@);
            let ghost before = retired_meshes(all.take(done as int), live@);
            let ghost kept_before = meshes_view(kept@);
            proof {
                assert(meshes_view(was)[0] == entry);
                assert(all.skip(done as int)[0] == all[done as int]);
            }
            done += 1;
            assert(all.take(done as int).drop_last() =~= all.take(done - 1));
            assert(all.take(done as int).last() == entry);
            assert(meshes_view(pending@) =~= all.skip(done as int)) by {
                assert forall|k: int| 0 <= k < pending@.len() implies meshes_view(pending@)[k]
                    == all.skip(done as int)[k] by {
                    assert(pending@[k] == was[k + 1]);
                    assert(meshes_view(was)[k + 1] == all.skip(done - 1)[k + 1]);
                }
            }
            if has_key(live, key) {
                kept.push(m);
                assert(meshes_view(kept@) =~= kept_before.push(entry));
            } else {
                let c = Command::RemoveMesh { key };
                commands.push(c);
                assert(commands@ =~= start + before.push(c));
            }
        }
        assert(all.take(done as int) =~= all);
        self.meshes = kept;
    }

    fn retire_materials(&mut self, live: &Vec<u64>, commands: &mut Vec<Command>)
        ensures
            final(commands)@ == old(commands)@ + retired_materials(
                old(self).materials@,
                live@,
            ),
            final(self).materials@ == kept_materials(old(self).materials@, live@),
            *final(self) == (SceneRender { materials: final(self).materials, ..*old(self) }),
    {
        let ghost all = self.materials@;
        let ghost start = commands@;
        let mut kept: Vec<u64> = Vec::new();
        let mut i: usize = 0;
        assert(start + retired_materials(all.take(0), live@) =~= start);
        assert(kept@ =~= kept_materials(all.take(0), live@));
        while i < self.materials.len()
            invariant
                i <= self.materials@.len(),
                *self == *old(self),
                all == self.materials@,
                commands@ == start + retired_materials(all.take(i as int), live@),
                kept@ == kept_materials(all.take(i as int), live@),
            decreases self.materials@.len() - i,
        {
            let key = self.materials[i];
            let ghost before = retired_materials(all.take(i as int), live@);
            i += 1;
            assert(all.take(i as int).drop_last() =~= all.take(i - 1));
            assert(all.take(i as int).last() == key);
            if has_key(live, key) {
                kept.push(key);
            } else {
                let c = Command::RemoveMaterial { key };
                commands.push(c);
                assert(commands@ =~= start + before.push(c));
            }
        }
        assert(all.take(i as int) =~= all);
        self.materials = kept;
    }

    /// Brings the mirror up to the document: returns the commands for the
    /// engine, in order.
    pub fn sync(&mut self, mode: ShadeMode, objects: &Vec<DrawObject>) -> (commands: Vec<Command>)
        requires
            forall|i: int| 0 <= i < objects@.len() ==> (#[trigger] objects@[i]).materials@.len() > 0,
        ensures
            final(self)@ == synced(old(self)@, mode, frame_view(objects@)).0,
            commands@ == synced(old(self)@, mode, frame_view(objects@)).1,
    {
        let ghost start = self@;
        let mut known: Vec<(ObjectId, u32)> = Vec::new();
        std::mem::swap(&mut self.objects, &mut known);
        self.gizmos = Vec::new();
        self.outlined = Vec::new();
        self.visible = Vec::new();
        let mut f = Frame {
            live_meshes: Vec::new(),
            live_materials: Vec::new(),
            live_objects: Vec::new(),
            commands: Vec::new(),
        };
        assert(self.gizmos@ =~= seq![]);
        assert(self.outlined@ =~= seq![]);
        assert(self.visible@ =~= seq![]);
        assert(self.objects@ =~= seq![]);
        assert(f.live_meshes@ =~= seq![]);
        assert(f.live_materials@ =~= seq![]);
        assert(f.live_objects@ =~= seq![]);
        assert(f.commands@ =~= seq![]);
        if mode == ShadeMode::Wireframe {
            SceneRender::retire_objects(&known, &f.live_objects, &mut f.commands);
            assert(f.commands@ =~= retired_objects(start.objects, seq![]));
            return f.commands;
        }
        let ghost fv = frame_view(objects@);
        assert(self.frame(known@, f) == frame_start(start));
        let mut n: usize = 0;
        while n < objects.len()
            invariant
                n <= objects@.len(),
                fv == frame_view(objects@),
                forall|i: int|
                    0 <= i < objects@.len() ==> (#[trigger] objects@[i]).materials@.len() > 0,
                self.frame(known@, f) == objects_drawn(frame_start(start), fv, n as nat),
            decreases objects@.len() - n,
        {
            assert(objects@[n as int].materials@.len() > 0);
            self.draw_object(&mut f, &known, &objects[n]);
            n += 1;
        }
        let ghost drawn = self.frame(known@, f);
        SceneRender::retire_objects(&known, &f.live_objects, &mut f.commands);
        self.retire_meshes(&f.live_meshes, &mut f.commands);
        self.retire_materials(&f.live_materials, &mut f.commands);
        self.objects = f.live_objects;
        f.commands
    }

    /// The engine objects of the editor's own markers.
    pub fn gizmos(&self) -> (r: &Vec<(ObjectId, u32)>)
        ensures
            r@ == self@.gizmos,
    {
        &self.gizmos
    }

    /// Shows or hides the editor's own markers, which a camera does not take
    /// a picture of. The next frame shows them again.
    pub fn set_gizmos_visible(&self, visible: bool) -> (commands: Vec<Command>)
        ensures
            commands@ == Seq::new(
                self@.gizmos.len(),
                |i: int|
                    Command::Show {
                        object: self@.gizmos[i].0,
                        slot: self@.gizmos[i].1,
                        visible,
                    },
            ),
    {
        let mut commands: Vec<Command> = Vec::new();
        let mut i: usize = 0;
        while i < self.gizmos.len()
            invariant
                i <= self.gizmos@.len(),
                commands@.len() == i,
                forall|k: int|
                    0 <= k < i ==> commands@[k] == (Command::Show {
                        object: self.gizmos@[k].0,
                        slot: self.gizmos@[k].1,
                        visible,
                    }),
            decreases self.gizmos@.len() - i,
        {
            let (object, slot) = self.gizmos[i];
            commands.push(Command::Show { object, slot, visible });
            i += 1;
        }
        commands
    }

    /// The objects whose outlines are traced.
    pub fn selection(&self) -> (r: &Vec<ObjectId>)
        ensures
            r@ == self@.outlined,
    {
        &self.outlined
    }

    /// The objects drawn this frame, in document order.
    pub fn visible(&self) -> (r: &Vec<ObjectId>)
        ensures
            r@ == self@.visible,
    {
        &self.visible
    }
}

proof fn lemma_listed_material(materials: Seq<(u32, u64)>, slot: u32)
    ensures
        listed_material(materials, slot) matches Some(key) ==> materials.contains((slot, key)),
        listed_material(materials, slot) is None ==> forall|i: int|
            0 <= i < materials.len() ==> (#[trigger] materials[i]).0 != slot,
    decreases materials.len(),
{
    if materials.len() > 0 {
        let rest = materials.drop_last();
        lemma_listed_material(rest, slot);
        let last = materials[materials.len() - 1];
        assert(materials.last() == last);
        if let Some(key) = listed_material(rest, slot) {
            let i = choose|i: int| 0 <= i < rest.len() && rest[i] == (slot, key);
            assert(materials[i] == (slot, key));
        } else {
            assert forall|i: int|
                0 <= i < materials.len() && listed_material(materials, slot) is None implies (
            #[trigger] materials[i]).0 != slot by {
                if i < rest.len() {
                    assert(rest[i] == materials[i]);
                }
            }
        }
    }
}

/// A slot is painted with the material listed for it, and with the first of
/// the list where none is.
pub proof fn law_slots_have_their_material(materials: Seq<(u32, u64)>, slot: u32)
    requires
        materials.len() > 0,
    ensures
        materials.contains((slot, slot_material(materials, slot))) || (slot_material(
            materials,
            slot,
        ) == materials[0].1 && forall|i: int|
            0 <= i < materials.len() ==> (#[trigger] materials[i]).0 != slot),
{
    lemma_listed_material(materials, slot);
}

/// What a command draws, if it draws.
pub open spec fn drawn_by(c: Command) -> Option<DrawCall> {
    match c {
        Command::Insert { draw } => Some(draw),
        Command::Update { draw } => Some(draw),
        _ => None,
    }
}

/// A slot is drawn where its object is, with the geometry of the object and
/// the material of the slot, which is there by then. Lights, cameras and
/// empties cast no shadow. What the renderer has is brought up to date, and
/// made otherwise.
pub proof fn law_slots_are_drawn_where_the_object_is(
    f: FrameView,
    o: DrawView,
    slot: u32,
    range: Option<SlotRange>,
)
    ensures
        ({
            let g = slot_drawn(f, o, slot, range);
            let last = g.commands.last();
            &&& drawn_by(last) == Some(
                DrawCall {
                    object: o.id,
                    slot,
                    mesh: o.mesh,
                    material: slot_material(o.materials, slot),
                    range,
                    place: o.place,
                    casts_shadow: !o.gizmo,
                },
            )
            &&& last is Update <==> f.known.contains((o.id, slot))
            &&& f.commands.is_prefix_of(g.commands)
            &&& g.materials.contains(slot_material(o.materials, slot))
            &&& g.live_objects.last() == (o.id, slot)
            &&& o.gizmo ==> g.gizmos.last() == (o.id, slot)
            &&& !o.gizmo ==> g.gizmos == f.gizmos
            &&& g.meshes == f.meshes && g.known == f.known && g.outlined == f.outlined
                && g.visible == f.visible
        }),
{
    let material = slot_material(o.materials, slot);
    let g = slot_drawn(f, o, slot, range);
    if !f.materials.contains(material) {
        assert(g.materials[f.materials.len() as int] == material);
    }
}

/// A material that the renderer has is not added again; a new one is added,
/// from the slot that needs it, before it is drawn with.
pub proof fn law_materials_are_added_before_use(
    f: FrameView,
    o: DrawView,
    slot: u32,
    range: Option<SlotRange>,
)
    ensures
        ({
            let g = slot_drawn(f, o, slot, range);
            let material = slot_material(o.materials, slot);
            let n = f.commands.len() as int;
            &&& f.materials.contains(material) ==> g.commands.len() == n + 1 && g.materials
                == f.materials
            &&& !f.materials.contains(material) ==> g.commands.len() == n + 2 && g.commands[n] == (
            Command::AddMaterial { key: material, object: o.id, slot }) && g.materials
                == f.materials.push(material)
        }),
{
}

/// A hidden object leaves the frame as it is; a visible one with triangles
/// is shown, and outlined where it is to be.
pub proof fn law_hidden_objects_are_not_drawn(f: FrameView, o: DrawView)
    ensures
        !o.visible ==> object_drawn(f, o) == f,
        o.visible && o.upload is Some ==> object_drawn(f, o).visible.len() > 0 && object_drawn(
            f,
            o,
        ).visible.last() == o.id,
        o.visible && o.upload is Some && o.outlined ==> object_drawn(f, o).outlined.len() > 0
            && object_drawn(f, o).outlined.last() == o.id,
{
    if o.visible && o.upload is Some && ranges_for(f.meshes, o.mesh) is None {
        let more = f.meshes.push((o.mesh, o.upload->0));
        assert(more.drop_last() =~= f.meshes);
        assert(ranges_for(more, o.mesh) is Some);
    }
}

/// A frame keeps exactly the geometry that it uses, and has the rest
/// removed; and so for materials.
pub proof fn law_unused_meshes_are_removed(
    meshes: Seq<(u64, Seq<SlotRange>)>,
    live: Seq<u64>,
    i: int,
)
    requires
        0 <= i < meshes.len(),
    ensures
        live.contains(meshes[i].0) ==> kept_meshes(meshes, live).contains(meshes[i]),
        !live.contains(meshes[i].0) ==> retired_meshes(meshes, live).contains(
            Command::RemoveMesh { key: meshes[i].0 },
        ),
        kept_meshes(meshes, live).len() + retired_meshes(meshes, live).len() == meshes.len(),
        forall|k: int|
            0 <= k < kept_meshes(meshes, live).len() ==> live.contains(
                (#[trigger] kept_meshes(meshes, live)[k]).0,
            ),
    decreases meshes.len(),
{
    let rest = meshes.drop_last();
    let kept = kept_meshes(rest, live);
    let gone = retired_meshes(rest, live);
    let kept_now = kept_meshes(meshes, live);
    let gone_now = retired_meshes(meshes, live);
    let last = meshes[meshes.len() - 1];
    assert(meshes.last() == last);
    if rest.len() > 0 {
        law_unused_meshes_are_removed(
            rest,
            live,
            if i < rest.len() {
                i
            } else {
                0
            },
        );
    } else {
        assert(kept.len() == 0 && gone.len() == 0);
    }
    if i < rest.len() {
        assert(rest[i] == meshes[i]);
        if kept.contains(meshes[i]) {
            let k = choose|k: int| 0 <= k < kept.len() && kept[k] == meshes[i];
            assert(kept_now[k] == meshes[i]);
        }
        let c = Command::RemoveMesh { key: meshes[i].0 };
        if gone.contains(c) {
            let k = choose|k: int| 0 <= k < gone.len() && gone[k] == c;
            assert(gone_now[k] == c);
        }
    } else if live.contains(last.0) {
        assert(kept_now[kept.len() as int] == last);
    } else {
        assert(gone_now[gone.len() as int] == (Command::RemoveMesh { key: last.0 }));
    }
}

/// A frame keeps exactly the materials that it uses, and has the rest
/// removed.
pub proof fn law_unused_materials_are_removed(materials: Seq<u64>, live: Seq<u64>, i: int)
    requires
        0 <= i < materials.len(),
    ensures
        live.contains(materials[i]) ==> kept_materials(materials, live).contains(materials[i]),
        !live.contains(materials[i]) ==> retired_materials(materials, live).contains(
            Command::RemoveMaterial { key: materials[i] },
        ),
        kept_materials(materials, live).len() + retired_materials(materials, live).len()
            == materials.len(),
        forall|k: int|
            0 <= k < kept_materials(materials, live).len() ==> live.contains(
                #[trigger] kept_materials(materials, live)[k],
            ),
    decreases materials.len(),
{
    let rest = materials.drop_last();
    let kept = kept_materials(rest, live);
    let gone = retired_materials(rest, live);
    let kept_now = kept_materials(materials, live);
    let gone_now = retired_materials(materials, live);
    let last = materials[materials.len() - 1];
    assert(materials.last() == last);
    if rest.len() > 0 {
        law_unused_materials_are_removed(
            rest,
            live,
            if i < rest.len() {
                i
            } else {
                0
            },
        );
    } else {
        assert(kept.len() == 0 && gone.len() == 0);
    }
    if i < rest.len() {
        assert(rest[i] == materials[i]);
        if kept.contains(materials[i]) {
            let k = choose|k: int| 0 <= k < kept.len() && kept[k] == materials[i];
            assert(kept_now[k] == materials[i]);
        }
        let c = Command::RemoveMaterial { key: materials[i] };
        if gone.contains(c) {
            let k = choose|k: int| 0 <= k < gone.len() && gone[k] == c;
            assert(gone_now[k] == c);
        }
    } else if live.contains(last) {
        assert(kept_now[kept.len() as int] == last);
    } else {
        assert(gone_now[gone.len() as int] == (Command::RemoveMaterial { key: last }));
    }
}

} // verus!
