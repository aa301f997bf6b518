//! What holds of the engine's mirror across whole frames.

use vstd::prelude::*;
use crate::scalar::Transform;
use crate::scene::ObjectId;
use crate::scene_render::{
    frame_start, kept_materials, kept_meshes, mesh_used, object_drawn, objects_drawn, ranges_for,
    retired_materials, retired_meshes, retired_objects, slot_drawn, slot_material, slots_drawn,
    synced, Command, DrawCall, DrawView, FrameView, RenderView,
};
use crate::shading::ShadeMode;
use crate::slot_ranges::SlotRange;

verus! {

proof fn lemma_slots_keep(f: FrameView, o: DrawView, ranges: Seq<SlotRange>, n: nat)
    ensures
        ({
            let g = slots_drawn(f, o, ranges, n);
            &&& g.meshes == f.meshes
            &&& g.live_meshes == f.live_meshes
            &&& g.known == f.known
            &&& g.visible == f.visible
            &&& g.outlined == f.outlined
            &&& f.live_objects.is_prefix_of(g.live_objects)
            &&& f.live_materials.is_prefix_of(g.live_materials)
            &&& f.materials.is_prefix_of(g.materials)
            &&& f.commands.is_prefix_of(g.commands)
            &&& forall|k: int|
                f.live_objects.len() <= k < g.live_objects.len() ==> (
                #[trigger] g.live_objects[k]).0 == o.id
            &&& forall|k: int|
                f.commands.len() <= k < g.commands.len() ==> !((#[trigger] g.commands[k])
                    is UploadMesh)
        }),
    decreases n,
{
    if n > 0 {
        lemma_slots_keep(f, o, ranges, (n - 1) as nat);
    }
}

/// What one object adds to a frame.
proof fn lemma_object_keeps(f: FrameView, o: DrawView)
    ensures
        ({
            let g = object_drawn(f, o);
            &&& g.known == f.known
            &&& f.meshes.is_prefix_of(g.meshes)
            &&& f.live_meshes.is_prefix_of(g.live_meshes)
            &&& f.live_objects.is_prefix_of(g.live_objects)
            &&& f.live_materials.is_prefix_of(g.live_materials)
            &&& f.materials.is_prefix_of(g.materials)
            &&& f.commands.is_prefix_of(g.commands)
            &&& !o.visible ==> g == f
            &&& o.visible ==> g.meshes == mesh_used(f, o).meshes
            &&& forall|k: int|
                f.live_objects.len() <= k < g.live_objects.len() ==> o.visible && (
                #[trigger] g.live_objects[k]).0 == o.id
            &&& forall|k: int|
                f.commands.len() <= k < g.commands.len() && (#[trigger] g.commands[k])
                    is UploadMesh ==> {
                    &&& g.commands[k]->UploadMesh_key == o.mesh
                    &&& ranges_for(f.meshes, o.mesh) is None
                    &&& k == f.commands.len()
                    &&& ranges_for(g.meshes, o.mesh) is Some
                }
        }),
{
    if o.visible {
        let u = mesh_used(f, o);
        if ranges_for(f.meshes, o.mesh) is None && o.upload is Some {
            assert(u.meshes.drop_last() =~= f.meshes);
        }
        if let Some(ranges) = ranges_for(u.meshes, o.mesh) {
            lemma_slots_keep(u, o, ranges, ranges.len());
            let h = if ranges.len() == 0 {
                slot_drawn(u, o, 0, None)
            } else {
                slots_drawn(u, o, ranges, ranges.len())
            };
            let g = object_drawn(f, o);
            assert(g.commands == h.commands && g.live_objects == h.live_objects);
            assert forall|k: int| u.commands.len() <= k < h.commands.len() implies !((
            #[trigger] h.commands[k]) is UploadMesh) by {}
            assert forall|k: int|
                f.commands.len() <= k < g.commands.len() && (#[trigger] g.commands[k])
                    is UploadMesh implies {
                &&& g.commands[k]->UploadMesh_key == o.mesh
                &&& ranges_for(f.meshes, o.mesh) is None
                &&& k == f.commands.len()
                &&& ranges_for(g.meshes, o.mesh) is Some
            } by {
                assert(k < u.commands.len());
                assert(u.commands[k] == h.commands[k]);
            }
            assert(f.commands.is_prefix_of(u.commands));
            assert(u.commands.is_prefix_of(h.commands));
            assert(u.live_objects.is_prefix_of(h.live_objects));
            assert(u.live_materials.is_prefix_of(h.live_materials));
            assert(u.materials.is_prefix_of(h.materials));
            assert forall|k: int| f.live_objects.len() <= k < g.live_objects.len() implies (
            #[trigger] g.live_objects[k]).0 == o.id by {
                assert(h.live_objects[k].0 == o.id);
            }
        }
    }
}

/// A visible object has this id.
pub open spec fn is_shown(objects: Seq<DrawView>, id: ObjectId) -> bool {
    exists|i: int| 0 <= i < objects.len() && (#[trigger] objects[i]).visible && objects[i].id == id
}

/// Every engine object after a frame belongs to a visible object of the
/// document: what is hidden or gone leaves the mirror.
pub proof fn law_mirror_holds_visible_objects_only(
    v: RenderView,
    mode: ShadeMode,
    objects: Seq<DrawView>,
    k: int,
)
    requires
        0 <= k < synced(v, mode, objects).0.objects.len(),
    ensures
        is_shown(objects, synced(v, mode, objects).0.objects[k].0),
{
    lemma_live_are_visible(frame_start(v), objects, objects.len());
}

proof fn lemma_live_are_visible(f: FrameView, objects: Seq<DrawView>, n: nat)
    requires
        f.live_objects.len() == 0,
        n <= objects.len(),
    ensures
        forall|k: int|
            0 <= k < objects_drawn(f, objects, n).live_objects.len() ==> is_shown(
                objects,
                (#[trigger] objects_drawn(f, objects, n).live_objects[k]).0,
            ),
    decreases n,
{
    if n > 0 {
        let before = objects_drawn(f, objects, (n - 1) as nat);
        let now = objects_drawn(f, objects, n);
        lemma_live_are_visible(f, objects, (n - 1) as nat);
        lemma_object_keeps(before, objects[n - 1]);
        assert forall|k: int| 0 <= k < now.live_objects.len() implies is_shown(
            objects,
            (#[trigger] now.live_objects[k]).0,
        ) by {
            if k < before.live_objects.len() {
                assert(now.live_objects[k] == before.live_objects[k]);
            } else {
                assert(objects[n - 1].visible && objects[n - 1].id == now.live_objects[k].0);
            }
        }
    }
}

proof fn lemma_ranges_stay(
    meshes: Seq<(u64, Seq<SlotRange>)>,
    more: Seq<(u64, Seq<SlotRange>)>,
    key: u64,
)
    requires
        meshes.is_prefix_of(more),
        ranges_for(meshes, key) is Some,
    ensures
        ranges_for(more, key) == ranges_for(meshes, key),
    decreases more.len(),
{
    if meshes.len() < more.len() {
        assert(meshes.is_prefix_of(more.drop_last()));
        lemma_ranges_stay(meshes, more.drop_last(), key);
    } else {
        assert(meshes =~= more);
    }
}

proof fn lemma_uploads(f: FrameView, objects: Seq<DrawView>, n: nat)
    requires
        f.commands.len() == 0,
        n <= objects.len(),
    ensures
        ({
            let g = objects_drawn(f, objects, n);
            &&& f.meshes.is_prefix_of(g.meshes)
            &&& forall|k: int|
                0 <= k < g.commands.len() && (#[trigger] g.commands[k]) is UploadMesh ==> {
                    &&& ranges_for(f.meshes, g.commands[k]->UploadMesh_key) is None
                    &&& ranges_for(g.meshes, g.commands[k]->UploadMesh_key) is Some
                }
            &&& forall|j: int, k: int|
                0 <= j < k < g.commands.len() && (#[trigger] g.commands[j]) is UploadMesh && (
                #[trigger] g.commands[k]) is UploadMesh ==> g.commands[j]->UploadMesh_key
                    != g.commands[k]->UploadMesh_key
        }),
    decreases n,
{
    if n > 0 {
        let o = objects[n - 1];
        let before = objects_drawn(f, objects, (n - 1) as nat);
        let now = objects_drawn(f, objects, n);
        lemma_uploads(f, objects, (n - 1) as nat);
        lemma_object_keeps(before, o);
        assert forall|k: int| 0 <= k < now.commands.len() && (#[trigger] now.commands[k])
            is UploadMesh implies {
            &&& ranges_for(f.meshes, now.commands[k]->UploadMesh_key) is None
            &&& ranges_for(now.meshes, now.commands[k]->UploadMesh_key) is Some
        } by {
            let key = now.commands[k]->UploadMesh_key;
            if k < before.commands.len() {
                assert(now.commands[k] == before.commands[k]);
                lemma_ranges_stay(before.meshes, now.meshes, key);
            } else {
                if ranges_for(f.meshes, key) is Some {
                    lemma_ranges_stay(f.meshes, before.meshes, key);
                }
            }
        }
        assert forall|j: int, k: int|
            0 <= j < k < now.commands.len() && (#[trigger] now.commands[j]) is UploadMesh && (
            #[trigger] now.commands[k]) is UploadMesh implies now.commands[j]->UploadMesh_key
            != now.commands[k]->UploadMesh_key by {
            if k < before.commands.len() {
                assert(now.commands[j] == before.commands[j]);
                assert(now.commands[k] == before.commands[k]);
            } else {
                if j < before.commands.len() {
                    assert(now.commands[j] == before.commands[j]);
                    assert(ranges_for(before.meshes, now.commands[j]->UploadMesh_key) is Some);
                }
            }
        }
    }
}

proof fn lemma_retired_are_removals(
    known: Seq<(ObjectId, u32)>,
    live: Seq<(ObjectId, u32)>,
)
    ensures
        forall|k: int|
            0 <= k < retired_objects(known, live).len() ==> (#[trigger] retired_objects(
                known,
                live,
            )[k]) is RemoveObject,
    decreases known.len(),
{
    if known.len() > 0 {
        lemma_retired_are_removals(known.drop_last(), live);
        let before = retired_objects(known.drop_last(), live);
        let now = retired_objects(known, live);
        assert forall|k: int| 0 <= k < now.len() implies (#[trigger] now[k]) is RemoveObject by {
            if k < before.len() {
                assert(now[k] == before[k]);
            }
        }
    }
}

proof fn lemma_retired_meshes_are_removals(meshes: Seq<(u64, Seq<SlotRange>)>, live: Seq<u64>)
    ensures
        forall|k: int|
            0 <= k < retired_meshes(meshes, live).len() ==> (#[trigger] retired_meshes(
                meshes,
                live,
            )[k]) is RemoveMesh,
    decreases meshes.len(),
{
    if meshes.len() > 0 {
        lemma_retired_meshes_are_removals(meshes.drop_last(), live);
        let before = retired_meshes(meshes.drop_last(), live);
        let now = retired_meshes(meshes, live);
        assert forall|k: int| 0 <= k < now.len() implies (#[trigger] now[k]) is RemoveMesh by {
            if k < before.len() {
                assert(now[k] == before[k]);
            }
        }
    }
}

proof fn lemma_retired_materials_are_removals(materials: Seq<u64>, live: Seq<u64>)
    ensures
        forall|k: int|
            0 <= k < retired_materials(materials, live).len() ==> (#[trigger] retired_materials(
                materials,
                live,
            )[k]) is RemoveMaterial,
    decreases materials.len(),
{
    if materials.len() > 0 {
        lemma_retired_materials_are_removals(materials.drop_last(), live);
        let before = retired_materials(materials.drop_last(), live);
        let now = retired_materials(materials, live);
        assert forall|k: int| 0 <= k < now.len() implies (#[trigger] now[k]) is RemoveMaterial by {
            if k < before.len() {
                assert(now[k] == before[k]);
            }
        }
    }
}

/// A frame uploads no mesh that the mirror has already, and none twice:
/// objects with the same geometry share one upload.
pub proof fn law_one_upload_per_mesh(
    v: RenderView,
    mode: ShadeMode,
    objects: Seq<DrawView>,
    j: int,
    k: int,
)
    requires
        0 <= j < synced(v, mode, objects).1.len(),
        0 <= k < synced(v, mode, objects).1.len(),
        synced(v, mode, objects).1[j] is UploadMesh,
    ensures
        ranges_for(v.meshes, synced(v, mode, objects).1[j]->UploadMesh_key) is None,
        j != k && synced(v, mode, objects).1[k] is UploadMesh ==> synced(
            v,
            mode,
            objects,
        ).1[j]->UploadMesh_key != synced(v, mode, objects).1[k]->UploadMesh_key,
{
    let all = synced(v, mode, objects).1;
    lemma_retired_are_removals(v.objects, seq![]);
    if mode != ShadeMode::Wireframe {
        let f = objects_drawn(frame_start(v), objects, objects.len());
        lemma_uploads(frame_start(v), objects, objects.len());
        lemma_retired_are_removals(v.objects, f.live_objects);
        lemma_retired_meshes_are_removals(f.meshes, f.live_meshes);
        lemma_retired_materials_are_removals(f.materials, f.live_materials);
        let a = retired_objects(v.objects, f.live_objects);
        let b = retired_meshes(f.meshes, f.live_meshes);
        let c = retired_materials(f.materials, f.live_materials);
        let n = f.commands.len();
        assert forall|i: int| n <= i < all.len() implies !((#[trigger] all[i]) is UploadMesh) by {
            if i < n + a.len() {
                assert(all[i] == a[i - n]);
            } else if i < n + a.len() + b.len() {
                assert(all[i] == b[i - n - a.len()]);
            } else {
                assert(all[i] == c[i - n - a.len() - b.len()]);
            }
        }
        assert(all[j] == f.commands[j]);
        if k < n {
            assert(all[k] == f.commands[k]);
        }
    } else {
        assert(all[j] is RemoveObject);
    }
}

/// Objects with the same geometry key agree on whether it has triangles, and
/// on its ranges.
pub open spec fn agree(objects: Seq<DrawView>) -> bool {
    forall|i: int, j: int|
        0 <= i < objects.len() && 0 <= j < objects.len() && (#[trigger] objects[i]).mesh == (
        #[trigger] objects[j]).mesh ==> objects[i].upload == objects[j].upload
}

/// The mirror knows everything that this object draws.
spec fn covers(v: FrameView, o: DrawView, ranges: Seq<SlotRange>) -> bool {
    if ranges.len() == 0 {
        v.materials.contains(slot_material(o.materials, 0)) && v.known.contains((o.id, 0))
    } else {
        forall|k: int|
            0 <= k < ranges.len() ==> v.materials.contains(
                slot_material(o.materials, (#[trigger] ranges[k]).slot),
            ) && v.known.contains((o.id, ranges[k].slot))
    }
}

/// All commands from `from` on are updates.
spec fn only_updates(commands: Seq<Command>, from: int) -> bool {
    forall|k: int| from <= k < commands.len() ==> (#[trigger] commands[k]) is Update
}

proof fn lemma_covered_slots(f: FrameView, o: DrawView, ranges: Seq<SlotRange>, n: nat)
    requires
        n <= ranges.len(),
        forall|k: int|
            0 <= k < ranges.len() ==> f.materials.contains(
                slot_material(o.materials, (#[trigger] ranges[k]).slot),
            ) && f.known.contains((o.id, ranges[k].slot)),
    ensures
        slots_drawn(f, o, ranges, n).materials == f.materials,
        only_updates(slots_drawn(f, o, ranges, n).commands, f.commands.len() as int),
    decreases n,
{
    lemma_slots_keep(f, o, ranges, n);
    if n > 0 {
        lemma_covered_slots(f, o, ranges, (n - 1) as nat);
        lemma_slots_keep(f, o, ranges, (n - 1) as nat);
        assert(f.materials.contains(slot_material(o.materials, ranges[n - 1].slot)));
    }
}

/// An object that the mirror covers is only updated.
proof fn lemma_covered_object(f: FrameView, o: DrawView)
    requires
        o.visible ==> match ranges_for(f.meshes, o.mesh) {
            Some(ranges) => covers(f, o, ranges),
            None => o.upload is None,
        },
    ensures
        object_drawn(f, o).meshes == f.meshes,
        object_drawn(f, o).materials == f.materials,
        object_drawn(f, o).known == f.known,
        only_updates(object_drawn(f, o).commands, f.commands.len() as int),
{
    if o.visible {
        let u = mesh_used(f, o);
        assert(u.meshes == f.meshes && u.commands == f.commands);
        if let Some(ranges) = ranges_for(f.meshes, o.mesh) {
            lemma_slots_keep(u, o, ranges, ranges.len());
            if ranges.len() > 0 {
                lemma_covered_slots(u, o, ranges, ranges.len());
            }
        }
    }
}

/// The first pass leaves a frame whose live parts cover what it drew.
proof fn lemma_first_pass(f: FrameView, objects: Seq<DrawView>, n: nat, i: int)
    requires
        0 <= i < n <= objects.len(),
        agree(objects),
        objects[i].visible,
    ensures
        ({
            let g = objects_drawn(f, objects, n);
            &&& g.live_meshes.contains(objects[i].mesh)
            &&& match ranges_for(g.meshes, objects[i].mesh) {
                Some(ranges) => if ranges.len() == 0 {
                    &&& g.live_materials.contains(slot_material(objects[i].materials, 0))
                    &&& g.live_objects.contains((objects[i].id, 0))
                } else {
                    forall|k: int|
                        0 <= k < ranges.len() ==> g.live_materials.contains(
                            slot_material(objects[i].materials, (#[trigger] ranges[k]).slot),
                        ) && g.live_objects.contains((objects[i].id, ranges[k].slot))
                },
                None => objects[i].upload is None,
            }
        }),
    decreases n,
{
    let before = objects_drawn(f, objects, (n - 1) as nat);
    let now = objects_drawn(f, objects, n);
    let o = objects[n - 1];
    lemma_object_keeps(before, o);
    if i < n - 1 {
        lemma_first_pass(f, objects, (n - 1) as nat, i);
        let key = objects[i].mesh;
        lemma_prefix_contains(before.live_meshes, now.live_meshes, key);
        match ranges_for(before.meshes, key) {
            Some(ranges) => {
                lemma_ranges_stay(before.meshes, now.meshes, key);
                if ranges.len() == 0 {
                    lemma_prefix_contains(
                        before.live_materials,
                        now.live_materials,
                        slot_material(objects[i].materials, 0),
                    );
                    lemma_prefix_contains(
                        before.live_objects,
                        now.live_objects,
                        (objects[i].id, 0u32),
                    );
                } else {
                    assert forall|k: int| 0 <= k < ranges.len() implies now.live_materials.contains(
                        slot_material(objects[i].materials, (#[trigger] ranges[k]).slot),
                    ) && now.live_objects.contains((objects[i].id, ranges[k].slot)) by {
                        lemma_prefix_contains(
                            before.live_materials,
                            now.live_materials,
                            slot_material(objects[i].materials, ranges[k].slot),
                        );
                        lemma_prefix_contains(
                            before.live_objects,
                            now.live_objects,
                            (objects[i].id, ranges[k].slot),
                        );
                    }
                }
            },
            None => {
                // the last object could only upload this key if it agreed
                assert(objects[i].upload is None);
                if o.visible && o.mesh == key {
                    assert(o.upload == objects[i].upload);
                }
                if now.meshes != before.meshes {
                    assert(now.meshes.drop_last() =~= before.meshes);
                    assert(now.meshes.last().0 == o.mesh);
                }
            },
        }
    } else {
        let u = mesh_used(before, o);
        assert(u.live_meshes[before.live_meshes.len() as int] == o.mesh);
        if ranges_for(before.meshes, o.mesh) is None && o.upload is Some {
            assert(u.meshes.drop_last() =~= before.meshes);
        }
        match ranges_for(u.meshes, o.mesh) {
            Some(ranges) => {
                lemma_slots_keep(u, o, ranges, ranges.len());
                if ranges.len() == 0 {
                    let h = slot_drawn(u, o, 0, None);
                    assert(h.live_materials[u.live_materials.len() as int] == slot_material(
                        o.materials,
                        0,
                    ));
                    assert(h.live_objects[u.live_objects.len() as int] == (o.id, 0u32));
                    assert(now.live_materials == h.live_materials);
                    assert(now.live_objects == h.live_objects);
                } else {
                    lemma_slots_live(u, o, ranges, ranges.len());
                }
                lemma_prefix_contains(u.live_meshes, now.live_meshes, o.mesh);
            },
            None => {},
        }
    }
}

proof fn lemma_prefix_contains<T>(a: Seq<T>, b: Seq<T>, x: T)
    requires
        a.is_prefix_of(b),
        a.contains(x),
    ensures
        b.contains(x),
{
    let k = choose|k: int| 0 <= k < a.len() && a[k] == x;
    assert(b[k] == x);
}

proof fn lemma_slots_live(f: FrameView, o: DrawView, ranges: Seq<SlotRange>, n: nat)
    requires
        n <= ranges.len(),
    ensures
        forall|k: int|
            0 <= k < n ==> slots_drawn(f, o, ranges, n).live_materials.contains(
                slot_material(o.materials, (#[trigger] ranges[k]).slot),
            ) && slots_drawn(f, o, ranges, n).live_objects.contains((o.id, ranges[k].slot)),
    decreases n,
{
    if n > 0 {
        let before = slots_drawn(f, o, ranges, (n - 1) as nat);
        let now = slots_drawn(f, o, ranges, n);
        lemma_slots_live(f, o, ranges, (n - 1) as nat);
        assert forall|k: int| 0 <= k < n implies now.live_materials.contains(
            slot_material(o.materials, (#[trigger] ranges[k]).slot),
        ) && now.live_objects.contains((o.id, ranges[k].slot)) by {
            if k < n - 1 {
                lemma_prefix_contains(
                    before.live_materials,
                    now.live_materials,
                    slot_material(o.materials, ranges[k].slot),
                );
                lemma_prefix_contains(
                    before.live_objects,
                    now.live_objects,
                    (o.id, ranges[k].slot),
                );
            } else {
                assert(now.live_materials[before.live_materials.len() as int] == slot_material(
                    o.materials,
                    ranges[k].slot,
                ));
                assert(now.live_objects[before.live_objects.len() as int] == (
                    o.id,
                    ranges[k].slot,
                ));
            }
        }
    }
}

proof fn lemma_kept_ranges(meshes: Seq<(u64, Seq<SlotRange>)>, live: Seq<u64>, key: u64)
    requires
        live.contains(key),
    ensures
        ranges_for(kept_meshes(meshes, live), key) == ranges_for(meshes, key),
    decreases meshes.len(),
{
    if meshes.len() > 0 {
        lemma_kept_ranges(meshes.drop_last(), live, key);
        let before = kept_meshes(meshes.drop_last(), live);
        if live.contains(meshes.last().0) {
            assert(before.push(meshes.last()).drop_last() =~= before);
        }
    }
}

proof fn lemma_kept_material(materials: Seq<u64>, live: Seq<u64>, key: u64)
    requires
        live.contains(key),
        materials.contains(key),
    ensures
        kept_materials(materials, live).contains(key),
    decreases materials.len(),
{
    let rest = materials.drop_last();
    let before = kept_materials(rest, live);
    let now = kept_materials(materials, live);
    if materials.last() == key {
        assert(now[before.len() as int] == key);
    } else {
        let k = choose|k: int| 0 <= k < materials.len() && materials[k] == key;
        assert(rest[k] == key);
        lemma_kept_material(rest, live, key);
        lemma_prefix_contains(before, now, key);
    }
}

/// Every live material is among the materials.
proof fn lemma_live_materials_known(f: FrameView, objects: Seq<DrawView>, n: nat)
    requires
        f.live_materials.len() == 0,
    ensures
        forall|k: int|
            0 <= k < objects_drawn(f, objects, n).live_materials.len() ==> objects_drawn(
                f,
                objects,
                n,
            ).materials.contains(#[trigger] objects_drawn(f, objects, n).live_materials[k]),
    decreases n,
{
    if n > 0 {
        let before = objects_drawn(f, objects, (n - 1) as nat);
        let o = objects[n - 1];
        lemma_live_materials_known(f, objects, (n - 1) as nat);
        if o.visible {
            let u = mesh_used(before, o);
            if let Some(ranges) = ranges_for(u.meshes, o.mesh) {
                if ranges.len() == 0 {
                    lemma_slot_material_known(u, o, 0, None);
                } else {
                    lemma_slots_materials_known(u, o, ranges, ranges.len());
                }
            }
        }
    }
}

proof fn lemma_slot_material_known(
    f: FrameView,
    o: DrawView,
    slot: u32,
    range: Option<SlotRange>,
)
    requires
        forall|k: int|
            0 <= k < f.live_materials.len() ==> f.materials.contains(
                #[trigger] f.live_materials[k],
            ),
    ensures
        ({
            let g = slot_drawn(f, o, slot, range);
            forall|k: int|
                0 <= k < g.live_materials.len() ==> g.materials.contains(
                    #[trigger] g.live_materials[k],
                )
        }),
{
    let g = slot_drawn(f, o, slot, range);
    let m = slot_material(o.materials, slot);
    assert forall|k: int| 0 <= k < g.live_materials.len() implies g.materials.contains(
        #[trigger] g.live_materials[k],
    ) by {
        if k < f.live_materials.len() {
            assert(g.live_materials[k] == f.live_materials[k]);
            lemma_prefix_contains(f.materials, g.materials, f.live_materials[k]);
        } else if !f.materials.contains(m) {
            assert(g.materials[f.materials.len() as int] == m);
        }
    }
}

proof fn lemma_slots_materials_known(f: FrameView, o: DrawView, ranges: Seq<SlotRange>, n: nat)
    requires
        forall|k: int|
            0 <= k < f.live_materials.len() ==> f.materials.contains(
                #[trigger] f.live_materials[k],
            ),
    ensures
        ({
            let g = slots_drawn(f, o, ranges, n);
            forall|k: int|
                0 <= k < g.live_materials.len() ==> g.materials.contains(
                    #[trigger] g.live_materials[k],
                )
        }),
    decreases n,
{
    if n > 0 {
        lemma_slots_materials_known(f, o, ranges, (n - 1) as nat);
        let before = slots_drawn(f, o, ranges, (n - 1) as nat);
        lemma_slot_material_known(before, o, ranges[n - 1].slot, Some(ranges[n - 1]));
    }
}

/// The second pass over the same objects only updates.
proof fn lemma_second_pass(v: RenderView, objects: Seq<DrawView>, n: nat)
    requires
        agree(objects),
        n <= objects.len(),
    ensures
        ({
            let f = objects_drawn(frame_start(v), objects, objects.len());
            let w = RenderView {
                meshes: kept_meshes(f.meshes, f.live_meshes),
                materials: kept_materials(f.materials, f.live_materials),
                objects: f.live_objects,
                gizmos: f.gizmos,
                outlined: f.outlined,
                visible: f.visible,
            };
            let g = objects_drawn(frame_start(w), objects, n);
            &&& g.meshes == w.meshes
            &&& g.materials == w.materials
            &&& g.known == w.objects
            &&& only_updates(g.commands, 0)
        }),
    decreases n,
{
    let f = objects_drawn(frame_start(v), objects, objects.len());
    let w = RenderView {
        meshes: kept_meshes(f.meshes, f.live_meshes),
        materials: kept_materials(f.materials, f.live_materials),
        objects: f.live_objects,
        gizmos: f.gizmos,
        outlined: f.outlined,
        visible: f.visible,
    };
    if n > 0 {
        lemma_second_pass(v, objects, (n - 1) as nat);
        let before = objects_drawn(frame_start(w), objects, (n - 1) as nat);
        let o = objects[n - 1];
        if o.visible {
            lemma_first_pass(frame_start(v), objects, objects.len(), n - 1);
            lemma_live_materials_known(frame_start(v), objects, objects.len());
            lemma_kept_ranges(f.meshes, f.live_meshes, o.mesh);
            if let Some(ranges) = ranges_for(before.meshes, o.mesh) {
                if ranges.len() == 0 {
                    let m = slot_material(o.materials, 0);
                    let k = choose|k: int|
                        0 <= k < f.live_materials.len() && f.live_materials[k] == m;
                    assert(f.materials.contains(f.live_materials[k]));
                    lemma_kept_material(f.materials, f.live_materials, m);
                } else {
                    assert forall|k: int| 0 <= k < ranges.len() implies before.materials.contains(
                        slot_material(o.materials, (#[trigger] ranges[k]).slot),
                    ) && before.known.contains((o.id, ranges[k].slot)) by {
                        let m = slot_material(o.materials, ranges[k].slot);
                        assert(f.live_materials.contains(m));
                        let j = choose|j: int|
                            0 <= j < f.live_materials.len() && f.live_materials[j] == m;
                        assert(f.materials.contains(f.live_materials[j]));
                        lemma_kept_material(f.materials, f.live_materials, m);
                    }
                }
            }
        }
        lemma_covered_object(before, o);
        lemma_object_keeps(before, o);
        let now = objects_drawn(frame_start(w), objects, n);
        assert forall|k: int| 0 <= k < now.commands.len() implies (#[trigger] now.commands[k])
            is Update by {
            if k < before.commands.len() {
                assert(now.commands[k] == before.commands[k]);
            }
        }
    }
}

/// Drawing the same objects again only updates them, before anything is
/// retired: an object that stays keeps its engine object, and with it the
/// placement it had a frame ago, and nothing is uploaded or added.
pub proof fn law_objects_that_stay_are_updated(
    v: RenderView,
    mode: ShadeMode,
    objects: Seq<DrawView>,
)
    requires
        mode != ShadeMode::Wireframe,
        agree(objects),
    ensures
        ({
            let w = synced(v, mode, objects).0;
            let g = objects_drawn(frame_start(w), objects, objects.len());
            forall|k: int| 0 <= k < g.commands.len() ==> (#[trigger] g.commands[k]) is Update
        }),
{
    lemma_second_pass(v, objects, objects.len());
}

/// What an engine object is told to draw.
pub open spec fn call_of(c: Command) -> Option<DrawCall> {
    match c {
        Command::Insert { draw } => Some(draw),
        Command::Update { draw } => Some(draw),
        _ => None,
    }
}

/// A mesh with these ranges is drawn in this slot.
pub open spec fn is_slot(ranges: Seq<SlotRange>, slot: u32) -> bool {
    if ranges.len() == 0 {
        slot == 0
    } else {
        exists|m: int| 0 <= m < ranges.len() && (#[trigger] ranges[m]).slot == slot
    }
}

/// The command draws this object in this slot, anew where it is not known.
spec fn draws(c: Command, o: DrawView, slot: u32, known: Seq<(ObjectId, u32)>) -> bool {
    &&& call_of(c) matches Some(d) && d.object == o.id && d.slot == slot && d.place == o.place
        && d.mesh == o.mesh
    &&& c is Insert <==> !known.contains((o.id, slot))
}

proof fn lemma_slots_call(f: FrameView, o: DrawView, ranges: Seq<SlotRange>, n: nat, k: int) -> (m:
    int)
    requires
        n <= ranges.len(),
        f.commands.len() <= k < slots_drawn(f, o, ranges, n).commands.len(),
    ensures
        !(slots_drawn(f, o, ranges, n).commands[k] is RemoveObject),
        call_of(slots_drawn(f, o, ranges, n).commands[k]) is Some ==> {
            &&& 0 <= m < n
            &&& draws(slots_drawn(f, o, ranges, n).commands[k], o, ranges[m].slot, f.known)
        },
    decreases n,
{
    let before = slots_drawn(f, o, ranges, (n - 1) as nat);
    lemma_slots_keep(f, o, ranges, (n - 1) as nat);
    if k < before.commands.len() {
        lemma_slots_call(f, o, ranges, (n - 1) as nat, k)
    } else {
        n - 1
    }
}

/// A command that one object adds draws it in one of its slots.
proof fn lemma_object_call(f: FrameView, o: DrawView, k: int)
    requires
        f.commands.len() <= k < object_drawn(f, o).commands.len(),
    ensures
        !(object_drawn(f, o).commands[k] is RemoveObject),
        call_of(object_drawn(f, o).commands[k]) matches Some(d) ==> {
            &&& o.visible
            &&& ranges_for(object_drawn(f, o).meshes, o.mesh) matches Some(ranges) && is_slot(
                ranges,
                d.slot,
            )
            &&& draws(object_drawn(f, o).commands[k], o, d.slot, f.known)
        },
{
    let u = mesh_used(f, o);
    lemma_object_keeps(f, o);
    if let Some(ranges) = ranges_for(u.meshes, o.mesh) {
        if ranges.len() > 0 && k >= u.commands.len() {
            let m = lemma_slots_call(u, o, ranges, ranges.len(), k);
            assert(call_of(object_drawn(f, o).commands[k]) is Some ==> is_slot(
                ranges,
                ranges[m].slot,
            ));
        } else if k < u.commands.len() {
            lemma_slots_keep(u, o, ranges, ranges.len());
            assert(object_drawn(f, o).commands[k] == u.commands[k]);
        }
    }
}

/// A command of a frame that draws something draws a visible object of it.
proof fn lemma_call_source(f: FrameView, objects: Seq<DrawView>, n: nat, k: int) -> (i: int)
    requires
        n <= objects.len(),
        f.commands.len() == 0,
        0 <= k < objects_drawn(f, objects, n).commands.len(),
    ensures
        !(objects_drawn(f, objects, n).commands[k] is RemoveObject),
        call_of(objects_drawn(f, objects, n).commands[k]) matches Some(d) ==> {
            &&& 0 <= i < n
            &&& objects[i].visible
            &&& ranges_for(objects_drawn(f, objects, n).meshes, objects[i].mesh) matches Some(
                ranges,
            ) && is_slot(ranges, d.slot)
            &&& draws(objects_drawn(f, objects, n).commands[k], objects[i], d.slot, f.known)
        },
    decreases n,
{
    let before = objects_drawn(f, objects, (n - 1) as nat);
    let now = objects_drawn(f, objects, n);
    let o = objects[n - 1];
    lemma_known_stays(f, objects, (n - 1) as nat);
    lemma_object_keeps(before, o);
    if k < before.commands.len() {
        let i = lemma_call_source(f, objects, (n - 1) as nat, k);
        assert(now.commands[k] == before.commands[k]);
        if call_of(now.commands[k]) is Some {
            lemma_ranges_stay(before.meshes, now.meshes, objects[i].mesh);
        }
        i
    } else {
        lemma_object_call(before, o, k);
        n - 1
    }
}

proof fn lemma_known_stays(f: FrameView, objects: Seq<DrawView>, n: nat)
    requires
        n <= objects.len(),
    ensures
        objects_drawn(f, objects, n).known == f.known,
        f.meshes.is_prefix_of(objects_drawn(f, objects, n).meshes),
    decreases n,
{
    if n > 0 {
        lemma_known_stays(f, objects, (n - 1) as nat);
        lemma_object_keeps(objects_drawn(f, objects, (n - 1) as nat), objects[n - 1]);
    }
}

proof fn lemma_slots_source(f: FrameView, o: DrawView, ranges: Seq<SlotRange>, n: nat, k: int)
    requires
        n <= ranges.len(),
        f.live_objects.len() <= k < slots_drawn(f, o, ranges, n).live_objects.len(),
    ensures
        slots_drawn(f, o, ranges, n).live_objects[k].0 == o.id,
        is_slot(ranges, slots_drawn(f, o, ranges, n).live_objects[k].1),
    decreases n,
{
    let before = slots_drawn(f, o, ranges, (n - 1) as nat);
    lemma_slots_keep(f, o, ranges, (n - 1) as nat);
    if k < before.live_objects.len() {
        lemma_slots_source(f, o, ranges, (n - 1) as nat, k);
    } else {
        assert(is_slot(ranges, ranges[n - 1].slot));
    }
}

/// An engine object that a frame keeps is a slot of a visible object of it.
proof fn lemma_live_source(f: FrameView, objects: Seq<DrawView>, n: nat, k: int) -> (i: int)
    requires
        n <= objects.len(),
        f.live_objects.len() == 0,
        0 <= k < objects_drawn(f, objects, n).live_objects.len(),
    ensures
        0 <= i < n,
        objects[i].visible,
        objects[i].id == objects_drawn(f, objects, n).live_objects[k].0,
        ranges_for(objects_drawn(f, objects, n).meshes, objects[i].mesh) matches Some(ranges)
            && is_slot(ranges, objects_drawn(f, objects, n).live_objects[k].1),
    decreases n,
{
    let before = objects_drawn(f, objects, (n - 1) as nat);
    let now = objects_drawn(f, objects, n);
    let o = objects[n - 1];
    lemma_object_keeps(before, o);
    if k < before.live_objects.len() {
        let i = lemma_live_source(f, objects, (n - 1) as nat, k);
        assert(now.live_objects[k] == before.live_objects[k]);
        lemma_ranges_stay(before.meshes, now.meshes, objects[i].mesh);
        i
    } else {
        let u = mesh_used(before, o);
        let ranges = ranges_for(u.meshes, o.mesh)->0;
        assert(now.live_objects[k].0 == o.id);
        if ranges.len() > 0 {
            lemma_slots_source(u, o, ranges, ranges.len(), k);
        }
        n - 1
    }
}

proof fn lemma_slots_called(
    f: FrameView,
    o: DrawView,
    ranges: Seq<SlotRange>,
    n: nat,
    k: int,
) -> (c: int)
    requires
        n <= ranges.len(),
        f.live_objects.len() <= k < slots_drawn(f, o, ranges, n).live_objects.len(),
    ensures
        f.commands.len() <= c < slots_drawn(f, o, ranges, n).commands.len(),
        slots_drawn(f, o, ranges, n).live_objects[k].0 == o.id,
        draws(
            slots_drawn(f, o, ranges, n).commands[c],
            o,
            slots_drawn(f, o, ranges, n).live_objects[k].1,
            f.known,
        ),
    decreases n,
{
    let before = slots_drawn(f, o, ranges, (n - 1) as nat);
    lemma_slots_keep(f, o, ranges, (n - 1) as nat);
    if k < before.live_objects.len() {
        lemma_slots_called(f, o, ranges, (n - 1) as nat, k)
    } else {
        slots_drawn(f, o, ranges, n).commands.len() - 1
    }
}

/// An engine object that a frame keeps is one that a command of it draws.
proof fn lemma_live_called(f: FrameView, objects: Seq<DrawView>, n: nat, k: int) -> (r: (int, int))
    requires
        n <= objects.len(),
        f.live_objects.len() == 0,
        0 <= k < objects_drawn(f, objects, n).live_objects.len(),
    ensures
        0 <= r.0 < n,
        objects[r.0].visible,
        objects[r.0].id == objects_drawn(f, objects, n).live_objects[k].0,
        0 <= r.1 < objects_drawn(f, objects, n).commands.len(),
        draws(
            objects_drawn(f, objects, n).commands[r.1],
            objects[r.0],
            objects_drawn(f, objects, n).live_objects[k].1,
            f.known,
        ),
    decreases n,
{
    let before = objects_drawn(f, objects, (n - 1) as nat);
    let now = objects_drawn(f, objects, n);
    let o = objects[n - 1];
    lemma_known_stays(f, objects, (n - 1) as nat);
    lemma_object_keeps(before, o);
    if k < before.live_objects.len() {
        let r = lemma_live_called(f, objects, (n - 1) as nat, k);
        assert(now.live_objects[k] == before.live_objects[k]);
        assert(now.commands[r.1] == before.commands[r.1]);
        r
    } else {
        let u = mesh_used(before, o);
        let ranges = ranges_for(u.meshes, o.mesh)->0;
        assert(now.live_objects[k].0 == o.id);
        if ranges.len() == 0 {
            (n - 1, now.commands.len() - 1)
        } else {
            (n - 1, lemma_slots_called(u, o, ranges, ranges.len(), k))
        }
    }
}

proof fn lemma_retired_sources(known: Seq<(ObjectId, u32)>, live: Seq<(ObjectId, u32)>)
    ensures
        forall|k: int|
            0 <= k < retired_objects(known, live).len() ==> {
                let c = #[trigger] retired_objects(known, live)[k];
                &&& c is RemoveObject
                &&& known.contains((c->RemoveObject_object, c->RemoveObject_slot))
                &&& !live.contains((c->RemoveObject_object, c->RemoveObject_slot))
            },
        forall|x: (ObjectId, u32)|
            known.contains(x) && !live.contains(x) ==> #[trigger] retired_objects(
                known,
                live,
            ).contains(Command::RemoveObject { object: x.0, slot: x.1 }),
    decreases known.len(),
{
    if known.len() > 0 {
        let rest = known.drop_last();
        lemma_retired_sources(rest, live);
        let before = retired_objects(rest, live);
        let now = retired_objects(known, live);
        assert(before.is_prefix_of(now));
        assert forall|k: int| 0 <= k < now.len() implies {
            let c = #[trigger] now[k];
            &&& c is RemoveObject
            &&& known.contains((c->RemoveObject_object, c->RemoveObject_slot))
            &&& !live.contains((c->RemoveObject_object, c->RemoveObject_slot))
        } by {
            if k < before.len() {
                assert(now[k] == before[k]);
                let x = (now[k]->RemoveObject_object, now[k]->RemoveObject_slot);
                let j = choose|j: int| 0 <= j < rest.len() && rest[j] == x;
                assert(known[j] == x);
            } else {
                assert(known[known.len() - 1] == known.last());
            }
        }
        assert forall|x: (ObjectId, u32)|
            known.contains(x) && !live.contains(x) implies #[trigger] now.contains(
            Command::RemoveObject { object: x.0, slot: x.1 },
        ) by {
            let c = Command::RemoveObject { object: x.0, slot: x.1 };
            let j = choose|j: int| 0 <= j < known.len() && known[j] == x;
            if j < rest.len() {
                assert(rest[j] == x);
                lemma_prefix_contains(before, now, c);
            } else {
                assert(now[before.len() as int] == c);
            }
        }
    }
}

/// Where a command of a frame comes from: the drawing of its objects, or the
/// removal of engine objects, meshes and materials.
proof fn lemma_command_parts(v: RenderView, mode: ShadeMode, objects: Seq<DrawView>, k: int)
    requires
        mode != ShadeMode::Wireframe,
        0 <= k < synced(v, mode, objects).1.len(),
    ensures
        ({
            let f = objects_drawn(frame_start(v), objects, objects.len());
            let a = retired_objects(v.objects, f.live_objects);
            let n = f.commands.len();
            let c = synced(v, mode, objects).1[k];
            &&& k < n ==> c == f.commands[k]
            &&& n <= k < n + a.len() ==> c == a[k - n]
            &&& n + a.len() <= k ==> c is RemoveMesh || c is RemoveMaterial
        }),
{
    let all = synced(v, mode, objects).1;
    let f = objects_drawn(frame_start(v), objects, objects.len());
    lemma_retired_meshes_are_removals(f.meshes, f.live_meshes);
    lemma_retired_materials_are_removals(f.materials, f.live_materials);
    let a = retired_objects(v.objects, f.live_objects);
    let b = retired_meshes(f.meshes, f.live_meshes);
    let c = retired_materials(f.materials, f.live_materials);
    let n = f.commands.len();
    if k < n {
    } else if k < n + a.len() {
        assert(all[k] == a[k - n]);
    } else if k < n + a.len() + b.len() {
        assert(all[k] == b[k - n - a.len()]);
    } else {
        assert(all[k] == c[k - n - a.len() - b.len()]);
    }
}

/// An engine object is made only where there is none, brought up to date only
/// where there is one, and dropped only where the frame no longer draws it.
pub proof fn law_commands_follow_what_is_held(
    v: RenderView,
    mode: ShadeMode,
    objects: Seq<DrawView>,
    k: int,
)
    requires
        0 <= k < synced(v, mode, objects).1.len(),
    ensures
        match synced(v, mode, objects).1[k] {
            Command::Insert { draw } => !v.objects.contains((draw.object, draw.slot)),
            Command::Update { draw } => v.objects.contains((draw.object, draw.slot)),
            Command::RemoveObject { object, slot } => v.objects.contains((object, slot)) && !synced(
                v,
                mode,
                objects,
            ).0.objects.contains((object, slot)),
            _ => true,
        },
{
    if mode == ShadeMode::Wireframe {
        lemma_retired_sources(v.objects, seq![]);
    } else {
        let f = objects_drawn(frame_start(v), objects, objects.len());
        lemma_command_parts(v, mode, objects, k);
        lemma_retired_sources(v.objects, f.live_objects);
        if k < f.commands.len() {
            let i = lemma_call_source(frame_start(v), objects, objects.len(), k);
        }
    }
}

/// An engine object that a frame no longer draws is dropped: what was hidden
/// or deleted leaves nothing behind.
pub proof fn law_what_leaves_is_dropped(
    v: RenderView,
    mode: ShadeMode,
    objects: Seq<DrawView>,
    id: ObjectId,
    slot: u32,
)
    requires
        v.objects.contains((id, slot)),
        !is_shown(objects, id) || !synced(v, mode, objects).0.objects.contains((id, slot)),
    ensures
        !synced(v, mode, objects).0.objects.contains((id, slot)),
        synced(v, mode, objects).1.contains(Command::RemoveObject { object: id, slot }),
{
    let w = synced(v, mode, objects).0;
    let all = synced(v, mode, objects).1;
    let c = Command::RemoveObject { object: id, slot };
    if w.objects.contains((id, slot)) {
        let k = choose|k: int| 0 <= k < w.objects.len() && w.objects[k] == (id, slot);
        law_mirror_holds_visible_objects_only(v, mode, objects, k);
    }
    lemma_retired_sources(v.objects, w.objects);
    let a = retired_objects(v.objects, w.objects);
    assert(a.contains(Command::RemoveObject { object: (id, slot).0, slot: (id, slot).1 }));
    let j = choose|j: int| 0 <= j < a.len() && a[j] == c;
    if mode != ShadeMode::Wireframe {
        let f = objects_drawn(frame_start(v), objects, objects.len());
        assert(all[f.commands.len() + j] == c);
    }
}

/// No two objects of a frame have the same id.
pub open spec fn draw_ids_distinct(objects: Seq<DrawView>) -> bool {
    forall|i: int, j: int|
        0 <= i < j < objects.len() ==> (#[trigger] objects[i]).id != (#[trigger] objects[j]).id
}

/// The command draws the engine object of `id` and `slot`, at this place.
pub open spec fn draws_at(c: Command, id: ObjectId, slot: u32, place: Transform) -> bool {
    call_of(c) matches Some(d) && d.object == id && d.slot == slot && d.place == place
}

/// What a frame does with an engine object that it keeps: it is drawn where
/// its object is, and nowhere else.
proof fn lemma_drawn_in_place(
    v: RenderView,
    mode: ShadeMode,
    objects: Seq<DrawView>,
    i: int,
    slot: u32,
)
    requires
        draw_ids_distinct(objects),
        0 <= i < objects.len(),
        synced(v, mode, objects).0.objects.contains((objects[i].id, slot)),
    ensures
        ({
            let told = synced(v, mode, objects).1;
            &&& exists|k: int|
                0 <= k < told.len() && #[trigger] draws_at(
                    told[k],
                    objects[i].id,
                    slot,
                    objects[i].place,
                )
            &&& forall|k: int|
                0 <= k < told.len() && (call_of(#[trigger] told[k]) matches Some(d) && d.object
                    == objects[i].id && d.slot == slot) ==> draws_at(
                    told[k],
                    objects[i].id,
                    slot,
                    objects[i].place,
                )
        }),
{
    let w = synced(v, mode, objects).0;
    let told = synced(v, mode, objects).1;
    let id = objects[i].id;
    let f = objects_drawn(frame_start(v), objects, objects.len());
    let k = choose|k: int| 0 <= k < w.objects.len() && w.objects[k] == (id, slot);
    let (a, c) = lemma_live_called(frame_start(v), objects, objects.len(), k);
    assert(a == i);
    assert(told[c] == f.commands[c]);
    assert(draws_at(told[c], id, slot, objects[i].place));
    assert forall|k: int|
        0 <= k < told.len() && (call_of(#[trigger] told[k]) matches Some(d) && d.object == id
            && d.slot == slot) implies draws_at(told[k], id, slot, objects[i].place) by {
        lemma_command_parts(v, mode, objects, k);
        lemma_retired_sources(v.objects, f.live_objects);
        assert(k < f.commands.len());
        let b = lemma_call_source(frame_start(v), objects, objects.len(), k);
        assert(b == i);
    }
}

/// An object that two frames in a row draw in the same slot keeps the engine
/// object of that slot, whatever else changed between them, its geometry
/// included: the second frame neither makes nor drops it. It is told in the
/// first frame where the object is then, and brought up to date in the second
/// with where it is now.
pub proof fn law_objects_that_stay_keep_their_engine_objects(
    v: RenderView,
    first_mode: ShadeMode,
    first: Seq<DrawView>,
    i: int,
    mode: ShadeMode,
    second: Seq<DrawView>,
    j: int,
    slot: u32,
)
    requires
        draw_ids_distinct(first),
        draw_ids_distinct(second),
        0 <= i < first.len(),
        0 <= j < second.len(),
        first[i].id == second[j].id,
        synced(v, first_mode, first).0.objects.contains((first[i].id, slot)),
        synced(synced(v, first_mode, first).0, mode, second).0.objects.contains(
            (first[i].id, slot),
        ),
    ensures
        ({
            let id = first[i].id;
            let w = synced(v, first_mode, first).0;
            let begun = synced(v, first_mode, first).1;
            let told = synced(w, mode, second).1;
            &&& exists|k: int|
                0 <= k < begun.len() && #[trigger] draws_at(begun[k], id, slot, first[i].place)
            &&& exists|k: int|
                0 <= k < told.len() && #[trigger] draws_at(told[k], id, slot, second[j].place)
            &&& forall|k: int|
                0 <= k < told.len() ==> match #[trigger] told[k] {
                    Command::Insert { draw } => draw.object != id || draw.slot != slot,
                    Command::Update { draw } => draw.object != id || draw.slot != slot
                        || draw.place == second[j].place,
                    Command::RemoveObject { object, slot: other } => object != id || other != slot,
                    _ => true,
                }
        }),
{
    let id = first[i].id;
    let w = synced(v, first_mode, first).0;
    let told = synced(w, mode, second).1;
    lemma_drawn_in_place(v, first_mode, first, i, slot);
    lemma_drawn_in_place(w, mode, second, j, slot);
    assert forall|k: int| 0 <= k < told.len() implies match #[trigger] told[k] {
        Command::Insert { draw } => draw.object != id || draw.slot != slot,
        Command::Update { draw } => draw.object != id || draw.slot != slot || draw.place
            == second[j].place,
        Command::RemoveObject { object, slot: other } => object != id || other != slot,
        _ => true,
    } by {
        law_commands_follow_what_is_held(w, mode, second, k);
    }
}

/// An object with triangles that two frames in a row show with the same
/// geometry is drawn in the same slots both times.
pub proof fn law_same_geometry_same_slots(
    v: RenderView,
    first_mode: ShadeMode,
    first: Seq<DrawView>,
    i: int,
    mode: ShadeMode,
    second: Seq<DrawView>,
    j: int,
    slot: u32,
)
    requires
        first_mode != ShadeMode::Wireframe,
        mode != ShadeMode::Wireframe,
        agree(first),
        agree(second),
        draw_ids_distinct(first),
        draw_ids_distinct(second),
        0 <= i < first.len(),
        0 <= j < second.len(),
        first[i].visible,
        second[j].visible,
        first[i].id == second[j].id,
        first[i].mesh == second[j].mesh,
        first[i].upload is Some,
    ensures
        synced(v, first_mode, first).0.objects.contains((first[i].id, slot)) <==> synced(
            synced(v, first_mode, first).0,
            mode,
            second,
        ).0.objects.contains((first[i].id, slot)),
{
    let id = first[i].id;
    let key = first[i].mesh;
    let f = objects_drawn(frame_start(v), first, first.len());
    let w = synced(v, first_mode, first).0;
    let g = objects_drawn(frame_start(w), second, second.len());
    lemma_first_pass(frame_start(v), first, first.len(), i);
    lemma_first_pass(frame_start(w), second, second.len(), j);
    lemma_kept_ranges(f.meshes, f.live_meshes, key);
    lemma_known_stays(frame_start(w), second, second.len());
    let ranges = ranges_for(w.meshes, key)->0;
    lemma_ranges_stay(w.meshes, g.meshes, key);
    if is_slot(ranges, slot) && ranges.len() > 0 {
        let m = choose|m: int| 0 <= m < ranges.len() && (#[trigger] ranges[m]).slot == slot;
        assert(f.live_objects.contains((first[i].id, ranges[m].slot)));
        assert(g.live_objects.contains((second[j].id, ranges[m].slot)));
    }
    if w.objects.contains((id, slot)) {
        let k = choose|k: int| 0 <= k < w.objects.len() && w.objects[k] == (id, slot);
        let a = lemma_live_source(frame_start(v), first, first.len(), k);
        assert(a == i);
    }
    if g.live_objects.contains((id, slot)) {
        let k = choose|k: int| 0 <= k < g.live_objects.len() && g.live_objects[k] == (id, slot);
        let a = lemma_live_source(frame_start(w), second, second.len(), k);
        assert(a == j);
    }
}

/// The ids of the visible objects with triangles among the first `n`.
pub open spec fn shown_ids(objects: Seq<DrawView>, n: nat) -> Seq<ObjectId>
    decreases n,
{
    if n == 0 {
        seq![]
    } else if objects[n - 1].visible && objects[n - 1].upload is Some {
        shown_ids(objects, (n - 1) as nat).push(objects[n - 1].id)
    } else {
        shown_ids(objects, (n - 1) as nat)
    }
}

/// A mesh of a frame was there before it, or some visible object has it.
proof fn lemma_mesh_source(f: FrameView, objects: Seq<DrawView>, n: nat, key: u64)
    requires
        n <= objects.len(),
        ranges_for(objects_drawn(f, objects, n).meshes, key) is Some,
        ranges_for(f.meshes, key) is None,
    ensures
        exists|i: int|
            0 <= i < n && (#[trigger] objects[i]).visible && objects[i].mesh == key
                && objects[i].upload is Some,
    decreases n,
{
    if n > 0 {
        let before = objects_drawn(f, objects, (n - 1) as nat);
        let o = objects[n - 1];
        lemma_object_keeps(before, o);
        if ranges_for(before.meshes, key) is Some {
            lemma_mesh_source(f, objects, (n - 1) as nat, key);
        } else {
            let u = mesh_used(before, o);
            if u.meshes != before.meshes {
                assert(u.meshes.drop_last() =~= before.meshes);
            }
            assert(objects[n - 1].visible && objects[n - 1].mesh == key);
        }
    }
}

proof fn lemma_shown(f: FrameView, objects: Seq<DrawView>, n: nat)
    requires
        n <= objects.len(),
        f.visible.len() == 0,
        agree(objects),
        forall|i: int|
            0 <= i < objects.len() && (#[trigger] objects[i]).visible && ranges_for(
                f.meshes,
                objects[i].mesh,
            ) is Some ==> objects[i].upload is Some,
    ensures
        objects_drawn(f, objects, n).visible == shown_ids(objects, n),
    decreases n,
{
    if n > 0 {
        let before = objects_drawn(f, objects, (n - 1) as nat);
        let o = objects[n - 1];
        lemma_shown(f, objects, (n - 1) as nat);
        if o.visible {
            let u = mesh_used(before, o);
            if o.upload is None {
                if ranges_for(before.meshes, o.mesh) is Some {
                    lemma_mesh_source(f, objects, (n - 1) as nat, o.mesh);
                }
            } else if ranges_for(before.meshes, o.mesh) is None {
                assert(u.meshes.drop_last() =~= before.meshes);
                assert(ranges_for(u.meshes, o.mesh) is Some);
            }
            if let Some(ranges) = ranges_for(u.meshes, o.mesh) {
                lemma_slots_keep(u, o, ranges, ranges.len());
            }
        }
    }
}

/// The objects that a frame shows are the visible ones whose geometry has
/// triangles, in the order of the document.
pub proof fn law_shown_in_document_order(v: RenderView, mode: ShadeMode, objects: Seq<DrawView>)
    requires
        mode != ShadeMode::Wireframe,
        agree(objects),
        forall|i: int|
            0 <= i < objects.len() && (#[trigger] objects[i]).visible && ranges_for(
                v.meshes,
                objects[i].mesh,
            ) is Some ==> objects[i].upload is Some,
    ensures
        synced(v, mode, objects).0.visible == shown_ids(objects, objects.len()),
{
    lemma_shown(frame_start(v), objects, objects.len());
}

} // verus!
