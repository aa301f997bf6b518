//! The physics mirror: which bodies stand for the scene's objects, and the
//! playing, pausing and stopping of a simulation.
//!
//! While editing, every visible object has one fixed body. The mirror
//! follows edits one by one: a body is moved where its object moved, and
//! rebuilt only where the shape of the object changed. The mirror says what
//! is to be done with the bodies; the caller owns the physics world and does
//! it.

use vstd::prelude::*;
use crate::modifiers::{stamp, stamp_words, world_at, world_of};
use crate::fingerprint::digest_of;
use crate::scalar::{identity, Quat, Scalar, Transform, Vec3};
use crate::scene::{
    lemma_place_of, place_of, primitives_equal, same_primitive, Modifier, Object, ObjectId,
    Primitive, Scene,
};
use crate::soft_bodies::{held, hold, MAX_CLOTH_SEGMENTS, MAX_ROPE_SEGMENTS, MIN_ROPE_SEGMENTS};

verus! {

#[derive(Clone, Copy, PartialEq, Eq, Structural, Debug)]
pub enum SimState {
    Stopped,
    Playing,
    Paused,
}

/// Everything that decides the collision shape of an object, and nothing
/// that only places it.
#[derive(Clone, Copy, Debug)]
pub struct ShapeKey {
    pub primitive: Primitive,
    pub mesh_revision: u64,
    pub edited: bool,
    pub cutouts: usize,
    pub floor_outline: usize,
    /// The scale in the world, which is part of the shape.
    pub scale: Vec3,
    pub density: Scalar,
    /// The fingerprint of the modifier stack, 0 where no entry is enabled.
    pub modifier_stamp: u64,
}

impl ShapeKey {
    /// The `==` of the keys: numbers are compared as numbers.
    pub open spec fn equal(self, other: ShapeKey) -> bool {
        &&& primitives_equal(self.primitive, other.primitive)
        &&& self.mesh_revision == other.mesh_revision
        &&& self.edited == other.edited
        &&& self.cutouts == other.cutouts
        &&& self.floor_outline == other.floor_outline
        &&& self.scale.equal(other.scale)
        &&& self.density.equal(other.density)
        &&& self.modifier_stamp == other.modifier_stamp
    }

    pub fn is_equal(&self, other: &ShapeKey) -> (r: bool)
        ensures
            r == self.equal(*other),
    {
        same_primitive(&self.primitive, &other.primitive) && self.mesh_revision
            == other.mesh_revision && self.edited == other.edited && self.cutouts == other.cutouts
            && self.floor_outline == other.floor_outline && self.scale.is_equal(other.scale)
            && self.density.is_equal(other.density) && self.modifier_stamp == other.modifier_stamp
    }
}

/// Some entry of the stack is enabled.
pub open spec fn any_enabled(stack: Seq<Modifier>) -> bool {
    exists|i: int| 0 <= i < stack.len() && (#[trigger] stack[i]).enabled
}

/// Is any entry of the stack enabled?
pub fn has_enabled(stack: &Vec<Modifier>) -> (r: bool)
    ensures
        r == any_enabled(stack@),
{
    let mut i: usize = 0;
    while i < stack.len()
        invariant
            i <= stack@.len(),
            forall|j: int| 0 <= j < i ==> !(#[trigger] stack@[j]).enabled,
        decreases stack@.len() - i,
    {
        if stack[i].enabled {
            assert(stack@[i as int].enabled);
            return true;
        }
        i += 1;
    }
    false
}

/// The shape key of object `i`. `worlds` places each object in the world.
pub open spec fn key_of(objects: Seq<Object>, worlds: Seq<Transform>, i: int) -> ShapeKey {
    let o = objects[i];
    ShapeKey {
        primitive: o.primitive,
        mesh_revision: o.mesh_revision,
        edited: o.edited_mesh is Some,
        cutouts: o.cutouts@.len() as usize,
        floor_outline: o.floor_outline@.len() as usize,
        scale: worlds[i].scale,
        density: o.density,
        modifier_stamp: if any_enabled(o.modifiers@) {
            digest_of(stamp_words(objects, worlds, o.id, seq![]))
        } else {
            0
        },
    }
}

fn shape_key(scene: &Scene, worlds: &Vec<Transform>, i: usize) -> (r: ShapeKey)
    requires
        i < scene.objects@.len(),
        worlds@.len() == scene.objects@.len(),
    ensures
        r == key_of(scene.objects@, worlds@, i as int),
{
    let o = &scene.objects[i];
    let modifier_stamp: u64 = if has_enabled(&o.modifiers) {
        stamp(scene, worlds, o.id)
    } else {
        0
    };
    ShapeKey {
        primitive: o.primitive,
        mesh_revision: o.mesh_revision,
        edited: o.edited_mesh.is_some(),
        cutouts: o.cutouts.len(),
        floor_outline: o.floor_outline.len(),
        scale: worlds[i].scale,
        density: o.density,
        modifier_stamp,
    }
}

/// The body that stands for an object, as it was last placed.
#[derive(Clone, Copy, Debug)]
pub struct BodyEntry {
    pub id: ObjectId,
    pub key: ShapeKey,
    pub location: Vec3,
    pub rotation: Quat,
    pub bounciness: Scalar,
}

/// What the caller is to do with the physics world, in order.
#[derive(Clone, Copy, PartialEq, Eq, Structural, Debug)]
pub enum Command {
    /// Destroy the body of an object that is gone, hidden or rebuilt.
    Destroy { id: ObjectId },
    /// Move the body of an object.
    Move { id: ObjectId, location: Vec3, rotation: Quat },
    /// Change how far things bounce off a body.
    Retune { id: ObjectId, bounciness: Scalar },
    /// Build the body of the object at `place`.
    Create { place: usize, id: ObjectId, dynamic: bool },
    /// Destroy every body.
    Clear,
    /// Destroy the world and make a new one with this many worker threads.
    Recreate { workers: u32 },
    /// Make the ground plane.
    Ground,
    /// Push a body that starts to move.
    Push { id: ObjectId, force: Vec3 },
    /// Build the bodies of the rope at `place`.
    CreateRope { place: usize, id: ObjectId },
    /// Build the bodies of the cloth at `place`.
    CreateCloth { place: usize, id: ObjectId },
}

/// The place of the body of `id`.
pub open spec fn entry_of(entries: Seq<BodyEntry>, id: ObjectId) -> Option<int>
    decreases entries.len(),
{
    if entries.len() == 0 {
        None
    } else if entry_of(entries.drop_last(), id) is Some {
        entry_of(entries.drop_last(), id)
    } else if entries.last().id == id {
        Some(entries.len() - 1)
    } else {
        None
    }
}

pub proof fn lemma_entry_of(entries: Seq<BodyEntry>, id: ObjectId)
    ensures
        entry_of(entries, id) matches Some(i) ==> {
            &&& 0 <= i < entries.len()
            &&& entries[i].id == id
            &&& forall|j: int| 0 <= j < i ==> (#[trigger] entries[j]).id != id
        },
        entry_of(entries, id) is None ==> forall|j: int|
            0 <= j < entries.len() ==> (#[trigger] entries[j]).id != id,
    decreases entries.len(),
{
    if entries.len() > 0 {
        let rest = entries.drop_last();
        lemma_entry_of(rest, id);
        assert forall|j: int| 0 <= j < rest.len() implies rest[j] == entries[j] by {}
        if entry_of(rest, id) is None {
            assert forall|j: int| 0 <= j < rest.len() implies (#[trigger] entries[j]).id != id by {
                assert(rest[j].id != id);
            }
        } else {
            let i = entry_of(rest, id)->0;
            assert forall|j: int| 0 <= j < i implies (#[trigger] entries[j]).id != id by {
                assert(rest[j].id != id);
            }
        }
    }
}

fn find_entry(entries: &Vec<BodyEntry>, id: ObjectId) -> (r: Option<usize>)
    ensures
        r matches Some(i) ==> entry_of(entries@, id) == Some(i as int) && i < entries@.len(),
        r is None ==> entry_of(entries@, id) is None,
{
    let mut i: usize = 0;
    while i < entries.len()
        invariant
            i <= entries@.len(),
            forall|j: int| 0 <= j < i ==> (#[trigger] entries@[j]).id != id,
        decreases entries@.len() - i,
    {
        if entries[i].id == id {
            proof {
                lemma_entry_of(entries@, id);
                let found = entry_of(entries@, id);
                if found is None {
                    assert(entries@[i as int].id != id);
                }
            }
            return Some(i);
        }
        i += 1;
    }
    proof {
        lemma_entry_of(entries@, id);
    }
    None
}

/// The object `id` is in the scene and visible.
pub open spec fn shown(objects: Seq<Object>, id: ObjectId) -> bool {
    place_of(objects, id) matches Some(i) && objects[i].visible
}

/// The bodies among the first `n` whose objects are still shown.
pub open spec fn kept(objects: Seq<Object>, entries: Seq<BodyEntry>, n: nat) -> Seq<BodyEntry>
    decreases n,
{
    if n == 0 {
        seq![]
    } else {
        let before = kept(objects, entries, (n - 1) as nat);
        if shown(objects, entries[n - 1].id) {
            before.push(entries[n - 1])
        } else {
            before
        }
    }
}

/// The orders to destroy the bodies among the first `n` whose objects are
/// not shown any more.
pub open spec fn dropped(objects: Seq<Object>, entries: Seq<BodyEntry>, n: nat) -> Seq<Command>
    decreases n,
{
    if n == 0 {
        seq![]
    } else {
        let before = dropped(objects, entries, (n - 1) as nat);
        if shown(objects, entries[n - 1].id) {
            before
        } else {
            before.push(Command::Destroy { id: entries[n - 1].id })
        }
    }
}

/// A new body for object `i`, where it stands.
pub open spec fn fresh(objects: Seq<Object>, worlds: Seq<Transform>, i: int) -> BodyEntry {
    BodyEntry {
        id: objects[i].id,
        key: key_of(objects, worlds, i),
        location: worlds[i].location,
        rotation: worlds[i].rotation,
        bounciness: objects[i].bounciness,
    }
}

/// The body stands where the object does.
pub open spec fn in_place(e: BodyEntry, world: Transform) -> bool {
    e.location.equal(world.location) && e.rotation.equal(world.rotation)
}

/// The body of an object whose shape is unchanged, moved and retuned.
pub open spec fn followed(e: BodyEntry, object: Object, world: Transform) -> BodyEntry {
    BodyEntry {
        id: e.id,
        key: e.key,
        location: if in_place(e, world) {
            e.location
        } else {
            world.location
        },
        rotation: if in_place(e, world) {
            e.rotation
        } else {
            world.rotation
        },
        bounciness: if e.bounciness.equal(object.bounciness) {
            e.bounciness
        } else {
            object.bounciness
        },
    }
}

/// The orders that move and retune the body of an object whose shape is
/// unchanged.
pub open spec fn follow_orders(e: BodyEntry, object: Object, world: Transform) -> Seq<Command> {
    let moves = if in_place(e, world) {
        seq![]
    } else {
        seq![
            Command::Move { id: object.id, location: world.location, rotation: world.rotation },
        ]
    };
    let tunes = if e.bounciness.equal(object.bounciness) {
        seq![]
    } else {
        seq![Command::Retune { id: object.id, bounciness: object.bounciness }]
    };
    moves + tunes
}

/// The bodies after object `i` has been brought up to date.
pub open spec fn entries_after(
    objects: Seq<Object>,
    worlds: Seq<Transform>,
    entries: Seq<BodyEntry>,
    i: int,
) -> Seq<BodyEntry> {
    if !objects[i].visible {
        entries
    } else {
        match entry_of(entries, objects[i].id) {
            Some(j) => if entries[j].key.equal(key_of(objects, worlds, i)) {
                entries.update(j, followed(entries[j], objects[i], worlds[i]))
            } else {
                entries.update(j, fresh(objects, worlds, i))
            },
            None => entries.push(fresh(objects, worlds, i)),
        }
    }
}

/// The orders that bring the body of object `i` up to date.
pub open spec fn orders_for(
    objects: Seq<Object>,
    worlds: Seq<Transform>,
    entries: Seq<BodyEntry>,
    i: int,
) -> Seq<Command> {
    let create = Command::Create { place: i as usize, id: objects[i].id, dynamic: false };
    if !objects[i].visible {
        seq![]
    } else {
        match entry_of(entries, objects[i].id) {
            Some(j) => if entries[j].key.equal(key_of(objects, worlds, i)) {
                follow_orders(entries[j], objects[i], worlds[i])
            } else {
                seq![Command::Destroy { id: objects[i].id }, create]
            },
            None => seq![create],
        }
    }
}

/// The bodies after the first `n` objects have been brought up to date.
pub open spec fn mirrored(
    objects: Seq<Object>,
    worlds: Seq<Transform>,
    entries: Seq<BodyEntry>,
    n: nat,
) -> Seq<BodyEntry>
    decreases n,
{
    if n == 0 {
        kept(objects, entries, entries.len())
    } else {
        entries_after(objects, worlds, mirrored(objects, worlds, entries, (n - 1) as nat), n - 1)
    }
}

/// The orders that bring the bodies of the first `n` objects up to date.
pub open spec fn mirror_orders(
    objects: Seq<Object>,
    worlds: Seq<Transform>,
    entries: Seq<BodyEntry>,
    n: nat,
) -> Seq<Command>
    decreases n,
{
    if n == 0 {
        dropped(objects, entries, entries.len())
    } else {
        mirror_orders(objects, worlds, entries, (n - 1) as nat) + orders_for(
            objects,
            worlds,
            mirrored(objects, worlds, entries, (n - 1) as nat),
            n - 1,
        )
    }
}

/// The mirror of a scene.
#[derive(Debug)]
pub struct PhysicsMirror {
    worker_count: u32,
    synced_version: Option<u64>,
    entries: Vec<BodyEntry>,
    ropes: Vec<ObjectId>,
    cloths: Vec<ObjectId>,
    /// The bodies that move, parents before children.
    sim_order: Vec<ObjectId>,
    sim: SimState,
    pub ground_plane: bool,
    snapshot: Vec<(ObjectId, Transform)>,
    rope_length_snapshot: Vec<(ObjectId, Scalar)>,
    substeps: u32,
}

/// The state of a mirror.
pub struct MirrorView {
    pub workers: u32,
    pub synced: Option<u64>,
    pub entries: Seq<BodyEntry>,
    pub ropes: Seq<ObjectId>,
    pub cloths: Seq<ObjectId>,
    pub sim_order: Seq<ObjectId>,
    pub sim: SimState,
    pub ground_plane: bool,
    pub snapshot: Seq<(ObjectId, Transform)>,
    pub rope_lengths: Seq<(ObjectId, Scalar)>,
    pub substeps: u32,
}

impl View for PhysicsMirror {
    type V = MirrorView;

    closed spec fn view(&self) -> MirrorView {
        MirrorView {
            workers: self.worker_count,
            synced: self.synced_version,
            entries: self.entries@,
            ropes: self.ropes@,
            cloths: self.cloths@,
            sim_order: self.sim_order@,
            sim: self.sim,
            ground_plane: self.ground_plane,
            snapshot: self.snapshot@,
            rope_lengths: self.rope_length_snapshot@,
            substeps: self.substeps,
        }
    }
}

/// Drops the bodies whose objects are not shown any more.
fn drop_unshown(scene: &Scene, entries: &Vec<BodyEntry>, orders: &mut Vec<Command>) -> (r: Vec<
    BodyEntry,
>)
    requires
        old(orders)@.len() == 0,
    ensures
        r@ == kept(scene.objects@, entries@, entries@.len()),
        final(orders)@ == dropped(scene.objects@, entries@, entries@.len()),
{
    let mut r: Vec<BodyEntry> = Vec::new();
    let mut i: usize = 0;
    assert(orders@ =~= seq![]);
    while i < entries.len()
        invariant
            i <= entries@.len(),
            r@ == kept(scene.objects@, entries@, i as nat),
            orders@ == dropped(scene.objects@, entries@, i as nat),
        decreases entries@.len() - i,
    {
        let e = entries[i];
        let keep = match scene.object(e.id) {
            Some(o) => o.visible,
            None => false,
        };
        assert(keep == shown(scene.objects@, e.id)) by {
            lemma_place_of(scene.objects@, e.id);
        }
        if keep {
            r.push(e);
        } else {
            orders.push(Command::Destroy { id: e.id });
        }
        i += 1;
    }
    r
}

/// Brings the body of object `i` up to date.
fn follow(
    scene: &Scene,
    worlds: &Vec<Transform>,
    i: usize,
    entries: &mut Vec<BodyEntry>,
    orders: &mut Vec<Command>,
)
    requires
        i < scene.objects@.len(),
        worlds@.len() == scene.objects@.len(),
    ensures
        final(entries)@ == entries_after(scene.objects@, worlds@, old(entries)@, i as int),
        final(orders)@ == old(orders)@ + orders_for(
            scene.objects@,
            worlds@,
            old(entries)@,
            i as int,
        ),
{
    let object = &scene.objects[i];
    if !object.visible {
        assert(orders@ =~= old(orders)@ + seq![]);
        return ;
    }
    let world = worlds[i];
    let key = shape_key(scene, worlds, i);
    let new = BodyEntry {
        id: object.id,
        key,
        location: world.location,
        rotation: world.rotation,
        bounciness: object.bounciness,
    };
    match find_entry(entries, object.id) {
        Some(j) => {
            let mut e = entries[j];
            if e.key.is_equal(&key) {
                if !e.location.is_equal(world.location) || !e.rotation.is_equal(world.rotation) {
                    orders.push(
                        Command::Move {
                            id: object.id,
                            location: world.location,
                            rotation: world.rotation,
                        },
                    );
                    e.location = world.location;
                    e.rotation = world.rotation;
                }
                if !e.bounciness.is_equal(object.bounciness) {
                    orders.push(Command::Retune { id: object.id, bounciness: object.bounciness });
                    e.bounciness = object.bounciness;
                }
                entries.set(j, e);
                assert(orders@ =~= old(orders)@ + follow_orders(
                    old(entries)@[j as int],
                    scene.objects@[i as int],
                    world,
                ));
            } else {
                orders.push(Command::Destroy { id: object.id });
                orders.push(Command::Create { place: i, id: object.id, dynamic: false });
                entries.set(j, new);
                assert(orders@ =~= old(orders)@ + orders_for(
                    scene.objects@,
                    worlds@,
                    old(entries)@,
                    i as int,
                ));
            }
        },
        None => {
            orders.push(Command::Create { place: i, id: object.id, dynamic: false });
            entries.push(new);
            assert(orders@ =~= old(orders)@ + orders_for(
                scene.objects@,
                worlds@,
                old(entries)@,
                i as int,
            ));
        },
    }
}

impl PhysicsMirror {
    /// The mirror of nothing, stopped, with the ground plane switched on.
    pub fn new() -> (r: PhysicsMirror)
        ensures
            r@ == (MirrorView {
                workers: 0,
                synced: None,
                entries: seq![],
                ropes: seq![],
                cloths: seq![],
                sim_order: seq![],
                sim: SimState::Stopped,
                ground_plane: true,
                snapshot: seq![],
                rope_lengths: seq![],
                substeps: SUBSTEPS,
            }),
    {
        let r = PhysicsMirror {
            worker_count: 0,
            synced_version: None,
            entries: Vec::new(),
            ropes: Vec::new(),
            cloths: Vec::new(),
            sim_order: Vec::new(),
            sim: SimState::Stopped,
            ground_plane: true,
            snapshot: Vec::new(),
            rope_length_snapshot: Vec::new(),
            substeps: SUBSTEPS,
        };
        assert(r@.entries =~= seq![]);
        assert(r@.ropes =~= seq![]);
        assert(r@.cloths =~= seq![]);
        assert(r@.sim_order =~= seq![]);
        assert(r@.snapshot =~= seq![]);
        assert(r@.rope_lengths =~= seq![]);
        r
    }

    pub fn sim_state(&self) -> (r: SimState)
        ensures
            r == self@.sim,
    {
        self.sim
    }

    pub fn is_stopped(&self) -> (r: bool)
        ensures
            r == (self@.sim is Stopped),
    {
        self.sim == SimState::Stopped
    }

    /// Brings the bodies up to date with version `version` of the scene, and
    /// returns the orders that do it in the physics world. `worlds` places
    /// each object in the world. Nothing is done during a simulation, nor
    /// for a version that was mirrored before.
    pub fn sync(&mut self, scene: &Scene, version: u64, worlds: &Vec<Transform>) -> (orders: Vec<
        Command,
    >)
        requires
            worlds@.len() == scene.objects@.len(),
        ensures
            old(self)@.sim !is Stopped || old(self)@.synced == Some(version) ==> final(self)@
                == old(self)@ && orders@ == Seq::<Command>::empty(),
            old(self)@.sim is Stopped && old(self)@.synced != Some(version) ==> {
                &&& final(self)@ == (MirrorView {
                    synced: Some(version),
                    entries: mirrored(
                        scene.objects@,
                        worlds@,
                        old(self)@.entries,
                        scene.objects@.len(),
                    ),
                    ..old(self)@
                })
                &&& orders@ == mirror_orders(
                    scene.objects@,
                    worlds@,
                    old(self)@.entries,
                    scene.objects@.len(),
                )
            },
    {
        let mut orders: Vec<Command> = Vec::new();
        if self.sim != SimState::Stopped {
            return orders;
        }
        if let Some(v) = self.synced_version {
            if v == version {
                return orders;
            }
        }
        self.synced_version = Some(version);
        let mut entries = drop_unshown(scene, &self.entries, &mut orders);
        let mut i: usize = 0;
        while i < scene.objects.len()
            invariant
                i <= scene.objects@.len(),
                worlds@.len() == scene.objects@.len(),
                entries@ == mirrored(scene.objects@, worlds@, old(self)@.entries, i as nat),
                orders@ == mirror_orders(scene.objects@, worlds@, old(self)@.entries, i as nat),
            decreases scene.objects@.len() - i,
        {
            follow(scene, worlds, i, &mut entries, &mut orders);
            i += 1;
        }
        self.entries = entries;
        orders
    }
}

/// Solver passes in a step of an ordinary simulation.
pub const SUBSTEPS: u32 = 4;

/// Solver passes in a step of a heavy simulation.
pub const SUBSTEPS_HEAVY: u32 = 2;

/// A simulation with more moving bodies than this is heavy.
pub const HEAVY_BODY_THRESHOLD: usize = 1000;

/// From this many moving bodies on, worker threads pay off.
pub const THREADED_BODY_THRESHOLD: usize = 500;

/// No more worker threads than this are used.
pub const MAX_WORKERS: u32 = 16;

/// No more steps than this are taken in one frame. What a frame asks for
/// beyond them is dropped, so that a slow scene runs in slow motion instead
/// of asking for ever more steps.
pub const MAX_STEPS_PER_FRAME: u32 = 2;

/// The number of moving bodies that an object brings into a simulation.
pub open spec fn bodies_of(o: Object) -> nat {
    if !o.visible || !(o.dynamic || o.primitive.rope() || o.primitive.cloth()) {
        0
    } else {
        match o.primitive {
            Primitive::Rope { segments, .. } => (held(
                segments,
                MIN_ROPE_SEGMENTS,
                MAX_ROPE_SEGMENTS,
            ) + 1) as nat,
            Primitive::Cloth { segments_u, segments_v, .. } => ((held(
                segments_u,
                1,
                MAX_CLOTH_SEGMENTS,
            ) + 1) * (held(segments_v, 1, MAX_CLOTH_SEGMENTS) + 1)) as nat,
            _ => 1,
        }
    }
}

/// The number of moving bodies that the first `n` objects bring in.
pub open spec fn body_count(objects: Seq<Object>, n: nat) -> nat
    decreases n,
{
    if n == 0 {
        0
    } else {
        body_count(objects, (n - 1) as nat) + bodies_of(objects[n - 1])
    }
}

fn bodies_in(o: &Object) -> (r: usize)
    ensures
        r == bodies_of(*o),
{
    if !o.visible || !(o.dynamic || o.primitive.is_soft_sim()) {
        return 0;
    }
    match o.primitive {
        Primitive::Rope { segments, .. } => hold(segments, MIN_ROPE_SEGMENTS, MAX_ROPE_SEGMENTS)
            as usize + 1,
        Primitive::Cloth { segments_u, segments_v, .. } => {
            let su: usize = hold(segments_u, 1, MAX_CLOTH_SEGMENTS) as usize + 1;
            let sv: usize = hold(segments_v, 1, MAX_CLOTH_SEGMENTS) as usize + 1;
            assert(su * sv <= 25 * 25) by (nonlinear_arith)
                requires
                    su <= 25,
                    sv <= 25,
            ;
            su * sv
        },
        _ => 1,
    }
}

/// The number of moving bodies, as far as it can be counted.
fn count_bodies(objects: &Vec<Object>) -> (r: usize)
    ensures
        r == body_count(objects@, objects@.len()) || (r == usize::MAX && body_count(
            objects@,
            objects@.len(),
        ) > usize::MAX),
{
    let mut total: usize = 0;
    let mut i: usize = 0;
    while i < objects.len()
        invariant
            i <= objects@.len(),
            total == body_count(objects@, i as nat) || (total == usize::MAX && body_count(
                objects@,
                i as nat,
            ) > usize::MAX),
        decreases objects@.len() - i,
    {
        let more = bodies_in(&objects[i]);
        if total > usize::MAX - more {
            total = usize::MAX;
        } else {
            total = total + more;
        }
        i += 1;
    }
    total
}

/// Worker threads for a simulation, on a machine with `threads` of them.
/// Small simulations are faster without.
pub open spec fn workers_for(bodies: nat, threads: u32) -> u32 {
    if bodies < THREADED_BODY_THRESHOLD {
        0
    } else if threads < MAX_WORKERS {
        threads
    } else {
        MAX_WORKERS
    }
}

/// Worker threads for a simulation with `dynamic_bodies` moving bodies, on a
/// machine with `threads` of them.
pub fn desired_worker_count(dynamic_bodies: usize, threads: u32) -> (r: u32)
    ensures
        r == workers_for(dynamic_bodies as nat, threads),
{
    if dynamic_bodies < THREADED_BODY_THRESHOLD {
        0
    } else if threads < MAX_WORKERS {
        threads
    } else {
        MAX_WORKERS
    }
}

/// The object collides in a simulation, as one body.
pub open spec fn solid(o: Object) -> bool {
    o.visible && !o.primitive.gizmo() && !o.primitive.rope() && !o.primitive.cloth()
}

fn is_solid(o: &Object) -> (r: bool)
    ensures
        r == solid(*o),
{
    o.visible && !o.primitive.is_gizmo() && !o.primitive.is_soft_sim()
}

/// The bodies of the solid objects among the first `n`.
pub open spec fn solid_entries(objects: Seq<Object>, worlds: Seq<Transform>, n: nat) -> Seq<
    BodyEntry,
>
    decreases n,
{
    if n == 0 {
        seq![]
    } else {
        let before = solid_entries(objects, worlds, (n - 1) as nat);
        if solid(objects[n - 1]) {
            before.push(fresh(objects, worlds, n - 1))
        } else {
            before
        }
    }
}

/// The orders that build the solid objects among the first `n`, and push
/// those that move.
pub open spec fn solid_orders(objects: Seq<Object>, n: nat) -> Seq<Command>
    decreases n,
{
    if n == 0 {
        seq![]
    } else {
        let before = solid_orders(objects, (n - 1) as nat);
        let o = objects[n - 1];
        if !solid(o) {
            before
        } else if o.dynamic {
            before.push(
                Command::Create { place: (n - 1) as usize, id: o.id, dynamic: true },
            ).push(Command::Push { id: o.id, force: o.initial_force })
        } else {
            before.push(Command::Create { place: (n - 1) as usize, id: o.id, dynamic: false })
        }
    }
}

/// The visible ropes among the first `n` objects.
pub open spec fn ropes_in(objects: Seq<Object>, n: nat) -> Seq<ObjectId>
    decreases n,
{
    if n == 0 {
        seq![]
    } else {
        let before = ropes_in(objects, (n - 1) as nat);
        if objects[n - 1].visible && objects[n - 1].primitive.rope() {
            before.push(objects[n - 1].id)
        } else {
            before
        }
    }
}

pub open spec fn rope_orders(objects: Seq<Object>, n: nat) -> Seq<Command>
    decreases n,
{
    if n == 0 {
        seq![]
    } else {
        let before = rope_orders(objects, (n - 1) as nat);
        if objects[n - 1].visible && objects[n - 1].primitive.rope() {
            before.push(Command::CreateRope { place: (n - 1) as usize, id: objects[n - 1].id })
        } else {
            before
        }
    }
}

/// The visible cloths among the first `n` objects.
pub open spec fn cloths_in(objects: Seq<Object>, n: nat) -> Seq<ObjectId>
    decreases n,
{
    if n == 0 {
        seq![]
    } else {
        let before = cloths_in(objects, (n - 1) as nat);
        if objects[n - 1].visible && objects[n - 1].primitive.cloth() {
            before.push(objects[n - 1].id)
        } else {
            before
        }
    }
}

pub open spec fn cloth_orders(objects: Seq<Object>, n: nat) -> Seq<Command>
    decreases n,
{
    if n == 0 {
        seq![]
    } else {
        let before = cloth_orders(objects, (n - 1) as nat);
        if objects[n - 1].visible && objects[n - 1].primitive.cloth() {
            before.push(Command::CreateCloth { place: (n - 1) as usize, id: objects[n - 1].id })
        } else {
            before
        }
    }
}

/// The moving solids at depth `d` among the first `n` objects. `depths`
/// counts the ancestors of each object.
pub open spec fn movers_at(objects: Seq<Object>, depths: Seq<usize>, d: int, n: nat) -> Seq<
    ObjectId,
>
    decreases n,
{
    if n == 0 {
        seq![]
    } else {
        let before = movers_at(objects, depths, d, (n - 1) as nat);
        if solid(objects[n - 1]) && objects[n - 1].dynamic && depths[n - 1] == d {
            before.push(objects[n - 1].id)
        } else {
            before
        }
    }
}

/// The moving solids at depths below `limit`, the least depth first.
pub open spec fn movers_below(objects: Seq<Object>, depths: Seq<usize>, limit: nat) -> Seq<ObjectId>
    decreases limit,
{
    if limit == 0 {
        seq![]
    } else {
        movers_below(objects, depths, (limit - 1) as nat) + movers_at(
            objects,
            depths,
            limit - 1,
            objects.len(),
        )
    }
}

/// The largest of the first `n` depths.
pub open spec fn deepest(depths: Seq<usize>, n: nat) -> nat
    decreases n,
{
    if n == 0 {
        0
    } else if depths[n - 1] > deepest(depths, (n - 1) as nat) {
        depths[n - 1] as nat
    } else {
        deepest(depths, (n - 1) as nat)
    }
}

/// The moving solids, parents before children.
pub open spec fn move_order(objects: Seq<Object>, depths: Seq<usize>) -> Seq<ObjectId> {
    movers_below(objects, depths, deepest(depths, depths.len()) + 1)
}

fn push_movers(objects: &Vec<Object>, depths: &Vec<usize>, d: usize, out: &mut Vec<ObjectId>)
    requires
        depths@.len() == objects@.len(),
    ensures
        final(out)@ == old(out)@ + movers_at(objects@, depths@, d as int, objects@.len()),
{
    let mut i: usize = 0;
    assert(out@ =~= old(out)@ + movers_at(objects@, depths@, d as int, 0));
    while i < objects.len()
        invariant
            i <= objects@.len(),
            depths@.len() == objects@.len(),
            out@ == old(out)@ + movers_at(objects@, depths@, d as int, i as nat),
        decreases objects@.len() - i,
    {
        if is_solid(&objects[i]) && objects[i].dynamic && depths[i] == d {
            out.push(objects[i].id);
        }
        i += 1;
        assert(out@ =~= old(out)@ + movers_at(objects@, depths@, d as int, i as nat));
    }
}

fn order_movers(objects: &Vec<Object>, depths: &Vec<usize>) -> (r: Vec<ObjectId>)
    requires
        depths@.len() == objects@.len(),
    ensures
        r@ == move_order(objects@, depths@),
{
    let mut most: usize = 0;
    let mut i: usize = 0;
    while i < depths.len()
        invariant
            i <= depths@.len(),
            most == deepest(depths@, i as nat),
        decreases depths@.len() - i,
    {
        if depths[i] > most {
            most = depths[i];
        }
        i += 1;
    }
    let mut r: Vec<ObjectId> = Vec::new();
    let mut d: usize = 0;
    while d < most
        invariant
            d <= most,
            depths@.len() == objects@.len(),
            r@ == movers_below(objects@, depths@, d as nat),
        decreases most - d,
    {
        push_movers(objects, depths, d, &mut r);
        d += 1;
    }
    push_movers(objects, depths, d, &mut r);
    r
}

/// The placements of the first `n` objects.
pub open spec fn placements(objects: Seq<Object>, n: nat) -> Seq<(ObjectId, Transform)>
    decreases n,
{
    if n == 0 {
        seq![]
    } else {
        placements(objects, (n - 1) as nat).push((objects[n - 1].id, objects[n - 1].transform))
    }
}

/// The lengths of the ropes among the first `n` objects.
pub open spec fn rope_lengths(objects: Seq<Object>, n: nat) -> Seq<(ObjectId, Scalar)>
    decreases n,
{
    if n == 0 {
        seq![]
    } else {
        let before = rope_lengths(objects, (n - 1) as nat);
        match objects[n - 1].primitive {
            Primitive::Rope { length, .. } => before.push((objects[n - 1].id, length)),
            _ => before,
        }
    }
}

fn take_placements(objects: &Vec<Object>) -> (r: Vec<(ObjectId, Transform)>)
    ensures
        r@ == placements(objects@, objects@.len()),
{
    let mut r: Vec<(ObjectId, Transform)> = Vec::new();
    let mut i: usize = 0;
    while i < objects.len()
        invariant
            i <= objects@.len(),
            r@ == placements(objects@, i as nat),
        decreases objects@.len() - i,
    {
        r.push((objects[i].id, objects[i].transform));
        i += 1;
    }
    r
}

fn take_rope_lengths(objects: &Vec<Object>) -> (r: Vec<(ObjectId, Scalar)>)
    ensures
        r@ == rope_lengths(objects@, objects@.len()),
{
    let mut r: Vec<(ObjectId, Scalar)> = Vec::new();
    let mut i: usize = 0;
    while i < objects.len()
        invariant
            i <= objects@.len(),
            r@ == rope_lengths(objects@, i as nat),
        decreases objects@.len() - i,
    {
        match objects[i].primitive {
            Primitive::Rope { length, .. } => r.push((objects[i].id, length)),
            _ => {},
        }
        i += 1;
    }
    r
}

/// The orders that empty the world, and give it `want` worker threads where
/// it has `have`.
pub open spec fn empty_orders(have: u32, want: u32) -> Seq<Command> {
    if want != have {
        seq![Command::Recreate { workers: want }]
    } else {
        seq![Command::Clear]
    }
}

/// The orders that build the world of a simulation.
pub open spec fn start_orders(objects: Seq<Object>, have: u32, want: u32, ground: bool) -> Seq<
    Command,
> {
    empty_orders(have, want) + (if ground {
        seq![Command::Ground]
    } else {
        seq![]
    }) + solid_orders(objects, objects.len()) + rope_orders(objects, objects.len()) + cloth_orders(
        objects,
        objects.len(),
    )
}

fn build_solids(
    scene: &Scene,
    worlds: &Vec<Transform>,
    orders: &mut Vec<Command>,
) -> (r: Vec<BodyEntry>)
    requires
        worlds@.len() == scene.objects@.len(),
    ensures
        r@ == solid_entries(scene.objects@, worlds@, scene.objects@.len()),
        final(orders)@ == old(orders)@ + solid_orders(scene.objects@, scene.objects@.len()),
{
    let mut r: Vec<BodyEntry> = Vec::new();
    let mut i: usize = 0;
    assert(orders@ =~= old(orders)@ + solid_orders(scene.objects@, 0));
    while i < scene.objects.len()
        invariant
            i <= scene.objects@.len(),
            worlds@.len() == scene.objects@.len(),
            r@ == solid_entries(scene.objects@, worlds@, i as nat),
            orders@ == old(orders)@ + solid_orders(scene.objects@, i as nat),
        decreases scene.objects@.len() - i,
    {
        let o = &scene.objects[i];
        if is_solid(o) {
            let key = shape_key(scene, worlds, i);
            r.push(
                BodyEntry {
                    id: o.id,
                    key,
                    location: worlds[i].location,
                    rotation: worlds[i].rotation,
                    bounciness: o.bounciness,
                },
            );
            orders.push(Command::Create { place: i, id: o.id, dynamic: o.dynamic });
            if o.dynamic {
                orders.push(Command::Push { id: o.id, force: o.initial_force });
            }
        }
        i += 1;
        assert(orders@ =~= old(orders)@ + solid_orders(scene.objects@, i as nat));
    }
    r
}

fn build_ropes(objects: &Vec<Object>, orders: &mut Vec<Command>) -> (r: Vec<ObjectId>)
    ensures
        r@ == ropes_in(objects@, objects@.len()),
        final(orders)@ == old(orders)@ + rope_orders(objects@, objects@.len()),
{
    let mut r: Vec<ObjectId> = Vec::new();
    let mut i: usize = 0;
    assert(orders@ =~= old(orders)@ + rope_orders(objects@, 0));
    while i < objects.len()
        invariant
            i <= objects@.len(),
            r@ == ropes_in(objects@, i as nat),
            orders@ == old(orders)@ + rope_orders(objects@, i as nat),
        decreases objects@.len() - i,
    {
        if objects[i].visible && objects[i].primitive.is_rope() {
            r.push(objects[i].id);
            orders.push(Command::CreateRope { place: i, id: objects[i].id });
        }
        i += 1;
        assert(orders@ =~= old(orders)@ + rope_orders(objects@, i as nat));
    }
    r
}

fn build_cloths(objects: &Vec<Object>, orders: &mut Vec<Command>) -> (r: Vec<ObjectId>)
    ensures
        r@ == cloths_in(objects@, objects@.len()),
        final(orders)@ == old(orders)@ + cloth_orders(objects@, objects@.len()),
{
    let mut r: Vec<ObjectId> = Vec::new();
    let mut i: usize = 0;
    assert(orders@ =~= old(orders)@ + cloth_orders(objects@, 0));
    while i < objects.len()
        invariant
            i <= objects@.len(),
            r@ == cloths_in(objects@, i as nat),
            orders@ == old(orders)@ + cloth_orders(objects@, i as nat),
        decreases objects@.len() - i,
    {
        if objects[i].visible && objects[i].primitive.is_cloth() {
            r.push(objects[i].id);
            orders.push(Command::CreateCloth { place: i, id: objects[i].id });
        }
        i += 1;
        assert(orders@ =~= old(orders)@ + cloth_orders(objects@, i as nat));
    }
    r
}

/// The state of a simulation that has just started.
pub open spec fn started(
    v: MirrorView,
    objects: Seq<Object>,
    worlds: Seq<Transform>,
    depths: Seq<usize>,
    threads: u32,
) -> MirrorView {
    let bodies = body_count(objects, objects.len());
    MirrorView {
        workers: workers_for(bodies, threads),
        synced: None,
        entries: solid_entries(objects, worlds, objects.len()),
        ropes: ropes_in(objects, objects.len()),
        cloths: cloths_in(objects, objects.len()),
        sim_order: move_order(objects, depths),
        sim: SimState::Playing,
        ground_plane: v.ground_plane,
        snapshot: placements(objects, objects.len()),
        rope_lengths: rope_lengths(objects, objects.len()),
        substeps: if bodies > HEAVY_BODY_THRESHOLD {
            SUBSTEPS_HEAVY
        } else {
            SUBSTEPS
        },
    }
}

/// What a frame does: how many steps it takes, and whether it asked for
/// more.
#[derive(Clone, Copy, PartialEq, Eq, Structural, Debug)]
pub struct FrameSteps {
    pub steps: u32,
    pub dropped: bool,
}

impl PhysicsMirror {
    /// Starts a simulation, or goes on with a paused one. `depths` counts
    /// the ancestors of each object, `threads` those of the machine.
    pub fn play(
        &mut self,
        scene: &Scene,
        worlds: &Vec<Transform>,
        depths: &Vec<usize>,
        threads: u32,
    ) -> (orders: Vec<Command>)
        requires
            worlds@.len() == scene.objects@.len(),
            depths@.len() == scene.objects@.len(),
        ensures
            old(self)@.sim !is Stopped ==> final(self)@ == (MirrorView {
                sim: SimState::Playing,
                ..old(self)@
            }) && orders@ == Seq::<Command>::empty(),
            old(self)@.sim is Stopped ==> {
                &&& final(self)@ == started(
                    old(self)@,
                    scene.objects@,
                    worlds@,
                    depths@,
                    threads,
                )
                &&& orders@ == start_orders(
                    scene.objects@,
                    old(self)@.workers,
                    final(self)@.workers,
                    old(self)@.ground_plane,
                )
            },
    {
        let mut orders: Vec<Command> = Vec::new();
        if self.sim != SimState::Stopped {
            self.sim = SimState::Playing;
            return orders;
        }
        self.snapshot = take_placements(&scene.objects);
        self.rope_length_snapshot = take_rope_lengths(&scene.objects);
        self.sim = SimState::Playing;
        let bodies = count_bodies(&scene.objects);
        self.substeps = if bodies > HEAVY_BODY_THRESHOLD {
            SUBSTEPS_HEAVY
        } else {
            SUBSTEPS
        };
        let want = desired_worker_count(bodies, threads);
        if want != self.worker_count {
            orders.push(Command::Recreate { workers: want });
        } else {
            orders.push(Command::Clear);
        }
        self.worker_count = want;
        self.synced_version = None;
        if self.ground_plane {
            orders.push(Command::Ground);
        }
        self.entries = build_solids(scene, worlds, &mut orders);
        self.ropes = build_ropes(&scene.objects, &mut orders);
        self.cloths = build_cloths(&scene.objects, &mut orders);
        self.sim_order = order_movers(&scene.objects, depths);
        assert(orders@ =~= start_orders(
            scene.objects@,
            old(self)@.workers,
            want,
            old(self)@.ground_plane,
        ));
        orders
    }

    /// Pauses a simulation that is playing.
    pub fn pause(&mut self)
        ensures
            final(self)@ == (MirrorView {
                sim: if old(self)@.sim is Playing {
                    SimState::Paused
                } else {
                    old(self)@.sim
                },
                ..old(self)@
            }),
    {
        if self.sim == SimState::Playing {
            self.sim = SimState::Paused;
        }
    }

    /// How many steps a frame takes that asks for `wanted`.
    pub fn update(&self, wanted: u32) -> (r: FrameSteps)
        ensures
            self@.sim !is Playing ==> r == (FrameSteps { steps: 0, dropped: false }),
            self@.sim is Playing ==> r.steps == (if wanted < MAX_STEPS_PER_FRAME {
                wanted
            } else {
                MAX_STEPS_PER_FRAME
            }) && r.dropped == (wanted > MAX_STEPS_PER_FRAME),
    {
        if self.sim != SimState::Playing {
            return FrameSteps { steps: 0, dropped: false };
        }
        let steps: u32 = if wanted < MAX_STEPS_PER_FRAME {
            wanted
        } else {
            MAX_STEPS_PER_FRAME
        };
        FrameSteps { steps, dropped: wanted > steps }
    }

    /// Solver passes in a step of this simulation.
    pub fn substeps(&self) -> (r: u32)
        ensures
            r == self@.substeps,
    {
        self.substeps
    }

    /// The bodies that move, parents before children.
    pub fn moving(&self) -> (r: &Vec<ObjectId>)
        ensures
            r@ == self@.sim_order,
    {
        &self.sim_order
    }

    /// The objects that have a body of their own.
    pub fn bodies(&self) -> (r: Vec<ObjectId>)
        ensures
            r@ == Seq::new(self@.entries.len(), |i: int| self@.entries[i].id),
    {
        let mut r: Vec<ObjectId> = Vec::new();
        let mut i: usize = 0;
        while i < self.entries.len()
            invariant
                i <= self.entries@.len(),
                r@ == Seq::new(i as nat, |j: int| self.entries@[j].id),
            decreases self.entries@.len() - i,
        {
            r.push(self.entries[i].id);
            i += 1;
            assert(r@ =~= Seq::new(i as nat, |j: int| self.entries@[j].id));
        }
        r
    }
}

/// The objects with the first `n` placements of a snapshot put back.
pub open spec fn placed_back(
    objects: Seq<Object>,
    snapshot: Seq<(ObjectId, Transform)>,
    n: nat,
) -> Seq<Object>
    decreases n,
{
    if n == 0 {
        objects
    } else {
        let before = placed_back(objects, snapshot, (n - 1) as nat);
        match place_of(before, snapshot[n - 1].0) {
            Some(i) => before.update(i, Object { transform: snapshot[n - 1].1, ..before[i] }),
            None => before,
        }
    }
}

/// A rope with another length; anything else as it is.
pub open spec fn with_length(p: Primitive, length: Scalar) -> Primitive {
    match p {
        Primitive::Rope { radius, segments, .. } => Primitive::Rope { length, radius, segments },
        _ => p,
    }
}

/// The objects with the first `n` rope lengths of a snapshot put back.
pub open spec fn lengths_back(
    objects: Seq<Object>,
    lengths: Seq<(ObjectId, Scalar)>,
    n: nat,
) -> Seq<Object>
    decreases n,
{
    if n == 0 {
        objects
    } else {
        let before = lengths_back(objects, lengths, (n - 1) as nat);
        match place_of(before, lengths[n - 1].0) {
            Some(i) => before.update(
                i,
                Object {
                    primitive: with_length(before[i].primitive, lengths[n - 1].1),
                    ..before[i]
                },
            ),
            None => before,
        }
    }
}

/// A soft body without the shape that it was draped into. Its mesh counts as
/// changed where it had one.
pub open spec fn undraped(o: Object) -> Object {
    if (o.primitive.rope() || o.primitive.cloth()) && (o.rope_nodes is Some || o.cloth_nodes
        is Some) {
        Object {
            rope_nodes: None,
            cloth_nodes: None,
            mesh_revision: o.mesh_revision.wrapping_add(1),
            ..o
        }
    } else {
        o
    }
}

/// The first `n` objects without their draped shapes.
pub open spec fn all_undraped(objects: Seq<Object>, n: nat) -> Seq<Object>
    decreases n,
{
    if n == 0 {
        objects
    } else {
        let before = all_undraped(objects, (n - 1) as nat);
        before.update(n - 1, undraped(before[n - 1]))
    }
}

/// The objects after a simulation with these snapshots was stopped.
pub open spec fn stopped_objects(
    objects: Seq<Object>,
    snapshot: Seq<(ObjectId, Transform)>,
    lengths: Seq<(ObjectId, Scalar)>,
) -> Seq<Object> {
    let placed = placed_back(objects, snapshot, snapshot.len());
    let long = lengths_back(placed, lengths, lengths.len());
    all_undraped(long, long.len())
}

fn put_back(scene: &mut Scene, snapshot: &Vec<(ObjectId, Transform)>)
    ensures
        final(scene).objects@ == placed_back(old(scene).objects@, snapshot@, snapshot@.len()),
        final(scene).folders == old(scene).folders,
        final(scene).next_id == old(scene).next_id,
{
    let mut n: usize = 0;
    while n < snapshot.len()
        invariant
            n <= snapshot@.len(),
            scene.objects@ == placed_back(old(scene).objects@, snapshot@, n as nat),
            scene.folders == old(scene).folders,
            scene.next_id == old(scene).next_id,
        decreases snapshot@.len() - n,
    {
        let (id, transform) = snapshot[n];
        match scene.find(id) {
            Some(i) => {
                scene.objects[i].transform = transform;
            },
            None => {},
        }
        n += 1;
        assert(scene.objects@ =~= placed_back(old(scene).objects@, snapshot@, n as nat));
    }
}

fn lengthen(p: &Primitive, to: Scalar) -> (r: Primitive)
    ensures
        r == with_length(*p, to),
{
    match *p {
        Primitive::Rope { radius, segments, .. } => Primitive::Rope { length: to, radius, segments },
        _ => *p,
    }
}

fn put_lengths_back(scene: &mut Scene, lengths: &Vec<(ObjectId, Scalar)>)
    ensures
        final(scene).objects@ == lengths_back(old(scene).objects@, lengths@, lengths@.len()),
        final(scene).folders == old(scene).folders,
        final(scene).next_id == old(scene).next_id,
{
    let mut n: usize = 0;
    while n < lengths.len()
        invariant
            n <= lengths@.len(),
            scene.objects@ == lengths_back(old(scene).objects@, lengths@, n as nat),
            scene.folders == old(scene).folders,
            scene.next_id == old(scene).next_id,
        decreases lengths@.len() - n,
    {
        let (id, length) = lengths[n];
        match scene.find(id) {
            Some(i) => {
                let p = lengthen(&scene.objects[i].primitive, length);
                scene.objects[i].primitive = p;
            },
            None => {},
        }
        n += 1;
        assert(scene.objects@ =~= lengths_back(old(scene).objects@, lengths@, n as nat));
    }
}

fn undrape(o: &mut Object)
    ensures
        *final(o) == undraped(*old(o)),
{
    if o.primitive.is_soft_sim() && (o.rope_nodes.is_some() || o.cloth_nodes.is_some()) {
        o.rope_nodes = None;
        o.cloth_nodes = None;
        o.mesh_revision = o.mesh_revision.wrapping_add(1);
    }
}

fn undrape_all(objects: &mut Vec<Object>)
    ensures
        final(objects)@ == all_undraped(old(objects)@, old(objects)@.len()),
{
    let mut n: usize = 0;
    let total: usize = objects.len();
    while n < total
        invariant
            n <= total,
            total == old(objects)@.len(),
            objects@.len() == total,
            objects@ == all_undraped(old(objects)@, n as nat),
        decreases total - n,
    {
        undrape(&mut objects[n]);
        n += 1;
        assert(objects@ =~= all_undraped(old(objects)@, n as nat));
    }
}

impl PhysicsMirror {
    /// Ends a simulation: puts every object back where it was when the
    /// simulation started, every rope back to its length, and drops the
    /// shapes that soft bodies were draped into.
    pub fn stop(&mut self, scene: &mut Scene) -> (orders: Vec<Command>)
        ensures
            old(self)@.sim is Stopped ==> final(self)@ == old(self)@ && *final(scene) == *old(
                scene,
            ) && orders@ == Seq::<Command>::empty(),
            old(self)@.sim !is Stopped ==> {
                &&& final(scene).objects@ == stopped_objects(
                    old(scene).objects@,
                    old(self)@.snapshot,
                    old(self)@.rope_lengths,
                )
                &&& final(scene).folders == old(scene).folders
                &&& final(scene).next_id == old(scene).next_id
                &&& final(self)@ == (MirrorView {
                    workers: 0,
                    synced: None,
                    entries: seq![],
                    ropes: seq![],
                    cloths: seq![],
                    sim_order: seq![],
                    sim: SimState::Stopped,
                    snapshot: seq![],
                    rope_lengths: seq![],
                    ..old(self)@
                })
                &&& orders@ == empty_orders(old(self)@.workers, 0)
            },
    {
        let mut orders: Vec<Command> = Vec::new();
        if self.sim == SimState::Stopped {
            return orders;
        }
        self.sim = SimState::Stopped;
        put_back(scene, &self.snapshot);
        put_lengths_back(scene, &self.rope_length_snapshot);
        undrape_all(&mut scene.objects);
        self.snapshot = Vec::new();
        self.rope_length_snapshot = Vec::new();
        if self.worker_count != 0 {
            orders.push(Command::Recreate { workers: 0 });
        } else {
            orders.push(Command::Clear);
        }
        self.worker_count = 0;
        self.synced_version = None;
        self.entries = Vec::new();
        self.ropes = Vec::new();
        self.cloths = Vec::new();
        self.sim_order = Vec::new();
        assert(orders@ =~= empty_orders(old(self)@.workers, 0));
        assert(self@.entries =~= seq![]);
        assert(self@.ropes =~= seq![]);
        assert(self@.cloths =~= seq![]);
        assert(self@.sim_order =~= seq![]);
        assert(self@.snapshot =~= seq![]);
        assert(self@.rope_lengths =~= seq![]);
        orders
    }
}

/// Where the first `n` of the bodies that move are to be placed: as the
/// physics world reads, with the scale that the scene gives them.
pub open spec fn moved_to(
    objects: Seq<Object>,
    worlds: Seq<Transform>,
    order: Seq<ObjectId>,
    readings: Seq<(Vec3, Quat)>,
    n: nat,
) -> Seq<(ObjectId, Transform)>
    decreases n,
{
    if n == 0 {
        seq![]
    } else {
        let world = world_of(objects, worlds, order[n - 1]);
        moved_to(objects, worlds, order, readings, (n - 1) as nat).push(
            (
                order[n - 1],
                Transform {
                    location: readings[n - 1].0,
                    rotation: readings[n - 1].1,
                    scale: world.scale,
                },
            ),
        )
    }
}

impl PhysicsMirror {
    /// Where the bodies that move are to be placed after a step, in the
    /// order in which they are to be placed. `readings` gives the position
    /// and the rotation of each of them in the physics world.
    pub fn write_back(
        &self,
        scene: &Scene,
        worlds: &Vec<Transform>,
        readings: &Vec<(Vec3, Quat)>,
    ) -> (r: Vec<(ObjectId, Transform)>)
        requires
            worlds@.len() == scene.objects@.len(),
            readings@.len() == self@.sim_order.len(),
        ensures
            r@ == moved_to(
                scene.objects@,
                worlds@,
                self@.sim_order,
                readings@,
                readings@.len(),
            ),
    {
        let mut r: Vec<(ObjectId, Transform)> = Vec::new();
        let mut n: usize = 0;
        while n < readings.len()
            invariant
                n <= readings@.len(),
                worlds@.len() == scene.objects@.len(),
                readings@.len() == self@.sim_order.len(),
                self@.sim_order == self.sim_order@,
                r@ == moved_to(scene.objects@, worlds@, self.sim_order@, readings@, n as nat),
            decreases readings@.len() - n,
        {
            let id = self.sim_order[n];
            let world = world_at(scene, worlds, id);
            let (location, rotation) = readings[n];
            r.push((id, Transform { location, rotation, scale: world.scale }));
            n += 1;
        }
        r
    }
}

/// The placement of a draped body: at its first node, in line with the
/// world.
pub open spec fn draped_at(nodes: Seq<Vec3>) -> Transform {
    Transform { location: nodes[0], ..identity() }
}

/// A rope in the shape that its nodes have.
pub open spec fn draped_rope(o: Object, nodes: Vec<Vec3>) -> Object {
    Object {
        rope_nodes: Some(nodes),
        mesh_revision: o.mesh_revision.wrapping_add(1),
        ..o
    }
}

/// A cloth in the shape that its nodes have.
pub open spec fn draped_cloth(o: Object, nodes: Vec<Vec3>) -> Object {
    Object {
        cloth_nodes: Some(nodes),
        mesh_revision: o.mesh_revision.wrapping_add(1),
        ..o
    }
}

/// Drapes the rope `id` along its nodes, and says where it is to be placed.
/// A rope of fewer than two nodes stays as it is.
pub fn drape_rope(scene: &mut Scene, id: ObjectId, nodes: Vec<Vec3>) -> (r: Option<Transform>)
    ensures
        r == (if nodes@.len() < 2 {
            None
        } else {
            Some(draped_at(nodes@))
        }),
        final(scene).objects@ == (match place_of(old(scene).objects@, id) {
            Some(i) if nodes@.len() >= 2 => old(scene).objects@.update(
                i,
                draped_rope(old(scene).objects@[i], nodes),
            ),
            _ => old(scene).objects@,
        }),
        final(scene).folders == old(scene).folders,
        final(scene).next_id == old(scene).next_id,
{
    if nodes.len() < 2 {
        return None;
    }
    let at = Transform { location: nodes[0], ..Transform::default() };
    match scene.find(id) {
        Some(i) => {
            let revision: u64 = scene.objects[i].mesh_revision.wrapping_add(1);
            scene.objects[i].rope_nodes = Some(nodes);
            scene.objects[i].mesh_revision = revision;
            assert(scene.objects@ =~= old(scene).objects@.update(
                i as int,
                draped_rope(old(scene).objects@[i as int], nodes),
            ));
        },
        None => {},
    }
    Some(at)
}

/// Drapes the cloth `id` over its nodes, and says where it is to be placed.
/// A cloth without nodes stays as it is.
pub fn drape_cloth(scene: &mut Scene, id: ObjectId, nodes: Vec<Vec3>) -> (r: Option<Transform>)
    ensures
        r == (if nodes@.len() == 0 {
            None
        } else {
            Some(draped_at(nodes@))
        }),
        final(scene).objects@ == (match place_of(old(scene).objects@, id) {
            Some(i) if nodes@.len() > 0 => old(scene).objects@.update(
                i,
                draped_cloth(old(scene).objects@[i], nodes),
            ),
            _ => old(scene).objects@,
        }),
        final(scene).folders == old(scene).folders,
        final(scene).next_id == old(scene).next_id,
{
    if nodes.len() == 0 {
        return None;
    }
    let at = Transform { location: nodes[0], ..Transform::default() };
    match scene.find(id) {
        Some(i) => {
            let revision: u64 = scene.objects[i].mesh_revision.wrapping_add(1);
            scene.objects[i].cloth_nodes = Some(nodes);
            scene.objects[i].mesh_revision = revision;
            assert(scene.objects@ =~= old(scene).objects@.update(
                i as int,
                draped_cloth(old(scene).objects@[i as int], nodes),
            ));
        },
        None => {},
    }
    Some(at)
}

/// A simulation starts from an empty world, made anew where it needs other
/// threads, and has a ground where one is wanted, before anything stands on
/// it.
pub proof fn law_play_starts_from_an_empty_world(
    objects: Seq<Object>,
    have: u32,
    want: u32,
    ground: bool,
)
    ensures
        ({
            let orders = start_orders(objects, have, want, ground);
            &&& orders.len() > 0
            &&& have != want ==> orders[0] == (Command::Recreate { workers: want })
            &&& have == want ==> orders[0] is Clear
            &&& ground ==> orders.len() > 1 && orders[1] is Ground
            &&& !ground && orders.len() > 1 ==> orders[1] == (solid_orders(objects, objects.len())
                + rope_orders(objects, objects.len()) + cloth_orders(objects, objects.len()))[0]
        }),
{
}

/// A body follows its object: where it is moved to, as bouncy as it is made,
/// and told only what changed.
pub proof fn law_bodies_follow_their_objects(e: BodyEntry, object: Object, world: Transform)
    ensures
        ({
            let now = followed(e, object, world);
            let orders = follow_orders(e, object, world);
            let still = e.location.equal(world.location) && e.rotation.equal(world.rotation);
            &&& now.id == e.id && now.key == e.key
            &&& !still ==> now.location == world.location && now.rotation == world.rotation
                && orders[0] == (Command::Move {
                id: object.id,
                location: world.location,
                rotation: world.rotation,
            })
            &&& still ==> now.location == e.location && now.rotation == e.rotation
            &&& !e.bounciness.equal(object.bounciness) ==> now.bounciness == object.bounciness
                && orders.last() == (Command::Retune {
                id: object.id,
                bounciness: object.bounciness,
            })
            &&& still && e.bounciness.equal(object.bounciness) ==> orders.len() == 0
            &&& orders.len() <= 2
        }),
{
}

/// What is draped takes the shape of its nodes, stands at the first of them
/// unturned, and is drawn anew; nothing else of it changes.
pub proof fn law_draped_objects_take_their_shape(o: Object, nodes: Vec<Vec3>)
    ensures
        draped_rope(o, nodes).rope_nodes == Some(nodes),
        draped_rope(o, nodes).cloth_nodes == o.cloth_nodes,
        draped_cloth(o, nodes).cloth_nodes == Some(nodes),
        draped_cloth(o, nodes).rope_nodes == o.rope_nodes,
        draped_rope(o, nodes).mesh_revision != o.mesh_revision,
        draped_cloth(o, nodes).mesh_revision != o.mesh_revision,
        draped_rope(o, nodes).transform == o.transform && draped_rope(o, nodes).id == o.id,
        draped_at(nodes@).location == nodes@[0],
        draped_at(nodes@).rotation == identity().rotation,
{
}

} // verus!
