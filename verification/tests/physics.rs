//! The physics mirror, with a small engine of boxes that fall.

use glam::Vec3A as Axes;
use modeler_app::physics::{
    desired_worker_count, drape_cloth, drape_rope, has_enabled, Command, PhysicsMirror, ShapeKey,
    SimState,
};
use modeler_app::physics_queries::{
    closest_surface_point, create_entry, create_shape, drop_by, drop_roots, overlapping, pick,
    pick_point, pick_surface, poke, support, DropHit, PokeHit, RayHit, ShapePlan, SurfacePoint,
};
use modeler_app::scalar::{Quat, Scalar, Transform, Vec3};
use modeler_app::scene::{
    BooleanOp, ClothAnchor, Handle, Modifier, ModifierKind, Object, ObjectId, Primitive, RopeEnd,
    Scene,
};
use modeler_app::selection::Selection;
use modeler_app::soft_bodies::{build_cloth, build_rope, hold, LinkKind, PinBody};
use std::collections::BTreeMap;

fn f(x: f32) -> Scalar {
    Scalar::of_bits(x.to_bits())
}

fn at(x: f32, y: f32, z: f32) -> Vec3 {
    Vec3 { x: f(x), y: f(y), z: f(z) }
}

fn placed(x: f32, y: f32, z: f32) -> Transform {
    Transform {
        location: at(x, y, z),
        rotation: Quat { x: f(0.0), y: f(0.0), z: f(0.0), w: f(1.0) },
        scale: at(1.0, 1.0, 1.0),
    }
}

fn blank(primitive: Primitive, transform: Transform) -> Object {
    Object {
        id: ObjectId(0),
        name: "Object".to_string(),
        primitive,
        transform,
        pivot: at(0.0, 0.0, 0.0),
        anchor: at(0.0, 0.0, 0.0),
        parent: None,
        folder: None,
        visible: true,
        group: false,
        smooth: false,
        locked: false,
        dynamic: false,
        density: f(1000.0),
        bounciness: f(0.0),
        initial_force: at(0.0, 0.0, 0.0),
        material: Handle(0),
        face_materials: Vec::new(),
        show_label: false,
        show_dimensions: false,
        modifiers: Vec::new(),
        edited_mesh: None,
        cutouts: Vec::new(),
        floor_outline: Vec::new(),
        terrain: None,
        rope_nodes: None,
        cloth_nodes: None,
        rope_start: RopeEnd::default(),
        rope_end: RopeEnd::default(),
        cloth_anchors: Vec::new(),
        mesh_revision: 0,
        sculpt_revision: 0,
    }
}

fn number(x: Scalar) -> f32 {
    f32::from_bits(x.bits)
}

fn axes(v: Vec3) -> Axes {
    Axes::new(number(v.x), number(v.y), number(v.z))
}

fn turn(q: Quat) -> glam::Quat {
    glam::Quat::from_xyzw(number(q.x), number(q.y), number(q.z), number(q.w))
}

fn add(scene: &mut Scene, primitive: Primitive, transform: Transform) -> ObjectId {
    scene.insert_object(blank(primitive, transform))
}

fn cube(size: f32) -> Primitive {
    Primitive::Cube { size: f(size) }
}

fn get(scene: &mut Scene, id: ObjectId) -> &mut Object {
    let i = scene.find(id).unwrap();
    &mut scene.objects[i]
}

fn z_of(scene: &Scene, id: ObjectId) -> f32 {
    number(scene.object(id).unwrap().transform.location.z)
}

/// Where an object is in the world.
fn world(scene: &Scene, id: ObjectId) -> Transform {
    let o = scene.object(id).unwrap();
    let Some(up) = o.parent.filter(|p| scene.contains(*p)) else { return o.transform };
    let above = world(scene, up);
    let (r, s) = (turn(above.rotation), axes(above.scale));
    let p = axes(above.location) + r * (axes(o.transform.location) * s);
    let q = r * turn(o.transform.rotation);
    let k = s * axes(o.transform.scale);
    Transform {
        location: at(p.x, p.y, p.z),
        rotation: Quat { x: f(q.x), y: f(q.y), z: f(q.z), w: f(q.w) },
        scale: at(k.x, k.y, k.z),
    }
}

fn worlds(scene: &Scene) -> Vec<Transform> {
    scene.objects.iter().map(|o| world(scene, o.id)).collect()
}

fn depths(scene: &Scene) -> Vec<usize> {
    scene
        .objects
        .iter()
        .map(|o| {
            let mut up = o.parent;
            let mut n = 0;
            while let Some(p) = up.and_then(|p| scene.object(p)) {
                up = p.parent;
                n += 1;
            }
            n
        })
        .collect()
}

#[derive(Clone, PartialEq, Debug)]
struct Body {
    serial: u64,
    location: Axes,
    half: Axes,
    dynamic: bool,
    speed: Axes,
    bounciness: f32,
}

/// Boxes along the axes.
struct Toy {
    mirror: PhysicsMirror,
    bodies: BTreeMap<u64, Body>,
    serial: u64,
    ground: bool,
    version: u64,
}

impl Toy {
    fn new() -> Toy {
        Toy {
            mirror: PhysicsMirror::new(),
            bodies: BTreeMap::new(),
            serial: 0,
            ground: false,
            version: 0,
        }
    }

    fn run(&mut self, orders: Vec<Command>, scene: &Scene) {
        for order in orders {
            match order {
                Command::Destroy { id } => {
                    assert!(self.bodies.remove(&id.0).is_some(), "{id:?} has a body");
                }
                Command::Move { id, location, .. } => {
                    self.bodies.get_mut(&id.0).unwrap().location = axes(location);
                }
                Command::Retune { id, bounciness } => {
                    self.bodies.get_mut(&id.0).unwrap().bounciness = number(bounciness);
                }
                Command::Create { place, id, dynamic } => {
                    assert_eq!(scene.objects[place].id, id);
                    let o = &scene.objects[place];
                    let w = world(scene, id);
                    let size = match o.primitive {
                        Primitive::Cube { size } | Primitive::Empty { size } => number(size),
                        Primitive::UvSphere { radius, .. } => 2.0 * number(radius),
                        _ => 1.0,
                    };
                    self.serial += 1;
                    let body = Body {
                        serial: self.serial,
                        location: axes(w.location),
                        half: axes(w.scale).abs() * (0.5 * size),
                        dynamic,
                        speed: Axes::ZERO,
                        bounciness: number(o.bounciness),
                    };
                    assert!(self.bodies.insert(id.0, body).is_none(), "one body each");
                }
                Command::Clear | Command::Recreate { .. } => {
                    self.bodies.clear();
                    self.ground = false;
                }
                Command::Ground => self.ground = true,
                Command::Push { id, force } => {
                    self.bodies.get_mut(&id.0).unwrap().speed += axes(force) / 8.0;
                }
                Command::CreateRope { .. } | Command::CreateCloth { .. } => {}
            }
        }
    }

    fn sync(&mut self, scene: &Scene) -> Vec<Command> {
        self.version += 1;
        let orders = self.mirror.sync(scene, self.version, &worlds(scene));
        self.run(orders.clone(), scene);
        orders
    }

    fn play(&mut self, scene: &Scene) -> Vec<Command> {
        let orders = self.mirror.play(scene, &worlds(scene), &depths(scene), 8);
        self.run(orders.clone(), scene);
        orders
    }

    fn stop(&mut self, scene: &mut Scene) {
        let orders = self.mirror.stop(scene);
        self.run(orders, scene);
    }

    fn update(&mut self, scene: &mut Scene) {
        let frame = self.mirror.update(1);
        for _ in 0..frame.steps {
            for body in self.bodies.values_mut().filter(|b| b.dynamic) {
                body.speed.z -= 9.81 / 60.0;
                body.location += body.speed / 60.0;
                if self.ground && body.location.z < body.half.z {
                    body.location.z = body.half.z;
                    body.speed.z = 0.0;
                }
            }
        }
        if frame.steps == 0 {
            return;
        }
        let readings = self
            .mirror
            .moving()
            .iter()
            .map(|id| {
                let p = self.bodies[&id.0].location;
                (at(p.x, p.y, p.z), placed(0.0, 0.0, 0.0).rotation)
            })
            .collect();
        for (id, to) in self.mirror.write_back(scene, &worlds(scene), &readings) {
            get(scene, id).transform = to;
        }
    }

    fn hits(&self, from: Axes, along: Axes) -> Vec<RayHit> {
        let mut found = Vec::new();
        for (owner, b) in &self.bodies {
            let (lo, hi) = (b.location - b.half, b.location + b.half);
            let (mut near, mut far) = (0.0f32, 1e4f32);
            for k in 0..3 {
                let (o, d) = (from[k], along[k]);
                if d.abs() < 1e-9 {
                    if o < lo[k] || o > hi[k] {
                        far = -1.0;
                    }
                    continue;
                }
                let (a, c) = ((lo[k] - o) / d, (hi[k] - o) / d);
                near = near.max(a.min(c));
                far = far.min(a.max(c));
            }
            if near <= far {
                let p = from + along * near;
                found.push(RayHit {
                    owner: *owner,
                    fraction: f(near / 1e4),
                    point: at(p.x, p.y, p.z),
                });
            }
        }
        found
    }

    fn pick(&self, from: (f32, f32, f32), along: Axes) -> Option<ObjectId> {
        pick(&self.hits(from.into(), along))
    }

    fn serial(&self, id: ObjectId) -> Option<u64> {
        self.bodies.get(&id.0).map(|b| b.serial)
    }
}

fn scene_with_dynamic_cube_at(z: f32) -> (Scene, ObjectId) {
    let mut scene = Scene::new();
    let id = add(&mut scene, cube(2.0), placed(0.0, 0.0, z));
    scene.objects[0].dynamic = true;
    (scene, id)
}

#[test]
fn dynamic_cube_falls_and_rests_on_ground() {
    let (mut scene, id) = scene_with_dynamic_cube_at(3.0);
    let mut physics = Toy::new();
    physics.play(&scene);
    for _ in 0..240 {
        physics.update(&mut scene);
    }
    assert!((z_of(&scene, id) - 1.0).abs() < 0.05, "rests at {}", z_of(&scene, id));
}

#[test]
fn bounciness_edit_retunes_the_static_mirror_without_rebuild() {
    let (mut scene, id) = scene_with_dynamic_cube_at(3.0);
    let mut physics = Toy::new();
    physics.sync(&scene);
    let before = physics.serial(id);
    get(&mut scene, id).bounciness = f(0.7);
    let orders = physics.sync(&scene);
    assert_eq!(orders, vec![Command::Retune { id, bounciness: f(0.7) }]);
    assert_eq!(physics.serial(id), before, "changing bounciness must not rebuild the body");
    assert!((physics.bodies[&id.0].bounciness - 0.7).abs() < 1e-6);
}

#[test]
fn initial_force_kicks_dynamic_body_on_play() {
    // float the cube so gravity has little time to matter
    let (mut scene, id) = scene_with_dynamic_cube_at(5.0);
    // impulse along +X: mass of a 2 m cube at density 1 is volume=8
    get(&mut scene, id).initial_force = at(40.0, 0.0, 0.0);
    let mut physics = Toy::new();
    let orders = physics.play(&scene);
    assert!(orders.contains(&Command::Push { id, force: at(40.0, 0.0, 0.0) }));
    // a few steps so the impulse integrates into displacement
    for _ in 0..30 {
        physics.update(&mut scene);
    }
    let x = number(scene.object(id).unwrap().transform.location.x);
    assert!(x > 0.3, "initial force along +X should move the cube, got x={x}");
    physics.stop(&mut scene);
    let restored = axes(scene.object(id).unwrap().transform.location);
    assert!(
        restored.x.abs() < 1e-4 && (restored.z - 5.0).abs() < 1e-4,
        "stop must restore the pre-play transform, got {restored:?}"
    );
}

#[test]
fn stop_restores_snapshot() {
    let (mut scene, id) = scene_with_dynamic_cube_at(3.0);
    let mut physics = Toy::new();
    physics.play(&scene);
    for _ in 0..60 {
        physics.update(&mut scene);
    }
    assert!(z_of(&scene, id) < 2.9);

    physics.stop(&mut scene);
    assert_eq!(physics.mirror.sim_state(), SimState::Stopped);
    let z = z_of(&scene, id);
    assert!((z - 3.0).abs() < 1e-5, "stop must restore z=3, got {z}");
}

#[test]
fn static_objects_do_not_move() {
    let mut scene = Scene::new();
    let id = add(&mut scene, cube(2.0), placed(0.0, 0.0, 3.0)); // static
    let mut physics = Toy::new();
    physics.play(&scene);
    for _ in 0..60 {
        physics.update(&mut scene);
    }
    let z = z_of(&scene, id);
    assert!((z - 3.0).abs() < 1e-5, "static object moved to {z}");
}

#[test]
fn empties_never_collide_in_simulation() {
    let mut scene = Scene::new();
    let empty = add(&mut scene, Primitive::Empty { size: f(1.0) }, placed(0.0, 0.0, 0.0));
    let id = add(&mut scene, cube(2.0), placed(0.0, 0.0, 3.0));
    get(&mut scene, id).dynamic = true;

    let mut physics = Toy::new();
    physics.mirror.ground_plane = false;
    physics.play(&scene);
    assert!(physics.serial(empty).is_none(), "there is nothing to fall on");
    for _ in 0..90 {
        physics.update(&mut scene);
    }
    // the cube fell straight through the empty at the origin
    let z = z_of(&scene, id);
    assert!(z < -2.0, "cube must fall through the empty, got z={z}");
    physics.stop(&mut scene);

    // but empties stay pickable in the editing (static) mirror
    physics.sync(&scene);
    assert_eq!(physics.pick((0.0, -10.0, 0.0), Axes::Y), Some(empty));
}

#[test]
fn poke_kicks_dynamic_bodies_only() {
    let mut scene = Scene::new();
    let id = add(&mut scene, cube(2.0), placed(0.0, 0.0, 5.0));
    get(&mut scene, id).dynamic = true;
    let wall = add(&mut scene, cube(2.0), placed(10.0, 0.0, 0.0)); // static
    let on = |id: ObjectId, dynamic: bool| Some(PokeHit { owner: id.0, dynamic });

    // no kick while stopped
    assert_eq!(poke(SimState::Stopped, on(id, true)), None);
    assert_eq!(poke(SimState::Paused, on(id, true)), None);
    // kick the dynamic cube
    assert_eq!(poke(SimState::Playing, on(id, true)), Some(id));
    // static objects are never kicked, nor is the ground
    assert_eq!(poke(SimState::Playing, on(wall, false)), None);
    assert_eq!(poke(SimState::Playing, on(ObjectId(0), true)), None);
    assert_eq!(poke(SimState::Playing, None), None);
}

#[test]
fn pause_freezes_and_resume_continues() {
    let (mut scene, id) = scene_with_dynamic_cube_at(5.0);
    let mut physics = Toy::new();
    physics.play(&scene);
    for _ in 0..30 {
        physics.update(&mut scene);
    }
    physics.mirror.pause();
    let frozen = z_of(&scene, id);
    for _ in 0..30 {
        physics.update(&mut scene);
    }
    assert_eq!(z_of(&scene, id), frozen);

    let orders = physics.play(&scene); // resume, not restart
    assert!(orders.is_empty());
    for _ in 0..30 {
        physics.update(&mut scene);
    }
    assert!(z_of(&scene, id) < frozen);
}

/// Drops a selection of boxes onto the boxes below and the ground.
fn drop_to_floor(physics: &Toy, scene: &mut Scene, selection: &Selection) {
    let roots = drop_roots(scene, selection.selected());
    let under = |scene: &Scene, root: ObjectId| -> Vec<ObjectId> {
        let direct = scene.objects.iter().filter(|o| o.parent == Some(root)).map(|o| o.id);
        std::iter::once(root).chain(direct).collect()
    };
    let moving: Vec<ObjectId> = roots.iter().flat_map(|r| under(scene, *r)).collect();
    for root in roots {
        let mut deltas = Vec::new();
        for member in under(scene, root) {
            let b = physics.bodies[&member.0].clone();
            let bottom = b.location.z - b.half.z;
            let mut hits = vec![DropHit { owner: 0, z: f(0.0) }];
            for sx in [-1.0, 0.0, 1.0] {
                for sy in [-1.0, 0.0, 1.0] {
                    let from = b.location + b.half * Axes::new(sx, sy, -0.999);
                    for h in physics.hits(from, Axes::NEG_Z) {
                        hits.push(DropHit { owner: h.owner, z: h.point.z });
                    }
                }
            }
            deltas.push(f(number(support(&hits, &moving)) - bottom));
        }
        if let Some(by) = drop_by(&deltas) {
            let t = &mut get(scene, root).transform;
            t.location.z = f(number(t.location.z) + number(by));
        }
    }
}

#[test]
fn drop_to_floor_lands_on_ground_and_stacks() {
    let mut scene = Scene::new();
    let id = add(&mut scene, cube(2.0), placed(0.0, 0.0, 5.0)); // half height 1

    let mut physics = Toy::new();
    physics.sync(&scene);
    let mut sel = Selection::default();
    sel.click(Some(id), false);
    drop_to_floor(&physics, &mut scene, &sel);
    let z = z_of(&scene, id);
    assert!((z - 1.0).abs() < 1e-3, "cube should land at z=1, got {z}");

    // sphere above the cube drops onto its top face (z=2 + radius 1)
    let ball = Primitive::UvSphere { segments: 16, rings: 8, radius: f(1.0) };
    let sphere = add(&mut scene, ball, placed(0.0, 0.0, 10.0));
    physics.sync(&scene);
    sel.click(Some(sphere), false);
    drop_to_floor(&physics, &mut scene, &sel);
    let z = z_of(&scene, sphere);
    assert!((z - 3.0).abs() < 0.02, "sphere should rest at z=3, got {z}");
}

#[test]
fn drop_to_floor_moves_assemblies_as_one_piece() {
    let mut scene = Scene::new();
    // a floating pair: root at z=5, child hanging at z=8 over a table
    let root = add(&mut scene, cube(2.0), placed(0.0, 0.0, 5.0));
    let child = add(&mut scene, cube(2.0), placed(0.0, 3.0, 3.0));
    get(&mut scene, child).parent = Some(root);
    // static table under the CHILD's footprint only, top at z = 2
    add(&mut scene, cube(2.0), placed(0.0, 3.0, 1.0));

    let mut physics = Toy::new();
    physics.sync(&scene);
    let mut sel = Selection::default();
    sel.set(vec![root, child], Some(root));
    assert_eq!(drop_roots(&scene, sel.selected()), vec![root]);
    drop_to_floor(&physics, &mut scene, &sel);

    // the root's ground contact constrains the drop: root rests at z=0
    // (center 1), the child keeps its 3 m offset and floats above the
    // table instead of sinking into it
    let root_z = number(world(&scene, root).location.z);
    let child_z = number(world(&scene, child).location.z);
    assert!((root_z - 1.0).abs() < 1e-3, "root center at z=1, got {root_z}");
    assert!((child_z - 4.0).abs() < 1e-3, "child center at z=4, got {child_z}");

    // drop again: already resting — nothing moves (idempotent)
    physics.sync(&scene);
    drop_to_floor(&physics, &mut scene, &sel);
    let again = number(world(&scene, root).location.z);
    assert!((again - 1.0).abs() < 1e-3, "stable on repeat, got {again}");
}

#[test]
fn pick_point_hits_objects_and_grid() {
    let mut scene = Scene::new();
    add(&mut scene, cube(2.0), placed(0.0, 0.0, 1.0)); // cube top at z = 2
    let mut physics = Toy::new();
    physics.sync(&scene);
    let down = |from: Axes| {
        let hits = physics.hits(from, Axes::NEG_Z);
        let first = pick_surface(&hits, &Vec::new()).map(|(_, p)| p);
        pick_point(first, f(1.0), f(from.z), at(from.x, from.y, 0.0))
    };

    // straight down onto the cube
    let hit = down(Axes::new(0.0, 0.0, 10.0)).expect("must hit the cube");
    assert!((number(hit.z) - 2.0).abs() < 1e-3, "hit top at z=2, got {}", number(hit.z));

    // miss everything -> grid plane fallback at z = 0
    let hit = down(Axes::new(50.0, 50.0, 10.0)).expect("grid fallback");
    assert!(number(hit.z).abs() < 1e-4);
    assert!((number(hit.x) - 50.0).abs() < 1e-4);

    // a level ray and one that goes up meet nothing
    assert_eq!(pick_point(None, f(0.0), f(3.0), at(1.0, 1.0, 0.0)), None);
    assert_eq!(pick_point(None, f(1.0), f(-3.0), at(1.0, 1.0, 0.0)), None);
}

#[test]
fn overlap_detects_intersecting_objects() {
    let mut scene = Scene::new();
    let a = add(&mut scene, cube(2.0), placed(0.0, 0.0, 0.0));
    let b = add(&mut scene, cube(2.0), placed(0.5, 0.0, 0.0)); // overlapping the first cube

    let mut physics = Toy::new();
    let met = |physics: &Toy| -> Vec<ObjectId> {
        let mine = &physics.bodies[&b.0];
        let owners = physics
            .bodies
            .iter()
            .filter(|(_, o)| {
                ((o.location - mine.location).abs() - o.half - mine.half).max_element() <= 0.0
            })
            .map(|(owner, _)| *owner)
            .collect();
        overlapping(&vec![b], &physics.mirror.bodies(), &vec![owners])
    };
    physics.sync(&scene);
    assert!(met(&physics).contains(&b), "cubes at 0 and 0.5 must overlap");

    // move it far away: no overlap
    get(&mut scene, b).transform.location = at(10.0, 0.0, 0.0);
    physics.sync(&scene);
    assert!(met(&physics).is_empty(), "cubes 10 apart must not overlap");
    let _ = a;
}

#[test]
fn transform_edits_move_the_existing_body() {
    let mut scene = Scene::new();
    let id = add(&mut scene, cube(2.0), placed(0.0, 0.0, 0.0));
    let mut physics = Toy::new();
    physics.sync(&scene);
    let before = physics.serial(id).expect("body exists");

    // move: body must be reused, not recreated
    get(&mut scene, id).transform.location = at(7.0, 0.0, 1.0);
    physics.sync(&scene);
    assert_eq!(physics.serial(id), Some(before), "move must reuse the body");
    let hit = physics.pick((7.0, -10.0, 1.0), Axes::Y);
    assert_eq!(hit, Some(id), "picking must see the new position");

    // scale: geometry is baked, body must be rebuilt
    get(&mut scene, id).transform.scale = at(2.0, 2.0, 2.0);
    physics.sync(&scene);
    assert_ne!(physics.serial(id), Some(before), "scale must rebuild the body");

    // mesh revision bump (cutout/mesh edit path) also rebuilds
    let handle = physics.serial(id).unwrap();
    get(&mut scene, id).mesh_revision += 1;
    physics.sync(&scene);
    assert_ne!(physics.serial(id), Some(handle), "mesh edits rebuild the body");
}

#[test]
fn parent_moves_carry_children_in_the_mirror() {
    let mut scene = Scene::new();
    let parent = add(&mut scene, cube(2.0), placed(0.0, 0.0, 0.0));
    let child = add(&mut scene, cube(2.0), placed(3.0, 0.0, 0.0));
    get(&mut scene, child).parent = Some(parent);

    let mut physics = Toy::new();
    physics.sync(&scene);
    let child_body = physics.serial(child);

    // move the parent: the child's WORLD transform changes, its body is
    // reused but must be at the new place
    get(&mut scene, parent).transform.location = at(0.0, 0.0, 5.0);
    physics.sync(&scene);
    assert_eq!(physics.serial(child), child_body);
    let hit = physics.pick((3.0, -10.0, 5.0), Axes::Y);
    assert_eq!(hit, Some(child), "child must be pickable at its new world position");
}

#[test]
fn hidden_and_deleted_objects_leave_the_mirror() {
    let mut scene = Scene::new();
    let id = add(&mut scene, cube(2.0), placed(0.0, 0.0, 0.0));
    let mut physics = Toy::new();
    physics.sync(&scene);
    assert!(physics.pick((0.0, -10.0, 0.0), Axes::Y).is_some());

    get(&mut scene, id).visible = false;
    physics.sync(&scene);
    assert!(physics.pick((0.0, -10.0, 0.0), Axes::Y).is_none());
    assert!(physics.serial(id).is_none(), "hidden object has no body");

    get(&mut scene, id).visible = true;
    physics.sync(&scene);
    assert_eq!(physics.pick((0.0, -10.0, 0.0), Axes::Y), Some(id));

    scene.remove_object(id);
    physics.sync(&scene);
    assert!(physics.pick((0.0, -10.0, 0.0), Axes::Y).is_none());
}

/// Deterministic xorshift so the equivalence script is reproducible.
struct Rng(u64);

impl Rng {
    fn next(&mut self) -> u64 {
        let mut x = self.0;
        x ^= x << 13;
        x ^= x >> 7;
        x ^= x << 17;
        self.0 = x;
        x
    }

    fn f(&mut self) -> f32 {
        (self.next() >> 40) as f32 / (1u64 << 24) as f32
    }

    fn range(&mut self, n: usize) -> usize {
        (self.next() >> 33) as usize % n.max(1)
    }
}

/// The mirror holds what one made anew would hold.
fn assert_matches_fresh(scene: &Scene, physics: &mut Toy, step: usize) {
    physics.sync(scene);
    let mut fresh = Toy::new();
    fresh.sync(scene);
    assert_eq!(physics.bodies.len(), fresh.bodies.len(), "step {step}");
    for (id, body) in &fresh.bodies {
        let kept = physics.bodies.get(id).expect("the body is there");
        assert_eq!(kept.location, body.location, "step {step}");
        assert_eq!(kept.half, body.half, "step {step}");
    }
    for from in [(0.0, -30.0, 0.5), (3.0, -30.0, 1.0), (-4.0, -30.0, 2.0)] {
        assert_eq!(physics.pick(from, Axes::Y), fresh.pick(from, Axes::Y), "step {step}");
    }
}

#[test]
fn incremental_sync_matches_full_rebuild_under_random_edits() {
    let mut rng = Rng(0x1234_5678_9abc_def1);
    let mut scene = Scene::new();
    let mut physics = Toy::new();

    // seed a few objects
    for _ in 0..6 {
        let t = placed(rng.f() * 16.0 - 8.0, rng.f() * 16.0 - 8.0, rng.f() * 3.0);
        add(&mut scene, cube(1.0 + rng.f()), t);
    }
    assert_matches_fresh(&scene, &mut physics, 0);

    for step in 1..=40 {
        let ids: Vec<ObjectId> = scene.objects.iter().map(|o| o.id).collect();
        match rng.range(8) {
            // add an object (varied primitive)
            0 => {
                let t = placed(rng.f() * 16.0 - 8.0, rng.f() * 16.0 - 8.0, rng.f() * 3.0);
                let primitive = match rng.range(4) {
                    0 => cube(1.0 + rng.f()),
                    1 => Primitive::UvSphere { segments: 12, rings: 6, radius: f(0.5 + rng.f()) },
                    2 => Primitive::Wall { length: f(3.0), height: f(2.0), thickness: f(0.2) },
                    _ => Primitive::Empty { size: f(1.0) },
                };
                add(&mut scene, primitive, t);
            }
            // move
            1 | 2 => {
                let id = ids[rng.range(ids.len())];
                let l = axes(scene.object(id).unwrap().transform.location)
                    + Axes::new(rng.f() * 4.0 - 2.0, rng.f() * 4.0 - 2.0, rng.f());
                get(&mut scene, id).transform.location = at(l.x, l.y, l.z);
            }
            // rotate
            3 => {
                let id = ids[rng.range(ids.len())];
                let half = 0.5 * rng.f() * std::f32::consts::TAU;
                get(&mut scene, id).transform.rotation =
                    Quat { x: f(0.0), y: f(0.0), z: f(half.sin()), w: f(half.cos()) };
            }
            // scale (geometry rebuild path)
            4 => {
                let id = ids[rng.range(ids.len())];
                let s = 0.5 + rng.f() * 2.0;
                get(&mut scene, id).transform.scale = at(s, s, s);
            }
            // toggle visibility
            5 => {
                let id = ids[rng.range(ids.len())];
                let o = get(&mut scene, id);
                o.visible = !o.visible;
            }
            // reparent / unparent (world transforms of the subtree shift)
            6 => {
                let child = ids[rng.range(ids.len())];
                let parent = ids[rng.range(ids.len())];
                // later objects hang on earlier ones, so that there is no circle
                let to = if parent.0 < child.0 && rng.range(2) == 1 { Some(parent) } else { None };
                get(&mut scene, child).parent = to;
            }
            // delete
            _ => {
                if ids.len() > 3 {
                    let id = ids[rng.range(ids.len())];
                    scene.remove_object(id);
                    for o in &mut scene.objects {
                        o.parent = o.parent.filter(|p| *p != id);
                    }
                }
            }
        }
        assert_matches_fresh(&scene, &mut physics, step);
    }
}

#[test]
fn a_second_sync_orders_nothing() {
    let (scene, id) = scene_with_dynamic_cube_at(3.0);
    let mut physics = Toy::new();
    assert_eq!(physics.sync(&scene), vec![Command::Create { place: 0, id, dynamic: false }]);
    assert_eq!(physics.mirror.bodies(), vec![id]);
    assert!(physics.sync(&scene).is_empty());
    assert!(physics.mirror.sync(&scene, physics.version, &worlds(&scene)).is_empty());
}

#[test]
fn parents_are_moved_before_their_children() {
    let mut scene = Scene::new();
    let child = add(&mut scene, cube(1.0), placed(0.0, 0.0, 1.0));
    let parent = add(&mut scene, cube(1.0), placed(0.0, 0.0, 5.0));
    for o in &mut scene.objects {
        o.dynamic = true;
    }
    get(&mut scene, child).parent = Some(parent);
    let mut physics = Toy::new();
    physics.play(&scene);
    assert_eq!(physics.mirror.moving(), &vec![parent, child]);
}

#[test]
fn objects_added_while_playing_stay_after_the_stop() {
    let (mut scene, _) = scene_with_dynamic_cube_at(3.0);
    let mut physics = Toy::new();
    physics.play(&scene);
    let added = add(&mut scene, cube(1.0), placed(9.0, 0.0, 0.0));
    physics.stop(&mut scene);
    assert_eq!(scene.object(added).unwrap().transform, placed(9.0, 0.0, 0.0));
    assert!(physics.mirror.is_stopped());
}

#[test]
fn slow_frames_drop_time() {
    let (scene, _) = scene_with_dynamic_cube_at(3.0);
    let mut physics = Toy::new();
    assert_eq!(physics.mirror.update(3).steps, 0, "nothing moves before the start");
    physics.play(&scene);
    let few = physics.mirror.update(1);
    assert_eq!((few.steps, few.dropped), (1, false));
    let many = physics.mirror.update(9);
    assert_eq!((many.steps, many.dropped), (2, true));
    assert_eq!(physics.mirror.substeps(), 4);
    assert_eq!(desired_worker_count(10, 8), 0);
    assert_eq!(desired_worker_count(500, 8), 8);
    assert_eq!(desired_worker_count(500, 64), 16);
}

#[test]
fn shapes_fit_the_object() {
    let ring = Primitive::Torus {
        major_segments: 16,
        minor_segments: 8,
        major_radius: f(1.0),
        minor_radius: f(0.2),
    };
    let mut o = blank(ring, placed(0.0, 0.0, 0.0));
    o.dynamic = true;
    assert_eq!(create_shape(SimState::Stopped, &o, false, true), ShapePlan::PrimitiveMesh);
    assert_eq!(create_shape(SimState::Playing, &o, false, true), ShapePlan::PrimitiveHull);
    assert_eq!(create_shape(SimState::Playing, &o, true, true), ShapePlan::ModifiedHull);
    let ball = blank(
        Primitive::UvSphere { segments: 8, rings: 4, radius: f(1.5) },
        placed(0.0, 0.0, 0.0),
    );
    let round = ShapePlan::Sphere { radius: f(1.5) };
    assert_eq!(create_shape(SimState::Playing, &ball, false, true), round);
    let mut thin = blank(cube(2.0), placed(0.0, 0.0, 0.0));
    thin.dynamic = true;
    thin.density = f(0.0);
    let plan = create_entry(SimState::Playing, &thin, true, false, true);
    assert!(plan.dynamic);
    assert!((number(plan.density) - 0.001).abs() < 1e-6, "no body is without mass");
    assert_eq!(plan.shape, ShapePlan::PrimitiveHull, "what moves is convex");
}

#[test]
fn shape_keys_tell_shapes_apart() {
    let key = ShapeKey {
        primitive: cube(2.0),
        mesh_revision: 1,
        edited: false,
        cutouts: 0,
        floor_outline: 0,
        scale: at(1.0, 1.0, 1.0),
        density: f(1000.0),
        modifier_stamp: 0,
    };
    assert!(key.is_equal(&key));
    assert!(!key.is_equal(&ShapeKey { primitive: cube(3.0), ..key }));
    assert!(!key.is_equal(&ShapeKey { scale: at(1.0, 1.0, 2.0), ..key }));
    // zero has two signs and is one number
    let flat = ShapeKey { scale: at(0.0, 1.0, 1.0), ..key };
    assert!(flat.is_equal(&ShapeKey { scale: at(-0.0, 1.0, 1.0), ..key }));
    let off = Modifier { kind: ModifierKind::Subdivision { levels: 1 }, enabled: false };
    assert!(!has_enabled(&vec![off]));
    let cut = ModifierKind::Boolean { op: BooleanOp::Union, object: ObjectId(4) };
    assert!(has_enabled(&vec![off, Modifier::new(cut)]));
}

#[test]
fn the_nearest_thing_is_picked() {
    let hit = |owner: u64, fraction: f32| RayHit {
        owner,
        fraction: f(fraction),
        point: at(fraction, 0.0, 0.0),
    };
    let hits = vec![hit(3, 0.5), hit(0, 0.1), hit(7, 0.2), hit(4, 0.9)];
    assert_eq!(pick(&hits), Some(ObjectId(7)), "the ground has no owner");
    let but = pick_surface(&hits, &vec![ObjectId(7)]);
    assert_eq!(but, Some((ObjectId(3), at(0.5, 0.0, 0.0))));
    assert_eq!(pick(&Vec::new()), None);
    let near = |id: u64, d: f32| SurfacePoint {
        id: ObjectId(id),
        distance_squared: f(d),
        point: at(d, 0.0, 0.0),
    };
    let points = vec![near(1, 4.0), near(2, 1.0), near(3, 2.0)];
    let found = closest_surface_point(&points, &vec![ObjectId(2)], f(9.0));
    assert_eq!(found, Some((ObjectId(3), at(2.0, 0.0, 0.0))));
    assert_eq!(closest_surface_point(&points, &Vec::new(), f(0.5)), None);
}

fn rope(length: f32, segments: u32) -> Object {
    blank(
        Primitive::Rope { length: f(length), radius: f(0.03), segments },
        placed(0.0, 0.0, 0.0),
    )
}

#[test]
fn a_rope_is_a_chain_between_its_pins() {
    let mut o = rope(2.0, 8);
    o.rope_start = RopeEnd { object: Some(ObjectId(5)), local_point: at(0.0, 0.0, 0.0) };
    let plan = build_rope(&o, &vec![ObjectId(5)]).expect("a rope");
    assert_eq!(plan.node_count, 9);
    assert_eq!(plan.links, (0..8).map(|k| (k, k + 1)).collect::<Vec<_>>());
    assert_eq!(plan.pins.len(), 1);
    assert_eq!((plan.pins[0].node, plan.pins[0].target), (0, ObjectId(5)));
    assert_eq!(plan.pins[0].body, PinBody::Target);
    assert!(build_rope(&blank(cube(1.0), placed(0.0, 0.0, 0.0)), &Vec::new()).is_none());
    assert_eq!(build_rope(&rope(2.0, 1000), &Vec::new()).unwrap().node_count, 65);
    assert_eq!((hold(0, 2, 64), hold(8, 2, 64), hold(99, 2, 64)), (2, 8, 64));
}

#[test]
fn a_cloth_is_a_grid_with_links() {
    let mut scene = Scene::new();
    let post = add(&mut scene, cube(1.0), placed(0.0, 0.0, 2.0));
    let cloth = Primitive::Cloth {
        width: f(2.0),
        height: f(1.0),
        segments_u: 3,
        segments_v: 2,
        stiffness: f(0.5),
    };
    let id = add(&mut scene, cloth, placed(0.0, 0.0, 2.0));
    get(&mut scene, id).cloth_anchors.push(ClothAnchor {
        u: 3,
        v: 2,
        object: Some(post),
        local_point: at(0.0, 0.0, 0.5),
    });
    let plan = build_cloth(&scene, scene.object(id).unwrap(), &vec![post]).expect("a cloth");
    assert_eq!((plan.columns, plan.rows), (4, 3));
    // along rows: 3 * 3; along columns: 4 * 2
    assert_eq!(plan.edges.len(), 17);
    let count = |kind: LinkKind| plan.links.iter().filter(|l| l.kind == kind).count();
    assert_eq!(count(LinkKind::Edge), 17);
    assert_eq!(count(LinkKind::Shear), 2 * 3 * 2);
    assert_eq!(count(LinkKind::Bend), 2 * 3 + 4);
    assert!(plan.links.iter().all(|l| l.a < 12 && l.b < 12 && l.a != l.b));
    assert_eq!(plan.pins.len(), 1);
    assert_eq!(plan.pins[0].node, 11);
    assert!(!plan.rigid);
}

#[test]
fn draped_nodes_are_kept_with_the_object() {
    let mut scene = Scene::new();
    let id = scene.insert_object(rope(2.0, 2));
    let nodes = vec![at(0.0, 0.0, 1.0), at(1.0, 0.0, 0.5), at(2.0, 0.0, 1.0)];
    let parked = drape_rope(&mut scene, id, nodes.clone());
    assert!(parked.is_some());
    assert_eq!(scene.object(id).unwrap().rope_nodes, Some(nodes.clone()));
    assert_eq!(scene.object(id).unwrap().mesh_revision, 1);
    assert!(drape_rope(&mut scene, id, vec![at(0.0, 0.0, 1.0)]).is_none(), "no rope of one node");
    assert!(drape_cloth(&mut scene, id, Vec::new()).is_none());
    assert_eq!(scene.object(id).unwrap().rope_nodes, Some(nodes));
}
