//! Bricks, floors, the ground and scales, with the geometry of the test
//! objects worked out here.

use modeler_app::bricks::{
    breakage, rebuild_wall_from_folder, rebuildable_folder, replace_with_bricks, subtract_ranges,
    Breakage,
};
use modeler_app::floors::{add_floor_for_walls, wall_loop_outline, walls_for_floor, Footprint};
use modeler_app::modal::{depths, subtree};
use modeler_app::object_ops::{
    bake_into_primitive, children_of, delete_selected, ground_roots, height_above_ground,
    write_scaled, Bake, Baked, DeleteEvent, DeleteTool, ScaleTally, ScreenPoint,
};
use modeler_app::scalar::{Quat, Scalar, Transform, Vec3};
use modeler_app::scene::{
    Color, Handle, LightKind, Object, ObjectId, Primitive, RopeEnd, Scene, WallCutout,
};
use modeler_app::selection::Selection;

fn f(x: f32) -> Scalar {
    Scalar::of_bits(x.to_bits())
}

fn at(x: f32, y: f32, z: f32) -> Vec3 {
    Vec3 { x: f(x), y: f(y), z: f(z) }
}

fn placed(x: f32, y: f32, z: f32) -> Transform {
    Transform {
        location: at(x, y, z),
        rotation: Quat { x: f(0.0), y: f(0.0), z: f(0.0), w: f(1.0) },
        scale: at(1.0, 1.0, 1.0),
    }
}

fn blank(primitive: Primitive, transform: Transform) -> Object {
    Object {
        id: ObjectId(0),
        name: "Object".to_string(),
        primitive,
        transform,
        pivot: at(0.0, 0.0, 0.0),
        anchor: at(0.0, 0.0, 0.0),
        parent: None,
        folder: None,
        visible: true,
        group: false,
        smooth: false,
        locked: false,
        dynamic: false,
        density: f(1000.0),
        bounciness: f(0.0),
        initial_force: at(0.0, 0.0, 0.0),
        material: Handle(0),
        face_materials: Vec::new(),
        show_label: false,
        show_dimensions: false,
        modifiers: Vec::new(),
        edited_mesh: None,
        cutouts: Vec::new(),
        floor_outline: Vec::new(),
        terrain: None,
        rope_nodes: None,
        cloth_nodes: None,
        rope_start: RopeEnd::default(),
        rope_end: RopeEnd::default(),
        cloth_anchors: Vec::new(),
        mesh_revision: 0,
        sculpt_revision: 0,
    }
}

fn number(x: Scalar) -> f32 {
    f32::from_bits(x.bits)
}

fn add(scene: &mut Scene, primitive: Primitive, transform: Transform) -> ObjectId {
    scene.insert_object(blank(primitive, transform))
}

fn wall(length: f32) -> Primitive {
    Primitive::Wall { length: f(length), height: f(2.5), thickness: f(0.2) }
}

/// A brick of these sizes around a middle.
fn brick(center: (f32, f32, f32), size: (f32, f32, f32)) -> Object {
    let mut t = placed(center.0, center.1, center.2);
    t.scale = at(size.0 - 0.006, size.1 - 0.006, size.2 - 0.006);
    blank(Primitive::Cube { size: f(1.0) }, t)
}

/// Courses of a wall at the origin along x, around its openings.
fn courses(o: &Object) -> Vec<Object> {
    let Primitive::Wall { length, height, thickness } = o.primitive else { panic!("no wall") };
    let (length, height, thickness) = (number(length), number(height), number(thickness));
    let rows = (height / 0.21).round() as usize;
    let cell = height / rows as f32;
    let mut made = Vec::new();
    for row in 0..rows {
        let (z0, z1) = (row as f32 * cell, (row + 1) as f32 * cell);
        let blocked: Vec<(Scalar, Scalar)> = o
            .cutouts
            .iter()
            .filter(|c| {
                number(c.bottom) < z1 - 1e-3 && number(c.bottom) + number(c.height) > z0 + 1e-3
            })
            .map(|c| (c.offset, f(number(c.offset) + number(c.width))))
            .collect();
        let mut x: f32 = 0.0;
        let mut step: f32 = if row % 2 == 1 { 0.21 } else { 0.42 };
        while x < length - 1e-3 {
            let end = (x + step).min(length);
            for (s0, s1) in subtract_ranges(f(x), f(end), &blocked) {
                let (s0, s1) = (number(s0), number(s1));
                if s1 - s0 >= 0.22 * 0.42 {
                    made.push(brick(
                        (0.5 * (s0 + s1), 0.0, 0.5 * (z0 + z1)),
                        (s1 - s0, thickness, cell),
                    ));
                }
            }
            x = end;
            step = 0.42;
        }
    }
    made
}

#[test]
fn wall_breaks_into_dynamic_bricks_around_openings() {
    let mut scene = Scene::new();
    let id = add(&mut scene, wall(4.0), placed(0.0, 0.0, 0.0));
    scene.objects[0].name = "Wall".to_string();
    // a 1 m door in the middle: 1.5..2.5 × 0..2.1
    scene.objects[0].cutouts.push(WallCutout {
        offset: f(1.5),
        width: f(1.0),
        bottom: f(0.0),
        height: f(2.1),
    });

    assert_eq!(breakage(scene.object(id).unwrap()), Breakage::Courses);
    let made = courses(scene.object(id).unwrap());
    let bricks = replace_with_bricks(&mut scene, id, made).unwrap();
    assert!(scene.object(id).is_none(), "the wall is replaced");
    assert!(bricks.len() > 40, "got {} bricks", bricks.len());

    // the bricks land in their own outliner folder
    let folder =
        scene.folders.iter().find(|f| f.name == "Wall bricks").expect("brick folder created").id;

    for &id in &bricks {
        let o = scene.object(id).unwrap();
        assert!(o.dynamic, "bricks must simulate");
        assert_eq!(o.folder, Some(folder), "bricks are filed in the folder");
        // no brick may reach into the door opening (interior overlap)
        let (cx, cz) = (number(o.transform.location.x), number(o.transform.location.z));
        let (hw, hh) =
            (0.5 * number(o.transform.scale.x), 0.5 * number(o.transform.scale.z));
        let outside =
            cx + hw <= 1.5 + 1e-3 || cx - hw >= 2.5 - 1e-3 || cz - hh >= 2.1 - 1e-3;
        assert!(outside, "brick at ({cx}, {cz}) w={hw} h={hh} is inside the door");
    }

    // ...and back: rebuilding restores the wall and clears the bricks
    let folder_id = rebuildable_folder(&scene, bricks[0]).expect("bricks are rebuildable");
    let restored = rebuild_wall_from_folder(&mut scene, folder_id).unwrap();
    assert!(scene.folders.is_empty(), "bricks folder removed");
    for &id in &bricks {
        assert!(scene.object(id).is_none(), "brick {id:?} removed");
    }
    let back = scene.object(restored).unwrap();
    assert_eq!(back.name, "Wall");
    assert_eq!(back.primitive, wall(4.0));
    assert_eq!(back.cutouts.len(), 1, "the door survives the round trip");
    assert_eq!(scene.objects.len(), 1);
}

#[test]
fn any_solid_object_breaks_into_bricks_and_rebuilds() {
    let mut scene = Scene::new();
    let sphere = Primitive::UvSphere { segments: 24, rings: 12, radius: f(1.0) };
    let id = add(&mut scene, sphere, placed(0.0, 0.0, 1.0));
    scene.objects[0].name = "Ball".to_string();
    assert_eq!(breakage(scene.object(id).unwrap()), Breakage::Grid);

    // a grid of bricks; those whose middle is outside are left out
    let mut made = Vec::new();
    for i in 0..5 {
        for j in 0..9 {
            for k in 0..9 {
                let p = (
                    -1.0 + (i as f32 + 0.5) * 0.4,
                    -1.0 + (j as f32 + 0.5) * 2.0 / 9.0,
                    -1.0 + (k as f32 + 0.5) * 2.0 / 9.0,
                );
                if p.0 * p.0 + p.1 * p.1 + p.2 * p.2 < 1.0 {
                    made.push(brick((p.0, p.1, 1.0 + p.2), (0.4, 0.22, 0.22)));
                }
            }
        }
    }
    let bricks = replace_with_bricks(&mut scene, id, made).expect("sphere breaks");
    assert!(scene.object(id).is_none(), "the sphere is replaced");
    assert!(bricks.len() > 50, "got {} bricks", bricks.len());
    for &id in &bricks {
        let o = scene.object(id).unwrap();
        assert!(o.dynamic);
        // every brick center lies inside the sphere (its bounding ball)
        let l = o.transform.location;
        let (x, y, z) = (number(l.x), number(l.y), number(l.z) - 1.0);
        let d = (x * x + y * y + z * z).sqrt();
        assert!(d < 1.0 + 1e-3, "brick center {d} outside the sphere");
    }

    // ...and back: the folder rebuilds the original sphere
    let folder = rebuildable_folder(&scene, bricks[0]).expect("rebuildable");
    let restored = rebuild_wall_from_folder(&mut scene, folder).unwrap();
    let ball = scene.object(restored).unwrap();
    assert_eq!(ball.name, "Ball");
    assert_eq!(ball.primitive, sphere);
    assert_eq!(scene.objects.len(), 1);
}

#[test]
fn lights_and_empties_do_not_break() {
    let mut scene = Scene::new();
    let empty = add(&mut scene, Primitive::Empty { size: f(1.0) }, placed(0.0, 0.0, 0.0));
    let light = Primitive::Light {
        kind: LightKind::Point,
        color: Color { r: f(1.0), g: f(1.0), b: f(1.0) },
        intensity: f(3.0),
        spot_angle_deg: f(45.0),
        shadows: true,
    };
    let light = add(&mut scene, light, placed(0.0, 0.0, 0.0));
    assert_eq!(breakage(scene.object(empty).unwrap()), Breakage::Whole);
    assert_eq!(breakage(scene.object(light).unwrap()), Breakage::Whole);
    assert!(replace_with_bricks(&mut scene, empty, Vec::new()).is_none());
    assert!(replace_with_bricks(&mut scene, light, Vec::new()).is_none());
    assert_eq!(scene.objects.len(), 2, "nothing was consumed");
}

#[test]
fn subtract_ranges_cuts_blocked_spans() {
    let cut = |blocked: &[(f32, f32)]| -> Vec<(f32, f32)> {
        let blocked = blocked.iter().map(|&(a, b)| (f(a), f(b))).collect();
        subtract_ranges(f(0.0), f(1.0), &blocked)
            .into_iter()
            .map(|(a, b)| (number(a), number(b)))
            .collect()
    };
    assert_eq!(cut(&[]), vec![(0.0, 1.0)]);
    assert_eq!(cut(&[(0.4, 0.6)]), vec![(0.0, 0.4), (0.6, 1.0)]);
    assert_eq!(cut(&[(-1.0, 2.0)]), vec![]);
    // two openings, one at the edge
    assert_eq!(cut(&[(-0.5, 0.25), (0.5, 0.75)]), vec![(0.25, 0.5), (0.75, 1.0)]);
}

/// A wall from `a` to `b` on the ground, and its ends.
fn wall_between(scene: &mut Scene, a: (f32, f32), b: (f32, f32)) -> (ObjectId, [(f32, f32); 2]) {
    let (dx, dy) = (b.0 - a.0, b.1 - a.1);
    let half = 0.5 * dy.atan2(dx);
    let mut t = placed(a.0, a.1, 0.0);
    t.rotation = Quat { x: f(0.0), y: f(0.0), z: f(half.sin()), w: f(half.cos()) };
    let id = add(scene, wall((dx * dx + dy * dy).sqrt()), t);
    (id, [a, b])
}

fn distance(p: (f32, f32), q: (f32, f32)) -> f32 {
    ((p.0 - q.0).powi(2) + (p.1 - q.1).powi(2)).sqrt()
}

/// The corners of the closed loop that walls with these ends make.
fn closed_loop(ends: &[[(f32, f32); 2]]) -> Option<Vec<(f32, f32)>> {
    let shortest = ends.iter().map(|[a, b]| distance(*a, *b)).fold(f32::INFINITY, f32::min);
    let eps = (0.4 * shortest).clamp(0.05, 0.5);
    let points: Vec<(f32, f32)> = ends.iter().flatten().copied().collect();
    let near = points
        .iter()
        .map(|p| points.iter().map(|q| distance(*p, *q) < eps).collect())
        .collect();
    let corners = wall_loop_outline(&near, ends.len())?;
    Some(corners.into_iter().map(|c| points[c]).collect())
}

fn footprint(points: &[(f32, f32)]) -> Footprint {
    let low = |k: fn(&(f32, f32)) -> f32| points.iter().map(k).fold(f32::INFINITY, f32::min);
    let high = |k: fn(&(f32, f32)) -> f32| points.iter().map(k).fold(f32::NEG_INFINITY, f32::max);
    let (x0, x1) = (low(|p| p.0), high(|p| p.0));
    let (y0, y1) = (low(|p| p.1), high(|p| p.1));
    Footprint {
        width: f(x1 - x0),
        depth: f(y1 - y0),
        center_x: f(0.5 * (x0 + x1)),
        center_y: f(0.5 * (y0 + y1)),
    }
}

#[test]
fn floor_follows_a_closed_wall_loop() {
    // an L-shaped room: 6 walls, corners (0,0) (4,0) (4,2) (2,2) (2,4) (0,4)
    let corners =
        [(0.0, 0.0), (4.0, 0.0), (4.0, 2.0), (2.0, 2.0), (2.0, 4.0), (0.0, 4.0)];
    let mut scene = Scene::new();
    let (walls, ends): (Vec<ObjectId>, Vec<[(f32, f32); 2]>) =
        (0..6).map(|i| wall_between(&mut scene, corners[i], corners[(i + 1) % 6])).unzip();

    let mut selection = Selection::default();
    selection.set(walls.clone(), None);
    assert_eq!(walls_for_floor(&scene, selection.selected()), walls);
    let outline = closed_loop(&ends).expect("the walls close");
    let plan = add_floor_for_walls(6, Some(footprint(&outline)), Some(footprint(&outline)));
    assert!(plan.message.contains("following 6 walls"), "{}", plan.message);

    // centered on the outline's bounding box, on the ground
    assert_eq!(plan.location, at(2.0, 2.0, 0.0));
    assert!(plan.outlined);
    assert_eq!(outline.len(), 6, "{outline:?}");
    for corner in corners {
        assert!(
            outline.iter().any(|p| distance(*p, corner) < 1e-4),
            "corner {corner:?} missing from {outline:?}"
        );
    }
}

#[test]
fn branching_walls_close_no_loop() {
    // two triangles that share a corner: every wall can be walked in one go,
    // but four walls meet where they touch
    let corners = [(0, 1), (1, 2), (2, 0), (0, 3), (3, 4), (4, 0)];
    let ends: Vec<usize> = corners.iter().flat_map(|&(a, b)| [a, b]).collect();
    let near: Vec<Vec<bool>> =
        ends.iter().map(|p| ends.iter().map(|q| p == q).collect()).collect();
    assert_eq!(wall_loop_outline(&near, 6), None);
    let one: Vec<Vec<bool>> = near[..6].iter().map(|row| row[..6].to_vec()).collect();
    assert_eq!(wall_loop_outline(&one, 3).map(|c| c.len()), Some(3));
}

#[test]
fn floor_follows_a_hand_drawn_room_with_a_sloppy_closing_corner() {
    // a real hand-drawn room (wall tool): consecutive corners match to
    // the millimeter, but the closing click missed the start by ~0.24 m
    let walls: [((f32, f32), f32, f32); 6] = [
        ((-5.123, -1.052), 104.2, 13.253837),
        ((-8.372, 11.798), -23.1, 12.710259),
        ((3.322, 6.818), -91.1, 5.3763566),
        ((3.214, 1.443), 144.8, 5.667274),
        ((-1.418, 4.708), -79.2, 5.4969807),
        ((-0.386, -0.692), -177.9, 4.8899403),
    ];
    let mut scene = Scene::new();
    let mut ends = Vec::new();
    for (a, deg, length) in walls {
        let turn = deg.to_radians();
        let b = (a.0 + length * turn.cos(), a.1 + length * turn.sin());
        ends.push(wall_between(&mut scene, a, b).1);
    }
    // nothing selected: every wall counts
    let meant = walls_for_floor(&scene, Selection::default().selected());
    assert_eq!(meant.len(), 6);
    let outline = closed_loop(&ends).expect("close enough");
    let plan = add_floor_for_walls(6, Some(footprint(&outline)), None);
    assert!(plan.message.contains("following 6 walls"), "{}", plan.message);
    assert_eq!(outline.len(), 6);
}

#[test]
fn open_walls_fall_back_to_the_bounding_rectangle() {
    let mut scene = Scene::new();
    // three walls of a square: the loop does not close
    let (a, e0) = wall_between(&mut scene, (0.0, 0.0), (4.0, 0.0));
    let (b, e1) = wall_between(&mut scene, (4.0, 0.0), (4.0, 4.0));
    let (c, e2) = wall_between(&mut scene, (4.0, 4.0), (0.0, 4.0));
    let mut selection = Selection::default();
    selection.set(vec![a, b, c], None);
    assert_eq!(walls_for_floor(&scene, selection.selected()), vec![a, b, c]);
    assert!(closed_loop(&[e0, e1, e2]).is_none());
    let bounds = footprint(&[(0.0, -0.1), (4.1, 4.1)]);
    let plan = add_floor_for_walls(3, None, Some(bounds));
    assert!(plan.message.contains("under 3 walls"), "{}", plan.message);
    assert!(!plan.outlined);
}

#[test]
fn floor_encompasses_the_selected_walls() {
    let mut scene = Scene::new();
    // an L of two 4 m walls meeting at (4, 0): one along +X, one along
    // +Y (rotated 90° around Z), both 0.2 thick
    let (a, _) = wall_between(&mut scene, (0.0, 0.0), (4.0, 0.0));
    let (b, _) = wall_between(&mut scene, (4.0, 0.0), (4.0, 4.0));
    // a decoy far away that is NOT selected
    wall_between(&mut scene, (50.0, 50.0), (54.0, 50.0));

    let mut selection = Selection::default();
    selection.set(vec![a, b], Some(a));
    assert_eq!(walls_for_floor(&scene, selection.selected()), vec![a, b]);

    // bounds: x ∈ [0, 4.1] (wall B's thickness pokes past x = 4),
    // y ∈ [-0.1, 4.0]
    let bounds = footprint(&[(0.0, -0.1), (4.1, 4.0)]);
    let plan = add_floor_for_walls(2, None, Some(bounds));
    let Primitive::Floor { width, depth, thickness } = plan.primitive else {
        panic!("expected a floor, got {:?}", plan.primitive);
    };
    assert!((number(width) - 4.1).abs() < 1e-4, "width {}", number(width));
    assert!((number(depth) - 4.1).abs() < 1e-4, "depth {}", number(depth));
    assert!(number(thickness) > 0.0);
    let loc = plan.location;
    assert!((number(loc.x) - 2.05).abs() < 1e-4, "center x {}", number(loc.x));
    assert!((number(loc.y) - 1.95).abs() < 1e-4, "center y {}", number(loc.y));
    assert_eq!(number(loc.z), 0.0, "the floor stands on the ground");
}

#[test]
fn without_walls_a_floor_of_four_meters_is_added() {
    let plan = add_floor_for_walls(0, None, None);
    assert_eq!(plan.location, at(0.0, 0.0, 0.0));
    let Primitive::Floor { width, depth, .. } = plan.primitive else { panic!("no floor") };
    assert_eq!((number(width), number(depth)), (4.0, 4.0));
    assert!(!plan.outlined);
}

#[test]
fn place_on_ground_moves_selection_roots_as_one() {
    let mut scene = Scene::new();
    let cube = Primitive::Cube { size: f(2.0) };
    // a floating "door"-like pair: root high up, child hanging below
    let root = add(&mut scene, cube, placed(0.0, 0.0, 5.0));
    let child = add(&mut scene, cube, placed(0.0, 3.0, -3.0));
    // and an independent floating cube
    let loose = add(&mut scene, cube, placed(4.0, 0.0, -3.0));
    scene.objects[1].parent = Some(root);

    let mut selection = Selection::default();
    selection.set(vec![root, child, loose], Some(root));
    // the pair moves as ONE piece
    assert_eq!(ground_roots(&scene, &selection), vec![root, loose]);

    // of the pair, the child's bottom is lowest; the loose cube is below ground
    let pair = height_above_ground(&vec![f(5.0 - 1.0), f(2.0 - 1.0)]).expect("floats");
    assert!((number(pair) - 1.0).abs() < 1e-4);
    let (root_z, child_z) = (5.0 - number(pair), 2.0 - number(pair));
    assert!((child_z - 1.0f32).abs() < 1e-4, "the lowest point sits at z = 0");
    assert!((root_z - child_z - 3.0f32).abs() < 1e-4, "{root_z} vs {child_z}");
    // the loose cube (below ground before) came UP to rest at z = 0
    let up = height_above_ground(&vec![f(-3.0 - 1.0)]).expect("below the ground");
    assert!((-3.0 - number(up) - 1.0).abs() < 1e-4);
    assert_eq!(height_above_ground(&Vec::new()), None);
}

fn approx(a: f32, b: f32) -> bool {
    (a - b).abs() <= 1e-4 * a.abs().max(b.abs()).max(1.0)
}

/// What is done with the scale of an object.
fn decide(o: &Object) -> Bake {
    let s = o.transform.scale;
    let (x, y, z) = (number(s.x), number(s.y), number(s.z));
    let unscaled = (x - 1.0).abs().max((y - 1.0).abs()).max((z - 1.0).abs()) < 1e-6;
    ScaleTally::new().take(o, unscaled, approx(x, y), approx(y, z))
}

fn scaled(primitive: Primitive, s: (f32, f32, f32)) -> Object {
    let mut o = blank(primitive, placed(0.0, 0.0, 0.0));
    o.transform.scale = at(s.0, s.1, s.2);
    o
}

/// Applies the scale of an object, with the products worked out here. A baked
/// mesh is named by a handle of its own.
fn apply_scale(scene: &mut Scene, id: ObjectId) -> Bake {
    let o = scene.object(id).expect("in the scene");
    let bake = decide(o);
    let v = o.transform.scale;
    let s = (number(v.x), number(v.y), number(v.z));
    let by = |x: Scalar, factor: f32| f(number(x) * factor);
    let all = |p: Vec3| at(number(p.x) * s.0, number(p.y) * s.1, number(p.z) * s.2);
    let primitive = match o.primitive {
        Primitive::Cube { size } => Primitive::Cube { size: by(size, s.0) },
        Primitive::Wall { length, height, thickness } => Primitive::Wall {
            length: by(length, s.0),
            height: by(height, s.2),
            thickness: by(thickness, s.1),
        },
        other => other,
    };
    let cutouts = o
        .cutouts
        .iter()
        .map(|c| WallCutout {
            offset: by(c.offset, s.0),
            width: by(c.width, s.0),
            bottom: by(c.bottom, s.2),
            height: by(c.height, s.2),
        })
        .collect();
    let floor_outline = o.floor_outline.iter().map(|p| (by(p.0, s.0), by(p.1, s.1))).collect();
    let baked = Baked {
        primitive,
        cutouts,
        floor_outline,
        mesh: Some(Handle(7)),
        pivot: all(o.pivot),
        anchor: all(o.anchor),
    };
    let children = children_of(scene, id)
        .into_iter()
        .map(|child| {
            let t = scene.object(child).expect("a child").transform;
            (child, Transform { location: all(t.location), scale: all(t.scale), ..t })
        })
        .collect();
    write_scaled(scene, id, bake, baked, &children);
    bake
}

#[test]
fn apply_scale_bakes_uniform_cube_into_size() {
    let mut scene = Scene::new();
    let id = add(&mut scene, Primitive::Cube { size: f(2.0) }, placed(0.0, 0.0, 0.0));
    scene.objects[0].transform.scale = at(2.0, 2.0, 2.0);
    scene.objects[0].pivot = at(0.5, 0.0, 0.0);
    assert_eq!(apply_scale(&mut scene, id), Bake::Parameters);

    let object = scene.object(id).expect("still there");
    assert!(
        matches!(object.primitive, Primitive::Cube { size } if (number(size) - 4.0).abs() < 1e-5)
    );
    assert_eq!(object.transform.scale, at(1.0, 1.0, 1.0));
    assert!(object.edited_mesh.is_none(), "parametric bake, no mesh");
    assert!((number(object.pivot.x) - 1.0).abs() < 1e-5, "pivot scales along");
    assert_eq!(object.mesh_revision, 1);
    // a second time, there is nothing to apply
    assert_eq!(apply_scale(&mut scene, id), Bake::Unscaled);
    assert_eq!(scene.object(id).expect("still there").mesh_revision, 1);
    // a cube of unequal sides is no cube any more
    let o = scaled(Primitive::Cube { size: f(2.0) }, (2.0, 2.0, 3.0));
    assert_eq!(decide(&o), Bake::NewMesh);
}

#[test]
fn apply_scale_bakes_wall_per_axis_with_cutouts() {
    let mut scene = Scene::new();
    let id = add(&mut scene, wall(4.0), placed(0.0, 0.0, 0.0));
    scene.objects[0].cutouts.push(WallCutout {
        offset: f(1.0),
        width: f(0.9),
        bottom: f(0.5),
        height: f(1.0),
    });
    scene.objects[0].transform.scale = at(2.0, 3.0, 0.5);
    assert_eq!(apply_scale(&mut scene, id), Bake::Parameters);

    let object = scene.object(id).expect("still there");
    let Primitive::Wall { length, height, thickness } = object.primitive else {
        panic!("still a wall");
    };
    assert!((number(length) - 8.0).abs() < 1e-5 && (number(height) - 1.25).abs() < 1e-5);
    assert!((number(thickness) - 0.6).abs() < 1e-5);
    let cutout = &object.cutouts[0];
    assert!((number(cutout.offset) - 2.0).abs() < 1e-5 && (number(cutout.width) - 1.8).abs() < 1e-5);
    assert!((number(cutout.bottom) - 0.25).abs() < 1e-5);
    assert!((number(cutout.height) - 0.5).abs() < 1e-5);
    assert_eq!(object.transform.scale, at(1.0, 1.0, 1.0));
}

#[test]
fn apply_scale_bakes_nonuniform_sphere_into_mesh() {
    let sphere = Primitive::UvSphere { segments: 16, rings: 8, radius: f(1.0) };
    let mut scene = Scene::new();
    let id = add(&mut scene, sphere, placed(0.0, 0.0, 0.0));
    scene.objects[0].transform.scale = at(1.0, 2.0, 1.0);
    // the points of the sphere, as they are baked
    let (radius, scale) = (1.0f32, number(scene.objects[0].transform.scale.y));
    let max_y = (0..16)
        .map(|k| scale * radius * (k as f32 * std::f32::consts::TAU / 16.0).sin())
        .fold(f32::NEG_INFINITY, f32::max);
    assert_eq!(apply_scale(&mut scene, id), Bake::NewMesh);

    let object = scene.object(id).expect("still there");
    assert_eq!(object.edited_mesh, Some(Handle(7)), "non-uniform round shape bakes the mesh");
    assert_eq!(object.primitive, sphere);
    assert!((max_y - 2.0).abs() < 0.05, "stretched to the applied scale: {max_y}");
    assert_eq!(object.transform.scale, at(1.0, 1.0, 1.0));

    assert_eq!(decide(&scaled(sphere, (2.0, 2.0, 2.0))), Bake::Parameters);
    assert!(bake_into_primitive(&sphere, true, true));
    assert!(!bake_into_primitive(&sphere, true, false));
    let mut edited = scaled(sphere, (1.0, 2.0, 1.0));
    edited.edited_mesh = Some(Handle(3));
    assert_eq!(decide(&edited), Bake::EditedMesh);
}

#[test]
fn apply_scale_keeps_children_in_place() {
    let mut scene = Scene::new();
    let cube = Primitive::Cube { size: f(2.0) };
    let parent = add(&mut scene, cube, placed(0.0, 0.0, 0.0));
    let child = add(&mut scene, cube, placed(3.0, 0.0, 0.0));
    let grandchild = add(&mut scene, cube, placed(1.0, 0.0, 0.0));
    scene.objects[1].parent = Some(parent);
    scene.objects[2].parent = Some(child);
    scene.objects[0].transform.scale = at(2.0, 2.0, 2.0);
    // where the child is in the world: no rotation is in the way
    let world = |scene: &Scene| {
        let (up, own) = (scene.objects[0].transform, scene.objects[1].transform);
        (
            number(up.location.x) + number(up.scale.x) * number(own.location.x),
            number(up.scale.x) * number(own.scale.x),
        )
    };
    let before = world(&scene);
    assert_eq!(before, (6.0, 2.0));
    assert_eq!(apply_scale(&mut scene, parent), Bake::Parameters);
    let after = world(&scene);
    assert!((after.0 - before.0).abs() < 1e-4, "{after:?} vs {before:?}");
    assert!((after.1 - before.1).abs() < 1e-4, "{after:?} vs {before:?}");
    // what is scaled along: direct children alone
    assert_eq!(scene.objects[2].transform, placed(1.0, 0.0, 0.0));
    assert_eq!(children_of(&scene, parent), vec![child]);
    assert_eq!(children_of(&scene, child), vec![grandchild]);
    assert!(children_of(&scene, grandchild).is_empty());
}

#[test]
fn what_was_scaled_is_told() {
    let mut tally = ScaleTally::new();
    let cube = scaled(Primitive::Cube { size: f(2.0) }, (2.0, 2.0, 2.0));
    let flat = scaled(Primitive::Cube { size: f(2.0) }, (2.0, 2.0, 3.0));
    let plain = scaled(Primitive::Cube { size: f(2.0) }, (1.0, 1.0, 1.0));
    assert_eq!(tally.take(&plain, true, true, true), Bake::Unscaled);
    assert_eq!(tally.take(&cube, false, true, true), Bake::Parameters);
    assert_eq!(tally.take(&flat, false, true, false), Bake::NewMesh);
    assert_eq!((tally.applied, tally.baked_meshes, tally.skipped_lights), (2, 1, 0));
    assert!(tally.message().contains('2'), "{}", tally.message());
}

#[test]
fn deleting_removes_what_is_selected() {
    let mut scene = Scene::new();
    let cube = Primitive::Cube { size: f(2.0) };
    let a = add(&mut scene, cube, placed(0.0, 0.0, 0.0));
    let b = add(&mut scene, cube, placed(1.0, 0.0, 0.0));
    let mut selection = Selection::default();
    selection.set(vec![a], Some(a));
    delete_selected(&mut scene, &mut selection);
    assert!(scene.object(a).is_none());
    assert!(scene.object(b).is_some());
    assert!(selection.is_empty());
}

#[test]
fn the_delete_key_asks_nothing_and_x_asks_first() {
    let mut scene = Scene::new();
    let cube = Primitive::Cube { size: f(2.0) };
    let a = add(&mut scene, cube, placed(0.0, 0.0, 0.0));
    let b = add(&mut scene, cube, placed(1.0, 0.0, 0.0));
    let mut selection = Selection::default();
    let mut tool = DeleteTool::new();

    selection.set(vec![a], Some(a));
    let moved = DeleteEvent::Motion { to: ScreenPoint { x: f(7.0), y: f(8.0) } };
    assert!(!tool.handle_event(moved, &mut scene, &mut selection));
    let typed = DeleteEvent::Typed { x: true, keyboard_taken: false };
    tool.handle_event(typed, &mut scene, &mut selection);
    assert!(tool.confirm_open);
    assert_eq!(tool.position, ScreenPoint { x: f(7.0), y: f(8.0) });
    assert!(tool.ui(&selection).is_some());
    assert!(scene.object(a).is_some(), "nothing is gone yet");
    // Escape closes the question
    tool.handle_event(DeleteEvent::EscapeKey { handled: false }, &mut scene, &mut selection);
    assert!(!tool.confirm_open);
    assert!(scene.object(a).is_some());

    let typed = DeleteEvent::Typed { x: true, keyboard_taken: false };
    tool.handle_event(typed, &mut scene, &mut selection);
    tool.confirm(&mut scene, &mut selection);
    assert!(scene.object(a).is_none());
    assert!(!tool.confirm_open);

    selection.set(vec![b], Some(b));
    tool.handle_event(DeleteEvent::DeleteKey { handled: false }, &mut scene, &mut selection);
    assert!(scene.object(b).is_none());
}

#[test]
fn children_hang_below_their_parents() {
    let mut scene = Scene::new();
    let a = add(&mut scene, wall(1.0), placed(0.0, 0.0, 0.0));
    let b = add(&mut scene, wall(1.0), placed(0.0, 0.0, 0.0));
    let c = add(&mut scene, wall(1.0), placed(0.0, 0.0, 0.0));
    scene.objects[0].parent = Some(c);
    scene.objects[2].parent = Some(b);
    assert_eq!(subtree(&scene, b), vec![b, a, c]);
    assert_eq!(subtree(&scene, a), vec![a]);
    assert_eq!(depths(&scene), vec![2, 0, 1]);
}

#[test]
fn a_scene_with_repeated_ids_is_not_sound() {
    let mut scene = Scene::new();
    let a = add(&mut scene, wall(1.0), placed(0.0, 0.0, 0.0));
    add(&mut scene, wall(1.0), placed(0.0, 0.0, 0.0));
    assert!(scene.is_sound());
    let kept = scene.objects[1].id;
    scene.objects[1].id = a;
    assert!(!scene.is_sound());
    scene.objects[1].id = kept;
    assert!(scene.is_sound());
    scene.next_id = kept.0;
    assert!(!scene.is_sound());
}
