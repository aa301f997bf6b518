//! The modifier stack. Cubes are stood for by the points inside them, so that
//! booleans of them can be carried out and measured.

use modeler_app::modifier_ops::{
    add_boolean, apply, remove, set_subdivision, subdivision_only_levels, tool_referenced,
    Evaluated,
};
use modeler_app::modifiers::{
    evaluate, evaluate_stack, judge_result, refusal_message, stamp, Combined, MeshStep,
};
use modeler_app::scalar::{Quat, Scalar, Transform, Vec3};
use modeler_app::scene::{
    BooleanOp, Handle, Modifier, ModifierKind, Object, ObjectId, Primitive, RopeEnd, Scene,
};
use std::rc::Rc;

fn f(x: f32) -> Scalar {
    Scalar::of_bits(x.to_bits())
}

fn at(x: f32, y: f32, z: f32) -> Vec3 {
    Vec3 { x: f(x), y: f(y), z: f(z) }
}

fn placed(x: f32, y: f32, z: f32) -> Transform {
    Transform {
        location: at(x, y, z),
        rotation: Quat { x: f(0.0), y: f(0.0), z: f(0.0), w: f(1.0) },
        scale: at(1.0, 1.0, 1.0),
    }
}

fn blank(primitive: Primitive, transform: Transform) -> Object {
    Object {
        id: ObjectId(0),
        name: "Object".to_string(),
        primitive,
        transform,
        pivot: at(0.0, 0.0, 0.0),
        anchor: at(0.0, 0.0, 0.0),
        parent: None,
        folder: None,
        visible: true,
        group: false,
        smooth: false,
        locked: false,
        dynamic: false,
        density: f(1000.0),
        bounciness: f(0.0),
        initial_force: at(0.0, 0.0, 0.0),
        material: Handle(0),
        face_materials: Vec::new(),
        show_label: false,
        show_dimensions: false,
        modifiers: Vec::new(),
        edited_mesh: None,
        cutouts: Vec::new(),
        floor_outline: Vec::new(),
        terrain: None,
        rope_nodes: None,
        cloth_nodes: None,
        rope_start: RopeEnd::default(),
        rope_end: RopeEnd::default(),
        cloth_anchors: Vec::new(),
        mesh_revision: 0,
        sculpt_revision: 0,
    }
}

fn cube(size: f32) -> Primitive {
    Primitive::Cube { size: f(size) }
}

fn number(x: Scalar) -> f32 {
    f32::from_bits(x.bits)
}

/// The points inside a solid, in its own frame.
type Solid = Rc<dyn Fn([f32; 3]) -> bool>;

fn base(scene: &Scene, id: ObjectId) -> Solid {
    match scene.object(id).map(|o| o.primitive) {
        Some(Primitive::Cube { size }) => {
            let half = 0.5 * number(size);
            Rc::new(move |p: [f32; 3]| p.iter().all(|c| c.abs() < half))
        }
        _ => Rc::new(|_: [f32; 3]| false),
    }
}

fn place(scene: &Scene, id: ObjectId) -> [f32; 3] {
    let at = scene.object(id).unwrap().transform.location;
    [number(at.x), number(at.y), number(at.z)]
}

/// Sampled at the middles of small cells: exact for solids on their grid.
fn volume(solid: &Solid) -> f32 {
    let cell = 0.125f32;
    let n = 24i32;
    let mut found = 0;
    for x in -n..n {
        for y in -n..n {
            for z in -n..n {
                let p = [x, y, z].map(|k| (k as f32 + 0.5) * cell);
                if solid(p) {
                    found += 1;
                }
            }
        }
    }
    found as f32 * cell * cell * cell
}

fn carry_out(scene: &Scene, steps: Vec<MeshStep>) -> Result<Solid, String> {
    let mut stack: Vec<Solid> = Vec::new();
    for step in steps {
        match step {
            MeshStep::Empty => stack.push(Rc::new(|_: [f32; 3]| false)),
            MeshStep::Base(id) => stack.push(base(scene, id)),
            MeshStep::Subdivide { .. } => unreachable!(),
            MeshStep::Combine { op, tool, target, strict } => {
                let cutter = stack.pop().unwrap();
                let below = stack.pop().unwrap();
                let (from, to) = (place(scene, target), place(scene, tool));
                let kept = below.clone();
                let made: Solid = Rc::new(move |p: [f32; 3]| {
                    let q = [0, 1, 2].map(|k| p[k] + from[k] - to[k]);
                    match op {
                        BooleanOp::Union => below(p) || cutter(q),
                        BooleanOp::Subtract => below(p) && !cutter(q),
                        BooleanOp::Intersect => below(p) && cutter(q),
                    }
                });
                match judge_result(volume(&made) == 0.0, strict) {
                    Combined::Taken => stack.push(made),
                    Combined::Skipped => stack.push(kept),
                    Combined::Refused => {
                        return Err(refusal_message(&scene.object(tool).unwrap().name))
                    }
                }
            }
        }
    }
    Ok(stack.pop().unwrap())
}

fn preview(scene: &Scene, id: ObjectId) -> f32 {
    volume(&carry_out(scene, evaluate(scene, id)).unwrap())
}

fn worlds(scene: &Scene) -> Vec<Transform> {
    scene.objects.iter().map(|o| o.transform).collect()
}

/// Applies the whole stack; the baked mesh is the handle 77.
fn apply_all(scene: &mut Scene, id: ObjectId) -> Result<(String, f32), String> {
    let evaluated = carry_out(scene, evaluate_stack(scene, id, usize::MAX, true));
    let (outcome, volume) = match &evaluated {
        Ok(solid) => {
            let v = volume(solid);
            (Evaluated::Mesh { handle: Handle(77), empty: v == 0.0 }, v)
        }
        Err(e) => (Evaluated::Refused(e.clone()), 0.0),
    };
    apply(scene, id, usize::MAX, outcome).map(|said| (said, volume))
}

fn add(scene: &mut Scene, primitive: Primitive, transform: Transform) -> ObjectId {
    scene.insert_object(blank(primitive, transform))
}

fn two_cubes(scene: &mut Scene) -> (ObjectId, ObjectId) {
    let target = add(scene, cube(1.0), placed(0.0, 0.0, 0.0));
    let tool = add(scene, cube(1.0), placed(0.25, 0.25, 0.25));
    (target, tool)
}

fn visible(scene: &Scene, id: ObjectId) -> bool {
    scene.object(id).unwrap().visible
}

#[test]
fn boolean_modifier_previews_without_touching_the_document() {
    let mut scene = Scene::new();
    let (target, tool) = two_cubes(&mut scene);
    let message =
        add_boolean(&mut scene, target, &vec![tool], BooleanOp::Subtract, "Subtract").unwrap();
    assert!(message.contains("preview is live"), "{message}");
    assert!(!visible(&scene, tool), "tool hidden for preview");

    // preview shows the carved shape…
    let expected = 1.0 - 0.75f32.powi(3);
    assert!((preview(&scene, target) - expected).abs() < 1e-3);
    // …but the document is untouched: no edited mesh, tool still there
    assert!(scene.object(target).unwrap().edited_mesh.is_none());
    assert!(scene.object(tool).is_some());

    // moving the tool changes the preview (and the cache stamp)
    let before = stamp(&scene, &worlds(&scene), target);
    let i = scene.find(tool).unwrap();
    scene.objects[i].transform = placed(0.5, 0.5, 0.5);
    assert_ne!(stamp(&scene, &worlds(&scene), target), before, "stamp follows the tool");
    let expected = 1.0 - 0.5f32.powi(3);
    assert!((preview(&scene, target) - expected).abs() < 1e-3);

    // disabling the modifier restores the base mesh in the preview
    let i = scene.find(target).unwrap();
    scene.objects[i].modifiers[0].enabled = false;
    assert!((preview(&scene, target) - 1.0).abs() < 1e-3);
}

#[test]
fn apply_bakes_the_stack_and_consumes_the_tool() {
    let mut scene = Scene::new();
    let (target, tool) = two_cubes(&mut scene);
    add_boolean(&mut scene, target, &vec![tool], BooleanOp::Subtract, "Subtract").unwrap();

    let (message, volume) = apply_all(&mut scene, target).unwrap();
    assert!(message.contains("applied 1 modifier"), "{message}");
    assert!(message.contains("1 tool object consumed"), "{message}");

    let object = scene.object(target).unwrap();
    assert!(object.modifiers.is_empty(), "stack drained");
    assert_eq!(object.edited_mesh, Some(Handle(77)), "baked into the mesh");
    let expected = 1.0 - 0.75f32.powi(3);
    assert!((volume - expected).abs() < 1e-3);
    assert!(scene.object(tool).is_none(), "tool consumed");
}

#[test]
fn shared_tools_survive_until_the_last_reference_applies() {
    let mut scene = Scene::new();
    let a = add(&mut scene, cube(1.0), placed(0.0, 0.0, 0.0));
    let b = add(&mut scene, cube(1.0), placed(0.5, 0.0, 0.0));
    let cutter = add(&mut scene, cube(0.5), placed(0.25, 0.0, 0.0));
    add_boolean(&mut scene, a, &vec![cutter], BooleanOp::Subtract, "Subtract").unwrap();
    add_boolean(&mut scene, b, &vec![cutter], BooleanOp::Subtract, "Subtract").unwrap();
    assert!(tool_referenced(&scene, cutter));

    apply_all(&mut scene, a).unwrap();
    assert!(scene.object(cutter).is_some(), "still referenced by b");
    apply_all(&mut scene, b).unwrap();
    assert!(scene.object(cutter).is_none(), "last reference consumes it");
}

#[test]
fn remove_restores_the_tools_visibility() {
    let mut scene = Scene::new();
    let (target, tool) = two_cubes(&mut scene);
    add_boolean(&mut scene, target, &vec![tool], BooleanOp::Union, "Union").unwrap();
    assert!(!visible(&scene, tool));
    remove(&mut scene, target, 0, "Boolean").unwrap();
    assert!(scene.object(target).unwrap().modifiers.is_empty());
    assert!(visible(&scene, tool), "tool shown again");
}

#[test]
fn boolean_cycles_fall_back_to_base_meshes() {
    let mut scene = Scene::new();
    let (a, b) = two_cubes(&mut scene);
    let cut = |object: ObjectId| {
        Modifier::new(ModifierKind::Boolean { op: BooleanOp::Subtract, object })
    };
    let (i, j) = (scene.find(a).unwrap(), scene.find(b).unwrap());
    scene.objects[i].modifiers.push(cut(b));
    scene.objects[j].modifiers.push(cut(a));
    // no hang, no stack overflow. The cycle breaks at the second visit
    // (the tool evaluates against the other's BASE mesh), so each tool
    // loses exactly its overlap first and the subtract removes nothing:
    // both previews stay their base cubes — stable and deterministic.
    assert!((preview(&scene, a) - 1.0).abs() < 1e-3);
    assert!((preview(&scene, b) - 1.0).abs() < 1e-3);
    // stamps terminate too
    let _ = stamp(&scene, &worlds(&scene), a);
}

#[test]
fn empty_boolean_results_are_skipped_in_preview_and_refused_on_apply() {
    let mut scene = Scene::new();
    let target = add(&mut scene, cube(1.0), placed(0.0, 0.0, 0.0));
    let swallower = add(&mut scene, cube(5.0), placed(0.0, 0.0, 0.0));
    add_boolean(&mut scene, target, &vec![swallower], BooleanOp::Subtract, "Subtract").unwrap();
    // preview: the stage is skipped, the object stays selectable
    assert!((preview(&scene, target) - 1.0).abs() < 1e-3);
    // apply: refused because the whole result would be empty
    assert!(apply_all(&mut scene, target).is_err());
    assert!(scene.object(target).unwrap().edited_mesh.is_none());
}

#[test]
fn booleans_that_make_no_sense_are_refused() {
    let mut scene = Scene::new();
    let (target, tool) = two_cubes(&mut scene);
    let empty = add(&mut scene, Primitive::Empty { size: f(1.0) }, placed(0.0, 0.0, 0.0));
    let try_it = |scene: &mut Scene, target: ObjectId, tools: Vec<ObjectId>| {
        add_boolean(scene, target, &tools, BooleanOp::Union, "Union")
    };
    for (on, with) in [
        (target, vec![]),
        (target, vec![target]),
        (target, vec![ObjectId(99)]),
        (ObjectId(99), vec![tool]),
        (target, vec![empty]),
        (empty, vec![tool]),
    ] {
        assert!(try_it(&mut scene, on, with.clone()).is_err(), "{on:?} {with:?}");
        assert!(scene.object(target).unwrap().modifiers.is_empty());
        assert!(visible(&scene, tool));
    }
    assert!(try_it(&mut scene, target, vec![tool, tool]).is_ok());
    assert_eq!(scene.object(target).unwrap().modifiers.len(), 1, "each tool once");
}

#[test]
fn removing_what_is_not_there_is_an_error() {
    let mut scene = Scene::new();
    let (target, _) = two_cubes(&mut scene);
    assert!(remove(&mut scene, target, 0, "Boolean").is_err());
    assert!(remove(&mut scene, ObjectId(99), 0, "Boolean").is_err());
    assert!(apply_all(&mut scene, target).is_err(), "nothing to apply");
}

#[test]
fn the_last_subdivision_wins_and_zero_removes_it() {
    let mut scene = Scene::new();
    let id = add(&mut scene, cube(2.0), placed(0.0, 0.0, 0.0));
    set_subdivision(&mut scene, id, 3);
    set_subdivision(&mut scene, id, 1);
    let stack = &scene.object(id).unwrap().modifiers;
    assert_eq!(stack.len(), 1);
    assert_eq!(subdivision_only_levels(stack), Some(1));
    assert_eq!(
        evaluate(&scene, id),
        vec![MeshStep::Base(id), MeshStep::Subdivide { levels: 1, smooth: false }]
    );
    set_subdivision(&mut scene, id, 0);
    assert!(scene.object(id).unwrap().modifiers.is_empty());
    assert_eq!(evaluate(&scene, id), vec![MeshStep::Base(id)]);
}

#[test]
fn an_empty_result_is_skipped_or_refused() {
    assert_eq!(judge_result(false, true), Combined::Taken);
    assert_eq!(judge_result(true, false), Combined::Skipped);
    assert_eq!(judge_result(true, true), Combined::Refused);
    assert!(refusal_message("Cutter").contains("Cutter"));
}
