//! The tools of the view, driven by events.

use modeler_app::modal::{
    axis_name, is_ancestor, snap_objects, start_request, write_locals, Button, Constraint,
    FrameEnd, GuideKind, Kind, ModalEvent, ModalKey, ModalTransform, Mouse, Request,
};
use modeler_app::modal_apply::{
    duplicate_selection, grab_status, plan_grab, plan_rotation, plan_scaling, rotate_status,
    scale_status, snap_source, snap_target, write_targets, GrabSource, TurnAxis, WorldSource,
};
use modeler_app::overlay::{
    adornments, dimensions_text, image_caption, marks, Adornment, MeasureTool, Measurement,
};
use modeler_app::poke::{poke_status, PokeEvent, PokeTool};
use modeler_app::roof_tool::{Fit, RoofEvent, RoofTool};
use modeler_app::rope_handles::{
    attach_exclusions, attached_ropes, needs_snap, ray_attach_target, set_rope_span,
    snap_rope_rest_pose, valid_attach_target, HoverTarget, Misfit, Reaction, RopeHandles, Tip,
    Which,
};
use modeler_app::scalar::{Quat, Scalar, Transform, Vec3};
use modeler_app::scene::{
    Handle, Object, ObjectId, Primitive, RopeEnd, Scene, WallCutout,
};
use modeler_app::selection::Selection;
use modeler_app::terrain_sculpt::{layer_step, BrushMode, LayerStep, SculptEvent, SculptTool};

fn f(x: f32) -> Scalar {
    Scalar::of_bits(x.to_bits())
}

fn at(x: f32, y: f32, z: f32) -> Vec3 {
    Vec3 { x: f(x), y: f(y), z: f(z) }
}

fn placed(x: f32, y: f32, z: f32) -> Transform {
    Transform {
        location: at(x, y, z),
        rotation: Quat { x: f(0.0), y: f(0.0), z: f(0.0), w: f(1.0) },
        scale: at(1.0, 1.0, 1.0),
    }
}

fn blank(primitive: Primitive, transform: Transform) -> Object {
    Object {
        id: ObjectId(0),
        name: "Object".to_string(),
        primitive,
        transform,
        pivot: at(0.0, 0.0, 0.0),
        anchor: at(0.0, 0.0, 0.0),
        parent: None,
        folder: None,
        visible: true,
        group: false,
        smooth: false,
        locked: false,
        dynamic: false,
        density: f(1000.0),
        bounciness: f(0.0),
        initial_force: at(0.0, 0.0, 0.0),
        material: Handle(0),
        face_materials: Vec::new(),
        show_label: false,
        show_dimensions: false,
        modifiers: Vec::new(),
        edited_mesh: None,
        cutouts: Vec::new(),
        floor_outline: Vec::new(),
        terrain: None,
        rope_nodes: None,
        cloth_nodes: None,
        rope_start: RopeEnd::default(),
        rope_end: RopeEnd::default(),
        cloth_anchors: Vec::new(),
        mesh_revision: 0,
        sculpt_revision: 0,
    }
}

fn number(x: Scalar) -> f32 {
    f32::from_bits(x.bits)
}

fn mouse(x: f32, y: f32) -> Mouse {
    Mouse { x: f(x), y: f(y) }
}

fn cube() -> Primitive {
    Primitive::Cube { size: f(2.0) }
}

fn add(scene: &mut Scene, primitive: Primitive, transform: Transform) -> ObjectId {
    scene.insert_object(blank(primitive, transform))
}

fn get(scene: &mut Scene, id: ObjectId) -> &mut Object {
    let i = scene.find(id).unwrap();
    &mut scene.objects[i]
}

fn worlds(scene: &Scene) -> Vec<Transform> {
    scene.objects.iter().map(|o| o.transform).collect()
}

fn roof(side: f32) -> Primitive {
    Primitive::Roof {
        kind: 2,
        width: f(side),
        depth: f(side),
        height: f(0.5 * side),
        overhang: f(0.0),
        ridge_x: true,
    }
}

/// The rectangle between two corners; a roof is half as high as its shorter
/// side.
fn fit(anchor: Vec3, corner: (f32, f32)) -> Fit {
    let (ax, ay) = (number(anchor.x), number(anchor.y));
    let (w, d) = ((corner.0 - ax).abs(), (corner.1 - ay).abs());
    Fit {
        size_x: f(w),
        size_y: f(d),
        center: at(0.5 * (ax + corner.0), 0.5 * (ay + corner.1), 0.0),
        height: f(0.5 * w.max(0.1).min(d.max(0.1))),
        at_rest: false,
    }
}

#[test]
fn rectangle_rubber_bands_and_cancel_removes_the_pending_roof() {
    let mut scene = Scene::new();
    let mut selection = Selection::default();
    let mut tool = RoofTool::new();
    tool.start(2);
    assert!(tool.active() && !tool.drawing());

    // first click: a pending roof appears at the anchor
    let blank_roof = blank(roof(0.1), placed(1.0, 2.0, 0.0));
    tool.begin_rect(&mut scene, &mut selection, blank_roof, at(1.0, 2.0, 0.0), f(0.05));
    assert_eq!(scene.objects.len(), 1);
    let (id, anchor) = tool.pending().unwrap();
    assert_eq!(selection.active(), Some(id));

    // rubber-band to the opposite corner: footprint and center follow
    tool.update_rect(&mut scene, id, fit(anchor, (5.0, -1.0)));
    let object = scene.object(id).unwrap();
    let Primitive::Roof { kind, width, depth, height, ridge_x, .. } = object.primitive else {
        panic!("not a roof")
    };
    assert_eq!(kind, 2);
    assert!((number(width) - 4.0).abs() < 1e-5);
    assert!((number(depth) - 3.0).abs() < 1e-5);
    assert!(number(height) > 0.0 && ridge_x, "ridge follows the longer side");
    assert_eq!(object.transform.location, at(3.0, 0.5, 0.0));
    let line = tool.status_line("Hip", "4.000 m", "3.000 m").unwrap();
    assert!(line.contains("Roof (Hip): 4.000 m × 3.000 m"), "{line}");

    // abort removes the pending roof and turns the tool off
    tool.abort(&mut scene);
    assert!(scene.objects.is_empty());
    assert!(!tool.active());
}

#[test]
fn a_roof_that_is_too_small_is_not_kept() {
    for (corner, kept) in [((1.05, 8.0), 0), ((3.0, 8.0), 1)] {
        let mut scene = Scene::new();
        let mut selection = Selection::default();
        let mut tool = RoofTool::new();
        tool.start(0);
        let first = blank(roof(0.1), placed(1.0, 2.0, 0.0));
        tool.begin_rect(&mut scene, &mut selection, first, at(1.0, 2.0, 0.0), f(0.05));
        tool.place_second(&mut scene, fit(at(1.0, 2.0, 0.0), corner));
        assert_eq!(scene.objects.len(), kept);
        assert!(!tool.active() && !tool.drawing());
    }
}

#[test]
fn the_roof_tool_takes_its_events() {
    let mut tool = RoofTool::new();
    tool.start(1);
    let press = |button: Button| RoofEvent::Press {
        button,
        at: mouse(4.0, 5.0),
        ctrl: true,
        handled: false,
        over_ui: false,
    };
    let left = tool.handle_event(press(Button::Left));
    assert_eq!((left.used, left.place, left.cancel), (true, Some(mouse(4.0, 5.0)), false));
    assert!(!tool.snaps(true) && tool.snaps(false), "the control key inverts snapping");
    let middle = tool.handle_event(press(Button::Middle));
    assert!(!middle.used && middle.place.is_none());
    assert!(tool.handle_event(press(Button::Right)).cancel);
    let enter = RoofEvent::Key { key: ModalKey::Enter, handled: false };
    assert!(tool.handle_event(enter).finish);
    let letter = RoofEvent::Text { empty: false, taken: false };
    assert!(tool.handle_event(letter).used, "letters do nothing else meanwhile");
    tool.handle_event(RoofEvent::Motion { at: mouse(1.0, 1.0), ctrl: false });
    assert_eq!(tool.mouse(), mouse(1.0, 1.0));
}

fn terrain() -> Primitive {
    Primitive::Terrain { size: f(64.0), resolution: 65, height: f(8.0), seed: 1 }
}

#[test]
fn dab_bumps_sculpt_revision_and_stroke_end_bumps_mesh_revision() {
    let mut scene = Scene::new();
    let id = add(&mut scene, terrain(), placed(0.0, 0.0, 0.0));
    let mut tool = SculptTool::new();
    tool.start(id);
    let press = SculptEvent::Press {
        button: Button::Left,
        at: mouse(0.0, 0.0),
        ctrl: false,
        handled: false,
        over_ui: false,
    };
    assert!(tool.handle_event(press, &mut scene).used);
    assert!(tool.stroking());

    let before = scene.object(id).unwrap().mesh_revision;
    assert_eq!(tool.point_at(Some(at(0.0, 0.0, 3.0))), Some(at(0.0, 0.0, 3.0)));
    // the sculpting is made at the resolution of the terrain
    assert_eq!(layer_step(None, 65, 2, 512), LayerStep::Create { resolution: 65 });
    tool.apply_dab(&mut scene, id);
    let object = scene.object(id).unwrap();
    assert_eq!(object.sculpt_revision, 1);
    assert_eq!(object.mesh_revision, before, "physics must not rebuild mid-stroke");

    tool.finish_stroke(&mut scene);
    assert_eq!(scene.object(id).unwrap().mesh_revision, before + 1);
    assert!(!tool.stroking());
}

#[test]
fn tool_deactivates_when_the_target_vanishes() {
    let mut scene = Scene::new();
    let id = add(&mut scene, terrain(), placed(0.0, 0.0, 0.0));
    let mut tool = SculptTool::new();
    tool.start(id);
    assert!(tool.begin_frame(&scene));
    assert_eq!(tool.target(), Some(id));
    scene.remove_object(id);
    assert!(!tool.begin_frame(&scene));
    assert!(!tool.active());
    assert_eq!(tool.target(), None);
}

#[test]
fn the_brush_reads_the_control_key_and_the_surface() {
    let mut scene = Scene::new();
    let id = add(&mut scene, terrain(), placed(0.0, 0.0, 0.0));
    let mut tool = SculptTool::new();
    tool.start(id);
    assert_eq!(tool.effective_mode(), BrushMode::Raise);
    tool.handle_event(SculptEvent::Motion { at: mouse(1.0, 2.0), ctrl: true }, &mut scene);
    assert_eq!(tool.effective_mode(), BrushMode::Lower);
    tool.mode = BrushMode::Smooth;
    assert_eq!(tool.effective_mode(), BrushMode::Smooth);
    assert!(SculptTool::reads_surface(BrushMode::Flatten));
    assert!(!SculptTool::reads_surface(BrushMode::Lower));
    assert_eq!(SculptTool::dab_time(f(3.0)), f(0.1));
    assert_eq!(SculptTool::dab_time(f(0.05)), f(0.05));
    assert_eq!(layer_step(Some(65), 65, 2, 512), LayerStep::Keep);
    assert_eq!(layer_step(Some(65), 900, 2, 512), LayerStep::Resample { resolution: 512 });
    // flattening pulls towards the height where the stroke began
    tool.point_at(Some(at(1.0, 2.0, 7.5)));
    let press = SculptEvent::Press {
        button: Button::Left,
        at: mouse(0.0, 0.0),
        ctrl: false,
        handled: false,
        over_ui: false,
    };
    tool.handle_event(press, &mut scene);
    assert_eq!(tool.hover().1, f(7.5));
    let line = tool.status_line("Smooth", "smooth", "8.000 m").unwrap();
    assert!(line.contains("Sculpt (Smooth): drag to smooth · radius 8.000 m"), "{line}");
    let escape = SculptEvent::Key { key: ModalKey::Escape, handled: false };
    assert!(tool.handle_event(escape, &mut scene).exit);
    tool.abort(&mut scene);
    assert_eq!(scene.object(id).unwrap().mesh_revision, 1, "a stroke cut short counts");
}

#[test]
fn a_kick_is_charged_while_held() {
    let mut tool = PokeTool::new();
    let press = |handled: bool, over_ui: bool| PokeEvent::Press {
        button: Button::Left,
        handled,
        over_ui,
    };
    let release = PokeEvent::Release { button: Button::Left };
    assert!(!tool.handle_event(press(false, false), false).used, "nothing runs");
    assert!(!tool.handle_event(press(false, true), true).used, "over a panel");
    assert!(tool.handle_event(press(false, false), true).used);
    assert_eq!(tool.charge(), Some(f(0.0)));
    tool.update(f(0.3), true);
    let reply = tool.handle_event(release, true);
    assert_eq!((reply.used, reply.kick), (true, Some(f(0.3))));
    assert_eq!(tool.charge(), None);
    tool.handle_event(press(false, false), true);
    tool.update(f(0.3), false);
    assert_eq!(tool.charge(), None, "a pause cancels the kick");
    assert_eq!(poke_status("130"), "poked at 130% power");
}

#[test]
fn two_points_make_a_measurement() {
    let mut kept: Vec<Measurement> = Vec::new();
    let mut tool = MeasureTool::new();
    tool.start();
    tool.add_point(at(0.0, 0.0, 0.0), &mut kept);
    assert!(tool.active && tool.first.is_some() && kept.is_empty());
    tool.add_point(at(3.0, 0.0, 0.0), &mut kept);
    assert_eq!(kept, vec![Measurement { a: at(0.0, 0.0, 0.0), b: at(3.0, 0.0, 0.0) }]);
    assert!(!tool.active && tool.first.is_none());
    tool.start();
    tool.cancel();
    assert!(!tool.active);
}

#[test]
fn names_and_sizes_are_written_above_visible_objects() {
    let mut scene = Scene::new();
    let a = add(&mut scene, cube(), placed(0.0, 0.0, 0.0));
    let b = add(&mut scene, cube(), placed(1.0, 0.0, 0.0));
    add(&mut scene, cube(), placed(2.0, 0.0, 0.0));
    get(&mut scene, a).show_label = true;
    get(&mut scene, b).show_dimensions = true;
    assert_eq!(
        adornments(&scene),
        vec![
            Adornment { object: 0, label: true, dimensions: false },
            Adornment { object: 1, label: false, dimensions: true },
        ]
    );
    get(&mut scene, a).visible = false;
    assert_eq!(adornments(&scene).len(), 1);
    assert_eq!(dimensions_text("1.00", "2.00", "3.00", "m"), "1.00 × 2.00 × 3.00 m");
    assert_eq!(image_caption("plan"), "plan  ·  G move · End to ground");
}

/// Where the vertices go that snap to what is under the cursor.
fn vertex_snap_delta(
    candidates: &[(f32, f32, f32)],
    sources: &[(f32, f32, f32)],
    cursor: (f32, f32),
) -> Option<((f32, f32, f32), (f32, f32, f32))> {
    let distances = candidates
        .iter()
        .map(|c| f(((c.0 - cursor.0).powi(2) + (c.1 - cursor.1).powi(2)).sqrt()))
        .collect();
    let target = candidates[snap_target(&distances, f(30.0))?];
    let squares = sources
        .iter()
        .map(|s| {
            f((s.0 - target.0).powi(2) + (s.1 - target.1).powi(2) + (s.2 - target.2).powi(2))
        })
        .collect();
    let source = sources[snap_source(&squares)?];
    Some(((target.0 - source.0, target.1 - source.1, target.2 - source.2), target))
}

#[test]
fn vertex_snap_picks_cursor_candidate_and_closest_source() {
    // screen mapping: x/y passthrough (z ignored)
    let candidates = [(100.0, 100.0, 0.0), (500.0, 500.0, 2.0)];
    let sources = [(90.0, 90.0, 0.0), (400.0, 400.0, 0.0)];

    // cursor near the first candidate -> snapped to it, from the nearest source
    let (delta, target) = vertex_snap_delta(&candidates, &sources, (105.0, 98.0)).unwrap();
    assert_eq!(target, (100.0, 100.0, 0.0));
    assert_eq!(delta, (10.0, 10.0, 0.0));

    // cursor far from every candidate -> no snap
    assert!(vertex_snap_delta(&candidates, &sources, (300.0, 0.0)).is_none());
    // no moving vertices -> no snap
    assert!(vertex_snap_delta(&candidates, &[], (105.0, 98.0)).is_none());
}

fn typed(text: &str) -> ModalEvent {
    ModalEvent::Text { text: text.to_string(), taken: false }
}

fn grabbing() -> (Scene, ObjectId, Selection, ModalTransform) {
    let mut scene = Scene::new();
    let id = add(&mut scene, cube(), placed(1.0, 0.0, 0.0));
    let mut selection = Selection::default();
    selection.set(vec![id], Some(id));
    let mut tool = ModalTransform::new();
    tool.handle_event(&ModalEvent::Motion { at: mouse(5.0, 6.0), ctrl: false, handled: false });
    tool.start(Kind::Grab, &scene, &worlds(&scene), &selection, at(1.0, 0.0, 0.0));
    (scene, id, selection, tool)
}

#[test]
fn an_operator_is_typed_and_constrained() {
    let (_, _, _, mut tool) = grabbing();
    assert!(tool.active());
    assert_eq!(tool.kind(), Some(Kind::Grab));
    tool.handle_event(&typed("x"));
    assert_eq!(tool.constraint(), Some(Constraint::Axis(0)));
    tool.handle_event(&typed("X"));
    assert_eq!(tool.constraint(), Some(Constraint::Plane(0)), "Shift locks the plane");
    tool.handle_event(&typed("X"));
    assert_eq!(tool.constraint(), Some(Constraint::Free));
    for text in ["1", "2", ".", "5", ".", "-"] {
        tool.handle_event(&typed(text));
    }
    assert_eq!(tool.numeric_value().as_deref(), Some("-12.5"));
    tool.handle_event(&typed("-"));
    assert_eq!(tool.typed_text(), "12.5");
    let back = ModalEvent::Key { key: ModalKey::Backspace, ctrl: false, handled: false };
    tool.handle_event(&back);
    assert_eq!(tool.typed_text(), "12.");
    let guides = tool.guides().unwrap();
    assert_eq!(guides.kind, GuideKind::Move);
    assert_eq!(guides.start_mouse, mouse(5.0, 6.0));
    assert_eq!(guides.pivot, at(1.0, 0.0, 0.0));
}

#[test]
fn a_cancelled_operator_puts_everything_back() {
    let (mut scene, id, _, mut tool) = grabbing();
    write_locals(&mut scene, &vec![(id, placed(9.0, 9.0, 9.0))]);
    assert_eq!(scene.object(id).unwrap().transform, placed(9.0, 9.0, 9.0));
    let right = ModalEvent::Press { button: Button::Right, at: mouse(0.0, 0.0), handled: false };
    let reply = tool.handle_event(&right);
    assert!(reply.cancel && reply.handled && !reply.confirm);
    // cancelling goes before confirming
    assert_eq!(tool.end_frame(&mut scene, true, true), FrameEnd::Cancelled);
    assert!(!tool.active());
    assert_eq!(scene.object(id).unwrap().transform, placed(1.0, 0.0, 0.0));

    let (mut scene, id, _, mut tool) = grabbing();
    write_locals(&mut scene, &vec![(id, placed(9.0, 9.0, 9.0))]);
    let enter = ModalEvent::Key { key: ModalKey::Enter, ctrl: false, handled: false };
    assert!(tool.handle_event(&enter).confirm);
    let end = tool.end_frame(&mut scene, true, false);
    assert_eq!(end, FrameEnd::Apply { confirm: true });
    tool.confirm();
    assert_eq!(scene.object(id).unwrap().transform, placed(9.0, 9.0, 9.0));
}

#[test]
fn a_cancelled_scaling_puts_children_back() {
    let mut scene = Scene::new();
    let id = add(&mut scene, cube(), placed(1.0, 0.0, 0.0));
    let child = add(&mut scene, cube(), placed(0.0, 2.0, 0.0));
    scene.objects[1].parent = Some(id);
    let mut selection = Selection::default();
    selection.set(vec![id], Some(id));
    let mut tool = ModalTransform::new();
    tool.start(Kind::Scale, &scene, &worlds(&scene), &selection, at(1.0, 0.0, 0.0));
    write_locals(&mut scene, &vec![(id, placed(9.0, 0.0, 0.0)), (child, placed(9.0, 9.0, 9.0))]);
    tool.cancel(&mut scene);
    assert_eq!(scene.object(id).unwrap().transform, placed(1.0, 0.0, 0.0));
    assert_eq!(scene.object(child).unwrap().transform, placed(0.0, 2.0, 0.0));
}

#[test]
fn letters_start_operators() {
    assert_eq!(start_request("g"), Some(Request::Start(Kind::Grab)));
    assert_eq!(start_request("r"), Some(Request::Start(Kind::Rotate)));
    assert_eq!(start_request("s"), Some(Request::Start(Kind::Scale)));
    assert_eq!(start_request("D"), Some(Request::Duplicate));
    assert_eq!(start_request("q"), None);
    assert_eq!((axis_name(0), axis_name(1), axis_name(2)), ("X", "Y", "Z"));
}

#[test]
fn children_of_what_moves_are_no_snap_targets() {
    let (mut scene, id, selection, tool) = grabbing();
    let child = add(&mut scene, cube(), placed(1.0, 1.0, 0.0));
    let other = add(&mut scene, cube(), placed(5.0, 1.0, 0.0));
    get(&mut scene, child).parent = Some(id);
    assert!(is_ancestor(&scene, id, child));
    assert!(!is_ancestor(&scene, child, id));
    assert_eq!(snap_objects(&scene, &selection), vec![other]);
    assert_eq!(tool.originals().len(), 1);
    let writes = write_targets(&scene, &tool.originals(), &tool.frozen());
    assert_eq!(writes.len(), 1);
    assert_eq!((writes[0].id, writes[0].world), (id, WorldSource::Target(0)));
}

#[test]
fn a_child_follows_what_moves_above_its_parent() {
    let mut scene = Scene::new();
    let g = add(&mut scene, cube(), placed(0.0, 0.0, 0.0));
    let p = add(&mut scene, cube(), placed(1.0, 0.0, 0.0));
    let c = add(&mut scene, cube(), placed(0.0, 1.0, 0.0));
    let alone = add(&mut scene, cube(), placed(0.0, 0.0, 4.0));
    let d = add(&mut scene, cube(), placed(0.0, 0.0, 1.0));
    scene.objects[1].parent = Some(g);
    scene.objects[2].parent = Some(p);
    scene.objects[4].parent = Some(alone);
    let mut selection = Selection::default();
    selection.set(vec![g, c, d], Some(g));
    let worlds = scene.objects.iter().map(|o| o.transform).collect();
    let mut tool = ModalTransform::new();
    tool.start(Kind::Grab, &scene, &worlds, &selection, at(0.0, 0.0, 0.0));
    let writes = write_targets(&scene, &tool.originals(), &tool.frozen());
    assert_eq!(writes.len(), 3);
    assert!(writes[0].parent.is_none());
    let frame = writes[1].parent.as_ref().unwrap();
    assert_eq!((writes[1].id, frame.base), (c, WorldSource::Target(0)));
    assert_eq!(frame.chain, vec![p]);
    let frame = writes[2].parent.as_ref().unwrap();
    assert_eq!((frame.base, frame.chain.len()), (WorldSource::Scene(alone), 0));
}

#[test]
fn operators_follow_what_was_typed_or_snapped() {
    let free = Constraint::Free;
    let plan = plan_grab(Constraint::Axis(1), true, true, true, false, true);
    assert_eq!(plan.source, GrabSource::Typed { axis: 1 });
    let plan = plan_grab(free, false, false, true, false, true);
    assert_eq!(plan.source, GrabSource::Vertex);
    let plan = plan_grab(free, false, true, false, false, false);
    assert_eq!((plan.source, plan.grid), (GrabSource::Pointer, true));
    let line = grab_status("1.0", "0.0", "0.0", "m", Constraint::Axis(2), "", &plan);
    assert!(line.contains("1.0") && line.contains('Z'), "{line}");
    assert_eq!(plan_rotation(Constraint::Axis(2), false, true), (TurnAxis::World(2), true));
    assert_eq!(plan_rotation(free, true, true), (TurnAxis::View, false));
    assert_eq!(plan_scaling(Constraint::Axis(0), false, false).0, (true, false, false));
    assert_eq!(plan_scaling(Constraint::Plane(0), false, false).0, (false, true, true));
    assert!(rotate_status("90.0", free, "").contains("90.0"));
    assert!(scale_status("2.000", free, "2").contains("2.000"));
}

#[test]
fn copies_are_selected_in_place_of_what_was_copied() {
    let (mut scene, id, mut selection, _) = grabbing();
    let name = "Cube.001".to_string();
    let (next, stamp) = (scene.next_id, selection.stamp());
    assert!(duplicate_selection(&mut scene, &mut selection, vec![name]));
    assert_eq!((scene.next_id, selection.stamp()), (next + 1, stamp + 1));
    assert_eq!(scene.objects.len(), 2);
    let new = selection.active().unwrap();
    assert_ne!(new, id);
    assert_eq!(selection.selected(), &vec![new]);
    assert_eq!(scene.object(new).unwrap().transform, placed(1.0, 0.0, 0.0));
    assert_eq!(scene.object(new).unwrap().name, "Cube.001");
    // with nothing to copy, nothing changes
    selection.set(Vec::new(), None);
    let stamp = selection.stamp();
    assert!(!duplicate_selection(&mut scene, &mut selection, Vec::new()));
    assert_eq!((scene.next_id, selection.stamp()), (next + 1, stamp));
}

#[test]
fn a_copied_wall_keeps_its_opening() {
    let mut scene = Scene::new();
    let wall = Primitive::Wall { length: f(4.0), height: f(2.5), thickness: f(0.2) };
    let w = add(&mut scene, wall, placed(0.0, 0.0, 0.0));
    let cutout =
        WallCutout { offset: f(1.5), width: f(1.0), bottom: f(0.0), height: f(2.1) };
    scene.objects[0].cutouts = vec![cutout];
    scene.objects[0].bounciness = f(0.5);
    scene.objects[0].pivot = at(0.5, 0.0, 0.0);
    let child = add(&mut scene, cube(), placed(1.0, 0.0, 0.0));
    scene.objects[1].parent = Some(w);
    let mut selection = Selection::default();
    selection.set(vec![w], Some(w));
    assert!(duplicate_selection(&mut scene, &mut selection, vec!["Wall.001".to_string()]));
    assert_eq!(scene.objects.len(), 3);
    let n = selection.active().unwrap();
    assert_eq!(selection.selected(), &vec![n]);
    for id in [w, n] {
        let o = scene.object(id).unwrap();
        assert_eq!((o.primitive, o.transform), (wall, placed(0.0, 0.0, 0.0)));
        assert_eq!(o.cutouts, vec![cutout]);
        assert_eq!((o.bounciness, o.pivot), (f(0.5), at(0.5, 0.0, 0.0)));
    }
    // a copied child follows the copy of its parent
    selection.set(vec![w, child], Some(w));
    let names = vec!["A".to_string(), "B".to_string()];
    assert!(duplicate_selection(&mut scene, &mut selection, names));
    let copies = selection.selected();
    assert_eq!(scene.object(copies[1]).unwrap().parent, Some(copies[0]));
}

fn rope_scene() -> (Scene, ObjectId, ObjectId) {
    let mut scene = Scene::new();
    let rope = Primitive::Rope { length: f(2.0), radius: f(0.03), segments: 8 };
    let id = add(&mut scene, rope, placed(0.0, 0.0, 0.0));
    let post = add(&mut scene, cube(), placed(5.0, 0.0, 0.0));
    (scene, id, post)
}

#[test]
fn a_dragged_rope_end_is_attached_where_it_is_dropped() {
    let (mut scene, rope, post) = rope_scene();
    let mut selection = Selection::default();
    selection.set(vec![rope], Some(rope));
    assert_eq!(RopeHandles::ropes(&scene, &selection), vec![rope]);
    let mut handles = RopeHandles::new();
    let tips = vec![
        Tip { id: rope, which: Which::Start, distance: Some(f(20.0)) },
        Tip { id: rope, which: Which::End, distance: Some(f(4.0)) },
    ];
    let taken = handles.press(&mut scene, &tips, f(10.0), false, false);
    assert_eq!(taken, Reaction::Taken);
    assert!(handles.dragging());
    assert_eq!(handles.drag().unwrap().which, Which::End);

    let over = HoverTarget { object: post, world_point: at(5.0, 0.0, 1.0) };
    let placed_end = handles.motion(Some(over), Some(at(4.0, 0.0, 0.0)));
    assert_eq!(
        placed_end,
        Reaction::PlaceEnd { id: rope, which: Which::End, world: at(5.0, 0.0, 1.0) }
    );
    handles.release(&mut scene, at(0.0, 0.0, 1.0));
    assert!(!handles.dragging());
    let end = scene.object(rope).unwrap().rope_end;
    assert_eq!((end.object, end.local_point), (Some(post), at(0.0, 0.0, 1.0)));
    assert_eq!(attached_ropes(&scene), vec![rope]);
}

#[test]
fn escape_undoes_the_drag_of_a_rope() {
    let (mut scene, rope, _) = rope_scene();
    let before = scene.object(rope).unwrap().transform;
    let mut handles = RopeHandles::new();
    let tips = vec![Tip { id: rope, which: Which::Start, distance: Some(f(1.0)) }];
    handles.press(&mut scene, &tips, f(10.0), false, false);
    set_rope_span(&mut scene, rope, placed(7.0, 0.0, 0.0), f(9.0));
    assert_eq!(scene.object(rope).unwrap().transform, placed(7.0, 0.0, 0.0));
    handles.escape(&mut scene, false);
    let o = scene.object(rope).unwrap();
    assert_eq!(o.transform, before);
    let Primitive::Rope { length, .. } = o.primitive else { panic!("a rope") };
    assert_eq!(number(length), 2.0);
    assert!(!handles.dragging());
    handles.cancel();
    snap_rope_rest_pose(&mut scene, rope, placed(3.0, 0.0, 0.0));
    assert_eq!(scene.object(rope).unwrap().transform, placed(3.0, 0.0, 0.0));
}

#[test]
fn ropes_are_attached_to_solid_things_alone() {
    let (mut scene, rope, post) = rope_scene();
    let other = Primitive::Rope { length: f(1.0), radius: f(0.03), segments: 8 };
    let other = add(&mut scene, other, placed(0.0, 0.0, 0.0));
    assert!(valid_attach_target(&scene, rope, post));
    assert!(!valid_attach_target(&scene, rope, rope));
    assert!(!valid_attach_target(&scene, rope, other));
    assert!(attach_exclusions(&scene, rope).contains(&rope));
    let found = ray_attach_target(&scene, rope, Some((post, at(1.0, 2.0, 3.0))), None).unwrap();
    assert_eq!((found.object, found.world_point), (post, at(1.0, 2.0, 3.0)));
    let near = ray_attach_target(&scene, rope, None, Some((post, at(1.0, 0.0, 0.0))));
    assert_eq!(near.map(|t| t.object), Some(post));
    assert!(ray_attach_target(&scene, rope, Some((other, at(0.0, 0.0, 0.0))), None).is_none());
}

#[test]
fn ropes_in_place_are_left_alone() {
    let fit = Misfit { start_squared: f(0.0), aim_squared: f(1.0), aim_cosine: f(1.0) };
    assert!(!needs_snap(&fit));
    assert!(needs_snap(&Misfit { start_squared: f(0.1), ..fit }));
    assert!(needs_snap(&Misfit { aim_cosine: f(0.9), ..fit }));
}

#[test]
fn the_pivot_is_marked_where_it_is_set() {
    let mut scene = Scene::new();
    let id = add(&mut scene, cube(), placed(0.0, 0.0, 0.0));
    scene.objects[0].pivot = at(0.5, 0.0, 0.0);
    scene.objects[0].anchor = at(-0.0, 0.0, 0.0);
    let shown = marks(&scene, Some(id));
    assert_eq!(shown.pivot, Some(at(0.5, 0.0, 0.0)));
    assert_eq!(shown.anchor, None);
    assert_eq!(marks(&scene, None).pivot, None);
}
