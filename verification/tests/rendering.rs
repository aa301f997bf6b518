//! What is drawn: keys of meshes and materials, outlines, lights, ranges of
//! triangles, and what is uploaded and dropped.

use modeler_app::modifier_ops::set_subdivision;
use modeler_app::modifiers::stamp;
use modeler_app::pbr_import::Textures;
use modeler_app::preview::{
    asset_preview, local_world, shown_objects, Canvas, Fragment, PREVIEW_SIZE,
};
use modeler_app::render_preview::{
    make_frame, window_step, window_title, RenderPreview, WindowStep,
};
use modeler_app::scalar::{Quat, Scalar, Transform, Vec3};
use modeler_app::scene::{
    BooleanOp, Color, Handle, LightKind, Modifier, ModifierKind, Object, ObjectId, Primitive,
    RopeEnd, Scene, WallCutout,
};
use modeler_app::scene_render::{Command, DrawObject, SceneRender};
use modeler_app::selection::Selection;
use modeler_app::shading::{
    gpu_material, lighting_signature, material_key, mesh_key, outline_color, shareable,
    water_material, wire_tier, Lighting, Material, OutlineTier, SceneLights, ShadeMode,
    TextureCover, WaterLayer,
};
use modeler_app::slot_looks::{
    color_bake_key, draw_object, water_bake_key, ObjectLook, SlotSurface, Surface, TerrainLook,
    TextureSource, WaterLook,
};
use modeler_app::slot_ranges::{group_by_slot, SlotRange};
use modeler_app::texture_bridge::{
    maps_found, orm_size, BakeRequest, FileRequest, TextureBridge, TextureSet, EVICT_AFTER,
    REBAKE_DEBOUNCE,
};
use modeler_app::wireframe::WireframeCache;
use std::collections::HashMap;

fn f(x: f32) -> Scalar {
    Scalar::of_bits(x.to_bits())
}

fn at(x: f32, y: f32, z: f32) -> Vec3 {
    Vec3 { x: f(x), y: f(y), z: f(z) }
}

fn placed(x: f32, y: f32, z: f32) -> Transform {
    Transform {
        location: at(x, y, z),
        rotation: Quat { x: f(0.0), y: f(0.0), z: f(0.0), w: f(1.0) },
        scale: at(1.0, 1.0, 1.0),
    }
}

fn blank(primitive: Primitive, transform: Transform) -> Object {
    Object {
        id: ObjectId(0),
        name: "Object".to_string(),
        primitive,
        transform,
        pivot: at(0.0, 0.0, 0.0),
        anchor: at(0.0, 0.0, 0.0),
        parent: None,
        folder: None,
        visible: true,
        group: false,
        smooth: false,
        locked: false,
        dynamic: false,
        density: f(1000.0),
        bounciness: f(0.0),
        initial_force: at(0.0, 0.0, 0.0),
        material: Handle(0),
        face_materials: Vec::new(),
        show_label: false,
        show_dimensions: false,
        modifiers: Vec::new(),
        edited_mesh: None,
        cutouts: Vec::new(),
        floor_outline: Vec::new(),
        terrain: None,
        rope_nodes: None,
        cloth_nodes: None,
        rope_start: RopeEnd::default(),
        rope_end: RopeEnd::default(),
        cloth_anchors: Vec::new(),
        mesh_revision: 0,
        sculpt_revision: 0,
    }
}

fn number(x: Scalar) -> f32 {
    f32::from_bits(x.bits)
}

fn add(scene: &mut Scene, primitive: Primitive) -> ObjectId {
    scene.insert_object(blank(primitive, placed(0.0, 0.0, 0.0)))
}

fn cube(size: f32) -> Primitive {
    Primitive::Cube { size: f(size) }
}

fn scene_with_cube() -> (Scene, ObjectId) {
    let mut scene = Scene::new();
    let id = add(&mut scene, cube(1.0));
    (scene, id)
}

fn get(scene: &mut Scene, id: ObjectId) -> &mut Object {
    let i = scene.find(id).unwrap();
    &mut scene.objects[i]
}

fn worlds(scene: &Scene) -> Vec<Transform> {
    scene.objects.iter().map(|o| o.transform).collect()
}

fn key_of(scene: &Scene, id: ObjectId) -> u64 {
    mesh_key(scene.object(id).unwrap(), stamp(scene, &worlds(scene), id))
}

#[test]
fn identical_cubes_share_one_upload_whatever_colour_they_are() {
    // Sharing a mesh key is what lets the engine batch them into a single
    // instanced draw, so this is the instancing test.
    let (mut scene, a) = scene_with_cube();
    let b = add(&mut scene, cube(1.0));
    get(&mut scene, b).material = Handle(9);
    assert_eq!(key_of(&scene, a), key_of(&scene, b));
}

#[test]
fn selection_no_longer_splits_the_geometry() {
    // The outline is a screen-space pass, and selecting something must not
    // cost a re-upload of its mesh.
    let (scene, a) = scene_with_cube();
    let before = key_of(&scene, a);
    let mut selection = Selection::default();
    selection.set(vec![a], Some(a));
    assert_eq!(key_of(&scene, a), before);
}

#[test]
fn geometry_changes_change_the_key() {
    let (mut scene, a) = scene_with_cube();
    let plain = key_of(&scene, a);

    set_subdivision(&mut scene, a, 2);
    assert_ne!(key_of(&scene, a), plain, "subdivision is different geometry");

    set_subdivision(&mut scene, a, 0);
    get(&mut scene, a).smooth = true;
    assert_ne!(key_of(&scene, a), plain, "shading splits the vertex normals");
}

#[test]
fn a_mesh_that_depends_on_anything_else_is_never_shared() {
    let mut scene = Scene::new();
    let edited = add(&mut scene, cube(1.0));
    get(&mut scene, edited).edited_mesh = Some(Handle(1));
    assert!(!shareable(scene.object(edited).unwrap()));

    let wall = Primitive::Wall { length: f(4.0), height: f(2.5), thickness: f(0.2) };
    let wall = add(&mut scene, wall);
    assert!(shareable(scene.object(wall).unwrap()), "pristine walls may share");
    let door = WallCutout { offset: f(1.0), width: f(1.0), bottom: f(0.0), height: f(2.1) };
    get(&mut scene, wall).cutouts.push(door);
    assert!(
        !shareable(scene.object(wall).unwrap()),
        "a cutout makes the mesh this wall's own"
    );

    // A boolean modifier makes the mesh depend on another object.
    let (mut scene, a) = scene_with_cube();
    let tool = add(&mut scene, cube(0.5));
    get(&mut scene, a).modifiers.push(Modifier::new(ModifierKind::Boolean {
        op: BooleanOp::Subtract,
        object: tool,
    }));
    assert!(!shareable(scene.object(a).unwrap()));
}

#[test]
fn two_objects_that_cannot_share_still_get_their_own_entries() {
    // The uniqueness rule mixes the object id in rather than taking a
    // separate code path, so two unshareable objects must not collide.
    let mut scene = Scene::new();
    let a = add(&mut scene, cube(1.0));
    let b = add(&mut scene, cube(1.0));
    for id in [a, b] {
        get(&mut scene, id).edited_mesh = Some(Handle(1));
    }
    assert_ne!(key_of(&scene, a), key_of(&scene, b));
}

#[test]
fn face_materials_become_contiguous_index_ranges() {
    // The point of submeshes: one vertex buffer, one range per slot. A
    // range that interleaved slots would draw the wrong triangles.
    let indices: Vec<u32> = (0..36).collect();
    let mut slots = vec![0; 12];
    slots[0] = 1;
    slots[1] = 1;
    slots[2] = 7; // out of range: falls back to the object's own

    let (ordered, ranges) = group_by_slot(&indices, &slots, 1);
    assert_eq!(ranges.len(), 2, "slot 0 and slot 1");
    let slot0 = ranges.iter().find(|r| r.slot == 0).expect("slot 0");
    let slot1 = ranges.iter().find(|r| r.slot == 1).expect("slot 1");
    assert_eq!(slot1.count, 2 * 3);
    assert_eq!(slot0.count, 10 * 3);
    // Contiguous and covering the whole index buffer between them.
    assert_eq!((slot0.count + slot1.count) as usize, ordered.len());
    assert!(slot0.offset == 0 || slot1.offset == 0);
    let start = slot1.offset as usize;
    assert_eq!(ordered[start..start + 6], [0, 1, 2, 3, 4, 5]);
}

#[test]
fn a_mesh_with_no_face_assignment_needs_no_submesh_at_all() {
    let indices: Vec<u32> = (0..36).collect();
    let (ordered, ranges) = group_by_slot(&indices, &Vec::new(), 0);
    assert!(ranges.is_empty(), "the common case draws the mesh whole");
    assert_eq!(ordered, indices);
}

fn white() -> Color {
    Color { r: f(1.0), g: f(1.0), b: f(1.0) }
}

fn material() -> Material {
    Material {
        base_color: Color { r: f(0.8), g: f(0.8), b: f(0.8) },
        roughness: f(0.5),
        metallic: f(0.0),
        specular: f(0.5),
        alpha: f(1.0),
        coat: f(0.0),
        coat_roughness: f(0.0),
        sheen: f(0.0),
        occlusion: f(1.0),
        emissive: Color { r: f(0.0), g: f(0.0), b: f(0.0) },
        uv_u: f(1.0),
        uv_v: f(1.0),
    }
}

fn light(color: Color) -> Primitive {
    Primitive::Light {
        kind: LightKind::Point,
        color,
        intensity: f(1.0),
        spot_angle_deg: f(45.0),
        shadows: false,
    }
}

#[test]
fn a_transparent_material_is_blended_and_double_sided() {
    // Culling a transparent object's back faces leaves a hollow shell.
    let mut m = material();
    m.alpha = f(0.4);
    let m = gpu_material(&m, &cube(1.0), ShadeMode::MaterialPreview, false, None);
    assert!(m.blended);
    assert!((number(m.alpha) - 0.4).abs() < 1e-6);
    let opaque = gpu_material(&material(), &cube(1.0), ShadeMode::MaterialPreview, false, None);
    assert!(!opaque.blended);
}

#[test]
fn solid_mode_ignores_the_object_material_but_not_a_light_gizmo() {
    let mut m = material();
    m.base_color = Color { r: f(0.9), g: f(0.1), b: f(0.1) };
    let solid = gpu_material(&m, &cube(1.0), ShadeMode::Solid, false, None);
    assert!(
        (number(solid.base.r) - number(solid.base.g)).abs() < 1e-3,
        "Solid must be a neutral studio grey"
    );

    // A light gizmo glows in its own colour in every mode: the gizmo is the
    // light as far as the user is concerned.
    let lamp = light(Color { r: f(1.0), g: f(0.2), b: f(0.1) });
    let gizmo = gpu_material(&m, &lamp, ShadeMode::Solid, false, None);
    assert!(number(gizmo.emissive.r) > number(gizmo.emissive.b));
}

#[test]
fn xray_makes_everything_see_through() {
    let m = gpu_material(&material(), &cube(1.0), ShadeMode::MaterialPreview, true, None);
    assert!(number(m.alpha) < 0.5);
    assert!(m.blended);
}

#[test]
fn maps_take_the_place_of_numbers() {
    let cover = TextureCover { albedo: true, roughness: true, metallic: true };
    let m = gpu_material(&material(), &cube(1.0), ShadeMode::MaterialPreview, false, Some(cover));
    assert_eq!(m.base, white());
    assert_eq!((number(m.roughness), number(m.metallic)), (1.0, 1.0));
}

#[test]
fn materials_that_look_alike_share_a_key() {
    let key = |m: &Material, mode: ShadeMode, xray: bool, textures: u64| {
        material_key(m, &cube(1.0), mode, xray, textures)
    };
    let plain = key(&material(), ShadeMode::MaterialPreview, false, 0);
    assert_eq!(key(&material(), ShadeMode::MaterialPreview, false, 0), plain);
    assert_ne!(key(&material(), ShadeMode::MaterialPreview, true, 0), plain);
    assert_ne!(key(&material(), ShadeMode::MaterialPreview, false, 3), plain);
    let mut rough = material();
    rough.roughness = f(0.6);
    assert_ne!(key(&rough, ShadeMode::MaterialPreview, false, 0), plain);
}

#[test]
fn water_covers_a_material() {
    let deep = Color { r: f(0.0), g: f(0.1), b: f(0.3) };
    let water = WaterLayer { enabled: true, deep, roughness: f(0.2), opacity: f(0.7) };
    let m = water_material(&water, &material());
    assert_eq!(m.base_color, deep);
    assert_eq!(number(m.alpha), 0.7);
}

#[test]
fn outlines_show_the_strongest_reason() {
    let (mut scene, a) = scene_with_cube();
    let b = add(&mut scene, cube(1.0));
    let mut selection = Selection::default();
    selection.set(vec![a, b], Some(b));
    let none = Vec::new();
    assert_eq!(OutlineTier::of(a, &selection, &none, false), OutlineTier::Selected);
    assert_eq!(OutlineTier::of(b, &selection, &none, false), OutlineTier::Active);
    assert_eq!(OutlineTier::of(b, &selection, &none, true), OutlineTier::ActiveModifier);
    assert_eq!(OutlineTier::of(a, &selection, &vec![a], true), OutlineTier::Overlap);
    assert_eq!(OutlineTier::of(ObjectId(9), &selection, &none, false), OutlineTier::Unselected);
    assert!(OutlineTier::Unselected.color().is_none());
    let overlap = OutlineTier::Overlap.color().unwrap();
    assert_eq!(outline_color(&scene, &selection, &vec![a]), overlap);
    assert_eq!(
        outline_color(&scene, &selection, &none),
        OutlineTier::Active.color().unwrap()
    );
    assert_eq!(wire_tier(ObjectId(9), &selection, false), 0);
    assert_eq!((wire_tier(a, &selection, false), wire_tier(b, &selection, false)), (1, 2));
    assert_eq!((wire_tier(a, &selection, true), wire_tier(b, &selection, true)), (3, 4));
}

#[test]
fn the_scene_is_lit_anew_only_where_its_lighting_changed() {
    let (mut scene, id) = scene_with_cube();
    let lamp = add(&mut scene, light(white()));
    let mut lights = SceneLights::new();
    let mut sync = |lights: &mut SceneLights, scene: &Scene, mode: ShadeMode| {
        lights.sync(1, scene, &worlds(scene), mode)
    };
    assert!(matches!(sync(&mut lights, &scene, ShadeMode::Solid), Lighting::Studio));
    assert!(!lights.use_scene() && !lights.scene_active());
    assert!(matches!(sync(&mut lights, &scene, ShadeMode::Solid), Lighting::Unchanged));
    match sync(&mut lights, &scene, ShadeMode::Rendered) {
        Lighting::Scene { sun, lights } => {
            assert_eq!(sun, None);
            assert_eq!(lights.len(), 1);
            assert_eq!((lights[0].object, lights[0].spot), (1, false));
        }
        other => panic!("{other:?}"),
    }
    assert!(lights.use_scene());
    assert!(matches!(sync(&mut lights, &scene, ShadeMode::Rendered), Lighting::Unchanged));
    let before = lighting_signature(&scene, &worlds(&scene));
    get(&mut scene, id).name = "renamed".to_string();
    assert_eq!(lighting_signature(&scene, &worlds(&scene)), before);
    get(&mut scene, lamp).transform = placed(0.0, 0.0, 3.0);
    assert_ne!(lighting_signature(&scene, &worlds(&scene)), before);
}

fn drawn(id: u64, mesh: u64, materials: Vec<u64>, upload: bool) -> DrawObject {
    let materials = materials.into_iter().enumerate().map(|(slot, key)| (slot as u32, key)).collect();
    DrawObject {
        id: ObjectId(id),
        visible: true,
        place: placed(0.0, 0.0, 0.0),
        mesh,
        upload: if upload { Some(Vec::new()) } else { None },
        materials,
        gizmo: false,
        outlined: false,
    }
}

fn uploads(commands: &[Command]) -> usize {
    commands.iter().filter(|c| matches!(c, Command::UploadMesh { .. })).count()
}

#[test]
fn identical_objects_share_one_upload() {
    let mut render = SceneRender::new();
    let objects: Vec<DrawObject> = (1..=5).map(|id| drawn(id, 70, vec![8], true)).collect();
    let commands = render.sync(ShadeMode::Solid, &objects);
    assert_eq!(uploads(&commands), 1, "five cubes, one mesh");
    let inserted = commands.iter().filter(|c| matches!(c, Command::Insert { .. })).count();
    assert_eq!(inserted, 5);
    assert!(!render.needs_mesh(70));
    assert_eq!(render.visible().len(), 5);
}

#[test]
fn a_hidden_object_leaves_the_scene_and_comes_back() {
    let mut render = SceneRender::new();
    render.sync(ShadeMode::Solid, &vec![drawn(1, 70, vec![8], true)]);
    let mut hidden = drawn(1, 70, vec![8], false);
    hidden.visible = false;
    let commands = render.sync(ShadeMode::Solid, &vec![hidden]);
    let gone = Command::RemoveObject { object: ObjectId(1), slot: 0 };
    assert!(commands.contains(&gone), "a hidden object still draws");
    assert!(render.visible().is_empty());
    let commands = render.sync(ShadeMode::Solid, &vec![drawn(1, 70, vec![8], true)]);
    assert!(commands.iter().any(|c| matches!(c, Command::Insert { .. })));
}

#[test]
fn an_object_that_stays_is_updated() {
    let mut render = SceneRender::new();
    render.sync(ShadeMode::Solid, &vec![drawn(1, 70, vec![8], true)]);
    let commands = render.sync(ShadeMode::Solid, &vec![drawn(1, 70, vec![8], false)]);
    assert!(
        commands.iter().all(|c| matches!(c, Command::Update { .. })),
        "the object was recreated instead of moved: {commands:?}"
    );
    assert_eq!(commands.len(), 1);
    let mut lamp = drawn(1, 70, vec![8], false);
    lamp.gizmo = true;
    lamp.outlined = true;
    let commands = render.sync(ShadeMode::Solid, &vec![lamp]);
    assert!(commands
        .iter()
        .any(|c| matches!(c, Command::Update { draw } if !draw.casts_shadow)));
    assert_eq!(render.gizmos(), &vec![(ObjectId(1), 0)]);
    assert_eq!(render.selection(), &vec![ObjectId(1)]);
}

/// The engine objects that commands leave: each with its serial number, where
/// it is, and where it was a frame ago.
#[derive(Default)]
struct Engine {
    objects: HashMap<(ObjectId, u32), (u64, Transform, Transform)>,
    made: u64,
}

impl Engine {
    fn frame(&mut self, render: &mut SceneRender, objects: &Vec<DrawObject>) {
        for entry in self.objects.values_mut() {
            entry.2 = entry.1;
        }
        for command in render.sync(ShadeMode::MaterialPreview, objects) {
            match command {
                Command::Insert { draw } => {
                    self.made += 1;
                    let entry = (self.made, draw.place, draw.place);
                    assert!(self.objects.insert((draw.object, draw.slot), entry).is_none());
                }
                Command::Update { draw } => {
                    let entry = self.objects.get_mut(&(draw.object, draw.slot)).expect("held");
                    entry.1 = draw.place;
                }
                Command::RemoveObject { object, slot } => {
                    assert!(self.objects.remove(&(object, slot)).is_some());
                }
                _ => {}
            }
        }
    }
}

#[test]
fn a_moving_object_keeps_a_previous_transform_to_reproject_from() {
    let mut render = SceneRender::new();
    let mut engine = Engine::default();
    engine.frame(&mut render, &vec![drawn(1, 70, vec![8], true)]);
    let first = *engine.objects.values().next().expect("one object");

    // meanwhile another object comes, and the material changes
    let mut moved = drawn(1, 70, vec![9], true);
    moved.place = placed(3.0, 0.0, 0.0);
    engine.frame(&mut render, &vec![drawn(2, 71, vec![8], true), moved]);

    let second = engine.objects[&(ObjectId(1), 0)];
    assert_eq!(first.0, second.0, "the object was recreated instead of moved");
    assert_eq!(second.1.location.x, f(3.0));
    assert_eq!(
        second.2.location.x,
        f(0.0),
        "the previous transform must be where it was last frame"
    );
    assert_eq!(render.visible(), &vec![ObjectId(2), ObjectId(1)], "in document order");
}

#[test]
fn an_object_keeps_its_engine_object_when_its_mesh_changes() {
    let mut render = SceneRender::new();
    let mut engine = Engine::default();
    engine.frame(&mut render, &vec![drawn(1, 70, vec![8], true)]);
    let first = engine.objects[&(ObjectId(1), 0)].0;
    let mut edited = drawn(1, 99, vec![8, 9], true);
    edited.upload = Some(vec![
        SlotRange { slot: 0, offset: 0, count: 6 },
        SlotRange { slot: 1, offset: 6, count: 3 },
    ]);
    engine.frame(&mut render, &vec![edited]);
    assert_eq!(engine.objects[&(ObjectId(1), 0)].0, first, "recreated for another mesh");
    assert!(engine.objects.contains_key(&(ObjectId(1), 1)), "a new slot is added");
    engine.frame(&mut render, &vec![drawn(1, 70, vec![8], true)]);
    assert_eq!(engine.objects.keys().collect::<Vec<_>>(), vec![&(ObjectId(1), 0)]);
    assert_eq!(engine.objects[&(ObjectId(1), 0)].0, first);
}

#[test]
fn a_still_object_reports_no_motion() {
    let mut render = SceneRender::new();
    let mut engine = Engine::default();
    engine.frame(&mut render, &vec![drawn(1, 70, vec![8], true)]);
    engine.frame(&mut render, &vec![drawn(1, 70, vec![8], true)]);
    let object = engine.objects.values().next().expect("one object");
    assert_eq!(object.1.location, object.2.location);
    // what is deleted leaves nothing behind
    engine.frame(&mut render, &vec![drawn(2, 70, vec![8], true)]);
    assert_eq!(engine.objects.keys().collect::<Vec<_>>(), vec![&(ObjectId(2), 0)]);
}

#[test]
fn every_slot_of_a_mesh_is_drawn() {
    let mut render = SceneRender::new();
    let mut o = drawn(1, 70, vec![8, 9], true);
    let slots = vec![
        SlotRange { slot: 0, offset: 0, count: 6 },
        SlotRange { slot: 1, offset: 6, count: 3 },
    ];
    o.upload = Some(slots.clone());
    let commands = render.sync(ShadeMode::Solid, &vec![o]);
    let draws: Vec<(u32, u64, Option<SlotRange>)> = commands
        .iter()
        .filter_map(|c| match c {
            Command::Insert { draw } => Some((draw.slot, draw.material, draw.range)),
            _ => None,
        })
        .collect();
    assert_eq!(draws, vec![(0, 8, Some(slots[0])), (1, 9, Some(slots[1]))]);
}

#[test]
fn markers_are_hidden_from_the_camera() {
    let mut render = SceneRender::new();
    let mut lamp = drawn(2, 71, vec![8], true);
    lamp.gizmo = true;
    render.sync(ShadeMode::Solid, &vec![drawn(1, 70, vec![8], true), lamp]);
    let hidden = Command::Show { object: ObjectId(2), slot: 0, visible: false };
    assert_eq!(render.set_gizmos_visible(false), vec![hidden]);
    assert_eq!(render.ranges(70), Some(&Vec::new()));
    assert_eq!(render.ranges(72), None);
}

fn no_files() -> Textures {
    Textures { albedo: None, normal: None, roughness: None, metallic: None, occlusion: None }
}

fn painted(faces: usize, terrain: Option<TerrainLook>) -> ObjectLook {
    let face = |k: usize| {
        let mut m = material();
        m.roughness = f(0.1 * (k + 1) as f32);
        Surface { material: m, textures: no_files() }
    };
    ObjectLook {
        own: Surface { material: material(), textures: no_files() },
        faces: (0..faces).map(face).collect(),
        terrain,
        plain: material(),
    }
}

fn terrain() -> Object {
    blank(
        Primitive::Terrain { size: f(20.0), resolution: 65, height: f(3.0), seed: 4 },
        placed(0.0, 0.0, 0.0),
    )
}

fn watered(enabled: bool, color: Option<u64>) -> Option<TerrainLook> {
    let deep = Color { r: f(0.0), g: f(0.1), b: f(0.3) };
    let layer = WaterLayer { enabled, deep, roughness: f(0.2), opacity: f(0.7) };
    Some(TerrainLook { color, water: Some(WaterLook { layer, stamp: 5 }) })
}

#[test]
fn slots_wear_the_object_the_water_or_a_face() {
    let o = terrain();
    let look = painted(2, watered(true, None));
    assert_eq!(look.slots(&o), 2);
    assert_eq!(look.surface(&o, 0), SlotSurface::Own);
    assert_eq!(look.surface(&o, 1), SlotSurface::Water);
    assert_eq!(look.surface(&o, 2), SlotSurface::Face { index: 1 });
    assert_eq!(look.surface(&o, 3), SlotSurface::Own);
    assert_eq!(look.material(&o, 2).roughness, f(0.2));
    assert_eq!(number(look.material(&o, 1).alpha), 0.7);
    assert!(look.files(&o, 1).is_none() && look.files(&o, 2).is_some());
    assert_eq!(painted(0, watered(true, None)).slots(&o), 1);
    assert_eq!(painted(0, watered(false, None)).slots(&o), 0);
    let dry = painted(1, watered(false, None));
    assert_eq!(dry.surface(&o, 1), SlotSurface::Face { index: 0 });
    let block = blank(cube(1.0), placed(0.0, 0.0, 0.0));
    assert!(painted(0, watered(true, None)).water(&block).is_none(), "only terrain has water");
}

#[test]
fn baked_pictures_go_before_files() {
    let o = terrain();
    let mut look = painted(0, watered(true, Some(3)));
    look.own.textures = textures("a.png");
    let preview = ShadeMode::MaterialPreview;
    assert!(matches!(look.source(&o, 0, preview, false), TextureSource::Color { .. }));
    assert!(matches!(look.source(&o, 1, preview, false), TextureSource::Water { .. }));
    assert_eq!(look.source(&o, 0, ShadeMode::Solid, false), TextureSource::Plain);
    assert_eq!(look.source(&o, 0, preview, true), TextureSource::Plain);
    let mut bare = painted(0, None);
    assert_eq!(bare.source(&o, 0, preview, false), TextureSource::Plain);
    bare.own.textures = textures("a.png");
    assert_eq!(bare.source(&o, 0, preview, false), TextureSource::Files);
    let mut edited = terrain();
    edited.mesh_revision = 1;
    assert_ne!(look.source(&edited, 0, preview, false), look.source(&o, 0, preview, false));
    assert_eq!(color_bake_key(ObjectId(17)), "terrain-color:17");
    assert_eq!(water_bake_key(ObjectId(17)), "terrain-water:17");
}

#[test]
fn gray_looks_ignore_textures() {
    let o = blank(cube(1.0), placed(0.0, 0.0, 0.0));
    let mut look = painted(0, None);
    let plain = look.key(&o, 0, ShadeMode::Solid, false, false);
    let shown = look.key(&o, 0, ShadeMode::MaterialPreview, false, false);
    assert_eq!(shown, material_key(&material(), &o.primitive, ShadeMode::MaterialPreview, false, 0));
    look.own.textures = textures("a.png");
    assert_eq!(look.key(&o, 0, ShadeMode::Solid, false, true), plain);
    let with_files = look.key(&o, 0, ShadeMode::MaterialPreview, false, true);
    assert_ne!(with_files, shown);
    assert_ne!(with_files, look.key(&o, 0, ShadeMode::MaterialPreview, false, false));
    look.own.textures = textures("b.png");
    assert_ne!(with_files, look.key(&o, 0, ShadeMode::MaterialPreview, false, true));
}

#[test]
fn an_object_is_drawn_with_a_key_for_each_slot() {
    let o = blank(light(white()), placed(0.0, 0.0, 0.0));
    let look = painted(1, None);
    let mode = ShadeMode::MaterialPreview;
    let slots = vec![(0, false), (1, false)];
    let d = draw_object(&o, placed(1.0, 0.0, 0.0), &look, 9, OutlineTier::Active, mode, false, &slots, None);
    assert_eq!(d.mesh, mesh_key(&o, 9));
    assert!(d.gizmo && d.outlined && d.visible && d.upload.is_none());
    assert_eq!(d.place, placed(1.0, 0.0, 0.0));
    let keys = vec![
        (0, look.key(&o, 0, mode, false, false)),
        (1, look.key(&o, 1, mode, false, false)),
    ];
    assert_eq!(d.materials, keys);
    assert_ne!(keys[0].1, keys[1].1);
    let d = draw_object(&o, placed(1.0, 0.0, 0.0), &look, 9, OutlineTier::Unselected, mode, false, &slots, None);
    assert!(!d.outlined);
    let cover = TextureCover { albedo: true, roughness: false, metallic: false };
    assert_eq!(
        look.paint(&o, 1, mode, false, Some(cover)),
        gpu_material(&look.faces[0].material, &o.primitive, mode, false, Some(cover))
    );
}

#[test]
fn edges_are_found_again_only_where_a_mesh_changed() {
    let (mut scene, id) = scene_with_cube();
    let mut cache = WireframeCache::new();
    let selection = Selection::default();
    let stamps = |scene: &Scene| -> Vec<u64> {
        scene.objects.iter().map(|o| stamp(scene, &worlds(scene), o.id)).collect()
    };
    let first = cache.segments(&scene, &stamps(&scene), &selection);
    assert!(first.len() == 1 && first[0].rebuild);
    let again = cache.segments(&scene, &stamps(&scene), &selection);
    assert!(!again[0].rebuild);
    get(&mut scene, id).smooth = true;
    assert!(cache.segments(&scene, &stamps(&scene), &selection)[0].rebuild);
    get(&mut scene, id).visible = false;
    assert!(cache.segments(&scene, &stamps(&scene), &selection).is_empty());
}

fn textures(albedo: &str) -> Textures {
    Textures {
        albedo: Some(albedo.to_string()),
        normal: None,
        roughness: None,
        metallic: None,
        occlusion: None,
    }
}

#[test]
fn layers_of_files_are_loaded_once_and_given_back() {
    let mut bridge = TextureBridge::new();
    assert!(bridge.ensure_init());
    assert!(!bridge.ensure_init());
    bridge.begin_frame();
    let none = Textures {
        albedo: None,
        normal: None,
        roughness: None,
        metallic: None,
        occlusion: None,
    };
    assert!(matches!(bridge.resolve_files(&none), FileRequest::Plain));
    let FileRequest::Load { key } = bridge.resolve_files(&textures("a.jpg")) else {
        panic!("nothing is loaded yet")
    };
    assert_eq!(TextureBridge::set_key(&textures("a.jpg")), Some(key.clone()));
    bridge.loaded(key, maps_found(true, false, false, false, false, 4));
    match bridge.resolve_files(&textures("a.jpg")) {
        FileRequest::Use(set) => assert_eq!((set.slot, set.has_albedo), (4, true)),
        other => panic!("{other:?}"),
    }
    // one that could not be read is not tried again
    let FileRequest::Load { key } = bridge.resolve_files(&textures("bad.jpg")) else {
        panic!("not tried yet")
    };
    bridge.loaded(key, None);
    assert!(matches!(bridge.resolve_files(&textures("bad.jpg")), FileRequest::Plain));
    // what nothing uses is given back after a while, not before
    for _ in 0..EVICT_AFTER {
        bridge.begin_frame();
        assert!(bridge.end_frame().is_empty());
    }
    bridge.begin_frame();
    assert_eq!(bridge.end_frame(), vec![4]);
}

#[test]
fn a_map_that_could_not_be_read_stays_missing() {
    let mut bridge = TextureBridge::new();
    bridge.begin_frame();
    let mut named = textures("a.jpg");
    named.roughness = Some("gone.jpg".to_string());
    let FileRequest::Load { key } = bridge.resolve_files(&named) else {
        panic!("nothing is loaded yet")
    };
    let set = maps_found(true, false, false, false, false, 4);
    bridge.loaded(key, set);
    for _ in 0..2 {
        match bridge.resolve_files(&named) {
            FileRequest::Use(cached) => {
                assert_eq!(Some(cached), set);
                assert!(cached.has_albedo && !cached.has_roughness);
            }
            other => panic!("{other:?}"),
        }
    }
}

#[test]
fn a_draped_cloth_is_not_shareable() {
    let cloth = Primitive::Cloth {
        width: f(1.0),
        height: f(1.0),
        segments_u: 1,
        segments_v: 1,
        stiffness: f(0.5),
    };
    let mut o = blank(cloth, placed(0.0, 0.0, 0.0));
    assert!(shareable(&o));
    let before = mesh_key(&o, 0);
    o.cloth_nodes = Some(vec![at(0.0, 0.0, 0.0); 4]);
    assert!(!shareable(&o));
    assert_ne!(mesh_key(&o, 0), before);
}

#[test]
fn baked_layers_wait_for_the_picture_to_rest() {
    let mut bridge = TextureBridge::new();
    bridge.ensure_init();
    bridge.begin_frame();
    assert!(matches!(bridge.resolve_baked_albedo("t", 1), BakeRequest::Bake));
    bridge.baked("t", 1, 6);
    assert!(matches!(bridge.resolve_baked_albedo("t", 1), BakeRequest::Use { slot: 6 }));
    // the picture changes: the old one is shown until it rests
    assert!(matches!(bridge.resolve_baked_albedo("t", 2), BakeRequest::Use { slot: 6 }));
    for _ in 0..REBAKE_DEBOUNCE {
        bridge.begin_frame();
    }
    assert!(matches!(bridge.resolve_baked_albedo("t", 2), BakeRequest::Update { slot: 6 }));
    bridge.rebaked("t", 2);
    assert!(matches!(bridge.resolve_baked_albedo("t", 2), BakeRequest::Use { slot: 6 }));
}

#[test]
fn the_maps_of_a_material_are_told() {
    assert!(maps_found(false, false, false, false, false, 3).is_none());
    let set = maps_found(false, true, false, true, false, 3).unwrap();
    let expected = TextureSet {
        slot: 3,
        has_albedo: false,
        has_roughness: false,
        has_metallic: true,
        has_occlusion: false,
    };
    assert_eq!(set, expected);
    assert_eq!(orm_size(None, None, None), None);
    assert_eq!(orm_size(Some((4, 4)), Some((8, 2)), Some((4, 9))), Some((8, 2)));
}

#[test]
fn preview_renders_a_cube() {
    // a red square before a blue one that is larger
    let mut canvas = Canvas::new();
    let mut fill = |low: u32, high: u32, z: f32, (r, g, b): (u8, u8, u8)| {
        for y in low..high {
            for x in low..high {
                canvas.plot(Fragment { x, y, z: f(z), r, g, b });
            }
        }
    };
    fill(40, 80, 1.0, (255, 51, 51));
    fill(20, 100, 2.0, (10, 10, 200));
    let text = canvas.encode().expect("preview");
    let bytes = base64::Engine::decode(
        &base64::engine::general_purpose::STANDARD,
        text,
    )
    .unwrap();
    assert_eq!(&bytes[1..4], b"PNG");

    // decodes to the right size with some opaque reddish pixels
    let img = image::load_from_memory(&bytes).unwrap().to_rgba8();
    assert_eq!(img.dimensions(), (PREVIEW_SIZE, PREVIEW_SIZE));
    let lit = img.pixels().filter(|p| p[3] == 255 && p[0] > p[2]).count();
    assert_eq!(lit, 40 * 40, "the nearer square is seen");
    assert_eq!(img.get_pixel(20, 99).0, [10, 10, 200, 255]);
    // corners stay transparent
    assert_eq!(img.get_pixel(0, 0)[3], 0);
}

#[test]
fn preview_of_nothing_is_none() {
    assert!(shown_objects(&Vec::new()).is_empty());
    assert!(asset_preview(Canvas::new(), &Vec::new(), &Vec::new()).is_none());
    // invisible objects don't render
    let mut hidden = blank(cube(2.0), placed(0.0, 0.0, 0.0));
    hidden.visible = false;
    let mut objects = vec![hidden];
    assert!(shown_objects(&objects).is_empty());
    assert!(asset_preview(Canvas::new(), &objects, &vec![12]).is_none());
    // nor does an object without triangles
    objects[0].visible = true;
    assert!(asset_preview(Canvas::new(), &objects, &vec![0]).is_none());
    assert!(asset_preview(Canvas::new(), &objects, &vec![12]).is_some());
}

#[test]
fn an_asset_is_placed_within_itself() {
    let mut objects: Vec<Object> = (1..=3)
        .map(|id| {
            let mut o = blank(cube(1.0), placed(0.0, 0.0, 0.0));
            o.id = ObjectId(id);
            o
        })
        .collect();
    objects[0].parent = Some(ObjectId(3));
    objects[2].parent = Some(ObjectId(77));
    assert_eq!(local_world(&objects, 0), Some(vec![0, 2]));
    assert_eq!(local_world(&objects, 1), Some(vec![1]));
    assert_eq!(local_world(&objects, 2), Some(vec![2]), "a parent elsewhere does not count");
    objects[2].parent = Some(ObjectId(1));
    assert_eq!(local_world(&objects, 0), None, "a circle has no place");
    assert_eq!(shown_objects(&objects), vec![0, 1, 2]);
}

#[test]
fn the_camera_window_shows_what_it_is_handed() {
    let rgba = [1, 2, 3, 255, 4, 5, 6, 255];
    let frame = make_frame("Cam".to_string(), 2, 1, &rgba).unwrap();
    assert_eq!(frame.pixels, vec![0x0001_0203, 0x0004_0506]);
    assert!(make_frame("Cam".to_string(), 2, 2, &rgba).is_none(), "too few pixels");
    assert!(window_title("Cam").contains("Cam"));

    let mut preview = RenderPreview::new();
    assert!(!preview.is_open());
    let next = || make_frame("Cam".to_string(), 2, 1, &rgba);
    assert!(!preview.push_frame(next()), "a closed window stays closed");
    preview.open(next());
    assert!(preview.is_open());
    assert_eq!(preview.take_frame().unwrap().width, 2);
    assert!(preview.take_frame().is_none());
    assert!(preview.push_frame(next()));
    assert!(preview.take_frame().is_some());
    preview.close();
    assert!(!preview.push_frame(next()));

    let other = make_frame("Top".to_string(), 2, 1, &rgba).unwrap();
    let wide = make_frame("Cam".to_string(), 1, 1, &rgba).unwrap();
    assert_eq!(window_step(&frame, &next().unwrap()), WindowStep::Keep);
    assert_eq!(window_step(&frame, &other), WindowStep::Retitle);
    assert_eq!(window_step(&frame, &wide), WindowStep::Recreate);
}
