//! Reference images and sets of drawings, with the places of images worked
//! out here.

use glam::{Vec2, Vec3};
use modeler_app::modal::{Button, ModalKey, Mouse};
use modeler_app::ref_image::{
    is_supported, make_reference, CalibrateTool, ImageEvent, ImageMoveTool, MarkerKind,
    MarkerTool, PlanePick, RefImageRender, ReferenceImage, Uv,
};
use modeler_app::ref_setup::{
    build_placements, Extent, ImagePlane, PlacementPlan, RefSetupDialog, SetupImage, Slot, Stand,
};
use modeler_app::scalar::Scalar;
use modeler_app::settings::Unit;

fn f(x: f32) -> Scalar {
    Scalar::of_bits(x.to_bits())
}

fn number(x: Scalar) -> f32 {
    f32::from_bits(x.bits)
}

fn vector(v: Vec3) -> modeler_app::scalar::Vec3 {
    modeler_app::scalar::Vec3 { x: f(v.x), y: f(v.y), z: f(v.z) }
}

fn point(v: modeler_app::scalar::Vec3) -> Vec3 {
    Vec3::new(number(v.x), number(v.y), number(v.z))
}

fn test_image(plane: ImagePlane) -> ReferenceImage {
    ReferenceImage {
        id: 4,
        name: "test".to_string(),
        plane,
        location: vector(Vec3::new(0.0, 0.0, 1.0)),
        rotation_deg: f(0.0),
        width_m: f(2.0),
        aspect: f(1.0),
        opacity: f(0.5),
        visible: true,
        flip_h: false,
        flip_v: false,
        data_base64: String::new(),
    }
}

/// The directions of an unturned image.
fn basis(image: &ReferenceImage) -> (Vec3, Vec3, Vec3) {
    match image.plane {
        ImagePlane::X => (Vec3::Y, Vec3::Z, Vec3::X),
        ImagePlane::Y => (Vec3::X, Vec3::Z, Vec3::NEG_Y),
        ImagePlane::Z => (Vec3::X, Vec3::Y, Vec3::Z),
    }
}

fn pick(image: &ReferenceImage, origin: Vec3, direction: Vec3) -> PlanePick {
    let (u_axis, v_axis, normal) = basis(image);
    let denom = direction.dot(normal);
    let at = point(image.location);
    let t = (at - origin).dot(normal) / denom;
    let p = origin + direction * t;
    let (w, h) = (number(image.width_m), number(image.width_m) * number(image.aspect));
    let (u, v) = ((p - at).dot(u_axis), (p - at).dot(v_axis));
    PlanePick {
        facing: f(denom.abs()),
        distance: f(t),
        point: vector(p),
        u: f(u.abs()),
        v: f(v.abs()),
        reach_u: f(0.5 * w + 0.05 * w),
        reach_v: f(0.5 * h + 0.05 * w),
        uv: Uv { x: f(0.5 + u / w), y: f(0.5 - v / h) },
    }
}

fn uv(u: Uv) -> Vec2 {
    Vec2::new(number(u.x), number(u.y))
}

const DOWN: Vec3 = Vec3::NEG_Y;

#[test]
fn calibrate_two_points_measures_plane_distance() {
    let images = vec![test_image(ImagePlane::Y)];
    let mut tool = CalibrateTool::new();
    tool.start(4);
    // rays straight down -Y hit the y=0 plane at the ray's x/z
    tool.add_ray(&images, pick(&images[0], Vec3::new(-0.4, 5.0, 1.0), DOWN));
    assert!(tool.picking());
    tool.add_ray(&images, pick(&images[0], Vec3::new(0.4, 5.0, 1.0), DOWN));
    let (a, b) = tool.measured().unwrap();
    assert!((point(a).distance(point(b)) - 0.8).abs() < 1e-5);
    assert!(!tool.picking() && tool.active());

    // picks outside the image rectangle are rejected
    tool.points.clear();
    tool.add_ray(&images, pick(&images[0], Vec3::new(3.0, 5.0, 1.0), DOWN));
    assert!(tool.points.is_empty(), "off-image pick must be ignored");

    // parallel ray is ignored
    tool.add_ray(&images, pick(&images[0], Vec3::ZERO, Vec3::X));
    assert!(tool.points.is_empty());

    // without its image the tool is put away
    tool.add_ray(&Vec::new(), pick(&images[0], Vec3::new(0.0, 5.0, 1.0), DOWN));
    assert!(!tool.active());
}

#[test]
fn marker_tool_picks_normalized_image_points() {
    // 2 m wide, aspect 1 -> 2 m tall, centered at (0, 0, 1) on the Y plane
    let images = vec![test_image(ImagePlane::Y)];
    let at = |x: f32, z: f32| pick(&images[0], Vec3::new(x, 5.0, z), DOWN);

    let mut tool = MarkerTool::new();
    tool.start(4, MarkerKind::Line);
    assert!(tool.picking());
    // center pick -> uv (0.5, 0.5)
    tool.add_ray(&images, at(0.0, 1.0));
    // just past the right edge: clamped onto the image -> uv (1, 0.5)
    tool.add_ray(&images, at(1.02, 1.0));
    // a stray click far off the image is ignored
    tool.add_ray(&images, at(4.0, 1.0));
    assert_eq!(tool.points.len(), 2);
    assert!((uv(tool.points[0]) - Vec2::new(0.5, 0.5)).length() < 1e-5);
    assert!((uv(tool.points[1]) - Vec2::new(1.0, 0.5)).length() < 1e-5);
    assert!(!tool.done, "a line keeps picking until finish()");
    tool.finish();
    assert!(tool.done && !tool.picking());

    // an area needs 3 points: finish() with 2 keeps picking
    tool.start(4, MarkerKind::Area);
    tool.add_ray(&images, at(0.0, 1.0));
    tool.add_ray(&images, at(0.5, 1.0));
    tool.finish();
    assert!(tool.picking());
    assert_eq!(MarkerKind::Area.min_points(), 3);

    // a point marker completes on its single click; v grows downward
    tool.start(4, MarkerKind::Point);
    tool.add_ray(&images, at(0.0, 1.5));
    assert!(tool.done);
    assert!((uv(tool.points[0]) - Vec2::new(0.5, 0.25)).length() < 1e-5);
    tool.cancel();
    assert!(!tool.active() && tool.points.is_empty());
}

fn png(width: u32, height: u32) -> Vec<u8> {
    let mut bytes = std::io::Cursor::new(Vec::new());
    image::RgbaImage::from_pixel(width, height, image::Rgba([10, 20, 30, 255]))
        .write_to(&mut bytes, image::ImageFormat::Png)
        .unwrap();
    bytes.into_inner()
}

#[test]
fn make_reference_rejects_garbage() {
    assert!(make_reference("x".to_string(), &[1, 2, 3]).is_err());
}

#[test]
fn make_reference_embeds_the_file() {
    let bytes = png(4, 2);
    let new = make_reference("plan".to_string(), &bytes).unwrap();
    assert_eq!(new.px, (4, 2));
    assert_eq!(new.plane, ImagePlane::Y);
    assert_eq!((number(new.width_m), number(new.opacity)), (2.0, 0.5));
    assert_eq!(modeler_app::images::decoded_size(&new.data_base64), Some((4, 2)));
    let decoded = modeler_app::images::decode_texture(&new.data_base64).unwrap();
    assert_eq!((decoded.width, decoded.height), (4, 2));
    assert_eq!(decoded.rgba[..4], [10, 20, 30, 255]);
    assert!(modeler_app::images::decoded_size("no base64!").is_none());
}

#[test]
fn only_pictures_and_documents_are_taken() {
    for extension in ["png", "PNG", "jpg", "jpeg", "pdf"] {
        assert!(is_supported(extension), "{extension}");
    }
    assert!(!is_supported("gif") && !is_supported(""));
}

#[test]
fn textures_are_uploaded_once() {
    let mut image = test_image(ImagePlane::Y);
    image.data_base64 = make_reference("a".to_string(), &png(1, 1)).unwrap().data_base64;
    let mut render = RefImageRender::new();
    let mut images = vec![image, test_image(ImagePlane::X)];
    images[1].id = 5;
    let uploads = render.sync(&images);
    assert_eq!(uploads.len(), 1, "what cannot be decoded is left out");
    assert_eq!((uploads[0].0, uploads[0].1.width), (4, 1));
    assert_eq!(render.models(), &vec![4]);
    assert!(render.sync(&images).is_empty());
    assert_eq!(render.models(), &vec![4]);
    images[0].visible = false;
    render.sync(&images);
    assert!(render.models().is_empty());
}

fn mouse(x: f32, y: f32) -> Mouse {
    Mouse { x: f(x), y: f(y) }
}

#[test]
fn an_image_is_moved_along_an_axis_and_put_back() {
    let mut images = vec![test_image(ImagePlane::Y)];
    let mut tool = ImageMoveTool::new();
    let typed = |text: &str| ImageEvent::Text { text: text.to_string(), taken: false };
    assert!(!tool.handle_event(&typed("g"), &images, None).handled, "nothing is selected");
    tool.handle_event(&ImageEvent::Motion { at: mouse(3.0, 4.0), handled: false }, &images, None);
    assert!(tool.handle_event(&typed("g"), &images, Some(4)).handled);
    assert!(tool.active());
    assert_eq!(tool.current().unwrap().start_mouse, mouse(3.0, 4.0));
    tool.handle_event(&typed("x"), &images, Some(4));
    assert_eq!(tool.current().unwrap().constraint, Some(0));
    let line = tool.status_line("1.0", "0.0", "0.0", Unit::Meters).unwrap();
    assert!(line.contains("(1.0, 0.0, 0.0) m  along X"), "{line}");
    tool.apply(&mut images, vector(Vec3::new(1.0, 0.0, 1.0)));
    assert_eq!(point(images[0].location).x, 1.0);
    let escape = ImageEvent::Key { key: ModalKey::Escape, handled: false };
    assert!(tool.handle_event(&escape, &images, Some(4)).cancel);
    tool.cancel(&mut images);
    assert_eq!(point(images[0].location), Vec3::new(0.0, 0.0, 1.0));
    assert!(!tool.active());

    tool.handle_event(&typed("G"), &images, Some(4));
    tool.apply(&mut images, vector(Vec3::new(2.0, 0.0, 1.0)));
    let click = ImageEvent::Press { button: Button::Left, at: mouse(0.0, 0.0), handled: false };
    assert!(tool.handle_event(&click, &images, Some(4)).confirm);
    tool.confirm();
    assert_eq!(point(images[0].location).x, 2.0);
}

fn img(name: &str, w: u32, h: u32) -> SetupImage {
    SetupImage { name: name.to_string(), bytes: vec![0; 4], px: (w, h) }
}

/// What a plan comes to for a building ten meters wide with storeys of three.
struct Placed {
    name: String,
    plane: ImagePlane,
    flip_h: bool,
    width: f32,
    aspect: f32,
    location: Vec3,
}

const PLAN_LIFT_M: f32 = 0.01;

fn place(plan: PlacementPlan) -> Vec<Placed> {
    let aspect = |px: (u32, u32)| px.1 as f32 / px.0 as f32;
    let px: Vec<(u32, u32)> = plan.placements.iter().map(|p| p.px).collect();
    let mpp = 10.0 / px[plan.anchor].0 as f32;
    let width = |i: usize| mpp * px[i].0 as f32;
    let height = |i: usize| width(i) * aspect(px[i]);
    let extent = |e: Extent, else_: f32| match e {
        Extent::Width(i) => width(i),
        Extent::Height(i) => height(i),
        _ => else_,
    };
    let x = extent(plan.x_extent, 10.0);
    let y = extent(plan.y_extent, x);
    let roof = plan
        .elevations
        .iter()
        .map(|&i| height(i))
        .fold(f32::NEG_INFINITY, f32::max)
        .max(3.0 * plan.storeys as f32);
    let sign = |positive: bool| if positive { 0.5 } else { -0.5 };
    plan.placements
        .iter()
        .enumerate()
        .map(|(i, p)| Placed {
            name: p.name.clone(),
            plane: p.plane,
            flip_h: p.flip_h,
            width: width(i),
            aspect: aspect(p.px),
            location: match p.stand {
                Stand::AlongX { positive } => Vec3::new(sign(positive) * x, 0.0, 0.5 * height(i)),
                Stand::AlongY { positive } => Vec3::new(0.0, sign(positive) * y, 0.5 * height(i)),
                Stand::Roof => Vec3::new(0.0, 0.0, roof + PLAN_LIFT_M),
                Stand::Storey(n) => Vec3::new(0.0, 0.0, n as f32 * 3.0 + PLAN_LIFT_M),
            },
        })
        .collect()
}

fn placements(assigned: &[(Slot, &SetupImage)]) -> Vec<Placed> {
    build_placements(&assigned.to_vec(), f(0.5)).map(place).unwrap_or_default()
}

#[test]
fn shared_scale_and_planes() {
    // front 1000 px wide = 10 m -> 0.01 m/px; side 800 px -> 8 m deep
    let front = img("front", 1000, 600);
    let side = img("right", 800, 600);
    let plan = img("plan", 1000, 800);
    let placed =
        placements(&[(Slot::Front, &front), (Slot::Right, &side), (Slot::Floor(0), &plan)]);
    assert_eq!(placed.len(), 3);

    let front = &placed[0];
    assert_eq!(front.plane, ImagePlane::Y);
    assert!((front.width - 10.0).abs() < 1e-5);
    // behind the model: +Y at half the depth (side image is 8 m wide),
    // bottom edge on the ground (center at half its 6 m height)
    assert!((front.location.y - 4.0).abs() < 1e-5);
    assert!((front.location.z - 3.0).abs() < 1e-5);
    assert!(!front.flip_h);

    let right = &placed[1];
    assert_eq!(right.plane, ImagePlane::X);
    assert!((right.width - 8.0).abs() < 1e-5);
    assert!((right.location.x + 5.0).abs() < 1e-5, "behind as seen from +X");
    assert!(!right.flip_h);

    let plan = &placed[2];
    assert_eq!(plan.plane, ImagePlane::Z);
    assert!((plan.location.z - PLAN_LIFT_M).abs() < 1e-6);
    assert!((plan.width - 10.0).abs() < 1e-5);
}

#[test]
fn back_and_left_are_mirrored() {
    let front = img("front", 1000, 600);
    let back = img("back", 1000, 600);
    let left = img("left", 800, 600);
    let placed = placements(&[(Slot::Front, &front), (Slot::Back, &back), (Slot::Left, &left)]);
    assert!(!placed[0].flip_h);
    assert!(placed[1].flip_h);
    assert!(placed[2].flip_h);
    // back sits opposite the front; left opposite the right side
    assert!((placed[1].location.y + placed[0].location.y).abs() < 1e-5);
    assert!(placed[2].location.x > 0.0);
}

#[test]
fn floors_stack_and_top_sits_on_the_roof() {
    let front = img("front", 1000, 600); // 10 m x 6 m elevation
    let g = img("ground", 1000, 800);
    let first = img("first", 1000, 800);
    let top = img("roof", 1000, 800);
    let placed = placements(&[
        (Slot::Front, &front),
        (Slot::Floor(0), &g),
        (Slot::Floor(1), &first),
        (Slot::Top, &top),
    ]);
    let z_of = |name: &str| {
        placed.iter().find(|p| p.name.to_lowercase().contains(name)).unwrap().location.z
    };
    assert!((z_of("ground") - PLAN_LIFT_M).abs() < 1e-6);
    assert!((z_of("1st") - (3.0 + PLAN_LIFT_M)).abs() < 1e-5);
    // roof at the elevation height (6 m), not the floor-count height
    assert!((z_of("top") - (6.0 + PLAN_LIFT_M)).abs() < 1e-5);
}

#[test]
fn plan_only_falls_back_to_plan_extents() {
    let plan = img("plan", 500, 1000); // 10 m wide, 20 m deep
    let placed = placements(&[(Slot::Floor(0), &plan)]);
    assert_eq!(placed.len(), 1);
    assert!((placed[0].width - 10.0).abs() < 1e-5);
    assert!((placed[0].aspect - 2.0).abs() < 1e-5);
}

#[test]
fn empty_assignment_places_nothing() {
    assert!(placements(&[]).is_empty());
}

#[test]
fn the_most_trusted_view_fixes_the_scale() {
    let plan = img("plan", 500, 1000);
    let left = img("left", 700, 100);
    let made = build_placements(&vec![(Slot::Floor(2), &plan), (Slot::Left, &left)], f(0.5));
    let made = made.unwrap();
    assert_eq!(made.anchor, 1);
    assert_eq!(made.x_extent, Extent::Width(0));
    assert_eq!(made.y_extent, Extent::Width(1));
    assert_eq!(made.elevations, vec![1]);
    assert_eq!(made.storeys, 3);
    assert_eq!(made.placements[0].data_base64, "AAAAAA==", "the file is embedded");
    assert_eq!(Slot::Floor(2).label(), "2nd floor");
    assert_eq!(Slot::Floor(12).label(), "12th floor");
    assert!(Slot::Left.is_elevation() && !Slot::Top.is_elevation());
}

#[test]
fn pictures_are_assigned_one_to_one() {
    let mut dialog = RefSetupDialog::new();
    assert!(!dialog.open);
    let garbage = ("x".to_string(), vec![1, 2, 3]);
    dialog.arrive(vec![("a".to_string(), png(2, 2)), garbage, ("b".to_string(), png(4, 2))]);
    assert!(dialog.open, "files open the dialog");
    assert_eq!(dialog.images().len(), 2, "what is no picture is ignored");
    assert_eq!(dialog.tray(), vec![0, 1]);

    dialog.assign(Slot::Front, 0);
    dialog.assign(Slot::Back, 0);
    assert_eq!(dialog.assignment(Slot::Front), None, "a picture has one slot");
    assert_eq!(dialog.slot_of(0), Some(Slot::Back));
    dialog.click_image(1);
    assert_eq!(dialog.selected(), Some(1));
    dialog.click_slot(Slot::Back);
    assert_eq!(dialog.assignment(Slot::Back), Some(1), "a slot has one picture");
    assert_eq!(dialog.tray(), vec![0]);
    assert_eq!(dialog.selected(), None);
    let thumb = dialog.texture_for(1).unwrap();
    assert_eq!(thumb.rgba[..4], [10, 20, 30, 255]);

    assert_eq!(dialog.extra_floors(), 1);
    dialog.add_floor();
    dialog.assign(Slot::Floor(2), 0);
    assert!(!dialog.can_remove_floor(), "the upper floor has a plan");
    dialog.remove_floor();
    assert_eq!(dialog.extra_floors(), 2, "a floor with a plan stays");
    assert!(!dialog.is_offered(Slot::Floor(3)));
    dialog.assign(Slot::Floor(3), 1);
    assert_eq!(dialog.assignment(Slot::Floor(3)), None, "there is no such floor");
    dialog.clear_slot(Slot::Floor(2));
    assert!(dialog.can_remove_floor());
    dialog.remove_floor();
    assert_eq!(dialog.extra_floors(), 1);

    dialog.set_building_width(f(0.0));
    dialog.set_floor_height(f(4.0));
    assert_eq!(dialog.measures(), (f(0.1), f(4.0)));
    dialog.set_opacity(f(0.25));
    assert_eq!(dialog.opacity(), f(0.25));
    assert_eq!(dialog.placements().unwrap().placements.len(), 1);
    let said = dialog.end_frame(true, false, true).unwrap();
    assert_eq!(said, "placed 1 reference image");
    assert!(!dialog.open && dialog.images().is_empty() && dialog.assigned().is_empty());
}
