//! Units, preferences, themes, the pie menu, and numbers by their bits.

use modeler_app::fingerprint::{digest, hash_primitive, hash_transform};
use modeler_app::pie::{hovered_slot, primitive_icon, PieIcon, PieSlot};
use modeler_app::scalar::{Scalar, Transform};
use modeler_app::scene::Primitive;
use modeler_app::settings::{GridColor, Settings, SettingsWindow, Tab, Unit};
use modeler_app::theme::{Rgb, Theme};

fn f(x: f32) -> Scalar {
    Scalar::of_bits(x.to_bits())
}

fn from_meters(unit: Unit, meters: f32) -> f32 {
    meters * unit.per_meter() as f32
}

fn to_meters(unit: Unit, value: f32) -> f32 {
    value / unit.per_meter() as f32
}

fn format_length(unit: Unit, meters: f32) -> String {
    format!("{:.*} {}", unit.decimals(), from_meters(unit, meters), unit.suffix())
}

#[test]
fn unit_conversions_roundtrip() {
    for unit in Unit::all() {
        let meters = 1.234;
        let shown = from_meters(unit, meters);
        assert!((to_meters(unit, shown) - meters).abs() < 1e-6);
    }
    assert_eq!(from_meters(Unit::Centimeters, 0.25), 25.0);
    assert_eq!(to_meters(Unit::Millimeters, 500.0), 0.5);
}

#[test]
fn unit_formatting() {
    assert_eq!(format_length(Unit::Meters, 1.5), "1.500 m");
    assert_eq!(format_length(Unit::Centimeters, 1.5), "150.0 cm");
    assert_eq!(format_length(Unit::Millimeters, 1.5), "1500 mm");
}

#[test]
fn settings_start_with_a_grid_of_one_meter() {
    let mut s = Settings::default();
    assert_eq!((s.unit, s.grid_spacing), (Unit::Meters, f(1.0)));
    assert!(s.save_dir().is_none());
    s.set_grid_spacing(f(99.0));
    assert_eq!(s.grid_spacing, f(10.0), "the spacing is held within its limits");
    s.set_grid_spacing(f(0.0));
    assert_eq!(s.grid_spacing, f(0.05));
    s.grid_minor_color = GridColor { r: 1, g: 2, b: 3 };
    s.unit = Unit::Centimeters;
    s.reset_grid();
    assert_eq!(s.grid_spacing, f(1.0));
    assert_eq!(s.grid_minor_color, Settings::default().grid_minor_color);
    assert_eq!(s.unit, Unit::Centimeters, "the unit is not part of the grid");
    s.type_save_dir("  /models ");
    assert_eq!(s.save_dir().map(|d| d.as_str()), Some("/models"));
    s.type_save_dir("   ");
    assert!(s.save_dir().is_none());
}

#[test]
fn a_picked_folder_is_taken_by_the_window() {
    let mut settings = Settings::default();
    let mut window = SettingsWindow::new();
    assert_eq!((window.open, window.tab), (false, Tab::Viewport));
    window.open = true;
    window.frame(&mut settings, Some("/picked".to_string()), Some(Tab::Files), false);
    assert_eq!((window.open, window.tab), (true, Tab::Files));
    assert_eq!(settings.default_save_dir.as_deref(), Some("/picked"));
    window.frame(&mut settings, None, None, true);
    assert!(!window.open);
    assert_eq!(Tab::all().len(), 3);
    assert_eq!(Tab::Files.label(), "Files");
    assert!(Unit::Meters.caption().contains(Unit::Meters.label()));
}

#[test]
fn themes_are_whole() {
    assert_eq!(Theme::default(), Theme::Dark);
    assert_eq!(Theme::all().len(), 3);
    for theme in Theme::all() {
        assert!(!theme.label().is_empty() && !theme.description().is_empty());
        let p = theme.palette();
        assert_eq!(theme.viewport_clear(), (p.viewport_r, p.viewport_g, p.viewport_b));
    }
    assert_eq!(Theme::Dark.palette().accent, Rgb { r: 255, g: 160, b: 60 });
    assert!(!Theme::Light.palette().dark);
    // 0.12, 0.13 and 0.16 of full light
    assert_eq!(Theme::Dark.palette().viewport_color32(), Rgb { r: 30, g: 33, b: 40 });
}

#[test]
fn a_disabled_slot_is_not_hovered() {
    let cube = Primitive::Cube { size: f(1.0) };
    assert_eq!(primitive_icon(&cube), Some(PieIcon::Cube));
    let camera = Primitive::Camera { fov_deg: f(50.0), clip_start: f(0.1), clip_end: f(100.0) };
    assert_eq!(primitive_icon(&camera), None);
    let slots = vec![
        PieSlot::new("Cube".to_string(), PieIcon::Cube),
        PieSlot::new("Wall".to_string(), PieIcon::Wall).enabled(false),
    ];
    assert!(slots[0].enabled && !slots[1].enabled);
    assert_eq!(hovered_slot(&slots, Some(0)), Some(0));
    assert_eq!(hovered_slot(&slots, Some(1)), None);
    assert_eq!(hovered_slot(&slots, None), None);
}

#[test]
fn numbers_are_ordered_as_they_are() {
    let all = [f32::NEG_INFINITY, -2.5, -1e-40, -0.0, 0.0, 1e-40, 1.0, 2.5, f32::INFINITY];
    for a in all {
        for b in all {
            assert_eq!(f(a).is_less(f(b)), a < b, "{a} < {b}");
            assert_eq!(f(a).is_equal(f(b)), a == b, "{a} == {b}");
            assert_eq!(f(a).is_at_most(f(b)), a <= b, "{a} <= {b}");
        }
        assert!(!f(a).is_less(f(f32::NAN)) && !f(f32::NAN).is_less(f(a)));
        assert_eq!(f(a).is_finite(), a.is_finite());
    }
    assert!(f(f32::NAN).is_nan() && !f(f32::NAN).is_equal(f(f32::NAN)));
    assert_eq!(f(7.0).held_between(f(0.0), f(1.0)), f(1.0));
    assert_eq!((f(-1.0).at_least(f(0.5)), f(3.0).at_most(f(2.0))), (f(0.5), f(2.0)));
}

#[test]
fn fingerprints_tell_shapes_apart() {
    let words = |p: &Primitive| {
        let mut w = Vec::new();
        hash_primitive(&mut w, p);
        w
    };
    let plane = Primitive::Plane { size: f(1.0) };
    let cube = Primitive::Cube { size: f(1.0) };
    assert_ne!(words(&plane), words(&cube));
    assert_ne!(words(&cube), words(&Primitive::Cube { size: f(2.0) }));
    assert_eq!(digest(&words(&cube)), digest(&words(&cube)));
    assert_ne!(digest(&words(&cube)), digest(&words(&plane)));
    let mut w = Vec::new();
    hash_transform(&mut w, &Transform::default());
    assert_eq!(w.len(), 10);
}

#[test]
fn white_space_around_a_directory_is_dropped() {
    let mut codes: Vec<u32> = vec![0x20, 0x85, 0xa0, 0x1680, 0x2028, 0x2029, 0x202f, 0x205f, 0x3000];
    codes.extend(0x9..=0xd);
    codes.extend(0x2000..=0x200a);
    for n in 0..=0x10ffff {
        let Some(c) = char::from_u32(n) else { continue };
        assert_eq!(c.is_whitespace(), codes.contains(&n), "{n:#x}");
    }
    let mut s = Settings::default();
    for n in codes {
        let c = char::from_u32(n).expect("a character");
        s.type_save_dir(&format!("{c}{c}/a{c}b{c}"));
        assert_eq!(s.save_dir().cloned(), Some(format!("/a{c}b")), "{n:#x}");
    }
    // no white space: it stays
    s.type_save_dir("\u{200b}/a\u{feff}");
    assert_eq!(s.save_dir().map(|d| d.as_str()), Some("\u{200b}/a\u{feff}"));
}
