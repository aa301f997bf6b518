//! How objects look in the viewport: shading modes, outlines, materials,
//! lights, and the keys by which looks and geometry are shared.

use vstd::prelude::*;
use crate::fingerprint::{
    bool_to_word, bool_word, digest, digest_of, hash_primitive, hash_transform, primitive_words,
    transform_words,
};
use crate::modifier_ops::{only_subdivides, subdivision_only_levels};
use crate::scalar::{Scalar, Transform, ONE_BITS};
use crate::scene::{Color, LightKind, Object, ObjectId, Primitive, Scene};
use crate::selection::{contains, Selection};

verus! {

/// Viewport shading mode.
#[derive(Clone, Copy, PartialEq, Eq, Structural, Debug, Hash)]
pub enum ShadeMode {
    /// Only the objects' sharp edges.
    Wireframe,
    /// Neutral gray studio look, object materials ignored.
    Solid,
    /// Full materials under the built-in studio rig. The default.
    MaterialPreview,
    /// The final image, lit by the scene's light objects.
    Rendered,
}

impl ShadeMode {
    /// The name that the control interface uses for this mode.
    pub fn name(self) -> (r: &'static str)
        ensures
            r@ == match self {
                ShadeMode::Wireframe => "wireframe"@,
                ShadeMode::Solid => "solid"@,
                ShadeMode::MaterialPreview => "material"@,
                ShadeMode::Rendered => "rendered"@,
            },
    {
        match self {
            ShadeMode::Wireframe => "wireframe",
            ShadeMode::Solid => "solid",
            ShadeMode::MaterialPreview => "material",
            ShadeMode::Rendered => "rendered",
        }
    }
}

/// An 8-bit color with opacity.
#[derive(Clone, Copy, PartialEq, Eq, Structural, Debug)]
pub struct Srgba {
    pub r: u8,
    pub g: u8,
    pub b: u8,
    pub a: u8,
}

/// Light orange, around the active object.
pub open spec fn active_outline() -> Srgba {
    Srgba { r: 255, g: 170, b: 64, a: 255 }
}

/// Darker orange, around other selected objects.
pub open spec fn selected_outline() -> Srgba {
    Srgba { r: 230, g: 110, b: 20, a: 255 }
}

/// Selection tier of an object.
#[derive(Clone, Copy, PartialEq, Eq, Structural, Debug, Hash)]
pub enum OutlineTier {
    Unselected,
    Selected,
    Active,
    /// Selected, with an unapplied modifier stack.
    SelectedModifier,
    /// Active, with an unapplied modifier stack.
    ActiveModifier,
    /// Selected, and overlapping something while it is placed.
    Overlap,
}

/// The tier of an object.
pub open spec fn tier_of(
    id: ObjectId,
    selected: Seq<ObjectId>,
    active: Option<ObjectId>,
    overlaps: Seq<ObjectId>,
    has_modifiers: bool,
) -> OutlineTier {
    if !selected.contains(id) {
        OutlineTier::Unselected
    } else if overlaps.contains(id) {
        OutlineTier::Overlap
    } else if active == Some(id) {
        if has_modifiers {
            OutlineTier::ActiveModifier
        } else {
            OutlineTier::Active
        }
    } else if has_modifiers {
        OutlineTier::SelectedModifier
    } else {
        OutlineTier::Selected
    }
}

/// The outline color of a tier.
pub open spec fn tier_color(tier: OutlineTier) -> Option<Srgba> {
    match tier {
        OutlineTier::Unselected => None,
        OutlineTier::Selected => Some(selected_outline()),
        OutlineTier::Active => Some(active_outline()),
        OutlineTier::SelectedModifier => Some(Srgba { r: 150, g: 80, b: 230, a: 255 }),
        OutlineTier::ActiveModifier => Some(Srgba { r: 200, g: 140, b: 255, a: 255 }),
        OutlineTier::Overlap => Some(Srgba { r: 235, g: 60, b: 50, a: 255 }),
    }
}

/// How strong a tier is: an overlap outranks everything.
pub open spec fn tier_rank(tier: OutlineTier) -> int {
    match tier {
        OutlineTier::Overlap => 4,
        OutlineTier::ActiveModifier => 3,
        OutlineTier::Active => 2,
        OutlineTier::SelectedModifier => 1,
        _ => 0,
    }
}

impl OutlineTier {
    pub fn of(
        id: ObjectId,
        selection: &Selection,
        overlaps: &Vec<ObjectId>,
        has_modifiers: bool,
    ) -> (r: OutlineTier)
        ensures
            r == tier_of(
                id,
                selection@.selected,
                selection@.active,
                overlaps@,
                has_modifiers,
            ),
    {
        if !selection.is_selected(id) {
            OutlineTier::Unselected
        } else if contains(overlaps, id) {
            OutlineTier::Overlap
        } else if selection.active().is_some() && selection.active().unwrap() == id {
            if has_modifiers {
                OutlineTier::ActiveModifier
            } else {
                OutlineTier::Active
            }
        } else if has_modifiers {
            OutlineTier::SelectedModifier
        } else {
            OutlineTier::Selected
        }
    }

    pub fn color(self) -> (r: Option<Srgba>)
        ensures
            r == tier_color(self),
    {
        match self {
            OutlineTier::Unselected => None,
            OutlineTier::Selected => Some(Srgba { r: 230, g: 110, b: 20, a: 255 }),
            OutlineTier::Active => Some(Srgba { r: 255, g: 170, b: 64, a: 255 }),
            OutlineTier::SelectedModifier => Some(Srgba { r: 150, g: 80, b: 230, a: 255 }),
            OutlineTier::ActiveModifier => Some(Srgba { r: 200, g: 140, b: 255, a: 255 }),
            OutlineTier::Overlap => Some(Srgba { r: 235, g: 60, b: 50, a: 255 }),
        }
    }

    fn rank(self) -> (r: u8)
        ensures
            r == tier_rank(self),
    {
        match self {
            OutlineTier::Overlap => 4,
            OutlineTier::ActiveModifier => 3,
            OutlineTier::Active => 2,
            OutlineTier::SelectedModifier => 1,
            _ => 0,
        }
    }
}

/// The strongest tier among the first `n` objects; of equals, the last.
/// `None` while no object is selected.
pub open spec fn strongest(
    objects: Seq<Object>,
    selected: Seq<ObjectId>,
    active: Option<ObjectId>,
    overlaps: Seq<ObjectId>,
    n: nat,
) -> Option<OutlineTier>
    decreases n,
{
    if n == 0 {
        None
    } else {
        let o = objects[n - 1];
        let before = strongest(objects, selected, active, overlaps, (n - 1) as nat);
        let tier = tier_of(o.id, selected, active, overlaps, o.modifiers@.len() > 0);
        if !selected.contains(o.id) {
            before
        } else if before is Some && tier_rank(before->0) > tier_rank(tier) {
            before
        } else {
            Some(tier)
        }
    }
}

/// The outline color of the current selection: that of the strongest tier
/// present, the active color where nothing is selected.
pub fn outline_color(scene: &Scene, selection: &Selection, overlaps: &Vec<ObjectId>) -> (r: Srgba)
    ensures
        ({
            let t = strongest(
                scene.objects@,
                selection@.selected,
                selection@.active,
                overlaps@,
                scene.objects@.len(),
            );
            r == if t is Some && tier_color(t->0) is Some {
                tier_color(t->0)->0
            } else {
                active_outline()
            }
        }),
{
    let mut best: Option<OutlineTier> = None;
    let mut n: usize = 0;
    while n < scene.objects.len()
        invariant
            n <= scene.objects@.len(),
            best == strongest(
                scene.objects@,
                selection@.selected,
                selection@.active,
                overlaps@,
                n as nat,
            ),
        decreases scene.objects@.len() - n,
    {
        let o = &scene.objects[n];
        if selection.is_selected(o.id) {
            let tier = OutlineTier::of(o.id, selection, overlaps, o.modifiers.len() > 0);
            match best {
                None => {
                    best = Some(tier);
                },
                Some(b) => {
                    if b.rank() <= tier.rank() {
                        best = Some(tier);
                    }
                },
            }
        }
        n += 1;
    }
    match best {
        Some(t) => match t.color() {
            Some(c) => c,
            None => Srgba { r: 255, g: 170, b: 64, a: 255 },
        },
        None => Srgba { r: 255, g: 170, b: 64, a: 255 },
    }
}

/// No selected object outranks the color shown.
pub proof fn law_outline_is_strongest(
    objects: Seq<Object>,
    selected: Seq<ObjectId>,
    active: Option<ObjectId>,
    overlaps: Seq<ObjectId>,
    n: nat,
    i: int,
)
    requires
        0 <= i < n <= objects.len(),
        selected.contains(objects[i].id),
    ensures
        strongest(objects, selected, active, overlaps, n) matches Some(t) && tier_rank(t)
            >= tier_rank(
            tier_of(
                objects[i].id,
                selected,
                active,
                overlaps,
                objects[i].modifiers@.len() > 0,
            ),
        ),
    decreases n,
{
    if i < n - 1 {
        law_outline_is_strongest(objects, selected, active, overlaps, (n - 1) as nat, i);
    }
}

/// The wireframe tier of an object: 0 plain, 1 selected, 2 active, 3 and 4
/// the same with modifiers.
pub fn wire_tier(id: ObjectId, selection: &Selection, has_modifiers: bool) -> (r: u8)
    ensures
        r == if selection@.active == Some(id) {
            if has_modifiers {
                4int
            } else {
                2
            }
        } else if selection@.selected.contains(id) {
            if has_modifiers {
                3
            } else {
                1
            }
        } else {
            0
        },
{
    if selection.active().is_some() && selection.active().unwrap() == id {
        if has_modifiers {
            4
        } else {
            2
        }
    } else if selection.is_selected(id) {
        if has_modifiers {
            3
        } else {
            1
        }
    } else {
        0
    }
}

/// The object's geometry is a function of its primitive alone.
pub open spec fn is_shareable(o: Object) -> bool {
    &&& o.edited_mesh is None
    &&& o.rope_nodes is None
    &&& o.cloth_nodes is None
    &&& o.cutouts@.len() == 0
    &&& o.floor_outline@.len() == 0
    &&& o.terrain is None
    &&& only_subdivides(o.modifiers@)
}

/// Is the object's geometry a function of its primitive alone?
pub fn shareable(o: &Object) -> (r: bool)
    requires
        o.modifiers@.len() < u32::MAX,
    ensures
        r == is_shareable(*o),
{
    o.edited_mesh.is_none() && o.rope_nodes.is_none() && o.cloth_nodes.is_none() && o.cutouts.len()
        == 0 && o.floor_outline.len() == 0 && o.terrain.is_none() && subdivision_only_levels(
        &o.modifiers,
    ).is_some()
}

/// What the geometry that an object draws depends on: its primitive, its
/// shading, the stamp of its stack, how many face materials order its
/// triangles; for one that cannot be shared also who it is, and its edits.
pub open spec fn mesh_words(o: Object, stamp: u64) -> Seq<u64> {
    let shared = primitive_words(o.primitive) + seq![
        bool_word(o.smooth),
        stamp,
        o.face_materials@.len() as u64,
    ];
    if is_shareable(o) {
        shared
    } else {
        shared + seq![o.id.0, o.mesh_revision, o.sculpt_revision]
    }
}

/// The key by which geometry is shared: see [`mesh_words`]. `stamp` is the
/// fingerprint of the object's modifier stack.
pub fn mesh_key(o: &Object, stamp: u64) -> (r: u64)
    requires
        o.modifiers@.len() < u32::MAX,
    ensures
        r == digest_of(mesh_words(*o, stamp)),
{
    let mut words: Vec<u64> = Vec::new();
    hash_primitive(&mut words, &o.primitive);
    words.push(bool_to_word(o.smooth));
    words.push(stamp);
    words.push(o.face_materials.len() as u64);
    if !shareable(o) {
        words.push(o.id.0);
        words.push(o.mesh_revision);
        words.push(o.sculpt_revision);
    }
    assert(words@ =~= mesh_words(*o, stamp));
    digest(&words)
}

/// Shareable objects with the same primitive, shading, stamp and number of
/// face materials have the same key, whatever else tells them apart.
pub proof fn law_like_objects_share_a_key(a: Object, b: Object, stamp: u64)
    requires
        is_shareable(a),
        is_shareable(b),
        a.primitive == b.primitive,
        a.smooth == b.smooth,
        a.face_materials@.len() == b.face_materials@.len(),
    ensures
        mesh_words(a, stamp) == mesh_words(b, stamp),
{
}

/// Two objects that cannot be shared never have the same words.
pub proof fn law_unshareable_objects_differ(a: Object, b: Object, s: u64, t: u64)
    requires
        !is_shareable(a),
        !is_shareable(b),
        a.id != b.id,
    ensures
        mesh_words(a, s) != mesh_words(b, t),
{
    if mesh_words(a, s) == mesh_words(b, t) {
        let x = primitive_words(a.primitive);
        let y = primitive_words(b.primitive);
        let ra = seq![bool_word(a.smooth), s, a.face_materials@.len() as u64] + seq![
            a.id.0,
            a.mesh_revision,
            a.sculpt_revision,
        ];
        let rb = seq![bool_word(b.smooth), t, b.face_materials@.len() as u64] + seq![
            b.id.0,
            b.mesh_revision,
            b.sculpt_revision,
        ];
        assert(mesh_words(a, s) =~= x + ra);
        assert(mesh_words(b, t) =~= y + rb);
        crate::fingerprint::law_primitive_words_are_unambiguous(a.primitive, b.primitive, ra, rb);
        assert(ra[3] == a.id.0 && rb[3] == b.id.0);
        assert(a.id.0 == b.id.0);
        assert(a.id == b.id);
    }
}

/// A surface material, numbers by their bit patterns.
#[derive(Clone, Copy, PartialEq, Eq, Structural, Debug)]
pub struct Material {
    pub base_color: Color,
    pub roughness: Scalar,
    pub metallic: Scalar,
    pub specular: Scalar,
    pub alpha: Scalar,
    pub coat: Scalar,
    pub coat_roughness: Scalar,
    pub sheen: Scalar,
    pub occlusion: Scalar,
    pub emissive: Color,
    pub uv_u: Scalar,
    pub uv_v: Scalar,
}

/// The word for a shading mode.
pub open spec fn mode_word(mode: ShadeMode) -> u64 {
    match mode {
        ShadeMode::Wireframe => 0,
        ShadeMode::Solid => 1,
        ShadeMode::MaterialPreview => 2,
        ShadeMode::Rendered => 3,
    }
}

fn mode_to_word(mode: ShadeMode) -> (r: u64)
    ensures
        r == mode_word(mode),
{
    match mode {
        ShadeMode::Wireframe => 0,
        ShadeMode::Solid => 1,
        ShadeMode::MaterialPreview => 2,
        ShadeMode::Rendered => 3,
    }
}

/// Everything that [`gpu_material`] reads, and the identity of the textures.
pub open spec fn material_words(
    m: Material,
    p: Primitive,
    mode: ShadeMode,
    xray: bool,
    textures: u64,
) -> Seq<u64> {
    seq![
        textures,
        m.uv_u.bits as u64,
        m.uv_v.bits as u64,
        m.base_color.r.bits as u64,
        m.base_color.g.bits as u64,
        m.base_color.b.bits as u64,
        m.roughness.bits as u64,
        m.metallic.bits as u64,
        m.specular.bits as u64,
        m.alpha.bits as u64,
        m.coat.bits as u64,
        m.coat_roughness.bits as u64,
        m.sheen.bits as u64,
        m.occlusion.bits as u64,
        m.emissive.r.bits as u64,
        m.emissive.g.bits as u64,
        m.emissive.b.bits as u64,
    ] + primitive_words(p) + seq![mode_word(mode), bool_word(xray)]
}

/// The key by which materials are shared.
pub fn material_key(m: &Material, p: &Primitive, mode: ShadeMode, xray: bool, textures: u64) -> (r:
    u64)
    ensures
        r == digest_of(material_words(*m, *p, mode, xray, textures)),
{
    let mut words: Vec<u64> = Vec::new();
    words.push(textures);
    words.push(m.uv_u.bits as u64);
    words.push(m.uv_v.bits as u64);
    words.push(m.base_color.r.bits as u64);
    words.push(m.base_color.g.bits as u64);
    words.push(m.base_color.b.bits as u64);
    words.push(m.roughness.bits as u64);
    words.push(m.metallic.bits as u64);
    words.push(m.specular.bits as u64);
    words.push(m.alpha.bits as u64);
    words.push(m.coat.bits as u64);
    words.push(m.coat_roughness.bits as u64);
    words.push(m.sheen.bits as u64);
    words.push(m.occlusion.bits as u64);
    words.push(m.emissive.r.bits as u64);
    words.push(m.emissive.g.bits as u64);
    words.push(m.emissive.b.bits as u64);
    hash_primitive(&mut words, p);
    words.push(mode_to_word(mode));
    words.push(bool_to_word(xray));
    assert(words@ =~= material_words(*m, *p, mode, xray, textures));
    digest(&words)
}

/// What the bridged textures of a material cover.
#[derive(Clone, Copy, PartialEq, Eq, Structural, Debug)]
pub struct TextureCover {
    pub albedo: bool,
    pub roughness: bool,
    pub metallic: bool,
}

/// A material as the engine is told of it.
#[derive(Clone, Copy, PartialEq, Eq, Structural, Debug)]
pub struct GpuMaterial {
    pub base: Color,
    pub alpha: Scalar,
    pub emissive: Color,
    pub metallic: Scalar,
    pub roughness: Scalar,
    pub reflectance: Scalar,
    pub occlusion: Scalar,
    /// Texture repeats, where there are textures.
    pub tiled: bool,
    pub uv_u: Scalar,
    pub uv_v: Scalar,
    /// A clear coat with the material's coat values.
    pub clearcoat: bool,
    /// Blended, and drawn from both sides.
    pub blended: bool,
}

/// `x` held between `low` and `high`; what is not a number stays.
pub open spec fn clamped(x: Scalar, low: u32, high: u32) -> Scalar {
    if x.less(Scalar { bits: low }) {
        Scalar { bits: low }
    } else if (Scalar { bits: high }).less(x) {
        Scalar { bits: high }
    } else {
        x
    }
}

fn clamp(x: Scalar, low: u32, high: u32) -> (r: Scalar)
    ensures
        r == clamped(x, low, high),
{
    if x.is_less(Scalar { bits: low }) {
        Scalar { bits: low }
    } else if (Scalar { bits: high }).is_less(x) {
        Scalar { bits: high }
    } else {
        x
    }
}

/// Bits of 0.35: how opaque everything is in x-ray view.
pub const XRAY_ALPHA: u32 = 0x3eb3_3333;
/// Bits of 0.02: the smoothest surface there is.
pub const MIN_ROUGHNESS: u32 = 0x3ca3_d70a;
/// Bits of 0.0001: the thinnest coat that shows.
pub const MIN_COAT: u32 = 0x38d1_b717;
/// Bits of 0.999: less opaque is transparent.
pub const OPAQUE: u32 = 0x3f7f_be77;
/// Bits of 0.05: the least opaque water.
pub const MIN_WATER: u32 = 0x3d4c_cccd;
/// Bits of 0.9: how water reflects.
pub const WATER_SPECULAR: u32 = 0x3f66_6666;

pub open spec fn color_bits(r: u32, g: u32, b: u32) -> Color {
    Color { r: Scalar { bits: r }, g: Scalar { bits: g }, b: Scalar { bits: b } }
}

fn make_color(r: u32, g: u32, b: u32) -> (c: Color)
    ensures
        c == color_bits(r, g, b),
{
    Color { r: Scalar { bits: r }, g: Scalar { bits: g }, b: Scalar { bits: b } }
}

/// Base color, roughness, metallic and emission before textures: a light
/// glows in its own color in every mode, a camera has its own look, the
/// solid mode is a neutral gray, everything else shows its material.
pub open spec fn plain_look(m: Material, p: Primitive, mode: ShadeMode) -> (
    Color,
    Scalar,
    Scalar,
    Color,
) {
    match p {
        Primitive::Light { color, .. } => (
            color_bits(0x3dcc_cccd, 0x3dcc_cccd, 0x3dcc_cccd),
            Scalar { bits: ONE_BITS },
            Scalar { bits: 0 },
            color,
        ),
        Primitive::Camera { .. } => (
            color_bits(0x3e23_d70a, 0x3e23_d70a, 0x3e42_8f5c),
            Scalar { bits: 0x3f19_999a },
            Scalar { bits: 0x3e4c_cccd },
            color_bits(0x3d4c_cccd, 0x3df5_c28f, 0x3e4c_cccd),
        ),
        _ => if mode == ShadeMode::Solid {
            (
                color_bits(0x3f38_51ec, 0x3f38_51ec, 0x3f40_0000),
                Scalar { bits: 0x3f59_999a },
                Scalar { bits: 0 },
                color_bits(0, 0, 0),
            )
        } else {
            (m.base_color, m.roughness, m.metallic, m.emissive)
        },
    }
}

fn look_of(m: &Material, p: &Primitive, mode: ShadeMode) -> (r: (Color, Scalar, Scalar, Color))
    ensures
        r == plain_look(*m, *p, mode),
{
    match *p {
        Primitive::Light { color, .. } => (
            make_color(0x3dcc_cccd, 0x3dcc_cccd, 0x3dcc_cccd),
            Scalar { bits: ONE_BITS },
            Scalar { bits: 0 },
            color,
        ),
        Primitive::Camera { .. } => (
            make_color(0x3e23_d70a, 0x3e23_d70a, 0x3e42_8f5c),
            Scalar { bits: 0x3f19_999a },
            Scalar { bits: 0x3e4c_cccd },
            make_color(0x3d4c_cccd, 0x3df5_c28f, 0x3e4c_cccd),
        ),
        _ => {
            if mode == ShadeMode::Solid {
                (
                    make_color(0x3f38_51ec, 0x3f38_51ec, 0x3f40_0000),
                    Scalar { bits: 0x3f59_999a },
                    Scalar { bits: 0 },
                    make_color(0, 0, 0),
                )
            } else {
                (m.base_color, m.roughness, m.metallic, m.emissive)
            }
        },
    }
}

/// The engine material: each channel that a texture covers is neutral, since
/// the engine multiplies the two; values are held to their ranges.
pub open spec fn gpu_material_of(
    m: Material,
    p: Primitive,
    mode: ShadeMode,
    xray: bool,
    textures: Option<TextureCover>,
) -> GpuMaterial {
    let (base, roughness, metallic, emissive) = plain_look(m, p, mode);
    let one = Scalar { bits: ONE_BITS };
    let alpha = if xray {
        Scalar { bits: XRAY_ALPHA }
    } else {
        clamped(m.alpha, 0, ONE_BITS)
    };
    GpuMaterial {
        base: if textures is Some && textures->0.albedo {
            color_bits(ONE_BITS, ONE_BITS, ONE_BITS)
        } else {
            base
        },
        alpha,
        emissive,
        metallic: clamped(
            if textures is Some && textures->0.metallic {
                one
            } else {
                metallic
            },
            0,
            ONE_BITS,
        ),
        roughness: clamped(
            if textures is Some && textures->0.roughness {
                one
            } else {
                roughness
            },
            MIN_ROUGHNESS,
            ONE_BITS,
        ),
        reflectance: clamped(m.specular, 0, ONE_BITS),
        occlusion: clamped(m.occlusion, 0, ONE_BITS),
        tiled: textures is Some,
        uv_u: m.uv_u,
        uv_v: m.uv_v,
        clearcoat: (Scalar { bits: MIN_COAT }).less(m.coat),
        blended: alpha.less(Scalar { bits: OPAQUE }),
    }
}

/// The engine material for one material.
pub fn gpu_material(
    m: &Material,
    p: &Primitive,
    mode: ShadeMode,
    xray: bool,
    textures: Option<TextureCover>,
) -> (r: GpuMaterial)
    ensures
        r == gpu_material_of(*m, *p, mode, xray, textures),
{
    let (base, roughness, metallic, emissive) = look_of(m, p, mode);
    let one = Scalar { bits: ONE_BITS };
    let alpha = if xray {
        Scalar { bits: XRAY_ALPHA }
    } else {
        clamp(m.alpha, 0, ONE_BITS)
    };
    let (cover_albedo, cover_roughness, cover_metallic) = match textures {
        Some(t) => (t.albedo, t.roughness, t.metallic),
        None => (false, false, false),
    };
    GpuMaterial {
        base: if cover_albedo {
            make_color(ONE_BITS, ONE_BITS, ONE_BITS)
        } else {
            base
        },
        alpha,
        emissive,
        metallic: clamp(
            if cover_metallic {
                one
            } else {
                metallic
            },
            0,
            ONE_BITS,
        ),
        roughness: clamp(
            if cover_roughness {
                one
            } else {
                roughness
            },
            MIN_ROUGHNESS,
            ONE_BITS,
        ),
        reflectance: clamp(m.specular, 0, ONE_BITS),
        occlusion: clamp(m.occlusion, 0, ONE_BITS),
        tiled: textures.is_some(),
        uv_u: m.uv_u,
        uv_v: m.uv_v,
        clearcoat: (Scalar { bits: MIN_COAT }).is_less(m.coat),
        blended: alpha.is_less(Scalar { bits: OPAQUE }),
    }
}

/// Materials with the same words make the same engine material: sharing by
/// key loses nothing.
pub proof fn law_material_words_decide_the_look(
    m: Material,
    p: Primitive,
    mode: ShadeMode,
    xray: bool,
    n: Material,
    q: Primitive,
    other: ShadeMode,
    see: bool,
    key: u64,
    textures: Option<TextureCover>,
)
    requires
        material_words(m, p, mode, xray, key) == material_words(n, q, other, see, key),
    ensures
        gpu_material_of(m, p, mode, xray, textures) == gpu_material_of(n, q, other, see, textures),
{
    let a = material_words(m, p, mode, xray, key);
    let b = material_words(n, q, other, see, key);
    assert(a[1] == b[1] && a[2] == b[2] && a[3] == b[3] && a[4] == b[4] && a[5] == b[5]);
    assert(a[6] == b[6] && a[7] == b[7] && a[8] == b[8] && a[9] == b[9] && a[10] == b[10]);
    assert(a[11] == b[11] && a[12] == b[12] && a[13] == b[13] && a[14] == b[14]);
    assert(a[15] == b[15] && a[16] == b[16]);
    assert(m == n);
    let ra = seq![mode_word(mode), bool_word(xray)];
    let rb = seq![mode_word(other), bool_word(see)];
    assert(a.skip(17) =~= primitive_words(p) + ra);
    assert(b.skip(17) =~= primitive_words(q) + rb);
    crate::fingerprint::law_primitive_words_are_unambiguous(p, q, ra, rb);
    assert(ra[0] == rb[0] && ra[1] == rb[1]);
}

/// The surface of a terrain's water.
#[derive(Clone, Copy, PartialEq, Eq, Structural, Debug)]
pub struct WaterLayer {
    pub enabled: bool,
    pub deep: Color,
    pub roughness: Scalar,
    pub opacity: Scalar,
}

/// The material made up for a terrain's water sheet, from a plain one: the
/// deep color, glossy and not metallic, as transparent as the layer says.
pub open spec fn water_look(water: WaterLayer, plain: Material) -> Material {
    Material {
        base_color: water.deep,
        roughness: clamped(water.roughness, MIN_ROUGHNESS, ONE_BITS),
        metallic: Scalar { bits: 0 },
        specular: Scalar { bits: WATER_SPECULAR },
        alpha: clamped(water.opacity, MIN_WATER, ONE_BITS),
        ..plain
    }
}

/// The material of a water sheet.
pub fn water_material(water: &WaterLayer, plain: &Material) -> (r: Material)
    ensures
        r == water_look(*water, *plain),
{
    Material {
        base_color: water.deep,
        roughness: clamp(water.roughness, MIN_ROUGHNESS, ONE_BITS),
        metallic: Scalar { bits: 0 },
        specular: Scalar { bits: WATER_SPECULAR },
        alpha: clamp(water.opacity, MIN_WATER, ONE_BITS),
        ..*plain
    }
}

/// What the lights and shadows of the first `n` objects depend on: of each
/// visible one who it is, where it stands, its primitive, its mesh revision
/// and its shading.
pub open spec fn lighting_words(objects: Seq<Object>, worlds: Seq<Transform>, n: nat) -> Seq<u64>
    decreases n,
{
    if n == 0 {
        seq![]
    } else {
        let o = objects[n - 1];
        let before = lighting_words(objects, worlds, (n - 1) as nat);
        if o.visible {
            before + seq![o.id.0] + transform_words(worlds[n - 1]) + primitive_words(o.primitive)
                + seq![o.mesh_revision, bool_word(o.smooth)]
        } else {
            before
        }
    }
}

/// Signature of everything that affects lights and their shadows.
pub fn lighting_signature(scene: &Scene, worlds: &Vec<Transform>) -> (r: u64)
    requires
        worlds@.len() == scene.objects@.len(),
    ensures
        r == digest_of(lighting_words(scene.objects@, worlds@, scene.objects@.len())),
{
    let mut words: Vec<u64> = Vec::new();
    let mut n: usize = 0;
    while n < scene.objects.len()
        invariant
            n <= scene.objects@.len(),
            worlds@.len() == scene.objects@.len(),
            words@ == lighting_words(scene.objects@, worlds@, n as nat),
        decreases scene.objects@.len() - n,
    {
        let o = &scene.objects[n];
        let ghost before = words@;
        if o.visible {
            words.push(o.id.0);
            hash_transform(&mut words, &worlds[n]);
            hash_primitive(&mut words, &o.primitive);
            words.push(o.mesh_revision);
            words.push(bool_to_word(o.smooth));
            assert(words@ =~= before + seq![o.id.0] + transform_words(worlds@[n as int])
                + primitive_words(o.primitive) + seq![o.mesh_revision, bool_word(o.smooth)]);
        }
        n += 1;
    }
    digest(&words)
}

/// What was lit last: which scene, its lighting signature and the mode.
#[derive(Clone, Copy, PartialEq, Eq, Structural, Debug)]
pub struct LitFrame {
    pub scene: u64,
    pub signature: u64,
    pub mode: ShadeMode,
}

/// What lights the viewport: the scene's own lights, or the studio rig.
#[derive(Clone, Copy, Debug)]
pub struct SceneLights {
    use_scene: bool,
    synced: Option<LitFrame>,
}

/// A light of the scene that shines besides the sun, by its object's place.
#[derive(Clone, Copy, PartialEq, Eq, Structural, Debug)]
pub struct PlacedLight {
    pub object: usize,
    pub spot: bool,
}

/// How the frame is lit.
#[derive(Debug)]
pub enum Lighting {
    /// As it was.
    Unchanged,
    /// By the studio rig: one key light without shadows, and a full fill.
    Studio,
    /// By the scene: its last visible sun if it has one, else a dim dome,
    /// and its other visible lights in document order.
    Scene { sun: Option<usize>, lights: Vec<PlacedLight> },
}

/// The last visible sun among the first `n` objects.
pub open spec fn last_sun(objects: Seq<Object>, n: nat) -> Option<usize>
    decreases n,
{
    if n == 0 {
        None
    } else if objects[n - 1].visible && (objects[n - 1].primitive matches Primitive::Light {
        kind,
        ..
    } && kind == LightKind::Sun) {
        Some((n - 1) as usize)
    } else {
        last_sun(objects, (n - 1) as nat)
    }
}

/// The visible point and spot lights among the first `n` objects.
pub open spec fn other_lights(objects: Seq<Object>, n: nat) -> Seq<PlacedLight>
    decreases n,
{
    if n == 0 {
        seq![]
    } else {
        let before = other_lights(objects, (n - 1) as nat);
        match objects[n - 1].primitive {
            Primitive::Light { kind, .. } => if objects[n - 1].visible && kind != LightKind::Sun {
                before.push(
                    PlacedLight { object: (n - 1) as usize, spot: kind == LightKind::Spot },
                )
            } else {
                before
            },
            _ => before,
        }
    }
}

impl SceneLights {
    /// The last frame was lit by the scene's own lights.
    pub closed spec fn scene_lit(&self) -> bool {
        self.use_scene
    }

    /// What was lit last.
    pub closed spec fn last(&self) -> Option<LitFrame> {
        self.synced
    }

    pub fn new() -> (r: SceneLights)
        ensures
            !r.scene_lit(),
            r.last() is None,
    {
        SceneLights { use_scene: false, synced: None }
    }

    /// Is the frame lit by the scene's own lights rather than the studio rig?
    pub fn scene_active(&self) -> (r: bool)
        ensures
            r == self.scene_lit(),
    {
        self.use_scene
    }

    /// The same as [`SceneLights::scene_active`].
    pub fn use_scene(&self) -> (r: bool)
        ensures
            r == self.scene_lit(),
    {
        self.use_scene
    }

    /// Decides how the frame is lit. Rendered mode is lit by the scene's own
    /// lights, every other mode by the studio rig; nothing is rebuilt unless
    /// the scene, the mode or, in Rendered mode, the lighting-relevant
    /// content changed. `instance` names the scene.
    pub fn sync(
        &mut self,
        instance: u64,
        scene: &Scene,
        worlds: &Vec<Transform>,
        mode: ShadeMode,
    ) -> (r: Lighting)
        requires
            worlds@.len() == scene.objects@.len(),
        ensures
            final(self).scene_lit() == (mode == ShadeMode::Rendered),
            ({
                let n = scene.objects@.len();
                let frame = LitFrame {
                    scene: instance,
                    signature: if mode == ShadeMode::Rendered {
                        digest_of(lighting_words(scene.objects@, worlds@, n))
                    } else {
                        0
                    },
                    mode,
                };
                &&& final(self).last() == Some(frame)
                &&& if old(self).last() == Some(frame) {
                    r is Unchanged
                } else if mode == ShadeMode::Rendered {
                    &&& r matches Lighting::Scene { sun, lights }
                    &&& sun == last_sun(scene.objects@, n)
                    &&& lights@ == other_lights(scene.objects@, n)
                } else {
                    r is Studio
                }
            }),
    {
        self.use_scene = mode == ShadeMode::Rendered;
        let signature: u64 = if self.use_scene {
            lighting_signature(scene, worlds)
        } else {
            0
        };
        let frame = LitFrame { scene: instance, signature, mode };
        let same = match self.synced {
            Some(f) => f == frame,
            None => false,
        };
        self.synced = Some(frame);
        if same {
            return Lighting::Unchanged;
        }
        if !self.use_scene {
            return Lighting::Studio;
        }
        let mut sun: Option<usize> = None;
        let mut lights: Vec<PlacedLight> = Vec::new();
        let mut n: usize = 0;
        while n < scene.objects.len()
            invariant
                n <= scene.objects@.len(),
                sun == last_sun(scene.objects@, n as nat),
                lights@ == other_lights(scene.objects@, n as nat),
            decreases scene.objects@.len() - n,
        {
            let o = &scene.objects[n];
            if let Primitive::Light { kind, color, intensity, spot_angle_deg, shadows } =
                o.primitive {
                if o.visible {
                    match kind {
                        LightKind::Sun => {
                            sun = Some(n);
                        },
                        LightKind::Point => {
                            lights.push(PlacedLight { object: n, spot: false });
                        },
                        LightKind::Spot => {
                            lights.push(PlacedLight { object: n, spot: true });
                        },
                    }
                }
            }
            n += 1;
        }
        Lighting::Scene { sun, lights }
    }
}

/// Only selected objects are outlined. Overlapping shows before all else,
/// then being active, and modifiers show on either.
pub proof fn law_outlines_show_the_selection(
    id: ObjectId,
    selected: Seq<ObjectId>,
    active: Option<ObjectId>,
    overlaps: Seq<ObjectId>,
    modified: bool,
)
    ensures
        ({
            let tier = tier_of(id, selected, active, overlaps, modified);
            &&& tier is Unselected <==> !selected.contains(id)
            &&& tier_color(tier) is None <==> !selected.contains(id)
            &&& tier is Overlap <==> selected.contains(id) && overlaps.contains(id)
            &&& tier is Active || tier is ActiveModifier <==> selected.contains(id)
                && !overlaps.contains(id) && active == Some(id)
            &&& tier is ActiveModifier || tier is SelectedModifier <==> selected.contains(id)
                && !overlaps.contains(id) && modified
        }),
{
}

/// No two kinds of outline have the same color.
pub proof fn law_outline_colors_differ(a: OutlineTier, b: OutlineTier)
    requires
        tier_color(a) == tier_color(b),
    ensures
        a == b,
{
}

/// An object that stands out more is never shown under one that stands out
/// less: overlapping over active, active over selected, modifiers over none.
pub proof fn law_outline_ranks(has: OutlineTier)
    ensures
        tier_rank(OutlineTier::Overlap) > tier_rank(OutlineTier::ActiveModifier),
        tier_rank(OutlineTier::ActiveModifier) > tier_rank(OutlineTier::Active),
        tier_rank(OutlineTier::Active) > tier_rank(OutlineTier::SelectedModifier),
        tier_rank(OutlineTier::SelectedModifier) > tier_rank(OutlineTier::Selected),
        tier_rank(has) <= tier_rank(OutlineTier::Overlap),
        tier_rank(has) >= tier_rank(OutlineTier::Unselected),
{
}

/// A mesh is shared only where nothing but its primitive shapes it.
pub proof fn law_shared_meshes_are_plain(o: Object)
    requires
        is_shareable(o),
    ensures
        o.edited_mesh is None && o.rope_nodes is None && o.cloth_nodes is None && o.terrain is None,
        o.cutouts@.len() == 0 && o.floor_outline@.len() == 0,
{
}

/// What is seen is in bounds: every amount lies between none and all of it,
/// and nothing is a perfect mirror.
pub proof fn law_materials_are_in_bounds(
    m: Material,
    p: Primitive,
    mode: ShadeMode,
    xray: bool,
    textures: Option<TextureCover>,
)
    ensures
        ({
            let g = gpu_material_of(m, p, mode, xray, textures);
            let zero = Scalar { bits: 0 };
            let one = Scalar { bits: ONE_BITS };
            &&& !g.alpha.less(zero) && !one.less(g.alpha)
            &&& !g.metallic.less(zero) && !one.less(g.metallic)
            &&& !g.roughness.less(Scalar { bits: MIN_ROUGHNESS }) && !one.less(g.roughness)
            &&& !g.reflectance.less(zero) && !one.less(g.reflectance)
            &&& !g.occlusion.less(zero) && !one.less(g.occlusion)
        }),
{
}

/// X-ray makes everything see-through alike, whatever its material; what is
/// see-through is blended, and nothing else is.
pub proof fn law_xray_sees_through(
    m: Material,
    n: Material,
    p: Primitive,
    mode: ShadeMode,
    textures: Option<TextureCover>,
)
    ensures
        gpu_material_of(m, p, mode, true, textures).alpha == gpu_material_of(
            n,
            p,
            mode,
            true,
            textures,
        ).alpha,
        gpu_material_of(m, p, mode, true, textures).blended,
        gpu_material_of(m, p, mode, false, textures).blended <==> gpu_material_of(
            m,
            p,
            mode,
            false,
            textures,
        ).alpha.less(Scalar { bits: OPAQUE }),
        !m.alpha.less(Scalar { bits: 0 }) && !(Scalar { bits: ONE_BITS }).less(m.alpha)
            ==> gpu_material_of(m, p, mode, false, textures).alpha == m.alpha,
{
}

/// In solid mode all objects but lights and cameras look alike: their color,
/// roughness, metal and glow do not come from the material. In the other
/// modes they do.
pub proof fn law_solid_mode_ignores_materials(m: Material, n: Material, p: Primitive, mode: ShadeMode)
    requires
        !(p is Light),
        !(p is Camera),
    ensures
        plain_look(m, p, ShadeMode::Solid) == plain_look(n, p, ShadeMode::Solid),
        mode != ShadeMode::Solid ==> plain_look(m, p, mode) == (
            m.base_color,
            m.roughness,
            m.metallic,
            m.emissive,
        ),
{
}

/// A light glows in its own color in every mode.
pub proof fn law_lights_glow(m: Material, p: Primitive, mode: ShadeMode)
    requires
        p is Light,
    ensures
        plain_look(m, p, mode).3 == p->Light_color,
        plain_look(m, p, mode) == plain_look(m, p, ShadeMode::Rendered),
{
}

/// A picture takes the place of what it pictures, and of nothing else.
pub proof fn law_pictures_replace_what_they_show(
    m: Material,
    p: Primitive,
    mode: ShadeMode,
    xray: bool,
    cover: TextureCover,
)
    ensures
        ({
            let with = gpu_material_of(m, p, mode, xray, Some(cover));
            let bare = gpu_material_of(m, p, mode, xray, None);
            let one = Scalar { bits: ONE_BITS };
            &&& with.tiled && !bare.tiled
            &&& !cover.albedo ==> with.base == bare.base
            &&& cover.albedo ==> with.base == (Color { r: one, g: one, b: one })
            &&& !cover.roughness ==> with.roughness == bare.roughness
            &&& cover.roughness ==> with.roughness == one
            &&& !cover.metallic ==> with.metallic == bare.metallic
            &&& cover.metallic ==> with.metallic == one
            &&& with.alpha == bare.alpha && with.emissive == bare.emissive
            &&& with.clearcoat == bare.clearcoat && with.blended == bare.blended
        }),
{
}

/// Water has the color of its depth, is no metal, and is never quite clear
/// nor a perfect mirror.
pub proof fn law_water_looks_like_water(water: WaterLayer, plain: Material)
    ensures
        ({
            let m = water_look(water, plain);
            &&& m.base_color == water.deep
            &&& m.metallic.bits == 0
            &&& !m.roughness.less(Scalar { bits: MIN_ROUGHNESS })
            &&& !m.alpha.less(Scalar { bits: MIN_WATER })
            &&& !(Scalar { bits: ONE_BITS }).less(m.alpha)
            &&& m.emissive == plain.emissive && m.coat == plain.coat
        }),
{
}

/// This object is a visible light, a sun or another kind.
pub open spec fn is_lit(o: Object, sun: bool) -> bool {
    o.visible && o.primitive is Light && (o.primitive->Light_kind == LightKind::Sun) == sun
}

/// The scene is lit by its last visible sun, and by every other visible
/// light, in document order; spots are told from the rest.
pub proof fn law_scene_is_lit_by_its_lights(objects: Seq<Object>, n: nat, i: int)
    requires
        n <= objects.len() <= usize::MAX,
        0 <= i < n,
    ensures
        is_lit(objects[i], true) ==> last_sun(objects, n) is Some && i <= last_sun(objects, n)->0,
        last_sun(objects, n) matches Some(s) ==> s < n && is_lit(objects[s as int], true),
        other_lights(objects, n).contains(
            PlacedLight {
                object: i as usize,
                spot: objects[i].primitive->Light_kind == LightKind::Spot,
            },
        ) <==> is_lit(objects[i], false),
        forall|a: int, b: int|
            0 <= a < b < other_lights(objects, n).len() ==> (#[trigger] other_lights(
                objects,
                n,
            )[a]).object < (#[trigger] other_lights(objects, n)[b]).object,
        forall|a: int|
            0 <= a < other_lights(objects, n).len() ==> (#[trigger] other_lights(
                objects,
                n,
            )[a]).object < n,
    decreases n,
{
    let before = other_lights(objects, (n - 1) as nat);
    let now = other_lights(objects, n);
    let own = PlacedLight {
        object: i as usize,
        spot: objects[i].primitive->Light_kind == LightKind::Spot,
    };
    if n > 1 {
        law_scene_is_lit_by_its_lights(
            objects,
            (n - 1) as nat,
            if i < n - 1 {
                i
            } else {
                0
            },
        );
    } else {
        assert(before.len() == 0);
        assert(last_sun(objects, 0) is None);
    }
    if i < n - 1 {
        if before.contains(own) {
            let k = choose|k: int| 0 <= k < before.len() && before[k] == own;
            assert(now[k] == own);
        }
        if now.contains(own) {
            let k = choose|k: int| 0 <= k < now.len() && now[k] == own;
            assert(k < before.len());
            assert(before[k] == own);
        }
    } else {
        if is_lit(objects[i], false) {
            assert(now[before.len() as int] == own);
        } else if now.contains(own) {
            let k = choose|k: int| 0 <= k < now.len() && now[k] == own;
            assert(before[k] == own);
            assert(before[k].object < n - 1);
        }
    }
}

/// The signature of the lighting changes with every visible object: hidden
/// ones leave it as it is.
pub proof fn law_hidden_objects_cast_no_light(
    objects: Seq<Object>,
    worlds: Seq<Transform>,
    n: nat,
)
    requires
        0 < n <= objects.len(),
    ensures
        !objects[n - 1].visible ==> lighting_words(objects, worlds, n) == lighting_words(
            objects,
            worlds,
            (n - 1) as nat,
        ),
        objects[n - 1].visible ==> lighting_words(objects, worlds, (n - 1) as nat).is_prefix_of(
            lighting_words(objects, worlds, n),
        ) && lighting_words(objects, worlds, n).len() > lighting_words(
            objects,
            worlds,
            (n - 1) as nat,
        ).len() + 2,
{
}

} // verus!
