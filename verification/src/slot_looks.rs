//! What each slot of an object wears: the object's own material, that of a
//! painted face or the water of a terrain, and where its textures come from.

use vstd::prelude::*;
use crate::fingerprint::{
    bool_to_word, bool_word, digest, digest_of, hash_primitive, primitive_words,
};
use crate::pbr_import::{Textures, TexturesView};
use crate::scalar::Transform;
use crate::scene::{Object, ObjectId, Primitive};
use crate::scene_render::{DrawObject, DrawView};
use crate::shading::{
    gpu_material, gpu_material_of, material_key, material_words, mesh_key, mesh_words,
    water_look, water_material, GpuMaterial, Material, OutlineTier, ShadeMode, TextureCover,
    WaterLayer,
};
use crate::slot_ranges::SlotRange;
use crate::text::{chars_of, decimal, decimal_string, join};
use crate::texture_bridge::{key_of, without_maps, TextureBridge};

verus! {

/// A material, and the files of its maps.
#[derive(Debug)]
pub struct Surface {
    pub material: Material,
    pub textures: Textures,
}

/// A surface as a value.
pub struct SurfaceView {
    pub material: Material,
    pub textures: TexturesView,
}

impl View for Surface {
    type V = SurfaceView;

    open spec fn view(&self) -> SurfaceView {
        SurfaceView { material: self.material, textures: self.textures@ }
    }
}

/// The water of a terrain, and a number that changes whenever it does.
#[derive(Clone, Copy, PartialEq, Eq, Structural, Debug)]
pub struct WaterLook {
    pub layer: WaterLayer,
    pub stamp: u64,
}

/// What a terrain puts over its material.
#[derive(Clone, Copy, PartialEq, Eq, Structural, Debug)]
pub struct TerrainLook {
    /// Where it is colored by rules, a number that changes whenever they do.
    pub color: Option<u64>,
    pub water: Option<WaterLook>,
}

/// All that an object can wear.
#[derive(Debug)]
pub struct ObjectLook {
    pub own: Surface,
    pub faces: Vec<Surface>,
    pub terrain: Option<TerrainLook>,
    /// A material with every value at its default.
    pub plain: Material,
}

/// A look as a value.
pub struct LookView {
    pub own: SurfaceView,
    pub faces: Seq<SurfaceView>,
    pub terrain: Option<TerrainLook>,
    pub plain: Material,
}

impl View for ObjectLook {
    type V = LookView;

    open spec fn view(&self) -> LookView {
        LookView {
            own: self.own@,
            faces: Seq::new(self.faces@.len(), |i: int| self.faces@[i]@),
            terrain: self.terrain,
            plain: self.plain,
        }
    }
}

/// The water of an object: only a terrain has any, and only where it is on.
pub open spec fn shown_water(p: Primitive, terrain: Option<TerrainLook>) -> Option<WaterLook> {
    match terrain {
        Some(t) => match t.water {
            Some(w) => if p is Terrain && w.layer.enabled {
                Some(w)
            } else {
                None
            },
            None => None,
        },
        None => None,
    }
}

/// The color rules of an object: only a terrain has any.
pub open spec fn shown_color(p: Primitive, terrain: Option<TerrainLook>) -> Option<u64> {
    match terrain {
        Some(t) => if p is Terrain {
            t.color
        } else {
            None
        },
        None => None,
    }
}

/// How many slots a mesh may have beside its first: one for each painted
/// face material, and one for water.
pub open spec fn slots_beside(faces: nat, water: bool) -> nat {
    if water && faces == 0 {
        1
    } else {
        faces
    }
}

/// Where the material of a slot comes from.
#[derive(Clone, Copy, PartialEq, Eq, Structural, Debug)]
pub enum SlotSurface {
    Own,
    Water,
    Face { index: usize },
}

/// Slot 0 is the object's own material and slot 1 the water, if there is
/// any; the others are face materials, and the object's own beyond them.
pub open spec fn surface_at(slot: u32, faces: nat, water: bool) -> SlotSurface {
    if slot == 0 {
        SlotSurface::Own
    } else if slot == 1 && water {
        SlotSurface::Water
    } else if slot - 1 < faces {
        SlotSurface::Face { index: (slot - 1) as usize }
    } else {
        SlotSurface::Own
    }
}

/// The gray looks show no textures.
pub open spec fn without_textures(mode: ShadeMode, xray: bool) -> bool {
    mode == ShadeMode::Solid || xray
}

/// Where the textures of a slot come from.
#[derive(Clone, Copy, PartialEq, Eq, Structural, Debug)]
pub enum TextureSource {
    /// There are none.
    Plain,
    /// The picture baked from a terrain's color rules, as of this stamp.
    Color { stamp: u64 },
    /// The picture baked from a terrain's water, as of this stamp.
    Water { stamp: u64 },
    /// The files of the material.
    Files,
}

/// All that a baked picture shows of an object.
pub open spec fn bake_words(o: Object, stamp: u64) -> Seq<u64> {
    seq![o.mesh_revision] + primitive_words(o.primitive) + seq![stamp]
}

impl LookView {
    pub open spec fn water(self, o: Object) -> Option<WaterLook> {
        shown_water(o.primitive, self.terrain)
    }

    pub open spec fn surface(self, o: Object, slot: u32) -> SlotSurface {
        surface_at(slot, self.faces.len(), self.water(o) is Some)
    }

    /// The material of a slot.
    pub open spec fn material(self, o: Object, slot: u32) -> Material {
        match self.surface(o, slot) {
            SlotSurface::Own => self.own.material,
            SlotSurface::Water => water_look(self.water(o)->0.layer, self.plain),
            SlotSurface::Face { index } => self.faces[index as int].material,
        }
    }

    /// The files of a slot's material; water has none.
    pub open spec fn files(self, o: Object, slot: u32) -> Option<TexturesView> {
        match self.surface(o, slot) {
            SlotSurface::Own => Some(self.own.textures),
            SlotSurface::Water => None,
            SlotSurface::Face { index } => Some(self.faces[index as int].textures),
        }
    }

    /// The textures of a slot. A baked picture goes before files.
    pub open spec fn source(self, o: Object, slot: u32, mode: ShadeMode, xray: bool) -> TextureSource {
        let color = shown_color(o.primitive, self.terrain);
        let files = self.files(o, slot);
        if without_textures(mode, xray) {
            TextureSource::Plain
        } else if slot == 0 && color is Some {
            TextureSource::Color { stamp: digest_of(bake_words(o, color->0)) }
        } else if slot == 1 && self.water(o) is Some {
            TextureSource::Water { stamp: digest_of(bake_words(o, self.water(o)->0.stamp)) }
        } else if files is Some && !without_maps(files->0) {
            TextureSource::Files
        } else {
            TextureSource::Plain
        }
    }

    /// What tells the textures of a slot from others: 0 where there are
    /// none, the stamp of a baked picture, or the files and whether they
    /// could be read.
    pub open spec fn texture_word(
        self,
        o: Object,
        slot: u32,
        mode: ShadeMode,
        xray: bool,
        found: bool,
    ) -> u64 {
        match self.source(o, slot, mode, xray) {
            TextureSource::Plain => 0,
            TextureSource::Color { stamp } => stamp,
            TextureSource::Water { stamp } => stamp,
            TextureSource::Files => digest_of(file_words(key_of(self.files(o, slot)->0), found)),
        }
    }

    /// The key of a slot's material.
    pub open spec fn key(
        self,
        o: Object,
        slot: u32,
        mode: ShadeMode,
        xray: bool,
        found: bool,
    ) -> u64 {
        digest_of(
            material_words(
                self.material(o, slot),
                o.primitive,
                mode,
                xray,
                self.texture_word(o, slot, mode, xray, found),
            ),
        )
    }
}

/// The characters of a key, and whether its files could be read.
pub open spec fn file_words(key: Seq<char>, found: bool) -> Seq<u64> {
    Seq::new(key.len(), |i: int| key[i] as u64).push(bool_word(found))
}

fn file_digest(key: &str, found: bool) -> (r: u64)
    ensures
        r == digest_of(file_words(key@, found)),
{
    let chars = chars_of(key);
    let mut words: Vec<u64> = Vec::new();
    let mut i: usize = 0;
    while i < chars.len()
        invariant
            i <= chars@.len(),
            words@ == Seq::new(i as nat, |k: int| chars@[k] as u64),
        decreases chars@.len() - i,
    {
        words.push(chars[i] as u64);
        i += 1;
        assert(words@ =~= Seq::new(i as nat, |k: int| chars@[k] as u64));
    }
    words.push(bool_to_word(found));
    assert(words@ =~= file_words(key@, found));
    digest(&words)
}

fn bake_digest(o: &Object, stamp: u64) -> (r: u64)
    ensures
        r == digest_of(bake_words(*o, stamp)),
{
    let mut words: Vec<u64> = Vec::new();
    words.push(o.mesh_revision);
    hash_primitive(&mut words, &o.primitive);
    words.push(stamp);
    assert(words@ =~= bake_words(*o, stamp));
    digest(&words)
}

/// The name of the picture baked from a terrain's color rules.
pub fn color_bake_key(id: ObjectId) -> (r: String)
    ensures
        r@ == "terrain-color:"@ + decimal(id.0 as nat),
{
    join("terrain-color:", decimal_string(id.0).as_str())
}

/// The name of the picture baked from a terrain's water.
pub fn water_bake_key(id: ObjectId) -> (r: String)
    ensures
        r@ == "terrain-water:"@ + decimal(id.0 as nat),
{
    join("terrain-water:", decimal_string(id.0).as_str())
}

impl ObjectLook {
    /// The water that the object shows.
    pub fn water(&self, o: &Object) -> (r: Option<WaterLook>)
        ensures
            r == self@.water(*o),
    {
        match (&self.terrain, &o.primitive) {
            (Some(t), Primitive::Terrain { .. }) => match t.water {
                Some(w) => if w.layer.enabled {
                    Some(w)
                } else {
                    None
                },
                None => None,
            },
            _ => None,
        }
    }

    /// How many slots the object's mesh may have beside its first.
    pub fn slots(&self, o: &Object) -> (r: usize)
        ensures
            r == slots_beside(self@.faces.len(), self@.water(*o) is Some),
    {
        if self.faces.len() == 0 && self.water(o).is_some() {
            1
        } else {
            self.faces.len()
        }
    }

    /// Where the material of a slot comes from.
    pub fn surface(&self, o: &Object, slot: u32) -> (r: SlotSurface)
        ensures
            r == self@.surface(*o, slot),
            r matches SlotSurface::Face { index } ==> index < self.faces@.len(),
    {
        if slot == 0 {
            SlotSurface::Own
        } else if slot == 1 && self.water(o).is_some() {
            SlotSurface::Water
        } else if (slot - 1) as usize >= self.faces.len() {
            SlotSurface::Own
        } else {
            SlotSurface::Face { index: (slot - 1) as usize }
        }
    }

    /// The material of a slot.
    pub fn material(&self, o: &Object, slot: u32) -> (r: Material)
        ensures
            r == self@.material(*o, slot),
    {
        match self.surface(o, slot) {
            SlotSurface::Own => self.own.material,
            SlotSurface::Water => match self.water(o) {
                Some(w) => water_material(&w.layer, &self.plain),
                None => self.plain,
            },
            SlotSurface::Face { index } => self.faces[index].material,
        }
    }

    /// The files of a slot's material; water has none.
    pub fn files(&self, o: &Object, slot: u32) -> (r: Option<&Textures>)
        ensures
            r is Some == self@.files(*o, slot) is Some,
            r matches Some(t) ==> self@.files(*o, slot) == Some(t@),
    {
        match self.surface(o, slot) {
            SlotSurface::Own => Some(&self.own.textures),
            SlotSurface::Water => None,
            SlotSurface::Face { index } => Some(&self.faces[index].textures),
        }
    }

    /// Where the textures of a slot come from.
    pub fn source(&self, o: &Object, slot: u32, mode: ShadeMode, xray: bool) -> (r: TextureSource)
        ensures
            r == self@.source(*o, slot, mode, xray),
    {
        if mode == ShadeMode::Solid || xray {
            return TextureSource::Plain;
        }
        if slot == 0 {
            if let (Some(t), Primitive::Terrain { .. }) = (&self.terrain, &o.primitive) {
                if let Some(stamp) = t.color {
                    return TextureSource::Color { stamp: bake_digest(o, stamp) };
                }
            }
        }
        if slot == 1 {
            if let Some(w) = self.water(o) {
                return TextureSource::Water { stamp: bake_digest(o, w.stamp) };
            }
        }
        match self.files(o, slot) {
            Some(t) => if TextureBridge::set_key(t).is_some() {
                TextureSource::Files
            } else {
                TextureSource::Plain
            },
            None => TextureSource::Plain,
        }
    }

    /// The key of a slot's material, where `found` says whether its files
    /// could be read.
    pub fn key(&self, o: &Object, slot: u32, mode: ShadeMode, xray: bool, found: bool) -> (r: u64)
        ensures
            r == self@.key(*o, slot, mode, xray, found),
    {
        let word: u64 = match self.source(o, slot, mode, xray) {
            TextureSource::Plain => 0,
            TextureSource::Color { stamp } => stamp,
            TextureSource::Water { stamp } => stamp,
            TextureSource::Files => match self.files(o, slot) {
                Some(t) => match TextureBridge::set_key(t) {
                    Some(key) => file_digest(key.as_str(), found),
                    None => 0,
                },
                None => 0,
            },
        };
        material_key(&self.material(o, slot), &o.primitive, mode, xray, word)
    }

    /// The engine material of a slot, where `textures` says which channels
    /// its textures cover.
    pub fn paint(
        &self,
        o: &Object,
        slot: u32,
        mode: ShadeMode,
        xray: bool,
        textures: Option<TextureCover>,
    ) -> (r: GpuMaterial)
        ensures
            r == gpu_material_of(self@.material(*o, slot), o.primitive, mode, xray, textures),
    {
        gpu_material(&self.material(o, slot), &o.primitive, mode, xray, textures)
    }
}

/// The keys of the slots drawn.
pub open spec fn slot_keys(
    look: LookView,
    o: Object,
    mode: ShadeMode,
    xray: bool,
    slots: Seq<(u32, bool)>,
) -> Seq<(u32, u64)> {
    Seq::new(
        slots.len(),
        |i: int| (slots[i].0, look.key(o, slots[i].0, mode, xray, slots[i].1)),
    )
}

/// An object as a frame draws it. `world` is where it is in the world,
/// `stamp` is that of its modifiers, `slots`
/// are the slots of its mesh, each with whether its files could be read, and
/// `upload` are the slot ranges of the mesh, were it uploaded now.
pub fn draw_object(
    o: &Object,
    world: Transform,
    look: &ObjectLook,
    stamp: u64,
    outline: OutlineTier,
    mode: ShadeMode,
    xray: bool,
    slots: &Vec<(u32, bool)>,
    upload: Option<Vec<SlotRange>>,
) -> (r: DrawObject)
    requires
        o.modifiers@.len() < u32::MAX,
    ensures
        r@ == (DrawView {
            id: o.id,
            visible: o.visible,
            place: world,
            mesh: digest_of(mesh_words(*o, stamp)),
            upload: match upload {
                Some(ranges) => Some(ranges@),
                None => None,
            },
            materials: slot_keys(look@, *o, mode, xray, slots@),
            gizmo: o.primitive.gizmo(),
            outlined: outline != OutlineTier::Unselected,
        }),
{
    let mut materials: Vec<(u32, u64)> = Vec::new();
    let mut i: usize = 0;
    while i < slots.len()
        invariant
            i <= slots@.len(),
            materials@ == slot_keys(look@, *o, mode, xray, slots@.take(i as int)),
        decreases slots@.len() - i,
    {
        let (slot, found) = slots[i];
        materials.push((slot, look.key(o, slot, mode, xray, found)));
        i += 1;
        assert(materials@ =~= slot_keys(look@, *o, mode, xray, slots@.take(i as int)));
    }
    assert(slots@.take(i as int) =~= slots@);
    DrawObject {
        id: o.id,
        visible: o.visible,
        place: world,
        mesh: mesh_key(o, stamp),
        upload,
        materials,
        gizmo: o.primitive.is_gizmo(),
        outlined: outline != OutlineTier::Unselected,
    }
}

/// Every slot that a mesh may have beside its first wears a material of its
/// own: the water or that of a painted face.
pub proof fn law_every_slot_has_a_surface(slot: u32, faces: nat, water: bool)
    requires
        1 <= slot <= slots_beside(faces, water),
        faces <= usize::MAX,
    ensures
        surface_at(slot, faces, water) != SlotSurface::Own,
{
}

/// In the gray looks, textures change nothing: the key of a slot is the same
/// whatever files its material has and whether they could be read.
pub proof fn law_gray_looks_ignore_textures(
    a: LookView,
    b: LookView,
    o: Object,
    slot: u32,
    mode: ShadeMode,
    xray: bool,
    found: bool,
    other: bool,
)
    requires
        without_textures(mode, xray),
        a.material(o, slot) == b.material(o, slot),
    ensures
        a.key(o, slot, mode, xray, found) == b.key(o, slot, mode, xray, other),
{
}

/// Slot zero is the object's own surface. Slot one is the water of a terrain
/// that shows any; every other slot is the face material before its number.
pub proof fn law_slots_name_surfaces(slot: u32, faces: nat, water: bool)
    requires
        faces < u32::MAX,
    ensures
        surface_at(0, faces, water) is Own,
        water ==> surface_at(1, faces, water) is Water,
        !water ==> !(surface_at(slot, faces, water) is Water),
        1 <= slot <= faces && !(slot == 1 && water) ==> surface_at(slot, faces, water) == (
        SlotSurface::Face { index: (slot - 1) as usize }),
        slot > faces && !(slot == 1 && water) ==> surface_at(slot, faces, water) is Own,
{
}

/// Water and rule colors show on a terrain alone, and water only while it is
/// switched on.
pub proof fn law_terrain_looks_are_for_terrains(p: Primitive, terrain: Option<TerrainLook>)
    ensures
        shown_water(p, terrain) is Some <==> p is Terrain && terrain is Some && terrain->0.water
            is Some && terrain->0.water->0.layer.enabled,
        shown_water(p, terrain) is Some ==> shown_water(p, terrain) == terrain->0.water,
        shown_color(p, terrain) is Some <==> p is Terrain && terrain is Some && terrain->0.color
            is Some,
        shown_color(p, terrain) is Some ==> shown_color(p, terrain) == terrain->0.color,
{
}

/// A slot has the pictures of its own surface: what is baked goes before
/// files, the color to the own surface and the water to the water, and gray
/// looks show none.
pub proof fn law_slots_show_their_own_pictures(
    look: LookView,
    o: Object,
    slot: u32,
    mode: ShadeMode,
    xray: bool,
)
    ensures
        ({
            let source = look.source(o, slot, mode, xray);
            &&& mode == ShadeMode::Solid || xray ==> source is Plain
            &&& source is Color ==> slot == 0 && shown_color(o.primitive, look.terrain) is Some
            &&& source is Water ==> slot == 1 && shown_water(o.primitive, look.terrain) is Some
            &&& mode != ShadeMode::Solid && !xray && slot == 0 && shown_color(
                o.primitive,
                look.terrain,
            ) is Some ==> source is Color
            &&& mode != ShadeMode::Solid && !xray && slot == 1 && shown_water(
                o.primitive,
                look.terrain,
            ) is Some ==> source is Water
            &&& source is Files ==> look.files(o, slot) is Some && !without_maps(
                look.files(o, slot)->0,
            )
        }),
        look.surface(o, slot) is Own ==> look.material(o, slot) == look.own.material && look.files(
            o,
            slot,
        ) == Some(look.own.textures),
        look.surface(o, slot) is Face ==> ({
            let i = look.surface(o, slot)->index as int;
            look.material(o, slot) == look.faces[i].material && look.files(o, slot) == Some(
                look.faces[i].textures,
            )
        }),
        look.surface(o, slot) is Water ==> look.files(o, slot) is None && look.material(
            o,
            slot,
        ).base_color == look.water(o)->0.layer.deep,
{
}

/// Pictures that were found look other than those that were not.
pub proof fn law_missing_files_look_different(key: Seq<char>)
    ensures
        file_words(key, true) != file_words(key, false),
        file_words(key, true).len() == key.len() + 1,
{
    let a = file_words(key, true);
    let b = file_words(key, false);
    assert(a[key.len() as int] != b[key.len() as int]);
}

} // verus!
