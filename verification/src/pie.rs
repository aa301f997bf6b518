//! Pie menus: the slots around a hub and their icons.

use vstd::prelude::*;
use crate::scene::{LightKind, Primitive};

verus! {

/// What is drawn on a slot.
#[derive(Clone, Copy, PartialEq, Eq, Debug)]
pub enum PieIcon {
    /// A font glyph.
    Glyph(&'static str),
    Cube,
    UvSphere,
    IcoSphere,
    Cone,
    Cylinder,
    Torus,
    Plane,
    Wall,
    Floor,
    Roof,
    Empty,
    LightPoint,
    LightSun,
    LightSpot,
    Duplicate,
    Anchor,
    Ungroup,
    Attach,
    Door,
    Window,
    Bricks,
}

/// The icon of a primitive. Cameras, ropes, cloths, terrains and props have
/// none of their own.
pub fn primitive_icon(primitive: &Primitive) -> (r: Option<PieIcon>)
    ensures
        r == (match *primitive {
            Primitive::Plane { .. } => Some(PieIcon::Plane),
            Primitive::Cube { .. } => Some(PieIcon::Cube),
            Primitive::UvSphere { .. } => Some(PieIcon::UvSphere),
            Primitive::IcoSphere { .. } => Some(PieIcon::IcoSphere),
            Primitive::Cylinder { .. } => Some(PieIcon::Cylinder),
            Primitive::Cone { .. } => Some(PieIcon::Cone),
            Primitive::Torus { .. } => Some(PieIcon::Torus),
            Primitive::Wall { .. } => Some(PieIcon::Wall),
            Primitive::Floor { .. } => Some(PieIcon::Floor),
            Primitive::Roof { .. } => Some(PieIcon::Roof),
            Primitive::Empty { .. } => Some(PieIcon::Empty),
            Primitive::Light { kind, .. } => Some(
                match kind {
                    LightKind::Point => PieIcon::LightPoint,
                    LightKind::Sun => PieIcon::LightSun,
                    LightKind::Spot => PieIcon::LightSpot,
                },
            ),
            _ => None,
        }),
{
    match *primitive {
        Primitive::Plane { .. } => Some(PieIcon::Plane),
        Primitive::Cube { .. } => Some(PieIcon::Cube),
        Primitive::UvSphere { .. } => Some(PieIcon::UvSphere),
        Primitive::IcoSphere { .. } => Some(PieIcon::IcoSphere),
        Primitive::Cylinder { .. } => Some(PieIcon::Cylinder),
        Primitive::Cone { .. } => Some(PieIcon::Cone),
        Primitive::Torus { .. } => Some(PieIcon::Torus),
        Primitive::Wall { .. } => Some(PieIcon::Wall),
        Primitive::Floor { .. } => Some(PieIcon::Floor),
        Primitive::Roof { .. } => Some(PieIcon::Roof),
        Primitive::Empty { .. } => Some(PieIcon::Empty),
        Primitive::Light { kind, .. } => match kind {
            LightKind::Point => Some(PieIcon::LightPoint),
            LightKind::Sun => Some(PieIcon::LightSun),
            LightKind::Spot => Some(PieIcon::LightSpot),
        },
        _ => None,
    }
}

/// One slot of the wheel.
#[derive(Debug)]
pub struct PieSlot {
    pub label: String,
    pub icon: PieIcon,
    pub enabled: bool,
}

impl PieSlot {
    /// A slot that can be chosen.
    pub fn new(label: String, icon: PieIcon) -> (r: PieSlot)
        ensures
            r == (PieSlot { label, icon, enabled: true }),
    {
        PieSlot { label, icon, enabled: true }
    }

    /// The slot, enabled or not.
    pub fn enabled(self, on: bool) -> (r: PieSlot)
        ensures
            r == (PieSlot { enabled: on, ..self }),
    {
        PieSlot { label: self.label, icon: self.icon, enabled: on }
    }
}

/// The slot that the pointer chooses, given the sector it points into: only
/// an enabled slot can be chosen.
pub fn hovered_slot(slots: &Vec<PieSlot>, sector: Option<usize>) -> (r: Option<usize>)
    ensures
        r == (if sector is Some && sector->0 < slots@.len() && slots@[sector->0 as int].enabled {
            sector
        } else {
            None
        }),
{
    match sector {
        Some(i) => if i < slots.len() && slots[i].enabled {
            Some(i)
        } else {
            None
        },
        None => None,
    }
}

} // verus!
