//! Application settings and the state of the Preferences window.

use vstd::prelude::*;
use crate::scalar::{Scalar, ONE_BITS};
#[allow(unused_imports)]
use crate::text::{law_trimming_leaves_what_is_inside, trimmed};
use crate::text::{join, trim};

verus! {

/// Display unit for lengths. The world unit is always one meter; the unit
/// only changes how values are shown and typed.
#[derive(Clone, Copy, PartialEq, Eq, Structural, Debug)]
pub enum Unit {
    Meters,
    Centimeters,
    Millimeters,
}

impl Unit {
    /// The units in the order of the picker.
    pub fn all() -> (r: Vec<Unit>)
        ensures
            r@ == seq![Unit::Meters, Unit::Centimeters, Unit::Millimeters],
    {
        let r = vec![Unit::Meters, Unit::Centimeters, Unit::Millimeters];
        assert(r@ =~= seq![Unit::Meters, Unit::Centimeters, Unit::Millimeters]);
        r
    }

    pub fn label(self) -> (r: &'static str)
        ensures
            r@ == match self {
                Unit::Meters => "Meter"@,
                Unit::Centimeters => "Centimeter"@,
                Unit::Millimeters => "Millimeter"@,
            },
    {
        match self {
            Unit::Meters => "Meter",
            Unit::Centimeters => "Centimeter",
            Unit::Millimeters => "Millimeter",
        }
    }

    /// The unit sign that follows a number.
    pub open spec fn sign(self) -> Seq<char> {
        match self {
            Unit::Meters => "m"@,
            Unit::Centimeters => "cm"@,
            Unit::Millimeters => "mm"@,
        }
    }

    pub fn suffix(self) -> (r: &'static str)
        ensures
            r@ == self.sign(),
    {
        match self {
            Unit::Meters => "m",
            Unit::Centimeters => "cm",
            Unit::Millimeters => "mm",
        }
    }

    /// How many of this unit make a meter.
    pub open spec fn in_a_meter(self) -> u32 {
        match self {
            Unit::Meters => 1,
            Unit::Centimeters => 100,
            Unit::Millimeters => 1000,
        }
    }

    pub fn per_meter(self) -> (r: u32)
        ensures
            r == self.in_a_meter(),
    {
        match self {
            Unit::Meters => 1,
            Unit::Centimeters => 100,
            Unit::Millimeters => 1000,
        }
    }

    /// Digits shown after the decimal point.
    pub open spec fn shown_digits(self) -> usize {
        match self {
            Unit::Meters => 3,
            Unit::Centimeters => 1,
            Unit::Millimeters => 0,
        }
    }

    /// Digits shown after the decimal point: constant physical precision.
    pub fn decimals(self) -> (r: usize)
        ensures
            r == self.shown_digits(),
    {
        match self {
            Unit::Meters => 3,
            Unit::Centimeters => 1,
            Unit::Millimeters => 0,
        }
    }

    /// What the unit picker shows: the label, and the sign in brackets.
    pub fn caption(self) -> (r: String)
        ensures
            r@ == (match self {
                Unit::Meters => "Meter"@,
                Unit::Centimeters => "Centimeter"@,
                Unit::Millimeters => "Millimeter"@,
            }) + " ("@ + self.sign() + ")"@,
    {
        let mut s = join(self.label(), " (");
        s.append(self.suffix());
        s.append(")");
        s
    }
}

/// Ten to the power of `digits`.
pub open spec fn ten_to(digits: usize) -> int {
    if digits == 0 {
        1
    } else if digits == 1 {
        10
    } else if digits == 2 {
        100
    } else {
        1000
    }
}

/// Whatever the unit, the last digit shown stands for one millimeter.
pub proof fn law_precision_is_one_millimeter(unit: Unit)
    ensures
        unit.in_a_meter() * ten_to(unit.shown_digits()) == 1000,
{
}

/// An 8-bit color.
#[derive(Clone, Copy, PartialEq, Eq, Structural, Debug)]
pub struct GridColor {
    pub r: u8,
    pub g: u8,
    pub b: u8,
}

/// Persisted settings.
#[derive(Debug)]
pub struct Settings {
    /// Grid line spacing in meters.
    pub grid_spacing: Scalar,
    pub grid_minor_color: GridColor,
    pub grid_major_color: GridColor,
    pub unit: Unit,
    /// Starting directory for Save and Open dialogs.
    pub default_save_dir: Option<String>,
}

/// The grid as it comes: one meter, two grays.
pub open spec fn has_default_grid(s: Settings) -> bool {
    &&& s.grid_spacing.bits == ONE_BITS
    &&& s.grid_minor_color == (GridColor { r: 58, g: 61, b: 66 })
    &&& s.grid_major_color == (GridColor { r: 76, g: 80, b: 87 })
}

impl Default for Settings {
    fn default() -> (r: Settings)
        ensures
            has_default_grid(r),
            r.unit == Unit::Meters,
            r.default_save_dir is None,
    {
        Settings {
            grid_spacing: Scalar { bits: ONE_BITS },
            grid_minor_color: GridColor { r: 58, g: 61, b: 66 },
            grid_major_color: GridColor { r: 76, g: 80, b: 87 },
            unit: Unit::Meters,
            default_save_dir: None,
        }
    }
}

/// Bits of the smallest grid spacing, 0.05.
pub const MIN_SPACING_BITS: u32 = 0x3d4c_cccd;

/// Bits of the largest grid spacing, 10.
pub const MAX_SPACING_BITS: u32 = 0x4120_0000;

/// `meters` held between the smallest and the largest grid spacing.
pub open spec fn clamped_spacing(meters: Scalar) -> Scalar {
    let low = Scalar { bits: MIN_SPACING_BITS };
    let high = Scalar { bits: MAX_SPACING_BITS };
    if meters.less(low) {
        low
    } else if high.less(meters) {
        high
    } else {
        meters
    }
}

impl Settings {
    /// The directory that dialogs start in: the stored one, unless it is
    /// blank.
    pub fn save_dir(&self) -> (r: Option<&String>)
        ensures
            r is Some <==> self.default_save_dir is Some && trimmed(
                self.default_save_dir->0@,
            ).len() > 0,
            r matches Some(d) ==> d@ == self.default_save_dir->0@,
    {
        match &self.default_save_dir {
            None => None,
            Some(dir) => {
                if trim(dir.as_str()).as_str().unicode_len() == 0 {
                    None
                } else {
                    Some(dir)
                }
            },
        }
    }

    /// Takes what was typed as the save directory: trimmed, none if blank.
    pub fn type_save_dir(&mut self, typed: &str)
        ensures
            final(self).default_save_dir is Some <==> trimmed(typed@).len() > 0,
            final(self).default_save_dir matches Some(d) ==> d@ == trimmed(typed@) && trimmed(d@)
                == d@,
            final(self).unit == old(self).unit,
            final(self).grid_spacing == old(self).grid_spacing,
            final(self).grid_minor_color == old(self).grid_minor_color,
            final(self).grid_major_color == old(self).grid_major_color,
    {
        let dir = trim(typed);
        proof {
            let from = law_trimming_leaves_what_is_inside(typed@);
        }
        self.default_save_dir = if dir.as_str().unicode_len() == 0 {
            None
        } else {
            Some(dir)
        };
    }

    /// Sets the grid spacing, held to its range.
    pub fn set_grid_spacing(&mut self, meters: Scalar)
        ensures
            *final(self) == (Settings { grid_spacing: clamped_spacing(meters), ..*old(self) }),
    {
        let low = Scalar { bits: MIN_SPACING_BITS };
        let high = Scalar { bits: MAX_SPACING_BITS };
        self.grid_spacing = if meters.is_less(low) {
            low
        } else if high.is_less(meters) {
            high
        } else {
            meters
        };
    }

    /// Puts the grid back to its defaults; the rest stays.
    pub fn reset_grid(&mut self)
        ensures
            has_default_grid(*final(self)),
            final(self).unit == old(self).unit,
            final(self).default_save_dir == old(self).default_save_dir,
    {
        let defaults = Settings::default();
        self.grid_spacing = defaults.grid_spacing;
        self.grid_minor_color = defaults.grid_minor_color;
        self.grid_major_color = defaults.grid_major_color;
    }
}

/// A page of the Preferences window.
#[derive(Clone, Copy, PartialEq, Eq, Structural, Debug)]
pub enum Tab {
    Viewport,
    Units,
    Files,
}

impl Tab {
    /// The pages in rail order.
    pub fn all() -> (r: Vec<Tab>)
        ensures
            r@ == seq![Tab::Viewport, Tab::Units, Tab::Files],
    {
        let r = vec![Tab::Viewport, Tab::Units, Tab::Files];
        assert(r@ =~= seq![Tab::Viewport, Tab::Units, Tab::Files]);
        r
    }

    pub fn label(self) -> (r: &'static str)
        ensures
            r@ == match self {
                Tab::Viewport => "Viewport"@,
                Tab::Units => "Units"@,
                Tab::Files => "Files"@,
            },
    {
        match self {
            Tab::Viewport => "Viewport",
            Tab::Units => "Units",
            Tab::Files => "Files",
        }
    }
}

/// State of the Preferences window.
#[derive(Clone, Copy, PartialEq, Eq, Structural, Debug)]
pub struct SettingsWindow {
    pub open: bool,
    pub tab: Tab,
}

impl SettingsWindow {
    /// Closed, on the first page.
    pub fn new() -> (r: SettingsWindow)
        ensures
            r == (SettingsWindow { open: false, tab: Tab::Viewport }),
    {
        SettingsWindow { open: false, tab: Tab::Viewport }
    }

    /// One frame of the window: a folder that was picked meanwhile is taken
    /// while the window is open, a click on the rail changes the page, and
    /// the close button closes it.
    pub fn frame(
        &mut self,
        settings: &mut Settings,
        picked: Option<String>,
        clicked: Option<Tab>,
        close: bool,
    )
        ensures
            !old(self).open ==> *final(self) == *old(self) && *final(settings) == *old(settings),
            old(self).open ==> {
                &&& final(self).open == !close
                &&& final(self).tab == if clicked is Some { clicked->0 } else { old(self).tab }
                &&& *final(settings) == if picked is Some {
                    (Settings { default_save_dir: picked, ..*old(settings) })
                } else {
                    *old(settings)
                }
            },
    {
        if !self.open {
            return;
        }
        if picked.is_some() {
            settings.default_save_dir = picked;
        }
        if let Some(tab) = clicked {
            self.tab = tab;
        }
        self.open = !close;
    }
}

/// The grid is never finer than five centimeters nor coarser than ten
/// meters, and as it is set in between.
pub proof fn law_grid_spacing_is_in_bounds(meters: Scalar)
    ensures
        ({
            let low = Scalar { bits: MIN_SPACING_BITS };
            let high = Scalar { bits: MAX_SPACING_BITS };
            let s = clamped_spacing(meters);
            &&& !s.less(low) && !high.less(s)
            &&& !meters.less(low) && !high.less(meters) ==> s == meters
            &&& clamped_spacing(s) == s
        }),
{
}

/// A smaller unit has more of itself in a meter, and shows fewer digits.
pub proof fn law_smaller_units_are_more(unit: Unit)
    ensures
        Unit::Meters.in_a_meter() == 1,
        Unit::Centimeters.in_a_meter() * 10 == Unit::Millimeters.in_a_meter(),
        Unit::Millimeters.in_a_meter() == 1000,
        unit.in_a_meter() > 1 ==> unit.shown_digits() < Unit::Meters.shown_digits(),
{
}

} // verus!
