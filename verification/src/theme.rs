//! Color themes for the editor: labels, palettes and the colors that the
//! application draws itself.

use vstd::prelude::*;

verus! {

#[derive(Clone, Copy, PartialEq, Eq, Structural, Debug)]
pub enum Theme {
    /// Graphite panels with a warm amber accent (default).
    Dark,
    /// Bright panels with a blue accent.
    Light,
    /// Deep blue panels with a cyan accent.
    Ocean,
}

/// An 8-bit color.
#[derive(Clone, Copy, PartialEq, Eq, Structural, Debug)]
pub struct Rgb {
    pub r: u8,
    pub g: u8,
    pub b: u8,
}

/// Everything that a theme defines beyond the stock style.
#[derive(Clone, Copy, PartialEq, Eq, Structural, Debug)]
pub struct Palette {
    pub dark: bool,
    pub accent: Rgb,
    pub selection_bg: Rgb,
    pub selection_fg: Rgb,
    pub panel: Rgb,
    pub window: Rgb,
    pub extreme: Rgb,
    pub faint: Rgb,
    pub ok: Rgb,
    pub warn: Rgb,
    pub err: Rgb,
    /// Viewport clear color in thousandths.
    pub viewport_r: u16,
    pub viewport_g: u16,
    pub viewport_b: u16,
}

/// A share in thousandths as an 8-bit channel, rounded down.
pub open spec fn channel(thousandths: u16) -> u8 {
    (thousandths as int * 255 / 1000) as u8
}

fn channel_of(thousandths: u16) -> (r: u8)
    requires
        thousandths <= 1000,
    ensures
        r == channel(thousandths),
{
    (thousandths as u32 * 255 / 1000) as u8
}

impl Palette {
    /// Shares are at most one.
    pub open spec fn wf(&self) -> bool {
        self.viewport_r <= 1000 && self.viewport_g <= 1000 && self.viewport_b <= 1000
    }

    /// The viewport clear color in 8-bit channels.
    pub fn viewport_color32(&self) -> (r: Rgb)
        requires
            self.wf(),
        ensures
            r == (Rgb {
                r: channel(self.viewport_r),
                g: channel(self.viewport_g),
                b: channel(self.viewport_b),
            }),
    {
        Rgb {
            r: channel_of(self.viewport_r),
            g: channel_of(self.viewport_g),
            b: channel_of(self.viewport_b),
        }
    }
}

pub open spec fn rgb(r: u8, g: u8, b: u8) -> Rgb {
    Rgb { r, g, b }
}

fn make_rgb(r: u8, g: u8, b: u8) -> (c: Rgb)
    ensures
        c == rgb(r, g, b),
{
    Rgb { r, g, b }
}

impl Default for Theme {
    fn default() -> (r: Theme)
        ensures
            r == Theme::Dark,
    {
        Theme::Dark
    }
}

/// The themes in the order of the picker.
pub open spec fn all_themes() -> Seq<Theme> {
    seq![Theme::Dark, Theme::Light, Theme::Ocean]
}

/// The colors of a theme.
pub open spec fn palette_of(theme: Theme) -> Palette {
    match theme {
        Theme::Dark => Palette {
            dark: true,
            accent: rgb(255, 160, 60),
            selection_bg: rgb(140, 80, 24),
            selection_fg: rgb(255, 238, 216),
            panel: rgb(30, 32, 36),
            window: rgb(36, 38, 43),
            extreme: rgb(16, 17, 20),
            faint: rgb(39, 42, 47),
            ok: rgb(90, 220, 110),
            warn: rgb(255, 200, 120),
            err: rgb(235, 100, 90),
            viewport_r: 120,
            viewport_g: 130,
            viewport_b: 160,
        },
        Theme::Light => Palette {
            dark: false,
            accent: rgb(35, 100, 210),
            selection_bg: rgb(198, 218, 250),
            selection_fg: rgb(18, 48, 110),
            panel: rgb(237, 239, 242),
            window: rgb(246, 247, 249),
            extreme: rgb(253, 253, 255),
            faint: rgb(226, 229, 235),
            ok: rgb(25, 140, 60),
            warn: rgb(180, 110, 15),
            err: rgb(200, 45, 40),
            viewport_r: 840,
            viewport_g: 855,
            viewport_b: 880,
        },
        Theme::Ocean => Palette {
            dark: true,
            accent: rgb(86, 196, 224),
            selection_bg: rgb(24, 90, 110),
            selection_fg: rgb(216, 244, 252),
            panel: rgb(26, 32, 42),
            window: rgb(31, 38, 50),
            extreme: rgb(13, 17, 24),
            faint: rgb(34, 42, 54),
            ok: rgb(95, 220, 140),
            warn: rgb(255, 205, 130),
            err: rgb(240, 110, 100),
            viewport_r: 70,
            viewport_g: 95,
            viewport_b: 140,
        },
    }
}

impl Theme {
    /// The themes in the order of the picker.
    pub fn all() -> (r: Vec<Theme>)
        ensures
            r@ == all_themes(),
    {
        let r = vec![Theme::Dark, Theme::Light, Theme::Ocean];
        assert(r@ =~= all_themes());
        r
    }

    pub fn label(self) -> (r: &'static str)
        ensures
            r@ == match self {
                Theme::Dark => "Dark"@,
                Theme::Light => "Light"@,
                Theme::Ocean => "Ocean"@,
            },
    {
        match self {
            Theme::Dark => "Dark",
            Theme::Light => "Light",
            Theme::Ocean => "Ocean",
        }
    }

    pub fn description(self) -> (r: &'static str)
        ensures
            r@ == match self {
                Theme::Dark => "Graphite panels, amber accent"@,
                Theme::Light => "Bright panels, blue accent"@,
                Theme::Ocean => "Deep blue panels, cyan accent"@,
            },
    {
        match self {
            Theme::Dark => "Graphite panels, amber accent",
            Theme::Light => "Bright panels, blue accent",
            Theme::Ocean => "Deep blue panels, cyan accent",
        }
    }

    pub fn palette(self) -> (r: Palette)
        ensures
            r == palette_of(self),
            r.wf(),
    {
        match self {
            Theme::Dark => Palette {
                dark: true,
                accent: make_rgb(255, 160, 60),
                selection_bg: make_rgb(140, 80, 24),
                selection_fg: make_rgb(255, 238, 216),
                panel: make_rgb(30, 32, 36),
                window: make_rgb(36, 38, 43),
                extreme: make_rgb(16, 17, 20),
                faint: make_rgb(39, 42, 47),
                ok: make_rgb(90, 220, 110),
                warn: make_rgb(255, 200, 120),
                err: make_rgb(235, 100, 90),
                viewport_r: 120,
                viewport_g: 130,
                viewport_b: 160,
            },
            Theme::Light => Palette {
                dark: false,
                accent: make_rgb(35, 100, 210),
                selection_bg: make_rgb(198, 218, 250),
                selection_fg: make_rgb(18, 48, 110),
                panel: make_rgb(237, 239, 242),
                window: make_rgb(246, 247, 249),
                extreme: make_rgb(253, 253, 255),
                faint: make_rgb(226, 229, 235),
                ok: make_rgb(25, 140, 60),
                warn: make_rgb(180, 110, 15),
                err: make_rgb(200, 45, 40),
                viewport_r: 840,
                viewport_g: 855,
                viewport_b: 880,
            },
            Theme::Ocean => Palette {
                dark: true,
                accent: make_rgb(86, 196, 224),
                selection_bg: make_rgb(24, 90, 110),
                selection_fg: make_rgb(216, 244, 252),
                panel: make_rgb(26, 32, 42),
                window: make_rgb(31, 38, 50),
                extreme: make_rgb(13, 17, 24),
                faint: make_rgb(34, 42, 54),
                ok: make_rgb(95, 220, 140),
                warn: make_rgb(255, 205, 130),
                err: make_rgb(240, 110, 100),
                viewport_r: 70,
                viewport_g: 95,
                viewport_b: 140,
            },
        }
    }

    /// Viewport clear color in thousandths.
    pub fn viewport_clear(self) -> (r: (u16, u16, u16))
        ensures
            r.0 == palette_of(self).viewport_r,
            r.1 == palette_of(self).viewport_g,
            r.2 == palette_of(self).viewport_b,
    {
        let p = self.palette();
        (p.viewport_r, p.viewport_g, p.viewport_b)
    }
}

/// A stronger share of a color is never darker, none is black and all of it
/// is full.
pub proof fn law_shares_of_color_grow(a: u16, b: u16)
    requires
        a <= b <= 1000,
    ensures
        channel(a) <= channel(b),
        channel(0) == 0,
        channel(1000) == 255,
{
}

/// Every theme can be chosen, once, and only the bright one is not dark.
pub proof fn law_every_theme_is_offered(theme: Theme)
    ensures
        all_themes().contains(theme),
        all_themes().len() == 3,
        palette_of(theme).wf(),
        palette_of(theme).dark <==> !(theme is Light),
{
    let all = all_themes();
    assert(all[0] is Dark && all[1] is Light && all[2] is Ocean);
}

} // verus!
