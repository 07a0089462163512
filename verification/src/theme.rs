//! Color schemes. A color is a number: red in its lowest byte, then green, then
//! blue.

use std::collections::HashMap;

use vstd::prelude::*;

use crate::text::eq_str;

verus! {

/// The color with the given parts.
pub open spec fn color(r: u8, g: u8, b: u8) -> int {
    r + g * 0x100 + b * 0x1_0000
}

/// The color with the given parts.
pub fn rgb(r: u8, g: u8, b: u8) -> (c: u32)
    ensures
        c == color(r, g, b),
{
    r as u32 + g as u32 * 0x100 + b as u32 * 0x1_0000
}

/// A color scheme.
#[derive(Debug, Clone, Copy, PartialEq, Eq, Structural)]
pub struct Theme {
    pub is_dark: bool,
    pub acrylic: bool,
    pub bg: u32,
    pub fg: u32,
    pub path_fg: u32,
    pub accent: u32,
    pub sel_bg: u32,
    pub sel_fg: u32,
    pub border: u32,
    pub alt_bg: u32,
}

/// Light, for the office.
pub open spec fn business_light_spec() -> Theme {
    Theme {
        is_dark: false,
        acrylic: false,
        bg: color(0xF7, 0xF8, 0xFA) as u32,
        fg: color(0x1E, 0x20, 0x24) as u32,
        path_fg: color(0x86, 0x8C, 0x96) as u32,
        accent: color(0x2D, 0x6C, 0xDF) as u32,
        sel_bg: color(0xD8, 0xE6, 0xFF) as u32,
        sel_fg: color(0x10, 0x12, 0x16) as u32,
        border: color(0xDD, 0xDF, 0xE3) as u32,
        alt_bg: color(0xFF, 0xFF, 0xFF) as u32,
    }
}

/// Light, for the office.
pub fn business_light() -> (t: Theme)
    ensures
        t == business_light_spec(),
{
    Theme {
        is_dark: false,
        acrylic: false,
        bg: rgb(0xF7, 0xF8, 0xFA),
        fg: rgb(0x1E, 0x20, 0x24),
        path_fg: rgb(0x86, 0x8C, 0x96),
        accent: rgb(0x2D, 0x6C, 0xDF),
        sel_bg: rgb(0xD8, 0xE6, 0xFF),
        sel_fg: rgb(0x10, 0x12, 0x16),
        border: rgb(0xDD, 0xDF, 0xE3),
        alt_bg: rgb(0xFF, 0xFF, 0xFF),
    }
}

/// Dark, for the office.
pub open spec fn business_dark_spec() -> Theme {
    Theme {
        is_dark: true,
        acrylic: false,
        bg: color(0x20, 0x22, 0x26) as u32,
        fg: color(0xEC, 0xEC, 0xEC) as u32,
        path_fg: color(0x9A, 0x9F, 0xA8) as u32,
        accent: color(0x4C, 0x9A, 0xFF) as u32,
        sel_bg: color(0x2F, 0x4B, 0x76) as u32,
        sel_fg: color(0xFF, 0xFF, 0xFF) as u32,
        border: color(0x3A, 0x3D, 0x43) as u32,
        alt_bg: color(0x26, 0x29, 0x2E) as u32,
    }
}

/// Dark, for the office.
pub fn business_dark() -> (t: Theme)
    ensures
        t == business_dark_spec(),
{
    Theme {
        is_dark: true,
        acrylic: false,
        bg: rgb(0x20, 0x22, 0x26),
        fg: rgb(0xEC, 0xEC, 0xEC),
        path_fg: rgb(0x9A, 0x9F, 0xA8),
        accent: rgb(0x4C, 0x9A, 0xFF),
        sel_bg: rgb(0x2F, 0x4B, 0x76),
        sel_fg: rgb(0xFF, 0xFF, 0xFF),
        border: rgb(0x3A, 0x3D, 0x43),
        alt_bg: rgb(0x26, 0x29, 0x2E),
    }
}

/// Light and warm.
pub open spec fn solarized_light_spec() -> Theme {
    Theme {
        is_dark: false,
        acrylic: false,
        bg: color(0xFD, 0xF6, 0xE3) as u32,
        fg: color(0x58, 0x6E, 0x75) as u32,
        path_fg: color(0x93, 0xA1, 0xA1) as u32,
        accent: color(0x26, 0x8B, 0xD2) as u32,
        sel_bg: color(0xE6, 0xDF, 0xC8) as u32,
        sel_fg: color(0x07, 0x36, 0x42) as u32,
        border: color(0xEE, 0xE8, 0xD5) as u32,
        alt_bg: color(0xEE, 0xE8, 0xD5) as u32,
    }
}

/// Light and warm.
pub fn solarized_light() -> (t: Theme)
    ensures
        t == solarized_light_spec(),
{
    Theme {
        is_dark: false,
        acrylic: false,
        bg: rgb(0xFD, 0xF6, 0xE3),
        fg: rgb(0x58, 0x6E, 0x75),
        path_fg: rgb(0x93, 0xA1, 0xA1),
        accent: rgb(0x26, 0x8B, 0xD2),
        sel_bg: rgb(0xE6, 0xDF, 0xC8),
        sel_fg: rgb(0x07, 0x36, 0x42),
        border: rgb(0xEE, 0xE8, 0xD5),
        alt_bg: rgb(0xEE, 0xE8, 0xD5),
    }
}

/// The scheme with the given name, and the light one for any other name.
pub open spec fn theme_named(name: Seq<char>) -> Theme {
    if name == "business_dark"@ {
        business_dark_spec()
    } else if name == "solarized"@ {
        solarized_light_spec()
    } else {
        business_light_spec()
    }
}

/// The scheme with the given name, and the light one for any other name.
pub fn theme_by_name(name: &str) -> (t: Theme)
    ensures
        t == theme_named(name@),
{
    if eq_str(name, "business_dark") {
        business_dark()
    } else if eq_str(name, "solarized") {
        solarized_light()
    } else {
        business_light()
    }
}

/// The scheme in use, and the brushes that were made for its colors.
pub struct ThemeState {
    current: Theme,
    brushes: HashMap<u32, isize>,
}

/// What a [`ThemeState`] holds.
#[verifier::ext_equal]
pub struct ThemeStateView {
    pub current: Theme,
    pub brushes: Map<u32, isize>,
}

impl View for ThemeState {
    type V = ThemeStateView;

    closed spec fn view(&self) -> ThemeStateView {
        ThemeStateView { current: self.current, brushes: self.brushes@ }
    }
}

impl ThemeState {
    /// The light scheme, and no brush.
    pub fn new() -> (s: ThemeState)
        ensures
            s@ == (ThemeStateView { current: business_light_spec(), brushes: Map::empty() }),
    {
        ThemeState { current: business_light(), brushes: HashMap::new() }
    }
}

/// The scheme in use.
pub fn current(s: &ThemeState) -> (t: Theme)
    ensures
        t == s@.current,
{
    s.current
}

/// Changes the scheme in use.
pub fn set_current(s: &mut ThemeState, t: Theme)
    ensures
        final(s)@ == (ThemeStateView { current: t, ..old(s)@ }),
{
    s.current = t;
}

/// The brush that was made for a color, if any.
pub fn known_brush(s: &ThemeState, color: u32) -> (r: Option<isize>)
    ensures
        r == (if s@.brushes.contains_key(color) {
            Some(s@.brushes[color])
        } else {
            None
        }),
{
    match s.brushes.get(&color) {
        Some(h) => Some(*h),
        None => None,
    }
}

/// Keeps a brush for its color, to be found by [`known_brush`] from now on.
pub fn keep_brush(s: &mut ThemeState, color: u32, brush: isize)
    ensures
        final(s)@ == (ThemeStateView { brushes: old(s)@.brushes.insert(color, brush), ..old(s)@ }),
{
    s.brushes.insert(color, brush);
}

/// How a window looks: whether its caption is dark, what is behind it, and the
/// colors of its caption.
#[derive(Debug, Clone, Copy, PartialEq, Eq, Structural)]
pub struct WindowLook {
    pub dark: i32,
    pub backdrop: i32,
    pub caption: u32,
    pub text: u32,
}

/// How a window looks in a scheme.
pub fn window_look(t: &Theme) -> (r: WindowLook)
    ensures
        r.dark == (if t.is_dark {
            1int
        } else {
            0
        }),
        r.backdrop == (if t.acrylic {
            3int
        } else {
            0
        }),
        r.caption == t.bg,
        r.text == t.fg,
{
    WindowLook {
        dark: if t.is_dark {
            1
        } else {
            0
        },
        backdrop: if t.acrylic {
            3
        } else {
            0
        },
        caption: t.bg,
        text: t.fg,
    }
}

/// The three schemes are told apart by their names, and every other name stands
/// for the light one.
pub proof fn law_themes_by_name(name: Seq<char>)
    ensures
        theme_named("business_light"@) == business_light_spec(),
        theme_named("business_dark"@) == business_dark_spec(),
        theme_named("solarized"@) == solarized_light_spec(),
        name != "business_dark"@ && name != "solarized"@ ==> theme_named(name) == business_light_spec(),
{
    reveal_strlit("business_light");
    reveal_strlit("business_dark");
    reveal_strlit("solarized");
    assert("business_light"@.len() != "business_dark"@.len());
    assert("business_light"@.len() != "solarized"@.len());
    assert("business_dark"@.len() != "solarized"@.len());
}

/// The message that asks for the colors of a field to type in.
pub const WM_CTLCOLOREDIT: u32 = 0x0133;

/// The message that asks for the colors of a list.
pub const WM_CTLCOLORLISTBOX: u32 = 0x0134;

/// The ground of a control, by the message that asks for its colors: fields and
/// lists stand out from the window.
pub fn control_bg(t: &Theme, message: u32) -> (r: u32)
    ensures
        r == (if message == WM_CTLCOLOREDIT || message == WM_CTLCOLORLISTBOX {
            t.alt_bg
        } else {
            t.bg
        }),
{
    if message == WM_CTLCOLOREDIT || message == WM_CTLCOLORLISTBOX {
        t.alt_bg
    } else {
        t.bg
    }
}

/// A color has its red part in the lowest byte, then green, then blue.
pub proof fn law_parts_of_a_color(r: u8, g: u8, b: u8)
    ensures
        color(r, g, b) % 256 == r,
        color(r, g, b) / 256 % 256 == g,
        color(r, g, b) / 65536 == b,
{
}

/// One theme alone is dark, and none has an acrylic ground.
pub proof fn law_one_theme_is_dark(name: Seq<char>)
    ensures
        theme_named(name).is_dark <==> name == "business_dark"@,
        !theme_named(name).acrylic,
        theme_named(name).bg != theme_named(name).fg,
        theme_named(name).sel_bg != theme_named(name).sel_fg,
        theme_named(name).bg != theme_named(name).sel_bg,
{
    assert(theme_named("business_dark"@) == business_dark_spec());
}

/// The colors of the themes, each as one number, the blue part highest.
pub proof fn law_colors_of_the_themes(name: Seq<char>)
    ensures
        name == "business_dark"@ ==> theme_named(name) == (Theme {
                is_dark: true,
                acrylic: false,
                bg: 0x26_2220,
                fg: 0xEC_ECEC,
                path_fg: 0xA8_9F9A,
                accent: 0xFF_9A4C,
                sel_bg: 0x76_4B2F,
                sel_fg: 0xFF_FFFF,
                border: 0x43_3D3A,
                alt_bg: 0x2E_2926,
            }),
        name == "solarized"@ ==> theme_named(name) == (Theme {
                is_dark: false,
                acrylic: false,
                bg: 0xE3_F6FD,
                fg: 0x75_6E58,
                path_fg: 0xA1_A193,
                accent: 0xD2_8B26,
                sel_bg: 0xC8_DFE6,
                sel_fg: 0x42_3607,
                border: 0xD5_E8EE,
                alt_bg: 0xD5_E8EE,
            }),
        name != "business_dark"@ && name != "solarized"@ ==> theme_named(name) == (Theme {
                is_dark: false,
                acrylic: false,
                bg: 0xFA_F8F7,
                fg: 0x24_201E,
                path_fg: 0x96_8C86,
                accent: 0xDF_6C2D,
                sel_bg: 0xFF_E6D8,
                sel_fg: 0x16_1210,
                border: 0xE3_DFDD,
                alt_bg: 0xFF_FFFF,
            }),
{
    law_themes_by_name(name);
}

} // verus!
