//! Colours, as Windows holds them: blue, green and red from the highest byte down.

use crate::settings::ThemeMode;
use vstd::prelude::*;

verus! {

/// The colours of a theme.
#[derive(Copy, Clone, Debug, PartialEq, Eq, Structural)]
pub struct Pal {
    /// Behind the top bar, the sidebar and the status bar.
    pub win_bg: u32,
    /// Behind cards, the list and the panel's header.
    pub card_bg: u32,
    /// Behind the side panel.
    pub panel_bg: u32,
    pub text: u32,
    pub subtext: u32,
    pub hairline: u32,
    /// The part of a bar that is not filled.
    pub track: u32,
    pub blue: u32,
    pub green: u32,
}

/// The colours of the light or the dark theme.
pub open spec fn colours(is_dark: bool) -> Pal {
    if is_dark {
        Pal {
            win_bg: 0x0026_2626,
            card_bg: 0x002E_2E2E,
            panel_bg: 0x0022_2222,
            text: 0x00EC_ECEC,
            subtext: 0x00A0_A0A0,
            hairline: 0x003C_3C3C,
            track: 0x0040_4040,
            blue: 0x00F5_824C,
            green: 0x005C_C87C,
        }
    } else {
        Pal {
            win_bg: 0x00F4_F0EE,
            card_bg: 0x00FF_FFFF,
            panel_bg: 0x00FA_F8F7,
            text: 0x0022_2622,
            subtext: 0x00A0_928A,
            hairline: 0x00EC_E7E4,
            track: 0x00F1_ECE9,
            blue: 0x00F0_6B2D,
            green: 0x0051_BB70,
        }
    }
}

pub fn palette(is_dark: bool) -> (r: Pal)
    ensures
        r == colours(is_dark),
{
    if is_dark {
        Pal {
            win_bg: 0x0026_2626,
            card_bg: 0x002E_2E2E,
            panel_bg: 0x0022_2222,
            text: 0x00EC_ECEC,
            subtext: 0x00A0_A0A0,
            hairline: 0x003C_3C3C,
            track: 0x0040_4040,
            blue: 0x00F5_824C,
            green: 0x005C_C87C,
        }
    } else {
        Pal {
            win_bg: 0x00F4_F0EE,
            card_bg: 0x00FF_FFFF,
            panel_bg: 0x00FA_F8F7,
            text: 0x0022_2622,
            subtext: 0x00A0_928A,
            hairline: 0x00EC_E7E4,
            track: 0x00F1_ECE9,
            blue: 0x00F0_6B2D,
            green: 0x0051_BB70,
        }
    }
}

/// Whether the dark colours are used.
pub fn is_dark(mode: ThemeMode, system_is_light: bool) -> (r: bool)
    ensures
        r == match mode {
            ThemeMode::Auto => !system_is_light,
            ThemeMode::Light => false,
            ThemeMode::Dark => true,
        },
{
    match mode {
        ThemeMode::Auto => !system_is_light,
        ThemeMode::Light => false,
        ThemeMode::Dark => true,
    }
}

/// The fill, border and text of a flat button.
#[derive(Copy, Clone, Debug, PartialEq, Eq, Structural)]
pub struct ButtonColours {
    pub fill: u32,
    pub border: u32,
    pub text: u32,
}

/// How a button is drawn: one that cannot be pressed fades into what is behind it;
/// the main one is filled with blue.
pub open spec fn button_look(
    p: Pal,
    behind: u32,
    primary: bool,
    pressed: bool,
    disabled: bool,
) -> ButtonColours {
    if disabled {
        ButtonColours { fill: behind, border: p.hairline, text: p.subtext }
    } else if primary {
        let f = if pressed {
            0x00C0_5A24
        } else {
            p.blue
        };
        ButtonColours { fill: f, border: f, text: 0x00FF_FFFF }
    } else if pressed {
        ButtonColours { fill: p.track, border: p.blue, text: p.text }
    } else {
        ButtonColours { fill: p.card_bg, border: p.hairline, text: p.text }
    }
}

pub fn button_colours(p: &Pal, behind: u32, primary: bool, pressed: bool, disabled: bool) -> (r:
    ButtonColours)
    ensures
        r == button_look(*p, behind, primary, pressed, disabled),
{
    if disabled {
        ButtonColours { fill: behind, border: p.hairline, text: p.subtext }
    } else if primary {
        let f: u32 = if pressed {
            0x00C0_5A24
        } else {
            p.blue
        };
        ButtonColours { fill: f, border: f, text: 0x00FF_FFFF }
    } else if pressed {
        ButtonColours { fill: p.track, border: p.blue, text: p.text }
    } else {
        ButtonColours { fill: p.card_bg, border: p.hairline, text: p.text }
    }
}

/// A colour with that much red, green and blue.
pub open spec fn rgb(red: int, green: int, blue: int) -> int {
    red + green * 256 + blue * 65_536
}

/// The colours of the two themes, by how much red, green and blue they have.
pub proof fn law_theme_colours()
    ensures
        ({
            let p = colours(true);
            &&& p.win_bg == rgb(38, 38, 38)
            &&& p.card_bg == rgb(46, 46, 46)
            &&& p.panel_bg == rgb(34, 34, 34)
            &&& p.text == rgb(236, 236, 236)
            &&& p.subtext == rgb(160, 160, 160)
            &&& p.hairline == rgb(60, 60, 60)
            &&& p.track == rgb(64, 64, 64)
            &&& p.blue == rgb(76, 130, 245)
            &&& p.green == rgb(124, 200, 92)
        }),
        ({
            let p = colours(false);
            &&& p.win_bg == rgb(238, 240, 244)
            &&& p.card_bg == rgb(255, 255, 255)
            &&& p.panel_bg == rgb(247, 248, 250)
            &&& p.text == rgb(34, 38, 34)
            &&& p.subtext == rgb(138, 146, 160)
            &&& p.hairline == rgb(228, 231, 236)
            &&& p.track == rgb(233, 236, 241)
            &&& p.blue == rgb(45, 107, 240)
            &&& p.green == rgb(112, 187, 81)
        }),
{
}

/// A button that cannot be pressed has the fill of what is behind it; one that can stands
/// out. Pressing a button changes how it looks.
pub proof fn law_buttons_show_their_state(is_dark: bool, behind: u32, primary: bool)
    ensures
        ({
            let p = colours(is_dark);
            let idle = button_look(p, behind, primary, false, false);
            let down = button_look(p, behind, primary, true, false);
            let off = button_look(p, behind, primary, false, true);
            &&& off == button_look(p, behind, primary, true, true)
            &&& off.fill == behind
            &&& off.text == p.subtext
            &&& off.border == p.hairline
            &&& idle.fill != down.fill
            &&& idle.border != down.border
            &&& primary ==> idle.fill == p.blue && down.fill == rgb(36, 90, 192) && idle.border
                == idle.fill && down.border == down.fill && idle.text == rgb(255, 255, 255)
                && down.text == idle.text
            &&& !primary ==> idle.fill == p.card_bg && idle.border == p.hairline && down.fill
                == p.track && down.border == p.blue && idle.text == p.text && down.text == p.text
        }),
{
}

} // verus!
