//! The colours of the terminal's palette.

use crate::term::Color;
use vstd::prelude::*;

verus! {

/// The default colour of text: light grey.
pub open spec fn text_color() -> Color {
    Color { r: 0xd3, g: 0xd3, b: 0xd3 }
}

/// The default colour behind text: black.
pub open spec fn ground_color() -> Color {
    Color { r: 0, g: 0, b: 0 }
}

impl Color {
    /// The default colour of text.
    pub fn default_fg() -> (r: Color)
        ensures
            r == text_color(),
    {
        Color { r: 0xd3, g: 0xd3, b: 0xd3 }
    }

    /// The default colour behind text.
    pub fn default_bg() -> (r: Color)
        ensures
            r == ground_color(),
    {
        Color { r: 0, g: 0, b: 0 }
    }
}

/// A colour as the emulation holds it. A named colour is given by its number:
/// 0 to 15 are the sixteen ANSI colours, 256 the foreground, 257 the
/// background, 258 the cursor, 259 to 266 the dim variants of the first eight,
/// 267 and 268 the bright and the dim foreground.
#[derive(Debug, Clone, Copy, PartialEq, Eq, Structural)]
pub enum TermColor {
    Spec { r: u8, g: u8, b: u8 },
    Named(usize),
    Indexed(u8),
}

/// The amount of one component in one of the sixteen ANSI colours, whose bits
/// are red, green, blue and bright. Dark yellow is brown: half as green.
pub open spec fn ansi_component(on: bool, bright: bool) -> u8 {
    if on && bright {
        255
    } else if on {
        170
    } else if bright {
        85
    } else {
        0
    }
}

/// The ANSI colour `i`, below 16.
pub open spec fn ansi(i: int) -> Color {
    let bright = i >= 8;
    let k = i % 8;
    if i == 3 {
        Color { r: 170, g: 85, b: 0 }
    } else {
        Color {
            r: ansi_component(k % 2 == 1, bright),
            g: ansi_component((k / 2) % 2 == 1, bright),
            b: ansi_component(k / 4 == 1, bright),
        }
    }
}

/// The named colour with number `n`; what has no name is black.
pub open spec fn named(n: usize) -> Color {
    if n < 16 {
        ansi(n as int)
    } else if n == 256 || n == 267 || n == 268 {
        text_color()
    } else if n == 257 {
        ground_color()
    } else if n == 258 {
        Color { r: 255, g: 255, b: 255 }
    } else if 259 <= n <= 266 {
        ansi(n - 259)
    } else {
        Color { r: 0, g: 0, b: 0 }
    }
}

/// The steps of the colour cube.
pub open spec fn level(k: int) -> u8 {
    if k == 0 {
        0
    } else {
        (55 + 40 * k) as u8
    }
}

/// The colour `i` of the 256: the sixteen ANSI colours, a cube of six steps a
/// side, and 24 greys.
pub open spec fn indexed(i: u8) -> Color {
    if i < 16 {
        ansi(i as int)
    } else if i < 232 {
        let v = i - 16;
        Color { r: level(v / 36), g: level((v / 6) % 6), b: level(v % 6) }
    } else {
        let v = (8 + 10 * (i - 232)) as u8;
        Color { r: v, g: v, b: v }
    }
}

/// The colour that is meant.
pub open spec fn resolved(c: TermColor) -> Color {
    match c {
        TermColor::Spec { r, g, b } => Color { r, g, b },
        TermColor::Named(n) => named(n),
        TermColor::Indexed(i) => indexed(i),
    }
}

fn ansi_color(i: u8) -> (r: Color)
    requires
        i < 16,
    ensures
        r == ansi(i as int),
{
    match i {
        0 => Color { r: 0, g: 0, b: 0 },
        1 => Color { r: 170, g: 0, b: 0 },
        2 => Color { r: 0, g: 170, b: 0 },
        3 => Color { r: 170, g: 85, b: 0 },
        4 => Color { r: 0, g: 0, b: 170 },
        5 => Color { r: 170, g: 0, b: 170 },
        6 => Color { r: 0, g: 170, b: 170 },
        7 => Color { r: 170, g: 170, b: 170 },
        8 => Color { r: 85, g: 85, b: 85 },
        9 => Color { r: 255, g: 85, b: 85 },
        10 => Color { r: 85, g: 255, b: 85 },
        11 => Color { r: 255, g: 255, b: 85 },
        12 => Color { r: 85, g: 85, b: 255 },
        13 => Color { r: 255, g: 85, b: 255 },
        14 => Color { r: 85, g: 255, b: 255 },
        _ => Color { r: 255, g: 255, b: 255 },
    }
}

/// The named colour with number `n`.
pub fn named_color_rgb(n: usize) -> (r: Color)
    ensures
        r == named(n),
{
    if n < 16 {
        ansi_color(n as u8)
    } else if n == 256 || n == 267 || n == 268 {
        Color::default_fg()
    } else if n == 257 {
        Color::default_bg()
    } else if n == 258 {
        Color { r: 255, g: 255, b: 255 }
    } else if 259 <= n && n <= 266 {
        ansi_color((n - 259) as u8)
    } else {
        Color { r: 0, g: 0, b: 0 }
    }
}

fn cube_level(k: u8) -> (r: u8)
    requires
        k < 6,
    ensures
        r == level(k as int),
{
    if k == 0 {
        0
    } else {
        55 + 40 * k
    }
}

/// The colour `i` of the 256.
pub fn indexed_color_rgb(i: u8) -> (r: Color)
    ensures
        r == indexed(i),
{
    if i < 16 {
        ansi_color(i)
    } else if i < 232 {
        let v: u8 = i - 16;
        Color { r: cube_level(v / 36), g: cube_level((v / 6) % 6), b: cube_level(v % 6) }
    } else {
        let v: u8 = 8 + 10 * (i - 232);
        Color { r: v, g: v, b: v }
    }
}

/// The colour that is meant.
pub fn resolve(c: TermColor) -> (r: Color)
    ensures
        r == resolved(c),
{
    match c {
        TermColor::Spec { r, g, b } => Color { r, g, b },
        TermColor::Named(n) => named_color_rgb(n),
        TermColor::Indexed(i) => indexed_color_rgb(i),
    }
}

} // verus!
