//! Colours and canvas bounds for drawing the glyph grid.
use vstd::prelude::*;

verus! {

/// An 8-bit RGB colour.
#[derive(Debug, Clone, Copy, PartialEq, Eq, Structural)]
pub struct Rgb {
    pub r: u8,
    pub g: u8,
    pub b: u8,
}

/// A space is never drawn: it is the "nothing" that matches the empty background.
pub const BLANK: char = ' ';

/// The background and foreground colours of a theme.
pub open spec fn palette_for(light: bool) -> (Rgb, Rgb) {
    if light {
        (Rgb { r: 255, g: 255, b: 255 }, Rgb { r: 20, g: 20, b: 20 })
    } else {
        (Rgb { r: 13, g: 17, b: 23 }, Rgb { r: 230, g: 237, b: 243 })
    }
}

/// `(background, foreground)`: white with near-black glyphs on a light theme,
/// near-black with near-white glyphs on a dark one.
pub fn palette(light: bool) -> (p: (Rgb, Rgb))
    ensures
        p == palette_for(light),
{
    if light {
        (Rgb { r: 255, g: 255, b: 255 }, Rgb { r: 20, g: 20, b: 20 })
    } else {
        (Rgb { r: 13, g: 17, b: 23 }, Rgb { r: 230, g: 237, b: 243 })
    }
}

/// Whether the glyph for `c` is drawn at all.
pub fn is_drawn(c: char) -> (r: bool)
    ensures
        r == (c != BLANK),
{
    c != BLANK
}

/// Whether the pixel `(px, py)` lies on a canvas of `width` by `height`.
pub fn in_canvas(px: i32, py: i32, width: u32, height: u32) -> (r: bool)
    ensures
        r == (0 <= px < width && 0 <= py < height),
{
    px >= 0 && py >= 0 && (px as u32) < width && (py as u32) < height
}

} // verus!
