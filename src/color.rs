use vstd::prelude::*;

verus! {

/// An 8-bit-per-channel color.
#[derive(Clone, Copy, Debug, PartialEq, Eq, Structural)]
pub struct Color {
    pub r: u8,
    pub g: u8,
    pub b: u8,
    pub a: u8,
}

/// The packed BGRA word of a color: blue in the least-significant byte, then
/// green, red and alpha.
pub open spec fn bgra_word(c: Color) -> int {
    c.b as int + 256 * (c.g as int) + 65536 * (c.r as int) + 16777216 * (c.a as int)
}

impl Color {
    pub fn new(r: u8, g: u8, b: u8, a: u8) -> (c: Color)
        ensures
            c == (Color { r, g, b, a }),
    {
        Color { r, g, b, a }
    }

    /// Opaque red.
    pub fn red() -> (c: Color)
        ensures
            c == (Color { r: 255, g: 0, b: 0, a: 255 }),
    {
        Color { r: 255, g: 0, b: 0, a: 255 }
    }

    /// The packed BGRA word of this color.
    pub fn bgra(&self) -> (w: u32)
        ensures
            w as int == bgra_word(*self),
    {
        let b = self.b as u32;
        let g = self.g as u32;
        let r = self.r as u32;
        let a = self.a as u32;
        assert(b + 256 * g + 65536 * r + 16777216 * a <= 0xffff_ffff) by (nonlinear_arith)
            requires
                b <= 255,
                g <= 255,
                r <= 255,
                a <= 255,
        ;
        b + 256 * g + 65536 * r + 16777216 * a
    }
}

} // verus!
