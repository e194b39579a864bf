use vstd::prelude::*;

verus! {

/// One pixel, always held with four channels; alpha is 255 for opaque images.
#[derive(Clone, Copy, Debug, PartialEq, Eq, Structural)]
pub struct Rgba {
    pub r: u8,
    pub g: u8,
    pub b: u8,
    pub a: u8,
}

/// Index of the cache slot that a pixel is stored in: a weighted sum of its
/// channels reduced to six bits.
pub open spec fn color_hash(p: Rgba) -> int {
    (p.r * 3 + p.g * 5 + p.b * 7 + p.a * 11) % 64
}

/// The value of channel `c` (0 = red, 1 = green, 2 = blue, 3 = alpha).
pub open spec fn channel(p: Rgba, c: int) -> u8 {
    if c == 0 {
        p.r
    } else if c == 1 {
        p.g
    } else if c == 2 {
        p.b
    } else {
        p.a
    }
}

/// Wrapping reduction of an integer to a byte.
pub open spec fn wrap(x: int) -> u8 {
    (x % 256) as u8
}

impl Rgba {
    /// Transparent black: the value of every cache slot before decoding starts.
    pub fn new() -> (r: Rgba)
        ensures
            r == (Rgba { r: 0, g: 0, b: 0, a: 0 }),
    {
        Rgba { r: 0, g: 0, b: 0, a: 0 }
    }

    /// Opaque black: the running pixel before the first token.
    pub fn new_opaque() -> (r: Rgba)
        ensures
            r == (Rgba { r: 0, g: 0, b: 0, a: 255 }),
    {
        Rgba { r: 0, g: 0, b: 0, a: 255 }
    }

    /// The cache slot of this pixel.
    pub fn hash(&self) -> (h: usize)
        ensures
            h as int == color_hash(*self),
            h < 64,
    {
        (self.r as usize * 3 + self.g as usize * 5 + self.b as usize * 7 + self.a as usize * 11) % 64
    }
}

} // verus!
