//! Colors: the packed 32-bit ARGB word, a four-channel color value, and
//! per-channel averaging of two packed colors.

use vstd::prelude::*;

verus! {

/// One channel of a packed ARGB word: `div` selects the channel
/// (0x1000000 for alpha, 0x10000 for red, 0x100 for green, 1 for blue).
pub open spec fn channel_of(c: u32, div: int) -> int {
    (c as int / div) % 0x100
}

/// Per-channel average of two packed ARGB colors, each channel truncated
/// toward zero.
pub open spec fn interpolate_spec(c1: u32, c2: u32) -> u32 {
    let a = (channel_of(c1, 0x1000000) + channel_of(c2, 0x1000000)) / 2;
    let r = (channel_of(c1, 0x10000) + channel_of(c2, 0x10000)) / 2;
    let g = (channel_of(c1, 0x100) + channel_of(c2, 0x100)) / 2;
    let b = (channel_of(c1, 1) + channel_of(c2, 1)) / 2;
    (a * 0x1000000 + r * 0x10000 + g * 0x100 + b) as u32
}

/// Averaging packed colors does not depend on the order of its arguments.
pub proof fn lemma_interpolate_symmetric(c1: u32, c2: u32)
    ensures
        interpolate_spec(c1, c2) == interpolate_spec(c2, c1),
{
}

/// Per-channel average of two packed ARGB colors.
pub fn interpolate(c1: u32, c2: u32) -> (r: u32)
    ensures
        r == interpolate_spec(c1, c2),
{
    let a1 = c1 / 0x1000000 % 0x100;
    let r1 = c1 / 0x10000 % 0x100;
    let g1 = c1 / 0x100 % 0x100;
    let b1 = c1 % 0x100;

    let a2 = c2 / 0x1000000 % 0x100;
    let r2 = c2 / 0x10000 % 0x100;
    let g2 = c2 / 0x100 % 0x100;
    let b2 = c2 % 0x100;

    let a = (a1 + a2) / 2;
    let r = (r1 + r2) / 2;
    let g = (g1 + g2) / 2;
    let b = (b1 + b2) / 2;

    a * 0x1000000 + r * 0x10000 + g * 0x100 + b
}

/// A color as four 8-bit channels.
#[derive(Clone, Copy, PartialEq, Eq, Structural, Debug)]
pub struct Color4 {
    pub r: u8,
    pub g: u8,
    pub b: u8,
    pub a: u8,
}

impl Color4 {
    pub fn rgba(r: u8, g: u8, b: u8, a: u8) -> (c: Color4)
        ensures
            c == (Color4 { r, g, b, a }),
    {
        Color4 { r, g, b, a }
    }

    /// An opaque color: alpha is 255.
    pub fn rgb(r: u8, g: u8, b: u8) -> (c: Color4)
        ensures
            c == (Color4 { r, g, b, a: 255u8 }),
    {
        Color4 { r, g, b, a: 255 }
    }

    /// The packed ARGB word of this color.
    pub fn to_argb_u32(&self) -> (w: u32)
        ensures
            w == self.a * 0x1000000 + self.r * 0x10000 + self.g * 0x100 + self.b,
    {
        self.a as u32 * 0x1000000 + self.r as u32 * 0x10000 + self.g as u32 * 0x100 + self.b as u32
    }

    /// Writes the four channels in A, R, G, B order at the given offset and
    /// advances the offset by four.
    pub fn write_to_buffer(&self, buffer: &mut Vec<u8>, offset: &mut usize)
        requires
            *old(offset) + 4 <= old(buffer)@.len(),
        ensures
            *final(offset) == *old(offset) + 4,
            final(buffer)@ == old(buffer)@.update(*old(offset) as int, self.a).update(
                *old(offset) + 1,
                self.r,
            ).update(*old(offset) + 2, self.g).update(*old(offset) + 3, self.b),
    {
        let i = *offset;
        let n = buffer.len();
        assert(i + 4 <= n);
        buffer.set(i, self.a);
        buffer.set(i + 1, self.r);
        buffer.set(i + 2, self.g);
        buffer.set(i + 3, self.b);
        *offset = i + 4;
    }
}

} // verus!
