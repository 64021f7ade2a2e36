//! Colors with saturating arithmetic, and the pixels of the frame buffer.

use crate::fixed::{div_scale, div_wide, mul_fx, mul_wide};
use vstd::prelude::*;

verus! {

/// An 8-bit RGB color.  Addition saturates at the channel maximum and a
/// scalar multiply truncates toward zero.
#[derive(Clone, Copy, Debug, PartialEq, Eq, Structural)]
pub struct Color {
    pub r: u8,
    pub g: u8,
    pub b: u8,
}

/// Channel sum clamped at the channel maximum.
pub open spec fn sat_add(a: int, b: int) -> int {
    if a + b > 255 {
        255int
    } else {
        a + b
    }
}

/// Channel scaled by a raw factor, truncated, clamped to the channel
/// range (a negative factor blanks the channel).
pub open spec fn scale_channel(c: int, t: int) -> int {
    if mul_fx(c, t) > 255 {
        255int
    } else if mul_fx(c, t) < 0 {
        0int
    } else {
        mul_fx(c, t)
    }
}

/// Channel modulated by another channel: `a * b / 255`, truncated.
pub open spec fn modulate_channel(a: int, b: int) -> int {
    (a * b) / 255
}

/// Saturating addition of two colors, channel by channel.
pub open spec fn color_add(a: Color, b: Color) -> Color {
    Color {
        r: sat_add(a.r as int, b.r as int) as u8,
        g: sat_add(a.g as int, b.g as int) as u8,
        b: sat_add(a.b as int, b.b as int) as u8,
    }
}

/// A color scaled by a nonnegative raw factor, channel by channel.
pub open spec fn color_scale(a: Color, t: int) -> Color {
    Color {
        r: scale_channel(a.r as int, t) as u8,
        g: scale_channel(a.g as int, t) as u8,
        b: scale_channel(a.b as int, t) as u8,
    }
}

/// Two colors modulated channel by channel.
pub open spec fn color_modulate(a: Color, b: Color) -> Color {
    Color {
        r: modulate_channel(a.r as int, b.r as int) as u8,
        g: modulate_channel(a.g as int, b.g as int) as u8,
        b: modulate_channel(a.b as int, b.b as int) as u8,
    }
}

impl Color {
    /// The black color.
    pub fn new() -> (c: Color)
        ensures
            c.r == 0 && c.g == 0 && c.b == 0,
    {
        Color { r: 0, g: 0, b: 0 }
    }

    /// The white color.
    pub fn white() -> (c: Color)
        ensures
            c.r == 255 && c.g == 255 && c.b == 255,
    {
        Color { r: 255, g: 255, b: 255 }
    }

    /// The color packed as `0x00RRGGBB`.
    pub fn to_u32(&self) -> (v: u32)
        ensures
            v == self.r * 0x10000 + self.g * 0x100 + self.b,
    {
        let r = self.r as u32 * 256 * 256;
        let g = self.g as u32 * 256;
        let b = self.b as u32;
        r + g + b
    }

    /// Saturating addition: channel sums beyond the maximum clamp at the
    /// maximum and never wrap around.
    pub fn add(self, rhs: Color) -> (c: Color)
        ensures
            c == color_add(self, rhs),
            c.r == sat_add(self.r as int, rhs.r as int),
            c.g == sat_add(self.g as int, rhs.g as int),
            c.b == sat_add(self.b as int, rhs.b as int),
    {
        let r16 = self.r as u16 + rhs.r as u16;
        let g16 = self.g as u16 + rhs.g as u16;
        let b16 = self.b as u16 + rhs.b as u16;
        Color {
            r: if r16 > 255 { 255 } else { r16 as u8 },
            g: if g16 > 255 { 255 } else { g16 as u8 },
            b: if b16 > 255 { 255 } else { b16 as u8 },
        }
    }

    /// Saturating accumulation in place.
    pub fn add_assign(&mut self, rhs: Color)
        ensures
            *final(self) == color_add(*old(self), rhs),
    {
        *self = self.add(rhs);
    }

    /// Scale by a raw factor; each channel truncates toward zero and
    /// clamps to the channel range, so a negative factor gives black.
    pub fn mul(self, t: i64) -> (c: Color)
        ensures
            c == color_scale(self, t as int),
    {
        Color {
            r: Self::scale_one(self.r, t),
            g: Self::scale_one(self.g, t),
            b: Self::scale_one(self.b, t),
        }
    }

    /// Modulate by another color, channel by channel.
    pub fn mul_color(self, rhs: Color) -> (c: Color)
        ensures
            c == color_modulate(self, rhs),
    {
        Color {
            r: Self::modulate_one(self.r, rhs.r),
            g: Self::modulate_one(self.g, rhs.g),
            b: Self::modulate_one(self.b, rhs.b),
        }
    }

    fn scale_one(ch: u8, t: i64) -> (v: u8)
        ensures
            v == scale_channel(ch as int, t as int),
    {
        let wide = mul_wide(ch as i64, t);
        let scaled = div_scale(wide);
        if scaled > 255 {
            255
        } else if scaled < 0 {
            0
        } else {
            scaled as u8
        }
    }

    fn modulate_one(a: u8, b: u8) -> (v: u8)
        ensures
            v == modulate_channel(a as int, b as int),
    {
        let wide = mul_wide(a as i64, b as i64);
        let scaled = div_wide(wide, 255);
        proof {
            assert(0 <= (a as int) * (b as int) <= 255 * 255) by (nonlinear_arith)
                requires
                    0 <= a <= 255 && 0 <= b <= 255;
        }
        scaled as u8
    }
}

/// One entry of the frame buffer.
#[derive(Clone, Copy, Debug, PartialEq, Eq, Structural)]
pub struct Pixel {
    pub color: Color,
}

impl Pixel {
    /// A black pixel.
    pub fn new() -> (p: Pixel)
        ensures
            p.color.r == 0 && p.color.g == 0 && p.color.b == 0,
    {
        Pixel { color: Color::new() }
    }
}

} // verus!
