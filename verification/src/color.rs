//! Colours, pixels and the per-channel multiply blend.

use vstd::prelude::*;

verus! {

/// An opaque colour of three 8-bit channels.
#[derive(Clone, Copy, Debug, PartialEq, Eq, Structural)]
pub struct Color {
    pub r: u8,
    pub g: u8,
    pub b: u8,
}

/// A pixel: a colour and an 8-bit alpha channel.
#[derive(Clone, Copy, Debug, PartialEq, Eq, Structural)]
pub struct Rgba {
    pub r: u8,
    pub g: u8,
    pub b: u8,
    pub a: u8,
}

/// Cells whose alpha lies below this value take no palette colour.
pub const ALPHA_THRESHOLD: u8 = 128;

/// The pixel that stands for "no bead": white, fully transparent.
pub open spec fn transparent_white() -> Rgba {
    Rgba { r: 255, g: 255, b: 255, a: 0 }
}

impl Color {
    /// This colour as a fully opaque pixel.
    pub open spec fn opaque(self) -> Rgba {
        Rgba { r: self.r, g: self.g, b: self.b, a: 255 }
    }

    /// This colour as a fully opaque pixel.
    pub fn to_rgba(self) -> (pixel: Rgba)
        ensures
            pixel == self.opaque(),
    {
        Rgba { r: self.r, g: self.g, b: self.b, a: 255 }
    }
}

impl Rgba {
    /// The colour channels of the pixel, alpha dropped.
    pub open spec fn color(self) -> Color {
        Color { r: self.r, g: self.g, b: self.b }
    }

    /// The colour channels of the pixel, alpha dropped.
    pub fn to_rgb(self) -> (color: Color)
        ensures
            color == self.color(),
    {
        Color { r: self.r, g: self.g, b: self.b }
    }
}

/// The colour packed in the low 24 bits of `rgb`, red in the highest of the three bytes.
pub open spec fn unpacked(rgb: u32) -> Color {
    Color {
        r: ((rgb / 0x1_0000) % 0x100) as u8,
        g: ((rgb / 0x100) % 0x100) as u8,
        b: (rgb % 0x100) as u8,
    }
}

/// The channels of a packed `0xRRGGBB` value; bits above the low 24 are ignored.
pub fn make_rgb(rgb: u32) -> (color: Color)
    ensures
        color == unpacked(rgb),
{
    let r: u32 = (rgb >> 16) & 0xff;
    let g: u32 = (rgb >> 8) & 0xff;
    let b: u32 = rgb & 0xff;
    assert(r == (rgb / 0x1_0000) % 0x100 && g == (rgb / 0x100) % 0x100 && b == rgb % 0x100 && r
        < 256 && g < 256 && b < 256) by (bit_vector)
        requires
            r == (rgb >> 16) & 0xff,
            g == (rgb >> 8) & 0xff,
            b == rgb & 0xff,
    ;
    Color { r: r as u8, g: g as u8, b: b as u8 }
}

/// One channel of the multiply blend: `floor(c * t / 255)`.
pub open spec fn mul_channel(c: u8, t: u8) -> int {
    (c as int * t as int) / 255
}

/// The multiply blend of two pixels, channel by channel, alpha included.
pub open spec fn product(a: Rgba, b: Rgba) -> Rgba {
    Rgba {
        r: mul_channel(a.r, b.r) as u8,
        g: mul_channel(a.g, b.g) as u8,
        b: mul_channel(a.b, b.b) as u8,
        a: mul_channel(a.a, b.a) as u8,
    }
}

/// A blended channel never exceeds the cell's channel, so it is a `u8`; a texture
/// channel of 255 keeps the cell's channel and one of 0 clears it.
pub proof fn lemma_mul_channel(c: u8, t: u8)
    ensures
        0 <= mul_channel(c, t) <= c,
        mul_channel(c, t) <= t,
        mul_channel(c, 255) == c,
        mul_channel(c, 0) == 0,
{
    assert(0 <= c as int * t as int <= c as int * 255 && c as int * t as int <= 255 * t as int)
        by (nonlinear_arith);
}

fn mul_u8(c: u8, t: u8) -> (out: u8)
    ensures
        out == mul_channel(c, t),
{
    proof {
        lemma_mul_channel(c, t);
        assert(c as int * t as int <= 255 * 255) by (nonlinear_arith);
    }
    let wide: u16 = (c as u16) * (t as u16) / 255;
    wide as u8
}

/// Blends a cell's pixel `a` with a texture pixel `b`: every channel of the result is
/// `floor(a * b / 255)`.
pub fn mul_rgba(a: Rgba, b: Rgba) -> (out: Rgba)
    ensures
        out == product(a, b),
        out.r == mul_channel(a.r, b.r),
        out.g == mul_channel(a.g, b.g),
        out.b == mul_channel(a.b, b.b),
        out.a == mul_channel(a.a, b.a),
{
    Rgba { r: mul_u8(a.r, b.r), g: mul_u8(a.g, b.g), b: mul_u8(a.b, b.b), a: mul_u8(a.a, b.a) }
}

/// Blending with a texture pixel whose channels are all 255 returns the cell's pixel, and
/// blending with one whose channels are all 0 returns the all-zero pixel.
pub proof fn lemma_product_extremes(c: Rgba)
    ensures
        product(c, Rgba { r: 255, g: 255, b: 255, a: 255 }) == c,
        product(c, Rgba { r: 0, g: 0, b: 0, a: 0 }) == (Rgba { r: 0, g: 0, b: 0, a: 0 }),
{
    lemma_mul_channel(c.r, 0);
    lemma_mul_channel(c.g, 0);
    lemma_mul_channel(c.b, 0);
    lemma_mul_channel(c.a, 0);
}

} // verus!
