use vstd::prelude::*;

verus! {

/// A non-premultiplied colour with 8-bit channels.
#[derive(Clone, Copy, Debug, PartialEq, Eq, Structural)]
pub struct Color {
    pub r: u8,
    pub g: u8,
    pub b: u8,
    pub a: u8,
}

/// One colour channel of `src` composited over `dst` with source alpha `a`,
/// rounded to the nearest integer.
pub open spec fn blend_channel(src: u8, dst: u8, a: u8) -> int {
    (src as int * a as int + dst as int * (255 - a as int) + 127) / 255
}

/// The alpha of a source with alpha `sa` composited over a destination with alpha `da`.
pub open spec fn blend_alpha(sa: u8, da: u8) -> int {
    sa as int + (da as int * (255 - sa as int) + 127) / 255
}

/// Standard alpha-over compositing of `src` over `dst`.
pub open spec fn blend_spec(src: Color, dst: Color) -> Color {
    Color {
        r: blend_channel(src.r, dst.r, src.a) as u8,
        g: blend_channel(src.g, dst.g, src.a) as u8,
        b: blend_channel(src.b, dst.b, src.a) as u8,
        a: blend_alpha(src.a, dst.a) as u8,
    }
}

proof fn lemma_blend_channel_bounds(src: u8, dst: u8, a: u8)
    ensures
        0 <= blend_channel(src, dst, a) <= 255,
        a == 0 ==> blend_channel(src, dst, a) == dst,
        a == 255 ==> blend_channel(src, dst, a) == src,
{
    let s = src as int;
    let d = dst as int;
    let al = a as int;
    assert(0 <= s * al + d * (255 - al) <= 255 * 255) by (nonlinear_arith)
        requires 0 <= s <= 255, 0 <= d <= 255, 0 <= al <= 255;
    if a == 0 {
        assert(s * al + d * (255 - al) + 127 == d * 255 + 127) by (nonlinear_arith)
            requires al == 0;
    }
    if a == 255 {
        assert(s * al + d * (255 - al) + 127 == s * 255 + 127) by (nonlinear_arith)
            requires al == 255;
    }
}

proof fn lemma_blend_alpha_bounds(sa: u8, da: u8)
    ensures
        0 <= blend_alpha(sa, da) <= 255,
        sa == 0 ==> blend_alpha(sa, da) == da,
        sa == 255 ==> blend_alpha(sa, da) == 255,
{
    let s = sa as int;
    let d = da as int;
    assert(0 <= d * (255 - s) <= 255 * (255 - s)) by (nonlinear_arith)
        requires 0 <= s <= 255, 0 <= d <= 255;
    assert((255 * (255 - s) + 127) / 255 == 255 - s);
    assert((d * (255 - s) + 127) / 255 <= (255 * (255 - s) + 127) / 255) by (nonlinear_arith)
        requires d * (255 - s) <= 255 * (255 - s);
    if sa == 0 {
        assert(d * (255 - s) == d * 255) by (nonlinear_arith) requires s == 0;
    }
    if sa == 255 {
        assert(d * (255 - s) == 0) by (nonlinear_arith) requires s == 255;
    }
}

/// Compositing a fully transparent colour leaves the destination as it was,
/// and compositing a fully opaque colour replaces it with the source exactly.
pub proof fn lemma_blend_transparent_and_opaque(src: Color, dst: Color)
    ensures
        src.a == 0 ==> blend_spec(src, dst) == dst,
        src.a == 255 ==> blend_spec(src, dst) == src,
{
    lemma_blend_channel_bounds(src.r, dst.r, src.a);
    lemma_blend_channel_bounds(src.g, dst.g, src.a);
    lemma_blend_channel_bounds(src.b, dst.b, src.a);
    lemma_blend_alpha_bounds(src.a, dst.a);
}

fn blend_channel_exec(src: u8, dst: u8, a: u8) -> (r: u8)
    ensures
        r as int == blend_channel(src, dst, a),
{
    proof {
        lemma_blend_channel_bounds(src, dst, a);
    }
    let s = src as u32;
    let d = dst as u32;
    let al = a as u32;
    assert(s * al <= 255 * 255) by (nonlinear_arith) requires s <= 255, al <= 255;
    assert(d * (255 - al) <= 255 * 255) by (nonlinear_arith) requires d <= 255, al <= 255;
    ((s * al + d * (255 - al) + 127) / 255) as u8
}

impl Color {
    /// Builds a colour from its four channels.
    pub fn from_rgba(r: u8, g: u8, b: u8, a: u8) -> (c: Color)
        ensures
            c == (Color { r, g, b, a }),
    {
        Color { r, g, b, a }
    }

    /// Builds an opaque colour from its three colour channels.
    pub fn from_rgb(r: u8, g: u8, b: u8) -> (c: Color)
        ensures
            c == (Color { r, g, b, a: 255 }),
    {
        Color { r, g, b, a: 255 }
    }

    /// Builds a colour from a value laid out as `0xAARRGGBB`.
    pub fn from_hex_argb(argb: u32) -> (c: Color)
        ensures
            c.a as int == argb as int / 0x1000000,
            c.r as int == (argb as int / 0x10000) % 0x100,
            c.g as int == (argb as int / 0x100) % 0x100,
            c.b as int == argb as int % 0x100,
    {
        Color {
            r: ((argb / 0x10000) % 0x100) as u8,
            g: ((argb / 0x100) % 0x100) as u8,
            b: (argb % 0x100) as u8,
            a: (argb / 0x1000000) as u8,
        }
    }

    /// The colour as a value laid out as `0xAARRGGBB`.
    pub fn to_hex_argb(&self) -> (v: u32)
        ensures
            v as int == self.a as int * 0x1000000 + self.r as int * 0x10000 + self.g as int
                * 0x100 + self.b as int,
    {
        (self.a as u32) * 0x1000000 + (self.r as u32) * 0x10000 + (self.g as u32) * 0x100
            + (self.b as u32)
    }

    /// This colour composited over `dst` with standard alpha-over blending.
    pub fn blend_over(&self, dst: Color) -> (c: Color)
        ensures
            c == blend_spec(*self, dst),
    {
        proof {
            lemma_blend_alpha_bounds(self.a, dst.a);
        }
        let sa = self.a as u32;
        let da = dst.a as u32;
        assert(da * (255 - sa) <= 255 * 255) by (nonlinear_arith) requires da <= 255, sa <= 255;
        let a = (sa + (da * (255 - sa) + 127) / 255) as u8;
        Color {
            r: blend_channel_exec(self.r, dst.r, self.a),
            g: blend_channel_exec(self.g, dst.g, self.a),
            b: blend_channel_exec(self.b, dst.b, self.a),
            a,
        }
    }
}

} // verus!
