//! Pixel helpers for glyph rendering: alpha premultiplication, coverage blending and
//! conversion of decoded glyph images to RGBA pixels.

use vstd::prelude::*;
use crate::color::{Color, pack_argb};

verus! {

/// `c * a / 255`, rounded, computed without division.
pub open spec fn spec_premultiply(c: u8, a: u8) -> u8 {
    let prod = c as int * a as int + 128;
    ((prod + prod / 256) / 256) as u8
}

pub fn premultiply_u8(c: u8, a: u8) -> (r: u8)
    ensures
        r == spec_premultiply(c, a),
{
    let c32: u32 = c as u32;
    let a32: u32 = a as u32;
    assert(c32 * a32 <= 65025) by (nonlinear_arith)
        requires
            c32 < 256,
            a32 < 256,
    ;
    let prod: u32 = c32 * a32 + 128;
    assert(prod >> 8 <= 255) by (bit_vector)
        requires
            prod <= 65153,
    ;
    let sum: u32 = prod + (prod >> 8);
    let r: u32 = sum >> 8;
    assert(prod >> 8 == prod / 256 && sum >> 8 == sum / 256 && sum / 256 < 256) by (bit_vector)
        requires
            prod <= 65153,
            sum == prod + (prod >> 8),
    ;
    r as u8
}

/// Premultiplying by full coverage keeps the value, by no coverage gives zero, and the
/// result never exceeds the value.
pub proof fn lemma_premultiply_bounds(c: u8, a: u8)
    ensures
        spec_premultiply(c, 255) == c,
        spec_premultiply(c, 0) == 0,
        spec_premultiply(c, a) <= c,
{
    let c32 = c as u32;
    let a32 = a as u32;
    assert(((c32 * 255 + 128) + (c32 * 255 + 128) / 256) / 256 == c32) by (bit_vector)
        requires
            c32 < 256,
    ;
    assert((c32 * a32 + 128 + (c32 * a32 + 128) / 256) / 256 <= c32) by (bit_vector)
        requires
            c32 < 256,
            a32 < 256,
    ;
}

/// The color with its alpha scaled by the coverage `a`; red, green and blue kept.
pub fn color_blend_alpha(c: Color, a: u8) -> (r: Color)
    ensures
        r.alpha() == spec_premultiply(c.alpha(), a),
        r.red() == c.red(),
        r.green() == c.green(),
        r.blue() == c.blue(),
{
    let a = premultiply_u8(c.a(), a);
    let x: u32 = c.0;
    let v: u32 = ((a as u32) << 24) | x & 0xFF_FF_FF;
    let a32: u32 = a as u32;
    assert(v / 0x1000000 == a32 && (v / 0x10000) % 256 == (x / 0x10000) % 256 && (v / 0x100) % 256
        == (x / 0x100) % 256 && v % 256 == x % 256) by (bit_vector)
        requires
            v == (a32 << 24) | x & 0xFF_FF_FF,
            a32 < 256,
    ;
    Color(v)
}

/// Color layout of a decoded image.
#[derive(Clone, Copy, Debug, PartialEq, Eq, Structural)]
pub enum ColorSpace {
    RGB,
    RGBA,
    BGR,
    BGRA,
    Luma,
    LumaA,
    /// Any other layout (not produced by PNG decoding).
    Other,
}

/// An 8-bit RGBA pixel.
#[derive(Clone, Copy, Debug, PartialEq, Eq, Structural)]
pub struct Rgba8 {
    pub r: u8,
    pub g: u8,
    pub b: u8,
    pub a: u8,
}

/// The pixels of 8-bit image data; trailing bytes that do not make a whole pixel are
/// ignored.
pub open spec fn u8_pixels(d: Seq<u8>, cs: ColorSpace) -> Option<Seq<Rgba8>> {
    match cs {
        ColorSpace::RGBA => Some(
            Seq::new(
                d.len() / 4,
                |i: int| Rgba8 { r: d[4 * i], g: d[4 * i + 1], b: d[4 * i + 2], a: d[4 * i + 3] },
            ),
        ),
        ColorSpace::BGRA => Some(
            Seq::new(
                d.len() / 4,
                |i: int| Rgba8 { r: d[4 * i + 2], g: d[4 * i + 1], b: d[4 * i], a: d[4 * i + 3] },
            ),
        ),
        ColorSpace::RGB => Some(
            Seq::new(
                d.len() / 3,
                |i: int| Rgba8 { r: d[3 * i], g: d[3 * i + 1], b: d[3 * i + 2], a: 255 },
            ),
        ),
        ColorSpace::BGR => Some(
            Seq::new(
                d.len() / 3,
                |i: int| Rgba8 { r: d[3 * i + 2], g: d[3 * i + 1], b: d[3 * i], a: 255 },
            ),
        ),
        ColorSpace::Luma => Some(
            Seq::new(d.len(), |i: int| Rgba8 { r: d[i], g: d[i], b: d[i], a: 255 }),
        ),
        ColorSpace::LumaA => Some(
            Seq::new(
                d.len() / 2,
                |i: int| Rgba8 { r: d[2 * i], g: d[2 * i], b: d[2 * i], a: d[2 * i + 1] },
            ),
        ),
        ColorSpace::Other => None,
    }
}

/// BGRA data with blue and red swapped in every whole pixel, in place.
pub open spec fn bgra_swapped(d: Seq<u8>) -> Seq<u8> {
    Seq::new(
        d.len(),
        |k: int|
            if k < 4 * (d.len() / 4) && k % 4 == 0 {
                d[k + 2]
            } else if k < 4 * (d.len() / 4) && k % 4 == 2 {
                d[k - 2]
            } else {
                d[k]
            },
    )
}

/// Converts 8-bit image data to RGBA pixels. BGRA data is converted in place (blue and
/// red swapped in `data`); other layouts leave `data` unchanged.
pub fn convert_u8_to_rgba8(data: &mut [u8], color_space: ColorSpace) -> (r: Option<Vec<Rgba8>>)
    ensures
        final(data)@ == if color_space == ColorSpace::BGRA {
            bgra_swapped(old(data)@)
        } else {
            old(data)@
        },
        match u8_pixels(old(data)@, color_space) {
            Some(p) => r matches Some(v) && v@ == p,
            None => r is None,
        },
{
    let n = data.len();
    let ghost d = data@;
    let mut out: Vec<Rgba8> = Vec::new();
    match color_space {
        ColorSpace::RGBA => {
            let mut i: usize = 0;
            while i < n / 4
                invariant
                    n == data@.len(),
                    data@ == d,
                    i <= n / 4,
                    out@ =~= u8_pixels(d, color_space).unwrap().take(i as int),
                    color_space == ColorSpace::RGBA,
                decreases n / 4 - i,
            {
                out.push(Rgba8 { r: data[4 * i], g: data[4 * i + 1], b: data[4 * i + 2], a: data[4 * i + 3] });
                i = i + 1;
            }
            Some(out)
        },
        ColorSpace::BGRA => {
            let mut i: usize = 0;
            while i < n / 4
                invariant
                    n == data@.len(),
                    n == d.len(),
                    i <= n / 4,
                    data@ =~= Seq::new(
                        n as nat,
                        |k: int|
                            if k < 4 * i && k % 4 == 0 {
                                d[k + 2]
                            } else if k < 4 * i && k % 4 == 2 {
                                d[k - 2]
                            } else {
                                d[k]
                            },
                    ),
                    out@ =~= u8_pixels(d, ColorSpace::BGRA).unwrap().take(i as int),
                    color_space == ColorSpace::BGRA,
                decreases n / 4 - i,
            {
                let b = data[4 * i];
                let r = data[4 * i + 2];
                data[4 * i] = r;
                data[4 * i + 2] = b;
                out.push(Rgba8 { r: data[4 * i], g: data[4 * i + 1], b: data[4 * i + 2], a: data[4 * i + 3] });
                i = i + 1;
            }
            assert(data@ =~= bgra_swapped(d));
            Some(out)
        },
        ColorSpace::RGB | ColorSpace::BGR => {
            let mut i: usize = 0;
            while i < n / 3
                invariant
                    n == data@.len(),
                    data@ == d,
                    i <= n / 3,
                    color_space == ColorSpace::RGB || color_space == ColorSpace::BGR,
                    out@ =~= u8_pixels(d, color_space).unwrap().take(i as int),
                decreases n / 3 - i,
            {
                if color_space == ColorSpace::RGB {
                    out.push(Rgba8 { r: data[3 * i], g: data[3 * i + 1], b: data[3 * i + 2], a: 255 });
                } else {
                    out.push(Rgba8 { r: data[3 * i + 2], g: data[3 * i + 1], b: data[3 * i], a: 255 });
                }
                i = i + 1;
            }
            Some(out)
        },
        ColorSpace::Luma => {
            let mut i: usize = 0;
            while i < n
                invariant
                    n == data@.len(),
                    data@ == d,
                    i <= n,
                    color_space == ColorSpace::Luma,
                    out@ =~= u8_pixels(d, color_space).unwrap().take(i as int),
                decreases n - i,
            {
                let l = data[i];
                out.push(Rgba8 { r: l, g: l, b: l, a: 255 });
                i = i + 1;
            }
            Some(out)
        },
        ColorSpace::LumaA => {
            let mut i: usize = 0;
            while i < n / 2
                invariant
                    n == data@.len(),
                    data@ == d,
                    i <= n / 2,
                    color_space == ColorSpace::LumaA,
                    out@ =~= u8_pixels(d, color_space).unwrap().take(i as int),
                decreases n / 2 - i,
            {
                let l = data[2 * i];
                out.push(Rgba8 { r: l, g: l, b: l, a: data[2 * i + 1] });
                i = i + 1;
            }
            Some(out)
        },
        ColorSpace::Other => None,
    }
}

/// A 16-bit channel value scaled to 8 bits, rounded.
pub open spec fn spec_cvt16(c: u16) -> u8 {
    ((c as int + 128) / 256) as u8
}

/// The channel values that the conversion reads: those of whole pixels, in the
/// supported color spaces.
pub open spec fn converted_samples(n: nat, cs: ColorSpace) -> nat {
    match cs {
        ColorSpace::RGBA | ColorSpace::BGRA => (n / 4) * 4,
        ColorSpace::RGB | ColorSpace::BGR => (n / 3) * 3,
        ColorSpace::Luma => n,
        ColorSpace::LumaA => (n / 2) * 2,
        ColorSpace::Other => 0,
    }
}

/// Scales a channel value to 8 bits; rounding adds half a step first, in 16 bits, so
/// values from `0xFF80` up would overflow.
fn cvt16(c: u16) -> (r: u8)
    requires
        c < 0xff80,
    ensures
        r == spec_cvt16(c),
{
    let s: u16 = c + 0b1000_0000;
    let v: u16 = s >> 8;
    assert(v == s / 256 && v < 256) by (bit_vector)
        requires
            v == s >> 8,
    ;
    v as u8
}

/// The pixels of 16-bit image data, each channel scaled to 8 bits; trailing values
/// that do not make a whole pixel are ignored.
pub open spec fn u16_pixels(d: Seq<u16>, cs: ColorSpace) -> Option<Seq<Rgba8>> {
    match cs {
        ColorSpace::RGBA => Some(
            Seq::new(
                d.len() / 4,
                |i: int|
                    Rgba8 {
                        r: spec_cvt16(d[4 * i]),
                        g: spec_cvt16(d[4 * i + 1]),
                        b: spec_cvt16(d[4 * i + 2]),
                        a: spec_cvt16(d[4 * i + 3]),
                    },
            ),
        ),
        ColorSpace::BGRA => Some(
            Seq::new(
                d.len() / 4,
                |i: int|
                    Rgba8 {
                        r: spec_cvt16(d[4 * i + 2]),
                        g: spec_cvt16(d[4 * i + 1]),
                        b: spec_cvt16(d[4 * i]),
                        a: spec_cvt16(d[4 * i + 3]),
                    },
            ),
        ),
        ColorSpace::RGB => Some(
            Seq::new(
                d.len() / 3,
                |i: int|
                    Rgba8 {
                        r: spec_cvt16(d[3 * i]),
                        g: spec_cvt16(d[3 * i + 1]),
                        b: spec_cvt16(d[3 * i + 2]),
                        a: 0xff,
                    },
            ),
        ),
        ColorSpace::BGR => Some(
            Seq::new(
                d.len() / 3,
                |i: int|
                    Rgba8 {
                        r: spec_cvt16(d[3 * i + 2]),
                        g: spec_cvt16(d[3 * i + 1]),
                        b: spec_cvt16(d[3 * i]),
                        a: 0xff,
                    },
            ),
        ),
        ColorSpace::Luma => Some(
            Seq::new(
                d.len(),
                |i: int|
                    Rgba8 {
                        r: spec_cvt16(d[i]),
                        g: spec_cvt16(d[i]),
                        b: spec_cvt16(d[i]),
                        a: 0xff,
                    },
            ),
        ),
        ColorSpace::LumaA => Some(
            Seq::new(
                d.len() / 2,
                |i: int|
                    Rgba8 {
                        r: spec_cvt16(d[2 * i]),
                        g: spec_cvt16(d[2 * i]),
                        b: spec_cvt16(d[2 * i]),
                        a: spec_cvt16(d[2 * i + 1]),
                    },
            ),
        ),
        ColorSpace::Other => None,
    }
}

/// Converts 16-bit image data to 8-bit RGBA pixels. Rounding overflows on channel
/// values from `0xFF80` up, so those must not occur among the values converted.
pub fn convert_u16_to_rgba8(data: &[u16], color_space: ColorSpace) -> (r: Option<Vec<Rgba8>>)
    requires
        forall|i: int|
            0 <= i < converted_samples(data@.len(), color_space) ==> #[trigger] data@[i] < 0xff80,
    ensures
        match u16_pixels(data@, color_space) {
            Some(p) => r matches Some(v) && v@ == p,
            None => r is None,
        },
{
    let n = data.len();
    let ghost d = data@;
    let mut out: Vec<Rgba8> = Vec::new();
    match color_space {
        ColorSpace::RGBA | ColorSpace::BGRA => {
            let mut i: usize = 0;
            while i < n / 4
                invariant
                    n == d.len(),
                    d == data@,
                    i <= n / 4,
                    color_space == ColorSpace::RGBA || color_space == ColorSpace::BGRA,
                    forall|k: int| 0 <= k < (n / 4) * 4 ==> #[trigger] d[k] < 0xff80,
                    out@ =~= u16_pixels(d, color_space).unwrap().take(i as int),
                decreases n / 4 - i,
            {
                let (r, b) = if color_space == ColorSpace::RGBA {
                    (data[4 * i], data[4 * i + 2])
                } else {
                    (data[4 * i + 2], data[4 * i])
                };
                out.push(
                    Rgba8 { r: cvt16(r), g: cvt16(data[4 * i + 1]), b: cvt16(b), a: cvt16(data[4 * i + 3]) },
                );
                i = i + 1;
            }
            Some(out)
        },
        ColorSpace::RGB | ColorSpace::BGR => {
            let mut i: usize = 0;
            while i < n / 3
                invariant
                    n == d.len(),
                    d == data@,
                    i <= n / 3,
                    color_space == ColorSpace::RGB || color_space == ColorSpace::BGR,
                    forall|k: int| 0 <= k < (n / 3) * 3 ==> #[trigger] d[k] < 0xff80,
                    out@ =~= u16_pixels(d, color_space).unwrap().take(i as int),
                decreases n / 3 - i,
            {
                let (r, b) = if color_space == ColorSpace::RGB {
                    (data[3 * i], data[3 * i + 2])
                } else {
                    (data[3 * i + 2], data[3 * i])
                };
                out.push(Rgba8 { r: cvt16(r), g: cvt16(data[3 * i + 1]), b: cvt16(b), a: 0xff });
                i = i + 1;
            }
            Some(out)
        },
        ColorSpace::Luma => {
            let mut i: usize = 0;
            while i < n
                invariant
                    n == d.len(),
                    d == data@,
                    i <= n,
                    color_space == ColorSpace::Luma,
                    forall|k: int| 0 <= k < n ==> #[trigger] d[k] < 0xff80,
                    out@ =~= u16_pixels(d, color_space).unwrap().take(i as int),
                decreases n - i,
            {
                let l = cvt16(data[i]);
                out.push(Rgba8 { r: l, g: l, b: l, a: 0xff });
                i = i + 1;
            }
            Some(out)
        },
        ColorSpace::LumaA => {
            let mut i: usize = 0;
            while i < n / 2
                invariant
                    n == d.len(),
                    d == data@,
                    i <= n / 2,
                    color_space == ColorSpace::LumaA,
                    forall|k: int| 0 <= k < (n / 2) * 2 ==> #[trigger] d[k] < 0xff80,
                    out@ =~= u16_pixels(d, color_space).unwrap().take(i as int),
                decreases n / 2 - i,
            {
                let l = cvt16(data[2 * i]);
                out.push(Rgba8 { r: l, g: l, b: l, a: cvt16(data[2 * i + 1]) });
                i = i + 1;
            }
            Some(out)
        },
        ColorSpace::Other => None,
    }
}

/// One color per pixel, packed from its four channels.
pub fn rgba8_to_color_bitmap(data: &[Rgba8]) -> (r: Vec<Color>)
    ensures
        r@.len() == data@.len(),
        forall|i: int|
            0 <= i < data@.len() ==> (#[trigger] r@[i]).0 == pack_argb(
                data@[i].r,
                data@[i].g,
                data@[i].b,
                data@[i].a,
            ),
{
    let n = data.len();
    let mut out: Vec<Color> = Vec::new();
    let mut i: usize = 0;
    while i < n
        invariant
            n == data@.len(),
            i <= n,
            out@.len() == i,
            forall|k: int|
                0 <= k < i ==> (#[trigger] out@[k]).0 == pack_argb(
                    data@[k].r,
                    data@[k].g,
                    data@[k].b,
                    data@[k].a,
                ),
        decreases n - i,
    {
        let p = data[i];
        out.push(Color::rgba(p.r, p.g, p.b, p.a));
        i = i + 1;
    }
    out
}

} // verus!
