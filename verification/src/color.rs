use vstd::prelude::*;

verus! {

/// Text color, packed as `0xAARRGGBB`.
#[derive(Clone, Copy, Debug, PartialEq, Eq, PartialOrd, Ord, Hash, Structural)]
pub struct Color(pub u32);

/// The packed value of the four components.
pub open spec fn pack_argb(r: u8, g: u8, b: u8, a: u8) -> u32 {
    (a as nat * 0x1000000 + r as nat * 0x10000 + g as nat * 0x100 + b as nat) as u32
}

impl Color {
    pub open spec fn red(self) -> u8 {
        ((self.0 as nat / 0x10000) % 256) as u8
    }

    pub open spec fn green(self) -> u8 {
        ((self.0 as nat / 0x100) % 256) as u8
    }

    pub open spec fn blue(self) -> u8 {
        (self.0 as nat % 256) as u8
    }

    pub open spec fn alpha(self) -> u8 {
        (self.0 as nat / 0x1000000) as u8
    }

    /// Create new color with red, green, and blue components
    pub fn rgb(r: u8, g: u8, b: u8) -> (c: Self)
        ensures
            c.0 == pack_argb(r, g, b, 0xFF),
            c.red() == r,
            c.green() == g,
            c.blue() == b,
            c.alpha() == 0xFF,
    {
        Self::rgba(r, g, b, 0xFF)
    }

    /// Create new color with red, green, blue, and alpha components
    pub fn rgba(r: u8, g: u8, b: u8, a: u8) -> (c: Self)
        ensures
            c.0 == pack_argb(r, g, b, a),
            c.red() == r,
            c.green() == g,
            c.blue() == b,
            c.alpha() == a,
    {
        let v: u32 = ((a as u32) << 24) | ((r as u32) << 16) | ((g as u32) << 8) | (b as u32);
        proof {
            lemma_pack(r, g, b, a, v);
        }
        Self(v)
    }

    /// Get the red component
    pub fn r(&self) -> (v: u8)
        ensures
            v == self.red(),
    {
        let x: u32 = self.0;
        let v: u8 = ((x & 0x00_FF_00_00) >> 16) as u8;
        assert(((x & 0x00_FF_00_00) >> 16) as u8 == ((x / 0x10000) % 256) as u8) by (bit_vector);
        v
    }

    /// Get the green component
    pub fn g(&self) -> (v: u8)
        ensures
            v == self.green(),
    {
        let x: u32 = self.0;
        let v: u8 = ((x & 0x00_00_FF_00) >> 8) as u8;
        assert(((x & 0x00_00_FF_00) >> 8) as u8 == ((x / 0x100) % 256) as u8) by (bit_vector);
        v
    }

    /// Get the blue component
    pub fn b(&self) -> (v: u8)
        ensures
            v == self.blue(),
    {
        let x: u32 = self.0;
        let v: u8 = (x & 0x00_00_00_FF) as u8;
        assert((x & 0x00_00_00_FF) as u8 == (x % 256) as u8) by (bit_vector);
        v
    }

    /// Get the alpha component
    pub fn a(&self) -> (v: u8)
        ensures
            v == self.alpha(),
    {
        let x: u32 = self.0;
        let v: u8 = ((x & 0xFF_00_00_00) >> 24) as u8;
        assert(((x & 0xFF_00_00_00) >> 24) as u8 == (x / 0x1000000) as u8) by (bit_vector);
        v
    }
}

proof fn lemma_pack(r: u8, g: u8, b: u8, a: u8, v: u32)
    requires
        v == ((a as u32) << 24) | ((r as u32) << 16) | ((g as u32) << 8) | (b as u32),
    ensures
        v == pack_argb(r, g, b, a),
        ((v as nat / 0x10000) % 256) as u8 == r,
        ((v as nat / 0x100) % 256) as u8 == g,
        (v as nat % 256) as u8 == b,
        (v as nat / 0x1000000) as u8 == a,
{
    assert(v == (a as u32) * 0x1000000 + (r as u32) * 0x10000 + (g as u32) * 0x100 + (b as u32))
        by (bit_vector)
        requires
            v == ((a as u32) << 24) | ((r as u32) << 16) | ((g as u32) << 8) | (b as u32),
    ;
    lemma_unpack(r, g, b, a);
}

proof fn lemma_unpack(r: u8, g: u8, b: u8, a: u8)
    ensures
        Color(pack_argb(r, g, b, a)).red() == r,
        Color(pack_argb(r, g, b, a)).green() == g,
        Color(pack_argb(r, g, b, a)).blue() == b,
        Color(pack_argb(r, g, b, a)).alpha() == a,
{
    let v: u32 = pack_argb(r, g, b, a);
    assert(v == (a as u32) * 0x1000000 + (r as u32) * 0x10000 + (g as u32) * 0x100 + (b as u32));
    let (r32, g32, b32, a32) = (r as u32, g as u32, b as u32, a as u32);
    assert((v / 0x10000) % 256 == r32 && (v / 0x100) % 256 == g32 && v % 256 == b32 && v
        / 0x1000000 == a32) by (bit_vector)
        requires
            v == a32 * 0x1000000u32 + r32 * 0x10000u32 + g32 * 0x100u32 + b32,
            r32 < 256,
            g32 < 256,
            b32 < 256,
            a32 < 256,
    ;
}

proof fn lemma_repack(x: u32)
    ensures
        pack_argb(
            ((x as nat / 0x10000) % 256) as u8,
            ((x as nat / 0x100) % 256) as u8,
            (x as nat % 256) as u8,
            (x as nat / 0x1000000) as u8,
        ) == x,
{
    assert(((x / 0x1000000) * 0x1000000u32 + ((x / 0x10000) % 256) * 0x10000u32 + ((x / 0x100)
        % 256) * 0x100u32 + x % 256) == x) by (bit_vector);
}

/// Packing four components and reading them back gives the same components, and
/// a color is rebuilt exactly from its four components.
pub proof fn lemma_color_components_roundtrip(r: u8, g: u8, b: u8, a: u8, c: Color)
    ensures
        Color(pack_argb(r, g, b, a)).red() == r,
        Color(pack_argb(r, g, b, a)).green() == g,
        Color(pack_argb(r, g, b, a)).blue() == b,
        Color(pack_argb(r, g, b, a)).alpha() == a,
        pack_argb(c.red(), c.green(), c.blue(), c.alpha()) == c.0,
{
    lemma_unpack(r, g, b, a);
    lemma_repack(c.0);
}

} // verus!
