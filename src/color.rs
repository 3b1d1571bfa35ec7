use vstd::prelude::*;

verus! {

/// A packed RGB color: red in bits 16..24, green in bits 8..16, blue in bits 0..8.
#[derive(Copy, Clone, Debug, PartialEq, Eq, Structural, Default)]
pub struct Color(pub u32);

/// The red channel of a packed value.
pub open spec fn red_of(v: u32) -> int {
    (v as int / 0x10000) % 0x100
}

/// The green channel of a packed value.
pub open spec fn green_of(v: u32) -> int {
    (v as int / 0x100) % 0x100
}

/// The blue channel of a packed value.
pub open spec fn blue_of(v: u32) -> int {
    v as int % 0x100
}

/// The packed value of three channels.
pub open spec fn pack_rgb(r: int, g: int, b: int) -> int {
    r * 0x10000 + g * 0x100 + b
}

impl Color {
    /// A color holds no bits above the three channels.
    pub open spec fn is_rgb(self) -> bool {
        self.0 < 0x1000000
    }

    /// The channel `ch` (0 red, 1 green, 2 blue) of this color.
    pub open spec fn channel(self, ch: int) -> int {
        if ch == 0 {
            red_of(self.0)
        } else if ch == 1 {
            green_of(self.0)
        } else {
            blue_of(self.0)
        }
    }

    pub fn new(color: u32) -> (c: Color)
        ensures
            c.0 == color,
    {
        Color(color)
    }

    pub fn from_rgb(r: u8, g: u8, b: u8) -> (c: Color)
        ensures
            c.0 == pack_rgb(r as int, g as int, b as int),
            c.is_rgb(),
            red_of(c.0) == r,
            green_of(c.0) == g,
            blue_of(c.0) == b,
    {
        let v: u32 = (r as u32) << 16u32 | (g as u32) << 8u32 | b as u32;
        proof {
            lemma_pack_bits(r, g, b);
        }
        Color(v)
    }

    pub fn r(self) -> (r: u8)
        ensures
            r == red_of(self.0),
    {
        proof {
            lemma_unpack_bits(self.0);
        }
        (self.0 >> 16u32) as u8
    }

    pub fn g(self) -> (g: u8)
        ensures
            g == green_of(self.0),
    {
        proof {
            lemma_unpack_bits(self.0);
        }
        (self.0 >> 8u32) as u8
    }

    pub fn b(self) -> (b: u8)
        ensures
            b == blue_of(self.0),
    {
        proof {
            lemma_unpack_bits(self.0);
        }
        self.0 as u8
    }

    pub fn u32(self) -> (v: u32)
        ensures
            v == self.0,
    {
        self.0
    }

    pub fn rgb(self) -> (t: (u8, u8, u8))
        ensures
            t.0 == red_of(self.0),
            t.1 == green_of(self.0),
            t.2 == blue_of(self.0),
    {
        (self.r(), self.g(), self.b())
    }
}

/// Shifting and masking agree with the arithmetic channel definitions.
proof fn lemma_unpack_bits(v: u32)
    ensures
        ((v >> 16u32) as u8) as int == red_of(v),
        ((v >> 8u32) as u8) as int == green_of(v),
        (v as u8) as int == blue_of(v),
{
    assert((v >> 16u32) & 0xffu32 == (v / 0x10000u32) % 0x100u32) by (bit_vector);
    assert((v >> 8u32) & 0xffu32 == (v / 0x100u32) % 0x100u32) by (bit_vector);
    assert(((v >> 16u32) as u8) as u32 == (v >> 16u32) & 0xffu32) by (bit_vector);
    assert(((v >> 8u32) as u8) as u32 == (v >> 8u32) & 0xffu32) by (bit_vector);
    assert((v as u8) as u32 == v % 0x100u32) by (bit_vector);
}

/// Or-ing the shifted channels packs them without overlap.
proof fn lemma_pack_bits(r: u8, g: u8, b: u8)
    ensures
        ((r as u32) << 16u32 | (g as u32) << 8u32 | b as u32) as int == pack_rgb(
            r as int,
            g as int,
            b as int,
        ),
        pack_rgb(r as int, g as int, b as int) < 0x1000000,
        red_of(((r as u32) << 16u32 | (g as u32) << 8u32 | b as u32)) == r,
        green_of(((r as u32) << 16u32 | (g as u32) << 8u32 | b as u32)) == g,
        blue_of(((r as u32) << 16u32 | (g as u32) << 8u32 | b as u32)) == b,
{
    let rr = r as u32;
    let gg = g as u32;
    let bb = b as u32;
    assert(rr < 256 && gg < 256 && bb < 256);
    assert(rr << 16u32 | gg << 8u32 | bb == rr * 0x10000u32 + gg * 0x100u32 + bb) by (bit_vector)
        requires
            rr < 256u32,
            gg < 256u32,
            bb < 256u32,
    ;
    let v = rr * 0x10000u32 + gg * 0x100u32 + bb;
    assert(v as int / 0x10000 == rr as int) by (nonlinear_arith)
        requires
            v as int == rr as int * 0x10000 + gg as int * 0x100 + bb as int,
            rr < 256,
            gg < 256,
            bb < 256,
    ;
    assert(v as int / 0x100 == rr as int * 0x100 + gg as int) by (nonlinear_arith)
        requires
            v as int == rr as int * 0x10000 + gg as int * 0x100 + bb as int,
            gg < 256,
            bb < 256,
    ;
}

/// A color with no bits above its channels is the packing of its own channels.
pub proof fn lemma_repack(c: Color)
    requires
        c.is_rgb(),
    ensures
        pack_rgb(red_of(c.0), green_of(c.0), blue_of(c.0)) == c.0,
        Color(pack_rgb(c.channel(0), c.channel(1), c.channel(2)) as u32) == c,
{
    let v = c.0;
    assert(v == (v / 0x10000u32 % 0x100u32) * 0x10000u32 + (v / 0x100u32 % 0x100u32) * 0x100u32 + v
        % 0x100u32) by (bit_vector)
        requires
            v < 0x1000000u32,
    ;
}

} // verus!
