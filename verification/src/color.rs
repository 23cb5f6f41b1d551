//! RGB color triples and their packed 24-bit form.

use vstd::prelude::*;

verus! {

/// An RGB color with 8-bit channels. Packed form is `0xRRGGBB`:
/// red in bits 16..24, green in bits 8..16, blue in bits 0..8.
#[derive(Clone, Copy, Debug, PartialEq, Eq, Structural)]
pub struct Color {
    pub r: u8,
    pub g: u8,
    pub b: u8,
}

/// The packed 24-bit value of a color: red high, blue low.
pub open spec fn packed(c: Color) -> int {
    c.r * 0x10000 + c.g * 0x100 + c.b
}

/// Clamp an `i32` channel value into 0..=255.
pub open spec fn clamp_channel(v: int) -> int {
    if v < 0 {
        0
    } else if v > 255 {
        255
    } else {
        v
    }
}

impl Color {
    /// Build a color from signed channel values, clamping each into 0..=255.
    pub fn new(r: i32, g: i32, b: i32) -> (c: Color)
        ensures
            c.r == clamp_channel(r as int),
            c.g == clamp_channel(g as int),
            c.b == clamp_channel(b as int),
    {
        Color { r: clamp_u8(r), g: clamp_u8(g), b: clamp_u8(b) }
    }

    /// Unpack a 24-bit `0xRRGGBB` value; bits above the low 24 are ignored.
    pub fn from_hex(hex: u32) -> (c: Color)
        ensures
            c.r == (hex >> 16) & 0xFF,
            c.g == (hex >> 8) & 0xFF,
            c.b == hex & 0xFF,
            packed(c) == hex & 0xFFFFFF,
    {
        proof {
            assert((hex >> 16) & 0xFF < 256 && (hex >> 8) & 0xFF < 256 && hex & 0xFF
                < 256) by (bit_vector);
        }
        let r = ((hex >> 16) & 0xFF) as u8;
        let g = ((hex >> 8) & 0xFF) as u8;
        let b = (hex & 0xFF) as u8;
        proof {
            assert(((hex >> 16) & 0xFF) * 0x10000 + ((hex >> 8) & 0xFF) * 0x100 + (hex & 0xFF)
                == hex & 0xFFFFFF) by (bit_vector);
        }
        Color { r, g, b }
    }

    /// Pack the channels into a 24-bit `0xRRGGBB` value.
    pub fn to_hex(&self) -> (hex: u32)
        ensures
            hex == packed(*self),
            hex < 0x1000000,
    {
        let r = self.r;
        let g = self.g;
        let b = self.b;
        proof {
            assert(((r as u32) << 16) | ((g as u32) << 8) | (b as u32) == (r as u32) * 0x10000 + (
            g as u32) * 0x100 + (b as u32)) by (bit_vector);
        }
        ((r as u32) << 16) | ((g as u32) << 8) | (b as u32)
    }

    /// Add two colors channel-wise, saturating each channel at 255.
    pub fn saturating_add(self, other: Color) -> (c: Color)
        ensures
            c.r == if self.r + other.r > 255 { 255int } else { self.r + other.r },
            c.g == if self.g + other.g > 255 { 255int } else { self.g + other.g },
            c.b == if self.b + other.b > 255 { 255int } else { self.b + other.b },
    {
        Color {
            r: sat_add_u8(self.r, other.r),
            g: sat_add_u8(self.g, other.g),
            b: sat_add_u8(self.b, other.b),
        }
    }
}

/// Packing and unpacking are mutually inverse: unpacking a packed color
/// recovers its channels, and packing an unpacked 24-bit value recovers the
/// value.
pub proof fn lemma_hex_roundtrip(c: Color, hex: u32)
    ensures
        packed(c) < 0x1000000,
        ((packed(c) as u32) >> 16) & 0xFF == c.r,
        ((packed(c) as u32) >> 8) & 0xFF == c.g,
        (packed(c) as u32) & 0xFF == c.b,
        hex < 0x1000000 ==> ((hex >> 16) & 0xFF) * 0x10000 + ((hex >> 8) & 0xFF) * 0x100 + (hex
            & 0xFF) == hex,
{
    let r = c.r;
    let g = c.g;
    let b = c.b;
    let h32 = ((r as u32) << 16) | ((g as u32) << 8) | (b as u32);
    assert(((r as u32) << 16) | ((g as u32) << 8) | (b as u32) == (r as u32) * 0x10000 + (g as u32)
        * 0x100 + (b as u32)) by (bit_vector);
    assert(packed(c) as u32 == h32);
    assert((h32 >> 16) & 0xFF == r && (h32 >> 8) & 0xFF == g && h32 & 0xFF == b) by (bit_vector)
        requires
            h32 == ((r as u32) << 16) | ((g as u32) << 8) | (b as u32),
    ;
    assert(hex < 0x1000000 ==> ((hex >> 16) & 0xFF) * 0x10000 + ((hex >> 8) & 0xFF) * 0x100 + (hex
        & 0xFF) == hex) by (bit_vector);
}

fn clamp_u8(v: i32) -> (r: u8)
    ensures
        r == clamp_channel(v as int),
{
    if v < 0 {
        0
    } else if v > 255 {
        255
    } else {
        v as u8
    }
}

fn sat_add_u8(a: u8, b: u8) -> (r: u8)
    ensures
        r == if a + b > 255 { 255int } else { a + b },
{
    if a as u16 + b as u16 > 255 {
        255
    } else {
        a + b
    }
}

} // verus!
