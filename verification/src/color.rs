//! Colors as triples of 8-bit channel intensities.

use vstd::prelude::*;

verus! {

/// A color value: red, green and blue intensities.
///
/// Two colors are equal exactly when all three channels match.
#[derive(Debug, Clone, Copy, PartialEq, Eq, Structural)]
pub struct Color {
    pub red: u8,
    pub green: u8,
    pub blue: u8,
}

/// The sum of two channel intensities, held at 255 where it would exceed it.
pub open spec fn channel_sum(a: u8, b: u8) -> u8 {
    if a + b > 255 {
        255u8
    } else {
        (a + b) as u8
    }
}

impl Color {
    /// The 24-bit number `0xRRGGBB` that packs this color.
    pub open spec fn hex(self) -> int {
        self.red * 65536 + self.green * 256 + self.blue
    }

    /// The color packed in the low 24 bits of `hex`; higher bits do not count.
    pub open spec fn of_hex(hex: int) -> Color {
        Color {
            red: ((hex / 65536) % 256) as u8,
            green: ((hex / 256) % 256) as u8,
            blue: (hex % 256) as u8,
        }
    }

    /// The channel-wise saturating sum of two colors.
    pub open spec fn sum(self, other: Color) -> Color {
        Color {
            red: channel_sum(self.red, other.red),
            green: channel_sum(self.green, other.green),
            blue: channel_sum(self.blue, other.blue),
        }
    }

    /// Builds a color from its three channels.
    pub fn new(red: u8, green: u8, blue: u8) -> (color: Self)
        ensures
            color == (Color { red, green, blue }),
    {
        Self { red, green, blue }
    }

    /// Unpacks a color from a number of the form `0xRRGGBB`.
    pub fn from_hex(hex: u32) -> (color: Self)
        ensures
            color == Color::of_hex(hex as int),
    {
        let r: u32 = (hex >> 16) & 0xFF;
        let g: u32 = (hex >> 8) & 0xFF;
        let b: u32 = hex & 0xFF;
        assert(r == (hex / 65536) % 256 && g == (hex / 256) % 256 && b == hex % 256) by (bit_vector)
            requires
                r == (hex >> 16) & 0xFF,
                g == (hex >> 8) & 0xFF,
                b == hex & 0xFF,
        ;
        Self { red: r as u8, green: g as u8, blue: b as u8 }
    }

    /// Packs the color into a number of the form `0xRRGGBB`.
    pub fn to_hex(&self) -> (hex: u32)
        ensures
            hex == self.hex(),
            hex <= 0xFFFFFF,
    {
        let r: u32 = self.red as u32;
        let g: u32 = self.green as u32;
        let b: u32 = self.blue as u32;
        let packed: u32 = (r << 16) | (g << 8) | b;
        assert(packed == r * 65536 + g * 256 + b) by (bit_vector)
            requires
                r < 256,
                g < 256,
                b < 256,
                packed == (r << 16) | (g << 8) | b,
        ;
        packed
    }

    /// Adds two colors channel by channel; a channel that would pass 255 stays at 255.
    pub fn add(&self, other: Color) -> (sum: Self)
        ensures
            sum == self.sum(other),
    {
        Self {
            red: self.red.saturating_add(other.red),
            green: self.green.saturating_add(other.green),
            blue: self.blue.saturating_add(other.blue),
        }
    }
}

/// Unpacking the packed form of a color gives the color back.
pub proof fn lemma_hex_of_color_round_trip(color: Color)
    ensures
        Color::of_hex(color.hex()) == color,
        0 <= color.hex() <= 0xFFFFFF,
{
}

/// Packing the color unpacked from a 24-bit number gives the number back.
pub proof fn lemma_color_of_hex_round_trip(hex: int)
    requires
        0 <= hex <= 0xFFFFFF,
    ensures
        Color::of_hex(hex).hex() == hex,
{
}

/// Bits above the low 24 have no effect on the color that a number unpacks to.
pub proof fn lemma_of_hex_ignores_high_bits(hex: int)
    requires
        0 <= hex,
    ensures
        Color::of_hex(hex) == Color::of_hex(hex % 0x1000000),
{
    let q = hex / 0x1000000;
    let r = hex % 0x1000000;
    assert(hex == q * 0x1000000 + r);
    assert(hex / 65536 == q * 256 + r / 65536);
    assert(hex / 256 == q * 65536 + r / 256);
}

} // verus!
