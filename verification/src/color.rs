use vstd::prelude::*;

verus! {

/// An opaque 24-bit RGB colour.
#[derive(Debug, Clone, Copy, PartialEq, Eq, Structural)]
pub struct Color {
    pub r: u8,
    pub g: u8,
    pub b: u8,
}

/// The packed `0xRRGGBB` value of a colour.
pub open spec fn hex_of(r: u8, g: u8, b: u8) -> int {
    r as int * 65536 + g as int * 256 + b as int
}

/// A channel moved by a signed amount and clamped into `0..=255`.
pub open spec fn clamp_channel(channel: u8, amount: i16) -> u8 {
    let v = channel as int + amount as int;
    if v < 0 {
        0
    } else if v > 255 {
        255
    } else {
        v as u8
    }
}

/// A channel raised by an amount, saturating at 255.
pub open spec fn saturate_channel(channel: u8, amount: u8) -> u8 {
    if channel as int + amount as int > 255 {
        255
    } else {
        (channel + amount) as u8
    }
}

impl Color {
    pub fn new(r: u8, g: u8, b: u8) -> (c: Self)
        ensures
            c.r == r,
            c.g == g,
            c.b == b,
    {
        Self { r, g, b }
    }

    /// Packs the colour as `0xRRGGBB`.
    pub fn to_hex(self) -> (hex: u32)
        ensures
            hex == hex_of(self.r, self.g, self.b),
            hex < 0x0100_0000,
    {
        let r = self.r as u32;
        let g = self.g as u32;
        let b = self.b as u32;
        assert(((r << 16u32) | (g << 8u32) | b) == r * 65536 + g * 256 + b) by (bit_vector)
            requires
                r < 256,
                g < 256,
                b < 256,
        ;
        (r << 16) | (g << 8) | b
    }
}

/// Lightens every channel by `amount`, saturating at 255.
pub fn tint(color: Color, amount: u8) -> (c: Color)
    ensures
        c.r == saturate_channel(color.r, amount),
        c.g == saturate_channel(color.g, amount),
        c.b == saturate_channel(color.b, amount),
{
    Color::new(
        color.r.saturating_add(amount),
        color.g.saturating_add(amount),
        color.b.saturating_add(amount),
    )
}

fn shade_channel(channel: u8, amount: i16) -> (c: u8)
    requires
        channel as int + amount as int <= i16::MAX,
    ensures
        c == clamp_channel(channel, amount),
{
    let v: i16 = channel as i16 + amount;
    if v < 0 {
        0
    } else if v > 255 {
        255
    } else {
        v as u8
    }
}

/// Moves every channel by a signed amount, clamped into `0..=255`.
pub fn shade(color: Color, amount: i16) -> (c: Color)
    requires
        color.r as int + amount as int <= i16::MAX,
        color.g as int + amount as int <= i16::MAX,
        color.b as int + amount as int <= i16::MAX,
    ensures
        c.r == clamp_channel(color.r, amount),
        c.g == clamp_channel(color.g, amount),
        c.b == clamp_channel(color.b, amount),
{
    Color::new(
        shade_channel(color.r, amount),
        shade_channel(color.g, amount),
        shade_channel(color.b, amount),
    )
}

/// Distinct colours have distinct packed values.
pub proof fn lemma_hex_injective(a: Color, b: Color)
    requires
        hex_of(a.r, a.g, a.b) == hex_of(b.r, b.g, b.b),
    ensures
        a == b,
{
}

} // verus!
