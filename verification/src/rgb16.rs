//! The color type and the channel-precision conversions.
//!
//! All palette and per-pixel arithmetic runs on 16-bit channels; an 8-bit
//! source channel is widened by multiplying by 257, which covers 0..65535
//! exactly and invertibly. Projection back to 8 bits rounds to the nearest
//! value: `(v + 128) / 257`, truncated.

use vstd::prelude::*;

verus! {

/// A color with three unsigned 16-bit channels.
#[derive(Clone, Copy, Debug, PartialEq, Eq, Structural)]
pub struct Rgb16 {
    pub r: u16,
    pub g: u16,
    pub b: u16,
}

impl Default for Rgb16 {
    /// Pure black, the fallback color for degenerate inputs.
    fn default() -> (c: Rgb16)
        ensures
            c == (Rgb16 { r: 0, g: 0, b: 0 }),
    {
        Rgb16 { r: 0, g: 0, b: 0 }
    }
}

/// Nearest-integer projection of a 16-bit channel onto 0..255.
pub open spec fn u16_to_u8_spec(v: u16) -> u8 {
    (((v as int) + 128) / 257) as u8
}

/// The 8-bit projection of a 16-bit color, channel by channel.
pub open spec fn proj8_spec(c: Rgb16) -> (u8, u8, u8) {
    (u16_to_u8_spec(c.r), u16_to_u8_spec(c.g), u16_to_u8_spec(c.b))
}

proof fn lemma_u16_to_u8_in_range(v: u16)
    ensures
        0 <= ((v as int) + 128) / 257 <= 255,
{
    assert(((v as int) + 128) / 257 <= 65663int / 257) by {
        vstd::arithmetic::div_mod::lemma_div_is_ordered((v as int) + 128, 65663, 257);
    }
}

pub fn u16_to_u8(v: u16) -> (r: u8)
    ensures
        r == u16_to_u8_spec(v),
{
    proof {
        lemma_u16_to_u8_in_range(v);
    }
    (((v as u32) + 128) / 257) as u8
}

/// Widening a rounded channel back through the projection returns the
/// original 8-bit value: the expansion by 257 is exactly invertible.
pub proof fn lemma_expand_then_project(v: u8)
    ensures
        u16_to_u8_spec((v * 257) as u16) == v,
{
    assert((v * 257 + 128) / 257 == v as int) by {
        vstd::arithmetic::div_mod::lemma_div_multiples_vanish_fancy(v as int, 128, 257);
    }
}

/// Clamp of a signed intermediate value onto the valid 16-bit range.
pub open spec fn clamp_u16_spec(v: int) -> u16 {
    if v < 0 {
        0
    } else if v > 65535 {
        65535
    } else {
        v as u16
    }
}

pub fn clamp_u16_i32(v: i32) -> (r: u16)
    ensures
        r == clamp_u16_spec(v as int),
{
    if v < 0 {
        0
    } else if v > 65535 {
        65535
    } else {
        v as u16
    }
}

/// A color packed as `r * 65536 + g * 256 + b`: one key per 8-bit RGB triple.
pub open spec fn pack_rgb_spec(r: u8, g: u8, b: u8) -> u32 {
    ((r as int) * 0x10000 + (g as int) * 0x100 + (b as int)) as u32
}

pub fn pack_rgb(r: u8, g: u8, b: u8) -> (p: u32)
    ensures
        p == pack_rgb_spec(r, g, b),
{
    proof {
        assert(((r as u32) << 16) | ((g as u32) << 8) | (b as u32) == (r as u32) * 0x10000 + (
        g as u32) * 0x100 + (b as u32)) by (bit_vector);
    }
    ((r as u32) << 16) | ((g as u32) << 8) | (b as u32)
}

/// Distinct RGB triples pack to distinct keys.
pub proof fn lemma_pack_rgb_injective(r1: u8, g1: u8, b1: u8, r2: u8, g2: u8, b2: u8)
    requires
        pack_rgb_spec(r1, g1, b1) == pack_rgb_spec(r2, g2, b2),
    ensures
        r1 == r2 && g1 == g2 && b1 == b2,
{
    assert((r1 == r2 && g1 == g2 && b1 == b2) || (r1 as u32) * 0x10000 + (g1 as u32) * 0x100 + (
    b1 as u32) != (r2 as u32) * 0x10000 + (g2 as u32) * 0x100 + (b2 as u32)) by (bit_vector);
}

/// Truncating projection (top byte of each channel), used for display colors.
pub open spec fn rgb16_to_u8_spec(c: Rgb16) -> (u8, u8, u8) {
    ((c.r as int / 256) as u8, (c.g as int / 256) as u8, (c.b as int / 256) as u8)
}

pub fn rgb16_to_u8(c: Rgb16) -> (t: (u8, u8, u8))
    ensures
        t == rgb16_to_u8_spec(c),
{
    proof {
        assert(forall|v: u16| (v >> 8) == #[trigger] (v / 256)) by (bit_vector);
    }
    ((c.r >> 8) as u8, (c.g >> 8) as u8, (c.b >> 8) as u8)
}

/// Rounding projection of a whole color, the one the quantized buffers use.
pub fn rgb16_to_u8_exact(c: Rgb16) -> (t: (u8, u8, u8))
    ensures
        t == proj8_spec(c),
{
    (u16_to_u8(c.r), u16_to_u8(c.g), u16_to_u8(c.b))
}

/// Widening of an 8-bit buffer to 16-bit working precision, value by value.
pub fn rgba8_to_rgba16(src: &[u8], dst: &mut Vec<u16>)
    ensures
        final (dst)@.len() == src@.len(),
        forall|i: int|
            0 <= i < src@.len() ==> final (dst)@[i] == (src@[i] as int) * 257,
{
    dst.clear();
    let n: usize = src.len();
    let mut i: usize = 0;
    while i < n
        invariant
            n == src@.len(),
            0 <= i <= n,
            dst@.len() == i,
            forall|j: int| 0 <= j < i ==> dst@[j] == (src@[j] as int) * 257,
        decreases n - i,
    {
        dst.push((src[i] as u16) * 257);
        i += 1;
    }
}

} // verus!
