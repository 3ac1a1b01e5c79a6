//! Pixel colour arithmetic: sub-pixel glyph edge blends and RGB565 packing.

use vstd::prelude::*;
use crate::bits::{rot16, rotate16, low8, byte_at};

verus! {

/// Seed of the glyph-drawing PRNG corpus.
pub const DRAW_CHAR_PRNG_SEED: u32 = 0x4443_4852;

/// Size in bytes of the glyph-drawing trampoline context.
pub const DRAW_CHAR_CTX_SIZE: usize = 40;

/// Seed of the 32-bpp blit PRNG corpus.
pub const BLIT32_PRNG_SEED: u32 = 0x4233_3220;

/// Flag in the blit destination selecting client-relative coordinates.
pub const BLIT_CLIENT_RELATIVE: u32 = 0x2000_0000;

/// Blit parameter block layout.
pub const PARAM_OFF_DST_X: usize = 0;
pub const PARAM_OFF_DST_Y: usize = 4;
pub const PARAM_OFF_W: usize = 8;
pub const PARAM_OFF_H: usize = 12;
pub const PARAM_OFF_SRC_X: usize = 16;
pub const PARAM_OFF_SRC_Y: usize = 20;
pub const PARAM_OFF_SRC_W: usize = 24;
pub const PARAM_OFF_SRC_H: usize = 28;
pub const PARAM_OFF_BITMAP: usize = 32;
pub const PARAM_OFF_STRIDE: usize = 36;
pub const PARAM_SIZE: usize = 40;

/// Size in bytes of the 32-bpp blit trampoline context.
pub const BLIT32_CTX_SIZE: usize = 68;

/// Left-edge sub-pixel blend of a neighbouring pixel toward the font colour:
/// blue `(11 * font + 5 * neigh) / 16`, green `(11 * neigh + 5 * font) / 16`,
/// red `(7 * neigh + font) / 8`; the top byte is the neighbour's.
pub open spec fn spec_subpixel_left(neigh: u32, font: u32) -> u32 {
    let nb = neigh & 0xFF;
    let ng = (neigh >> 8u32) & 0xFF;
    let nr = (neigh >> 16u32) & 0xFF;
    let fb = font & 0xFF;
    let fg = (font >> 8u32) & 0xFF;
    let fr = (font >> 16u32) & 0xFF;
    let b = ((fb * 11 + nb * 5) as u32) >> 4u32;
    let g = ((ng * 11 + fg * 5) as u32) >> 4u32;
    let r = ((nr * 7 + fr) as u32) >> 3u32;
    (neigh & 0xFF00_0000) | (r << 16u32) | (g << 8u32) | b
}

/// Right-edge sub-pixel blend: blue `(7 * neigh + font) / 8`, green
/// `(11 * neigh + 5 * font) / 16`, red `(11 * font + 5 * neigh) / 16`.
pub open spec fn spec_subpixel_right(neigh: u32, font: u32) -> u32 {
    let nb = neigh & 0xFF;
    let ng = (neigh >> 8u32) & 0xFF;
    let nr = (neigh >> 16u32) & 0xFF;
    let fb = font & 0xFF;
    let fg = (font >> 8u32) & 0xFF;
    let fr = (font >> 16u32) & 0xFF;
    let b = ((nb * 7 + fb) as u32) >> 3u32;
    let g = ((ng * 11 + fg * 5) as u32) >> 4u32;
    let r = ((fr * 11 + nr * 5) as u32) >> 4u32;
    (neigh & 0xFF00_0000) | (r << 16u32) | (g << 8u32) | b
}

/// Colour channel `shift` (0 blue, 8 green, 16 red, 24 the top byte).
pub open spec fn channel(c: u32, shift: u32) -> int {
    ((c >> shift) & 0xFF) as int
}

/// `x` lies between `a` and `b` (inclusive).
pub open spec fn between(x: int, a: int, b: int) -> bool {
    (a <= x <= b) || (b <= x <= a)
}

/// `|a - b|`.
pub open spec fn dist(a: int, b: int) -> int {
    if a >= b { a - b } else { b - a }
}

proof fn lemma_blend_channels(n: u32, f: u32)
    ensures
        channel(spec_subpixel_left(n, f), 0) == (channel(f, 0) * 11 + channel(n, 0) * 5) / 16,
        channel(spec_subpixel_left(n, f), 8) == (channel(n, 8) * 11 + channel(f, 8) * 5) / 16,
        channel(spec_subpixel_left(n, f), 16) == (channel(n, 16) * 7 + channel(f, 16)) / 8,
        channel(spec_subpixel_left(n, f), 24) == channel(n, 24),
        channel(spec_subpixel_right(n, f), 0) == (channel(n, 0) * 7 + channel(f, 0)) / 8,
        channel(spec_subpixel_right(n, f), 8) == (channel(n, 8) * 11 + channel(f, 8) * 5) / 16,
        channel(spec_subpixel_right(n, f), 16) == (channel(f, 16) * 11 + channel(n, 16) * 5) / 16,
        channel(spec_subpixel_right(n, f), 24) == channel(n, 24),
        0 <= channel(n, 0) <= 255 && 0 <= channel(n, 8) <= 255 && 0 <= channel(n, 16) <= 255,
        0 <= channel(f, 0) <= 255 && 0 <= channel(f, 8) <= 255 && 0 <= channel(f, 16) <= 255,
{
    assert(
        ((spec_subpixel_left(n, f) >> 0u32) & 0xFF) == ((((f >> 0u32) & 0xFF) * 11 + ((n >> 0u32) & 0xFF) * 5) as u32) / 16
        && ((spec_subpixel_left(n, f) >> 8u32) & 0xFF) == ((((n >> 8u32) & 0xFF) * 11 + ((f >> 8u32) & 0xFF) * 5) as u32) / 16
        && ((spec_subpixel_left(n, f) >> 16u32) & 0xFF) == ((((n >> 16u32) & 0xFF) * 7 + ((f >> 16u32) & 0xFF)) as u32) / 8
        && ((spec_subpixel_left(n, f) >> 24u32) & 0xFF) == ((n >> 24u32) & 0xFF)
        && ((spec_subpixel_right(n, f) >> 0u32) & 0xFF) == ((((n >> 0u32) & 0xFF) * 7 + ((f >> 0u32) & 0xFF)) as u32) / 8
        && ((spec_subpixel_right(n, f) >> 8u32) & 0xFF) == ((((n >> 8u32) & 0xFF) * 11 + ((f >> 8u32) & 0xFF) * 5) as u32) / 16
        && ((spec_subpixel_right(n, f) >> 16u32) & 0xFF) == ((((f >> 16u32) & 0xFF) * 11 + ((n >> 16u32) & 0xFF) * 5) as u32) / 16
        && ((spec_subpixel_right(n, f) >> 24u32) & 0xFF) == ((n >> 24u32) & 0xFF)
        && ((n >> 0u32) & 0xFF) <= 0xFF && ((n >> 8u32) & 0xFF) <= 0xFF && ((n >> 16u32) & 0xFF) <= 0xFF
        && ((f >> 0u32) & 0xFF) <= 0xFF && ((f >> 8u32) & 0xFF) <= 0xFF && ((f >> 16u32) & 0xFF) <= 0xFF
    ) by (bit_vector);
}

/// Each colour channel of a sub-pixel blend lies between the neighbour's and
/// the font's, stays within its weight of the side that dominates it (left
/// edge: blue toward the font by 11/16, green toward the neighbour by 11/16,
/// red toward the neighbour by 7/8; the right edge mirrors blue and red),
/// and the top byte is the neighbour's.
pub proof fn law_subpixel_blend_between(n: u32, f: u32)
    ensures
        between(channel(spec_subpixel_left(n, f), 0), channel(n, 0), channel(f, 0)),
        between(channel(spec_subpixel_left(n, f), 8), channel(n, 8), channel(f, 8)),
        between(channel(spec_subpixel_left(n, f), 16), channel(n, 16), channel(f, 16)),
        between(channel(spec_subpixel_right(n, f), 0), channel(n, 0), channel(f, 0)),
        between(channel(spec_subpixel_right(n, f), 8), channel(n, 8), channel(f, 8)),
        between(channel(spec_subpixel_right(n, f), 16), channel(n, 16), channel(f, 16)),
        16 * dist(channel(spec_subpixel_left(n, f), 0), channel(f, 0)) <= 5 * dist(channel(n, 0), channel(f, 0)) + 15,
        16 * dist(channel(spec_subpixel_left(n, f), 8), channel(n, 8)) <= 5 * dist(channel(f, 8), channel(n, 8)) + 15,
        8 * dist(channel(spec_subpixel_left(n, f), 16), channel(n, 16)) <= dist(channel(f, 16), channel(n, 16)) + 7,
        8 * dist(channel(spec_subpixel_right(n, f), 0), channel(n, 0)) <= dist(channel(f, 0), channel(n, 0)) + 7,
        16 * dist(channel(spec_subpixel_right(n, f), 8), channel(n, 8)) <= 5 * dist(channel(f, 8), channel(n, 8)) + 15,
        16 * dist(channel(spec_subpixel_right(n, f), 16), channel(f, 16)) <= 5 * dist(channel(n, 16), channel(f, 16)) + 15,
        channel(spec_subpixel_left(n, f), 24) == channel(n, 24),
        channel(spec_subpixel_right(n, f), 24) == channel(n, 24),
{
    lemma_blend_channels(n, f);
}

/// Each channel of a sub-pixel blend is the weighted mean of the neighbour's
/// and the font's channel rounded down: left edge blue 11:5 toward the font,
/// green 11:5 toward the neighbour, red 7:1 toward the neighbour; right edge
/// blue 7:1 toward the neighbour, green 11:5 toward the neighbour, red 11:5
/// toward the font.
pub proof fn law_subpixel_weighted_mean(n: u32, f: u32)
    ensures
        16 * channel(spec_subpixel_left(n, f), 0) <= 11 * channel(f, 0) + 5 * channel(n, 0) < 16 * (channel(spec_subpixel_left(n, f), 0) + 1),
        16 * channel(spec_subpixel_left(n, f), 8) <= 11 * channel(n, 8) + 5 * channel(f, 8) < 16 * (channel(spec_subpixel_left(n, f), 8) + 1),
        8 * channel(spec_subpixel_left(n, f), 16) <= 7 * channel(n, 16) + channel(f, 16) < 8 * (channel(spec_subpixel_left(n, f), 16) + 1),
        8 * channel(spec_subpixel_right(n, f), 0) <= 7 * channel(n, 0) + channel(f, 0) < 8 * (channel(spec_subpixel_right(n, f), 0) + 1),
        16 * channel(spec_subpixel_right(n, f), 8) <= 11 * channel(n, 8) + 5 * channel(f, 8) < 16 * (channel(spec_subpixel_right(n, f), 8) + 1),
        16 * channel(spec_subpixel_right(n, f), 16) <= 11 * channel(f, 16) + 5 * channel(n, 16) < 16 * (channel(spec_subpixel_right(n, f), 16) + 1),
{
    lemma_blend_channels(n, f);
}

/// Blending a colour with itself gives that colour, on either edge.
pub proof fn law_subpixel_same_colour(c: u32)
    ensures
        spec_subpixel_left(c, c) == c,
        spec_subpixel_right(c, c) == c,
{
    assert(spec_subpixel_left(c, c) == c && spec_subpixel_right(c, c) == c) by (bit_vector);
}

/// The `lea`-based left-edge blend as the glyph renderer computes it.
pub fn fasm_subpixel_left(neigh: u32, font: u32) -> (r: u32)
    ensures
        r == spec_subpixel_left(neigh, font),
{
    let mut eax = neigh;
    let mut ebx = font;
    let mut ecx: u32 = low8(ebx);
    let mut edx: u32 = ecx * 8 + ecx;
    edx = ecx * 2 + edx;
    ecx = low8(eax);
    ecx = ecx * 4 + ecx;
    edx = edx + ecx;
    edx = edx >> 4;
    eax = (eax & 0xFFFF_FF00) | (edx & 0xFF);
    let ghost s1 = eax;

    ecx = byte_at(eax, 8);
    edx = ecx * 8 + ecx;
    edx = ecx * 2 + edx;
    ecx = byte_at(ebx, 8);
    ecx = ecx * 4 + ecx;
    edx = edx + ecx;
    edx = edx >> 4;
    eax = (eax & 0xFFFF_00FF) | ((edx & 0xFF) << 8);
    let ghost s2 = eax;

    eax = rotate16(eax);
    ebx = rotate16(ebx);
    ecx = low8(eax);
    edx = ecx;
    ecx = ecx * 8;
    ecx = ecx - edx;
    edx = low8(ebx);
    ecx = ecx + edx;
    ecx = ecx >> 3;
    eax = (eax & 0xFFFF_FF00) | (ecx & 0xFF);
    let r = rotate16(eax);
    assert(r == spec_subpixel_left(neigh, font)) by (bit_vector)
        requires
            s1 == (neigh & 0xFFFF_FF00) | (((((font & 0xFF) * 11 + (neigh & 0xFF) * 5) as u32) >> 4u32) & 0xFF),
            s2 == (s1 & 0xFFFF_00FF) | ((((((s1 >> 8u32) & 0xFF) * 11 + ((font >> 8u32) & 0xFF) * 5) as u32 >> 4u32) & 0xFF) << 8u32),
            eax == (rot16(s2) & 0xFFFF_FF00) | ((((rot16(s2) & 0xFF) * 7 + (rot16(font) & 0xFF)) as u32 >> 3u32) & 0xFF),
            r == rot16(eax);
    r
}

/// The `lea`/`shl`-based right-edge blend as the glyph renderer computes it.
pub fn fasm_subpixel_right(neigh: u32, font: u32) -> (r: u32)
    ensures
        r == spec_subpixel_right(neigh, font),
{
    let mut eax = neigh;
    let mut ebx = font;
    let mut ecx: u32 = low8(eax);
    let mut edx: u32 = ecx;
    ecx = ecx * 8;
    ecx = ecx - edx;
    edx = low8(ebx);
    ecx = ecx + edx;
    ecx = ecx >> 3;
    eax = (eax & 0xFFFF_FF00) | (ecx & 0xFF);
    let ghost s1 = eax;

    ecx = byte_at(eax, 8);
    edx = ecx * 8 + ecx;
    edx = ecx * 2 + edx;
    ecx = byte_at(ebx, 8);
    ecx = ecx * 4 + ecx;
    edx = edx + ecx;
    edx = edx >> 4;
    eax = (eax & 0xFFFF_00FF) | ((edx & 0xFF) << 8);
    let ghost s2 = eax;

    ebx = rotate16(ebx);
    eax = rotate16(eax);
    ecx = low8(ebx);
    edx = ecx * 8 + ecx;
    edx = ecx * 2 + edx;
    ecx = low8(eax);
    ecx = ecx * 4 + ecx;
    edx = edx + ecx;
    edx = edx >> 4;
    eax = (eax & 0xFFFF_FF00) | (edx & 0xFF);
    let r = rotate16(eax);
    assert(r == spec_subpixel_right(neigh, font)) by (bit_vector)
        requires
            s1 == (neigh & 0xFFFF_FF00) | (((((neigh & 0xFF) * 7 + (font & 0xFF)) as u32) >> 3u32) & 0xFF),
            s2 == (s1 & 0xFFFF_00FF) | ((((((s1 >> 8u32) & 0xFF) * 11 + ((font >> 8u32) & 0xFF) * 5) as u32 >> 4u32) & 0xFF) << 8u32),
            eax == (rot16(s2) & 0xFFFF_FF00) | ((((rot16(font) & 0xFF) * 11 + (rot16(s2) & 0xFF) * 5) as u32 >> 4u32) & 0xFF),
            r == rot16(eax);
    r
}

/// Weighted left-edge blend computed channel by channel.
pub fn oracle_subpixel_left(neigh: u32, font: u32) -> (r: u32)
    ensures
        r == spec_subpixel_left(neigh, font),
{
    let nb = low8(neigh);
    let ng = byte_at(neigh, 8);
    let nr = byte_at(neigh, 16);
    let fb = low8(font);
    let fg = byte_at(font, 8);
    let fr = byte_at(font, 16);
    let b = (fb * 11 + nb * 5) >> 4;
    let g = (ng * 11 + fg * 5) >> 4;
    let r = (nr * 7 + fr) >> 3;
    (neigh & 0xFF00_0000) | (r << 16) | (g << 8) | b
}

/// Weighted right-edge blend computed channel by channel.
pub fn oracle_subpixel_right(neigh: u32, font: u32) -> (r: u32)
    ensures
        r == spec_subpixel_right(neigh, font),
{
    let nb = low8(neigh);
    let ng = byte_at(neigh, 8);
    let nr = byte_at(neigh, 16);
    let fb = low8(font);
    let fg = byte_at(font, 8);
    let fr = byte_at(font, 16);
    let b = (nb * 7 + fb) >> 3;
    let g = (ng * 11 + fg * 5) >> 4;
    let r = (fr * 11 + nr * 5) >> 4;
    (neigh & 0xFF00_0000) | (r << 16) | (g << 8) | b
}

/// RGB565 of a 24-bit colour: the top 5 red, 6 green and 5 blue bits.
pub open spec fn spec_rgb565(color: u32) -> u16 {
    (((((color >> 16u32) & 0xF8) >> 3u32) << 11u32)
        | ((((color >> 8u32) & 0xFC) >> 2u32) << 5u32)
        | ((color & 0xF8) >> 3u32)) as u16
}

/// RGB565 pack as the blitter's shift sequence computes it.
pub fn fasm_pack_rgb565(color: u32) -> (r: u16)
    ensures
        r == spec_rgb565(color),
{
    let e0 = color & 0x00F8_FCF8;
    let ah = ((e0 >> 8) & 0xFF) >> 2;
    let al = e0 & 0xFF;
    let ax0 = (ah << 8) | al;
    let ax = ax0 >> 3;
    let e1 = (e0 & 0xFFFF_0000) | ax;
    let e2 = (e1 >> 8) | (e1 << 24);
    let lo = (e2 & 0xFF) as u8;
    let hi = ((e2 >> 8) & 0xFF) as u8;
    let sum: u8 = lo.wrapping_add(hi);
    assert(sum as u32 == (((lo as u32) + (hi as u32)) as u32) & 0xFF) by (bit_vector)
        requires sum == (if (lo as u32) + (hi as u32) > 255 { ((lo as u32) + (hi as u32) - 256) as u8 } else { ((lo as u32) + (hi as u32)) as u8 });
    let e3 = (e2 & 0xFFFF_FF00) | (sum as u32);
    let e4 = (e3 << 8) | (e3 >> 24);
    let r = e4 as u16;
    assert(r == spec_rgb565(color)) by (bit_vector)
        requires
            e0 == color & 0x00F8_FCF8,
            ah == ((e0 >> 8u32) & 0xFF) >> 2u32,
            al == e0 & 0xFF,
            ax0 == (ah << 8u32) | al,
            ax == ax0 >> 3u32,
            e1 == (e0 & 0xFFFF_0000) | ax,
            e2 == (e1 >> 8u32) | (e1 << 24u32),
            lo == (e2 & 0xFF) as u8,
            hi == ((e2 >> 8u32) & 0xFF) as u8,
            sum as u32 == (((lo as u32) + (hi as u32)) as u32) & 0xFF,
            e3 == (e2 & 0xFFFF_FF00) | (sum as u32),
            e4 == (e3 << 8u32) | (e3 >> 24u32),
            r == e4 as u16;
    r
}

/// RGB565 pack computed field by field.
pub fn independent_pack_rgb565(color: u32) -> (r: u16)
    ensures
        r == spec_rgb565(color),
{
    let r5: u16 = (((color >> 16) & 0xFFFF) as u16 & 0xF8) >> 3;
    let g6: u16 = (((color >> 8) & 0xFFFF) as u16 & 0xFC) >> 2;
    let b5: u16 = ((color & 0xFFFF) as u16 & 0xF8) >> 3;
    let r = (r5 << 11) | (g6 << 5) | b5;
    assert(r == spec_rgb565(color)) by (bit_vector)
        requires
            r5 == (((color >> 16u32) & 0xFFFF) as u16 & 0xF8) >> 3u16,
            g6 == (((color >> 8u32) & 0xFFFF) as u16 & 0xFC) >> 2u16,
            b5 == ((color & 0xFFFF) as u16 & 0xF8) >> 3u16,
            r == (r5 << 11u16) | (g6 << 5u16) | b5;
    r
}

} // verus!
