//! GUI font anti-alias colour blend.

use vstd::prelude::*;
use crate::bits::{rotr8, rotate_right8};

verus! {

/// Differential PRNG seed of the blend corpus.
pub const ANTI_ALIASING_PRNG_SEED: u32 = 0xAA11_A51A;

/// One blended channel: `(3 * fg + bg) / 4`.
pub open spec fn spec_blend(fg: u32, bg: u32) -> u32 {
    (((fg & 0xFF) * 3 + (bg & 0xFF)) as u32) >> 2u32
}

/// The blended dword: the three low byte lanes are each `(3 * fg + bg) / 4`,
/// the high lane is `fg`'s own.
pub open spec fn spec_anti_aliasing(fg: u32, bg: u32) -> u32 {
    (fg & 0xFF00_0000)
        | (spec_blend(fg >> 16u32, bg >> 16u32) << 16u32)
        | (spec_blend(fg >> 8u32, bg >> 8u32) << 8u32)
        | spec_blend(fg, bg)
}

/// Blend one 8-bit channel: `(3 * fg + bg) >> 2`.
pub fn blend_byte(fg: u8, bg: u8) -> (r: u8)
    ensures
        r as u32 == spec_blend(fg as u32, bg as u32),
{
    let mixed: u32 = (fg as u32) * 3 + (bg as u32);
    let r = (mixed >> 2) as u8;
    assert(r as u32 == spec_blend(fg as u32, bg as u32)) by (bit_vector)
        requires mixed == (fg as u32) * 3 + (bg as u32), r == (mixed >> 2u32) as u8;
    r
}

/// One round of the blend loop: replace the low lane by the blend of the two
/// low lanes, then rotate both registers right by one lane.
pub open spec fn aa_round(eax: u32, ebx: u32) -> (u32, u32) {
    (rotr8((eax & 0xFFFF_FF00) | spec_blend(eax, ebx)), rotr8(ebx))
}

/// Font anti-aliasing blend of `fg` (neighbouring pixel) toward `bg` (font colour).
///
/// Only the three low byte lanes are blended; the high byte of `fg` is kept.
#[verifier::loop_isolation(false)]
pub fn anti_aliasing(fg: u32, bg: u32) -> (r: u32)
    ensures
        r == spec_anti_aliasing(fg, bg),
{
    let mut eax = fg;
    let mut ebx = bg;
    let ghost e0 = fg;
    let ghost b0 = bg;
    let ghost (e1, b1) = aa_round(e0, b0);
    let ghost (e2, b2) = aa_round(e1, b1);
    let ghost (e3, b3) = aa_round(e2, b2);
    let mut bp: u16 = 3;
    while bp > 0
        invariant
            bp <= 3,
            bp == 3 ==> eax == e0 && ebx == b0,
            bp == 2 ==> eax == e1 && ebx == b1,
            bp == 1 ==> eax == e2 && ebx == b2,
            bp == 0 ==> eax == e3 && ebx == b3,
        decreases bp,
    {
        let out = blend_byte(eax as u8, ebx as u8);
        assert(out as u32 == spec_blend(eax, ebx)) by (bit_vector)
            requires out as u32 == spec_blend((eax as u8) as u32, (ebx as u8) as u32);
        eax = rotate_right8((eax & 0xFFFF_FF00) | (out as u32));
        ebx = rotate_right8(ebx);
        bp = bp - 1;
    }
    let r = rotate_right8(eax);
    assert(r == spec_anti_aliasing(fg, bg)) by (bit_vector)
        requires
            e0 == fg, b0 == bg,
            e1 == rotr8((e0 & 0xFFFF_FF00) | spec_blend(e0, b0)), b1 == rotr8(b0),
            e2 == rotr8((e1 & 0xFFFF_FF00) | spec_blend(e1, b1)), b2 == rotr8(b1),
            e3 == rotr8((e2 & 0xFFFF_FF00) | spec_blend(e2, b2)),
            eax == e3, r == rotr8(eax);
    r
}

/// Blending a colour with itself returns it unchanged.
pub proof fn law_anti_aliasing_same_colour(c: u32)
    ensures
        spec_anti_aliasing(c, c) == c,
{
    assert(spec_anti_aliasing(c, c) == c) by (bit_vector);
}

/// The high byte of the result is always the high byte of `fg`.
pub proof fn law_anti_aliasing_keeps_high_byte(fg: u32, bg: u32)
    ensures
        spec_anti_aliasing(fg, bg) >> 24u32 == fg >> 24u32,
{
    assert(spec_anti_aliasing(fg, bg) >> 24u32 == fg >> 24u32) by (bit_vector);
}

} // verus!
