//! PE/COFF section Characteristics to alignment mask.

use vstd::prelude::*;
use crate::le::{le_u32, put_u32, read_u32_le, write_u32_le_arr};

verus! {

/// Differential PRNG seed of the alignment corpus.
pub const COFF_GET_ALIGN_PRNG_SEED: u32 = 0x4355_424B;

/// `COFF_SECTION.Characteristics` offset.
pub const OFF_CHARACTERISTICS: usize = 36;

/// Byte of Characteristics holding bits 16..23.
pub const OFF_CHARACTERISTICS_ALIGN_BYTE: usize = 38;

/// Size of a `COFF_SECTION` header.
pub const SECTION_BUF_LEN: usize = 40;

/// Default and clamp alignment exponent (4 KiB).
pub const ALIGN_EXP_DEFAULT: u32 = 12;

/// Alignment exponent encoded by bits 20..23 (log2 + 1; absent or above 4 KiB
/// gives the 4 KiB default).
pub open spec fn spec_align_exp(characteristics: u32) -> u32 {
    let field = (characteristics >> 20u32) & 0xF;
    if field == 0 || field - 1 > 12 {
        12
    } else {
        (field - 1) as u32
    }
}

/// Alignment mask `2^exp - 1`.
pub open spec fn spec_align_mask(characteristics: u32) -> u32 {
    ((1u32 << spec_align_exp(characteristics)) - 1) as u32
}

/// Alignment mask of a section from its Characteristics dword.
pub fn coff_get_align_from_characteristics(characteristics: u32) -> (r: u32)
    ensures
        r == spec_align_mask(characteristics),
        r <= 0xFFF,
        r & (r + 1) as u32 == 0,
{
    let mut cl: u32 = ((characteristics >> 16) & 0xff) >> 4;
    assert(cl == (characteristics >> 20u32) & 0xF) by (bit_vector)
        requires cl == ((characteristics >> 16u32) & 0xff) >> 4u32;
    if cl == 0 {
        cl = ALIGN_EXP_DEFAULT;
    } else {
        cl = cl - 1;
        if cl > ALIGN_EXP_DEFAULT {
            cl = ALIGN_EXP_DEFAULT;
        }
    }
    assert(1u32 << cl >= 1) by (bit_vector)
        requires cl <= 12;
    let r = (1u32 << cl) - 1;
    assert(r <= 0xFFF && r & (r + 1) as u32 == 0) by (bit_vector)
        requires cl <= 12, r == ((1u32 << cl) - 1) as u32;
    r
}

/// A zeroed section header whose Characteristics dword is `characteristics`.
pub fn make_section_chars(characteristics: u32) -> (r: [u8; 40])
    ensures
        r@ == put_u32(Seq::new(40, |i: int| 0u8), 36, characteristics),
        le_u32(r@, 36) == characteristics,
{
    let mut buf = [0u8; 40];
    assert(buf@ =~= Seq::new(40, |i: int| 0u8));
    write_u32_le_arr(&mut buf, OFF_CHARACTERISTICS, characteristics);
    proof { crate::le::lemma_le_u32_put(Seq::new(40, |i: int| 0u8), 36, characteristics); }
    buf
}

/// Alignment mask read from a section header held in a byte buffer.
pub fn coff_get_align_section(section: &[u8]) -> (r: u32)
    requires
        section.len() >= 40,
    ensures
        r == spec_align_mask(le_u32(section@, 36)),
{
    let characteristics = read_u32_le(section, OFF_CHARACTERISTICS);
    coff_get_align_from_characteristics(characteristics)
}

/// Only bits 20..23 of Characteristics decide the mask.
pub proof fn law_align_only_high_nibble(a: u32, b: u32)
    requires
        (a >> 20u32) & 0xF == (b >> 20u32) & 0xF,
    ensures
        spec_align_mask(a) == spec_align_mask(b),
{
}

} // verus!
