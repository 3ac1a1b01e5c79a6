//! EXT inode number to sector and in-sector byte offset.

use vstd::prelude::*;
use crate::wrap::{mod32, lemma_wsub32, lemma_wmul32, lemma_wadd32};

verus! {

/// Differential PRNG seed of the inode-location corpus.
pub const GET_INODE_LOCATION_PRNG_SEED: u32 = 0x4749_4C4F;

/// Group-descriptor offsets of the inode-table block number halves.
pub const BGDESCR_INODE_TABLE_LO: usize = 0x08;
pub const BGDESCR_INODE_TABLE_HI: usize = 0x28;

/// Location of an inode: the 64-bit sector as `(lo, hi)` and the byte offset in it.
///
/// With `idx = (inode - 1) mod 2^32` and `in_group = idx % inodes_per_group`,
/// `bytes = in_group * inode_size` (mod 2^32); the sector is
/// `lo * spb + ((hi * spb) mod 2^32) * 2^32 + bytes / 512` taken modulo 2^64,
/// and the offset is `bytes % 512`. A zero `inodes_per_group` gives `(0, 0, 0)`.
pub open spec fn spec_inode_location(inode: u32, inodes_per_group: u32, lo: u32, hi: u32, spb: u32, inode_size: u32) -> (u32, u32, u32) {
    if inodes_per_group == 0 {
        (0, 0, 0)
    } else {
        let in_group = mod32(inode - 1) % inodes_per_group;
        let bytes = mod32(in_group * inode_size);
        let sector = (lo as int * spb as int + mod32(hi * spb) as int * 0x1_0000_0000 + bytes / 512)
            % 0x1_0000_0000_0000_0000;
        ((sector % 0x1_0000_0000) as u32, (sector / 0x1_0000_0000) as u32, (bytes % 512) as u32)
    }
}

/// Sector (low and high dwords) and in-sector offset of `inode` after the
/// group descriptor has supplied the inode-table block (`inode_table_hi` is
/// already zero when the descriptor has no high half).
pub fn get_inode_location(
    inode: u32,
    inodes_per_group: u32,
    inode_table_lo: u32,
    inode_table_hi: u32,
    sectors_per_block: u32,
    inode_size: u32,
) -> (r: (u32, u32, u32))
    ensures
        r == spec_inode_location(inode, inodes_per_group, inode_table_lo, inode_table_hi, sectors_per_block, inode_size),
{
    if inodes_per_group == 0 {
        return (0, 0, 0);
    }
    let index = inode.wrapping_sub(1);
    let index_in_group = index % inodes_per_group;
    let hi_scaled = inode_table_hi.wrapping_mul(sectors_per_block);
    assert((inode_table_lo as int) * (sectors_per_block as int) <= 0xFFFF_FFFE_0000_0001) by (nonlinear_arith)
        requires inode_table_lo <= 0xFFFF_FFFFu32, sectors_per_block <= 0xFFFF_FFFFu32;
    let lo_prod: u64 = (inode_table_lo as u64) * (sectors_per_block as u64);
    let sector_lo = (lo_prod & 0xFFFF_FFFF) as u32;
    let sector_hi0 = ((lo_prod >> 32) as u32).wrapping_add(hi_scaled);
    let byte_ofs = index_in_group.wrapping_mul(inode_size);
    let sector_bump = byte_ofs >> 9;
    let offset = byte_ofs & 511;
    let lo2 = sector_lo.wrapping_add(sector_bump);
    let carry: u32 = if (sector_lo as u64) + (sector_bump as u64) > 0xFFFF_FFFF { 1 } else { 0 };
    let sector_hi = sector_hi0.wrapping_add(carry);
    proof {
        lemma_wsub32(inode, 1);
        lemma_wmul32(inode_table_hi, sectors_per_block);
        lemma_wmul32(index_in_group, inode_size);
        lemma_wadd32(sector_lo, sector_bump);
        lemma_wadd32((lo_prod >> 32) as u32, hi_scaled);
        lemma_wadd32(sector_hi0, carry);
        let p = lo_prod as int;
        assert(sector_lo as u64 == lo_prod % 0x1_0000_0000 && ((lo_prod >> 32u64) as u32) as u64 == lo_prod / 0x1_0000_0000) by (bit_vector)
            requires sector_lo == (lo_prod & 0xFFFF_FFFF) as u32;
        assert(sector_bump == byte_ofs / 512 && offset == byte_ofs % 512) by (bit_vector)
            requires sector_bump == byte_ofs >> 9u32, offset == byte_ofs & 511;
        let bytes = byte_ofs as int;
        let total = p + hi_scaled as int * 0x1_0000_0000 + bytes / 512;
        let m64: int = 0x1_0000_0000_0000_0000;
        let m32: int = 0x1_0000_0000;
        // total = lo2 + 2^32 * (p / 2^32 + hi_scaled + carry)
        assert(p == (p / m32) * m32 + p % m32);
        assert(sector_lo as int + sector_bump as int == lo2 as int + carry as int * m32);
        assert(total == lo2 as int + m32 * ((p / m32) + hi_scaled as int + carry as int)) by (nonlinear_arith)
            requires
                total == p + hi_scaled as int * m32 + bytes / 512,
                p == (p / m32) * m32 + sector_lo as int,
                sector_lo as int + sector_bump as int == lo2 as int + carry as int * m32,
                sector_bump as int == bytes / 512;
        let q = (p / m32) + hi_scaled as int + carry as int;
        assert(sector_hi as int == q % m32);
        assert(total % m64 == lo2 as int + m32 * (q % m32)) by (nonlinear_arith)
            requires total == lo2 as int + m32 * q, 0 <= lo2 < m32, q >= 0, m64 == m32 * m32, m32 > 0;
        assert((total % m64) % m32 == lo2 as int) by (nonlinear_arith)
            requires total % m64 == lo2 as int + m32 * (q % m32), 0 <= lo2 < m32, m32 > 0, q % m32 >= 0;
        assert((total % m64) / m32 == q % m32) by (nonlinear_arith)
            requires total % m64 == lo2 as int + m32 * (q % m32), 0 <= lo2 < m32, m32 > 0, q % m32 >= 0;
    }
    (lo2, sector_hi, offset)
}

/// Documentation alias of [`get_inode_location`]; `_desc_shift` is not used
/// because the caller has already gated `inode_table_hi_raw` on it.
pub fn get_inode_location_math(
    inode: u32,
    inodes_per_group: u32,
    _desc_shift: u32,
    inode_table_lo: u32,
    inode_table_hi_raw: u32,
    sectors_per_block: u32,
    inode_size: u32,
) -> (r: (u32, u32, u32))
    ensures
        r == spec_inode_location(inode, inodes_per_group, inode_table_lo, inode_table_hi_raw, sectors_per_block, inode_size),
{
    get_inode_location(inode, inodes_per_group, inode_table_lo, inode_table_hi_raw, sectors_per_block, inode_size)
}

} // verus!
