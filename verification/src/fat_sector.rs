//! FAT / exFAT cluster-and-offset to absolute sector.

use vstd::prelude::*;
use crate::wrap::{mod32, lemma_wsub32, lemma_wmul32, lemma_wadd32, lemma_mod32_add, lemma_mod32_mul};

verus! {

/// Differential PRNG seed of the FAT corpus.
pub const FAT_GET_SECTOR_PRNG_SEED: u32 = 0x4653_4543;

/// Differential PRNG seed of the exFAT corpus.
pub const EXFAT_GET_SECTOR_PRNG_SEED: u32 = 0x4553_4543;

/// `(cluster - 2) * sectors_per_cluster + data_start + sector_ofs`, modulo 2^32.
pub open spec fn spec_cluster_sector(cluster: u32, sector_ofs: u32, sectors_per_cluster: u32, data_start: u32) -> u32 {
    mod32((cluster - 2) * sectors_per_cluster + data_start + sector_ofs)
}

/// Absolute sector of `sector_ofs` within `cluster` (32-bit wrap, including the
/// unsigned underflow of clusters below 2).
pub fn fat_get_sector(cluster: u32, sector_ofs: u32, sectors_per_cluster: u32, data_start: u32) -> (r: u32)
    ensures
        r == spec_cluster_sector(cluster, sector_ofs, sectors_per_cluster, data_start),
{
    let a = cluster.wrapping_sub(2);
    let b = a.wrapping_mul(sectors_per_cluster);
    let c = b.wrapping_add(data_start);
    let r = c.wrapping_add(sector_ofs);
    proof {
        lemma_wsub32(cluster, 2);
        lemma_wmul32(a, sectors_per_cluster);
        lemma_mod32_mul(cluster - 2, sectors_per_cluster as int);
        lemma_wadd32(b, data_start);
        lemma_mod32_add((cluster - 2) * sectors_per_cluster, data_start as int);
        lemma_wadd32(c, sector_ofs);
        lemma_mod32_add((cluster - 2) * sectors_per_cluster + data_start, sector_ofs as int);
    }
    r
}

/// Pair form: `pair[0]` is the cluster, `pair[1]` the sector within it.
pub fn fat_get_sector_pair(pair: &[u32; 2], sectors_per_cluster: u32, data_start: u32) -> (r: u32)
    ensures
        r == spec_cluster_sector(pair[0], pair[1], sectors_per_cluster, data_start),
{
    fat_get_sector(pair[0], pair[1], sectors_per_cluster, data_start)
}

/// exFAT form: the same arithmetic with `CLUSTER_HEAP_START` as the base.
pub fn exfat_get_sector(cluster: u32, sector_ofs: u32, sectors_per_cluster: u32, cluster_heap_start: u32) -> (r: u32)
    ensures
        r == spec_cluster_sector(cluster, sector_ofs, sectors_per_cluster, cluster_heap_start),
{
    fat_get_sector(cluster, sector_ofs, sectors_per_cluster, cluster_heap_start)
}

/// Pair form of [`exfat_get_sector`].
pub fn exfat_get_sector_pair(pair: &[u32; 2], sectors_per_cluster: u32, cluster_heap_start: u32) -> (r: u32)
    ensures
        r == spec_cluster_sector(pair[0], pair[1], sectors_per_cluster, cluster_heap_start),
{
    exfat_get_sector(pair[0], pair[1], sectors_per_cluster, cluster_heap_start)
}

/// Consecutive sectors of one cluster map to consecutive absolute sectors
/// (modulo 2^32).
pub proof fn law_sector_offsets_consecutive(cluster: u32, ofs: u32, spc: u32, base: u32)
    requires
        ofs < u32::MAX,
    ensures
        spec_cluster_sector(cluster, (ofs + 1) as u32, spc, base)
            == mod32(spec_cluster_sector(cluster, ofs, spc, base) + 1),
{
    lemma_mod32_add((cluster - 2) * spc + base + ofs, 1);
}

} // verus!
