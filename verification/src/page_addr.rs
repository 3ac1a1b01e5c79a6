//! Kernel linear address to physical page: the first 4 MiB above the kernel
//! base are identity-mapped, the rest goes through the page tables.

use vstd::prelude::*;
use crate::wrap::{mod32, lemma_wsub32};

verus! {

/// Kernel base address.
pub const OS_BASE: u32 = 0x8000_0000;

/// Address of the page tables.
pub const PAGE_TABS: u32 = 0xFDC0_0000;

/// Page size.
pub const PAGE_SIZE: u32 = 4096;

/// Size of the identity-mapped window above the kernel base.
pub const IDENTITY_WINDOW: u32 = 0x40_0000;

/// Seed of the pseudo-random corpus (`'CUTQ'`).
pub const GET_PG_ADDR_PRNG_SEED: u32 = 0x4355_5451;

/// Offset of `linear` above the kernel base (mod 2^32).
pub open spec fn pg_offset(linear: u32, os_base: u32) -> u32 {
    mod32(linear - os_base)
}

/// Page-table index consulted above the identity window.
pub open spec fn pg_index(linear: u32, os_base: u32) -> int {
    mod32(pg_offset(linear, os_base) / 0x1000 + os_base / 0x1000) as int
}

/// `v` with its low 12 bits cleared.
pub open spec fn page_of(v: u32) -> u32 {
    (v / 0x1000 * 0x1000) as u32
}

/// The physical page: within the window the offset itself, else the page
/// table entry, in both cases with the low 12 bits cleared.
pub open spec fn pg_addr(linear: u32, pte: u32, os_base: u32) -> u32 {
    if pg_offset(linear, os_base) < IDENTITY_WINDOW {
        page_of(pg_offset(linear, os_base))
    } else {
        page_of(pte)
    }
}

fn page_mask(v: u32) -> (r: u32)
    ensures
        r == page_of(v),
{
    let r = v & 0xFFFF_F000;
    assert(r == v / 0x1000 * 0x1000) by (bit_vector)
        requires
            r == v & 0xFFFF_F000u32;
    r
}

/// Translate a kernel linear address to its physical page, reading the page
/// table entry from `page_tabs` above the identity window.
pub fn get_pg_addr(linear: u32, page_tabs: &[u32], os_base: u32) -> (r: u32)
    requires
        pg_offset(linear, os_base) >= IDENTITY_WINDOW ==> pg_index(linear, os_base) < page_tabs@.len(),
    ensures
        r == pg_addr(linear, if pg_offset(linear, os_base) >= IDENTITY_WINDOW {
            page_tabs@[pg_index(linear, os_base)]
        } else {
            0
        }, os_base),
{
    proof {
        lemma_wsub32(linear, os_base);
    }
    let mut eax = linear.wrapping_sub(os_base);
    if eax >= IDENTITY_WINDOW {
        eax = eax / 0x1000;
        let idx = eax.wrapping_add(os_base / 0x1000);
        proof {
            crate::wrap::lemma_wadd32(eax, os_base / 0x1000);
        }
        eax = page_tabs[idx as usize];
    }
    page_mask(eax)
}

/// The same translation with entries past the end of `ptes` reading as 0.
pub fn fasm_oracle_get_pg_addr(linear: u32, ptes: &[u32], os_base: u32) -> (r: u32)
    ensures
        r == pg_addr(linear, if pg_index(linear, os_base) < ptes@.len() {
            ptes@[pg_index(linear, os_base)]
        } else {
            0
        }, os_base),
{
    proof {
        lemma_wsub32(linear, os_base);
    }
    let mut eax = linear.wrapping_sub(os_base);
    if eax >= IDENTITY_WINDOW {
        eax = eax / 0x1000;
        let idx = eax.wrapping_add(os_base / 0x1000);
        proof {
            crate::wrap::lemma_wadd32(eax, os_base / 0x1000);
        }
        eax = if (idx as usize) < ptes.len() { ptes[idx as usize] } else { 0 };
    }
    page_mask(eax)
}

/// Within the identity window the page is the offset's page.
pub proof fn law_identity_window(off: u32, os_base: u32, pte: u32)
    requires
        off < IDENTITY_WINDOW,
    ensures
        pg_addr(mod32(os_base + off), pte, os_base) == page_of(off),
{
    crate::wrap::lemma_mod32_sub(os_base + off, os_base as int);
    crate::wrap::lemma_mod32_range(os_base + off);
}

} // verus!
