use kolibri_utils::page_addr::{
    fasm_oracle_get_pg_addr, get_pg_addr, GET_PG_ADDR_PRNG_SEED, IDENTITY_WINDOW, OS_BASE, PAGE_SIZE,
    PAGE_TABS,
};

#[test]
fn missing_pte_reads_zero_in_oracle() {
    assert_eq!(fasm_oracle_get_pg_addr(0x0100_0000, &[], 0), 0);
    assert_eq!(PAGE_TABS, 0xFDC0_0000);
}

fn xorshift32(state: &mut u32) -> u32 {
    let mut x = *state;
    x ^= x << 13;
    x ^= x >> 17;
    x ^= x << 5;
    *state = x;
    x
}

fn rust_call(linear: u32, ptes: &[u32], os_base: u32) -> u32 {
    get_pg_addr(linear, ptes, os_base)
}

#[test]
fn low_path_identity() {
    let empty: [u32; 0] = [];
    // OS_BASE → phys 0
    assert_eq!(
        rust_call(OS_BASE, &empty, OS_BASE),
        0
    );
    assert_eq!(fasm_oracle_get_pg_addr(OS_BASE, &empty, OS_BASE), 0);

    // OS_BASE + 0x1234 → page 0x1000
    assert_eq!(
        rust_call(OS_BASE + 0x1234, &empty, OS_BASE),
        0x1000
    );
    assert_eq!(
        fasm_oracle_get_pg_addr(OS_BASE + 0x1234, &empty, OS_BASE),
        0x1000
    );

    // Last byte of identity window
    let last = OS_BASE + IDENTITY_WINDOW - 1;
    assert_eq!(
        rust_call(last, &empty, OS_BASE),
        IDENTITY_WINDOW - PAGE_SIZE
    );
    assert_eq!(
        fasm_oracle_get_pg_addr(last, &empty, OS_BASE),
        IDENTITY_WINDOW - PAGE_SIZE
    );
}

#[test]
fn high_path_pte_fetch() {
    // Use os_base=0 so indices stay small for a compact fixture.
    // linear = 0x401000 → offset >= 4MB → idx = 0x401
    let mut ptes = vec![0u32; 0x500];
    ptes[0x401] = 0x00AB_CD03; // phys page + present flags
    // 0x00ABCD03 & ~0xFFF = 0x00ABC000
    assert_eq!(
        rust_call(0x401_000, &ptes, 0),
        0x00AB_C000
    );
    assert_eq!(fasm_oracle_get_pg_addr(0x401_000, &ptes, 0), 0x00AB_C000);

    // Boundary: exactly IDENTITY_WINDOW uses high path
    ptes[0x400] = 0x1234_5067;
    assert_eq!(
        rust_call(0x400_000, &ptes, 0),
        0x1234_5000
    );
    assert_eq!(fasm_oracle_get_pg_addr(0x400_000, &ptes, 0), 0x1234_5000);
}

#[test]
fn high_path_production_os_base_index() {
    // linear = OS_BASE + 4MB → idx = 0x80000 + 0x400 = 0x80400
    let idx = 0x80400usize;
    let mut ptes = vec![0u32; idx + 1];
    ptes[idx] = 0xDEAD_BEEF;
    let linear = OS_BASE + IDENTITY_WINDOW;
    assert_eq!(
        rust_call(linear, &ptes, OS_BASE),
        0xDEAD_B000
    );
    assert_eq!(
        fasm_oracle_get_pg_addr(linear, &ptes, OS_BASE),
        0xDEAD_B000
    );
}

#[test]
fn page_mask_strips_flags() {
    let mut ptes = vec![0u32; 0x500];
    // Must use high path (linear >= 4MB when os_base=0).
    ptes[0x405] = 0x0010_0FFF; // all low flags set
    assert_eq!(rust_call(0x405_000, &ptes, 0), 0x0010_0000);
    assert_eq!(fasm_oracle_get_pg_addr(0x405_000, &ptes, 0), 0x0010_0000);
}

#[test]
fn low_path_exhaustive_page_offsets() {
    let empty: [u32; 0] = [];
    // Every page start in the identity window
    let mut off = 0u32;
    while off < IDENTITY_WINDOW {
        let linear = OS_BASE.wrapping_add(off);
        let got = rust_call(linear, &empty, OS_BASE);
        let expect = fasm_oracle_get_pg_addr(linear, &empty, OS_BASE);
        assert_eq!(got, expect, "off={off:#x}");
        assert_eq!(got, off & !(PAGE_SIZE - 1));
        off = off.wrapping_add(PAGE_SIZE);
    }
    // Intra-page offsets sample
    for add in [0u32, 1, 0x7FF, 0xFFF] {
        let mut off = 0u32;
        while off < IDENTITY_WINDOW {
            let linear = OS_BASE.wrapping_add(off).wrapping_add(add);
            if linear.wrapping_sub(OS_BASE) >= IDENTITY_WINDOW {
                break;
            }
            let got = rust_call(linear, &empty, OS_BASE);
            let expect = fasm_oracle_get_pg_addr(linear, &empty, OS_BASE);
            assert_eq!(got, expect, "off={off:#x} add={add:#x}");
            off = off.wrapping_add(PAGE_SIZE * 16);
        }
    }
}

#[test]
fn wrap_under_os_base_matches_oracle() {
    // Wrapping: linear < OS_BASE still follows the unsigned sub/shr path.
    let mut ptes = vec![0u32; 0x100_010 + 1];
    let linear = 0x0001_0000u32;
    let idx = linear
        .wrapping_sub(OS_BASE)
        .wrapping_shr(12)
        .wrapping_add(OS_BASE >> 12) as usize;
    ptes[idx] = 0x0BAD_F00D;
    assert_eq!(
        rust_call(linear, &ptes, OS_BASE),
        0x0BAD_F000
    );
    assert_eq!(
        fasm_oracle_get_pg_addr(linear, &ptes, OS_BASE),
        0x0BAD_F000
    );
}

#[test]
fn prng_50k_seed_cutq() {
    let mut state = GET_PG_ADDR_PRNG_SEED;
    // Compact table with os_base=0; plant random PTEs for high indices.
    let mut ptes = vec![0u32; 0x1000];
    for i in 0..ptes.len() {
        ptes[i] = xorshift32(&mut state) | 1;
    }
    for _ in 0..50_000 {
        let linear = xorshift32(&mut state);
        // Keep index in table when high path: idx = linear>>12 for os_base=0
        let linear = if linear.wrapping_sub(0) >= IDENTITY_WINDOW {
            let idx = (linear >> 12) as usize % ptes.len();
            (idx as u32) << 12
        } else {
            linear % IDENTITY_WINDOW
        };
        let got = rust_call(linear, &ptes, 0);
        let expect = fasm_oracle_get_pg_addr(linear, &ptes, 0);
        assert_eq!(got, expect, "linear={linear:#x}");
    }
}

#[test]
fn prng_production_os_base_low_and_boundary() {
    let empty: [u32; 0] = [];
    let mut state = GET_PG_ADDR_PRNG_SEED ^ 0xA5A5_A5A5;
    for _ in 0..10_000 {
        let off = xorshift32(&mut state) % IDENTITY_WINDOW;
        let linear = OS_BASE.wrapping_add(off);
        let got = rust_call(linear, &empty, OS_BASE);
        let expect = fasm_oracle_get_pg_addr(linear, &empty, OS_BASE);
        assert_eq!(got, expect);
    }
    // High-path samples around first non-identity page
    let idx0 = 0x80400usize;
    let mut ptes = vec![0u32; idx0 + 0x20];
    for i in 0..0x20 {
        ptes[idx0 + i] = (0x1000_0000 + (i as u32) * PAGE_SIZE) | 0x27;
    }
    for i in 0u32..0x20 {
        let linear = OS_BASE + IDENTITY_WINDOW + i * PAGE_SIZE;
        let got = rust_call(linear, &ptes, OS_BASE);
        let expect = fasm_oracle_get_pg_addr(linear, &ptes, OS_BASE);
        assert_eq!(got, expect, "i={i}");
    }
}
