use kolibri_utils::app_header::{test_app_header, OS_BASE, TEST_APP_HEADER_PRNG_SEED};

const HEADER_ADDR: u32 = 0x0040_1000;

/// Independent model of the kernel check.
fn fasm_oracle(header: &[u8; 36], app_hdr: &mut [u8; 0x18], pages_free: u32) -> u32 {
    let menu = u32::from_le_bytes(header[0..4].try_into().unwrap());
    if menu != u32::from_le_bytes(*b"MENU") {
        return 0;
    }
    let et = u16::from_le_bytes(header[4..6].try_into().unwrap());
    if et != u16::from_le_bytes(*b"ET") {
        return 0;
    }
    let ver = u16::from_le_bytes(header[6..8].try_into().unwrap());
    if ver != u16::from_le_bytes(*b"01") && ver != u16::from_le_bytes(*b"02") {
        return 0;
    }

    let start = u32::from_le_bytes(header[12..16].try_into().unwrap());
    app_hdr[8..12].copy_from_slice(&start.to_le_bytes());

    let mem_size = u32::from_le_bytes(header[20..24].try_into().unwrap());
    let i_end = u32::from_le_bytes(header[16..20].try_into().unwrap());
    if mem_size < i_end {
        return 0;
    }
    if mem_size >= OS_BASE {
        return 0;
    }
    let pages_bytes = pages_free << 12;
    if mem_size >= pages_bytes {
        return 0;
    }

    let stack_top = u32::from_le_bytes(header[24..28].try_into().unwrap());
    let i_param = u32::from_le_bytes(header[28..32].try_into().unwrap());
    let i_icon = u32::from_le_bytes(header[32..36].try_into().unwrap());

    app_hdr[0x14..0x18].copy_from_slice(&mem_size.to_le_bytes());
    app_hdr[0x0C..0x10].copy_from_slice(&stack_top.to_le_bytes());
    app_hdr[0x00..0x04].copy_from_slice(&i_param.to_le_bytes());
    app_hdr[0x04..0x08].copy_from_slice(&i_icon.to_le_bytes());
    app_hdr[0x10..0x14].copy_from_slice(&i_end.to_le_bytes());

    // Success: the header address is returned; here a sentinel 1.
    1
}

fn make_header(
    banner: &[u8; 8],
    version: u32,
    start: u32,
    i_end: u32,
    mem_size: u32,
    stack_top: u32,
    i_param: u32,
    i_icon: u32,
) -> [u8; 36] {
    let mut h = [0u8; 36];
    h[0..8].copy_from_slice(banner);
    h[8..12].copy_from_slice(&version.to_le_bytes());
    h[12..16].copy_from_slice(&start.to_le_bytes());
    h[16..20].copy_from_slice(&i_end.to_le_bytes());
    h[20..24].copy_from_slice(&mem_size.to_le_bytes());
    h[24..28].copy_from_slice(&stack_top.to_le_bytes());
    h[28..32].copy_from_slice(&i_param.to_le_bytes());
    h[32..36].copy_from_slice(&i_icon.to_le_bytes());
    h
}

fn check(header: &[u8; 36], pages_free: u32) {
    let mut rust_hdr = [0xA5u8; 0x18];
    let mut fasm_hdr = [0xA5u8; 0x18];
    let rust_rc = test_app_header(header, &mut rust_hdr, pages_free, HEADER_ADDR);
    let fasm_rc = fasm_oracle(header, &mut fasm_hdr, pages_free);

    let rust_ok = rust_rc != 0;
    let fasm_ok = fasm_rc != 0;
    assert_eq!(
        rust_ok, fasm_ok,
        "success mismatch pages_free={pages_free} header={header:?}"
    );
    assert_eq!(
        rust_hdr, fasm_hdr,
        "APP_HDR mismatch pages_free={pages_free}"
    );
    if rust_ok {
        assert_eq!(rust_rc, HEADER_ADDR);
    } else {
        assert_eq!(rust_rc, 0);
    }
}

#[test]
fn menuet01_success_fills_all_fields() {
    let h = make_header(
        b"MENUET01",
        0xDEADBEEF, // version ignored
        0x1000,
        0x2000,
        0x3000,
        0x2FF0,
        0x11111111,
        0x22222222,
    );
    let mut app = [0u8; 0x18];
    let rc = test_app_header(&h, &mut app, 16, HEADER_ADDR);
    assert_eq!(rc, HEADER_ADDR);
    assert_eq!(u32::from_le_bytes(app[8..12].try_into().unwrap()), 0x1000);
    assert_eq!(u32::from_le_bytes(app[0x14..0x18].try_into().unwrap()), 0x3000);
    assert_eq!(u32::from_le_bytes(app[0x0C..0x10].try_into().unwrap()), 0x2FF0);
    assert_eq!(u32::from_le_bytes(app[0..4].try_into().unwrap()), 0x11111111);
    assert_eq!(u32::from_le_bytes(app[4..8].try_into().unwrap()), 0x22222222);
    assert_eq!(u32::from_le_bytes(app[0x10..0x14].try_into().unwrap()), 0x2000);
    check(&h, 16);
}

#[test]
fn menuet02_accepted() {
    let h = make_header(b"MENUET02", 1, 0x10, 0x20, 0x30, 0x28, 0, 0);
    check(&h, 1);
}

#[test]
fn bad_magic_fails_without_mutate() {
    for bad in [b"XXXXET01", b"MENUxx01", b"MENUET00", b"MENUET03", b"menuet01"] {
        let mut banner = [0u8; 8];
        banner.copy_from_slice(bad);
        let h = make_header(&banner, 0, 1, 2, 3, 4, 5, 6);
        let mut app = [0xA5u8; 0x18];
        let before = app;
        let rc = test_app_header(&h, &mut app, 100, HEADER_ADDR);
        assert_eq!(rc, 0);
        assert_eq!(app, before, "magic fail must not mutate APP_HDR");
        check(&h, 100);
    }
}

#[test]
fn mem_size_lt_i_end_partial_eip() {
    let h = make_header(b"MENUET01", 0, 0xABCD1234, 0x5000, 0x4000, 1, 2, 3);
    let mut app = [0xA5u8; 0x18];
    let rc = test_app_header(&h, &mut app, 100, HEADER_ADDR);
    assert_eq!(rc, 0);
    assert_eq!(
        u32::from_le_bytes(app[8..12].try_into().unwrap()),
        0xABCD1234
    );
    // other fields untouched
    assert_eq!(app[0], 0xA5);
    assert_eq!(app[0x14], 0xA5);
    check(&h, 100);
}

#[test]
fn mem_size_at_os_base_fails() {
    let h = make_header(b"MENUET01", 0, 1, 2, OS_BASE, 3, 4, 5);
    check(&h, 0x1_0000);
    let h2 = make_header(b"MENUET01", 0, 1, 2, OS_BASE - 1, 3, 4, 5);
    // still may fail pages_free; use huge pages_free
    check(&h2, 0x8_0000);
}

#[test]
fn pages_free_boundary() {
    // mem_size=0x3000 needs pages_free > 3 (3<<12=0x3000 → jae fail)
    let h = make_header(b"MENUET01", 0, 1, 0x1000, 0x3000, 2, 3, 4);
    check(&h, 3); // fail: mem_size >= 0x3000
    check(&h, 4); // ok: 4<<12 = 0x4000
}

#[test]
fn mem_size_eq_i_end_ok() {
    let h = make_header(b"MENUET01", 0, 9, 0x2000, 0x2000, 8, 7, 6);
    check(&h, 16);
}

#[test]
fn zero_pages_free_rejects_nonzero_mem() {
    let h = make_header(b"MENUET01", 0, 1, 0, 1, 0, 0, 0);
    check(&h, 0);
}

#[test]
fn structured_grid() {
    let banners: [&[u8; 8]; 3] = [b"MENUET01", b"MENUET02", b"MENUET99"];
    let mems = [0u32, 1, 0xFFF, 0x1000, 0x7FFF_FFFF, OS_BASE - 1, OS_BASE, OS_BASE + 1];
    let i_ends = [0u32, 1, 0x1000, 0x2000];
    let pages = [0u32, 1, 2, 16, 0x1000, 0x8_0000];
    for banner in banners {
        for &mem in &mems {
            for &i_end in &i_ends {
                for &pf in &pages {
                    let h = make_header(banner, 0x55, 0xAA, i_end, mem, 0xBB, 0xCC, 0xDD);
                    check(&h, pf);
                }
            }
        }
    }
}

#[test]
fn app_header_prng_200k() {
    // xorshift32
    let mut s = TEST_APP_HEADER_PRNG_SEED;
    for _ in 0..200_000 {
        s ^= s << 13;
        s ^= s >> 17;
        s ^= s << 5;
        let mut banner = *b"MENUET01";
        if (s & 7) == 0 {
            banner[0] = b'X';
        } else if (s & 7) == 1 {
            banner[6] = b'2';
        } else if (s & 7) == 2 {
            banner[6] = b'9';
        }
        let start = s.rotate_left(3);
        let i_end = s.wrapping_mul(3) & 0xFFFF;
        let mem_size = match s & 0x1F {
            0 => OS_BASE,
            1 => OS_BASE.wrapping_sub(1),
            2 => i_end.wrapping_sub(1),
            3 => i_end,
            _ => (s & 0x0FFF_FFFF) | 0x1000,
        };
        let pages_free = (s >> 8) & 0xFFFF;
        let h = make_header(
            &banner,
            s,
            start,
            i_end,
            mem_size,
            s.wrapping_add(1),
            s.wrapping_add(2),
            s.wrapping_add(3),
        );
        check(&h, pages_free);
    }
}
