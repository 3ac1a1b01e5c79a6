use kolibri_utils::coff_align::{coff_get_align_from_characteristics, coff_get_align_section, make_section_chars, ALIGN_EXP_DEFAULT, COFF_GET_ALIGN_PRNG_SEED};


/// Independent FASM-flow oracle (not a call to the SUT).
fn oracle(characteristics: u32) -> u32 {
    // mov cl, byte [char+2]
    let mut cl = ((characteristics >> 16) as u8) as u32;
    // shr cl, 4
    cl >>= 4;
    // dec cl
    let (dec, _) = cl.overflowing_sub(1);
    // js .default — SF set when result bit7 of 8-bit cl is set
    let sf = (dec as u8) & 0x80 != 0;
    let exp = if sf {
        ALIGN_EXP_DEFAULT
    } else if dec > ALIGN_EXP_DEFAULT {
        ALIGN_EXP_DEFAULT
    } else {
        dec
    };
    (1u32 << exp) - 1
}

fn check(characteristics: u32) {
    let got = coff_get_align_from_characteristics(characteristics);
    let exp = oracle(characteristics);
    assert_eq!(
        got, exp,
        "mismatch chars={characteristics:#010x} got={got:#x} exp={exp:#x}"
    );
    let sec = make_section_chars(characteristics);
    let ptr_got = coff_get_align_section(&sec);
    assert_eq!(ptr_got, exp);
}

#[test]
fn default_when_align_field_zero() {
    // bits 20..23 = 0 → after shr/dec → js → 4K
    check(0x0000_0000);
    check(0x000F_FFFF); // junk low bits ignored
    check(0xFF0F_FFFF); // high byte junk ignored
}

#[test]
fn one_byte_align_mask_zero() {
    // IMAGE_SCN_ALIGN_1BYTES = 0x00100000 → field=1 → cl=0 → mask=0
    check(0x0010_0000);
    assert_eq!(coff_get_align_from_characteristics(0x0010_0000), 0);
}

#[test]
fn two_byte_through_4k() {
    // field=2 → mask=1; field=3 → 3; ... field=13 → 0xFFF
    check(0x0020_0000);
    assert_eq!(coff_get_align_from_characteristics(0x0020_0000), 0x1);
    check(0x0030_0000);
    assert_eq!(coff_get_align_from_characteristics(0x0030_0000), 0x3);
    check(0x00C0_0000); // 2^11 → mask 0x7FF
    assert_eq!(coff_get_align_from_characteristics(0x00C0_0000), 0x7FF);
    check(0x00D0_0000); // 4K
    assert_eq!(coff_get_align_from_characteristics(0x00D0_0000), 0xFFF);
}

#[test]
fn clamp_above_4k() {
    // field=14,15 → cl=13,14 → >12 → default 4K
    check(0x00E0_0000);
    assert_eq!(coff_get_align_from_characteristics(0x00E0_0000), 0xFFF);
    check(0x00F0_0000);
    assert_eq!(coff_get_align_from_characteristics(0x00F0_0000), 0xFFF);
}

#[test]
fn low_nibble_of_align_byte_ignored() {
    // byte[2] = 0xD5 → shr 4 → 0xD; same as 0xD0
    check(0x00D5_0000);
    assert_eq!(
        coff_get_align_from_characteristics(0x00D5_0000),
        coff_get_align_from_characteristics(0x00D0_0000)
    );
}

fn xorshift32(state: &mut u32) -> u32 {
    let mut x = *state;
    x ^= x << 13;
    x ^= x >> 17;
    x ^= x << 5;
    *state = x;
    x
}

#[test]
fn coff_get_align_prng_50k_matches_oracle() {
    let mut state = COFF_GET_ALIGN_PRNG_SEED;
    for _ in 0..50_000 {
        check(xorshift32(&mut state));
    }
}
