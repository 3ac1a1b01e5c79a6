use kolibri_utils::fs_op_safe::{
    file_system_is_operation_safe, fs_op_safe_buffer_len, is_region_userspace, make_inf,
    FILE_SYSTEM_IS_OPERATION_SAFE_PRNG_SEED,
};

const OS_BASE: u32 = 0x8000_0000;
const OS_BASE_M1: u32 = OS_BASE - 1;

/// Independent model of the region check.
fn fasm_oracle_region(base: u32, len: u32) -> u32 {
    if base > OS_BASE_M1 {
        return 0;
    }
    let (sum, carry) = base.overflowing_add(len);
    if carry {
        return u32::from(sum == 0);
    }
    if sum > OS_BASE {
        return 0;
    }
    1
}

/// Independent model of the subfunction switch.
fn fasm_oracle_len(subfn: u32, encoding: u32, count_or_size: u32) -> Option<u32> {
    if subfn == 0 {
        return Some(count_or_size);
    }
    if subfn == 1 {
        let bdvk = if encoding <= 1 { 304u32 } else { 560u32 };
        return Some(bdvk.wrapping_mul(count_or_size).wrapping_add(32));
    }
    if subfn <= 3 {
        return Some(count_or_size);
    }
    if subfn == 5 {
        return Some(40);
    }
    if subfn == 6 {
        return Some(32);
    }
    None
}

fn fasm_oracle(subfn: u32, encoding: u32, count_or_size: u32, base: u32) -> u32 {
    match fasm_oracle_len(subfn, encoding, count_or_size) {
        None => 1,
        Some(len) => fasm_oracle_region(base, len),
    }
}

fn check(subfn: u32, encoding: u32, count_or_size: u32, base: u32, expect: u32) {
    let inf = make_inf(subfn, encoding, count_or_size, base);
    let got = file_system_is_operation_safe(&inf);
    let oracle = fasm_oracle(subfn, encoding, count_or_size, base);
    assert_eq!(oracle, expect, "oracle mismatch subfn={subfn} enc={encoding} n={count_or_size:#x} base={base:#x}");
    assert_eq!(got, expect, "impl mismatch subfn={subfn} enc={encoding} n={count_or_size:#x} base={base:#x}");
    assert_eq!(fs_op_safe_buffer_len(subfn, encoding, count_or_size), fasm_oracle_len(subfn, encoding, count_or_size));
    assert_eq!(got != 0, expect == 1);
}

#[test]
fn subfn0_size_passthrough() {
    check(0, 0, 1, 0, 1);
    check(0, 99, 0, 0, 1);
    check(0, 0, 1, 0x8000_0000, 0);
    check(0, 0, 2, 0x7FFF_FFFF, 0);
    check(0, 0, 1, 0x7FFF_FFFF, 1);
}

#[test]
fn subfn1_cp866_and_unicode() {
    assert_eq!(fs_op_safe_buffer_len(1, 0, 1), Some(336));
    check(1, 0, 1, 0, 1);
    assert_eq!(fs_op_safe_buffer_len(1, 1, 1), Some(336));
    assert_eq!(fs_op_safe_buffer_len(1, 2, 1), Some(592));
    check(1, 2, 1, 0, 1);
    assert_eq!(fs_op_safe_buffer_len(1, 0, 0), Some(32));
    check(1, 0, 0, 0, 1);
    let wrap = 304u32.wrapping_mul(0x0100_0000).wrapping_add(32);
    assert_eq!(fs_op_safe_buffer_len(1, 0, 0x0100_0000), Some(wrap));
}

#[test]
fn subfn2_and_3() {
    check(2, 0, 64, 0x1000, 1);
    check(3, 0, 8, 0x7FFF_FFFC, 0);
    check(3, 0, 4, 0x7FFF_FFFC, 1);
}

#[test]
fn subfn5_and_6_fixed() {
    assert_eq!(fs_op_safe_buffer_len(5, 0, 999), Some(40));
    assert_eq!(fs_op_safe_buffer_len(6, 0, 999), Some(32));
    check(5, 0, 0, 0, 1);
    check(6, 0, 0, 0, 1);
    check(5, 0, 0, 0x8000_0000, 0);
}

#[test]
fn unknown_subfn_accepts_without_region_check() {
    check(4, 0, 0xFFFF_FFFF, 0x8000_0000, 1);
    check(7, 0, 1, 0xFFFF_FFFF, 1);
    check(0xFFFF_FFFF, 0, 1, 0x8000_0000, 1);
}

#[test]
fn overflow_to_zero_quirk_composed() {
    check(0, 0, 0xFFFF_FFFF, 1, 1);
    check(0, 0, 0xC000_0000, 0x4000_0000, 1);
    check(0, 0, 0xFFFF_FFFF, 2, 0);
}

#[test]
fn length_helper_matches_oracle() {
    for subfn in [0u32, 1, 2, 3, 4, 5, 6, 7, 100] {
        for enc in [0u32, 1, 2, 0xFF] {
            for n in [0u32, 1, 2, 16, 0x100, 0xFFFF_FFFF] {
                assert_eq!(
                    fs_op_safe_buffer_len(subfn, enc, n),
                    fasm_oracle_len(subfn, enc, n),
                    "subfn={subfn} enc={enc} n={n:#x}"
                );
            }
        }
    }
}

#[test]
fn composed_region_matches_cut_p() {
    for &(subfn, enc, n, base) in &[
        (0u32, 0u32, 16u32, 0u32),
        (1, 0, 2, 0x1000),
        (1, 2, 1, 0x7FFF_0000),
        (5, 0, 0, 0x7FFF_FFD8),
        (6, 0, 0, 0x7FFF_FFE0),
    ] {
        let len = fs_op_safe_buffer_len(subfn, enc, n).unwrap();
        let inf = make_inf(subfn, enc, n, base);
        let got = file_system_is_operation_safe(&inf);
        assert_eq!(got, is_region_userspace(base, len));
        assert_eq!(got, fasm_oracle_region(base, len));
    }
}

#[test]
fn fs_operation_safe_prng_corpus_matches_oracle() {
    let mut state = FILE_SYSTEM_IS_OPERATION_SAFE_PRNG_SEED;
    for _ in 0..50_000u32 {
        state ^= state << 13;
        state ^= state >> 17;
        state ^= state << 5;
        let subfn = state % 16;
        state ^= state << 13;
        state ^= state >> 17;
        state ^= state << 5;
        let encoding = state;
        state ^= state << 13;
        state ^= state >> 17;
        state ^= state << 5;
        let count_or_size = state;
        state ^= state << 13;
        state ^= state >> 17;
        state ^= state << 5;
        let base = state;
        let expect = fasm_oracle(subfn, encoding, count_or_size, base);
        let inf = make_inf(subfn, encoding, count_or_size, base);
        let got = file_system_is_operation_safe(&inf);
        assert_eq!(got, expect, "prng subfn={subfn} enc={encoding:#x} n={count_or_size:#x} base={base:#x}");
    }
}
