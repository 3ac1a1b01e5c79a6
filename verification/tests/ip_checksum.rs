use kolibri_utils::ip_checksum::{checksum_1, checksum_1_fasm_oracle};

#[test]
fn empty_preserves_seed() {
    assert_eq!(checksum_1(0, &[]), 0);
    assert_eq!(checksum_1(0x1234_5678, &[]), 0x1234_5678);
    assert_eq!(checksum_1_fasm_oracle(0x1234_5678, &[]), 0x1234_5678);
}

#[test]
fn checksum_named_vectors_match_oracle() {
    let seeds = [0u32, 1, 0xffff, 0x1234_5678, 0xffff_ffff, 0x00ff_00ff];
    let bufs: &[&[u8]] = &[
        &[],
        &[0x00],
        &[0xff],
        &[0x12, 0x34],
        &[0x12, 0x34, 0x56],
        &[0x12, 0x34, 0x56, 0x78],
        &[0x01, 0x02, 0x03, 0x04, 0x05],
        &[0x01, 0x02, 0x03, 0x04, 0x05, 0x06],
        &[0x01, 0x02, 0x03, 0x04, 0x05, 0x06, 0x07],
        &[0x01, 0x02, 0x03, 0x04, 0x05, 0x06, 0x07, 0x08],
        &[0xff, 0xff, 0xff, 0xff, 0xff, 0xff, 0xff, 0xff],
        &[0x00; 16],
        &[0xaa; 15],
        &[0x55; 9],
        &[0x08, 0x00, 0x00, 0x00, 0x12, 0x34, 0x00, 0x01],
    ];
    for &seed in &seeds {
        for &buf in bufs {
            let got = checksum_1(seed, buf);
            let expect = checksum_1_fasm_oracle(seed, buf);
            assert_eq!(got, expect, "seed={seed:#x} buf={buf:?}");
        }
    }
}

#[test]
fn exhaustive_lengths_0_to_64() {
    let seeds = [0u32, 0xabcd_ef01, 0xffff_ffff, 0x0001_0000];
    let mut buf = [0u8; 64];
    for (i, b) in buf.iter_mut().enumerate() {
        *b = (i as u8).wrapping_mul(37).wrapping_add(11);
    }
    for seed in seeds {
        for len in 0..=64 {
            let data = &buf[..len];
            assert_eq!(checksum_1(seed, data), checksum_1_fasm_oracle(seed, data), "seed={seed:#x} len={len}");
        }
    }
}

#[test]
fn remnant_class_coverage() {
    let seed = 0x90ab_cdef;
    let pattern: [u8; 24] = [
        0xde, 0xad, 0xbe, 0xef, 0xca, 0xfe, 0xba, 0xbe, 0x11, 0x22, 0x33, 0x44, 0x55, 0x66, 0x77, 0x88, 0x99,
        0xaa, 0xbb, 0xcc, 0xdd, 0xee, 0xff, 0x01,
    ];
    for len in 0..=24 {
        let data = &pattern[..len];
        assert_eq!(checksum_1(seed, data), checksum_1_fasm_oracle(seed, data), "len={len}");
    }
}

#[test]
fn carry_stress_all_ff() {
    let seed = 0xffff_ffff;
    for len in 0..=32 {
        let data = vec![0xffu8; len];
        assert_eq!(checksum_1(seed, &data), checksum_1_fasm_oracle(seed, &data), "len={len}");
    }
}

#[test]
fn deterministic_prng_corpus_vs_oracle() {
    let mut state = 0xC0FF_EE02u32;
    let mut buf = [0u8; 128];
    for _ in 0..20_000 {
        state ^= state << 13;
        state ^= state >> 17;
        state ^= state << 5;
        let len = (state % 97) as usize;
        for i in 0..len {
            state ^= state << 13;
            state ^= state >> 17;
            state ^= state << 5;
            buf[i] = state as u8;
        }
        let seed = state;
        let data = &buf[..len];
        assert_eq!(checksum_1(seed, data), checksum_1_fasm_oracle(seed, data), "seed={seed:#x} len={len}");
    }
}

#[test]
fn checksum_exact_values() {
    assert_eq!(checksum_1(0, &[0x12, 0x34]), 0x1234);
    assert_eq!(checksum_1(0, &[0x12, 0x34, 0x56]), 0x6834);
    assert_eq!(checksum_1(0xffff, &[0x00, 0x01]), 1);
    assert_eq!(checksum_1(0x0001_0000, &[0x00, 0x01, 0x00, 0x02]), 0x0001_0003);
    assert_eq!(checksum_1(0, &[0x01, 0x02, 0x03, 0x04, 0x05, 0x06, 0x07, 0x08]), 0x1014);
}
