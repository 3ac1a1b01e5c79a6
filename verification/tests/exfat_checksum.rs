use kolibri_utils::exfat_checksum::{
    calculate_set_checksum_field, calculate_set_checksum_field_slice, calculate_set_checksum_field_sum,
    exfat_namehash_slice, fasm_oracle_set_checksum, CALCULATE_SET_CHECKSUM_FIELD_PRNG_SEED,
};

/// Independent model of the kernel loop (register by register).
fn kernel_model_set_checksum(buf: &[u8]) -> u16 {
    let mut eax: u16 = 0;
    for (esi, &byte) in buf.iter().enumerate() {
        if esi != 2 && esi != 3 {
            let mut ax = if eax & 1 == 0 { 0 } else { 0x8000u16 };
            ax = ax.wrapping_add(eax >> 1);
            eax = ax.wrapping_add(u16::from(byte));
        }
    }
    eax
}

#[test]
fn set_checksum_matches_register_model() {
    let mut state = 0x1234_5678u32;
    for len in 0..80usize {
        let buf: Vec<u8> = (0..len).map(|_| (xorshift32(&mut state) & 0xFF) as u8).collect();
        assert_eq!(fasm_oracle_set_checksum(&buf), kernel_model_set_checksum(&buf), "len={len}");
    }
    // Exact value: bytes 1 and 2 count; indices 2 and 3 are skipped.
    assert_eq!(fasm_oracle_set_checksum(&[1, 2, 3, 4]), 0x8002);
}

fn xorshift32(state: &mut u32) -> u32 {
    let mut x = *state;
    x ^= x << 13;
    x ^= x >> 17;
    x ^= x << 5;
    *state = x;
    x
}

#[test]
fn empty_and_short_skip_field() {
    assert_eq!(calculate_set_checksum_field_slice(&[]), 0);
    assert_eq!(fasm_oracle_set_checksum(&[]), 0);

    // Indices 0,1 only — nothing skipped yet.
    let b = [0x11u8, 0x22];
    assert_eq!(
        calculate_set_checksum_field_slice(&b),
        fasm_oracle_set_checksum(&b)
    );

    // Indices 0..3 — bytes 2 and 3 skipped; sum from 0 and 1 only.
    let b4 = [0x11u8, 0x22, 0xAA, 0xBB];
    let rust = calculate_set_checksum_field_slice(&b4);
    let ora = fasm_oracle_set_checksum(&b4);
    assert_eq!(rust, ora);
    // Changing skipped bytes must not change sum.
    let b4b = [0x11u8, 0x22, 0x00, 0x00];
    assert_eq!(calculate_set_checksum_field_slice(&b4b), rust);
}

#[test]
fn store_side_effect() {
    let mut buf = [0u8; 32];
    buf[0] = 0x85;
    buf[1] = 0x02;
    buf[4] = 0x10;
    let sum = calculate_set_checksum_field(&mut buf);
    assert_eq!(sum, fasm_oracle_set_checksum(&buf[..]));
    // After store, bytes 2–3 hold the checksum LE — but those indices are
    // skipped on recompute, so recomputing over the mutated buffer yields
    // the same sum.
    let stored = u16::from_le_bytes([buf[2], buf[3]]);
    assert_eq!(stored, sum);
    assert_eq!(
        calculate_set_checksum_field_sum(&buf),
        sum
    );
}

#[test]
fn named_file_plus_stream_entry() {
    // Minimal: 32-byte file entry + 32-byte stream extension.
    let mut buf = [0u8; 64];
    buf[0] = 0x85;
    buf[1] = 1; // SecondaryCount
    // SetChecksum field garbage — must be ignored.
    buf[2] = 0xFF;
    buf[3] = 0xFE;
    buf[32] = 0xC0; // Stream extension
    buf[33] = 0x03;
    for i in 4..32 {
        buf[i] = (i as u8).wrapping_mul(3);
    }
    for i in 34..64 {
        buf[i] = (i as u8).wrapping_mul(5);
    }
    let rust = calculate_set_checksum_field_slice(&buf);
    assert_eq!(rust, fasm_oracle_set_checksum(&buf));
    // NameHash (no skip) differs: the field bytes count there.
    let hash = exfat_namehash_slice(&buf);
    assert_ne!(hash, rust);
}

#[test]
fn wrap_and_odd_bit_path() {
    // Force the (c&1)?0x8000 branch repeatedly.
    let mut buf = [0u8; 16];
    for i in 0..16 {
        buf[i] = 0xFF;
    }
    assert_eq!(
        calculate_set_checksum_field_slice(&buf),
        fasm_oracle_set_checksum(&buf)
    );
    let buf2 = [1u8; 16];
    assert_eq!(
        calculate_set_checksum_field_slice(&buf2),
        fasm_oracle_set_checksum(&buf2)
    );
}

#[test]
fn full_max_dirent_span() {
    // file(32) + stream(32) + 17×name(32) = 608
    let mut buf = vec![0u8; 608];
    buf[0] = 0x85;
    buf[32] = 0xC0;
    for n in 0..17 {
        buf[64 + n * 32] = 0xC1;
        for j in 2..32 {
            buf[64 + n * 32 + j] = ((n * 32 + j) & 0xFF) as u8;
        }
    }
    assert_eq!(
        calculate_set_checksum_field_slice(&buf),
        fasm_oracle_set_checksum(&buf)
    );
}

#[test]
fn differential_prng_50k() {
    let mut state = CALCULATE_SET_CHECKSUM_FIELD_PRNG_SEED;
    for _ in 0..50_000 {
        let len = (xorshift32(&mut state) % 608) as usize;
        // Always allocate ≥4 so store path can be exercised when desired.
        let mut buf = vec![0u8; len.max(4)];
        for b in buf.iter_mut().take(len) {
            *b = (xorshift32(&mut state) & 0xFF) as u8;
        }
        let slice = &buf[..len];
        let rust = calculate_set_checksum_field_slice(slice);
        let ora = fasm_oracle_set_checksum(slice);
        assert_eq!(rust, ora, "len={len}");

        // Store path when buffer is large enough.
        if len >= 4 {
            let mut owned = slice.to_vec();
            let sum = calculate_set_checksum_field(&mut owned);
            assert_eq!(sum, rust);
            assert_eq!(u16::from_le_bytes([owned[2], owned[3]]), sum);
        }
    }
}

#[test]
fn namehash_matches_no_skip_oracle() {
    // NameHash is the same loop without skip.
    let data = b"Hello-exFAT-NameHash\0\0";
    let mut eax: u16 = 0;
    for &byte in data {
        let rotated = if (eax & 1) != 0 { 0x8000u16 } else { 0 };
        eax = rotated
            .wrapping_add(eax >> 1)
            .wrapping_add(u16::from(byte));
    }
    assert_eq!(exfat_namehash_slice(data), eax);
}
