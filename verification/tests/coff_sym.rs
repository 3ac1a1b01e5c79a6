use kolibri_utils::coff_sym::{
    get_coff_sym_oracle, make_fix_sym, make_fix_sym_long, make_sym, name_eq_n, COFF_SYM_NAME_LEN,
    COFF_SYM_SIZE, FIX_COFF_SYMBOLS_PRNG_SEED, GET_COFF_SYM_PRNG_SEED,
};

/// Classic `strncmp` over unsigned bytes: sign of the first difference, 0 at a
/// shared NUL or after `n` bytes.
fn strncmp_fasm_oracle(a: &[u8], b: &[u8], n: usize) -> i32 {
    for i in 0..n {
        let (ca, cb) = (a[i], b[i]);
        if ca != cb {
            return if ca < cb { -1 } else { 1 };
        }
        if ca == 0 {
            return 0;
        }
    }
    0
}

/// Walk the way the kernel's loop does: compare, step 18 bytes, count down.
fn walk(table: &[u8], count: u32, sz: &[u8]) -> u32 {
    let mut off = 0usize;
    let mut remaining = count;
    loop {
        if strncmp_fasm_oracle(&table[off..], sz, 8) == 0 {
            return u32::from_le_bytes(table[off + 8..off + 12].try_into().unwrap());
        }
        off += COFF_SYM_SIZE;
        remaining -= 1;
        if remaining == 0 {
            return 0;
        }
    }
}

fn pack(syms: &[[u8; COFF_SYM_SIZE]]) -> Vec<u8> {
    let mut v = Vec::with_capacity(syms.len() * COFF_SYM_SIZE);
    for s in syms {
        v.extend_from_slice(s);
    }
    v
}

#[test]
fn name_eq_matches_strncmp_oracle() {
    let cases: &[(&[u8], &[u8])] = &[
        (b"EXPORTS\0", b"EXPORTS\0"),
        (b"_EXPORTS", b"_EXPORTS"),
        (b"EXPORTS\0", b"EXPORTT\0"),
        (b"ABCDEFGH", b"ABCDEFGH"),
        (b"ABCDEFGH", b"ABCDEFGI"),
        (b"A\0XXXXXX", b"A\0YYYYYY"),
        (b"\0XXXXXXX", b"\0YYYYYYY"),
    ];
    for &(a, b) in cases {
        let mut aa = [0u8; 8];
        let mut bb = [0u8; 8];
        aa.copy_from_slice(&a[..8]);
        bb.copy_from_slice(&b[..8]);
        let eq = name_eq_n(&aa, &bb, 8);
        let st = strncmp_fasm_oracle(&aa, &bb, 8);
        assert_eq!(eq, st == 0, "a={aa:?} b={bb:?}");
    }
}

#[test]
fn name_eq_short_buffers_and_zero_length() {
    // Stops at the shared NUL: the buffers need not hold n bytes.
    assert!(name_eq_n(b"AB\0", b"AB\0", 256));
    assert!(!name_eq_n(b"AB\0", b"ABX\0", 256));
    assert!(name_eq_n(b"", b"", 0));
    assert!(name_eq_n(b"ABCD", b"ABCE", 3));
}

#[test]
fn get_coff_sym_named_vectors_match_oracle() {
    let exports = make_sym(b"EXPORTS\0", 0x1000);
    let under = make_sym(b"_EXPORTS", 0x2000);
    let other = make_sym(b"OTHER\0\0\0", 0x3000);
    let eight = make_sym(b"ABCDEFGH", 0x4000);
    let table = pack(&[exports, under, other, eight]);
    let cases: &[(&[u8], u32, u32)] = &[
        (b"EXPORTS\0xx", 4, 0x1000),
        (b"_EXPORTSxx", 4, 0x2000),
        (b"OTHER\0\0\0xx", 4, 0x3000),
        (b"ABCDEFGHxx", 4, 0x4000),
        (b"MISSING\0xx", 4, 0),
        (b"EXPORTS\0xx", 1, 0x1000),
        (b"_EXPORTSxx", 1, 0),
        (b"ABCDEFGHxx", 3, 0),
        (b"ABCDEFGHxx", 4, 0x4000),
    ];
    for &(sz, count, expect) in cases {
        let got = walk(&table, count, sz);
        let oracle = get_coff_sym_oracle(&table, count, sz);
        assert_eq!(oracle, expect, "oracle sz={sz:?} count={count}");
        assert_eq!(got, expect, "walk sz={sz:?} count={count}");
    }
}

#[test]
fn hit_first_middle_last_and_miss() {
    let a = make_sym(b"AAA\0\0\0\0\0", 0x1111);
    let b = make_sym(b"BBB\0\0\0\0\0", 0x2222);
    let c = make_sym(b"CCC\0\0\0\0\0", 0x3333);
    let table = pack(&[a, b, c]);
    assert_eq!(get_coff_sym_oracle(&table, 3, b"AAA\0\0\0\0\0"), 0x1111);
    assert_eq!(get_coff_sym_oracle(&table, 3, b"BBB\0\0\0\0\0"), 0x2222);
    assert_eq!(get_coff_sym_oracle(&table, 3, b"CCC\0\0\0\0\0"), 0x3333);
    assert_eq!(get_coff_sym_oracle(&table, 3, b"DDD\0\0\0\0\0"), 0);
    assert_eq!(walk(&table, 3, b"AAA\0\0\0\0\0"), get_coff_sym_oracle(&table, 3, b"AAA\0\0\0\0\0"));
}

#[test]
fn first_match_wins_on_duplicate_names() {
    let a = make_sym(b"SAME\0\0\0\0", 0xAAAA);
    let b = make_sym(b"SAME\0\0\0\0", 0xBBBB);
    let table = pack(&[a, b]);
    assert_eq!(walk(&table, 2, b"SAME\0\0\0\0"), 0xAAAA);
    assert_eq!(get_coff_sym_oracle(&table, 2, b"SAME\0\0\0\0"), 0xAAAA);
}

#[test]
fn single_symbol_hit_and_miss() {
    let a = make_sym(b"ONLY\0\0\0\0", 0x55AA);
    let table = pack(&[a]);
    assert_eq!(get_coff_sym_oracle(&table, 1, b"ONLY\0\0\0\0"), 0x55AA);
    assert_eq!(get_coff_sym_oracle(&table, 1, b"NONE\0\0\0\0"), 0);
}

#[test]
fn get_coff_sym_prng_50k_matches_oracle() {
    let mut state = GET_COFF_SYM_PRNG_SEED;
    let mut next = || {
        state ^= state << 13;
        state ^= state >> 17;
        state ^= state << 5;
        state
    };
    for _ in 0..50_000 {
        let n_syms = (next() % 8) + 1;
        let mut syms = Vec::with_capacity(n_syms as usize);
        for i in 0..n_syms {
            let mut name = [0u8; 8];
            for b in &mut name {
                *b = (next() & 0xFF) as u8;
            }
            if (next() & 7) == 0 {
                name[(next() as usize) % 8] = 0;
            }
            let value = next().wrapping_mul(0x9E37_79B9).wrapping_add(i);
            syms.push(make_sym(&name, value));
        }
        let table = pack(&syms);
        let mut q = [0u8; 8];
        if (next() & 1) == 0 {
            let idx = (next() % n_syms) as usize;
            q.copy_from_slice(&syms[idx][..8]);
        } else {
            for b in &mut q {
                *b = (next() & 0xFF) as u8;
            }
        }
        let count = (next() % n_syms) + 1;
        let expect = get_coff_sym_oracle(&table, count, &q);
        let got = walk(&table, count, &q);
        assert_eq!(got, expect, "count={count} n_syms={n_syms}");
    }
}

#[test]
fn make_sym_layout() {
    let s = make_sym(b"LONGERNAME", 0x1122_3344);
    assert_eq!(&s[..8], b"LONGERNA");
    assert_eq!(&s[8..12], &[0x44, 0x33, 0x22, 0x11]);
    assert_eq!(&s[12..], &[0; 6]);
    let s = make_sym(b"AB", 7);
    assert_eq!(&s[..8], &[b'A', b'B', 0, 0, 0, 0, 0, 0]);
}

#[test]
fn make_fix_sym_layouts() {
    let s = make_fix_sym(b"INT1\0\0\0\0", 0x0102, 0x50);
    assert_eq!(&s[..8], b"INT1\0\0\0\0");
    assert_eq!(&s[8..12], &[0x50, 0, 0, 0]);
    assert_eq!(&s[12..14], &[0x02, 0x01]);
    let l = make_fix_sym_long(0x0A0B_0C0D, 0xDEAD);
    assert_eq!(&l[..4], &[0, 0, 0, 0]);
    assert_eq!(&l[4..8], &[0x0D, 0x0C, 0x0B, 0x0A]);
    assert_eq!(&l[8..12], &[0xAD, 0xDE, 0, 0]);
    assert_eq!(&l[12..14], &[0, 0]);
}

#[test]
fn fix_coff_symbols_seed_constant() {
    assert_eq!(FIX_COFF_SYMBOLS_PRNG_SEED, 0x4355_4255);
}

#[test]
fn coff_sym_name_len_unchanged() {
    assert_eq!(COFF_SYM_NAME_LEN, 8);
}
