//! COFF symbol records: `strncmp`-style name equality, lookup of a symbol's
//! value by name, and record construction.

use vstd::prelude::*;
use vstd::slice::slice_subrange;
use crate::le::{le_u32, le_bytes32, read_u32_le};

verus! {

/// Seed of the pseudo-random lookup corpus (`'CUTT'`).
pub const GET_COFF_SYM_PRNG_SEED: u32 = 0x4355_5454;

/// Seed of the pseudo-random symbol-fixup corpus (`'CUBU'`).
pub const FIX_COFF_SYMBOLS_PRNG_SEED: u32 = 0x4355_4255;

/// Size of a symbol record: name 8, value 4, section 2, type 2, class 1, aux 1.
pub const COFF_SYM_SIZE: usize = 18;

/// Length of the inline name (and of the name comparison).
pub const COFF_SYM_NAME_LEN: u32 = 8;

/// Offset of the value.
pub const OFF_SYM_VALUE: usize = 8;

/// Offset of the section number.
pub const OFF_SYM_SECTION: usize = 12;

/// `strncmp(a, b, n) == 0` from position `i` on: the first differing byte
/// decides `false`, a shared NUL or reaching `n` decides `true`.
pub open spec fn strn_eq_from(a: Seq<u8>, b: Seq<u8>, n: int, i: int) -> bool
    decreases n - i,
{
    if i >= n {
        true
    } else if a[i] != b[i] {
        false
    } else if a[i] == 0 {
        true
    } else {
        strn_eq_from(a, b, n, i + 1)
    }
}

/// `strncmp(a, b, n) == 0`.
pub open spec fn strn_eq(a: Seq<u8>, b: Seq<u8>, n: int) -> bool {
    strn_eq_from(a, b, n, 0)
}

/// Every byte the comparison from `i` looks at is present in both buffers.
pub open spec fn strn_readable_from(a: Seq<u8>, b: Seq<u8>, n: int, i: int) -> bool
    decreases n - i,
{
    if i >= n {
        true
    } else {
        &&& i < a.len()
        &&& i < b.len()
        &&& (a[i] != b[i] || a[i] == 0 || strn_readable_from(a, b, n, i + 1))
    }
}

/// Buffers of at least `n` bytes can be compared over `n` bytes.
pub proof fn lemma_strn_readable_len(a: Seq<u8>, b: Seq<u8>, n: int, i: int)
    requires
        0 <= i,
        a.len() >= n,
        b.len() >= n,
    ensures
        strn_readable_from(a, b, n, i),
    decreases n - i,
{
    if i < n {
        lemma_strn_readable_len(a, b, n, i + 1);
    }
}

/// Whether the first `n` bytes of `a` and `b` are equal up to a shared NUL.
pub fn name_eq_n(a: &[u8], b: &[u8], n: u32) -> (eq: bool)
    requires
        strn_readable_from(a@, b@, n as int, 0),
    ensures
        eq == strn_eq(a@, b@, n as int),
{
    let mut i: u32 = 0;
    while i < n
        invariant
            i <= n,
            strn_eq(a@, b@, n as int) == strn_eq_from(a@, b@, n as int, i as int),
            strn_readable_from(a@, b@, n as int, i as int),
        decreases n - i,
    {
        let ca = a[i as usize];
        let cb = b[i as usize];
        if ca != cb {
            return false;
        }
        if ca == 0 {
            return true;
        }
        i = i + 1;
    }
    true
}

/// The value of the first of the symbols `i .. count` whose name matches
/// `query` (over 8 bytes), or 0.
pub open spec fn coff_sym_lookup_from(table: Seq<u8>, count: int, query: Seq<u8>, i: int) -> u32
    decreases count - i,
{
    if i >= count {
        0
    } else if strn_eq(table.subrange(18 * i, 18 * i + 8), query.subrange(0, 8), 8) {
        le_u32(table, 18 * i + 8)
    } else {
        coff_sym_lookup_from(table, count, query, i + 1)
    }
}

/// Value of the first of `count` symbol records in `table` whose name matches
/// `sz_sym` under `strncmp(.., 8)`, or 0 when none does.
pub fn get_coff_sym_oracle(table: &[u8], count: u32, sz_sym: &[u8]) -> (v: u32)
    requires
        sz_sym.len() >= 8,
        count > 0,
        table.len() >= count as int * 18,
    ensures
        v == coff_sym_lookup_from(table@, count as int, sz_sym@, 0),
{
    let q = slice_subrange(sz_sym, 0, 8);
    let mut i: u32 = 0;
    while i < count
        invariant
            i <= count,
            table.len() >= count as int * 18,
            sz_sym.len() >= 8,
            q@ == sz_sym@.subrange(0, 8),
            coff_sym_lookup_from(table@, count as int, sz_sym@, 0)
                == coff_sym_lookup_from(table@, count as int, sz_sym@, i as int),
        decreases count - i,
    {
        let off: usize = (i as usize) * COFF_SYM_SIZE;
        let name = slice_subrange(table, off, off + 8);
        proof {
            lemma_strn_readable_len(name@, q@, 8, 0);
        }
        if name_eq_n(name, q, COFF_SYM_NAME_LEN) {
            return read_u32_le(table, off + OFF_SYM_VALUE);
        }
        i = i + 1;
    }
    0
}

/// The record `make_sym` builds: the first `min(len, 8)` bytes of the name,
/// the value little-endian at offset 8, zeros elsewhere.
pub open spec fn sym_record(name: Seq<u8>, value: u32) -> Seq<u8> {
    Seq::new(18, |i: int|
        if i < 8 && i < name.len() {
            name[i]
        } else if 8 <= i < 12 {
            le_bytes32(value)[i - 8]
        } else {
            0u8
        })
}

/// A synthetic symbol record with a name and a value.
pub fn make_sym(name: &[u8], value: u32) -> (s: [u8; COFF_SYM_SIZE])
    ensures
        s@ == sym_record(name@, value),
{
    let mut s = [0u8; COFF_SYM_SIZE];
    let n: usize = if name.len() < 8 { name.len() } else { 8 };
    let mut k: usize = 0;
    while k < n
        invariant
            k <= n,
            n <= 8,
            n <= name.len(),
            forall|j: int| 0 <= j < k ==> s@[j] == name@[j],
            forall|j: int| k <= j < 18 ==> s@[j] == 0u8,
        decreases n - k,
    {
        s[k] = name[k];
        k = k + 1;
    }
    s[8] = (value % 0x100) as u8;
    s[9] = ((value / 0x100) % 0x100) as u8;
    s[10] = ((value / 0x1_0000) % 0x100) as u8;
    s[11] = (value / 0x100_0000) as u8;
    assert(s@ =~= sym_record(name@, value));
    s
}

/// A symbol record with an inline 8-byte name, a section number and a value.
pub open spec fn fix_sym_record(name8: Seq<u8>, section: u16, value: u32) -> Seq<u8> {
    Seq::new(18, |i: int|
        if i < 8 {
            name8[i]
        } else if 8 <= i < 12 {
            le_bytes32(value)[i - 8]
        } else if i == 12 {
            (section % 0x100) as u8
        } else if i == 13 {
            (section / 0x100) as u8
        } else {
            0u8
        })
}

/// A symbol record with an inline name, section number and value.
pub fn make_fix_sym(name8: &[u8; 8], section: u16, value: u32) -> (s: [u8; COFF_SYM_SIZE])
    ensures
        s@ == fix_sym_record(name8@, section, value),
{
    let mut s = [0u8; COFF_SYM_SIZE];
    let mut k: usize = 0;
    while k < 8
        invariant
            k <= 8,
            forall|j: int| 0 <= j < k ==> s@[j] == name8@[j],
            forall|j: int| k <= j < 18 ==> s@[j] == 0u8,
        decreases 8 - k,
    {
        s[k] = name8[k];
        k = k + 1;
    }
    s[8] = (value % 0x100) as u8;
    s[9] = ((value / 0x100) % 0x100) as u8;
    s[10] = ((value / 0x1_0000) % 0x100) as u8;
    s[11] = (value / 0x100_0000) as u8;
    s[12] = (section % 0x100) as u8;
    s[13] = (section / 0x100) as u8;
    assert(s@ =~= fix_sym_record(name8@, section, value));
    s
}

/// A long-name external symbol record: name dword 0, string-table offset in
/// the second name dword, the value at 8, section 0.
pub open spec fn fix_sym_long_record(str_off: u32, value: u32) -> Seq<u8> {
    Seq::new(18, |i: int|
        if 4 <= i < 8 {
            le_bytes32(str_off)[i - 4]
        } else if 8 <= i < 12 {
            le_bytes32(value)[i - 8]
        } else {
            0u8
        })
}

/// A long-name external symbol record.
pub fn make_fix_sym_long(str_off: u32, value: u32) -> (s: [u8; COFF_SYM_SIZE])
    ensures
        s@ == fix_sym_long_record(str_off, value),
{
    let mut s = [0u8; COFF_SYM_SIZE];
    s[4] = (str_off % 0x100) as u8;
    s[5] = ((str_off / 0x100) % 0x100) as u8;
    s[6] = ((str_off / 0x1_0000) % 0x100) as u8;
    s[7] = (str_off / 0x100_0000) as u8;
    s[8] = (value % 0x100) as u8;
    s[9] = ((value / 0x100) % 0x100) as u8;
    s[10] = ((value / 0x1_0000) % 0x100) as u8;
    s[11] = (value / 0x100_0000) as u8;
    assert(s@ =~= fix_sym_long_record(str_off, value));
    s
}

/// Name equality is symmetric.
pub proof fn law_strn_eq_symmetric(a: Seq<u8>, b: Seq<u8>, n: int, i: int)
    ensures
        strn_eq_from(a, b, n, i) == strn_eq_from(b, a, n, i),
    decreases n - i,
{
    if i < n && a[i] == b[i] && a[i] != 0 {
        law_strn_eq_symmetric(a, b, n, i + 1);
    }
}

/// A name always equals itself.
pub proof fn law_strn_eq_reflexive(a: Seq<u8>, n: int, i: int)
    ensures
        strn_eq_from(a, a, n, i),
    decreases n - i,
{
    if i < n && a[i] != 0 {
        law_strn_eq_reflexive(a, n, i + 1);
    }
}

/// A record built by `make_sym` is found by its own (NUL-padded) name.
pub proof fn law_make_sym_found(name: Seq<u8>, value: u32)
    requires
        name.len() >= 8,
    ensures
        coff_sym_lookup_from(sym_record(name, value), 1, name, 0) == value,
{
    let r = sym_record(name, value);
    assert(r.subrange(0, 8) =~= name.subrange(0, 8));
    law_strn_eq_reflexive(name.subrange(0, 8), 8, 0);
    assert(le_u32(r, 8) == value);
}


/// Whether symbol `i` of `table` matches `query` over 8 bytes.
pub open spec fn sym_matches(table: Seq<u8>, query: Seq<u8>, i: int) -> bool {
    strn_eq(table.subrange(18 * i, 18 * i + 8), query.subrange(0, 8), 8)
}

/// The lookup answers the value of the least matching symbol index, or 0 when
/// no symbol below `count` matches.
pub proof fn law_lookup_least_match(table: Seq<u8>, count: int, query: Seq<u8>)
    requires
        0 <= count,
    ensures
        forall|i: int|
            0 <= i < count && #[trigger] sym_matches(table, query, i) && (forall|j: int|
                0 <= j < i ==> !sym_matches(table, query, j)) ==> coff_sym_lookup_from(table, count, query, 0)
                == le_u32(table, 18 * i + 8),
        (forall|j: int| 0 <= j < count ==> !sym_matches(table, query, j)) ==> coff_sym_lookup_from(
            table,
            count,
            query,
            0,
        ) == 0,
{
    lemma_lookup_from(table, count, query, 0);
}

proof fn lemma_lookup_from(table: Seq<u8>, count: int, query: Seq<u8>, k: int)
    requires
        0 <= k <= count,
    ensures
        forall|i: int|
            k <= i < count && #[trigger] sym_matches(table, query, i) && (forall|j: int|
                k <= j < i ==> !sym_matches(table, query, j)) ==> coff_sym_lookup_from(table, count, query, k)
                == le_u32(table, 18 * i + 8),
        (forall|j: int| k <= j < count ==> !sym_matches(table, query, j)) ==> coff_sym_lookup_from(
            table,
            count,
            query,
            k,
        ) == 0,
    decreases count - k,
{
    if k < count {
        lemma_lookup_from(table, count, query, k + 1);
        assert(sym_matches(table, query, k) == strn_eq(table.subrange(18 * k, 18 * k + 8), query.subrange(0, 8), 8));
        assert forall|i: int|
            k <= i < count && #[trigger] sym_matches(table, query, i) && (forall|j: int|
                k <= j < i ==> !sym_matches(table, query, j)) implies coff_sym_lookup_from(table, count, query, k)
                == le_u32(table, 18 * i + 8) by {
            if i > k {
                assert(!sym_matches(table, query, k));
            }
        }
        if forall|j: int| k <= j < count ==> !sym_matches(table, query, j) {
            assert(!sym_matches(table, query, k));
        }
    }
}

} // verus!
