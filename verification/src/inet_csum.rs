//! RFC 1071 one's-complement checksum over big-endian 16-bit words.

use vstd::prelude::*;

verus! {

/// Word `k` (bytes `2k`, `2k+1`, big-endian); a word starting at `skip` reads as zero.
pub open spec fn csum_word(data: Seq<u8>, skip: Option<int>, k: int) -> int {
    if skip == Some(2 * k) {
        0
    } else {
        data[2 * k] as int * 256 + data[2 * k + 1] as int
    }
}

/// Sum of the first `n` words.
pub open spec fn csum_words(data: Seq<u8>, skip: Option<int>, n: nat) -> int
    decreases n,
{
    if n == 0 {
        0
    } else {
        csum_words(data, skip, (n - 1) as nat) + csum_word(data, skip, n - 1)
    }
}

/// The trailing odd byte, as the high byte of a last word (zero when skipped).
pub open spec fn csum_tail(data: Seq<u8>, skip: Option<int>) -> int {
    if data.len() % 2 == 1 && skip != Some(data.len() - 1) {
        data[data.len() - 1] as int * 256
    } else {
        0
    }
}

/// Plain (unfolded) sum of all words of `data`.
pub open spec fn csum_total(data: Seq<u8>, skip: Option<int>) -> int {
    csum_words(data, skip, (data.len() / 2) as nat) + csum_tail(data, skip)
}

/// End-around carry folding down to 16 bits.
pub open spec fn fold16(x: int) -> int
    decreases x,
{
    if x < 0x1_0000 {
        x
    } else {
        proof {
            assert(x % 0x1_0000 + x / 0x1_0000 < x);
        }
        fold16(x % 0x1_0000 + x / 0x1_0000)
    }
}

/// The transmitted checksum of a sum: the complement of its 16-bit fold, with
/// a computed zero sent as `0xFFFF`.
pub open spec fn csum_of(total: int) -> u16 {
    let c = 0xFFFF - fold16(total);
    if c == 0 { 0xFFFFu16 } else { c as u16 }
}

pub proof fn lemma_fold16_range(x: int)
    requires
        x >= 0,
    ensures
        0 <= fold16(x) < 0x1_0000,
    decreases x,
{
    if x >= 0x1_0000 {
        assert(x % 0x1_0000 + x / 0x1_0000 < x);
        lemma_fold16_range(x % 0x1_0000 + x / 0x1_0000);
    }
}

pub proof fn lemma_csum_words_bound(data: Seq<u8>, skip: Option<int>, n: nat)
    requires
        2 * n <= data.len(),
    ensures
        0 <= csum_words(data, skip, n) <= n * 0xFFFF,
    decreases n,
{
    if n > 0 {
        lemma_csum_words_bound(data, skip, (n - 1) as nat);
    }
}

/// Fold a 32-bit sum to 16 bits and complement it (`0` is sent as `0xFFFF`).
pub fn fold_and_complement(sum: u32) -> (c: u16)
    ensures
        c == csum_of(sum as int),
{
    let mut s = sum;
    while (s >> 16) != 0
        invariant
            fold16(s as int) == fold16(sum as int),
        decreases s,
    {
        let lo = s & 0xffff;
        let hi = s >> 16;
        assert(lo as int == s as int % 0x1_0000 && hi as int == s as int / 0x1_0000) by (bit_vector)
            requires lo == s & 0xffff, hi == s >> 16u32;
        assert(s as int >= 0x1_0000) by (bit_vector)
            requires (s >> 16u32) != 0;
        assert(lo + hi < s);
        s = lo + hi;
    }
    assert(s < 0x1_0000) by (bit_vector)
        requires (s >> 16u32) == 0;
    let c = 0xFFFFu32 - s;
    if c == 0 { 0xffff } else { c as u16 }
}

/// Checksum of `data` with the word starting at `skip` (if any) read as zero.
pub fn rfc1071_checksum(data: &[u8], checksum_field_off: Option<usize>) -> (c: u16)
    requires
        data.len() <= 131074,
    ensures
        c == csum_of(csum_total(data@, match checksum_field_off { Some(o) => Some(o as int), None => None })),
{
    let ghost skip = match checksum_field_off { Some(o) => Some(o as int), None => None::<int> };
    let mut sum: u32 = 0;
    let mut i: usize = 0;
    proof { lemma_csum_words_bound(data@, skip, (data.len() / 2) as nat); }
    while i + 1 < data.len()
        invariant
            i % 2 == 0,
            i <= data.len(),
            data.len() <= 131074,
            i + 1 >= data.len() ==> i == 2 * (data.len() / 2) || i == data.len(),
            sum as int == csum_words(data@, skip, (i / 2) as nat),
            skip == match checksum_field_off { Some(o) => Some(o as int), None => None::<int> },
        decreases data.len() - i,
    {
        let is_skip = match checksum_field_off { Some(o) => o == i, None => false };
        let hi: u8 = if is_skip { 0 } else { data[i] };
        let lo: u8 = if is_skip { 0 } else { data[i + 1] };
        proof {
            lemma_csum_words_bound(data@, skip, (i / 2 + 1) as nat);
            assert(csum_words(data@, skip, (i / 2 + 1) as nat)
                == csum_words(data@, skip, (i / 2) as nat) + csum_word(data@, skip, i as int / 2));
            assert(2 * (i as int / 2) == i);
        }
        sum = sum + ((hi as u32) * 256 + (lo as u32));
        i = i + 2;
    }
    proof {
        assert(i / 2 == data.len() / 2);
    }
    if i < data.len() {
        let is_skip = match checksum_field_off { Some(o) => o == i, None => false };
        let b: u8 = if is_skip { 0 } else { data[i] };
        assert(i == data.len() - 1);
        proof { lemma_csum_words_bound(data@, skip, (data.len() / 2) as nat); }
        sum = sum + (b as u32) * 256;
    }
    fold_and_complement(sum)
}

/// Two buffers that agree outside the skipped word have the same total.
pub proof fn lemma_csum_ignores_skipped(a: Seq<u8>, b: Seq<u8>, skip: int)
    requires
        a.len() == b.len(),
        0 <= skip,
        skip % 2 == 0,
        skip + 1 < a.len(),
        forall|i: int| 0 <= i < a.len() && i != skip && i != skip + 1 ==> a[i] == b[i],
    ensures
        csum_total(a, Some(skip)) == csum_total(b, Some(skip)),
{
    lemma_csum_words_eq(a, b, skip, (a.len() / 2) as nat);
}

proof fn lemma_csum_words_eq(a: Seq<u8>, b: Seq<u8>, skip: int, n: nat)
    requires
        a.len() == b.len(),
        2 * n <= a.len(),
        0 <= skip,
        skip % 2 == 0,
        forall|i: int| 0 <= i < a.len() && i != skip && i != skip + 1 ==> a[i] == b[i],
    ensures
        csum_words(a, Some(skip), n) == csum_words(b, Some(skip), n),
    decreases n,
{
    if n > 0 {
        lemma_csum_words_eq(a, b, skip, (n - 1) as nat);
        let k = n - 1;
        if Some(skip) != Some(2 * k) {
            assert(2 * k != skip);
            assert(2 * k + 1 != skip);
            assert(a[2 * k] == b[2 * k]);
            assert(a[2 * k + 1] == b[2 * k + 1]);
        }
    }
}

/// The transmitted checksum is never zero.
pub proof fn law_checksum_never_zero(total: int)
    requires
        total >= 0,
    ensures
        csum_of(total) != 0,
{
    lemma_fold16_range(total);
}

/// Folding keeps the value modulo `0xFFFF`, and a positive sum folds to a
/// positive value.
pub proof fn lemma_fold16_mod(x: int)
    requires
        x >= 0,
    ensures
        fold16(x) % 0xFFFF == x % 0xFFFF,
        x > 0 ==> fold16(x) > 0,
    decreases x,
{
    if x >= 0x1_0000 {
        let l = x % 0x1_0000;
        let h = x / 0x1_0000;
        assert(x == h * 0x1_0000 + l);
        assert((l + h) % 0xFFFF == x % 0xFFFF) by (nonlinear_arith)
            requires x == h * 0x1_0000 + l, h >= 1, 0 <= l;
        assert(l + h < x);
        lemma_fold16_mod(l + h);
    }
}

/// The word sum with nothing skipped is the sum with the word at `o` skipped
/// plus that word.
proof fn lemma_words_unskipped(d: Seq<u8>, o: int, n: nat)
    requires
        0 <= o,
        o % 2 == 0,
        o + 1 < d.len(),
        2 * n <= d.len(),
    ensures
        csum_words(d, None, n) == csum_words(d, Some(o), n) + (if o / 2 < n { d[o] as int * 256 + d[o + 1] as int } else { 0 }),
    decreases n,
{
    if n > 0 {
        lemma_words_unskipped(d, o, (n - 1) as nat);
        assert(2 * ((n - 1) as int) == o <==> n - 1 == o / 2);
    }
}

/// `s` with the 16-bit value `c` stored big-endian at `o`.
pub open spec fn put_be16(s: Seq<u8>, o: int, c: u16) -> Seq<u8> {
    s.update(o, (c / 0x100) as u8).update(o + 1, (c % 0x100) as u8)
}

/// Over any even-length data with the checksum field at an even offset:
/// once the computed checksum is stored in the field, the folded sum of all
/// words is `0xFFFF`, and computing the checksum again gives the same value.
pub proof fn law_stored_checksum_sums_to_ffff(data: Seq<u8>, o: int)
    requires
        data.len() % 2 == 0,
        0 <= o,
        o % 2 == 0,
        o + 1 < data.len(),
    ensures
        fold16(csum_total(put_be16(data, o, csum_of(csum_total(data, Some(o)))), None)) == 0xFFFF,
        csum_of(csum_total(put_be16(data, o, csum_of(csum_total(data, Some(o)))), Some(o)))
            == csum_of(csum_total(data, Some(o))),
{
    let st = csum_total(data, Some(o));
    let c = csum_of(st);
    let d2 = put_be16(data, o, c);
    lemma_csum_ignores_skipped(d2, data, o);
    let n = (data.len() / 2) as nat;
    lemma_words_unskipped(d2, o, n);
    assert(d2[o] as int * 256 + d2[o + 1] as int == c as int);
    lemma_csum_words_bound(data, Some(o), n);
    let t = csum_total(d2, None);
    assert(t == st + c);
    lemma_fold16_range(st);
    lemma_fold16_mod(st);
    lemma_fold16_mod(t);
    lemma_fold16_range(t);
    assert(t % 0xFFFF == 0) by (nonlinear_arith)
        requires
            t == st + c,
            fold16(st) % 0xFFFF == st % 0xFFFF,
            0 <= fold16(st) < 0x1_0000,
            c == (if 0xFFFF - fold16(st) == 0 { 0xFFFF } else { 0xFFFF - fold16(st) }),
    ;
}

} // verus!
