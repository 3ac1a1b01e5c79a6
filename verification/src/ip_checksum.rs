//! The network stack's partial checksum (`checksum_1`): big-endian 16-bit
//! words added into the low half of a 32-bit accumulator with byte-wise
//! carries, eight bytes per round, then 4-, 2- and 1-byte remnants.

use vstd::prelude::*;

verus! {

/// `add dl, b` (with carry in): the low byte of `sum` plus `b`; the carry out.
#[verifier::opaque]
pub open spec fn add_dl(sum: u32, b: u8, cin: bool) -> (u32, bool) {
    let lo = sum % 256;
    let t = lo + b + (if cin { 1int } else { 0int });
    ((sum - lo + t % 256) as u32, t > 255)
}

/// `adc dh, b`: the second byte of `sum` plus `b` and the carry; the carry out.
#[verifier::opaque]
pub open spec fn adc_dh(sum: u32, b: u8, cin: bool) -> (u32, bool) {
    let hi = (sum / 256) % 256;
    let t = hi + b + (if cin { 1int } else { 0int });
    ((sum - hi * 256 + (t % 256) * 256) as u32, t > 255)
}

/// `adc edx, 0`: the carry added to all of `sum` (wrapping); the carry out.
pub open spec fn adc_edx(sum: u32, cin: bool) -> (u32, bool) {
    if !cin {
        (sum, false)
    } else if sum == u32::MAX {
        (0, true)
    } else {
        ((sum + 1) as u32, false)
    }
}

/// One big-endian word `d[o]:d[o+1]` added into `sum` with carry in.
pub open spec fn add_word(sum: u32, d: Seq<u8>, o: int, cin: bool) -> (u32, bool) {
    let a = add_dl(sum, d[o + 1], cin);
    adc_dh(a.0, d[o], a.1)
}

/// One 8-byte round at `o`: four words chained by carries, the last carry
/// folded in; the carry out of the fold.
pub open spec fn round8(sum: u32, d: Seq<u8>, o: int) -> (u32, bool) {
    let w1 = add_word(sum, d, o, false);
    let w2 = add_word(w1.0, d, o + 2, w1.1);
    let w3 = add_word(w2.0, d, o + 4, w2.1);
    let w4 = add_word(w3.0, d, o + 6, w3.1);
    adc_edx(w4.0, w4.1)
}

/// Rounds from `o` with a pending carry `cf`: each of the `n` rounds starts
/// without carry; the carry still pending after the last is folded in.
pub open spec fn rounds(sum: u32, cf: bool, d: Seq<u8>, o: int, n: nat) -> u32
    decreases n,
{
    if n == 0 {
        adc_edx(sum, cf).0
    } else {
        let r = round8(sum, d, o);
        rounds(r.0, r.1, d, o + 8, (n - 1) as nat)
    }
}

/// Four bytes at `o`: two words, carry folded.
pub open spec fn rem4(sum: u32, d: Seq<u8>, o: int) -> u32 {
    let w1 = add_word(sum, d, o, false);
    let w2 = add_word(w1.0, d, o + 2, w1.1);
    adc_edx(w2.0, w2.1).0
}

/// Two bytes at `o`: one word, carry folded.
pub open spec fn rem2(sum: u32, d: Seq<u8>, o: int) -> u32 {
    let w = add_word(sum, d, o, false);
    adc_edx(w.0, w.1).0
}

/// A last odd byte at `o`, added as the high byte of a word, carry folded.
pub open spec fn rem1(sum: u32, d: Seq<u8>, o: int) -> u32 {
    let a = adc_dh(sum, d[o], false);
    adc_edx(a.0, a.1).0
}

/// The partial checksum of `d` from `seed`: whole 8-byte rounds, then a
/// 4-byte, a 2-byte and a 1-byte remnant as the length calls for.
pub open spec fn checksum_spec(seed: u32, d: Seq<u8>) -> u32 {
    let n = d.len();
    let q = n / 8;
    let s1 = if q == 0 { seed } else { rounds(seed, false, d, 0, q) };
    let o4: int = 8 * q as int;
    let s2 = if (n / 4) % 2 == 1 { rem4(s1, d, o4) } else { s1 };
    let o2 = o4 + (if (n / 4) % 2 == 1 { 4int } else { 0int });
    let s3 = if (n / 2) % 2 == 1 { rem2(s2, d, o2) } else { s2 };
    let o1 = o2 + (if (n / 2) % 2 == 1 { 2int } else { 0int });
    if n % 2 == 1 { rem1(s3, d, o1) } else { s3 }
}

/// The sum of the big-endian 16-bit words of `d`, a last odd byte counted as
/// the high byte of a word.
pub open spec fn be_words_sum(d: Seq<u8>) -> int
    decreases d.len(),
{
    if d.len() == 0 {
        0
    } else if d.len() == 1 {
        d[0] * 256
    } else {
        d[0] * 256 + d[1] + be_words_sum(d.subrange(2, d.len() as int))
    }
}

proof fn lemma_words_nonneg(d: Seq<u8>)
    ensures
        be_words_sum(d) >= 0,
    decreases d.len(),
{
    if d.len() >= 2 {
        lemma_words_nonneg(d.subrange(2, d.len() as int));
    }
}

/// Splitting at an even distance from the start splits the word sum.
proof fn lemma_words_split(d: Seq<u8>, o: int, m: int, e: int)
    requires
        0 <= o <= m <= e <= d.len(),
        (m - o) % 2 == 0,
    ensures
        be_words_sum(d.subrange(o, e)) == be_words_sum(d.subrange(o, m)) + be_words_sum(d.subrange(m, e)),
    decreases m - o,
{
    if m > o {
        let x = d.subrange(o, e);
        let y = d.subrange(o, m);
        assert(x.subrange(2, x.len() as int) =~= d.subrange(o + 2, e));
        assert(y.subrange(2, y.len() as int) =~= d.subrange(o + 2, m));
        assert(x[0] == d[o] && x[1] == d[o + 1] && y[0] == d[o] && y[1] == d[o + 1]);
        lemma_words_split(d, o + 2, m, e);
    } else {
        assert(d.subrange(o, m) =~= Seq::<u8>::empty());
    }
}

/// One word added without a carry out of the low 16 bits.
proof fn lemma_add_word_plain(sum: u32, d: Seq<u8>, o: int)
    requires
        0 <= o,
        o + 1 < d.len(),
        sum % 0x1_0000 + d[o] * 256 + d[o + 1] < 0x1_0000,
    ensures
        sum + d[o] * 256 + d[o + 1] <= u32::MAX,
        add_word(sum, d, o, false) == ((sum + d[o] * 256 + d[o + 1]) as u32, false),
        (sum + d[o] * 256 + d[o + 1]) % 0x1_0000 == sum % 0x1_0000 + d[o] * 256 + d[o + 1],
{
    reveal(add_dl);
    reveal(adc_dh);
    let b0 = d[o] as int;
    let b1 = d[o + 1] as int;
    let l = sum % 256;
    let h = (sum / 256) % 256;
    let big = sum / 0x1_0000;
    assert(sum == big * 0x1_0000 + h * 256 + l);
    assert(sum % 0x1_0000 == h * 256 + l);
    let t1 = l + b1;
    let c1 = t1 > 255;
    let s1 = sum - l + t1 % 256;
    assert(s1 == big * 0x1_0000 + h * 256 + t1 % 256);
    assert(s1 / 256 == big * 256 + h);
    assert((s1 / 256) % 256 == h);
    let t2 = h + b0 + (if c1 { 1int } else { 0int });
    assert(t2 <= 255);
    assert(add_dl(sum, d[o + 1], false) == (s1 as u32, c1));
    let s2 = s1 - h * 256 + (t2 % 256) * 256;
    assert(s2 == sum + b0 * 256 + b1);
    assert(adc_dh(s1 as u32, d[o], c1) == (s2 as u32, false));
}

/// A byte added as the high byte of a word without a carry out.
proof fn lemma_add_high_plain(sum: u32, b: u8)
    requires
        sum % 0x1_0000 + b * 256 < 0x1_0000,
    ensures
        sum + b * 256 <= u32::MAX,
        adc_dh(sum, b, false) == ((sum + b * 256) as u32, false),
{
    reveal(adc_dh);
    let l = sum % 256;
    let h = (sum / 256) % 256;
    let big = sum / 0x1_0000;
    assert(sum == big * 0x1_0000 + h * 256 + l);
    assert(sum % 0x1_0000 == h * 256 + l);
    assert(h + b <= 255);
}

proof fn lemma_word_single(d: Seq<u8>, o: int)
    requires
        0 <= o,
        o + 2 <= d.len(),
    ensures
        be_words_sum(d.subrange(o, o + 2)) == d[o] * 256 + d[o + 1],
{
    let x = d.subrange(o, o + 2);
    assert(x.len() == 2);
    assert(x.subrange(2, 2) =~= Seq::<u8>::empty());
    assert(be_words_sum(Seq::<u8>::empty()) == 0);
    assert(x[0] == d[o] && x[1] == d[o + 1]);
    assert(be_words_sum(x) == x[0] * 256 + x[1] + be_words_sum(x.subrange(2, 2)));
}

/// Two, four or more words: the sums of their pairs.
proof fn lemma_words_four(d: Seq<u8>, o: int)
    requires
        0 <= o,
        o + 4 <= d.len(),
    ensures
        be_words_sum(d.subrange(o, o + 4)) == d[o] * 256 + d[o + 1] + d[o + 2] * 256 + d[o + 3],
{
    lemma_words_split(d, o, o + 2, o + 4);
    lemma_word_single(d, o);
    lemma_word_single(d, o + 2);
}

/// Four bytes added as two words without a carry out.
proof fn lemma_rem4_plain(sum: u32, d: Seq<u8>, o: int)
    requires
        0 <= o,
        o + 4 <= d.len(),
        sum % 0x1_0000 + be_words_sum(d.subrange(o, o + 4)) < 0x1_0000,
    ensures
        sum + be_words_sum(d.subrange(o, o + 4)) <= u32::MAX,
        (sum + be_words_sum(d.subrange(o, o + 4))) % 0x1_0000 == sum % 0x1_0000 + be_words_sum(d.subrange(o, o + 4)),
        rem4(sum, d, o) == sum + be_words_sum(d.subrange(o, o + 4)),
        add_word(sum, d, o, false).1 == false,
        add_word(add_word(sum, d, o, false).0, d, o + 2, false) == ((sum + be_words_sum(d.subrange(o, o + 4))) as u32, false),
{
    lemma_words_four(d, o);
    lemma_add_word_plain(sum, d, o);
    let s1 = (sum + d[o] * 256 + d[o + 1]) as u32;
    lemma_add_word_plain(s1, d, o + 2);
}

/// Two bytes added as one word without a carry out.
proof fn lemma_rem2_plain(sum: u32, d: Seq<u8>, o: int)
    requires
        0 <= o,
        o + 2 <= d.len(),
        sum % 0x1_0000 + be_words_sum(d.subrange(o, o + 2)) < 0x1_0000,
    ensures
        rem2(sum, d, o) == sum + be_words_sum(d.subrange(o, o + 2)),
        (sum + be_words_sum(d.subrange(o, o + 2))) % 0x1_0000 == sum % 0x1_0000 + be_words_sum(d.subrange(o, o + 2)),
{
    lemma_word_single(d, o);
    lemma_add_word_plain(sum, d, o);
}

/// A round of four words without a carry out adds them.
proof fn lemma_round_plain(sum: u32, d: Seq<u8>, o: int)
    requires
        0 <= o,
        o + 8 <= d.len(),
        sum % 0x1_0000 + be_words_sum(d.subrange(o, o + 8)) < 0x1_0000,
    ensures
        sum + be_words_sum(d.subrange(o, o + 8)) <= u32::MAX,
        (sum + be_words_sum(d.subrange(o, o + 8))) % 0x1_0000 == sum % 0x1_0000 + be_words_sum(d.subrange(o, o + 8)),
        round8(sum, d, o) == ((sum + be_words_sum(d.subrange(o, o + 8))) as u32, false),
{
    lemma_words_split(d, o, o + 4, o + 8);
    lemma_words_nonneg(d.subrange(o, o + 4));
    lemma_words_nonneg(d.subrange(o + 4, o + 8));
    lemma_rem4_plain(sum, d, o);
    let s2 = (sum + be_words_sum(d.subrange(o, o + 4))) as u32;
    lemma_rem4_plain(s2, d, o + 4);
}

/// `n` rounds without a carry out add all their words.
proof fn lemma_rounds_plain(sum: u32, d: Seq<u8>, o: int, n: nat)
    requires
        0 <= o,
        o + 8 * n <= d.len(),
        sum % 0x1_0000 + be_words_sum(d.subrange(o, o + 8 * n)) < 0x1_0000,
    ensures
        sum + be_words_sum(d.subrange(o, o + 8 * n)) <= u32::MAX,
        (sum + be_words_sum(d.subrange(o, o + 8 * n))) % 0x1_0000 == sum % 0x1_0000 + be_words_sum(d.subrange(o, o + 8 * n)),
        rounds(sum, false, d, o, n) == sum + be_words_sum(d.subrange(o, o + 8 * n)),
    decreases n,
{
    if n == 0 {
        assert(d.subrange(o, o) =~= Seq::<u8>::empty());
    } else {
        lemma_words_split(d, o, o + 8, o + 8 * n);
        lemma_words_nonneg(d.subrange(o, o + 8));
        lemma_words_nonneg(d.subrange(o + 8, o + 8 * n));
        lemma_round_plain(sum, d, o);
        let s1 = (sum + be_words_sum(d.subrange(o, o + 8))) as u32;
        assert(o + 8 + 8 * ((n - 1) as nat) == o + 8 * n);
        lemma_rounds_plain(s1, d, o + 8, (n - 1) as nat);
    }
}

/// The remnants after `q` whole rounds, without a carry out, add their words.
#[verifier::rlimit(40)]
proof fn lemma_remnants_plain(s1: u32, d: Seq<u8>, o4: int)
    requires
        o4 == 8 * (d.len() / 8),
        s1 % 0x1_0000 + be_words_sum(d.subrange(o4, d.len() as int)) < 0x1_0000,
    ensures
        ({
            let n = d.len();
            let s2 = if (n / 4) % 2 == 1 { rem4(s1, d, o4) } else { s1 };
            let o2 = o4 + (if (n / 4) % 2 == 1 { 4int } else { 0int });
            let s3 = if (n / 2) % 2 == 1 { rem2(s2, d, o2) } else { s2 };
            let o1 = o2 + (if (n / 2) % 2 == 1 { 2int } else { 0int });
            (if n % 2 == 1 { rem1(s3, d, o1) } else { s3 }) == s1 + be_words_sum(d.subrange(o4, d.len() as int))
        }),
{
    let n = d.len() as int;
    let b4 = (n / 4) % 2 == 1;
    let o2 = o4 + (if b4 { 4int } else { 0int });
    let b2 = (n / 2) % 2 == 1;
    let o1 = o2 + (if b2 { 2int } else { 0int });
    let b1 = n % 2 == 1;
    assert(o1 + (if b1 { 1int } else { 0int }) == n);
    lemma_words_split(d, o4, o2, n);
    lemma_words_split(d, o2, o1, n);
    lemma_words_nonneg(d.subrange(o4, o2));
    lemma_words_nonneg(d.subrange(o2, o1));
    lemma_words_nonneg(d.subrange(o1, n));
    let s2 = if b4 { rem4(s1, d, o4) } else { s1 };
    if b4 {
        lemma_rem4_plain(s1, d, o4);
    } else {
        assert(d.subrange(o4, o2) =~= Seq::<u8>::empty());
    }
    assert(s2 == s1 + be_words_sum(d.subrange(o4, o2)));
    assert(s2 % 0x1_0000 == s1 % 0x1_0000 + be_words_sum(d.subrange(o4, o2)));
    let s3 = if b2 { rem2(s2, d, o2) } else { s2 };
    if b2 {
        lemma_rem2_plain(s2, d, o2);
    } else {
        assert(d.subrange(o2, o1) =~= Seq::<u8>::empty());
    }
    assert(s3 == s2 + be_words_sum(d.subrange(o2, o1)));
    assert(s3 % 0x1_0000 == s2 % 0x1_0000 + be_words_sum(d.subrange(o2, o1)));
    if b1 {
        let x = d.subrange(o1, n);
        assert(x.len() == 1 && x[0] == d[o1]);
        lemma_add_high_plain(s3, d[o1]);
    } else {
        assert(d.subrange(o1, n) =~= Seq::<u8>::empty());
    }
}

/// Without a carry out of the low 16 bits, the partial checksum is the seed
/// plus the sum of all big-endian words of the data (a last odd byte as a
/// high byte): every byte is counted once.
#[verifier::rlimit(60)]
pub proof fn law_checksum_no_carry(seed: u32, d: Seq<u8>)
    requires
        seed % 0x1_0000 + be_words_sum(d) < 0x1_0000,
    ensures
        checksum_spec(seed, d) == seed + be_words_sum(d),
{
    let n = d.len() as int;
    let q = n / 8;
    let o4 = 8 * q;
    assert(d.subrange(0, n) =~= d);
    lemma_words_split(d, 0, o4, n);
    lemma_words_nonneg(d.subrange(0, o4));
    lemma_words_nonneg(d.subrange(o4, n));
    let s1 = if q == 0 { seed } else { rounds(seed, false, d, 0, q as nat) };
    if q > 0 {
        lemma_rounds_plain(seed, d, 0, q as nat);
    } else {
        assert(d.subrange(0, 0) =~= Seq::<u8>::empty());
    }
    assert(s1 == seed + be_words_sum(d.subrange(0, o4)));
    lemma_remnants_plain(s1, d, o4);
}

/// `x` is `y` less some whole multiple of `0xFFFF`: what is left of `y` after
/// carries out of the low 16 bits are folded back in (ones'-complement).
pub open spec fn folds_to(x: int, y: int) -> bool {
    x <= y && (y - x) % 0xFFFF == 0
}

proof fn lemma_folds_trans(x: int, y: int, z: int)
    requires
        folds_to(x, y),
        folds_to(y, z),
    ensures
        folds_to(x, z),
{
    assert((z - x) == (z - y) + (y - x));
}

/// A word added with a carry in: the new sum plus 0x10000 for the carry out
/// is the old sum plus the word plus the carry in.
proof fn lemma_add_word_exact(sum: u32, d: Seq<u8>, o: int, cin: bool)
    requires
        0 <= o,
        o + 1 < d.len(),
    ensures
        add_word(sum, d, o, cin).0 + 0x1_0000 * (if add_word(sum, d, o, cin).1 { 1int } else { 0int })
            == sum + d[o] * 256 + d[o + 1] + (if cin { 1int } else { 0int }),
{
    reveal(add_dl);
    reveal(adc_dh);
    let b0 = d[o] as int;
    let b1 = d[o + 1] as int;
    let ci = if cin { 1int } else { 0int };
    let l = sum % 256;
    let h = (sum / 256) % 256;
    let big = sum / 0x1_0000;
    assert(sum == big * 0x1_0000 + h * 256 + l);
    let t1 = l + b1 + ci;
    let c1 = t1 > 255;
    let c1i = if c1 { 1int } else { 0int };
    assert(t1 % 256 == t1 - 256 * c1i);
    let s1 = sum - l + t1 % 256;
    assert(s1 == big * 0x1_0000 + h * 256 + t1 % 256);
    assert(s1 / 256 == big * 256 + h);
    assert((s1 / 256) % 256 == h);
    assert(add_dl(sum, d[o + 1], cin) == (s1 as u32, c1));
    let t2 = h + b0 + c1i;
    let c2i = if t2 > 255 { 1int } else { 0int };
    assert(t2 % 256 == t2 - 256 * c2i);
    let s2 = s1 - h * 256 + (t2 % 256) * 256;
    assert(s2 + 0x1_0000 * c2i == sum + b0 * 256 + b1 + ci);
    assert(adc_dh(s1 as u32, d[o], c1) == (s2 as u32, t2 > 255));
}

/// A byte added as a high byte: the new sum plus 0x10000 for the carry out.
proof fn lemma_add_high_exact(sum: u32, b: u8)
    ensures
        adc_dh(sum, b, false).0 + 0x1_0000 * (if adc_dh(sum, b, false).1 { 1int } else { 0int }) == sum + b * 256,
{
    reveal(adc_dh);
    let l = sum % 256;
    let h = (sum / 256) % 256;
    let big = sum / 0x1_0000;
    assert(sum == big * 0x1_0000 + h * 256 + l);
    let t = h + b;
    let ci = if t > 255 { 1int } else { 0int };
    assert(t % 256 == t - 256 * ci);
    let s1 = sum - h * 256 + (t % 256) * 256;
    assert(s1 + 0x1_0000 * ci == sum + b * 256);
    assert(adc_dh(sum, b, false) == (s1 as u32, t > 255));
}

/// Words from `o` to `o + 2 * k` added in a chain from `sum` with carry in
/// `cin`: the sum plus the pending carry folds to the start plus the words.
pub open spec fn chain(sum: u32, cin: bool, d: Seq<u8>, o: int, k: nat) -> (u32, bool)
    decreases k,
{
    if k == 0 {
        (sum, cin)
    } else {
        let w = add_word(sum, d, o, cin);
        chain(w.0, w.1, d, o + 2, (k - 1) as nat)
    }
}

proof fn lemma_chain_folds(sum: u32, cin: bool, d: Seq<u8>, o: int, k: nat)
    requires
        0 <= o,
        o + 2 * k <= d.len(),
    ensures
        folds_to(
            chain(sum, cin, d, o, k).0 + (if chain(sum, cin, d, o, k).1 { 1int } else { 0int }),
            sum + (if cin { 1int } else { 0int }) + be_words_sum(d.subrange(o, o + 2 * k)),
        ),
    decreases k,
{
    if k == 0 {
        assert(d.subrange(o, o) =~= Seq::<u8>::empty());
    } else {
        let w = add_word(sum, d, o, cin);
        lemma_add_word_exact(sum, d, o, cin);
        assert(o + 2 + 2 * ((k - 1) as nat) == o + 2 * k);
        lemma_chain_folds(w.0, w.1, d, o + 2, (k - 1) as nat);
        lemma_words_split(d, o, o + 2, o + 2 * k);
        lemma_word_single(d, o);
        let wi = if w.1 { 1int } else { 0int };
        let ci = if cin { 1int } else { 0int };
        assert(folds_to(w.0 + wi, sum + ci + d[o] * 256 + d[o + 1])) by {
            assert(sum + ci + d[o] * 256 + d[o + 1] - (w.0 + wi) == 0xFFFF * wi);
        }
        let rest = be_words_sum(d.subrange(o + 2, o + 2 * k));
        assert(folds_to(w.0 + wi + rest, sum + ci + d[o] * 256 + d[o + 1] + rest));
        lemma_folds_trans(
            chain(w.0, w.1, d, o + 2, (k - 1) as nat).0 + (if chain(w.0, w.1, d, o + 2, (k - 1) as nat).1 { 1int } else { 0int }),
            w.0 + wi + rest,
            sum + ci + d[o] * 256 + d[o + 1] + rest,
        );
    }
}

/// Folding a pending carry into the whole sum, below `u32::MAX`, loses nothing.
proof fn lemma_fold_end(sum: u32, c: bool)
    requires
        sum + (if c { 1int } else { 0int }) < u32::MAX,
    ensures
        adc_edx(sum, c) == ((sum + (if c { 1int } else { 0int })) as u32, false),
{
}

proof fn lemma_round_folds(sum: u32, d: Seq<u8>, o: int)
    requires
        0 <= o,
        o + 8 <= d.len(),
        sum + be_words_sum(d.subrange(o, o + 8)) < u32::MAX,
    ensures
        round8(sum, d, o).1 == false,
        folds_to(round8(sum, d, o).0 as int, sum + be_words_sum(d.subrange(o, o + 8))),
{
    lemma_chain_folds(sum, false, d, o, 4);
    let c = chain(sum, false, d, o, 4);
    let w1 = add_word(sum, d, o, false);
    let w2 = add_word(w1.0, d, o + 2, w1.1);
    let w3 = add_word(w2.0, d, o + 4, w2.1);
    let w4 = add_word(w3.0, d, o + 6, w3.1);
    assert(chain(w4.0, w4.1, d, o + 8, 0) == (w4.0, w4.1));
    assert(chain(w3.0, w3.1, d, o + 6, 1) == (w4.0, w4.1));
    assert(chain(w2.0, w2.1, d, o + 4, 2) == (w4.0, w4.1));
    assert(chain(w1.0, w1.1, d, o + 2, 3) == (w4.0, w4.1));
    assert(c == (w4.0, w4.1));
    lemma_fold_end(w4.0, w4.1);
}

proof fn lemma_rounds_folds(sum: u32, d: Seq<u8>, o: int, n: nat)
    requires
        0 <= o,
        o + 8 * n <= d.len(),
        sum + be_words_sum(d.subrange(o, o + 8 * n)) < u32::MAX,
    ensures
        folds_to(rounds(sum, false, d, o, n) as int, sum + be_words_sum(d.subrange(o, o + 8 * n))),
    decreases n,
{
    if n == 0 {
        assert(d.subrange(o, o) =~= Seq::<u8>::empty());
    } else {
        lemma_words_split(d, o, o + 8, o + 8 * n);
        lemma_words_nonneg(d.subrange(o, o + 8));
        lemma_words_nonneg(d.subrange(o + 8, o + 8 * n));
        lemma_round_folds(sum, d, o);
        let s1 = round8(sum, d, o).0;
        let rest = be_words_sum(d.subrange(o + 8, o + 8 * n));
        assert(o + 8 + 8 * ((n - 1) as nat) == o + 8 * n);
        lemma_rounds_folds(s1, d, o + 8, (n - 1) as nat);
        assert(folds_to(s1 + rest, sum + be_words_sum(d.subrange(o, o + 8)) + rest));
        lemma_folds_trans(rounds(s1, false, d, o + 8, (n - 1) as nat) as int, s1 + rest, sum + be_words_sum(d.subrange(o, o + 8 * n)));
    }
}

#[verifier::rlimit(40)]
proof fn lemma_remnants_folds(s1: u32, d: Seq<u8>, o4: int)
    requires
        o4 == 8 * (d.len() / 8),
        s1 + be_words_sum(d.subrange(o4, d.len() as int)) < u32::MAX,
    ensures
        ({
            let n = d.len();
            let s2 = if (n / 4) % 2 == 1 { rem4(s1, d, o4) } else { s1 };
            let o2 = o4 + (if (n / 4) % 2 == 1 { 4int } else { 0int });
            let s3 = if (n / 2) % 2 == 1 { rem2(s2, d, o2) } else { s2 };
            let o1 = o2 + (if (n / 2) % 2 == 1 { 2int } else { 0int });
            folds_to((if n % 2 == 1 { rem1(s3, d, o1) } else { s3 }) as int, s1 + be_words_sum(d.subrange(o4, d.len() as int)))
        }),
{
    let n = d.len() as int;
    let b4 = (n / 4) % 2 == 1;
    let o2 = o4 + (if b4 { 4int } else { 0int });
    let b2 = (n / 2) % 2 == 1;
    let o1 = o2 + (if b2 { 2int } else { 0int });
    let b1 = n % 2 == 1;
    assert(o1 + (if b1 { 1int } else { 0int }) == n);
    lemma_words_split(d, o4, o2, n);
    lemma_words_split(d, o2, o1, n);
    lemma_words_nonneg(d.subrange(o4, o2));
    lemma_words_nonneg(d.subrange(o2, o1));
    lemma_words_nonneg(d.subrange(o1, n));
    let w4 = be_words_sum(d.subrange(o4, o2));
    let w2 = be_words_sum(d.subrange(o2, o1));
    let w1 = be_words_sum(d.subrange(o1, n));
    let s2 = if b4 { rem4(s1, d, o4) } else { s1 };
    if b4 {
        lemma_chain_folds(s1, false, d, o4, 2);
        let a1 = add_word(s1, d, o4, false);
        let a2 = add_word(a1.0, d, o4 + 2, a1.1);
        assert(chain(a2.0, a2.1, d, o4 + 4, 0) == (a2.0, a2.1));
        assert(chain(a1.0, a1.1, d, o4 + 2, 1) == (a2.0, a2.1));
        lemma_fold_end(a2.0, a2.1);
    } else {
        assert(d.subrange(o4, o2) =~= Seq::<u8>::empty());
    }
    assert(folds_to(s2 as int, s1 + w4));
    let s3 = if b2 { rem2(s2, d, o2) } else { s2 };
    if b2 {
        lemma_chain_folds(s2, false, d, o2, 1);
        let a1 = add_word(s2, d, o2, false);
        assert(chain(a1.0, a1.1, d, o2 + 2, 0) == (a1.0, a1.1));
        lemma_fold_end(a1.0, a1.1);
    } else {
        assert(d.subrange(o2, o1) =~= Seq::<u8>::empty());
    }
    assert(folds_to(s3 as int, s2 + w2));
    lemma_folds_trans(s3 as int, s2 + w2, s1 + w4 + w2);
    if b1 {
        let x = d.subrange(o1, n);
        assert(x.len() == 1 && x[0] == d[o1]);
        assert(w1 == d[o1] * 256);
        lemma_add_high_exact(s3, d[o1]);
        let a = adc_dh(s3, d[o1], false);
        let ai = if a.1 { 1int } else { 0int };
        lemma_fold_end(a.0, a.1);
        assert(folds_to(a.0 + ai, s3 + w1)) by {
            assert(s3 + w1 - (a.0 + ai) == 0xFFFF * ai);
        }
        lemma_folds_trans(a.0 + ai, s3 + w1, s1 + w4 + w2 + w1);
    } else {
        assert(d.subrange(o1, n) =~= Seq::<u8>::empty());
    }
}

/// The partial checksum is the ones'-complement sum of the data: as long as
/// the seed plus all big-endian words of the data (a last odd byte as a high
/// byte) stays below `u32::MAX`, the result is that total less the carries
/// out of the low 16 bits, each folded back in as one (a whole multiple of
/// `0xFFFF`).
#[verifier::rlimit(60)]
pub proof fn law_checksum_ones_complement(seed: u32, d: Seq<u8>)
    requires
        seed + be_words_sum(d) < u32::MAX,
    ensures
        folds_to(checksum_spec(seed, d) as int, seed + be_words_sum(d)),
{
    let n = d.len() as int;
    let q = n / 8;
    let o4 = 8 * q;
    assert(d.subrange(0, n) =~= d);
    lemma_words_split(d, 0, o4, n);
    lemma_words_nonneg(d.subrange(0, o4));
    lemma_words_nonneg(d.subrange(o4, n));
    let wr = be_words_sum(d.subrange(0, o4));
    let rest = be_words_sum(d.subrange(o4, n));
    let s1 = if q == 0 { seed } else { rounds(seed, false, d, 0, q as nat) };
    if q > 0 {
        lemma_rounds_folds(seed, d, 0, q as nat);
    } else {
        assert(d.subrange(0, 0) =~= Seq::<u8>::empty());
    }
    assert(folds_to(s1 as int, seed + wr));
    lemma_remnants_folds(s1, d, o4);
    lemma_folds_trans(checksum_spec(seed, d) as int, s1 + rest, seed + wr + rest);
}

fn x_add_dl(sum: u32, b: u8, cin: bool) -> (r: (u32, bool))
    ensures
        r == add_dl(sum, b, cin),
{
    reveal(add_dl);
    let lo = sum % 256;
    let t = lo + b as u32 + if cin { 1 } else { 0 };
    (sum - lo + t % 256, t > 255)
}

fn x_adc_dh(sum: u32, b: u8, cin: bool) -> (r: (u32, bool))
    ensures
        r == adc_dh(sum, b, cin),
{
    reveal(adc_dh);
    let hi = (sum / 256) % 256;
    let t = hi + b as u32 + if cin { 1 } else { 0 };
    assert(sum - hi * 256 >= 0 && sum - hi * 256 + 255 * 256 <= u32::MAX) by (nonlinear_arith)
        requires hi == (sum / 256) % 256;
    (sum - hi * 256 + (t % 256) * 256, t > 255)
}

fn x_adc_edx(sum: u32, cin: bool) -> (r: (u32, bool))
    ensures
        r == adc_edx(sum, cin),
{
    if !cin {
        (sum, false)
    } else if sum == u32::MAX {
        (0, true)
    } else {
        (sum + 1, false)
    }
}

fn x_add_word(sum: u32, d: &[u8], o: usize, cin: bool) -> (r: (u32, bool))
    requires
        o < d@.len(),
        o + 1 < d@.len(),
    ensures
        r == add_word(sum, d@, o as int, cin),
{
    let hi = d[o];
    let lo = d[o + 1];
    let a = x_add_dl(sum, lo, cin);
    x_adc_dh(a.0, hi, a.1)
}

fn x_round8(sum: u32, d: &[u8], o: usize) -> (r: (u32, bool))
    requires
        o + 8 <= d.len(),
    ensures
        r == round8(sum, d@, o as int),
{
    let w1 = x_add_word(sum, d, o, false);
    let w2 = x_add_word(w1.0, d, o + 2, w1.1);
    let w3 = x_add_word(w2.0, d, o + 4, w2.1);
    let w4 = x_add_word(w3.0, d, o + 6, w3.1);
    x_adc_edx(w4.0, w4.1)
}

fn x_rem4(sum: u32, d: &[u8], o: usize) -> (r: u32)
    requires
        o + 4 <= d.len(),
    ensures
        r == rem4(sum, d@, o as int),
{
    let w1 = x_add_word(sum, d, o, false);
    let w2 = x_add_word(w1.0, d, o + 2, w1.1);
    x_adc_edx(w2.0, w2.1).0
}

fn x_rem2(sum: u32, d: &[u8], o: usize) -> (r: u32)
    requires
        o + 2 <= d.len(),
    ensures
        r == rem2(sum, d@, o as int),
{
    let w = x_add_word(sum, d, o, false);
    x_adc_edx(w.0, w.1).0
}

fn x_rem1(sum: u32, d: &[u8], o: usize) -> (r: u32)
    requires
        o < d@.len(),
    ensures
        r == rem1(sum, d@, o as int),
{
    let a = x_adc_dh(sum, d[o], false);
    x_adc_edx(a.0, a.1).0
}

/// The remnants after the whole rounds (see [`checksum_spec`]).
#[verifier::rlimit(40)]
fn x_remnants(s1: u32, d: &[u8]) -> (r: u32)
    ensures
        r == ({
            let n = d@.len();
            let o4: int = 8 * (n / 8) as int;
            let s2 = if (n / 4) % 2 == 1 { rem4(s1, d@, o4) } else { s1 };
            let o2 = o4 + (if (n / 4) % 2 == 1 { 4int } else { 0int });
            let s3 = if (n / 2) % 2 == 1 { rem2(s2, d@, o2) } else { s2 };
            let o1 = o2 + (if (n / 2) % 2 == 1 { 2int } else { 0int });
            if n % 2 == 1 { rem1(s3, d@, o1) } else { s3 }
        }),
{
    let n = d.len();
    let mut o: usize = 8 * (n / 8);
    let mut sum = s1;
    if (n / 4) % 2 == 1 {
        sum = x_rem4(sum, d, o);
        o = o + 4;
    }
    if (n / 2) % 2 == 1 {
        sum = x_rem2(sum, d, o);
        o = o + 2;
    }
    if n % 2 == 1 {
        sum = x_rem1(sum, d, o);
    }
    sum
}

/// Update a partial checksum over `data`, the kernel's `checksum_1`: `seed`
/// is the incoming sum (see [`checksum_spec`]).
pub fn checksum_1(seed: u32, data: &[u8]) -> (r: u32)
    requires
        data@.len() <= u32::MAX,
    ensures
        r == checksum_spec(seed, data@),
{
    let n = data.len();
    let q = n / 8;
    let mut sum = seed;
    if q > 0 {
        let mut cf = false;
        let mut k: usize = 0;
        let mut o: usize = 0;
        while k < q
            invariant
                q == n / 8,
                n == data@.len(),
                k <= q,
                o == 8 * k,
                rounds(sum, cf, data@, o as int, (q - k) as nat) == rounds(seed, false, data@, 0, q as nat),
            decreases q - k,
        {
            let r = x_round8(sum, data, o);
            sum = r.0;
            cf = r.1;
            o = o + 8;
            k = k + 1;
        }
        sum = x_adc_edx(sum, cf).0;
    }
    x_remnants(sum, data)
}

/// The 2-byte remnant step of the register transcription: pop a flag, add a
/// word when it is set, then the odd-byte step.
fn oracle_no_4(edx: u32, data: &[u8], esi: usize, flags: &[bool; 3], sp: usize) -> (r: u32)
    requires
        sp == 2,
        esi == 8 * (data@.len() / 8) + (if (data@.len() / 4) % 2 == 1 { 4int } else { 0int }),
        flags[1] == ((data@.len() / 2) % 2 == 1),
        flags[0] == (data@.len() % 2 == 1),
    ensures
        r == ({
            let n = data@.len();
            let s3 = if (n / 2) % 2 == 1 { rem2(edx, data@, esi as int) } else { edx };
            let o1 = esi + (if (n / 2) % 2 == 1 { 2int } else { 0int });
            if n % 2 == 1 { rem1(s3, data@, o1) } else { s3 }
        }),
{
    let mut edx = edx;
    let mut esi = esi;
    let sp = sp - 1;
    if flags[sp] {
        edx = x_rem2(edx, data, esi);
        esi = esi + 2;
    }
    oracle_no_2(edx, data, esi, flags, sp)
}

/// The odd-byte step of the register transcription.
fn oracle_no_2(edx: u32, data: &[u8], esi: usize, flags: &[bool; 3], sp: usize) -> (r: u32)
    requires
        sp == 1,
        flags[0] == (data@.len() % 2 == 1),
        flags[0] ==> esi + 1 == data@.len(),
    ensures
        r == (if data@.len() % 2 == 1 { rem1(edx, data@, esi as int) } else { edx }),
{
    let sp = sp - 1;
    if flags[sp] {
        x_rem1(edx, data, esi)
    } else {
        edx
    }
}

/// The register-level transcription of `checksum_1`, kept as a second,
/// independently structured implementation: length bits are pushed as carry
/// flags and popped by the remnant steps.
pub fn checksum_1_fasm_oracle(edx: u32, data: &[u8]) -> (r: u32)
    requires
        data@.len() <= u32::MAX,
    ensures
        r == checksum_spec(edx, data@),
{
    let n = data.len();
    let ghost seed = edx;
    let mut edx = edx;
    let mut ecx: usize = n;
    let mut flags = [false; 3];
    flags[0] = ecx % 2 == 1;
    ecx = ecx / 2;
    flags[1] = ecx % 2 == 1;
    ecx = ecx / 2;
    flags[2] = ecx % 2 == 1;
    ecx = ecx / 2;
    assert(ecx == n / 8);
    let mut esi: usize = 0;
    if n / 2 == 0 {
        return oracle_no_2(edx, data, 0, &flags, 1);
    }
    if n / 4 == 0 {
        return oracle_no_4(edx, data, 0, &flags, 2);
    }
    if ecx > 0 {
        let q = ecx;
        let mut cf = false;
        while ecx > 0
            invariant
                q == n / 8,
                n == data@.len(),
                ecx <= q,
                esi == 8 * (q - ecx),
                rounds(edx, cf, data@, esi as int, ecx as nat) == rounds(seed, false, data@, 0, q as nat),
            decreases ecx,
        {
            let r = x_round8(edx, data, esi);
            edx = r.0;
            cf = r.1;
            esi = esi + 8;
            ecx = ecx - 1;
        }
        edx = x_adc_edx(edx, cf).0;
    }
    if flags[2] {
        edx = x_rem4(edx, data, esi);
        esi = esi + 4;
    }
    oracle_no_4(edx, data, esi, &flags, 2)
}

} // verus!
