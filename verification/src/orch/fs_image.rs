//! Persistent filesystem regression images: kinds, outcomes, and size text.

use vstd::prelude::*;
use vstd::string::*;
use crate::orch::paths::{image_file_name, join_path, persistent_image_path, IMAGES_DIR};
use crate::orch::text::{eq_ignore_case, is_ws, lower, skip_ws, str_eq_ignore_case, trim, trim_end_at, trimmed, upper, to_upper};

verus! {

/// How an `mkfs` request ended.
#[derive(Debug, Clone, Copy, PartialEq, Eq)]
pub enum MkfsOutcome {
    Created,
    Reused,
    ForceRecreated,
}

impl MkfsOutcome {
    /// `created`, `reused` or `force-recreated`.
    pub fn as_str(self) -> (s: &'static str)
        ensures
            s@ == (match self {
                MkfsOutcome::Created => "created"@,
                MkfsOutcome::Reused => "reused"@,
                MkfsOutcome::ForceRecreated => "force-recreated"@,
            }),
    {
        match self {
            MkfsOutcome::Created => "created",
            MkfsOutcome::Reused => "reused",
            MkfsOutcome::ForceRecreated => "force-recreated",
        }
    }
}

/// Supported persistent regression filesystem types.
#[derive(Debug, Clone, Copy, PartialEq, Eq, Hash)]
pub enum FilesystemKind {
    Exfat,
    Ntfs,
}

/// Why an image request was refused.
#[derive(Debug, Clone, Copy, PartialEq, Eq)]
pub enum FsImageError {
    /// The filesystem name is neither `exfat` nor `ntfs`.
    UnknownFilesystem,
    /// The size text is empty (after trimming).
    EmptySize,
    /// The size text is not a number (with an optional suffix).
    InvalidSize,
    /// A suffixed size is zero or negative.
    NotPositive,
    /// The size comes out as zero bytes.
    ZeroSize,
}

/// The filesystem a name selects (ASCII case ignored).
pub open spec fn fs_of_name(s: Seq<char>) -> Option<FilesystemKind> {
    if eq_ignore_case(s, "exfat"@) {
        Some(FilesystemKind::Exfat)
    } else if eq_ignore_case(s, "ntfs"@) {
        Some(FilesystemKind::Ntfs)
    } else {
        None
    }
}

impl FilesystemKind {
    /// Every supported kind, in order.
    pub fn all() -> (r: &'static [FilesystemKind])
        ensures
            r@ == seq![FilesystemKind::Exfat, FilesystemKind::Ntfs],
    {
        &[FilesystemKind::Exfat, FilesystemKind::Ntfs]
    }

    /// The kind named by `s` (`exfat` or `ntfs`, ASCII case ignored).
    pub fn parse(s: &str) -> (r: Result<FilesystemKind, FsImageError>)
        ensures
            r == (match fs_of_name(s@) {
                Some(k) => Ok(k),
                None => Err(FsImageError::UnknownFilesystem),
            }),
    {
        if str_eq_ignore_case(s, "exfat") {
            Ok(FilesystemKind::Exfat)
        } else if str_eq_ignore_case(s, "ntfs") {
            Ok(FilesystemKind::Ntfs)
        } else {
            Err(FsImageError::UnknownFilesystem)
        }
    }

    /// `exfat` or `ntfs`.
    pub fn name(self) -> (s: &'static str)
        ensures
            s@ == (match self {
                FilesystemKind::Exfat => "exfat"@,
                FilesystemKind::Ntfs => "ntfs"@,
            }),
    {
        match self {
            FilesystemKind::Exfat => "exfat",
            FilesystemKind::Ntfs => "ntfs",
        }
    }

    /// The generator script (relative to the repository root).
    pub fn generator_script(self) -> (s: &'static str)
        ensures
            s@ == (match self {
                FilesystemKind::Exfat => "tools/mkfs_utils/create_exfat_image.py"@,
                FilesystemKind::Ntfs => "tools/mkfs_utils/create_ntfs_image.py"@,
            }),
    {
        match self {
            FilesystemKind::Exfat => "tools/mkfs_utils/create_exfat_image.py",
            FilesystemKind::Ntfs => "tools/mkfs_utils/create_ntfs_image.py",
        }
    }

    /// Smallest practical image: 1 MiB for exFAT, 8 MiB for NTFS.
    pub fn minimum_size_bytes(self) -> (n: u64)
        ensures
            n == (match self {
                FilesystemKind::Exfat => 0x10_0000u64,
                FilesystemKind::Ntfs => 0x80_0000u64,
            }),
    {
        match self {
            FilesystemKind::Exfat => 1024 * 1024,
            FilesystemKind::Ntfs => 8 * 1024 * 1024,
        }
    }

    /// The requested size, raised to the kind's minimum.
    pub fn effective_size(self, requested: u64) -> (n: u64)
        ensures
            n == (if requested >= self.minimum_size_spec() { requested } else { self.minimum_size_spec() }),
    {
        let m = self.minimum_size_bytes();
        if requested >= m { requested } else { m }
    }

    /// The OEM name at offset 3 of a valid image (`EXFAT   ` or `NTFS    `).
    pub fn oem_marker(self) -> (m: Option<&'static [u8]>)
        ensures
            m matches Some(b) && b@ == (match self {
                FilesystemKind::Exfat => seq![0x45u8, 0x58, 0x46, 0x41, 0x54, 0x20, 0x20, 0x20],
                FilesystemKind::Ntfs => seq![0x4Eu8, 0x54, 0x46, 0x53, 0x20, 0x20, 0x20, 0x20],
            }),
    {
        match self {
            FilesystemKind::Exfat => Some(&[0x45u8, 0x58, 0x46, 0x41, 0x54, 0x20, 0x20, 0x20]),
            FilesystemKind::Ntfs => Some(&[0x4Eu8, 0x54, 0x46, 0x53, 0x20, 0x20, 0x20, 0x20]),
        }
    }

    /// The minimum size as a value (see [`FilesystemKind::minimum_size_bytes`]).
    pub open spec fn minimum_size_spec(self) -> u64 {
        match self {
            FilesystemKind::Exfat => 0x10_0000u64,
            FilesystemKind::Ntfs => 0x80_0000u64,
        }
    }
}

} // verus!

verus! {

/// An ASCII decimal digit.
pub open spec fn is_digit(c: char) -> bool {
    0x30 <= c as u32 <= 0x39
}

/// All characters of `s` are digits.
pub open spec fn all_digits(s: Seq<char>) -> bool {
    forall|i: int| 0 <= i < s.len() ==> is_digit(#[trigger] s[i])
}

/// Some character of `s` is a digit other than `0`.
pub open spec fn has_nonzero(s: Seq<char>) -> bool {
    exists|i: int| 0 <= i < s.len() && is_digit(#[trigger] s[i]) && s[i] as u32 != 0x30
}

/// The decimal value of a digit string.
pub open spec fn digits_value(s: Seq<char>) -> int
    decreases s.len(),
{
    if s.len() == 0 {
        0
    } else {
        digits_value(s.drop_last()) * 10 + (s.last() as u32 - 0x30)
    }
}

/// `10^k`.
pub open spec fn pow10(k: nat) -> int
    decreases k,
{
    if k == 0 { 1 } else { 10 * pow10((k - 1) as nat) }
}

/// Index of the first `.` at or after `i` (or the length).
pub open spec fn dot_at(r: Seq<char>, i: int) -> int
    decreases r.len() - i,
{
    if i >= r.len() {
        r.len() as int
    } else if r[i] == '.' {
        i
    } else {
        dot_at(r, i + 1)
    }
}

/// Multiplier of a trimmed size text by its last character (ASCII case
/// ignored): `K` 2^10, `M` 2^20, `G` 2^30, else 1.
pub open spec fn size_mult(t: Seq<char>) -> int {
    let last = upper(t[t.len() - 1]);
    if last == 'K' { 0x400 } else if last == 'M' { 0x10_0000 } else if last == 'G' { 0x4000_0000 } else { 1 }
}

/// Whether the last character is a suffix to strip (`K`, `M`, `G`, or `B`
/// after something).
pub open spec fn has_suffix(t: Seq<char>) -> bool {
    let last = upper(t[t.len() - 1]);
    last == 'K' || last == 'M' || last == 'G' || (last == 'B' && t.len() > 1)
}

/// A plain byte count: `[+]digits` within `u64`, not zero.
pub open spec fn plain_value(num: Seq<char>) -> Result<u64, FsImageError> {
    let d = if num.len() > 0 && num[0] == '+' { num.drop_first() } else { num };
    if d.len() == 0 || !all_digits(d) || digits_value(d) > u64::MAX {
        Err(FsImageError::InvalidSize)
    } else if digits_value(d) == 0 {
        Err(FsImageError::ZeroSize)
    } else {
        Ok(digits_value(d) as u64)
    }
}

/// `ipv + f / 10^k` times `mult`, rounded half away from zero, saturated at
/// `u64::MAX`.
pub open spec fn rounded_scaled(ipv: int, f: int, k: nat, mult: int) -> int {
    let v = ipv * mult + (2 * f * mult + pow10(k)) / (2 * pow10(k));
    if v > u64::MAX { u64::MAX as int } else { v }
}

/// `x` capped at `u64::MAX`.
pub open spec fn sat64(x: int) -> int {
    if x > u64::MAX { u64::MAX as int } else { x }
}

/// The digits `c` read with the decimal point `q` places before their end
/// (a negative `q` appends `-q` zeros), times `mult`, rounded half away from
/// zero using at most 18 fraction digits, saturated at `u64::MAX`.
pub open spec fn shifted_round(c: Seq<char>, q: int, mult: int) -> int {
    if q <= 0 {
        sat64(digits_value(c) * pow10((-q) as nat) * mult)
    } else {
        let k: nat = if q <= 18 { q as nat } else { 18 };
        let n = digits_value(c) / pow10((q - k) as nat);
        sat64((2 * n * mult + pow10(k)) / (2 * pow10(k)))
    }
}

/// Index of the first `e` or `E` at or after `i` (or the length).
pub open spec fn exp_at(r: Seq<char>, i: int) -> int
    decreases r.len() - i,
{
    if i >= r.len() {
        r.len() as int
    } else if r[i] == 'e' || r[i] == 'E' {
        i
    } else {
        exp_at(r, i + 1)
    }
}

/// `num` without a leading `+` or `-`.
pub open spec fn unsigned_part(num: Seq<char>) -> Seq<char> {
    if num.len() > 0 && (num[0] == '-' || num[0] == '+') { num.drop_first() } else { num }
}

/// The part of `r` before its exponent marker.
pub open spec fn mantissa(r: Seq<char>) -> Seq<char> {
    r.subrange(0, exp_at(r, 0))
}

/// The text after the exponent marker of `r` (empty without one).
pub open spec fn exp_text(r: Seq<char>) -> Seq<char> {
    if exp_at(r, 0) < r.len() { r.subrange(exp_at(r, 0) + 1, r.len() as int) } else { Seq::<char>::empty() }
}

/// The digits of a mantissa before its `.`.
pub open spec fn int_part(m: Seq<char>) -> Seq<char> {
    m.subrange(0, dot_at(m, 0))
}

/// The digits of a mantissa after its `.` (empty without one).
pub open spec fn frac_part(m: Seq<char>) -> Seq<char> {
    if dot_at(m, 0) < m.len() { m.subrange(dot_at(m, 0) + 1, m.len() as int) } else { Seq::<char>::empty() }
}

/// The exponent's value: `[+|-]digits`.
pub open spec fn exp_value(et: Seq<char>) -> int {
    if et.len() > 0 && et[0] == '-' { -digits_value(unsigned_part(et)) } else { digits_value(unsigned_part(et)) }
}

/// `inf` or `infinity`, ASCII case ignored.
pub open spec fn is_inf_word(r: Seq<char>) -> bool {
    eq_ignore_case(r, "inf"@) || eq_ignore_case(r, "infinity"@)
}

/// A multiplied size: a decimal number `[+|-]digits[.digits][(e|E)[+|-]digits]`
/// with a digit in its mantissa, or `inf`/`infinity`/`nan` in any case.
/// Infinity saturates (negative: `NotPositive`); `nan` rounds to zero
/// (`ZeroSize`); a negative or zero number is `NotPositive`; a rounded result
/// of 0 is `ZeroSize`.
pub open spec fn scaled_value(num: Seq<char>, mult: int) -> Result<u64, FsImageError> {
    let neg = num.len() > 0 && num[0] == '-';
    let r = unsigned_part(num);
    let m = mantissa(r);
    let ip = int_part(m);
    let fp = frac_part(m);
    let et = exp_text(r);
    if is_inf_word(r) {
        if neg { Err(FsImageError::NotPositive) } else { Ok(u64::MAX) }
    } else if eq_ignore_case(r, "nan"@) {
        Err(FsImageError::ZeroSize)
    } else if !all_digits(ip) || !all_digits(fp) || ip.len() + fp.len() == 0
        || (exp_at(r, 0) < r.len() && (unsigned_part(et).len() == 0 || !all_digits(unsigned_part(et)))) {
        Err(FsImageError::InvalidSize)
    } else if neg || (!has_nonzero(ip) && !has_nonzero(fp)) {
        Err(FsImageError::NotPositive)
    } else if shifted_round(ip + fp, fp.len() - exp_value(et), mult) == 0 {
        Err(FsImageError::ZeroSize)
    } else {
        Ok(shifted_round(ip + fp, fp.len() - exp_value(et), mult) as u64)
    }
}

/// The value of a size text, or why it is refused: whitespace around it is
/// ignored (nothing left: `EmptySize`); an optional `K`/`M`/`G`/`B` suffix in
/// any case selects the multiple; see [`plain_value`] and [`scaled_value`].
pub open spec fn size_value(s: Seq<char>) -> Result<u64, FsImageError> {
    let t = trimmed(s);
    if t.len() == 0 {
        Err(FsImageError::EmptySize)
    } else {
        let num = if has_suffix(t) { t.subrange(0, t.len() - 1) } else { t };
        if size_mult(t) == 1 { plain_value(num) } else { scaled_value(num, size_mult(t)) }
    }
}

proof fn lemma_sub_digits(s: Seq<char>, a: int, b: int, c: int, d: int)
    requires
        0 <= a <= c <= d <= b <= s.len(),
        all_digits(s.subrange(a, b)),
    ensures
        all_digits(s.subrange(c, d)),
{
    assert forall|k: int| 0 <= k < d - c implies is_digit(#[trigger] s.subrange(c, d)[k]) by {
        assert(s.subrange(c, d)[k] == s.subrange(a, b)[k + c - a]);
    }
}

proof fn lemma_digits_facts(s: Seq<char>)
    requires
        all_digits(s),
    ensures
        0 <= digits_value(s) < pow10(s.len()),
        digits_value(s) == 0 <==> !has_nonzero(s),
    decreases s.len(),
{
    if s.len() > 0 {
        let d = s.drop_last();
        lemma_sub_digits(s, 0, s.len() as int, 0, s.len() - 1);
        assert(d =~= s.subrange(0, s.len() - 1));
        lemma_digits_facts(d);
        assert(is_digit(s[s.len() - 1]));
        assert(s.last() == s[s.len() - 1]);
        assert(pow10(s.len()) == 10 * pow10(d.len()));
        if has_nonzero(d) {
            let w = choose|w: int| 0 <= w < d.len() && is_digit(#[trigger] d[w]) && d[w] as u32 != 0x30;
            assert(s[w] == d[w]);
        }
        if has_nonzero(s) {
            let w = choose|w: int| 0 <= w < s.len() && is_digit(#[trigger] s[w]) && s[w] as u32 != 0x30;
            if w < s.len() - 1 {
                assert(d[w] == s[w]);
            }
        }
    }
}

proof fn lemma_digits_push(s: Seq<char>, a: int, i: int)
    requires
        0 <= a <= i < s.len(),
    ensures
        digits_value(s.subrange(a, i + 1)) == digits_value(s.subrange(a, i)) * 10 + (s[i] as u32 - 0x30),
{
    assert(s.subrange(a, i + 1).drop_last() =~= s.subrange(a, i));
}

/// Scan `t[from..to]`: whether all are digits, whether the value exceeds
/// `cap`, the value (when it does not), and whether a non-zero digit occurs.
fn scan_digits(t: &str, from: usize, to: usize, cap: u128) -> (r: (bool, bool, u128, bool))
    requires
        from <= to <= t@.len(),
        10 <= cap <= 0x1000_0000_0000_0000_0000_0000_0000_0000u128,
    ensures
        r.0 == all_digits(t@.subrange(from as int, to as int)),
        r.0 ==> (r.1 <==> digits_value(t@.subrange(from as int, to as int)) > cap),
        r.0 && !r.1 ==> r.2 == digits_value(t@.subrange(from as int, to as int)),
        r.0 ==> (r.3 <==> has_nonzero(t@.subrange(from as int, to as int))),
{
    let ghost s = t@;
    let mut i = from;
    let mut big = false;
    let mut acc: u128 = 0;
    let mut nz = false;
    while i < to
        invariant
            s == t@,
            from <= i <= to <= s.len(),
            all_digits(s.subrange(from as int, i as int)),
            10 <= cap <= 0x1000_0000_0000_0000_0000_0000_0000_0000u128,
            big <==> digits_value(s.subrange(from as int, i as int)) > cap,
            !big ==> acc == digits_value(s.subrange(from as int, i as int)),
            nz <==> has_nonzero(s.subrange(from as int, i as int)),
        decreases to - i,
    {
        let c = t.get_char(i);
        let u = c as u32;
        if !(0x30 <= u && u <= 0x39) {
            proof {
                assert(s.subrange(from as int, to as int)[i - from] == c);
            }
            return (false, false, 0, false);
        }
        let d: u128 = (u - 0x30) as u128;
        let ghost p = s.subrange(from as int, i as int);
        let ghost q = s.subrange(from as int, i as int + 1);
        proof {
            lemma_digits_push(s, from as int, i as int);
            lemma_digits_facts(p);
            assert(all_digits(q)) by {
                assert forall|k: int| 0 <= k < q.len() implies is_digit(#[trigger] q[k]) by {
                    if k < p.len() {
                        assert(q[k] == p[k]);
                    }
                }
            }
            assert(has_nonzero(q) <==> (has_nonzero(p) || u != 0x30)) by {
                if has_nonzero(p) {
                    let w = choose|w: int| 0 <= w < p.len() && is_digit(#[trigger] p[w]) && p[w] as u32 != 0x30;
                    assert(q[w] == p[w]);
                }
                if u != 0x30 {
                    assert(q[i - from] == c);
                }
                if has_nonzero(q) {
                    let w = choose|w: int| 0 <= w < q.len() && is_digit(#[trigger] q[w]) && q[w] as u32 != 0x30;
                    if w < p.len() {
                        assert(p[w] == q[w]);
                    }
                }
            }
        }
        if u != 0x30 {
            nz = true;
        }
        if !big {
            if acc > (cap - d) / 10 {
                big = true;
            } else {
                acc = acc * 10 + d;
            }
        }
        i = i + 1;
    }
    (true, big, acc, nz)
}

proof fn lemma_pow10_pos(n: nat)
    ensures
        1 <= pow10(n),
    decreases n,
{
    if n > 0 {
        lemma_pow10_pos((n - 1) as nat);
    }
}

proof fn lemma_pow10_mono(i: nat, j: nat)
    requires
        i <= j,
    ensures
        1 <= pow10(i) <= pow10(j),
    decreases j,
{
    lemma_pow10_pos(i);
    if j > i {
        lemma_pow10_mono(i, (j - 1) as nat);
    }
}

fn pow10_exec(k: u32) -> (r: u64)
    requires
        k <= 19,
    ensures
        r == pow10(k as nat),
{
    proof {
        assert(pow10(19) == 10_000_000_000_000_000_000) by {
            reveal_with_fuel(pow10, 20);
        }
    }
    let mut r: u64 = 1;
    let mut i: u32 = 0;
    while i < k
        invariant
            i <= k <= 19,
            r == pow10(i as nat),
            pow10(19) == 10_000_000_000_000_000_000,
        decreases k - i,
    {
        proof {
            lemma_pow10_mono((i + 1) as nat, 19);
        }
        r = r * 10;
        i = i + 1;
    }
    r
}

fn parse_plain(t: &str, end: usize) -> (r: Result<u64, FsImageError>)
    requires
        end <= t@.len(),
    ensures
        r == plain_value(t@.subrange(0, end as int)),
{
    let ghost num = t@.subrange(0, end as int);
    let start: usize = if end > 0 && t.get_char(0) == '+' { 1 } else { 0 };
    let ghost d = if num.len() > 0 && num[0] == '+' { num.drop_first() } else { num };
    assert(d =~= t@.subrange(start as int, end as int));
    if start == end {
        return Err(FsImageError::InvalidSize);
    }
    let (all, big, v, _nz) = scan_digits(t, start, end, 0xFFFF_FFFF_FFFF_FFFF);
    if !all || big {
        return Err(FsImageError::InvalidSize);
    }
    if v == 0 {
        return Err(FsImageError::ZeroSize);
    }
    Ok(v as u64)
}

fn round_scaled(ip_v: u64, f: u64, k: usize, mult: u64) -> (v: u64)
    requires
        k <= 18,
        f < pow10(k as nat),
        1 <= mult <= 0x4000_0000,
    ensures
        v == rounded_scaled(ip_v as int, f as int, k as nat, mult as int),
{
    let p10 = pow10_exec(k as u32);
    proof {
        lemma_pow10_mono(k as nat, 18);
        assert(pow10(18) == 1_000_000_000_000_000_000) by {
            reveal_with_fuel(pow10, 19);
        }
    }
    assert((f as u128) * (mult as u128) <= 1_000_000_000_000_000_000u128 * 0x4000_0000u128) by (nonlinear_arith)
        requires f < 1_000_000_000_000_000_000u64, 1 <= mult <= 0x4000_0000u64;
    let fm: u128 = (f as u128) * (mult as u128);
    let num: u128 = 2 * fm + (p10 as u128);
    let den: u128 = 2 * (p10 as u128);
    let frac: u128 = num / den;
    assert((ip_v as u128) * (mult as u128) <= 0xFFFF_FFFF_FFFF_FFFFu128 * 0x4000_0000u128) by (nonlinear_arith)
        requires 1 <= mult <= 0x4000_0000u64;
    let im: u128 = (ip_v as u128) * (mult as u128);
    let total: u128 = im + frac;
    assert(fm == f * mult);
    assert(im == ip_v * mult);
    assert(2 * f * mult == 2 * (f * mult)) by (nonlinear_arith);
    assert(num == 2 * f * mult + pow10(k as nat));
    assert(den == 2 * pow10(k as nat));
    assert(total == ip_v * mult + (2 * f * mult + pow10(k as nat)) / (2 * pow10(k as nat)));
    if total > u64::MAX as u128 { u64::MAX } else { total as u64 }
}

/// Position of the first `.` in `t[from..end]` (or `end`).
fn find_dot(t: &str, from: usize, end: usize) -> (dot: usize)
    requires
        from <= end <= t@.len(),
    ensures
        dot == from + dot_at(t@.subrange(from as int, end as int), 0),
        from <= dot <= end,
{
    let ghost r = t@.subrange(from as int, end as int);
    let mut dot: usize = from;
    while dot < end && t.get_char(dot) != '.'
        invariant
            from <= dot <= end <= t@.len(),
            r == t@.subrange(from as int, end as int),
            dot_at(r, 0) == dot_at(r, dot - from),
        decreases end - dot,
    {
        assert(r[dot - from] == t@[dot as int]);
        dot = dot + 1;
    }
    proof {
        if dot < end {
            assert(r[dot - from] == t@[dot as int]);
        }
    }
    dot
}

/// Position of the first `e` or `E` in `t` (or its length).
fn find_exp(t: &str) -> (p: usize)
    ensures
        p == exp_at(t@, 0),
        p <= t@.len(),
{
    let n = t.unicode_len();
    let mut p: usize = 0;
    while p < n && t.get_char(p) != 'e' && t.get_char(p) != 'E'
        invariant
            p <= n == t@.len(),
            exp_at(t@, 0) == exp_at(t@, p as int),
        decreases n - p,
    {
        p = p + 1;
    }
    p
}

/// A digit string of length `len` splits at `p` into the value of its head
/// times `10^(len - p)` plus the value of its tail.
proof fn lemma_digits_split(s: Seq<char>, p: int)
    requires
        0 <= p <= s.len(),
    ensures
        digits_value(s) == digits_value(s.subrange(0, p)) * pow10((s.len() - p) as nat)
            + digits_value(s.subrange(p, s.len() as int)),
    decreases s.len(),
{
    if p == s.len() {
        assert(s.subrange(0, p) =~= s);
        assert(s.subrange(p, s.len() as int) =~= Seq::<char>::empty());
        assert(pow10(0) == 1);
    } else {
        let d = s.drop_last();
        lemma_digits_split(d, p);
        assert(d.subrange(0, p) =~= s.subrange(0, p));
        let tl = s.subrange(p, s.len() as int);
        assert(tl.drop_last() =~= d.subrange(p, d.len() as int));
        assert(tl.last() == s.last());
        let a = digits_value(s.subrange(0, p));
        let b = digits_value(d.subrange(p, d.len() as int));
        let e = pow10((d.len() - p) as nat);
        assert(pow10((s.len() - p) as nat) == 10 * e);
        assert((a * e + b) * 10 == a * (10 * e) + b * 10) by (nonlinear_arith);
    }
}

/// Dropping the last `len - p` digits divides by `10^(len - p)`.
proof fn lemma_digits_prefix_div(s: Seq<char>, p: int)
    requires
        0 <= p <= s.len(),
        all_digits(s),
    ensures
        digits_value(s.subrange(0, p)) == digits_value(s) / pow10((s.len() - p) as nat),
{
    lemma_digits_split(s, p);
    lemma_sub_digits(s, 0, s.len() as int, p, s.len() as int);
    lemma_digits_facts(s.subrange(p, s.len() as int));
    lemma_pow10_pos((s.len() - p) as nat);
    vstd::arithmetic::div_mod::lemma_fundamental_div_mod_converse(
        digits_value(s), pow10((s.len() - p) as nat), digits_value(s.subrange(0, p)),
        digits_value(s.subrange(p, s.len() as int)));
}

/// Rounding `n = q·p + r` splits into `q·mult` and the rounded rest.
proof fn lemma_round_split(n: int, q: int, r: int, p: int, mult: int)
    requires
        p >= 1,
        0 <= r < p,
        n == q * p + r,
        mult >= 1,
    ensures
        (2 * n * mult + p) / (2 * p) == q * mult + (2 * r * mult + p) / (2 * p),
{
    let w = (2 * r * mult + p) / (2 * p);
    let z = (2 * r * mult + p) % (2 * p);
    vstd::arithmetic::div_mod::lemma_fundamental_div_mod(2 * r * mult + p, 2 * p);
    assert(2 * n * mult + p == (q * mult + w) * (2 * p) + z) by (nonlinear_arith)
        requires n == q * p + r, 2 * r * mult + p == (2 * p) * w + z;
    vstd::arithmetic::div_mod::lemma_fundamental_div_mod_converse(2 * n * mult + p, 2 * p, q * mult + w, z);
}

/// A rounded value of at least `u64::MAX · 10^18` saturates.
proof fn lemma_round_big(n: int, k: nat, mult: int)
    requires
        n > 0xFFFF_FFFF_FFFF_FFFF * 1_000_000_000_000_000_000,
        k <= 18,
        mult >= 1,
    ensures
        sat64((2 * n * mult + pow10(k)) / (2 * pow10(k))) == u64::MAX,
{
    lemma_pow10_mono(k, 18);
    assert(pow10(18) == 1_000_000_000_000_000_000) by {
        reveal_with_fuel(pow10, 19);
    }
    let p = pow10(k);
    let x = 2 * n * mult + p;
    vstd::arithmetic::div_mod::lemma_fundamental_div_mod(x, 2 * p);
    let w = x / (2 * p);
    assert(w >= 0xFFFF_FFFF_FFFF_FFFF) by (nonlinear_arith)
        requires
            x == (2 * p) * w + x % (2 * p),
            0 <= x % (2 * p) < 2 * p,
            1 <= p <= 1_000_000_000_000_000_000,
            n > 0xFFFF_FFFF_FFFF_FFFF * 1_000_000_000_000_000_000,
            mult >= 1,
            x == 2 * n * mult + p;
}

/// `shifted_round` of a non-zero digit string, with the point given by a
/// fraction length `lf` and an exponent `e` (`ev` its magnitude, when it is at
/// most 2^100).
fn round_shifted(c: &str, lf: usize, eneg: bool, ebig: bool, ev: u128, mult: u64, Ghost(e): Ghost<int>) -> (v: u64)
    requires
        all_digits(c@),
        has_nonzero(c@),
        lf <= c@.len(),
        mult == 0x400 || mult == 0x10_0000 || mult == 0x4000_0000,
        ebig ==> (if eneg { e < -0x10_0000_0000_0000_0000_0000_0000 } else { e > 0x10_0000_0000_0000_0000_0000_0000 }),
        !ebig ==> ev <= 0x10_0000_0000_0000_0000_0000_0000 && e == (if eneg { -(ev as int) } else { ev as int }),
    ensures
        v == shifted_round(c@, lf - e, mult as int),
{
    let n = c.unicode_len();
    let ghost cv = digits_value(c@);
    proof {
        lemma_digits_facts(c@);
        assert(c@.subrange(0, n as int) =~= c@);
        assert(usize::MAX as int <= u64::MAX);
        assert(pow10(18) == 1_000_000_000_000_000_000) by {
            reveal_with_fuel(pow10, 19);
        }
        assert(pow10(20) == 100_000_000_000_000_000_000) by {
            reveal_with_fuel(pow10, 21);
        }
    }
    let q: i128 = if ebig {
        if eneg { 0x20_0000_0000_0000_0000_0000_0000 } else { -0x20_0000_0000_0000_0000_0000_0000 }
    } else if eneg {
        lf as i128 + ev as i128
    } else {
        lf as i128 - ev as i128
    };
    if q <= 0 {
        if q <= -20 {
            proof {
                let z = (-(lf - e)) as nat;
                lemma_pow10_mono(20, z);
                assert(cv * pow10(z) * mult >= pow10(z)) by (nonlinear_arith)
                    requires cv >= 1, pow10(z) >= 1, mult >= 1;
            }
            return u64::MAX;
        }
        assert(q == lf - e);
        let z: u32 = (-q) as u32;
        let (_a, big, nv, _b) = scan_digits(c, 0, n, 0xFFFF_FFFF_FFFF_FFFF);
        proof {
            lemma_pow10_pos(z as nat);
            lemma_pow10_mono(z as nat, 19);
            assert(pow10(19) == 10_000_000_000_000_000_000) by {
                reveal_with_fuel(pow10, 20);
            }
        }
        if big {
            proof {
                assert(cv * pow10(z as nat) * mult >= cv) by (nonlinear_arith)
                    requires cv >= 1, pow10(z as nat) >= 1, mult >= 1;
            }
            return u64::MAX;
        }
        let p = pow10_exec(z);
        assert((nv as int) * (p as int) <= 0xFFFF_FFFF_FFFF_FFFFu128 * 0xFFFF_FFFF_FFFF_FFFFu128) by (nonlinear_arith)
            requires nv <= 0xFFFF_FFFF_FFFF_FFFFu128, p <= 0xFFFF_FFFF_FFFF_FFFFu64;
        let a: u128 = nv * (p as u128);
        if a > 0xFFFF_FFFF_FFFF_FFFF {
            proof {
                assert(a * mult >= a) by (nonlinear_arith)
                    requires a >= 0, mult >= 1;
            }
            return u64::MAX;
        }
        let b: u128 = a * (mult as u128);
        return if b > 0xFFFF_FFFF_FFFF_FFFF { u64::MAX } else { b as u64 };
    }
    let k: i128 = if q <= 18 { q } else { 18 };
    let d: i128 = q - k;
    proof {
        lemma_pow10_mono(k as nat, 18);
    }
    if d >= n as i128 {
        proof {
            let qq = lf - e;
            let kk: nat = if qq <= 18 { qq as nat } else { 18 };
            assert(qq - kk >= n);
            lemma_pow10_mono(n as nat, (qq - kk) as nat);
            vstd::arithmetic::div_mod::lemma_fundamental_div_mod_converse(cv, pow10((qq - kk) as nat), 0, cv);
            let p = pow10(kk);
            assert((2 * 0 * mult + p) / (2 * p) == 0) by {
                vstd::arithmetic::div_mod::lemma_fundamental_div_mod_converse(p, 2 * p, 0, p);
            }
        }
        return 0;
    }
    assert(q == lf - e);
    let pl: usize = n - (d as usize);
    let (_a, big, nv, _b) = scan_digits(c, 0, pl, 0x0DE0_B6B3_A763_FFFF_F21F_494C_589C_0000);
    proof {
        lemma_digits_prefix_div(c@, pl as int);
        assert(0xFFFF_FFFF_FFFF_FFFF * 1_000_000_000_000_000_000 == 0x0DE0_B6B3_A763_FFFF_F21F_494C_589C_0000);
    }
    if big {
        proof {
            lemma_round_big(digits_value(c@.subrange(0, pl as int)), k as nat, mult as int);
        }
        return u64::MAX;
    }
    let p10 = pow10_exec(k as u32);
    let qq: u128 = nv / (p10 as u128);
    let rr: u128 = nv % (p10 as u128);
    proof {
        vstd::arithmetic::div_mod::lemma_fundamental_div_mod(nv as int, p10 as int);
        assert(qq as int == (nv as int) / (p10 as int));
        assert(rr as int == (nv as int) % (p10 as int));
        vstd::arithmetic::mul::lemma_mul_is_commutative(p10 as int, qq as int);
        assert(nv as int == (qq as int) * (p10 as int) + rr as int);
        lemma_round_split(nv as int, qq as int, rr as int, p10 as int, mult as int);
    }
    if qq > 0xFFFF_FFFF_FFFF_FFFF {
        proof {
            let p = pow10(k as nat);
            let w = (2 * rr * mult + p) / (2 * p);
            assert(w >= 0) by {
                vstd::arithmetic::div_mod::lemma_div_pos_is_pos(2 * rr * mult + p, 2 * p);
            }
            assert(qq * mult >= qq) by (nonlinear_arith)
                requires qq >= 0, mult >= 1;
        }
        return u64::MAX;
    }
    round_scaled(qq as u64, rr as u64, k as usize, mult)
}

/// The integer digits, fraction digits, whether an exponent marker occurs,
/// the exponent's digits and whether it is negative.
fn split_number<'a>(r: &'a str) -> (res: (&'a str, &'a str, bool, &'a str, bool))
    ensures
        res.0@ == int_part(mantissa(r@)),
        res.1@ == frac_part(mantissa(r@)),
        res.2 == (exp_at(r@, 0) < r@.len()),
        res.3@ == unsigned_part(exp_text(r@)),
        res.4 == (exp_text(r@).len() > 0 && exp_text(r@)[0] == '-'),
{
    let rl = r.unicode_len();
    let ep = find_exp(r);
    let m = r.substring_char(0, ep);
    let dot = find_dot(m, 0, ep);
    assert(m@.subrange(0, ep as int) =~= m@);
    let ip = m.substring_char(0, dot);
    let fs: usize = if dot < ep { dot + 1 } else { ep };
    let fp = m.substring_char(fs, ep);
    let es: usize = if ep < rl { ep + 1 } else { rl };
    let et = r.substring_char(es, rl);
    let etl = et.unicode_len();
    let e0: char = if etl > 0 { et.get_char(0) } else { ' ' };
    let eneg = etl > 0 && e0 == '-';
    let eds: usize = if etl > 0 && (e0 == '-' || e0 == '+') { 1 } else { 0 };
    let ed = et.substring_char(eds, etl);
    assert(ip@ =~= int_part(mantissa(r@)));
    assert(fp@ =~= frac_part(mantissa(r@)));
    assert(et@ =~= exp_text(r@));
    assert(ed@ =~= unsigned_part(et@));
    (ip, fp, ep < rl, ed, eneg)
}

/// The digits of `ip` followed by those of `fp`.
fn join_digits(ip: &str, fp: &str) -> (c: String)
    requires
        all_digits(ip@),
        all_digits(fp@),
        has_nonzero(ip@) || has_nonzero(fp@),
    ensures
        c@ == ip@ + fp@,
        all_digits(c@),
        has_nonzero(c@),
{
    let mut c = String::new();
    c.append(ip);
    c.append(fp);
    proof {
        assert(c@ =~= ip@ + fp@);
        assert forall|i: int| 0 <= i < c@.len() implies is_digit(#[trigger] c@[i]) by {
            if i < ip@.len() {
                assert(c@[i] == ip@[i]);
            } else {
                assert(c@[i] == fp@[i - ip@.len()]);
            }
        }
        if has_nonzero(ip@) {
            let w = choose|w: int| 0 <= w < ip@.len() && is_digit(#[trigger] ip@[w]) && ip@[w] as u32 != 0x30;
            assert(c@[w] == ip@[w]);
        } else {
            let w = choose|w: int| 0 <= w < fp@.len() && is_digit(#[trigger] fp@[w]) && fp@[w] as u32 != 0x30;
            assert(c@[w + ip@.len()] == fp@[w]);
        }
    }
    c
}

/// Split a size's number part and evaluate it (see [`scaled_value`]).
fn parse_scaled(num: &str, mult: u64) -> (r: Result<u64, FsImageError>)
    requires
        mult == 0x400 || mult == 0x10_0000 || mult == 0x4000_0000,
    ensures
        r == scaled_value(num@, mult as int),
{
    let n = num.unicode_len();
    let c0: char = if n > 0 { num.get_char(0) } else { ' ' };
    let neg = n > 0 && c0 == '-';
    let rs: usize = if n > 0 && (c0 == '-' || c0 == '+') { 1 } else { 0 };
    let r = num.substring_char(rs, n);
    assert(r@ =~= unsigned_part(num@));
    if str_eq_ignore_case(r, "inf") || str_eq_ignore_case(r, "infinity") {
        return if neg { Err(FsImageError::NotPositive) } else { Ok(u64::MAX) };
    }
    if str_eq_ignore_case(r, "nan") {
        return Err(FsImageError::ZeroSize);
    }
    let (ip, fp, has_exp, ed, eneg) = split_number(r);
    let il = ip.unicode_len();
    let fl = fp.unicode_len();
    let el = ed.unicode_len();
    assert(ip@.subrange(0, il as int) =~= ip@);
    assert(fp@.subrange(0, fl as int) =~= fp@);
    assert(ed@.subrange(0, el as int) =~= ed@);
    let (ip_ok, _ib, _iv, ip_nz) = scan_digits(ip, 0, il, 0xFFFF_FFFF_FFFF_FFFF);
    let (fp_ok, _fb, _fv, fp_nz) = scan_digits(fp, 0, fl, 0xFFFF_FFFF_FFFF_FFFF);
    let (ed_ok, ebig, ev, _en) = scan_digits(ed, 0, el, 0x10_0000_0000_0000_0000_0000_0000);
    if !ip_ok || !fp_ok || (il == 0 && fl == 0) || (has_exp && (el == 0 || !ed_ok)) {
        return Err(FsImageError::InvalidSize);
    }
    if neg || (!ip_nz && !fp_nz) {
        return Err(FsImageError::NotPositive);
    }
    let c = join_digits(ip, fp);
    let ghost e = exp_value(exp_text(r@));
    proof {
        if !has_exp {
            assert(exp_text(r@) =~= Seq::<char>::empty());
            assert(ed@ =~= Seq::<char>::empty());
            assert(digits_value(ed@) == 0);
        }
    }
    let v = round_shifted(c.as_str(), fl, eneg, has_exp && ebig, if has_exp && !ebig { ev } else { 0 }, mult, Ghost(e));
    if v == 0 {
        return Err(FsImageError::ZeroSize);
    }
    Ok(v)
}

/// Parse a size such as `4M`, `128m`, `4096`, `1G` or `1.5K` (see [`size_value`]).
///
/// A multiplied size is computed in exact decimal arithmetic. Where the text
/// holds more digits than a binary double keeps, or a value so small that a
/// double would hold it as zero, a parse through `f64` could round to another
/// size (or report the value as not positive where this gives `ZeroSize`).
pub fn parse_size(s: &str) -> (r: Result<u64, FsImageError>)
    ensures
        r == size_value(s@),
{
    let t = trim(s);
    let n = t.unicode_len();
    if n == 0 {
        return Err(FsImageError::EmptySize);
    }
    let last = to_upper(t.get_char(n - 1));
    let suffix = last == 'K' || last == 'M' || last == 'G' || (last == 'B' && n > 1);
    let end: usize = if suffix { n - 1 } else { n };
    let mult: u64 = if last == 'K' { 0x400 } else if last == 'M' { 0x10_0000 } else if last == 'G' { 0x4000_0000 } else { 1 };
    assert((if has_suffix(t@) { t@.subrange(0, t@.len() - 1) } else { t@ }) =~= t@.subrange(0, end as int));
    if mult == 1 {
        parse_plain(t, end)
    } else {
        parse_scaled(t.substring_char(0, end), mult)
    }
}

} // verus!

verus! {

/// The character of a decimal digit.
pub open spec fn digit_char(d: int) -> char {
    if d == 0 { '0' } else if d == 1 { '1' } else if d == 2 { '2' } else if d == 3 { '3' }
    else if d == 4 { '4' } else if d == 5 { '5' } else if d == 6 { '6' } else if d == 7 { '7' }
    else if d == 8 { '8' } else { '9' }
}

/// The decimal text of `n`, without leading zeros (`0` is `"0"`).
pub open spec fn decimal(n: nat) -> Seq<char>
    decreases n,
{
    if n < 10 {
        seq![digit_char(n as int)]
    } else {
        decimal(n / 10) + seq![digit_char((n % 10) as int)]
    }
}

/// The text `format_size` gives for `bytes`: whole MiB as `<n>M`, else
/// whole KiB as `<n>K`, else `<n>B`.
pub open spec fn size_text(bytes: u64) -> Seq<char> {
    if bytes % 0x10_0000 == 0 {
        decimal((bytes / 0x10_0000) as nat) + seq!['M']
    } else if bytes % 0x400 == 0 {
        decimal((bytes / 0x400) as nat) + seq!['K']
    } else {
        decimal(bytes as nat) + seq!['B']
    }
}

fn digit_str(d: u64) -> (s: &'static str)
    requires
        d < 10,
    ensures
        s@ == seq![digit_char(d as int)],
{
    proof {
        reveal_strlit("0");
        reveal_strlit("1");
        reveal_strlit("2");
        reveal_strlit("3");
        reveal_strlit("4");
        reveal_strlit("5");
        reveal_strlit("6");
        reveal_strlit("7");
        reveal_strlit("8");
        reveal_strlit("9");
    }
    match d {
        0 => "0",
        1 => "1",
        2 => "2",
        3 => "3",
        4 => "4",
        5 => "5",
        6 => "6",
        7 => "7",
        8 => "8",
        _ => "9",
    }
}

/// Append the decimal text of `n` to `out`.
pub fn push_decimal(out: &mut String, n: u64)
    ensures
        final(out)@ == old(out)@ + decimal(n as nat),
    decreases n,
{
    if n < 10 {
        out.append(digit_str(n));
    } else {
        push_decimal(out, n / 10);
        out.append(digit_str(n % 10));
        proof {
            assert(old(out)@ + decimal((n / 10) as nat) + seq![digit_char((n % 10) as int)]
                =~= old(out)@ + decimal(n as nat));
        }
    }
}

/// Human-readable size: `<n>M` for whole MiB, `<n>K` for whole KiB, else `<n>B`.
pub fn format_size(bytes: u64) -> (s: String)
    ensures
        s@ == size_text(bytes),
{
    let mut s = String::new();
    proof {
        reveal_strlit("M");
        reveal_strlit("K");
        reveal_strlit("B");
    }
    if bytes % 0x10_0000 == 0 {
        push_decimal(&mut s, bytes / 0x10_0000);
        s.append("M");
    } else if bytes % 0x400 == 0 {
        push_decimal(&mut s, bytes / 0x400);
        s.append("K");
    } else {
        push_decimal(&mut s, bytes);
        s.append("B");
    }
    s
}

proof fn lemma_decimal(n: nat)
    ensures
        decimal(n).len() >= 1,
        all_digits(decimal(n)),
        digits_value(decimal(n)) == n,
        forall|i: int| 0 <= i < decimal(n).len() ==> #[trigger] decimal(n)[i] != '.',
    decreases n,
{
    let d = decimal(n);
    if n < 10 {
        assert(digit_char(n as int) as u32 - 0x30 == n);
        assert(d.drop_last() =~= Seq::<char>::empty());
        assert(digits_value(d.drop_last()) == 0);
        assert(d.last() == digit_char(n as int));
    } else {
        lemma_decimal(n / 10);
        let c = digit_char((n % 10) as int);
        assert(c as u32 - 0x30 == n % 10);
        assert(d.drop_last() =~= decimal(n / 10));
        assert(d.last() == c);
        assert(digits_value(d) == digits_value(decimal(n / 10)) * 10 + (c as u32 - 0x30));
        assert(n == (n / 10) * 10 + n % 10);
        assert forall|i: int| 0 <= i < d.len() implies is_digit(#[trigger] d[i]) && d[i] != '.' by {
            if i < d.len() - 1 {
                assert(d[i] == decimal(n / 10)[i]);
            }
        }
    }
}

proof fn lemma_no_dot(r: Seq<char>, i: int)
    requires
        0 <= i <= r.len(),
        forall|j: int| 0 <= j < r.len() ==> #[trigger] r[j] != '.',
    ensures
        dot_at(r, i) == r.len(),
    decreases r.len() - i,
{
    if i < r.len() {
        lemma_no_dot(r, i + 1);
    }
}

/// Digits followed by a suffix letter are their own trimmed text.
proof fn lemma_trimmed_number(n: nat, c: char)
    requires
        !is_ws(c),
    ensures
        trimmed(decimal(n) + seq![c]) == decimal(n) + seq![c],
{
    let t = decimal(n) + seq![c];
    lemma_decimal(n);
    assert(t[0] == decimal(n)[0]);
    assert(!is_ws(t[0]));
    assert(skip_ws(t, 0) == 0);
    assert(t[t.len() - 1] == c);
    assert(trim_end_at(t, 0, t.len() as int) == t.len());
    assert(t.subrange(0, t.len() as int) =~= t);
}

proof fn lemma_no_exp(r: Seq<char>, i: int)
    requires
        0 <= i <= r.len(),
        all_digits(r),
    ensures
        exp_at(r, i) == r.len(),
    decreases r.len() - i,
{
    if i < r.len() {
        assert(is_digit(r[i]));
        lemma_no_exp(r, i + 1);
    }
}

/// A multiplied count `n` written as digits parses back to `n × mult`
/// (saturated at `u64::MAX`).
proof fn lemma_scaled_digits(n: nat, mult: int)
    requires
        n > 0,
        mult >= 1,
    ensures
        scaled_value(decimal(n), mult) == Ok::<u64, FsImageError>(sat64(n * mult) as u64),
{
    let num = decimal(n);
    lemma_decimal(n);
    lemma_digits_facts(num);
    assert(is_digit(num[0]));
    assert(unsigned_part(num) == num);
    reveal_strlit("inf");
    reveal_strlit("infinity");
    reveal_strlit("nan");
    assert(lower(num[0]) == num[0]);
    assert(!eq_ignore_case(num, "inf"@)) by {
        assert("inf"@[0] == 'i');
    }
    assert(!eq_ignore_case(num, "infinity"@)) by {
        assert("infinity"@[0] == 'i');
    }
    assert(!eq_ignore_case(num, "nan"@)) by {
        assert("nan"@[0] == 'n');
    }
    lemma_no_exp(num, 0);
    lemma_no_dot(num, 0);
    assert(mantissa(num) =~= num);
    assert(int_part(num) =~= num);
    assert(frac_part(num) =~= Seq::<char>::empty());
    assert(exp_text(num) =~= Seq::<char>::empty());
    assert(unsigned_part(Seq::<char>::empty()) =~= Seq::<char>::empty());
    assert(digits_value(Seq::<char>::empty()) == 0);
    assert(exp_value(Seq::<char>::empty()) == 0);
    assert(num + Seq::<char>::empty() =~= num);
    assert(all_digits(Seq::<char>::empty()));
    assert(pow10(0) == 1);
    assert(has_nonzero(num));
    assert(shifted_round(num, 0, mult) == sat64(n * mult));
    assert(n * mult >= 1) by (nonlinear_arith)
        requires n > 0, mult >= 1;
}

/// Digits alone are their own trimmed text.
proof fn lemma_trimmed_digits(n: nat)
    ensures
        trimmed(decimal(n)) == decimal(n),
{
    let t = decimal(n);
    lemma_decimal(n);
    assert(is_digit(t[0]));
    assert(!is_ws(t[0]));
    assert(skip_ws(t, 0) == 0);
    assert(is_digit(t[t.len() - 1]));
    assert(trim_end_at(t, 0, t.len() as int) == t.len());
    assert(t.subrange(0, t.len() as int) =~= t);
}

/// The multiple a size suffix letter selects (ASCII case ignored): `K` 2^10,
/// `M` 2^20, `G` 2^30, `B` 1.
pub open spec fn suffix_mult(c: char) -> int {
    if c == 'K' || c == 'k' {
        0x400
    } else if c == 'M' || c == 'm' {
        0x10_0000
    } else if c == 'G' || c == 'g' {
        0x4000_0000
    } else {
        1
    }
}

/// A positive count written in decimal reads as itself; followed by `B` as
/// itself too, and followed by `K`, `M` or `G` (either case) as that many
/// KiB, MiB or GiB, saturated at `u64::MAX`.
pub proof fn law_parse_size_units(n: nat, c: char)
    requires
        n > 0,
        c == 'K' || c == 'k' || c == 'M' || c == 'm' || c == 'G' || c == 'g' || c == 'B' || c == 'b',
    ensures
        n <= u64::MAX ==> size_value(decimal(n)) == Ok::<u64, FsImageError>(n as u64),
        (c == 'B' || c == 'b') && n <= u64::MAX ==> size_value(decimal(n) + seq![c]) == Ok::<u64, FsImageError>(n as u64),
        !(c == 'B' || c == 'b') ==> size_value(decimal(n) + seq![c]) == Ok::<u64, FsImageError>(
            sat64(n * suffix_mult(c)) as u64),
{
    lemma_decimal(n);
    lemma_digits_facts(decimal(n));
    lemma_trimmed_digits(n);
    let t = decimal(n);
    assert(is_digit(t[t.len() - 1]));
    assert(upper(t[t.len() - 1]) == t[t.len() - 1]);
    assert(!has_suffix(t));
    assert(size_mult(t) == 1);
    assert(is_digit(t[0]));
    assert(t[0] != '+');
    lemma_trimmed_number(n, c);
    let u = t + seq![c];
    assert(u[u.len() - 1] == c);
    assert(u.subrange(0, u.len() - 1) =~= t);
    assert(has_suffix(u));
    if !(c == 'B' || c == 'b') {
        lemma_scaled_digits(n, suffix_mult(c));
    }
}

proof fn lemma_exp_at_marker(r: Seq<char>, i: int, m: int)
    requires
        0 <= i <= m < r.len(),
        r[m] == 'e',
        forall|k: int| i <= k < m ==> r[k] != 'e' && r[k] != 'E',
    ensures
        exp_at(r, i) == m,
    decreases m - i,
{
    if i < m {
        lemma_exp_at_marker(r, i + 1, m);
    }
}

/// A positive count with a decimal exponent, followed by `K`, `M` or `G`
/// (either case), reads as the count times ten to the exponent times the
/// unit, saturated at `u64::MAX`: `1e3M` is 1000 MiB.
pub proof fn law_parse_size_exponent(n: nat, e: nat, c: char)
    requires
        n > 0,
        c == 'K' || c == 'k' || c == 'M' || c == 'm' || c == 'G' || c == 'g',
    ensures
        size_value(decimal(n) + seq!['e'] + decimal(e) + seq![c]) == Ok::<u64, FsImageError>(
            sat64(n * pow10(e) * suffix_mult(c)) as u64),
{
    let dn = decimal(n);
    let de = decimal(e);
    let num = dn + seq!['e'] + de;
    let t = num + seq![c];
    lemma_decimal(n);
    lemma_decimal(e);
    lemma_digits_facts(dn);
    lemma_digits_facts(de);
    // the text is its own trimmed text, with a unit suffix
    assert(t[0] == dn[0]);
    assert(is_digit(dn[0]));
    assert(!is_ws(t[0]));
    assert(skip_ws(t, 0) == 0);
    assert(t[t.len() - 1] == c);
    assert(trim_end_at(t, 0, t.len() as int) == t.len());
    assert(t.subrange(0, t.len() as int) =~= t);
    assert(trimmed(t) == t);
    assert(has_suffix(t));
    assert(t.subrange(0, t.len() - 1) =~= num);
    // the number's parts
    assert(num[0] == dn[0]);
    assert(unsigned_part(num) == num);
    reveal_strlit("inf");
    reveal_strlit("infinity");
    reveal_strlit("nan");
    assert(lower(num[0]) == num[0]);
    assert(!eq_ignore_case(num, "inf"@)) by {
        assert("inf"@[0] == 'i');
    }
    assert(!eq_ignore_case(num, "infinity"@)) by {
        assert("infinity"@[0] == 'i');
    }
    assert(!eq_ignore_case(num, "nan"@)) by {
        assert("nan"@[0] == 'n');
    }
    let m = dn.len() as int;
    assert(num[m] == 'e');
    assert forall|k: int| 0 <= k < m implies num[k] != 'e' && num[k] != 'E' by {
        assert(num[k] == dn[k]);
        assert(is_digit(dn[k]));
    }
    lemma_exp_at_marker(num, 0, m);
    assert(mantissa(num) =~= dn);
    lemma_no_dot(dn, 0);
    assert(dn.subrange(0, dn.len() as int) =~= dn);
    assert(int_part(dn) == dn);
    assert(frac_part(dn) =~= Seq::<char>::empty());
    assert(exp_text(num) =~= de);
    assert(is_digit(de[0]));
    assert(unsigned_part(de) == de);
    assert(exp_value(de) == e);
    assert(all_digits(Seq::<char>::empty()));
    assert(dn + Seq::<char>::empty() =~= dn);
    assert(has_nonzero(dn));
    let mult = suffix_mult(c);
    assert(size_mult(t) == mult);
    lemma_pow10_pos(e);
    assert(shifted_round(dn, 0 - e, mult) == sat64(n * pow10(e) * mult));
    assert(n * pow10(e) * mult >= 1) by (nonlinear_arith)
        requires n > 0, pow10(e) >= 1, mult >= 1;
}

/// What `format_size` writes, `parse_size` reads back as the same number of
/// bytes (every count but zero, which `parse_size` refuses).
pub proof fn law_format_size_parses_back(bytes: u64)
    requires
        bytes > 0,
    ensures
        size_value(size_text(bytes)) == Ok::<u64, FsImageError>(bytes),
{
    if bytes % 0x10_0000 == 0 {
        let n = (bytes / 0x10_0000) as nat;
        assert(n * 0x10_0000 == bytes);
        lemma_trimmed_number(n, 'M');
        lemma_scaled_digits(n, 0x10_0000);
        assert((decimal(n) + seq!['M']).subrange(0, decimal(n).len() as int) =~= decimal(n));
    } else if bytes % 0x400 == 0 {
        let n = (bytes / 0x400) as nat;
        assert(n * 0x400 == bytes);
        lemma_trimmed_number(n, 'K');
        lemma_scaled_digits(n, 0x400);
        assert((decimal(n) + seq!['K']).subrange(0, decimal(n).len() as int) =~= decimal(n));
    } else {
        let n = bytes as nat;
        lemma_trimmed_number(n, 'B');
        lemma_decimal(n);
        assert(is_digit(decimal(n)[0]));
        assert((decimal(n) + seq!['B']).subrange(0, decimal(n).len() as int) =~= decimal(n));
    }
}

proof fn lemma_zeros_digits(z: Seq<char>)
    requires
        forall|i: int| 0 <= i < z.len() ==> z[i] == '0',
    ensures
        all_digits(z),
        !has_nonzero(z),
        exp_at(z, 0) == z.len(),
        dot_at(z, 0) == z.len(),
{
    assert forall|i: int| 0 <= i < z.len() implies is_digit(#[trigger] z[i]) && z[i] != '.' by {
        assert(z[i] == '0');
    }
    assert(!has_nonzero(z)) by {
        if has_nonzero(z) {
            let w = choose|w: int| 0 <= w < z.len() && is_digit(#[trigger] z[w]) && z[w] as u32 != 0x30;
            assert(z[w] == '0');
        }
    }
    lemma_no_exp(z, 0);
    lemma_no_dot(z, 0);
}

proof fn lemma_shifted_nonneg(ip: Seq<char>, fp: Seq<char>, q: int, mult: int)
    requires
        all_digits(ip),
        all_digits(fp),
        mult >= 1,
    ensures
        shifted_round(ip + fp, q, mult) >= 0,
{
    let c = ip + fp;
    assert forall|i: int| 0 <= i < c.len() implies is_digit(#[trigger] c[i]) by {
        if i < ip.len() {
            assert(c[i] == ip[i]);
        } else {
            assert(c[i] == fp[i - ip.len()]);
        }
    }
    lemma_digits_facts(c);
    let cv = digits_value(c);
    if q <= 0 {
        lemma_pow10_pos((-q) as nat);
        assert(cv * pow10((-q) as nat) * mult >= 0) by (nonlinear_arith)
            requires cv >= 0, pow10((-q) as nat) >= 1, mult >= 1;
    } else {
        let k: nat = if q <= 18 { q as nat } else { 18 };
        lemma_pow10_pos((q - k) as nat);
        lemma_pow10_pos(k);
        let n = cv / pow10((q - k) as nat);
        vstd::arithmetic::div_mod::lemma_div_pos_is_pos(cv, pow10((q - k) as nat));
        assert(2 * n * mult + pow10(k) >= 0) by (nonlinear_arith)
            requires n >= 0, mult >= 1, pow10(k) >= 1;
        vstd::arithmetic::div_mod::lemma_div_pos_is_pos(2 * n * mult + pow10(k), 2 * pow10(k));
    }
}

/// Blank text is refused as empty, a size of zeros alone (`0`, `000`, `0M`,
/// `0k`, ...) is refused, and every accepted size is at least one byte.
pub proof fn law_parse_size_refuses_zero(s: Seq<char>)
    ensures
        trimmed(s).len() == 0 ==> size_value(s) == Err::<u64, FsImageError>(FsImageError::EmptySize),
        size_value(s) matches Ok(v) ==> v > 0,
        ({
            let t = trimmed(s);
            t.len() > 0 && (forall|i: int| 0 <= i < t.len() - 1 ==> t[i] == '0')
                && (t[t.len() - 1] == '0' || has_suffix(t))
        }) ==> size_value(s) matches Err(_),
{
    let t = trimmed(s);
    if t.len() > 0 {
        let num = if has_suffix(t) { t.subrange(0, t.len() - 1) } else { t };
        if size_mult(t) == 1 {
            let d = if num.len() > 0 && num[0] == '+' { num.drop_first() } else { num };
            if all_digits(d) {
                lemma_digits_facts(d);
            }
        } else {
            let m = mantissa(unsigned_part(num));
            if all_digits(int_part(m)) && all_digits(frac_part(m)) {
                lemma_shifted_nonneg(int_part(m), frac_part(m), frac_part(m).len() - exp_value(exp_text(unsigned_part(num))), size_mult(t));
            }
        }
    }
    if t.len() > 0 && (forall|i: int| 0 <= i < t.len() - 1 ==> t[i] == '0') && (t[t.len() - 1] == '0' || has_suffix(t)) {
        let num = if has_suffix(t) { t.subrange(0, t.len() - 1) } else { t };
        assert forall|i: int| 0 <= i < num.len() implies num[i] == '0' by {
            assert(num[i] == t[i]);
        }
        lemma_zeros_digits(num);
        if num.len() > 0 {
            assert(num[0] == '0');
        }
        assert(unsigned_part(num) == num);
        assert(num.subrange(0, num.len() as int) =~= num);
        if size_mult(t) == 1 {
            lemma_digits_facts(num);
        } else {
            reveal_strlit("inf");
            reveal_strlit("infinity");
            reveal_strlit("nan");
            if num.len() > 0 {
                assert(lower(num[0]) == '0');
                assert(!eq_ignore_case(num, "inf"@)) by {
                    assert("inf"@[0] == 'i');
                }
                assert(!eq_ignore_case(num, "infinity"@)) by {
                    assert("infinity"@[0] == 'i');
                }
                assert(!eq_ignore_case(num, "nan"@)) by {
                    assert("nan"@[0] == 'n');
                }
            }
            assert(mantissa(num) =~= num);
            assert(int_part(num) =~= num);
            assert(frac_part(num) =~= Seq::<char>::empty());
            assert(!has_nonzero(Seq::<char>::empty()));
        }
    }
}

/// The name of every kind parses back to that kind.
pub proof fn law_parse_name_round_trip(k: FilesystemKind)
    ensures
        fs_of_name(kind_name(k)) == Some(k),
{
    reveal_strlit("exfat");
    reveal_strlit("ntfs");
    match k {
        FilesystemKind::Exfat => {
            assert(eq_ignore_case("exfat"@, "exfat"@));
        },
        FilesystemKind::Ntfs => {
            assert(!eq_ignore_case("ntfs"@, "exfat"@));
            assert(eq_ignore_case("ntfs"@, "ntfs"@));
        },
    }
}

/// The name of a filesystem kind.
pub open spec fn kind_name(k: FilesystemKind) -> Seq<char> {
    match k {
        FilesystemKind::Exfat => "exfat"@,
        FilesystemKind::Ntfs => "ntfs"@,
    }
}

/// The persistent image path for the filesystem named by `disk` under `root`.
pub fn resolve_disk_image(root: &str, disk: &str) -> (r: Result<String, FsImageError>)
    ensures
        match fs_of_name(disk@) {
            Some(k) => r matches Ok(p)
                && p@ == join_path(join_path(root@, IMAGES_DIR@), image_file_name(kind_name(k))),
            None => r == Err::<String, FsImageError>(FsImageError::UnknownFilesystem),
        },
{
    match FilesystemKind::parse(disk) {
        Ok(fs) => Ok(persistent_image_path(root, fs.name())),
        Err(e) => Err(e),
    }
}

/// Whether the 11-byte boot-sector head carries `marker` at offset 3.
pub fn oem_name_matches(head: &[u8; 11], marker: &[u8]) -> (r: bool)
    requires
        marker@.len() <= 8,
    ensures
        r == (head@.subrange(3, 3 + marker@.len() as int) == marker@),
{
    let mut i: usize = 0;
    while i < marker.len()
        invariant
            marker@.len() <= 8,
            i <= marker@.len(),
            forall|k: int| 0 <= k < i ==> head@[3 + k] == marker@[k],
        decreases marker.len() - i,
    {
        if head[3 + i] != marker[i] {
            assert(head@.subrange(3, 3 + marker@.len() as int)[i as int] != marker@[i as int]);
            return false;
        }
        i = i + 1;
    }
    assert(head@.subrange(3, 3 + marker@.len() as int) =~= marker@);
    true
}

/// The OEM name a kind's image carries (see [`FilesystemKind::oem_marker`]).
pub open spec fn marker_of(fs: FilesystemKind) -> Seq<u8> {
    match fs {
        FilesystemKind::Exfat => seq![0x45u8, 0x58, 0x46, 0x41, 0x54, 0x20, 0x20, 0x20],
        FilesystemKind::Ntfs => seq![0x4Eu8, 0x54, 0x46, 0x53, 0x20, 0x20, 0x20, 0x20],
    }
}

/// Whether a probed image can be reused: it has the expected length and its
/// boot sector carries the kind's OEM name. `len` is `None` when the file is
/// missing or unreadable, `head` when its first 11 bytes could not be read.
pub fn image_probe_ok(len: Option<u64>, head: Option<[u8; 11]>, expect_size: u64, fs: FilesystemKind) -> (r: bool)
    ensures
        r == (len == Some(expect_size) && (match head {
            Some(h) => h@.subrange(3, 11) == marker_of(fs),
            None => false,
        })),
{
    match len {
        None => false,
        Some(n) => {
            if n != expect_size {
                return false;
            }
            match fs.oem_marker() {
                Some(marker) => match head {
                    Some(h) => oem_name_matches(&h, marker),
                    None => false,
                },
                None => true,
            }
        },
    }
}

/// What an `mkfs` request does: reuse a valid image unless forced, else
/// generate (reporting a forced recreation when an image was there), passing
/// `--force` to the generator when forced or when a file is in the way.
pub fn mkfs_decide(force: bool, exists: bool, valid: bool) -> (r: (MkfsOutcome, bool))
    ensures
        r.0 == (if !force && valid {
            MkfsOutcome::Reused
        } else if force && exists {
            MkfsOutcome::ForceRecreated
        } else {
            MkfsOutcome::Created
        }),
        r.1 == (r.0 != MkfsOutcome::Reused && (force || exists)),
{
    if !force && valid {
        return (MkfsOutcome::Reused, false);
    }
    let outcome = if force && exists { MkfsOutcome::ForceRecreated } else { MkfsOutcome::Created };
    (outcome, force || exists)
}

/// The generator's arguments: `<script> --size <size> -o <out> [--force]`.
pub fn mkfs_generator_args(generator: &str, size_bytes: u64, out: &str, pass_force: bool) -> (v: Vec<String>)
    ensures
        v@.len() == (if pass_force { 6int } else { 5int }),
        v@[0]@ == generator@,
        v@[1]@ == "--size"@,
        v@[2]@ == size_text(size_bytes),
        v@[3]@ == "-o"@,
        v@[4]@ == out@,
        pass_force ==> v@[5]@ == "--force"@,
{
    let mut v: Vec<String> = Vec::new();
    v.push(String::from_str(generator));
    v.push(String::from_str("--size"));
    v.push(format_size(size_bytes));
    v.push(String::from_str("-o"));
    v.push(String::from_str(out));
    if pass_force {
        v.push(String::from_str("--force"));
    }
    v
}

} // verus!
