//! File-system time: CMOS clock fields, the 8-byte date/time block, and its
//! conversion to seconds since 2001-01-01 00:00:00.

use vstd::prelude::*;
use crate::wrap::{mod32, lemma_wadd32, lemma_wsub32, lemma_wmul32, lemma_mod32_add, lemma_mod32_mul};

verus! {

/// Seed of the pseudo-random differential corpus for the clock reader (`'CUBV'`).
pub const FS_GET_TIME_PRNG_SEED: u32 = 0x4355_4256;

/// Seed of the pseudo-random differential corpus for register decoding (`'CUTC'`).
pub const FS_READ_CMOS_PRNG_SEED: u32 = 0x4355_5443;

/// A date and time as the kernel's 8-byte block holds it: second, minute,
/// hour, a padding byte, day, month, then the year little-endian.
#[derive(Clone, Copy, Debug, PartialEq, Eq)]
pub struct BdfeTime {
    pub sec: u8,
    pub min: u8,
    pub hour: u8,
    pub day: u8,
    pub month: u8,
    pub year: u16,
}

/// The block bytes of a date and time (padding byte zero).
pub open spec fn bdfe_bytes(t: BdfeTime) -> Seq<u8> {
    seq![t.sec, t.min, t.hour, 0u8, t.day, t.month, (t.year % 0x100) as u8, (t.year / 0x100) as u8]
}

/// The date and time a block holds (the padding byte is ignored).
pub open spec fn bdfe_of_bytes(b: Seq<u8>) -> BdfeTime {
    BdfeTime { sec: b[0], min: b[1], hour: b[2], day: b[4], month: b[5], year: (b[6] as int + b[7] as int * 0x100) as u16 }
}

impl BdfeTime {
    /// The 8-byte block of this date and time.
    pub fn to_bytes(&self) -> (b: [u8; 8])
        ensures
            b@ == bdfe_bytes(*self),
    {
        let b: [u8; 8] = [self.sec, self.min, self.hour, 0, self.day, self.month,
            (self.year % 0x100) as u8, (self.year / 0x100) as u8];
        assert(b@ =~= bdfe_bytes(*self));
        b
    }

    /// The date and time held by an 8-byte block.
    pub fn from_bytes(b: &[u8; 8]) -> (t: BdfeTime)
        ensures
            t == bdfe_of_bytes(b@),
    {
        BdfeTime { sec: b[0], min: b[1], hour: b[2], day: b[4], month: b[5], year: (b[6] as u16) + (b[7] as u16) * 0x100 }
    }
}

/// Reading back a written block gives the date and time written.
pub proof fn law_bdfe_round_trip(t: BdfeTime)
    ensures
        bdfe_of_bytes(bdfe_bytes(t)) == t,
{
}

/// Month lengths as the kernel lays them out: a common year's twelve months,
/// then a leap year's twelve; past the second table, zero.
pub open spec fn month_table(idx: int) -> int {
    if idx == 1 { 28 } else if idx == 13 { 29 } else if idx < 0 || idx >= 24 { 0 } else {
        let m = idx % 12;
        if m == 3 || m == 5 || m == 8 || m == 10 { 30 } else { 31 }
    }
}

/// Days in all months before month `n + 1`, read from the table the year selects.
pub open spec fn days_before_month(leap: bool, n: nat) -> int
    decreases n,
{
    if n == 0 {
        0
    } else {
        days_before_month(leap, (n - 1) as nat) + month_table(if leap { n - 1 + 12 } else { n - 1 })
    }
}

/// Seconds since 2001-01-01 00:00:00 of a block, with the kernel routine's
/// arithmetic: years before 2001 count as 2001, every fourth year (2004, 2008,
/// ...) is a leap year, day 1 is the first day, all sums wrap at 2^32, and the
/// bits above the low byte of `years / 4` are added again with each of day,
/// hour, minute and second (they are zero before the year 3025).
pub open spec fn fs_time_seconds(t: BdfeTime) -> u32 {
    let years: int = if t.year >= 2001 { t.year - 2001 } else { 0 };
    let q = years / 4;
    let hi = q / 0x100 * 0x100;
    let leap = (years + 1) % 4 == 0;
    let before = days_before_month(leap, if t.month >= 1 { (t.month - 1) as nat } else { 0 });
    let days = mod32(years * 365 + q + before - 1 + hi + t.day);
    let hours = mod32(days * 24 + hi + t.hour);
    let mins = mod32(hours * 60 + hi + t.min);
    mod32(mins * 60 + hi + t.sec)
}

fn month_length(idx: u32) -> (r: u32)
    ensures
        r == month_table(idx as int),
        r <= 31,
{
    if idx == 1 {
        28
    } else if idx == 13 {
        29
    } else if idx >= 24 {
        0
    } else {
        let m = idx % 12;
        if m == 3 || m == 5 || m == 8 || m == 10 { 30 } else { 31 }
    }
}

proof fn lemma_days_before_bound(leap: bool, n: nat)
    ensures
        0 <= days_before_month(leap, n) <= 31 * n,
    decreases n,
{
    if n > 0 {
        lemma_days_before_bound(leap, (n - 1) as nat);
    }
}

/// Seconds since 2001-01-01 00:00:00 of a date and time (see [`fs_time_seconds`]).
#[verifier::rlimit(40)]
pub fn fs_calculate_time(t: BdfeTime) -> (s: u32)
    ensures
        s == fs_time_seconds(t),
{
    let years: u32 = if t.year >= 2001 { (t.year - 2001) as u32 } else { 0 };
    let q: u32 = years / 4;
    let hi: u32 = q / 0x100 * 0x100;
    let leap: bool = (years + 1) % 4 == 0;
    let n: u32 = if t.month >= 1 { (t.month - 1) as u32 } else { 0 };
    let mut before: u32 = 0;
    let mut k: u32 = 0;
    while k < n
        invariant
            k <= n,
            n <= 254,
            before == days_before_month(leap, k as nat),
            before <= 31 * k,
        decreases n - k,
    {
        let idx: u32 = if leap { k + 12 } else { k };
        before = before + month_length(idx);
        k = k + 1;
    }
    let base: u32 = years * 365 + q + before;
    let a_day: u32 = hi + t.day as u32;
    let days: u32 = base.wrapping_sub(1).wrapping_add(a_day);
    proof {
        lemma_wsub32(base, 1);
        lemma_wadd32(base.wrapping_sub(1), a_day);
        lemma_mod32_add(base - 1, a_day as int);
    }
    let a_hour: u32 = hi + t.hour as u32;
    let hours: u32 = days.wrapping_mul(24).wrapping_add(a_hour);
    proof {
        lemma_wmul32(days, 24);
        lemma_wadd32(days.wrapping_mul(24), a_hour);
        lemma_mod32_add(days * 24, a_hour as int);
    }
    let a_min: u32 = hi + t.min as u32;
    let mins: u32 = hours.wrapping_mul(60).wrapping_add(a_min);
    proof {
        lemma_wmul32(hours, 60);
        lemma_wadd32(hours.wrapping_mul(60), a_min);
        lemma_mod32_add(hours * 60, a_min as int);
    }
    let a_sec: u32 = hi + t.sec as u32;
    let secs: u32 = mins.wrapping_mul(60).wrapping_add(a_sec);
    proof {
        lemma_wmul32(mins, 60);
        lemma_wadd32(mins.wrapping_mul(60), a_sec);
        lemma_mod32_add(mins * 60, a_sec as int);
    }
    secs
}

/// The value of a CMOS register byte read as two BCD digits: bit 7 dropped,
/// then `(high nibble * 10 + low nibble) mod 100`.
pub open spec fn bcd_value(raw: u8) -> u16 {
    (((raw % 0x80) / 16 * 10 + raw % 16) % 100) as u16
}

/// Decode a CMOS register byte (see [`bcd_value`]).
pub fn fs_read_cmos_bcd(raw: u8) -> (v: u16)
    ensures
        v == bcd_value(raw),
        v < 100,
{
    let hi: u8 = (raw & 0x7F) >> 4;
    let lo: u8 = raw & 0x0F;
    assert(hi == (raw % 0x80) / 16 && lo == raw % 16) by (bit_vector)
        requires
            hi == (raw & 0x7F) >> 4u8,
            lo == raw & 0x0Fu8;
    ((hi as u16) * 10 + (lo as u16)) % 100
}

/// The same decoding, named after the kernel routine it stands for.
pub fn fasm_oracle_fs_read_cmos(raw: u8) -> (v: u16)
    ensures
        v == bcd_value(raw),
{
    fs_read_cmos_bcd(raw)
}

/// A BCD byte with bit 7 clear (high digit at most 7, low digit at most 9)
/// decodes to its decimal value.
pub proof fn law_bcd_decodes_decimal(hi: u8, lo: u8)
    requires
        hi <= 7,
        lo <= 9,
    ensures
        bcd_value((hi * 16 + lo) as u8) == hi * 10 + lo,
{
    let raw = (hi * 16 + lo) as u8;
    assert(raw as int == hi * 16 + lo);
    assert(raw % 0x80 == raw);
    assert(raw / 16 == hi && raw % 16 == lo);
}

/// Replace the low 16 bits of `original_eax` with `decoded_ax`.
pub fn merge_upper_eax(original_eax: u32, decoded_ax: u16) -> (r: u32)
    ensures
        r == original_eax / 0x1_0000 * 0x1_0000 + decoded_ax,
{
    let r = (original_eax & 0xFFFF_0000) | (decoded_ax as u32);
    assert(r == original_eax / 0x1_0000 * 0x1_0000 + decoded_ax) by (bit_vector)
        requires
            r == (original_eax & 0xFFFF_0000u32) | (decoded_ax as u32);
    r
}

/// The date and time the clock reader assembles from six register values:
/// the low bytes of day, month, second, minute and hour, and the year
/// `2000 + year2`, where a sum past 16 bits carries into the day (and month).
pub open spec fn cmos_bdfe(day: u16, month: u16, year2: u16, sec: u16, min: u16, hour: u16) -> BdfeTime {
    let d = mod32((day % 0x100 + (month % 0x100) * 0x100) * 0x1_0000 + year2 + 2000);
    BdfeTime {
        sec: (sec % 0x100) as u8,
        min: (min % 0x100) as u8,
        hour: (hour % 0x100) as u8,
        day: ((d / 0x1_0000) % 0x100) as u8,
        month: (d / 0x100_0000) as u8,
        year: (d % 0x1_0000) as u16,
    }
}

/// Pack six decoded CMOS values into a date and time (see [`cmos_bdfe`]).
pub fn bdfe_from_cmos_fields(day: u16, month: u16, year2: u16, sec: u16, min: u16, hour: u16) -> (t: BdfeTime)
    ensures
        t == cmos_bdfe(day, month, year2, sec, min, hour),
{
    let upper: u32 = ((day % 0x100) as u32 + ((month % 0x100) as u32) * 0x100) * 0x1_0000;
    let d: u32 = upper.wrapping_add(year2 as u32 + 2000);
    proof {
        lemma_wadd32(upper, (year2 + 2000) as u32);
    }
    BdfeTime {
        sec: (sec % 0x100) as u8,
        min: (min % 0x100) as u8,
        hour: (hour % 0x100) as u8,
        day: ((d / 0x1_0000) % 0x100) as u8,
        month: (d / 0x100_0000) as u8,
        year: (d % 0x1_0000) as u16,
    }
}

/// With each field in its byte and `year2 + 2000` within 16 bits, packing
/// keeps every field and adds 2000 to the year.
pub proof fn law_cmos_fields_kept(day: u16, month: u16, year2: u16, sec: u16, min: u16, hour: u16)
    requires
        day < 0x100,
        month < 0x100,
        sec < 0x100,
        min < 0x100,
        hour < 0x100,
        year2 + 2000 < 0x1_0000,
    ensures
        cmos_bdfe(day, month, year2, sec, min, hour) == (BdfeTime {
            sec: sec as u8, min: min as u8, hour: hour as u8, day: day as u8, month: month as u8,
            year: (year2 + 2000) as u16,
        }),
{
    let hi16 = day + month * 0x100;
    assert(hi16 * 0x1_0000 + year2 + 2000 < 0x1_0000_0000);
    assert((hi16 * 0x1_0000 + year2 + 2000) / 0x1_0000 == hi16) by (nonlinear_arith)
        requires 0 <= year2 + 2000 < 0x1_0000, hi16 >= 0;
    assert((hi16 * 0x1_0000 + year2 + 2000) % 0x1_0000 == year2 + 2000) by (nonlinear_arith)
        requires 0 <= year2 + 2000 < 0x1_0000, hi16 >= 0;
    assert((hi16 * 0x1_0000 + year2 + 2000) / 0x100_0000 == month) by (nonlinear_arith)
        requires 0 <= year2 + 2000 < 0x1_0000, hi16 == day + month * 0x100, 0 <= day < 0x100, month >= 0;
}

/// The values the reader may return for register `reg` (the low 16 bits).
pub open spec fn reads_as<F: Fn(u32) -> u32>(read_cmos: F, reg: u32, v: u16) -> bool {
    exists|r: u32| #[trigger] call_ensures(read_cmos, (reg,), r) && r % 0x1_0000 == v
}

/// Where a clock read stands: how many registers have been read, and the
/// values (low 16 bits) of those read so far.
#[derive(Clone, Copy, Debug, PartialEq, Eq)]
pub struct ClockRead {
    pub count: u8,
    pub day: u16,
    pub month: u16,
    pub year: u16,
    pub sec: u16,
    pub min: u16,
}

/// What a clock read asks for next.
#[derive(Clone, Copy, Debug, PartialEq, Eq)]
pub enum ClockAction {
    /// Read CMOS register `reg` and hand its value to [`clock_read_step`].
    ReadRegister { reg: u32 },
    /// All six registers are read; `time` is the packed date and time.
    Done { time: BdfeTime },
}

/// The register read in position `i` of a clock read: day (7), month (8),
/// year (9), second (0), minute (2), hour (4).
pub open spec fn cmos_reg_at(i: int) -> u32 {
    if i == 0 { 7 } else if i == 1 { 8 } else if i == 2 { 9 } else if i == 3 { 0 } else if i == 4 { 2 } else { 4 }
}

/// The transition of [`clock_read_step`].
pub open spec fn clock_next(st: ClockRead, value: u32) -> (ClockRead, ClockAction) {
    let v = (value % 0x1_0000) as u16;
    if st.count == 0 {
        (ClockRead { count: 1, day: v, ..st }, ClockAction::ReadRegister { reg: 8 })
    } else if st.count == 1 {
        (ClockRead { count: 2, month: v, ..st }, ClockAction::ReadRegister { reg: 9 })
    } else if st.count == 2 {
        (ClockRead { count: 3, year: v, ..st }, ClockAction::ReadRegister { reg: 0 })
    } else if st.count == 3 {
        (ClockRead { count: 4, sec: v, ..st }, ClockAction::ReadRegister { reg: 2 })
    } else if st.count == 4 {
        (ClockRead { count: 5, min: v, ..st }, ClockAction::ReadRegister { reg: 4 })
    } else {
        (ClockRead { count: 6, ..st }, ClockAction::Done { time: cmos_bdfe(st.day, st.month, st.year, st.sec, st.min, v) })
    }
}

/// A fresh clock read: nothing read yet, register 7 (day) asked for.
pub fn clock_read_begin() -> (res: (ClockRead, ClockAction))
    ensures
        res == (ClockRead { count: 0, day: 0, month: 0, year: 0, sec: 0, min: 0 }, ClockAction::ReadRegister { reg: 7 }),
{
    (ClockRead { count: 0, day: 0, month: 0, year: 0, sec: 0, min: 0 }, ClockAction::ReadRegister { reg: 7 })
}

/// One step of a clock read: `value` is what the register asked for last
/// returned. The registers are asked for in the order 7, 8, 9, 0, 2, 4; after
/// the sixth the packed date and time is given.
pub fn clock_read_step(st: ClockRead, value: u32) -> (res: (ClockRead, ClockAction))
    requires
        st.count < 6,
    ensures
        res == clock_next(st, value),
{
    let v = (value % 0x1_0000) as u16;
    if st.count == 0 {
        (ClockRead { count: 1, day: v, ..st }, ClockAction::ReadRegister { reg: 8 })
    } else if st.count == 1 {
        (ClockRead { count: 2, month: v, ..st }, ClockAction::ReadRegister { reg: 9 })
    } else if st.count == 2 {
        (ClockRead { count: 3, year: v, ..st }, ClockAction::ReadRegister { reg: 0 })
    } else if st.count == 3 {
        (ClockRead { count: 4, sec: v, ..st }, ClockAction::ReadRegister { reg: 2 })
    } else if st.count == 4 {
        (ClockRead { count: 5, min: v, ..st }, ClockAction::ReadRegister { reg: 4 })
    } else {
        (ClockRead { count: 6, ..st }, ClockAction::Done { time: bdfe_from_cmos_fields(st.day, st.month, st.year, st.sec, st.min, v) })
    }
}

/// The actions a clock read in state `st` gives when its reads return `v[0]`,
/// `v[1]`, ... (it stops when done or when `v` runs out).
pub open spec fn clock_actions(st: ClockRead, v: Seq<u32>) -> Seq<ClockAction>
    decreases v.len(),
{
    if v.len() == 0 || st.count >= 6 {
        Seq::empty()
    } else {
        seq![clock_next(st, v[0]).1] + clock_actions(clock_next(st, v[0]).0, v.drop_first())
    }
}

/// A whole clock read asks for exactly six registers, 7, 8, 9, 0, 2, 4 in that
/// order, then gives the date and time packed from the six values, and asks
/// for nothing more.
pub proof fn law_clock_reads_in_order(v: Seq<u32>)
    requires
        v.len() >= 6,
    ensures
        seq![ClockAction::ReadRegister { reg: 7 }] + clock_actions(
            ClockRead { count: 0, day: 0, month: 0, year: 0, sec: 0, min: 0 },
            v,
        ) == seq![
            ClockAction::ReadRegister { reg: 7 },
            ClockAction::ReadRegister { reg: 8 },
            ClockAction::ReadRegister { reg: 9 },
            ClockAction::ReadRegister { reg: 0 },
            ClockAction::ReadRegister { reg: 2 },
            ClockAction::ReadRegister { reg: 4 },
            ClockAction::Done {
                time: cmos_bdfe(
                    (v[0] % 0x1_0000) as u16,
                    (v[1] % 0x1_0000) as u16,
                    (v[2] % 0x1_0000) as u16,
                    (v[3] % 0x1_0000) as u16,
                    (v[4] % 0x1_0000) as u16,
                    (v[5] % 0x1_0000) as u16,
                ),
            },
        ],
{
    let s0 = ClockRead { count: 0, day: 0, month: 0, year: 0, sec: 0, min: 0 };
    let s1 = clock_next(s0, v[0]).0;
    let s2 = clock_next(s1, v[1]).0;
    let s3 = clock_next(s2, v[2]).0;
    let s4 = clock_next(s3, v[3]).0;
    let s5 = clock_next(s4, v[4]).0;
    let s6 = clock_next(s5, v[5]).0;
    let w1 = v.drop_first();
    let w2 = w1.drop_first();
    let w3 = w2.drop_first();
    let w4 = w3.drop_first();
    let w5 = w4.drop_first();
    let w6 = w5.drop_first();
    assert(w1[0] == v[1] && w2[0] == v[2] && w3[0] == v[3] && w4[0] == v[4] && w5[0] == v[5]);
    assert(clock_actions(s6, w6) == Seq::<ClockAction>::empty());
    assert(clock_actions(s5, w5) == seq![clock_next(s5, v[5]).1]);
    assert(clock_actions(s4, w4) == seq![clock_next(s4, v[4]).1] + clock_actions(s5, w5));
    assert(clock_actions(s3, w3) == seq![clock_next(s3, v[3]).1] + clock_actions(s4, w4));
    assert(clock_actions(s2, w2) == seq![clock_next(s2, v[2]).1] + clock_actions(s3, w3));
    assert(clock_actions(s1, w1) == seq![clock_next(s1, v[1]).1] + clock_actions(s2, w2));
    assert(clock_actions(s0, v) == seq![clock_next(s0, v[0]).1] + clock_actions(s1, w1));
    assert(seq![ClockAction::ReadRegister { reg: 7 }] + clock_actions(s0, v) =~= seq![
        ClockAction::ReadRegister { reg: 7 },
        ClockAction::ReadRegister { reg: 8 },
        ClockAction::ReadRegister { reg: 9 },
        ClockAction::ReadRegister { reg: 0 },
        ClockAction::ReadRegister { reg: 2 },
        ClockAction::ReadRegister { reg: 4 },
        clock_next(s5, v[5]).1,
    ]);
}

/// Read registers 7, 8, 9 (day, month, year) and 0, 2, 4 (second, minute,
/// hour) through `read_cmos`, in that order (a clock read, see
/// [`law_clock_reads_in_order`]), and pack them.
pub fn bdfe_from_cmos_reader(read_cmos: impl Fn(u32) -> u32) -> (t: BdfeTime)
    requires
        forall|reg: u32| #[trigger] call_requires(read_cmos, (reg,)),
    ensures
        exists|d: u16, mo: u16, y: u16, s: u16, mi: u16, h: u16|
            reads_as(read_cmos, 7, d) && reads_as(read_cmos, 8, mo) && reads_as(read_cmos, 9, y)
            && reads_as(read_cmos, 0, s) && reads_as(read_cmos, 2, mi) && reads_as(read_cmos, 4, h)
            && t == #[trigger] cmos_bdfe(d, mo, y, s, mi, h),
{
    let (mut st, mut act) = clock_read_begin();
    let ghost mut h: u16 = 0;
    while st.count < 6
        invariant
            forall|reg: u32| #[trigger] call_requires(read_cmos, (reg,)),
            st.count <= 6,
            st.count < 6 ==> act == (ClockAction::ReadRegister { reg: cmos_reg_at(st.count as int) }),
            st.count >= 1 ==> reads_as(read_cmos, 7, st.day),
            st.count >= 2 ==> reads_as(read_cmos, 8, st.month),
            st.count >= 3 ==> reads_as(read_cmos, 9, st.year),
            st.count >= 4 ==> reads_as(read_cmos, 0, st.sec),
            st.count >= 5 ==> reads_as(read_cmos, 2, st.min),
            st.count == 6 ==> reads_as(read_cmos, 4, h)
                && act == (ClockAction::Done { time: cmos_bdfe(st.day, st.month, st.year, st.sec, st.min, h) }),
        decreases 6 - st.count,
    {
        let reg = match act {
            ClockAction::ReadRegister { reg } => reg,
            ClockAction::Done { .. } => 0,
        };
        let value = read_cmos(reg);
        proof {
            h = (value % 0x1_0000) as u16;
            assert(reads_as(read_cmos, reg, h));
        }
        let (s, a) = clock_read_step(st, value);
        st = s;
        act = a;
    }
    match act {
        ClockAction::Done { time } => time,
        ClockAction::ReadRegister { .. } => {
            proof {
                assert(false);
            }
            BdfeTime { sec: 0, min: 0, hour: 0, day: 0, month: 0, year: 0 }
        },
    }
}

/// The clock as seconds since 2001-01-01: the six registers read through
/// `read_cmos`, packed, and converted.
pub fn fs_get_time(read_cmos: impl Fn(u32) -> u32) -> (secs: u32)
    requires
        forall|reg: u32| #[trigger] call_requires(read_cmos, (reg,)),
    ensures
        exists|d: u16, mo: u16, y: u16, s: u16, mi: u16, h: u16|
            reads_as(read_cmos, 7, d) && reads_as(read_cmos, 8, mo) && reads_as(read_cmos, 9, y)
            && reads_as(read_cmos, 0, s) && reads_as(read_cmos, 2, mi) && reads_as(read_cmos, 4, h)
            && secs == fs_time_seconds(#[trigger] cmos_bdfe(d, mo, y, s, mi, h)),
{
    fs_calculate_time(bdfe_from_cmos_reader(read_cmos))
}

/// Seconds since 2001-01-01 of six decoded register values.
pub fn fasm_oracle_fs_get_time_from_fields(day: u16, month: u16, year2: u16, sec: u16, min: u16, hour: u16) -> (secs: u32)
    ensures
        secs == fs_time_seconds(cmos_bdfe(day, month, year2, sec, min, hour)),
{
    fs_calculate_time(bdfe_from_cmos_fields(day, month, year2, sec, min, hour))
}

/// Seconds since 2001-01-01 with the registers looked up through `read_fn`
/// (the table itself is not consulted).
pub fn fs_get_time_oracle_from_table(table: &[u16; 256], read_fn: impl Fn(u8) -> u16) -> (secs: u32)
    requires
        forall|reg: u8| #[trigger] call_requires(read_fn, (reg,)),
    ensures
        exists|d: u16, mo: u16, y: u16, s: u16, mi: u16, h: u16|
            call_ensures(read_fn, (7u8,), d) && call_ensures(read_fn, (8u8,), mo) && call_ensures(read_fn, (9u8,), y)
            && call_ensures(read_fn, (0u8,), s) && call_ensures(read_fn, (2u8,), mi) && call_ensures(read_fn, (4u8,), h)
            && secs == fs_time_seconds(#[trigger] cmos_bdfe(d, mo, y, s, mi, h)),
{
    let d = read_fn(7);
    let mo = read_fn(8);
    let y = read_fn(9);
    let s = read_fn(0);
    let mi = read_fn(2);
    let h = read_fn(4);
    fs_calculate_time(bdfe_from_cmos_fields(d, mo, y, s, mi, h))
}

/// Decode register `reg` read through `raw_read` (its low byte is the raw value).
pub fn fs_read_cmos(raw_read: impl Fn(u32) -> u32, reg: u8) -> (v: u16)
    requires
        call_requires(raw_read, (reg as u32,)),
    ensures
        exists|r: u32| #[trigger] call_ensures(raw_read, (reg as u32,), r) && v == bcd_value((r % 0x100) as u8),
{
    let r = raw_read(reg as u32);
    fs_read_cmos_bcd((r % 0x100) as u8)
}

} // verus!
