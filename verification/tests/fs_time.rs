use kolibri_utils::fs_time::{clock_read_begin, clock_read_step, ClockAction};
use kolibri_utils::fs_time::{
    bdfe_from_cmos_fields, bdfe_from_cmos_reader, fasm_oracle_fs_get_time_from_fields,
    fasm_oracle_fs_read_cmos, fs_calculate_time, fs_get_time, fs_get_time_oracle_from_table,
    fs_read_cmos, fs_read_cmos_bcd, merge_upper_eax, BdfeTime, FS_GET_TIME_PRNG_SEED,
    FS_READ_CMOS_PRNG_SEED,
};

fn mock_read_cmos(reg: u32) -> u32 {
    match (reg & 0xFF) as u8 {
        0 => 30,
        2 => 45,
        4 => 12,
        7 => 15,
        8 => 6,
        9 => 26,
        _ => 0,
    }
}

fn mock_raw(reg: u32) -> u32 {
    match (reg & 0xFF) as u8 {
        0 => 0x30,
        2 => 0x45,
        4 => 0x12,
        7 => 0x15,
        8 => 0x06,
        9 => 0x26,
        _ => 0x00,
    }
}

/// Register-level model of the kernel's seconds-since-2001 routine.
fn fasm_oracle_fs_calculate_time(bt: BdfeTime) -> u32 {
    const MONTHS: [u8; 24] = [
        31, 28, 31, 30, 31, 30, 31, 31, 30, 31, 30, 31, 31, 29, 31, 30, 31, 30, 31, 31, 30, 31, 30, 31,
    ];
    let block = bt.to_bytes();
    let mut eax: u32 = u32::from(u16::from_le_bytes([block[6], block[7]]));
    let (r, borrow) = eax.overflowing_sub(2001);
    eax = if borrow { 0 } else { r };
    let mut edx: usize = 0;
    let mut ebx = eax;
    eax = eax.wrapping_add(1);
    if eax & 3 == 0 {
        edx += 12;
    }
    let mut m: i64 = i64::from(block[5]) - 1;
    let mut ecx: u32 = 0;
    loop {
        m -= 1;
        if m < 0 {
            break;
        }
        let idx = edx + m as usize;
        ecx += u32::from(if idx < 24 { MONTHS[idx] } else { 0 });
    }
    eax = ebx.wrapping_mul(365);
    ebx >>= 2;
    eax = eax.wrapping_add(ebx).wrapping_add(ecx);
    ebx = (ebx & 0xFFFF_FF00) | u32::from(block[4]);
    eax = eax.wrapping_sub(1).wrapping_add(ebx);
    eax = eax.wrapping_mul(24);
    ebx = (ebx & 0xFFFF_FF00) | u32::from(block[2]);
    eax = eax.wrapping_add(ebx).wrapping_mul(60);
    ebx = (ebx & 0xFFFF_FF00) | u32::from(block[1]);
    eax = eax.wrapping_add(ebx).wrapping_mul(60);
    ebx = (ebx & 0xFFFF_FF00) | u32::from(block[0]);
    eax.wrapping_add(ebx)
}

#[test]
fn bcd_decode_samples() {
    assert_eq!(fs_read_cmos_bcd(0x45), 45);
    assert_eq!(fs_read_cmos_bcd(0x26), 26);
    assert_eq!(fs_read_cmos_bcd(0x12), 12);
}

#[test]
fn pack_known_datetime() {
    let bt = bdfe_from_cmos_fields(15, 6, 26, 30, 45, 12);
    assert_eq!(bt.day, 15);
    assert_eq!(bt.month, 6);
    assert_eq!(bt.year, 2026);
    assert_eq!(bt.hour, 12);
    assert_eq!(bt.min, 45);
    assert_eq!(bt.sec, 30);
}

#[test]
fn smoke_vector_2026_06_15() {
    let got = fs_get_time(mock_read_cmos);
    let bt = bdfe_from_cmos_fields(15, 6, 26, 30, 45, 12);
    let expect = fs_calculate_time(bt);
    assert_eq!(got, expect);
    assert_eq!(got, fasm_oracle_fs_get_time_from_fields(15, 6, 26, 30, 45, 12));
    assert_eq!(got, 803_220_330);
}

#[test]
fn matches_calculate_time_oracle() {
    let bt = bdfe_from_cmos_fields(1, 1, 1, 0, 0, 0);
    let kos = fs_calculate_time(bt);
    assert_eq!(kos, fasm_oracle_fs_calculate_time(bt));
    assert_eq!(fs_get_time(mock_read_cmos), 803_220_330);
}

#[test]
fn year_add_2000_wrap() {
    let bt = bdfe_from_cmos_fields(1, 1, 99, 0, 0, 0);
    assert_eq!(bt.year, 2099);
}

#[test]
fn midnight_epoch_day() {
    let got = fasm_oracle_fs_get_time_from_fields(1, 1, 1, 0, 0, 0);
    assert_eq!(got, 0);
}

#[test]
fn prng_50k_cubv() {
    let mut s = FS_GET_TIME_PRNG_SEED;
    for i in 0..50_000 {
        s ^= s << 13;
        s ^= s >> 17;
        s ^= s << 5;
        let day = (s & 0x1F).wrapping_add(1) as u16;
        let month = ((s >> 5) & 0x0F).wrapping_add(1) as u16;
        let year2 = ((s >> 9) & 0x63) as u16;
        let sec = ((s >> 15) & 0x3F) as u16;
        let min = ((s >> 21) & 0x3F) as u16;
        let hour = ((s >> 27) & 0x1F) as u16;
        let bt = bdfe_from_cmos_fields(day, month, year2, sec, min, hour);
        let expect = fasm_oracle_fs_get_time_from_fields(day, month, year2, sec, min, hour);
        let got = fs_calculate_time(bt);
        assert_eq!(got, expect, "prng#{i} fields");
        assert_eq!(got, fasm_oracle_fs_calculate_time(bt), "prng#{i} register model");
    }
}

#[test]
fn fs_get_time_seed_constant() {
    assert_eq!(FS_GET_TIME_PRNG_SEED, 0x4355_4256);
}

#[test]
fn oracle_matches_bcd_helper() {
    for raw in 0u8..=0x99 {
        assert_eq!(fasm_oracle_fs_read_cmos(raw), fs_read_cmos_bcd(raw), "raw={raw}");
    }
}

#[test]
fn callback_path_samples() {
    assert_eq!(fs_read_cmos(mock_raw, 7), 15);
    assert_eq!(fs_read_cmos(mock_raw, 9), 26);
    assert_eq!(fs_read_cmos(mock_raw, 0), 30);
}

#[test]
fn upper_eax_merge_quirk() {
    let orig = 0xAABB_0007;
    let merged = merge_upper_eax(orig, 15);
    assert_eq!(merged, 0xAABB_000F);
}

#[test]
fn fs_read_cmos_prng_differential_50k() {
    let mut s = FS_READ_CMOS_PRNG_SEED;
    for _ in 0..50_000 {
        s = s.wrapping_mul(1_103_515_245).wrapping_add(12_345);
        let raw = (s >> 16) as u8;
        let expect = fasm_oracle_fs_read_cmos(raw);
        let got = fs_read_cmos_bcd(raw);
        assert_eq!(got, expect, "raw={raw:#04x}");
    }
}

#[test]
fn fs_read_cmos_seed_constant() {
    assert_eq!(FS_READ_CMOS_PRNG_SEED, 0x4355_5443);
}

#[test]
fn bcd_bit7_dropped_and_mod_100() {
    assert_eq!(fs_read_cmos_bcd(0x85), 5);
    assert_eq!(fs_read_cmos_bcd(0x79), 79);
    // 0x7F: digits 7 and 15 -> (70 + 15) % 100.
    assert_eq!(fs_read_cmos_bcd(0x7F), 85);
    assert_eq!(fs_read_cmos_bcd(0xFF), 85);
}

#[test]
fn leap_years_and_month_boundaries() {
    let t = |year: u16, month: u8, day: u8| BdfeTime { sec: 0, min: 0, hour: 0, day, month, year };
    // 2004 is a leap year: 2004-03-01 is 60 days after 2004-01-01.
    let jan = fs_calculate_time(t(2004, 1, 1));
    let mar = fs_calculate_time(t(2004, 3, 1));
    assert_eq!(mar - jan, 60 * 86_400);
    // 2001 is not: 59 days.
    assert_eq!(fs_calculate_time(t(2001, 3, 1)) - fs_calculate_time(t(2001, 1, 1)), 59 * 86_400);
    // Years before 2001 count as 2001.
    assert_eq!(fs_calculate_time(t(1999, 1, 1)), 0);
    // Day 0 wraps below zero.
    assert_eq!(fs_calculate_time(t(2001, 1, 0)), 0u32.wrapping_sub(86_400));
    assert_eq!(fs_calculate_time(t(2002, 1, 1)), 365 * 86_400);
}

#[test]
fn block_round_trip_and_reader() {
    let bt = BdfeTime { sec: 1, min: 2, hour: 3, day: 4, month: 5, year: 0x1234 };
    let b = bt.to_bytes();
    assert_eq!(b, [1, 2, 3, 0, 4, 5, 0x34, 0x12]);
    assert_eq!(BdfeTime::from_bytes(&b), bt);
    let r = bdfe_from_cmos_reader(mock_read_cmos);
    assert_eq!(r, bdfe_from_cmos_fields(15, 6, 26, 30, 45, 12));
    let table = [0u16; 256];
    assert_eq!(
        fs_get_time_oracle_from_table(&table, |reg| mock_read_cmos(u32::from(reg)) as u16),
        803_220_330
    );
    // A year past 16 bits carries into the day.
    let c = bdfe_from_cmos_fields(1, 2, 63_536, 0, 0, 0);
    assert_eq!((c.year, c.day, c.month), (0, 2, 2));
}

#[test]
fn clock_read_asks_registers_in_order() {
    let (mut st, mut act) = clock_read_begin();
    let mut asked = Vec::new();
    let time = loop {
        match act {
            ClockAction::ReadRegister { reg } => {
                asked.push(reg);
                let (s, a) = clock_read_step(st, mock_read_cmos(reg));
                st = s;
                act = a;
            }
            ClockAction::Done { time } => break time,
        }
    };
    assert_eq!(asked, vec![7, 8, 9, 0, 2, 4]);
    assert_eq!(time, bdfe_from_cmos_fields(15, 6, 26, 30, 45, 12));
    assert_eq!(fs_calculate_time(time), 803_220_330);
}

#[test]
fn clock_reader_reads_each_register_once_in_order() {
    let log = std::cell::RefCell::new(Vec::new());
    let secs = fs_get_time(|reg| {
        log.borrow_mut().push(reg);
        mock_read_cmos(reg)
    });
    assert_eq!(secs, 803_220_330);
    assert_eq!(*log.borrow(), vec![7, 8, 9, 0, 2, 4]);
}
