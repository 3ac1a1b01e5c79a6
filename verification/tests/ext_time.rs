use kolibri_utils::ext_time::{
    ext_time_sources, ext_write_time_pack, EXT_WRITE_TIME_PRNG_SEED, UNIXTIME_TO_KOS_OFFSET,
};

/// Separately written model of the kernel's pack: add with carry, then one
/// more when the stored time reads as negative.
fn oracle_pack(kos_secs: u32) -> (u32, u32) {
    let offset = (365 * 31 + 8) * 24 * 60 * 60u32;
    let (eax, carry) = kos_secs.overflowing_add(offset);
    let mut edx = u32::from(carry);
    if (eax as i32) < 0 {
        edx = edx.wrapping_add(1);
    }
    (eax, edx & 3)
}

fn check_pack(kos_secs: u32, with_extra: bool) {
    let mut time = 0xA5A5_A5A5u32;
    let mut extra = 0x5A5A_5A5Au32;
    ext_write_time_pack(kos_secs, &mut time, &mut extra, with_extra);
    let (t, e) = oracle_pack(kos_secs);
    assert_eq!(time, t, "kos_secs={kos_secs:#x} time");
    if with_extra {
        assert_eq!(extra, e, "kos_secs={kos_secs:#x} extra");
    } else {
        assert_eq!(extra, 0x5A5A_5A5A, "extra must be untouched without the field");
    }
}

/// The Unix time an (i_time, extra) pair stands for.
fn unpack(time: u32, extra: u32) -> i64 {
    (time as i32) as i64 + ((extra & 3) as i64) * (1i64 << 32)
}

#[test]
fn epoch_zero() {
    check_pack(0, true);
    check_pack(0, false);
    let mut time = 0;
    let mut extra = 9;
    ext_write_time_pack(0, &mut time, &mut extra, true);
    assert_eq!((time, extra), (978_307_200, 0));
}

#[test]
fn one_second() {
    check_pack(1, true);
}

#[test]
fn max_kos_secs_no_overflow() {
    check_pack(0xFFFF_FFFF - UNIXTIME_TO_KOS_OFFSET, true);
}

#[test]
fn carry_into_extra_epoch_bit() {
    check_pack(0xFFFF_FFFF - UNIXTIME_TO_KOS_OFFSET + 1, true);
    let mut time = 0;
    let mut extra = 0;
    ext_write_time_pack(0xFFFF_FFFF - UNIXTIME_TO_KOS_OFFSET + 1, &mut time, &mut extra, true);
    assert_eq!((time, extra), (0, 1));
}

#[test]
fn negative_i_time_sign_extend() {
    check_pack(0xFFFF_FFFF, true);
    let mut time = 0;
    let mut extra = 0;
    ext_write_time_pack(0x7FFF_FFFF - UNIXTIME_TO_KOS_OFFSET + 1, &mut time, &mut extra, true);
    assert_eq!((time, extra), (0x8000_0000, 1));
}

#[test]
fn pack_round_trips_through_unpack() {
    for kos in [0u32, 1, 0x1234_5678, 0x7FFF_FFFF, 0x8000_0000, 0xC5C0_0000, 0xFFFF_FFFF] {
        let mut time = 0;
        let mut extra = 0;
        ext_write_time_pack(kos, &mut time, &mut extra, true);
        assert_eq!(unpack(time, extra), kos as i64 + UNIXTIME_TO_KOS_OFFSET as i64);
    }
}

#[test]
fn prng_50k_cubs() {
    let mut s = EXT_WRITE_TIME_PRNG_SEED;
    for i in 0..50_000 {
        s ^= s << 13;
        s ^= s >> 17;
        s ^= s << 5;
        let kos_secs = s;
        s ^= s << 13;
        s ^= s >> 17;
        s ^= s << 5;
        let with_extra = (s & 1) != 0;
        let mut time = s.wrapping_add(1);
        let mut extra = s.wrapping_add(2);
        let before_extra = extra;
        ext_write_time_pack(kos_secs, &mut time, &mut extra, with_extra);
        let (t, e) = oracle_pack(kos_secs);
        assert_eq!(time, t, "prng#{i} kos={kos_secs:#x}");
        assert_eq!(extra, if with_extra { e } else { before_extra }, "prng#{i}");
    }
}

fn put(inode: &mut [u8], off: usize, v: u32) {
    inode[off..off + 4].copy_from_slice(&v.to_le_bytes());
}

fn sample_inode(extra_isize: u16) -> [u8; 160] {
    let mut inode = [0u8; 160];
    inode[128..130].copy_from_slice(&extra_isize.to_le_bytes());
    put(&mut inode, 8, 0xA7);
    put(&mut inode, 12, 0xC7);
    put(&mut inode, 16, 0x17);
    put(&mut inode, 132, 0xCE);
    put(&mut inode, 136, 0x1E);
    put(&mut inode, 140, 0xAE);
    put(&mut inode, 144, 0xCA);
    put(&mut inode, 148, 0xCB);
    inode
}

#[test]
fn sources_without_extra_fields() {
    for x in [0u16, 3, 4, 7] {
        assert_eq!(ext_time_sources(&sample_inode(x)), [(0xC7, 0), (0xA7, 0), (0x17, 0)], "x={x}");
    }
}

#[test]
fn sources_one_extra_field() {
    assert_eq!(ext_time_sources(&sample_inode(8)), [(0xC7, 0xCE), (0xA7, 0), (0x17, 0)]);
}

#[test]
fn sources_two_extra_fields() {
    assert_eq!(ext_time_sources(&sample_inode(12)), [(0xC7, 0xCE), (0xA7, 0), (0x17, 0x1E)]);
}

#[test]
fn sources_three_extra_fields() {
    assert_eq!(ext_time_sources(&sample_inode(16)), [(0xC7, 0xCE), (0xA7, 0xAE), (0x17, 0x1E)]);
}

#[test]
fn sources_four_extra_fields() {
    assert_eq!(ext_time_sources(&sample_inode(20)), [(0xCA, 0), (0xA7, 0xAE), (0x17, 0x1E)]);
}

#[test]
fn sources_full_extra() {
    for x in [24u16, 32, 0xFFFF] {
        assert_eq!(ext_time_sources(&sample_inode(x)), [(0xCA, 0xCB), (0xA7, 0xAE), (0x17, 0x1E)], "x={x}");
    }
}
