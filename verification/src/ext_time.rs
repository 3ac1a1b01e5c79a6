//! EXT inode timestamps: packing KolibriOS seconds into `i_time` plus the
//! extra epoch bits, and choosing which inode fields give the creation,
//! access and modification times.

use vstd::prelude::*;
use crate::le::{le_u16, le_u32, read_u16_le, read_u32_le};

verus! {

/// Seconds from the Unix epoch to 2001-01-01, KolibriOS's epoch.
pub const UNIXTIME_TO_KOS_OFFSET: u32 = 978_307_200;

/// Differential test seed for the write-time pack (`'CUBS'`).
pub const EXT_WRITE_TIME_PRNG_SEED: u32 = 0x4355_4253;

/// Differential test seed for the read-all-times fan-out (`'CUBR'`).
pub const EXT_READ_ALL_TIMES_PRNG_SEED: u32 = 0x4355_4252;

/// The address value that means "no extra time field".
pub const EXT_WRITE_TIME_NO_EXTRA: u32 = 0xFFFF_FFFF;

/// The `i_time` and extra-epoch bits for KolibriOS seconds `kos`: the Unix
/// time modulo 2^32, and the carry out of that addition plus one when the
/// stored time reads as negative.
pub open spec fn time_pack(kos: u32) -> (u32, u32) {
    let v = kos + UNIXTIME_TO_KOS_OFFSET;
    let t = (v % 0x1_0000_0000) as u32;
    let carry: u32 = if v >= 0x1_0000_0000 { 1 } else { 0 };
    let neg: u32 = if t >= 0x8000_0000 { 1 } else { 0 };
    (t, (carry + neg) as u32)
}

/// The Unix time an `i_time` with extra-epoch bits stands for: `i_time` read
/// as signed, plus the two low extra bits times 2^32.
pub open spec fn time_unpack(time: u32, extra: u32) -> int {
    (if time >= 0x8000_0000 { time - 0x1_0000_0000 } else { time as int }) + (extra % 4) as int * 0x1_0000_0000
}

/// Store the time for KolibriOS seconds `kos_secs` into `time`, and the extra
/// epoch bits into `extra` when the inode has that field (`has_extra`).
pub fn ext_write_time_pack(kos_secs: u32, time: &mut u32, extra: &mut u32, has_extra: bool)
    ensures
        *final(time) == time_pack(kos_secs).0,
        *final(extra) == (if has_extra { time_pack(kos_secs).1 } else { *old(extra) }),
{
    let (t, carry) = if kos_secs > u32::MAX - UNIXTIME_TO_KOS_OFFSET {
        (kos_secs - (u32::MAX - UNIXTIME_TO_KOS_OFFSET) - 1, 1u32)
    } else {
        (kos_secs + UNIXTIME_TO_KOS_OFFSET, 0u32)
    };
    let mut edx = carry;
    if t >= 0x8000_0000 {
        edx = edx + 1;
    }
    *time = t;
    if has_extra {
        *extra = edx % 4;
    }
}

/// The packed time reads back as the Unix time of the KolibriOS seconds it
/// was made from: no instant from 2001 on is lost.
pub proof fn law_pack_unpacks(kos: u32)
    ensures
        time_unpack(time_pack(kos).0, time_pack(kos).1) == kos + UNIXTIME_TO_KOS_OFFSET,
{
}

/// Offset of the inode's `extraISize` field.
pub const INODE_EXTRA_ISIZE: usize = 128;
/// Offset of `i_atime`.
pub const INODE_ATIME: usize = 8;
/// Offset of `i_ctime`.
pub const INODE_CTIME: usize = 12;
/// Offset of `i_mtime`.
pub const INODE_MTIME: usize = 16;
/// Offset of `i_ctime_extra`.
pub const INODE_CTIME_EXTRA: usize = 132;
/// Offset of `i_mtime_extra`.
pub const INODE_MTIME_EXTRA: usize = 136;
/// Offset of `i_atime_extra`.
pub const INODE_ATIME_EXTRA: usize = 140;
/// Offset of `i_crtime`.
pub const INODE_CRTIME: usize = 144;
/// Offset of `i_crtime_extra`.
pub const INODE_CRTIME_EXTRA: usize = 148;

/// The (time, extra) pairs for creation, access and modification, as the
/// inode's extra size allows: all three with extras from 24 bytes on; below,
/// `(size - 4) / 4` extra fields (none below 4), with the creation time only
/// from four fields on and the change time in its place before that.
pub open spec fn time_sources(inode: Seq<u8>) -> [(u32, u32); 3] {
    let x = le_u16(inode, INODE_EXTRA_ISIZE as int) as int;
    if x >= 24 {
        [
            (le_u32(inode, INODE_CRTIME as int), le_u32(inode, INODE_CRTIME_EXTRA as int)),
            (le_u32(inode, INODE_ATIME as int), le_u32(inode, INODE_ATIME_EXTRA as int)),
            (le_u32(inode, INODE_MTIME as int), le_u32(inode, INODE_MTIME_EXTRA as int)),
        ]
    } else {
        let n = if x < 4 { 0 } else { (x - 4) / 4 };
        [
            if n >= 4 {
                (le_u32(inode, INODE_CRTIME as int), 0u32)
            } else {
                (le_u32(inode, INODE_CTIME as int), if n >= 1 { le_u32(inode, INODE_CTIME_EXTRA as int) } else { 0u32 })
            },
            (le_u32(inode, INODE_ATIME as int), if n >= 3 { le_u32(inode, INODE_ATIME_EXTRA as int) } else { 0u32 }),
            (le_u32(inode, INODE_MTIME as int), if n >= 2 { le_u32(inode, INODE_MTIME_EXTRA as int) } else { 0u32 }),
        ]
    }
}

/// Which inode fields give the three times of a file (see [`time_sources`]).
pub fn ext_time_sources(inode: &[u8]) -> (r: [(u32, u32); 3])
    requires
        inode@.len() >= 152,
    ensures
        r == time_sources(inode@),
{
    let x = read_u16_le(inode, INODE_EXTRA_ISIZE) as u32;
    if x >= 24 {
        return [
            (read_u32_le(inode, INODE_CRTIME), read_u32_le(inode, INODE_CRTIME_EXTRA)),
            (read_u32_le(inode, INODE_ATIME), read_u32_le(inode, INODE_ATIME_EXTRA)),
            (read_u32_le(inode, INODE_MTIME), read_u32_le(inode, INODE_MTIME_EXTRA)),
        ];
    }
    let n: u32 = if x < 4 { 0 } else { (x - 4) / 4 };
    let first = if n >= 4 {
        (read_u32_le(inode, INODE_CRTIME), 0u32)
    } else {
        (read_u32_le(inode, INODE_CTIME), if n >= 1 { read_u32_le(inode, INODE_CTIME_EXTRA) } else { 0u32 })
    };
    let second = (read_u32_le(inode, INODE_ATIME), if n >= 3 { read_u32_le(inode, INODE_ATIME_EXTRA) } else { 0u32 });
    let third = (read_u32_le(inode, INODE_MTIME), if n >= 2 { read_u32_le(inode, INODE_MTIME_EXTRA) } else { 0u32 });
    [first, second, third]
}

} // verus!
