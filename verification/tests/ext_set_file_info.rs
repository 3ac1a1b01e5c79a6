use kolibri_utils::ext_set_file_info::{
    ext_set_file_info_begin, ext_set_file_info_step, SetInfoAction, SetInfoEvent, BDFE_ATIME_OFF, BDFE_MTIME_OFF,
    ERROR_ACCESS_DENIED, ERROR_DEVICE, ERROR_FILE_NOT_FOUND, EXT4_IMMUTABLE_FL,
};
use kolibri_utils::ext_time::UNIXTIME_TO_KOS_OFFSET;

#[derive(Default)]
struct Trace {
    find: u32,
    calc: u32,
    write: u32,
    sb: u32,
    sync: u32,
    unlock: u32,
    find_cf: bool,
    find_eax: u32,
    find_ino: u32,
    write_cf: bool,
    write_eax: u32,
    last_ino: u32,
    calc_offsets: Vec<usize>,
}

/// Drive the step function, answering each action the way the kernel's
/// helpers would in this scenario.
fn run(t: &mut Trace, inode: &mut [u8]) -> u32 {
    let (mut state, mut event) = ext_set_file_info_begin();
    loop {
        let (next, action) = ext_set_file_info_step(state, event, inode);
        state = next;
        event = match action {
            SetInfoAction::FindInode => {
                t.find += 1;
                SetInfoEvent::Found { cf: t.find_cf, eax: t.find_eax, ino: t.find_ino }
            }
            SetInfoAction::CalcTime { offset } => {
                t.calc += 1;
                t.calc_offsets.push(offset);
                let kos = match t.calc {
                    1 => 1_341_411_731u32.wrapping_sub(UNIXTIME_TO_KOS_OFFSET),
                    2 => 1_542_963_930u32.wrapping_sub(UNIXTIME_TO_KOS_OFFSET),
                    _ => 0,
                };
                SetInfoEvent::Time { kos }
            }
            SetInfoAction::WriteInode { ino } => {
                t.write += 1;
                t.last_ino = ino;
                SetInfoEvent::Written { cf: t.write_cf, eax: t.write_eax }
            }
            SetInfoAction::WriteSuperblock => {
                t.sb += 1;
                SetInfoEvent::Ack
            }
            SetInfoAction::DiskSync => {
                t.sync += 1;
                SetInfoEvent::Ack
            }
            SetInfoAction::Unlock => {
                t.unlock += 1;
                SetInfoEvent::Ack
            }
            SetInfoAction::Return { status } => return status,
        };
    }
}

#[test]
fn success_writes_atime_mtime_and_sequences() {
    let mut t = Trace { find_ino: 12, ..Default::default() };
    let mut inode = [0u8; 160];
    let status = run(&mut t, &mut inode);
    assert_eq!(status, 0);
    assert_eq!(t.find, 1);
    assert_eq!(t.calc, 2);
    assert_eq!(t.write, 1);
    assert_eq!(t.sb, 1);
    assert_eq!(t.sync, 1);
    assert_eq!(t.unlock, 1);
    assert_eq!(t.last_ino, 12);
    assert_eq!(t.calc_offsets, vec![BDFE_ATIME_OFF, BDFE_MTIME_OFF]);
    let atime = u32::from_le_bytes(inode[8..12].try_into().unwrap());
    let mtime = u32::from_le_bytes(inode[16..20].try_into().unwrap());
    assert_eq!(atime, 1_341_411_731);
    assert_eq!(mtime, 1_542_963_930);
}

#[test]
fn missing_path_unlocks_no_writes() {
    let mut t = Trace { find_cf: true, find_eax: ERROR_FILE_NOT_FOUND, ..Default::default() };
    let mut inode = [0u8; 160];
    let status = run(&mut t, &mut inode);
    assert_eq!(status, ERROR_FILE_NOT_FOUND);
    assert_eq!(t.find, 1);
    assert_eq!(t.calc, 0);
    assert_eq!(t.write, 0);
    assert_eq!(t.sb, 0);
    assert_eq!(t.sync, 0);
    assert_eq!(t.unlock, 1);
    assert_eq!(inode, [0u8; 160]);
}

#[test]
fn immutable_denied_no_sb_sync() {
    let mut t = Trace { find_ino: 7, ..Default::default() };
    let mut inode = [0u8; 160];
    inode[32..36].copy_from_slice(&EXT4_IMMUTABLE_FL.to_le_bytes());
    let status = run(&mut t, &mut inode);
    assert_eq!(status, ERROR_ACCESS_DENIED);
    assert_eq!(t.write, 0);
    assert_eq!(t.sb, 0);
    assert_eq!(t.sync, 0);
    assert_eq!(t.unlock, 1);
}

#[test]
fn write_inode_fail_no_sb_sync() {
    let mut t = Trace { find_ino: 3, write_cf: true, write_eax: ERROR_DEVICE, ..Default::default() };
    let mut inode = [0u8; 160];
    let status = run(&mut t, &mut inode);
    assert_eq!(status, ERROR_DEVICE);
    assert_eq!(t.write, 1);
    assert_eq!(t.sb, 0);
    assert_eq!(t.sync, 0);
    assert_eq!(t.unlock, 1);
}

#[test]
fn wrapping_add_offset() {
    let kos = 0xffff_ffff_u32;
    assert_eq!(kos.wrapping_add(UNIXTIME_TO_KOS_OFFSET), kos.wrapping_add(978_307_200));
    let mut t = Trace { find_ino: 1, ..Default::default() };
    let mut inode = [0u8; 160];
    run(&mut t, &mut inode);
    assert_eq!(u32::from_le_bytes(inode[8..12].try_into().unwrap()), 1_341_411_731);
}

#[test]
fn idempotent_same_value() {
    let mut t = Trace { find_ino: 12, ..Default::default() };
    let mut inode = [0u8; 160];
    inode[8..12].copy_from_slice(&1_341_411_731u32.to_le_bytes());
    inode[16..20].copy_from_slice(&1_341_411_731u32.to_le_bytes());
    let status = run(&mut t, &mut inode);
    assert_eq!(status, 0);
    assert_eq!(t.sb, 1);
    assert_eq!(t.sync, 1);
    let atime = u32::from_le_bytes(inode[8..12].try_into().unwrap());
    assert_eq!(atime, 1_341_411_731);
}

#[test]
fn ctx_layout_size() {
    assert_eq!(kolibri_utils::ext_set_file_info::EXT_SET_FILE_INFO_CTX_SIZE, 44);
}
