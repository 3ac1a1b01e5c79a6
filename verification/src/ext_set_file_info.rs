//! Setting a file's access and modification times on EXT (`SetFileInfo`),
//! as a sequence of decisions between outside steps: find the inode, convert
//! the two requested times, write the inode, flush, and always unlock.

use vstd::prelude::*;
use crate::ext_time::UNIXTIME_TO_KOS_OFFSET;
use crate::le::{le_u32, put_u32, read_u32_le, write_u32_le_slice};

verus! {

/// Size in bytes of the kernel trampoline's context for this call.
pub const EXT_SET_FILE_INFO_CTX_SIZE: usize = 44;

/// Differential test seed (`'ESFI'`).
pub const EXT_SET_FILE_INFO_PRNG_SEED: u32 = 0x4553_4649;
/// KolibriOS `ERROR_FILE_NOT_FOUND`.
pub const ERROR_FILE_NOT_FOUND: u32 = 5;
/// KolibriOS `ERROR_ACCESS_DENIED`.
pub const ERROR_ACCESS_DENIED: u32 = 10;
/// KolibriOS `ERROR_DEVICE`.
pub const ERROR_DEVICE: u32 = 11;
/// `EXT4_IMMUTABLE_FL`.
pub const EXT4_IMMUTABLE_FL: u32 = 0x10;
/// Offset of `i_atime` in the inode buffer.
pub const INODE_ATIME_OFF: usize = 8;
/// Offset of `i_mtime` in the inode buffer.
pub const INODE_MTIME_OFF: usize = 16;
/// Offset of the inode's feature flags.
pub const INODE_FEATURE_FLAGS_OFF: usize = 32;
/// Offset of the access time in the caller's 32-byte file information block.
pub const BDFE_ATIME_OFF: usize = 16;
/// Offset of the modification time in that block.
pub const BDFE_MTIME_OFF: usize = 24;

/// Where `SetFileInfo` stands between two outside steps.
#[derive(Clone, Copy, Debug, PartialEq, Eq)]
pub enum SetInfoState {
    /// Nothing done yet.
    Start,
    /// The inode lookup was asked for.
    AwaitFind,
    /// The access time conversion was asked for.
    AwaitAtime { ino: u32 },
    /// The modification time conversion was asked for.
    AwaitMtime { ino: u32 },
    /// The inode write was asked for.
    AwaitWrite,
    /// The superblock write was asked for.
    AwaitSuperblock,
    /// The disk flush was asked for.
    AwaitSync,
    /// The unlock was asked for; `status` is what will be returned.
    AwaitUnlock { status: u32 },
    /// Finished with `status`.
    Done { status: u32 },
}

/// What an outside step produced.
#[derive(Clone, Copy, Debug, PartialEq, Eq)]
pub enum SetInfoEvent {
    /// The driver starts.
    Begin,
    /// The inode lookup answered: failure flag, error code, inode number.
    Found { cf: bool, eax: u32, ino: u32 },
    /// A time conversion answered with KolibriOS seconds.
    Time { kos: u32 },
    /// The inode write answered: failure flag and error code.
    Written { cf: bool, eax: u32 },
    /// A step without a result finished.
    Ack,
}

/// What the driver must do next.
#[derive(Clone, Copy, Debug, PartialEq, Eq)]
pub enum SetInfoAction {
    /// Look up the inode of the path (into the inode buffer).
    FindInode,
    /// Convert the time stored at `offset` of the caller's information block.
    CalcTime { offset: usize },
    /// Write the inode buffer back as inode `ino`.
    WriteInode { ino: u32 },
    /// Write the superblock.
    WriteSuperblock,
    /// Flush the disk.
    DiskSync,
    /// Release the filesystem lock.
    Unlock,
    /// Return `status` (0 for success).
    Return { status: u32 },
}

/// Whether `event` is the kind of answer `state` waits for.
pub open spec fn set_info_event_fits(state: SetInfoState, event: SetInfoEvent) -> bool {
    match state {
        SetInfoState::Start => event is Begin,
        SetInfoState::AwaitFind => event is Found,
        SetInfoState::AwaitAtime { .. } => event is Time,
        SetInfoState::AwaitMtime { .. } => event is Time,
        SetInfoState::AwaitWrite => event is Written,
        SetInfoState::AwaitSuperblock => event is Ack,
        SetInfoState::AwaitSync => event is Ack,
        SetInfoState::AwaitUnlock { .. } => event is Ack,
        SetInfoState::Done { .. } => false,
    }
}

/// The Unix time stored for KolibriOS seconds (wrapping).
pub open spec fn unix_of_kos(kos: u32) -> u32 {
    ((kos + UNIXTIME_TO_KOS_OFFSET) % 0x1_0000_0000) as u32
}

/// The next state and action of `SetFileInfo`, and how the inode buffer
/// changes, for one answer:
/// * `Start`: look up the inode.
/// * `AwaitFind`: a failed lookup unlocks and returns its error; an immutable
///   inode unlocks and returns `ERROR_ACCESS_DENIED`; else convert the access
///   time.
/// * `AwaitAtime`/`AwaitMtime`: store the Unix time (`kos + offset`,
///   wrapping) in `i_atime`/`i_mtime`; then convert the modification time,
///   or write the inode.
/// * `AwaitWrite`: a failed write unlocks and returns its error; else write
///   the superblock, then flush, then unlock and return 0.
/// * `AwaitUnlock`: return the status.
pub open spec fn set_info_next(state: SetInfoState, event: SetInfoEvent, inode: Seq<u8>)
    -> (SetInfoState, SetInfoAction, Seq<u8>)
{
    match (state, event) {
        (SetInfoState::Start, _) => (SetInfoState::AwaitFind, SetInfoAction::FindInode, inode),
        (SetInfoState::AwaitFind, SetInfoEvent::Found { cf, eax, ino }) => if cf {
            (SetInfoState::AwaitUnlock { status: eax }, SetInfoAction::Unlock, inode)
        } else if le_u32(inode, INODE_FEATURE_FLAGS_OFF as int) & EXT4_IMMUTABLE_FL != 0 {
            (SetInfoState::AwaitUnlock { status: ERROR_ACCESS_DENIED }, SetInfoAction::Unlock, inode)
        } else {
            (SetInfoState::AwaitAtime { ino }, SetInfoAction::CalcTime { offset: BDFE_ATIME_OFF }, inode)
        },
        (SetInfoState::AwaitAtime { ino }, SetInfoEvent::Time { kos }) =>
            (SetInfoState::AwaitMtime { ino }, SetInfoAction::CalcTime { offset: BDFE_MTIME_OFF },
                put_u32(inode, INODE_ATIME_OFF as int, unix_of_kos(kos))),
        (SetInfoState::AwaitMtime { ino }, SetInfoEvent::Time { kos }) =>
            (SetInfoState::AwaitWrite, SetInfoAction::WriteInode { ino },
                put_u32(inode, INODE_MTIME_OFF as int, unix_of_kos(kos))),
        (SetInfoState::AwaitWrite, SetInfoEvent::Written { cf, eax }) => if cf {
            (SetInfoState::AwaitUnlock { status: eax }, SetInfoAction::Unlock, inode)
        } else {
            (SetInfoState::AwaitSuperblock, SetInfoAction::WriteSuperblock, inode)
        },
        (SetInfoState::AwaitSuperblock, _) => (SetInfoState::AwaitSync, SetInfoAction::DiskSync, inode),
        (SetInfoState::AwaitSync, _) => (SetInfoState::AwaitUnlock { status: 0 }, SetInfoAction::Unlock, inode),
        (SetInfoState::AwaitUnlock { status }, _) => (SetInfoState::Done { status }, SetInfoAction::Return { status }, inode),
        (s, _) => (s, SetInfoAction::Return { status: 0 }, inode),
    }
}

/// One step of `SetFileInfo` (see [`set_info_next`]); `inode` is the
/// filesystem's inode buffer.
pub fn ext_set_file_info_step(state: SetInfoState, event: SetInfoEvent, inode: &mut [u8])
    -> (r: (SetInfoState, SetInfoAction))
    requires
        set_info_event_fits(state, event),
        old(inode)@.len() >= 36,
    ensures
        r.0 == set_info_next(state, event, old(inode)@).0,
        r.1 == set_info_next(state, event, old(inode)@).1,
        final(inode)@ == set_info_next(state, event, old(inode)@).2,
{
    match (state, event) {
        (SetInfoState::Start, _) => (SetInfoState::AwaitFind, SetInfoAction::FindInode),
        (SetInfoState::AwaitFind, SetInfoEvent::Found { cf, eax, ino }) => {
            if cf {
                return (SetInfoState::AwaitUnlock { status: eax }, SetInfoAction::Unlock);
            }
            let flags = read_u32_le(inode, INODE_FEATURE_FLAGS_OFF);
            if flags & EXT4_IMMUTABLE_FL != 0 {
                return (SetInfoState::AwaitUnlock { status: ERROR_ACCESS_DENIED }, SetInfoAction::Unlock);
            }
            (SetInfoState::AwaitAtime { ino }, SetInfoAction::CalcTime { offset: BDFE_ATIME_OFF })
        },
        (SetInfoState::AwaitAtime { ino }, SetInfoEvent::Time { kos }) => {
            write_u32_le_slice(inode, INODE_ATIME_OFF, kos.wrapping_add(UNIXTIME_TO_KOS_OFFSET));
            (SetInfoState::AwaitMtime { ino }, SetInfoAction::CalcTime { offset: BDFE_MTIME_OFF })
        },
        (SetInfoState::AwaitMtime { ino }, SetInfoEvent::Time { kos }) => {
            write_u32_le_slice(inode, INODE_MTIME_OFF, kos.wrapping_add(UNIXTIME_TO_KOS_OFFSET));
            (SetInfoState::AwaitWrite, SetInfoAction::WriteInode { ino })
        },
        (SetInfoState::AwaitWrite, SetInfoEvent::Written { cf, eax }) => {
            if cf {
                (SetInfoState::AwaitUnlock { status: eax }, SetInfoAction::Unlock)
            } else {
                (SetInfoState::AwaitSuperblock, SetInfoAction::WriteSuperblock)
            }
        },
        (SetInfoState::AwaitSuperblock, _) => (SetInfoState::AwaitSync, SetInfoAction::DiskSync),
        (SetInfoState::AwaitSync, _) => (SetInfoState::AwaitUnlock { status: 0 }, SetInfoAction::Unlock),
        (SetInfoState::AwaitUnlock { status }, _) => (SetInfoState::Done { status }, SetInfoAction::Return { status }),
        (s, _) => (s, SetInfoAction::Return { status: 0 }),
    }
}

/// The start of `SetFileInfo`.
pub fn ext_set_file_info_begin() -> (r: (SetInfoState, SetInfoEvent))
    ensures
        r == (SetInfoState::Start, SetInfoEvent::Begin),
{
    (SetInfoState::Start, SetInfoEvent::Begin)
}

/// The state, the actions asked for, and the inode buffer after feeding
/// `events` to `SetFileInfo` from the start.
pub open spec fn set_info_run(events: Seq<SetInfoEvent>, inode: Seq<u8>)
    -> (SetInfoState, Seq<SetInfoAction>, Seq<u8>)
    decreases events.len(),
{
    if events.len() == 0 {
        (SetInfoState::Start, Seq::empty(), inode)
    } else {
        let before = set_info_run(events.drop_last(), inode);
        let n = set_info_next(before.0, events.last(), before.2);
        (n.0, before.1.push(n.1), n.2)
    }
}

/// Whether each event answers the step before it.
pub open spec fn set_info_run_fits(events: Seq<SetInfoEvent>, inode: Seq<u8>) -> bool
    decreases events.len(),
{
    events.len() == 0 || (set_info_run_fits(events.drop_last(), inode)
        && set_info_event_fits(set_info_run(events.drop_last(), inode).0, events.last()))
}

/// What the actions so far look like in each state: no unlock and no return
/// before the unlock is asked for; then one unlock, last; then the return
/// right after it.
spec fn run_shape(state: SetInfoState, actions: Seq<SetInfoAction>) -> bool {
    match state {
        SetInfoState::Start => actions.len() == 0,
        SetInfoState::AwaitUnlock { .. } => actions.len() >= 1 && actions.last() is Unlock
            && forall|k: int| 0 <= k < actions.len() - 1 ==> !(#[trigger] actions[k] is Unlock) && !(actions[k] is Return),
        SetInfoState::Done { status } => actions.len() >= 2 && actions.last() == SetInfoAction::Return { status }
            && actions[actions.len() - 2] is Unlock
            && forall|k: int| 0 <= k < actions.len() - 2 ==> !(#[trigger] actions[k] is Unlock) && !(actions[k] is Return),
        _ => actions.len() >= 1 && forall|k: int| 0 <= k < actions.len() ==> !(#[trigger] actions[k] is Unlock) && !(actions[k] is Return),
    }
}

proof fn lemma_run_shape(events: Seq<SetInfoEvent>, inode: Seq<u8>)
    requires
        set_info_run_fits(events, inode),
    ensures
        run_shape(set_info_run(events, inode).0, set_info_run(events, inode).1),
    decreases events.len(),
{
    if events.len() > 0 {
        lemma_run_shape(events.drop_last(), inode);
        let before = set_info_run(events.drop_last(), inode);
        let after = set_info_run(events, inode);
        assert(after.1 == before.1.push(set_info_next(before.0, events.last(), before.2).1));
        assert forall|k: int| 0 <= k < before.1.len() implies after.1[k] == before.1[k] by {}
    }
}

/// Every run of `SetFileInfo` that finishes has asked for the unlock exactly
/// once, as its last outside step, right before returning.
pub proof fn law_always_unlocks_once(events: Seq<SetInfoEvent>, inode: Seq<u8>)
    requires
        set_info_run_fits(events, inode),
        set_info_run(events, inode).0 is Done,
    ensures
        ({
            let actions = set_info_run(events, inode).1;
            &&& actions.len() >= 2
            &&& actions[actions.len() - 2] is Unlock
            &&& actions.last() is Return
            &&& forall|k: int| 0 <= k < actions.len() - 2 ==> !(#[trigger] actions[k] is Unlock)
        }),
{
    lemma_run_shape(events, inode);
}

} // verus!
