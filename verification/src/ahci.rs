//! AHCI helpers: free command-slot scan, port signature recognition, and the
//! decision core of the port busy/DRQ wait loop.

use vstd::prelude::*;

verus! {

/// Differential PRNG seed used by the command-slot corpus.
pub const AHCI_FIND_CMDSLOT_PRNG_SEED: u32 = 0x4355_5456;

/// SATA PxSIG values.
pub const SATA_SIG_ATA: u32 = 0x0000_0101;
pub const SATA_SIG_ATAPI: u32 = 0xEB14_0101;
pub const SATA_SIG_SEMB: u32 = 0xC33C_0101;
pub const SATA_SIG_PM: u32 = 0x9669_0101;

/// Differential PRNG seed used by the signature corpus.
pub const AHCI_IS_SIG_KNOWN_PRNG_SEED: u32 = 0x4355_544D;

/// ATA task-file status bits.
pub const ATA_DEV_BUSY: u32 = 0x80;
pub const ATA_DEV_DRQ: u32 = 0x08;
pub const ATA_DEV_BUSY_DRQ_MASK: u32 = 0x88;

/// Differential PRNG seed used by the port-wait corpus.
pub const AHCI_PORT_WAIT_PRNG_SEED: u32 = 0x4355_5457;

/// Slot `i` is busy in the `SACT | CI` bitset (slots past bit 31 read as free).
pub open spec fn slot_busy(slots: u32, i: int) -> bool {
    0 <= i < 32 && (slots >> (i as u32)) & 1 == 1
}

/// First free slot among `0 .. ncs`, or `u32::MAX` when every inspected slot is busy.
pub open spec fn spec_first_free_slot(slots: u32, ncs: u32) -> u32 {
    if exists|i: int| 0 <= i < ncs && !slot_busy(slots, i) {
        (choose|i: int| 0 <= i < ncs && !slot_busy(slots, i)
            && forall|j: int| 0 <= j < i ==> slot_busy(slots, j)) as u32
    } else {
        u32::MAX
    }
}

proof fn lemma_shift_step(slots: u32, i: u32)
    requires
        i < 32,
    ensures
        (slots >> i) >> 1u32 == slots >> ((i + 1) as u32),
        i + 1 == 32 ==> slots >> ((i + 1) as u32) == 0,
{
    assert((slots >> i) >> 1u32 == slots >> ((i + 1) as u32)) by (bit_vector)
        requires i < 32;
    assert(i + 1 == 32 ==> slots >> ((i + 1) as u32) == 0) by (bit_vector);
}

/// Scan `i = 0 .. ncs` (exclusive) and return the first index whose bit is clear
/// in `slots`; `u32::MAX` when none is. `ncs` is the already-masked CAP.NCS field
/// and is used directly as the bound (no `+ 1`).
pub fn ahci_find_cmdslot(slots: u32, ncs: u32) -> (r: u32)
    ensures
        r == u32::MAX <==> forall|i: int| 0 <= i < ncs ==> slot_busy(slots, i),
        r != u32::MAX ==> r < ncs && !slot_busy(slots, r as int)
            && forall|j: int| 0 <= j < r ==> slot_busy(slots, j),
        r == spec_first_free_slot(slots, ncs),
{
    let mut i: u32 = 0;
    let mut bits: u32 = slots;
    assert(slots >> 0u32 == slots) by (bit_vector);
    while i < ncs
        invariant
            i <= ncs,
            i <= 32,
            bits == (if i < 32 { slots >> i } else { 0u32 }),
            forall|j: int| 0 <= j < i ==> slot_busy(slots, j),
        decreases ncs - i,
    {
        if i >= 32 {
            assert(0u32 & 1 == 0) by (bit_vector);
        }
        if (bits & 1) == 0 {
            assert(!slot_busy(slots, i as int));
            proof {
                assert forall|k: int| 0 <= k < ncs && !slot_busy(slots, k)
                    && (forall|j: int| 0 <= j < k ==> slot_busy(slots, j)) implies k == i by {
                    if k < i {
                    } else if k > i {
                        assert(slot_busy(slots, i as int));
                    }
                };
            }
            return i;
        }
        assert(i < 32) by {
            assert(0u32 & 1 == 0) by (bit_vector);
        }
        assert(bits & 1 == 1) by (bit_vector)
            requires bits & 1 != 0;
        assert(slot_busy(slots, i as int));
        proof { lemma_shift_step(slots, i); }
        bits = bits >> 1;
        i = i + 1;
    }
    u32::MAX
}

/// Register-form entry kept beside [`ahci_find_cmdslot`] for naming symmetry.
pub fn ahci_find_cmdslot_from_regs(slots: u32, ncs: u32) -> (r: u32)
    ensures
        r == spec_first_free_slot(slots, ncs),
{
    ahci_find_cmdslot(slots, ncs)
}

/// `sig` is one of the four known SATA device signatures.
pub open spec fn spec_sig_known(sig: u32) -> bool {
    sig == SATA_SIG_ATA || sig == SATA_SIG_ATAPI || sig == SATA_SIG_SEMB || sig == SATA_SIG_PM
}

/// `1` when `sig` is a known SATA signature, else `0`.
pub fn ahci_is_sig_known(sig: u32) -> (r: u32)
    ensures
        r == (if spec_sig_known(sig) { 1u32 } else { 0u32 }),
{
    if sig == SATA_SIG_ATA || sig == SATA_SIG_ATAPI || sig == SATA_SIG_SEMB || sig == SATA_SIG_PM {
        1
    } else {
        0
    }
}

/// Register-form entry kept beside [`ahci_is_sig_known`] for naming symmetry.
pub fn ahci_is_sig_known_from_reg(sig: u32) -> (r: u32)
    ensures
        r == (if spec_sig_known(sig) { 1u32 } else { 0u32 }),
{
    ahci_is_sig_known(sig)
}

/// Where the port-wait loop stands between two reads.
#[derive(Clone, Copy, Debug, PartialEq, Eq)]
pub enum PortWaitState {
    /// Nothing read yet; the start tick is awaited.
    Start { timeout: u32 },
    /// A task-file read is awaited.
    PollTfd { deadline: u32 },
    /// A tick read is awaited after a busy task-file value.
    PollTicks { deadline: u32 },
    /// The wait has ended with the given code (`0` ready, `1` timeout).
    Done { code: u32 },
}

/// What the driver must do next.
#[derive(Clone, Copy, Debug, PartialEq, Eq)]
pub enum PortWaitAction {
    ReadTicks,
    ReadTfd,
    Finish { code: u32 },
}

/// The transition of [`ahci_port_wait_step`].
pub open spec fn port_wait_next(state: PortWaitState, value: u32) -> (PortWaitState, PortWaitAction) {
    match state {
        PortWaitState::Start { timeout } => {
            let d = ((value as int + timeout as int) % 0x1_0000_0000) as u32;
            (PortWaitState::PollTfd { deadline: d }, PortWaitAction::ReadTfd)
        },
        PortWaitState::PollTfd { deadline } => if value & ATA_DEV_BUSY_DRQ_MASK == 0 {
            (PortWaitState::Done { code: 0 }, PortWaitAction::Finish { code: 0 })
        } else {
            (PortWaitState::PollTicks { deadline }, PortWaitAction::ReadTicks)
        },
        PortWaitState::PollTicks { deadline } => if value >= deadline {
            (PortWaitState::Done { code: 1 }, PortWaitAction::Finish { code: 1 })
        } else {
            (PortWaitState::PollTfd { deadline }, PortWaitAction::ReadTfd)
        },
        PortWaitState::Done { code } => (state, PortWaitAction::Finish { code }),
    }
}

/// One transition of the port-wait loop: `value` is what the previously
/// requested read returned (ignored in `Start` and `Done`).
///
/// * `Start`: the value is the start tick; `deadline = start + timeout` (wrapping)
/// * `PollTfd`: BUSY/DRQ both clear finishes with `0`, else a tick read follows
/// * `PollTicks`: `now >= deadline` (unsigned) finishes with `1`, else poll again
pub fn ahci_port_wait_step(state: PortWaitState, value: u32) -> (res: (PortWaitState, PortWaitAction))
    ensures
        res == port_wait_next(state, value),
{
    match state {
        PortWaitState::Start { timeout } => {
            let deadline = value.wrapping_add(timeout);
            (PortWaitState::PollTfd { deadline }, PortWaitAction::ReadTfd)
        },
        PortWaitState::PollTfd { deadline } => {
            if value & ATA_DEV_BUSY_DRQ_MASK == 0 {
                (PortWaitState::Done { code: 0 }, PortWaitAction::Finish { code: 0 })
            } else {
                (PortWaitState::PollTicks { deadline }, PortWaitAction::ReadTicks)
            }
        },
        PortWaitState::PollTicks { deadline } => {
            if value >= deadline {
                (PortWaitState::Done { code: 1 }, PortWaitAction::Finish { code: 1 })
            } else {
                (PortWaitState::PollTfd { deadline }, PortWaitAction::ReadTfd)
            }
        },
        PortWaitState::Done { code } => (state, PortWaitAction::Finish { code }),
    }
}

/// The first read a fresh wait asks for (the start tick).
pub fn ahci_port_wait_begin(timeout: u32) -> (res: (PortWaitState, PortWaitAction))
    ensures
        res == (PortWaitState::Start { timeout }, PortWaitAction::ReadTicks),
{
    (PortWaitState::Start { timeout }, PortWaitAction::ReadTicks)
}

/// The state a wait reaches when its status reads answer `v[j]`, `v[j+1]`, ...
/// and the tick read after the busy status `v[i]` answers `u[i]`, starting
/// from `state` (reads stop when the sequences run out).
pub open spec fn port_wait_run(state: PortWaitState, v: Seq<u32>, u: Seq<u32>, j: int) -> PortWaitState
    decreases v.len() - j,
{
    if j < 0 || j >= v.len() || j >= u.len() {
        state
    } else {
        let s1 = port_wait_next(state, v[j]).0;
        if s1 is Done {
            s1
        } else {
            let s2 = port_wait_next(s1, u[j]).0;
            if s2 is Done { s2 } else { port_wait_run(s2, v, u, j + 1) }
        }
    }
}

/// Over a whole wait that starts at tick `t0` with deadline
/// `D = t0 + timeout` (wrapping): the result is 0 at the first status read
/// with neither BUSY nor DRQ set, provided every tick read before it was
/// below `D`; it is 1 at the first busy read whose following tick read is at
/// or past `D`, provided every earlier tick read was below `D`.
pub proof fn law_port_wait_run(timeout: u32, t0: u32, v: Seq<u32>, u: Seq<u32>, k: int)
    requires
        0 <= k < v.len(),
        k < u.len(),
        forall|j: int| 0 <= j < k ==> v[j] & ATA_DEV_BUSY_DRQ_MASK != 0 && u[j] < t0.wrapping_add(timeout),
    ensures
        v[k] & ATA_DEV_BUSY_DRQ_MASK == 0 ==> port_wait_run(port_wait_next(PortWaitState::Start { timeout }, t0).0,
            v, u, 0) == (PortWaitState::Done { code: 0 }),
        v[k] & ATA_DEV_BUSY_DRQ_MASK != 0 && u[k] >= t0.wrapping_add(timeout) ==> port_wait_run(
            port_wait_next(PortWaitState::Start { timeout }, t0).0,
            v,
            u,
            0,
        ) == (PortWaitState::Done { code: 1 }),
{
    let d = t0.wrapping_add(timeout);
    assert(port_wait_next(PortWaitState::Start { timeout }, t0).0 == (PortWaitState::PollTfd { deadline: d }));
    lemma_port_wait_run_from(d, v, u, 0, k);
}

proof fn lemma_port_wait_run_from(d: u32, v: Seq<u32>, u: Seq<u32>, j: int, k: int)
    requires
        0 <= j <= k < v.len(),
        k < u.len(),
        forall|i: int| j <= i < k ==> v[i] & ATA_DEV_BUSY_DRQ_MASK != 0 && u[i] < d,
    ensures
        v[k] & ATA_DEV_BUSY_DRQ_MASK == 0 ==> port_wait_run(PortWaitState::PollTfd { deadline: d }, v, u, j)
            == (PortWaitState::Done { code: 0 }),
        v[k] & ATA_DEV_BUSY_DRQ_MASK != 0 && u[k] >= d ==> port_wait_run(PortWaitState::PollTfd { deadline: d }, v,
            u, j) == (PortWaitState::Done { code: 1 }),
    decreases k - j,
{
    if j < k {
        assert(v[j] & ATA_DEV_BUSY_DRQ_MASK != 0 && u[j] < d);
        lemma_port_wait_run_from(d, v, u, j + 1, k);
    }
}

} // verus!
