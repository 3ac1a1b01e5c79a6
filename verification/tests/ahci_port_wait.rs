use kolibri_utils::ahci::{
    ahci_port_wait_begin, ahci_port_wait_step, PortWaitAction, AHCI_PORT_WAIT_PRNG_SEED,
};

/// Drives the verified port-wait decision core with injected readers, the way
/// the kernel trampoline performs the task-file and tick reads.
fn fasm_oracle_ahci_port_wait(
    mut read_tfd: impl FnMut() -> u32,
    mut read_ticks: impl FnMut() -> u32,
    timeout: u32,
) -> u32 {
    let (mut state, mut action) = ahci_port_wait_begin(timeout);
    loop {
        let value = match action {
            PortWaitAction::ReadTicks => read_ticks(),
            PortWaitAction::ReadTfd => read_tfd(),
            PortWaitAction::Finish { code } => return code,
        };
        let (s, a) = ahci_port_wait_step(state, value);
        state = s;
        action = a;
    }
}

fn run_case(tfd_fn: impl FnMut() -> u32, tick_fn: impl FnMut() -> u32, timeout: u32) -> u32 {
    fasm_oracle_ahci_port_wait(tfd_fn, tick_fn, timeout)
}

fn check_oracle(tfd_seq: &[u32], tick_seq: &[u32], timeout: u32, exp: u32) {
    let mut ti = 0usize;
    let mut tfd_i = 0usize;
    let got = fasm_oracle_ahci_port_wait(
        || {
            let v = tfd_seq[tfd_i.min(tfd_seq.len() - 1)];
            if tfd_i + 1 < tfd_seq.len() {
                tfd_i += 1;
            }
            v
        },
        || {
            let v = tick_seq[ti.min(tick_seq.len() - 1)];
            if ti + 1 < tick_seq.len() {
                ti += 1;
            }
            v
        },
        timeout,
    );
    assert_eq!(got, exp, "timeout={timeout} tfd={tfd_seq:?} ticks={tick_seq:?}");
}

#[test]
fn idle_immediate_success() {
    check_oracle(&[0], &[100], 1000, 0);
}

#[test]
fn busy_only_not_masked() {
    // DRQ-only (0x08) still waits; BUSY-only (0x80) waits; both clear → success.
    check_oracle(&[0x08, 0x80, 0x00], &[10, 10, 11], 50, 0);
    check_oracle(&[0x80, 0x00], &[5, 6], 100, 0);
}

#[test]
fn timeout_when_stuck_busy() {
    check_oracle(&[0x88, 0x88, 0x88], &[0, 1, 2], 2, 1);
    let mut t = 0u32;
    let got = fasm_oracle_ahci_port_wait(|| 0x80, || { let v = t; t += 1; v }, 3);
    assert_eq!(got, 1);
}

#[test]
fn deadline_unsigned_wrap() {
    // start=0xFFFF_FFF0, timeout=32 → deadline=0x10; loop tick 5 < 0x10 → clear
    check_oracle(&[0x80, 0x00], &[0xFFFF_FFF0, 5], 32, 0);
    // Timeout when loop tick reaches deadline
    check_oracle(&[0x80, 0x80], &[0xFFFF_FFF0, 0xF, 0x10], 32, 1);
}

#[test]
fn zero_timeout_times_out_if_busy() {
    check_oracle(&[0x80], &[7, 7], 0, 1);
    check_oracle(&[0x00], &[7], 0, 0);
}

#[test]
fn edge_masks() {
    let mut t = 0u32;
    assert_eq!(
        run_case(|| 0x71, || { let v = t; t += 1; v }, 10),
        0
    );
    t = 0;
    assert_eq!(
        run_case(|| 0x88, || { let v = t; t += 1; v }, 0),
        1
    );
    t = 0;
    assert_eq!(
        run_case(|| 0x08, || { let v = t; t += 1; v }, 5),
        1
    );
}

#[test]
fn prng_50k_cutw() {
    let mut state = AHCI_PORT_WAIT_PRNG_SEED;
    for _ in 0..50_000 {
        state ^= state << 13;
        state ^= state >> 17;
        state ^= state << 5;
        let start = state;
        state ^= state << 13;
        state ^= state >> 17;
        state ^= state << 5;
        let timeout = state & 0xFF;
        state ^= state << 13;
        state ^= state >> 17;
        state ^= state << 5;
        let stuck_tfd = (state & 0xFF) | 0x80;
        state ^= state << 13;
        state ^= state >> 17;
        state ^= state << 5;
        let clear_after = (state & 0x7) + 1;

        let mut poll = 0u32;
        let mut tick = start;
        let exp = fasm_oracle_ahci_port_wait(
            || {
                poll = poll.wrapping_add(1);
                if poll > clear_after {
                    0
                } else {
                    stuck_tfd
                }
            },
            || {
                let v = tick;
                tick = tick.wrapping_add(1);
                v
            },
            timeout,
        );

        poll = 0;
        tick = start;
        let got = fasm_oracle_ahci_port_wait(
            || {
                poll = poll.wrapping_add(1);
                if poll > clear_after {
                    0
                } else {
                    stuck_tfd
                }
            },
            || {
                let v = tick;
                tick = tick.wrapping_add(1);
                v
            },
            timeout,
        );
        assert_eq!(got, exp);
    }
}

#[test]
fn port_wait_step_sequence_exact() {
    // Busy once, then the tick is past the deadline: timeout code 1.
    let (s, a) = ahci_port_wait_begin(4);
    assert_eq!(a, PortWaitAction::ReadTicks);
    let (s, a) = ahci_port_wait_step(s, 10);
    assert_eq!(a, PortWaitAction::ReadTfd);
    let (s, a) = ahci_port_wait_step(s, 0x80);
    assert_eq!(a, PortWaitAction::ReadTicks);
    let (_, a) = ahci_port_wait_step(s, 14);
    assert_eq!(a, PortWaitAction::Finish { code: 1 });
}
