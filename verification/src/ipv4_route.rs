//! IPv4 route selection: on-link, gateway, broadcast and explicit-device
//! egress over the kernel's per-device tables (16 devices; device `n` is
//! reported as the byte offset `4n`).

use vstd::prelude::*;

verus! {

/// Number of network devices.
pub const NET_DEVICES_MAX: usize = 16;

/// Byte span of one per-device dword table.
pub const TABLE_BYTES: usize = 64;

/// Offset of the link state in a device structure.
pub const OFF_LINK_STATE: usize = 24;

/// Limited broadcast address.
pub const IPV4_BROADCAST: u32 = 0xffff_ffff;

/// Seed of the pseudo-random corpus (`'CUTC'`).
pub const IPV4_ROUTE_PRNG_SEED: u32 = 0x4355_5443;

/// Chosen next hop, source and device.
#[derive(Clone, Copy, Debug, PartialEq, Eq)]
pub struct Ipv4RouteResult {
    /// Destination (perhaps rewritten to a gateway), or 0 on failure.
    pub dest_ip: u32,
    /// Source address.
    pub source_ip: u32,
    /// Device index × 4, or `0xffffffff` when the given device is unknown.
    pub device_idx4: u32,
}

/// The per-device tables the router reads.
pub struct RouteTables {
    /// Address of each device.
    pub address: [u32; 16],
    /// Subnet mask of each device.
    pub subnet: [u32; 16],
    /// Gateway of each device.
    pub gateway: [u32; 16],
    /// Device handle in each slot (0: empty slot).
    pub list: [u32; 16],
    /// Link state of each present device.
    pub link_states: [u32; 16],
}

/// The first index in `i .. end` satisfying `p`, or `end`.
pub open spec fn first_index(p: spec_fn(int) -> bool, i: int, end: int) -> int
    decreases end - i,
{
    if i >= end {
        end
    } else if p(i) {
        i
    } else {
        first_index(p, i + 1, end)
    }
}

/// Slot of device handle `dev` in the list from slot `i` on (the first one), or 16.
pub open spec fn device_slot_from(list: Seq<u32>, dev: u32, i: int) -> int
    decreases 16 - i,
{
    if i >= 16 {
        16
    } else if list[i] == dev {
        i
    } else {
        device_slot_from(list, dev, i + 1)
    }
}

/// Slot of device handle `dev` in the list (the first one), or 16.
pub open spec fn device_slot(list: Seq<u32>, dev: u32) -> int {
    device_slot_from(list, dev, 0)
}

/// A device that is present and has its link up.
pub open spec fn link_up(t: RouteTables, i: int) -> bool {
    t.list@[i] != 0 && t.link_states@[i] != 0
}

/// A device whose subnet holds both its own (non-zero masked) address and `dest`.
pub open spec fn on_link(t: RouteTables, dest: u32, i: int) -> bool {
    (t.address@[i] & t.subnet@[i]) != 0 && (t.address@[i] & t.subnet@[i]) == (dest & t.subnet@[i])
}

/// The result for device `i`: the source is filled from its address when 0.
pub open spec fn got_it(t: RouteTables, dest: u32, source: u32, i: int) -> Ipv4RouteResult {
    Ipv4RouteResult {
        dest_ip: dest,
        source_ip: if source == 0 { t.address@[i] } else { source },
        device_idx4: (4 * i) as u32,
    }
}

/// Route selection.
///
/// * Given a device handle: its slot (unknown: `(0, source, 0xffffffff)`);
///   the source is that device's address; off-subnet unicast goes to its gateway.
/// * Broadcast: the first device (from 1) with link up and no address, else
///   the first with link up, else loopback (0).
/// * Unicast: the first device (from 0) whose subnet holds the destination,
///   else the first gateway (from 1) as next hop, else loopback.
pub open spec fn route_spec(t: RouteTables, dest: u32, device: u32, source: u32) -> Ipv4RouteResult {
    if device != 0 {
        let i = device_slot(t.list@, device);
        if i >= 16 {
            Ipv4RouteResult { dest_ip: 0, source_ip: source, device_idx4: 0xffff_ffff }
        } else {
            let local = t.address@[i] & t.subnet@[i];
            let remote = dest & t.subnet@[i];
            Ipv4RouteResult {
                dest_ip: if dest != IPV4_BROADCAST && remote != local { t.gateway@[i] } else { dest },
                source_ip: t.address@[i],
                device_idx4: (4 * i) as u32,
            }
        }
    } else if dest == IPV4_BROADCAST {
        let a = first_index(|i: int| link_up(t, i) && t.address@[i] == 0, 1, 16);
        let b = first_index(|i: int| link_up(t, i), 1, 16);
        if a < 16 {
            got_it(t, dest, source, a)
        } else if b < 16 {
            got_it(t, dest, source, b)
        } else {
            got_it(t, dest, source, 0)
        }
    } else {
        let a = first_index(|i: int| on_link(t, dest, i), 0, 16);
        let g = first_index(|i: int| t.gateway@[i] != 0, 1, 16);
        if a < 16 {
            got_it(t, dest, source, a)
        } else if g < 16 {
            got_it(t, t.gateway@[g], source, g)
        } else {
            got_it(t, dest, source, 0)
        }
    }
}

proof fn lemma_first_index_step(p: spec_fn(int) -> bool, i: int, end: int)
    requires
        i < end,
        !p(i),
    ensures
        first_index(p, i, end) == first_index(p, i + 1, end),
{
}

proof fn lemma_first_index_range(p: spec_fn(int) -> bool, i: int, end: int)
    requires
        i <= end,
    ensures
        i <= first_index(p, i, end) <= end,
        first_index(p, i, end) < end ==> p(first_index(p, i, end)),
    decreases end - i,
{
    if i < end && !p(i) {
        lemma_first_index_range(p, i + 1, end);
    }
}

/// Byte offset of the first list slot holding `device_ptr`, or `None` for a
/// null or unknown handle.
pub fn find_device_idx4(device_ptr: u32, list: &[u32; 16]) -> (r: Option<u32>)
    ensures
        device_ptr == 0 ==> r is None,
        device_ptr != 0 ==> match r {
            Some(idx4) => device_slot(list@, device_ptr) < 16 && idx4 == 4 * device_slot(list@, device_ptr),
            None => device_slot(list@, device_ptr) >= 16,
        },
{
    if device_ptr == 0 {
        return None;
    }
    let mut i: usize = 0;
    while i < NET_DEVICES_MAX
        invariant
            i <= 16,
            device_ptr != 0,
            device_slot(list@, device_ptr) == device_slot_from(list@, device_ptr, i as int),
        decreases 16 - i,
    {
        if list[i] == device_ptr {
            return Some((i as u32) * 4);
        }
        i = i + 1;
    }
    None
}

fn got_it_exec(t: &RouteTables, dest: u32, source: u32, i: usize) -> (r: Ipv4RouteResult)
    requires
        i < 16,
    ensures
        r == got_it(*t, dest, source, i as int),
{
    let s = if source == 0 { t.address[i] } else { source };
    Ipv4RouteResult { dest_ip: dest, source_ip: s, device_idx4: (i as u32) * 4 }
}

/// Route `dest_ip` (see [`route_spec`]) over the tables, from `device_ptr`
/// when it is non-zero.
pub fn ipv4_route(t: &RouteTables, dest_ip: u32, device_ptr: u32, source_ip: u32) -> (r: Ipv4RouteResult)
    ensures
        r == route_spec(*t, dest_ip, device_ptr, source_ip),
{
    if device_ptr != 0 {
        match find_device_idx4(device_ptr, &t.list) {
            None => {
                return Ipv4RouteResult { dest_ip: 0, source_ip, device_idx4: 0xffff_ffff };
            },
            Some(idx4) => {
                let i = (idx4 / 4) as usize;
                let source = t.address[i];
                let mut dest = dest_ip;
                if dest_ip != IPV4_BROADCAST {
                    let local = t.address[i] & t.subnet[i];
                    let remote = dest_ip & t.subnet[i];
                    if remote != local {
                        dest = t.gateway[i];
                    }
                }
                return Ipv4RouteResult { dest_ip: dest, source_ip: source, device_idx4: idx4 };
            },
        }
    }
    if dest_ip == IPV4_BROADCAST {
        let ghost pa = |i: int| link_up(*t, i) && t.address@[i] == 0;
        let ghost pb = |i: int| link_up(*t, i);
        let mut i: usize = 1;
        while i < NET_DEVICES_MAX
            invariant
                1 <= i <= 16,
                device_ptr == 0,
                dest_ip == IPV4_BROADCAST,
                pa == (|i: int| link_up(*t, i) && t.address@[i] == 0),
                first_index(pa, 1, 16) == first_index(pa, i as int, 16),
            decreases 16 - i,
        {
            if t.list[i] != 0 && t.link_states[i] != 0 && t.address[i] == 0 {
                return got_it_exec(t, dest_ip, source_ip, i);
            }
            proof {
                lemma_first_index_step(pa, i as int, 16);
            }
            i = i + 1;
        }
        let mut j: usize = 1;
        while j < NET_DEVICES_MAX
            invariant
                1 <= j <= 16,
                device_ptr == 0,
                dest_ip == IPV4_BROADCAST,
                pa == (|i: int| link_up(*t, i) && t.address@[i] == 0),
                first_index(pa, 1, 16) == 16,
                pb == (|i: int| link_up(*t, i)),
                first_index(pb, 1, 16) == first_index(pb, j as int, 16),
            decreases 16 - j,
        {
            if t.list[j] != 0 && t.link_states[j] != 0 {
                return got_it_exec(t, dest_ip, source_ip, j);
            }
            proof {
                lemma_first_index_step(pb, j as int, 16);
            }
            j = j + 1;
        }
        return got_it_exec(t, dest_ip, source_ip, 0);
    }
    let ghost pa = |i: int| on_link(*t, dest_ip, i);
    let ghost pg = |i: int| t.gateway@[i] != 0;
    let mut i: usize = 0;
    while i < NET_DEVICES_MAX
        invariant
            i <= 16,
            device_ptr == 0,
            dest_ip != IPV4_BROADCAST,
            pa == (|i: int| on_link(*t, dest_ip, i)),
            first_index(pa, 0, 16) == first_index(pa, i as int, 16),
        decreases 16 - i,
    {
        let masked_local = t.address[i] & t.subnet[i];
        if masked_local != 0 {
            let masked_dest = dest_ip & t.subnet[i];
            if masked_local == masked_dest {
                return got_it_exec(t, dest_ip, source_ip, i);
            }
        }
        proof {
            lemma_first_index_step(pa, i as int, 16);
        }
        i = i + 1;
    }
    let mut j: usize = 1;
    while j < NET_DEVICES_MAX
        invariant
            1 <= j <= 16,
            device_ptr == 0,
            dest_ip != IPV4_BROADCAST,
            pa == (|i: int| on_link(*t, dest_ip, i)),
            first_index(pa, 0, 16) == 16,
            pg == (|i: int| t.gateway@[i] != 0),
            first_index(pg, 1, 16) == first_index(pg, j as int, 16),
        decreases 16 - j,
    {
        if t.gateway[j] != 0 {
            return got_it_exec(t, t.gateway[j], source_ip, j);
        }
        proof {
            lemma_first_index_step(pg, j as int, 16);
        }
        j = j + 1;
    }
    got_it_exec(t, dest_ip, source_ip, 0)
}

/// With a known explicit device, the reported source is always that
/// device's address, whatever source was requested.
pub proof fn law_explicit_device_sets_source(t: RouteTables, dest: u32, device: u32, s1: u32, s2: u32)
    requires
        device != 0,
        device_slot(t.list@, device) < 16,
    ensures
        route_spec(t, dest, device, s1) == route_spec(t, dest, device, s2),
{
}

/// Automatic routing keeps a non-zero requested source.
pub proof fn law_auto_route_keeps_source(t: RouteTables, dest: u32, source: u32)
    requires
        source != 0,
    ensures
        route_spec(t, dest, 0, source).source_ip == source,
{
}

/// Automatic routing always lands on a device slot (never the failure marker).
pub proof fn law_auto_route_picks_a_device(t: RouteTables, dest: u32, source: u32)
    ensures
        route_spec(t, dest, 0, source).device_idx4 < 64,
        route_spec(t, dest, 0, source).device_idx4 % 4 == 0,
{
    lemma_first_index_range(|i: int| link_up(t, i) && t.address@[i] == 0, 1, 16);
    lemma_first_index_range(|i: int| link_up(t, i), 1, 16);
    lemma_first_index_range(|i: int| on_link(t, dest, i), 0, 16);
    lemma_first_index_range(|i: int| t.gateway@[i] != 0, 1, 16);
}

} // verus!
