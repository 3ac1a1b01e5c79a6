//! IPv4 reassembly fragment-slot lookup.

use vstd::prelude::*;
use crate::le::{le_u16, le_u32, read_u16_le, read_u32_le};

verus! {

/// Size of one fragment slot (ttl / id / SrcIP / DstIP / ptr).
pub const FRAGMENT_SLOT_SIZE: usize = 16;

/// Production table length.
pub const IPV4_MAX_FRAGMENTS: u32 = 64;

/// Offsets within a fragment slot.
pub const OFF_SLOT_TTL: usize = 0;
pub const OFF_SLOT_ID: usize = 2;
pub const OFF_SLOT_SRC_IP: usize = 4;
pub const OFF_SLOT_DST_IP: usize = 8;
pub const OFF_SLOT_PTR: usize = 12;

/// Offsets within an IPv4 header.
pub const OFF_HDR_IDENTIFICATION: usize = 4;
pub const OFF_HDR_SRC_IP: usize = 12;
pub const OFF_HDR_DST_IP: usize = 16;

/// Header bytes this lookup reads (through DestinationAddress).
pub const IPV4_HEADER_MIN_LEN: usize = 20;

/// Differential PRNG seed of the slot corpus.
pub const IPV4_FIND_FRAGMENT_SLOT_PRNG_SEED: u32 = 0x4355_5455;

/// `load_slot` may return, for slot `i`, a key other than `key`.
pub open spec fn slot_may_miss<F: Fn(u32) -> (u16, u32, u32)>(load_slot: F, i: u32, key: (u16, u32, u32)) -> bool {
    exists|v: (u16, u32, u32)| #[trigger] call_ensures(load_slot, (i,), v) && v != key
}

/// Where a slot scan stands.
#[derive(Clone, Copy, Debug, PartialEq, Eq)]
pub enum SlotScanState {
    /// The key of slot `next` is awaited.
    Scanning { next: u32 },
    /// Slot `index` matched; its address is awaited.
    Fetching { index: u32 },
    /// The scan has ended with `result`.
    Done { result: u32 },
}

/// What the driver of a slot scan hands back.
#[derive(Clone, Copy, Debug, PartialEq, Eq)]
pub enum SlotScanEvent {
    /// The `(id, src, dst)` key of the slot asked for.
    Key { id: u16, src_ip: u32, dst_ip: u32 },
    /// The address of the slot asked for.
    Address { addr: u32 },
}

/// What the driver of a slot scan must do next.
#[derive(Clone, Copy, Debug, PartialEq, Eq)]
pub enum SlotScanAction {
    LoadSlot { index: u32 },
    FetchAddress { index: u32 },
    Finish { result: u32 },
}

/// The first request of a scan over `count` slots.
pub open spec fn slot_scan_start(count: u32) -> (SlotScanState, SlotScanAction) {
    if count == 0 {
        (SlotScanState::Done { result: u32::MAX }, SlotScanAction::Finish { result: u32::MAX })
    } else {
        (SlotScanState::Scanning { next: 0 }, SlotScanAction::LoadSlot { index: 0 })
    }
}

/// The transition of [`slot_scan_step`]. An event of the other kind than the
/// one asked for repeats the request.
pub open spec fn slot_scan_next(key: (u16, u32, u32), count: u32, st: SlotScanState, ev: SlotScanEvent) -> (
    SlotScanState,
    SlotScanAction,
) {
    match st {
        SlotScanState::Scanning { next } => match ev {
            SlotScanEvent::Key { id, src_ip, dst_ip } => if (id, src_ip, dst_ip) == key {
                (SlotScanState::Fetching { index: next }, SlotScanAction::FetchAddress { index: next })
            } else if next + 1 < count {
                (SlotScanState::Scanning { next: (next + 1) as u32 }, SlotScanAction::LoadSlot { index: (next + 1) as u32 })
            } else {
                (SlotScanState::Done { result: u32::MAX }, SlotScanAction::Finish { result: u32::MAX })
            },
            SlotScanEvent::Address { .. } => (st, SlotScanAction::LoadSlot { index: next }),
        },
        SlotScanState::Fetching { index } => match ev {
            SlotScanEvent::Address { addr } => (SlotScanState::Done { result: addr }, SlotScanAction::Finish { result: addr }),
            SlotScanEvent::Key { .. } => (st, SlotScanAction::FetchAddress { index }),
        },
        SlotScanState::Done { result } => (st, SlotScanAction::Finish { result }),
    }
}

/// Begin a scan of `count` slots: slot 0 is asked for, or (no slots) the
/// scan misses at once.
pub fn slot_scan_begin(count: u32) -> (res: (SlotScanState, SlotScanAction))
    ensures
        res == slot_scan_start(count),
{
    if count == 0 {
        (SlotScanState::Done { result: u32::MAX }, SlotScanAction::Finish { result: u32::MAX })
    } else {
        (SlotScanState::Scanning { next: 0 }, SlotScanAction::LoadSlot { index: 0 })
    }
}

/// One step of a slot scan for `(id, src_ip, dst_ip)` over `count` slots:
/// a matching key asks for that slot's address, a key that does not match
/// asks for the next slot (or misses with `u32::MAX` after the last), and the
/// address ends the scan with it.
pub fn slot_scan_step(id: u16, src_ip: u32, dst_ip: u32, count: u32, st: SlotScanState, ev: SlotScanEvent) -> (res: (
    SlotScanState,
    SlotScanAction,
))
    requires
        st matches SlotScanState::Scanning { next } ==> next < count,
    ensures
        res == slot_scan_next((id, src_ip, dst_ip), count, st, ev),
{
    match st {
        SlotScanState::Scanning { next } => match ev {
            SlotScanEvent::Key { id: k_id, src_ip: k_src, dst_ip: k_dst } => {
                if k_id == id && k_src == src_ip && k_dst == dst_ip {
                    (SlotScanState::Fetching { index: next }, SlotScanAction::FetchAddress { index: next })
                } else if next + 1 < count {
                    (SlotScanState::Scanning { next: next + 1 }, SlotScanAction::LoadSlot { index: next + 1 })
                } else {
                    (SlotScanState::Done { result: u32::MAX }, SlotScanAction::Finish { result: u32::MAX })
                }
            },
            SlotScanEvent::Address { .. } => (st, SlotScanAction::LoadSlot { index: next }),
        },
        SlotScanState::Fetching { index } => match ev {
            SlotScanEvent::Address { addr } => (SlotScanState::Done { result: addr }, SlotScanAction::Finish { result: addr }),
            SlotScanEvent::Key { .. } => (st, SlotScanAction::FetchAddress { index }),
        },
        SlotScanState::Done { result } => (st, SlotScanAction::Finish { result }),
    }
}

/// The actions a scan in state `st` gives, for at most `fuel` more steps, when
/// each slot `i` asked for has key `keys[i]` and address `addrs[i]`.
pub open spec fn slot_scan_actions(
    key: (u16, u32, u32),
    count: u32,
    st: SlotScanState,
    keys: Seq<(u16, u32, u32)>,
    addrs: Seq<u32>,
    fuel: nat,
) -> Seq<SlotScanAction>
    decreases fuel,
{
    if fuel == 0 {
        Seq::empty()
    } else {
        match st {
            SlotScanState::Done { .. } => Seq::empty(),
            SlotScanState::Scanning { next } => {
                let k = keys[next as int];
                let r = slot_scan_next(key, count, st, SlotScanEvent::Key { id: k.0, src_ip: k.1, dst_ip: k.2 });
                seq![r.1] + slot_scan_actions(key, count, r.0, keys, addrs, (fuel - 1) as nat)
            },
            SlotScanState::Fetching { index } => {
                let r = slot_scan_next(key, count, st, SlotScanEvent::Address { addr: addrs[index as int] });
                seq![r.1] + slot_scan_actions(key, count, r.0, keys, addrs, (fuel - 1) as nat)
            },
        }
    }
}

/// Slot loads from `from` on, `n` of them.
pub open spec fn loads(from: int, n: nat) -> Seq<SlotScanAction> {
    Seq::new(n, |j: int| SlotScanAction::LoadSlot { index: (from + j) as u32 })
}

proof fn lemma_scan_hit(
    key: (u16, u32, u32),
    count: u32,
    keys: Seq<(u16, u32, u32)>,
    addrs: Seq<u32>,
    n: int,
    k: int,
    fuel: nat,
)
    requires
        0 <= n <= k < count,
        keys.len() >= count,
        addrs.len() >= count,
        fuel >= k - n + 2,
        keys[k] == key,
        forall|j: int| n <= j < k ==> keys[j] != key,
    ensures
        slot_scan_actions(key, count, SlotScanState::Scanning { next: n as u32 }, keys, addrs, fuel) == loads(n + 1,
            (k - n) as nat) + seq![SlotScanAction::FetchAddress { index: k as u32 }, SlotScanAction::Finish { result: addrs[k] }],
    decreases k - n,
{
    let st = SlotScanState::Scanning { next: n as u32 };
    let kn = keys[n];
    let r = slot_scan_next(key, count, st, SlotScanEvent::Key { id: kn.0, src_ip: kn.1, dst_ip: kn.2 });
    let f = (fuel - 1) as nat;
    let acts = slot_scan_actions(key, count, st, keys, addrs, fuel);
    assert(acts == seq![r.1] + slot_scan_actions(key, count, r.0, keys, addrs, f));
    let tail = seq![SlotScanAction::FetchAddress { index: k as u32 }, SlotScanAction::Finish { result: addrs[k] }];
    if n == k {
        let s1 = SlotScanState::Fetching { index: n as u32 };
        assert(r.0 == s1);
        let r2 = slot_scan_next(key, count, s1, SlotScanEvent::Address { addr: addrs[n] });
        assert(slot_scan_actions(key, count, s1, keys, addrs, f) == seq![r2.1] + slot_scan_actions(key, count, r2.0,
            keys, addrs, (f - 1) as nat));
        assert(slot_scan_actions(key, count, r2.0, keys, addrs, (f - 1) as nat) == Seq::<SlotScanAction>::empty());
        assert(acts =~= loads(n + 1, 0) + tail);
    } else {
        assert(keys[n] != key);
        lemma_scan_hit(key, count, keys, addrs, n + 1, k, f);
        assert(r.1 == SlotScanAction::LoadSlot { index: (n + 1) as u32 });
        assert(loads(n + 1, (k - n) as nat) =~= seq![SlotScanAction::LoadSlot { index: (n + 1) as u32 }] + loads(
            n + 2, (k - (n + 1)) as nat));
        assert(acts =~= loads(n + 1, (k - n) as nat) + tail);
    }
}

proof fn lemma_scan_miss(
    key: (u16, u32, u32),
    count: u32,
    keys: Seq<(u16, u32, u32)>,
    addrs: Seq<u32>,
    n: int,
    fuel: nat,
)
    requires
        0 <= n < count,
        keys.len() >= count,
        fuel >= count - n,
        forall|j: int| n <= j < count ==> keys[j] != key,
    ensures
        slot_scan_actions(key, count, SlotScanState::Scanning { next: n as u32 }, keys, addrs, fuel) == loads(n + 1,
            (count - 1 - n) as nat) + seq![SlotScanAction::Finish { result: u32::MAX }],
    decreases count - n,
{
    let st = SlotScanState::Scanning { next: n as u32 };
    let kn = keys[n];
    assert(kn != key);
    let r = slot_scan_next(key, count, st, SlotScanEvent::Key { id: kn.0, src_ip: kn.1, dst_ip: kn.2 });
    let f = (fuel - 1) as nat;
    let acts = slot_scan_actions(key, count, st, keys, addrs, fuel);
    assert(acts == seq![r.1] + slot_scan_actions(key, count, r.0, keys, addrs, f));
    let tail = seq![SlotScanAction::Finish { result: u32::MAX }];
    if n + 1 < count {
        lemma_scan_miss(key, count, keys, addrs, n + 1, f);
        assert(loads(n + 1, (count - 1 - n) as nat) =~= seq![SlotScanAction::LoadSlot { index: (n + 1) as u32 }]
            + loads(n + 2, (count - 1 - (n + 1)) as nat));
        assert(acts =~= loads(n + 1, (count - 1 - n) as nat) + tail);
    } else {
        assert(r.0 == SlotScanState::Done { result: u32::MAX });
        assert(slot_scan_actions(key, count, r.0, keys, addrs, f) == Seq::<SlotScanAction>::empty());
        assert(acts =~= loads(n + 1, 0) + tail);
    }
}

/// When slot `k` is the first whose key matches, a whole scan asks for slots
/// `0, 1, ..., k` in order, then for slot `k`'s address, once, and ends with it.
pub proof fn law_slot_scan_hit(key: (u16, u32, u32), count: u32, keys: Seq<(u16, u32, u32)>, addrs: Seq<u32>, k: int)
    requires
        keys.len() >= count,
        addrs.len() >= count,
        0 <= k < count,
        keys[k] == key,
        forall|j: int| 0 <= j < k ==> keys[j] != key,
    ensures
        seq![slot_scan_start(count).1] + slot_scan_actions(key, count, slot_scan_start(count).0, keys, addrs, count as nat
            + 2) == loads(0, (k + 1) as nat) + seq![
            SlotScanAction::FetchAddress { index: k as u32 },
            SlotScanAction::Finish { result: addrs[k] },
        ],
{
    lemma_scan_hit(key, count, keys, addrs, 0, k, count as nat + 2);
    assert(loads(0, (k + 1) as nat) =~= seq![SlotScanAction::LoadSlot { index: 0 }] + loads(1, k as nat));
}

/// When no slot's key matches, a whole scan asks for every slot `0 .. count`
/// in order, asks for no address, and ends with `u32::MAX`.
pub proof fn law_slot_scan_miss(key: (u16, u32, u32), count: u32, keys: Seq<(u16, u32, u32)>, addrs: Seq<u32>)
    requires
        keys.len() >= count,
        forall|j: int| 0 <= j < count ==> keys[j] != key,
    ensures
        seq![slot_scan_start(count).1] + slot_scan_actions(key, count, slot_scan_start(count).0, keys, addrs, count as nat
            + 2) == loads(0, count as nat) + seq![SlotScanAction::Finish { result: u32::MAX }],
{
    if count == 0 {
        assert(slot_scan_actions(key, count, slot_scan_start(count).0, keys, addrs, 2) == Seq::<SlotScanAction>::empty());
        assert(seq![slot_scan_start(count).1] + Seq::<SlotScanAction>::empty() =~= loads(0, 0) + seq![
            SlotScanAction::Finish { result: u32::MAX },
        ]);
    } else {
        lemma_scan_miss(key, count, keys, addrs, 0, count as nat + 2);
        assert(loads(0, count as nat) =~= seq![SlotScanAction::LoadSlot { index: 0 }] + loads(1, (count - 1) as nat));
    }
}

/// How many steps a scan in state `st` has left at most.
pub open spec fn slot_scan_left(count: u32, st: SlotScanState) -> int {
    match st {
        SlotScanState::Scanning { next } => 2 * (count - next) + 2,
        SlotScanState::Fetching { .. } => 1,
        SlotScanState::Done { .. } => 0,
    }
}

/// Scan slots `0 .. count` in order: the first whose `(id, src, dst)` equals the
/// key yields `slot_addr(i)`; a full miss yields `u32::MAX`. The slot TTL is not
/// consulted, so a zeroed slot matches a zero key. The calls are those of a
/// slot scan (see [`law_slot_scan_hit`] and [`law_slot_scan_miss`]): `load_slot` for `0, 1, ...` up to
/// the match, then `slot_addr` once for it.
///
/// The hooks are the caller's: the result is stated in terms of values they
/// may return (`call_ensures`).
pub fn ipv4_find_fragment_slot_from_keys(
    id: u16,
    src_ip: u32,
    dst_ip: u32,
    count: u32,
    load_slot: impl Fn(u32) -> (u16, u32, u32),
    slot_addr: impl Fn(u32) -> u32,
) -> (r: u32)
    requires
        forall|i: u32| i < count ==> #[trigger] call_requires(load_slot, (i,)),
        forall|i: u32| i < count ==> #[trigger] call_requires(slot_addr, (i,)),
    ensures
        (exists|i: u32| i < count && (forall|j: u32| j < i ==> #[trigger] slot_may_miss(load_slot, j, (id, src_ip, dst_ip)))
            && #[trigger] call_ensures(load_slot, (i,), (id, src_ip, dst_ip)) && call_ensures(slot_addr, (i,), r))
        || (r == u32::MAX && forall|i: u32| i < count ==> #[trigger] slot_may_miss(load_slot, i, (id, src_ip, dst_ip))),
{
    let ghost key = (id, src_ip, dst_ip);
    let (mut st, mut act) = slot_scan_begin(count);
    loop
        invariant
            key == (id, src_ip, dst_ip),
            forall|k: u32| k < count ==> #[trigger] call_requires(load_slot, (k,)),
            forall|k: u32| k < count ==> #[trigger] call_requires(slot_addr, (k,)),
            match st {
                SlotScanState::Scanning { next } => next < count && act == (SlotScanAction::LoadSlot { index: next })
                    && forall|j: u32| j < next ==> #[trigger] slot_may_miss(load_slot, j, key),
                SlotScanState::Fetching { index } => index < count && act == (SlotScanAction::FetchAddress { index })
                    && call_ensures(load_slot, (index,), key)
                    && forall|j: u32| j < index ==> #[trigger] slot_may_miss(load_slot, j, key),
                SlotScanState::Done { result } => act == (SlotScanAction::Finish { result }) && (
                    (exists|i: u32| i < count && (forall|j: u32| j < i ==> #[trigger] slot_may_miss(load_slot, j, key))
                        && #[trigger] call_ensures(load_slot, (i,), key) && call_ensures(slot_addr, (i,), result))
                    || (result == u32::MAX && forall|i: u32| i < count ==> #[trigger] slot_may_miss(load_slot, i, key))),
            },
        decreases slot_scan_left(count, st),
    {
        let ghost before = st;
        match act {
            SlotScanAction::LoadSlot { index } => {
                proof {
                    match st {
                        SlotScanState::Scanning { next } => {
                            assert(next == index);
                        },
                        SlotScanState::Fetching { .. } => {
                            assert(false);
                        },
                        SlotScanState::Done { .. } => {
                            assert(false);
                        },
                    }
                }
                let (k_id, k_src, k_dst) = load_slot(index);
                let ghost got = (k_id, k_src, k_dst);
                proof {
                    assert(call_ensures(load_slot, (index,), got));
                    if got != key {
                        assert(slot_may_miss(load_slot, index, key));
                    }
                    assert(forall|j: u32| j < index ==> #[trigger] slot_may_miss(load_slot, j, key));
                }
                let (s, a) = slot_scan_step(id, src_ip, dst_ip, count, st, SlotScanEvent::Key { id: k_id, src_ip: k_src, dst_ip: k_dst });
                proof {
                    if got == key {
                        assert(s == SlotScanState::Fetching { index });
                    } else if index + 1 < count {
                        assert(s == SlotScanState::Scanning { next: (index + 1) as u32 });
                        assert(a == SlotScanAction::LoadSlot { index: (index + 1) as u32 });
                        assert forall|j: u32| j < index + 1 implies #[trigger] slot_may_miss(load_slot, j, key) by {
                            if j < index {
                            } else {
                                assert(j == index);
                            }
                        }
                    } else {
                        assert(s == SlotScanState::Done { result: u32::MAX });
                        assert forall|i: u32| i < count implies #[trigger] slot_may_miss(load_slot, i, key) by {
                            if i < index {
                            } else {
                                assert(i == index);
                            }
                        }
                    }
                }
                st = s;
                act = a;
            },
            SlotScanAction::FetchAddress { index } => {
                proof {
                    match st {
                        SlotScanState::Fetching { index: i0 } => {
                            assert(i0 == index);
                        },
                        SlotScanState::Scanning { .. } => {
                            assert(false);
                        },
                        SlotScanState::Done { .. } => {
                            assert(false);
                        },
                    }
                }
                let addr = slot_addr(index);
                let (s, a) = slot_scan_step(id, src_ip, dst_ip, count, st, SlotScanEvent::Address { addr });
                st = s;
                act = a;
                proof {
                    assert(call_ensures(slot_addr, (index,), addr));
                }
            },
            SlotScanAction::Finish { result } => {
                proof {
                    match st {
                        SlotScanState::Done { result: r0 } => {
                            assert(r0 == result);
                            assert(key == (id, src_ip, dst_ip));
                        },
                        SlotScanState::Scanning { .. } => {
                            assert(false);
                        },
                        SlotScanState::Fetching { .. } => {
                            assert(false);
                        },
                    }
                }
                return result;
            },
        }
    }
}

/// Key of a header: Identification, SourceAddress, DestinationAddress.
pub open spec fn header_key(packet: Seq<u8>) -> (u16, u32, u32) {
    (le_u16(packet, 4), le_u32(packet, 12), le_u32(packet, 16))
}

/// Key stored in slot `i` of a slot table.
pub open spec fn slot_key(fragments: Seq<u8>, i: int) -> (u16, u32, u32) {
    (le_u16(fragments, i * 16 + 2), le_u32(fragments, i * 16 + 4), le_u32(fragments, i * 16 + 8))
}

/// Byte-buffer form: look the header's key up in `count` slots of `fragments`
/// and return `base + 16 * i` for the first match (modulo 2^32), `u32::MAX` on a miss.
pub fn ipv4_find_fragment_slot(packet: &[u8], fragments: &[u8], count: u32, base: u32) -> (r: u32)
    requires
        packet.len() >= 20,
        fragments.len() >= count as int * 16,
    ensures
        (exists|i: int| 0 <= i < count && slot_key(fragments@, i) == header_key(packet@)) ==>
            exists|i: int| 0 <= i < count && #[trigger] slot_key(fragments@, i) == header_key(packet@)
                && r == crate::wrap::mod32(base + 16 * i)
                && forall|j: int| 0 <= j < i ==> slot_key(fragments@, j) != header_key(packet@),
        (forall|i: int| 0 <= i < count ==> slot_key(fragments@, i) != header_key(packet@)) ==> r == u32::MAX,
{
    let id = read_u16_le(packet, OFF_HDR_IDENTIFICATION);
    let src_ip = read_u32_le(packet, OFF_HDR_SRC_IP);
    let dst_ip = read_u32_le(packet, OFF_HDR_DST_IP);
    let mut i: u32 = 0;
    while i < count
        invariant
            i <= count,
            fragments.len() >= count as int * 16,
            (id, src_ip, dst_ip) == header_key(packet@),
            forall|j: int| 0 <= j < i ==> slot_key(fragments@, j) != header_key(packet@),
        decreases count - i,
    {
        let off = (i as usize) * FRAGMENT_SLOT_SIZE;
        let slot_id = read_u16_le(fragments, off + OFF_SLOT_ID);
        let slot_src = read_u32_le(fragments, off + OFF_SLOT_SRC_IP);
        let slot_dst = read_u32_le(fragments, off + OFF_SLOT_DST_IP);
        if slot_id == id && slot_src == src_ip && slot_dst == dst_ip {
            let r = base.wrapping_add(i.wrapping_mul(FRAGMENT_SLOT_SIZE as u32));
            proof {
                crate::wrap::lemma_wmul32(i, 16);
                crate::wrap::lemma_wadd32(base, i.wrapping_mul(16));
                crate::wrap::lemma_mod32_add(base as int, i * 16);
                assert(slot_key(fragments@, i as int) == header_key(packet@));
            }
            return r;
        }
        assert(slot_key(fragments@, i as int) == (slot_id, slot_src, slot_dst));
        i = i + 1;
    }
    u32::MAX
}

} // verus!
