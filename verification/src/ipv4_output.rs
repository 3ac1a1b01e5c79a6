//! IPv4 output: header composition and the decisions of the output path.
//!
//! Routing, address resolution, the Ethernet and loopback senders, the packet
//! counters and the device table live outside this library. The output path is
//! therefore a state machine: [`ipv4_output_step`] takes what the last outside
//! step produced and says what to do next, until it finishes.

use vstd::prelude::*;
use crate::inet_csum::{csum_of, csum_total, csum_words, csum_word, csum_tail, fold_and_complement, lemma_csum_words_bound};
use crate::ipv4_frame::{ipv4_header, header_array, saturated_total};
use crate::wrap::{mod32, mod16, lemma_wadd32, lemma_mod32_add};

verus! {

/// Seed of the pseudo-random differential corpus (`'IPV4'`).
pub const IPV4_OUTPUT_PRNG_SEED: u32 = 0x4950_5634;

/// Size of the kernel's context block (14 dwords).
pub const IPV4_OUTPUT_CTX_SIZE: usize = 56;

/// Largest payload the output path accepts.
pub const IPV4_OUTPUT_MAX_PAYLOAD: u32 = 65500;

/// Length of the IPv4 header written.
pub const IPV4_HEADER_LEN: u32 = 20;

/// IPv4 EtherType as the kernel holds it in a register (on the wire `08 00`).
pub const ETHER_PROTO_IPV4: u16 = 0x0008;

/// Address family handed to the loopback sender.
pub const AF_INET4: u32 = 2;

/// Version 4, IHL 5.
pub const VERSION_IHL_V4_20: u8 = 0x45;

/// The output path's register context: inputs, outside entry points, and the
/// three values it hands back.
#[derive(Clone, Copy, Debug, PartialEq, Eq)]
pub struct Ipv4OutputCtx {
    /// Low byte TTL, high byte protocol.
    pub ttl_proto: u16,
    pub _pad: u16,
    /// Device pointer, or 0.
    pub device_in: u32,
    /// Payload length (header not counted).
    pub payload_len: u32,
    /// Requested source address (0 lets routing fill it).
    pub source_in: u32,
    /// Original destination: the header's destination, not the next hop.
    pub dest_in: u32,
    /// Entry point of routing.
    pub route: u32,
    /// Entry point of address resolution.
    pub arp: u32,
    /// Entry point of the Ethernet sender.
    pub eth_out: u32,
    /// Entry point of the loopback sender.
    pub loop_out: u32,
    /// Base of the per-device transmit counters.
    pub packets_tx: u32,
    /// Base of the device table.
    pub net_devices: u32,
    /// Device used (output).
    pub out_device: u32,
    /// Frame size, or the routed source on loopback (output).
    pub frame_size: u32,
    /// Where the payload starts (output).
    pub payload_ptr: u32,
}

/// What the Ethernet sender returned.
#[derive(Clone, Copy, Debug, PartialEq, Eq)]
pub struct EthOut {
    pub buf: u32,
    pub device: u32,
    pub frame_size: u32,
    /// Address of the IPv4 header in the frame (0 for none).
    pub header: u32,
    /// Set when the sender failed.
    pub zf: bool,
}

/// What the loopback sender returned.
#[derive(Clone, Copy, Debug, PartialEq, Eq)]
pub struct LoopOut {
    pub buf: u32,
    pub device: u32,
    /// Address of the IPv4 header in the buffer (0 for none).
    pub header: u32,
}

/// Where the output path stands between two outside steps.
#[derive(Clone, Copy, Debug, PartialEq, Eq)]
pub enum Ipv4OutputState {
    /// Nothing done yet.
    Start,
    /// Routing was asked for.
    AwaitRoute,
    /// The loopback sender was asked for a buffer.
    AwaitLoop { next_hop: u32, routed_src: u32 },
    /// Address resolution was asked for.
    AwaitArp { routed_src: u32, dev_idx4: u32 },
    /// The device entry was asked for.
    AwaitDevice { routed_src: u32, mac: [u8; 6] },
    /// The Ethernet sender was asked for a frame.
    AwaitEth { routed_src: u32 },
    /// Finished.
    Done,
}

/// What an outside step produced.
#[derive(Clone, Copy, Debug, PartialEq, Eq)]
pub enum Ipv4OutputEvent {
    /// The driver starts the path.
    Begin,
    /// Routing answered: next hop (0 for none), source, device index × 4.
    Routed { next_hop: u32, source: u32, dev_idx4: u32 },
    /// Address resolution answered (`eax` high half non-zero on failure).
    Resolved { eax: u32, ebx: u32 },
    /// The device table entry was read.
    DeviceLoaded { device: u32 },
    /// The Ethernet sender answered.
    EthDone { eth: EthOut },
    /// The loopback sender answered.
    LoopDone { lo: LoopOut },
}

/// What the driver must do next.
#[derive(Clone, Copy, Debug, PartialEq, Eq)]
pub enum Ipv4OutputAction {
    /// Call routing.
    Route { dest: u32, device: u32, source: u32 },
    /// Call address resolution for the next hop.
    Arp { ip: u32, dev_idx4: u32 },
    /// Count one transmitted packet at `dev_idx4`, then read the device entry there.
    CountAndLoadDevice { dev_idx4: u32 },
    /// Count one transmitted packet at slot 0, then call the loopback sender.
    CountAndLoop { total: u32 },
    /// Call the Ethernet sender.
    Eth { proto: u16, device: u32, total: u32, mac: [u8; 6] },
    /// Write `header` at address `at` (when `at` is non-zero) and return `ret`.
    Finish { ret: u32, at: u32, header: [u8; 20] },
    /// Return 0.
    Fail,
}

/// Whether `event` is the kind of answer `state` waits for.
pub open spec fn event_fits(state: Ipv4OutputState, event: Ipv4OutputEvent) -> bool {
    match state {
        Ipv4OutputState::Start => event is Begin,
        Ipv4OutputState::AwaitRoute => event is Routed,
        Ipv4OutputState::AwaitLoop { .. } => event is LoopDone,
        Ipv4OutputState::AwaitArp { .. } => event is Resolved,
        Ipv4OutputState::AwaitDevice { .. } => event is DeviceLoaded,
        Ipv4OutputState::AwaitEth { .. } => event is EthDone,
        Ipv4OutputState::Done => false,
    }
}

/// The header as the output path writes it: total length `20 + payload_len`
/// truncated to 16 bits.
pub open spec fn output_header(ttl: u8, proto: u8, src: u32, dst: u32, payload_len: u32) -> Seq<u8> {
    ipv4_header(ttl, proto, src, dst, mod16(mod32(20 + payload_len) as int))
}

/// The context with its three outputs cleared.
pub open spec fn failed_ctx(c: Ipv4OutputCtx) -> Ipv4OutputCtx {
    Ipv4OutputCtx { out_device: 0, frame_size: 0, payload_ptr: 0, ..c }
}

/// The hardware address from the resolver's registers: two bytes of `eax`,
/// then the four bytes of `ebx`, low first.
pub open spec fn arp_mac(eax: u32, ebx: u32) -> [u8; 6] {
    [(eax % 0x100) as u8, ((eax / 0x100) % 0x100) as u8, (ebx % 0x100) as u8,
     ((ebx / 0x100) % 0x100) as u8, ((ebx / 0x1_0000) % 0x100) as u8, (ebx / 0x100_0000) as u8]
}

/// The RFC 1071 checksum of an IPv4 header, the checksum field (offset 10)
/// read as zero, summed with 32-bit wrap-around.
pub fn ipv4_header_checksum(header: &[u8]) -> (c: u16)
    ensures
        c == csum_of(mod32(csum_total(header@, Some(10))) as int),
{
    let ghost skip = Some(10int);
    let mut sum: u32 = 0;
    let mut i: usize = 0;
    while i + 1 < header.len()
        invariant
            i % 2 == 0,
            i <= header.len(),
            i + 1 >= header.len() ==> i == 2 * (header.len() / 2) || i == header.len(),
            sum == mod32(csum_words(header@, skip, (i / 2) as nat)),
            skip == Some(10int),
        decreases header.len() - i,
    {
        let hi: u8 = if i == 10 { 0 } else { header[i] };
        let lo: u8 = if i == 10 { 0 } else { header[i + 1] };
        let w: u32 = ((hi as u32) * 256) + (lo as u32);
        proof {
            assert(2 * (i as int / 2) == i);
            assert(csum_words(header@, skip, (i / 2 + 1) as nat)
                == csum_words(header@, skip, (i / 2) as nat) + csum_word(header@, skip, i as int / 2));
            assert(w == csum_word(header@, skip, i as int / 2));
            lemma_wadd32(sum, w);
            lemma_mod32_add(csum_words(header@, skip, (i / 2) as nat), w as int);
        }
        sum = sum.wrapping_add(w);
        i = i + 2;
    }
    proof {
        assert(i / 2 == header.len() / 2);
    }
    if i < header.len() {
        let b: u8 = if i == 10 { 0 } else { header[i] };
        let t: u32 = (b as u32) * 256;
        assert(i == header.len() - 1);
        proof {
            lemma_wadd32(sum, t);
            lemma_mod32_add(csum_words(header@, skip, (header.len() / 2) as nat), t as int);
            assert(t as int == csum_tail(header@, skip));
        }
        sum = sum.wrapping_add(t);
    } else {
        proof {
            assert(csum_tail(header@, skip) == 0);
        }
    }
    fold_and_complement(sum)
}

/// Write the 20-byte header at the start of `dst`; the total length field is
/// `20 + payload_len` truncated to 16 bits. Bytes past the header are untouched.
pub fn write_ipv4_header(dst: &mut [u8], ttl: u8, proto: u8, src: u32, dest: u32, payload_len: u32)
    requires
        old(dst)@.len() >= 20,
    ensures
        final(dst)@.len() == old(dst)@.len(),
        final(dst)@.subrange(0, 20) == output_header(ttl, proto, src, dest, payload_len),
        forall|i: int| 20 <= i < old(dst)@.len() ==> final(dst)@[i] == old(dst)@[i],
{
    let total: u16 = (IPV4_HEADER_LEN.wrapping_add(payload_len) % 0x1_0000) as u16;
    proof {
        lemma_wadd32(IPV4_HEADER_LEN, payload_len);
    }
    let h = header_array(ttl, proto, src, dest, total);
    let mut k: usize = 0;
    while k < 20
        invariant
            k <= 20,
            old(dst)@.len() >= 20,
            dst@.len() == old(dst)@.len(),
            forall|j: int| 0 <= j < k ==> dst@[j] == h@[j],
            forall|j: int| 20 <= j < old(dst)@.len() ==> dst@[j] == old(dst)@[j],
        decreases 20 - k,
    {
        dst[k] = h[k];
        k = k + 1;
    }
    assert(dst@.subrange(0, 20) =~= h@);
}

/// One decision of the output path. `ctx` is the context the path was started
/// with; its three outputs are written when the path finishes.
///
/// * `Start`: a payload over [`IPV4_OUTPUT_MAX_PAYLOAD`] fails; else route
///   the original destination from the given device and source.
/// * `AwaitRoute`: no next hop fails; device index 0 means loopback: count at
///   slot 0 and ask the loopback sender; else resolve the next hop.
/// * `AwaitArp`: a non-zero high half of `eax` fails; else count at the
///   device index and read the device entry.
/// * `AwaitDevice`: ask the Ethernet sender for `20 + payload_len` bytes.
/// * `AwaitEth`: a set `zf` fails; else finish with the routed source in the
///   header.
/// * `AwaitLoop`: finish (even without a buffer) with the next hop as the
///   header's source and the routed source as the frame size output.
///
/// Failing clears the three outputs and returns 0. Finishing writes the header
/// (destination: the original one) and sets the payload pointer 20 bytes past it.
pub fn ipv4_output_step(ctx: &mut Ipv4OutputCtx, state: Ipv4OutputState, event: Ipv4OutputEvent) -> (res: (Ipv4OutputState, Ipv4OutputAction))
    requires
        event_fits(state, event),
    ensures
        ({
            let c = *old(ctx);
            let ttl = (c.ttl_proto % 0x100) as u8;
            let proto = (c.ttl_proto / 0x100) as u8;
            let total = mod32(c.payload_len + 20);
            match (state, event) {
                (Ipv4OutputState::Start, _) => if c.payload_len > IPV4_OUTPUT_MAX_PAYLOAD {
                    *final(ctx) == failed_ctx(c) && res == (Ipv4OutputState::Done, Ipv4OutputAction::Fail)
                } else {
                    *final(ctx) == c && res == (Ipv4OutputState::AwaitRoute,
                        Ipv4OutputAction::Route { dest: c.dest_in, device: c.device_in, source: c.source_in })
                },
                (Ipv4OutputState::AwaitRoute, Ipv4OutputEvent::Routed { next_hop, source, dev_idx4 }) => if next_hop == 0 {
                    *final(ctx) == failed_ctx(c) && res == (Ipv4OutputState::Done, Ipv4OutputAction::Fail)
                } else if dev_idx4 == 0 {
                    *final(ctx) == c && res == (Ipv4OutputState::AwaitLoop { next_hop, routed_src: source },
                        Ipv4OutputAction::CountAndLoop { total })
                } else {
                    *final(ctx) == c && res == (Ipv4OutputState::AwaitArp { routed_src: source, dev_idx4 },
                        Ipv4OutputAction::Arp { ip: next_hop, dev_idx4 })
                },
                (Ipv4OutputState::AwaitArp { routed_src, dev_idx4 }, Ipv4OutputEvent::Resolved { eax, ebx }) => if eax >= 0x1_0000 {
                    *final(ctx) == failed_ctx(c) && res == (Ipv4OutputState::Done, Ipv4OutputAction::Fail)
                } else {
                    *final(ctx) == c && res == (Ipv4OutputState::AwaitDevice { routed_src, mac: arp_mac(eax, ebx) },
                        Ipv4OutputAction::CountAndLoadDevice { dev_idx4 })
                },
                (Ipv4OutputState::AwaitDevice { routed_src, mac }, Ipv4OutputEvent::DeviceLoaded { device }) => {
                    *final(ctx) == c && res == (Ipv4OutputState::AwaitEth { routed_src },
                        Ipv4OutputAction::Eth { proto: ETHER_PROTO_IPV4, device, total, mac })
                },
                (Ipv4OutputState::AwaitEth { routed_src }, Ipv4OutputEvent::EthDone { eth: out }) => if out.zf {
                    *final(ctx) == failed_ctx(c) && res == (Ipv4OutputState::Done, Ipv4OutputAction::Fail)
                } else {
                    &&& *final(ctx) == (Ipv4OutputCtx { out_device: out.device, frame_size: out.frame_size,
                        payload_ptr: mod32(out.header + 20), ..c })
                    &&& res.0 == Ipv4OutputState::Done
                    &&& res.1 matches Ipv4OutputAction::Finish { ret, at, header }
                    &&& ret == out.buf && at == out.header
                    &&& header@ == output_header(ttl, proto, routed_src, c.dest_in, c.payload_len)
                },
                (Ipv4OutputState::AwaitLoop { next_hop, routed_src }, Ipv4OutputEvent::LoopDone { lo: out }) => {
                    &&& *final(ctx) == (Ipv4OutputCtx { out_device: out.device, frame_size: routed_src,
                        payload_ptr: mod32(out.header + 20), ..c })
                    &&& res.0 == Ipv4OutputState::Done
                    &&& res.1 matches Ipv4OutputAction::Finish { ret, at, header }
                    &&& ret == out.buf && at == out.header
                    &&& header@ == output_header(ttl, proto, next_hop, c.dest_in, c.payload_len)
                },
                _ => false,
            }
        }),
{
    let ttl = (ctx.ttl_proto % 0x100) as u8;
    let proto = (ctx.ttl_proto / 0x100) as u8;
    let total = ctx.payload_len.wrapping_add(IPV4_HEADER_LEN);
    proof {
        lemma_wadd32(ctx.payload_len, IPV4_HEADER_LEN);
    }
    match state {
        Ipv4OutputState::Start => {
            if ctx.payload_len > IPV4_OUTPUT_MAX_PAYLOAD {
                fail(ctx)
            } else {
                (Ipv4OutputState::AwaitRoute,
                 Ipv4OutputAction::Route { dest: ctx.dest_in, device: ctx.device_in, source: ctx.source_in })
            }
        },
        Ipv4OutputState::AwaitRoute => {
            match event {
                Ipv4OutputEvent::Routed { next_hop, source, dev_idx4 } => {
                    if next_hop == 0 {
                        fail(ctx)
                    } else if dev_idx4 == 0 {
                        (Ipv4OutputState::AwaitLoop { next_hop, routed_src: source },
                         Ipv4OutputAction::CountAndLoop { total })
                    } else {
                        (Ipv4OutputState::AwaitArp { routed_src: source, dev_idx4 },
                         Ipv4OutputAction::Arp { ip: next_hop, dev_idx4 })
                    }
                },
                _ => fail(ctx),
            }
        },
        Ipv4OutputState::AwaitArp { routed_src, dev_idx4 } => {
            match event {
                Ipv4OutputEvent::Resolved { eax, ebx } => {
                    if eax >= 0x1_0000 {
                        fail(ctx)
                    } else {
                        let mac: [u8; 6] = [(eax % 0x100) as u8, ((eax / 0x100) % 0x100) as u8,
                            (ebx % 0x100) as u8, ((ebx / 0x100) % 0x100) as u8,
                            ((ebx / 0x1_0000) % 0x100) as u8, (ebx / 0x100_0000) as u8];
                        (Ipv4OutputState::AwaitDevice { routed_src, mac },
                         Ipv4OutputAction::CountAndLoadDevice { dev_idx4 })
                    }
                },
                _ => fail(ctx),
            }
        },
        Ipv4OutputState::AwaitDevice { routed_src, mac } => {
            match event {
                Ipv4OutputEvent::DeviceLoaded { device } => {
                    (Ipv4OutputState::AwaitEth { routed_src },
                     Ipv4OutputAction::Eth { proto: ETHER_PROTO_IPV4, device, total, mac })
                },
                _ => fail(ctx),
            }
        },
        Ipv4OutputState::AwaitEth { routed_src } => {
            match event {
                Ipv4OutputEvent::EthDone { eth: out } => {
                    if out.zf {
                        fail(ctx)
                    } else {
                        let header = header_bytes(ttl, proto, routed_src, ctx.dest_in, ctx.payload_len);
                        ctx.out_device = out.device;
                        ctx.frame_size = out.frame_size;
                        ctx.payload_ptr = out.header.wrapping_add(IPV4_HEADER_LEN);
                        proof {
                            lemma_wadd32(out.header, IPV4_HEADER_LEN);
                        }
                        (Ipv4OutputState::Done, Ipv4OutputAction::Finish { ret: out.buf, at: out.header, header })
                    }
                },
                _ => fail(ctx),
            }
        },
        Ipv4OutputState::AwaitLoop { next_hop, routed_src } => {
            match event {
                Ipv4OutputEvent::LoopDone { lo: out } => {
                    let header = header_bytes(ttl, proto, next_hop, ctx.dest_in, ctx.payload_len);
                    ctx.out_device = out.device;
                    ctx.frame_size = routed_src;
                    ctx.payload_ptr = out.header.wrapping_add(IPV4_HEADER_LEN);
                    proof {
                        lemma_wadd32(out.header, IPV4_HEADER_LEN);
                    }
                    (Ipv4OutputState::Done, Ipv4OutputAction::Finish { ret: out.buf, at: out.header, header })
                },
                _ => fail(ctx),
            }
        },
        Ipv4OutputState::Done => fail(ctx),
    }
}

/// The header bytes the path writes.
fn header_bytes(ttl: u8, proto: u8, src: u32, dest: u32, payload_len: u32) -> (h: [u8; 20])
    ensures
        h@ == output_header(ttl, proto, src, dest, payload_len),
{
    let total: u16 = (IPV4_HEADER_LEN.wrapping_add(payload_len) % 0x1_0000) as u16;
    proof {
        lemma_wadd32(IPV4_HEADER_LEN, payload_len);
    }
    header_array(ttl, proto, src, dest, total)
}

/// Clear the outputs and end the path.
fn fail(ctx: &mut Ipv4OutputCtx) -> (res: (Ipv4OutputState, Ipv4OutputAction))
    ensures
        *final(ctx) == failed_ctx(*old(ctx)),
        res == (Ipv4OutputState::Done, Ipv4OutputAction::Fail),
{
    ctx.out_device = 0;
    ctx.frame_size = 0;
    ctx.payload_ptr = 0;
    (Ipv4OutputState::Done, Ipv4OutputAction::Fail)
}

/// The start of the output path.
pub fn ipv4_output_begin() -> (res: (Ipv4OutputState, Ipv4OutputEvent))
    ensures
        res == (Ipv4OutputState::Start, Ipv4OutputEvent::Begin),
{
    (Ipv4OutputState::Start, Ipv4OutputEvent::Begin)
}

/// For a header that fits (`20 + payload_len <= 0xFFFF`), the header the
/// output path writes is the one the packet model builds.
pub proof fn law_write_matches_build(ttl: u8, proto: u8, src: u32, dst: u32, payload_len: u32)
    requires
        payload_len + 20 <= 0xFFFF,
    ensures
        output_header(ttl, proto, src, dst, payload_len)
            == ipv4_header(ttl, proto, src, dst, saturated_total(payload_len)),
{
}

/// Over a buffer short enough that the 32-bit sum cannot wrap, the header
/// checksum is the packet model's RFC 1071 checksum with the field at 10 skipped.
pub proof fn law_header_checksum_agrees(data: Seq<u8>)
    requires
        data.len() <= 131074,
    ensures
        csum_of(mod32(csum_total(data, Some(10))) as int) == csum_of(csum_total(data, Some(10))),
{
    lemma_csum_words_bound(data, Some(10), (data.len() / 2) as nat);
    assert(csum_total(data, Some(10)) < 0x1_0000_0000) by (nonlinear_arith)
        requires
            csum_words(data, Some(10), (data.len() / 2) as nat) <= (data.len() / 2) as nat * 0xFFFF,
            csum_tail(data, Some(10)) <= 0xFF00,
            csum_tail(data, Some(10)) > 0 ==> data.len() % 2 == 1,
            data.len() <= 131074,
            csum_total(data, Some(10)) == csum_words(data, Some(10), (data.len() / 2) as nat) + csum_tail(data, Some(10));
}

} // verus!
