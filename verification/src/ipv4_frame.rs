//! The IPv4 packet that the output path emits: a 20-byte RFC 791 header
//! (no options) with its RFC 1071 checksum, carried in an Ethernet frame.

use vstd::prelude::*;
use vstd::slice::slice_subrange;
use crate::inet_csum::{
    csum_of, csum_total, rfc1071_checksum, lemma_csum_ignores_skipped, lemma_csum_words_bound,
    law_checksum_never_zero,
};
use crate::le::le_bytes32;

verus! {

/// Seed of the pseudo-random differential corpus (`'IPV4'`).
pub const IPV4_OUTPUT_ORACLE_PRNG_SEED: u32 = 0x4950_5634;

/// Largest payload the output path accepts.
pub const IPV4_OUTPUT_MAX_PAYLOAD: u32 = 65500;

/// Length of an IPv4 header without options.
pub const IPV4_HEADER_LEN: usize = 20;

/// Ethernet header length (destination 6 + source 6 + type 2).
pub const ETH_HEADER_LEN: usize = 14;

/// IPv4 EtherType.
pub const ETHERTYPE_IPV4: u16 = 0x0800;

/// Default socket TTL.
pub const DEFAULT_TTL: u8 = 128;

pub const IP_PROTO_ICMP: u8 = 1;

pub const IP_PROTO_TCP: u8 = 6;

pub const IP_PROTO_UDP: u8 = 17;

/// Version 4, IHL 5.
pub const VERSION_IHL_V4_20: u8 = 0x45;

/// Big-endian bytes of a 16-bit value.
pub open spec fn be16(v: u16) -> Seq<u8> {
    seq![(v / 0x100) as u8, (v % 0x100) as u8]
}

/// The header with its checksum field zero: version/IHL `0x45`, TOS 0,
/// total length (big-endian), identification 0, flags/fragment 0, TTL,
/// protocol, checksum 0, then source and destination as stored dwords.
pub open spec fn header_fields(ttl: u8, proto: u8, src: u32, dst: u32, total: u16) -> Seq<u8> {
    seq![VERSION_IHL_V4_20, 0u8] + be16(total) + seq![0u8, 0u8, 0u8, 0u8, ttl, proto, 0u8, 0u8]
        + le_bytes32(src) + le_bytes32(dst)
}

/// The RFC 1071 checksum of header bytes, the field at offset 10 read as zero.
pub open spec fn header_checksum(h: Seq<u8>) -> u16 {
    csum_of(csum_total(h, Some(10)))
}

/// The complete header: the fields with the checksum stored big-endian at 10.
pub open spec fn ipv4_header(ttl: u8, proto: u8, src: u32, dst: u32, total: u16) -> Seq<u8> {
    let f = header_fields(ttl, proto, src, dst, total);
    let c = header_checksum(f);
    f.update(10, (c / 0x100) as u8).update(11, (c % 0x100) as u8)
}

/// Header plus payload length, saturated at `0xFFFF`.
pub open spec fn saturated_total(payload_len: u32) -> u16 {
    if payload_len + 20 > 0xFFFF {
        0xFFFF
    } else {
        (payload_len + 20) as u16
    }
}

/// The checksum stored in a header, read big-endian.
pub open spec fn stored_checksum(h: Seq<u8>) -> int {
    h[10] as int * 0x100 + h[11] as int
}

/// A header whose IHL covers at least 20 bytes that are present, and whose
/// stored checksum is the RFC 1071 checksum of those IHL bytes.
pub open spec fn header_checksum_ok(h: Seq<u8>) -> bool {
    &&& h.len() >= 20
    &&& (h[0] % 16) * 4 >= 20
    &&& h.len() >= (h[0] % 16) * 4
    &&& header_checksum(h.subrange(0, (h[0] % 16) * 4)) as int == stored_checksum(h)
}

/// `p` cut or zero-extended to `n` bytes.
pub open spec fn resized(p: Seq<u8>, n: nat) -> Seq<u8> {
    if n <= p.len() {
        p.subrange(0, n as int)
    } else {
        p + Seq::new((n - p.len()) as nat, |i: int| 0u8)
    }
}

/// Why the output path gave up.
#[derive(Clone, Copy, Debug, PartialEq, Eq)]
pub enum Ipv4OutputError {
    TooLarge,
    NoRoute,
    ArpError,
    EthError,
}

/// What the output path is asked to send.
#[derive(Clone, Debug, PartialEq, Eq)]
pub struct Ipv4OutputRequest {
    /// Time to live.
    pub ttl: u8,
    /// IP protocol number.
    pub protocol: u8,
    /// Device handle, or 0 to let routing choose; carried through unread.
    pub device_ptr: u32,
    /// Payload length, not counting the header.
    pub payload_len: u32,
    /// Requested source address (0 lets routing fill it).
    pub source_ip: u32,
    /// Destination address.
    pub dest_ip: u32,
    /// Payload bytes the caller intends to send.
    pub payload: Vec<u8>,
}

/// Results of the routing, address-resolution and Ethernet steps.
#[derive(Clone, Copy, Debug, PartialEq, Eq)]
pub struct Ipv4OutputDeps {
    pub route_ok: bool,
    /// Source address chosen by routing.
    pub routed_source_ip: u32,
    /// Next hop chosen by routing (a gateway perhaps); the header keeps the
    /// original destination.
    pub routed_next_hop: u32,
    pub arp_ok: bool,
    pub dst_mac: [u8; 6],
    pub src_mac: [u8; 6],
    pub eth_ok: bool,
}

/// An Ethernet frame carrying an IPv4 packet.
#[derive(Clone, Debug, PartialEq, Eq)]
pub struct CapturedFrame {
    pub dst_mac: [u8; 6],
    pub src_mac: [u8; 6],
    pub ethertype: u16,
    /// Header followed by payload.
    pub ipv4: Vec<u8>,
    pub payload: Vec<u8>,
}

/// The bytes of a frame on the wire.
pub open spec fn frame_wire(f: CapturedFrame) -> Seq<u8> {
    f.dst_mac@ + f.src_mac@ + be16(f.ethertype) + f.ipv4@
}

impl CapturedFrame {
    /// Destination MAC, source MAC, big-endian EtherType, then the IPv4 bytes.
    pub fn wire_bytes(&self) -> (out: Vec<u8>)
        ensures
            out@ == frame_wire(*self),
    {
        let mut out: Vec<u8> = Vec::new();
        out.extend_from_slice(&self.dst_mac);
        out.extend_from_slice(&self.src_mac);
        out.push((self.ethertype / 0x100) as u8);
        out.push((self.ethertype % 0x100) as u8);
        out.extend_from_slice(self.ipv4.as_slice());
        assert(out@ =~= frame_wire(*self));
        out
    }
}

/// The header fields as an array, checksum field zero.
fn header_fields_array(ttl: u8, proto: u8, src: u32, dst: u32, total: u16) -> (h: [u8; IPV4_HEADER_LEN])
    ensures
        h@ == header_fields(ttl, proto, src, dst, total),
{
    let mut h = [0u8; IPV4_HEADER_LEN];
    h[0] = VERSION_IHL_V4_20;
    h[2] = (total / 0x100) as u8;
    h[3] = (total % 0x100) as u8;
    h[8] = ttl;
    h[9] = proto;
    h[12] = (src % 0x100) as u8;
    h[13] = ((src / 0x100) % 0x100) as u8;
    h[14] = ((src / 0x1_0000) % 0x100) as u8;
    h[15] = (src / 0x100_0000) as u8;
    h[16] = (dst % 0x100) as u8;
    h[17] = ((dst / 0x100) % 0x100) as u8;
    h[18] = ((dst / 0x1_0000) % 0x100) as u8;
    h[19] = (dst / 0x100_0000) as u8;
    assert(h@ =~= header_fields(ttl, proto, src, dst, total));
    h
}

/// A complete header for the given total length.
pub(crate) fn header_array(ttl: u8, proto: u8, src: u32, dst: u32, total: u16) -> (h: [u8; IPV4_HEADER_LEN])
    ensures
        h@ == ipv4_header(ttl, proto, src, dst, total),
{
    let mut h = header_fields_array(ttl, proto, src, dst, total);
    let csum = rfc1071_checksum(&h, Some(10));
    h[10] = (csum / 0x100) as u8;
    h[11] = (csum % 0x100) as u8;
    h
}

/// The RFC 791 header (20 bytes, no options) for a payload of `payload_len`
/// bytes; the total length saturates at `0xFFFF`.
pub fn build_ipv4_header(ttl: u8, protocol: u8, source_ip: u32, dest_ip: u32, payload_len: u32) -> (h: [u8; IPV4_HEADER_LEN])
    ensures
        h@ == ipv4_header(ttl, protocol, source_ip, dest_ip, saturated_total(payload_len)),
{
    let total: u16 = if payload_len > 0xFFFF - 20 {
        0xFFFF
    } else {
        (payload_len + 20) as u16
    };
    header_array(ttl, protocol, source_ip, dest_ip, total)
}

/// Whether the header's stored checksum agrees with RFC 1071 over its IHL bytes.
pub fn ipv4_header_checksum_ok(header: &[u8]) -> (ok: bool)
    ensures
        ok == header_checksum_ok(header@),
{
    if header.len() < IPV4_HEADER_LEN {
        return false;
    }
    let ihl = (header[0] % 16) as usize * 4;
    if ihl < IPV4_HEADER_LEN || header.len() < ihl {
        return false;
    }
    let c = rfc1071_checksum(slice_subrange(header, 0, ihl), Some(10));
    c as u32 == (header[10] as u32) * 0x100 + header[11] as u32
}

/// The frame the output path emits once routing, address resolution and the
/// Ethernet layer have succeeded.
pub open spec fn expected_frame(req: Ipv4OutputRequest, deps: Ipv4OutputDeps) -> (Seq<u8>, Seq<u8>) {
    let payload = resized(req.payload@, req.payload_len as nat);
    (ipv4_header(req.ttl, req.protocol, deps.routed_source_ip, req.dest_ip, saturated_total(req.payload_len)) + payload, payload)
}

/// The output path with its routing, address-resolution and Ethernet outcomes
/// given: the first failing step decides the error, in that order; on success
/// the header carries the routed source and the *original* destination, and
/// the payload is the request's bytes cut or zero-filled to `payload_len`.
pub fn ipv4_output_contract(req: &Ipv4OutputRequest, deps: Ipv4OutputDeps) -> (r: Result<CapturedFrame, Ipv4OutputError>)
    ensures
        req.payload_len > IPV4_OUTPUT_MAX_PAYLOAD ==> r == Err::<CapturedFrame, Ipv4OutputError>(Ipv4OutputError::TooLarge),
        req.payload_len <= IPV4_OUTPUT_MAX_PAYLOAD && !deps.route_ok ==> r == Err::<CapturedFrame, Ipv4OutputError>(Ipv4OutputError::NoRoute),
        req.payload_len <= IPV4_OUTPUT_MAX_PAYLOAD && deps.route_ok && !deps.arp_ok ==> r == Err::<CapturedFrame, Ipv4OutputError>(Ipv4OutputError::ArpError),
        req.payload_len <= IPV4_OUTPUT_MAX_PAYLOAD && deps.route_ok && deps.arp_ok && !deps.eth_ok ==> r == Err::<CapturedFrame, Ipv4OutputError>(Ipv4OutputError::EthError),
        req.payload_len <= IPV4_OUTPUT_MAX_PAYLOAD && deps.route_ok && deps.arp_ok && deps.eth_ok ==> match r {
            Ok(f) => {
                &&& f.dst_mac == deps.dst_mac
                &&& f.src_mac == deps.src_mac
                &&& f.ethertype == ETHERTYPE_IPV4
                &&& f.ipv4@ == expected_frame(*req, deps).0
                &&& f.payload@ == expected_frame(*req, deps).1
            },
            Err(_) => false,
        },
{
    if req.payload_len > IPV4_OUTPUT_MAX_PAYLOAD {
        return Err(Ipv4OutputError::TooLarge);
    }
    if !deps.route_ok {
        return Err(Ipv4OutputError::NoRoute);
    }
    if !deps.arp_ok {
        return Err(Ipv4OutputError::ArpError);
    }
    if !deps.eth_ok {
        return Err(Ipv4OutputError::EthError);
    }
    let mut payload: Vec<u8> = req.payload.clone();
    proof {
        assert(payload@ =~= req.payload@);
    }
    let ghost before = payload@;
    payload.resize(req.payload_len as usize, 0);
    proof {
        if (req.payload_len as nat) > before.len() {
            assert forall|i: int| 0 <= i < payload@.len() implies payload@[i] == resized(before, req.payload_len as nat)[i] by {
                if i < before.len() {
                    assert(payload@.subrange(0, before.len() as int)[i] == before[i]);
                }
            }
        }
        assert(payload@ =~= resized(req.payload@, req.payload_len as nat));
    }
    let ipv4 = build_ipv4_header(req.ttl, req.protocol, deps.routed_source_ip, req.dest_ip, req.payload_len);
    let mut ipv4_and_payload: Vec<u8> = Vec::new();
    ipv4_and_payload.extend_from_slice(&ipv4);
    ipv4_and_payload.extend_from_slice(payload.as_slice());
    proof {
        assert(ipv4_and_payload@ =~= expected_frame(*req, deps).0);
    }
    Ok(CapturedFrame {
        dst_mac: deps.dst_mac,
        src_mac: deps.src_mac,
        ethertype: ETHERTYPE_IPV4,
        ipv4: ipv4_and_payload,
        payload,
    })
}

/// Copies a frame's wire bytes into `buf` and returns their count.
pub fn capture_shim(frame: &CapturedFrame, buf: &mut Vec<u8>) -> (n: usize)
    ensures
        final(buf)@ == frame_wire(*frame),
        n == final(buf)@.len(),
{
    *buf = frame.wire_bytes();
    buf.len()
}

/// A header's stored checksum verifies under RFC 1071, whatever its fields.
pub proof fn law_header_checksum_verifies(ttl: u8, proto: u8, src: u32, dst: u32, total: u16)
    ensures
        header_checksum_ok(ipv4_header(ttl, proto, src, dst, total)),
{
    let f = header_fields(ttl, proto, src, dst, total);
    let h = ipv4_header(ttl, proto, src, dst, total);
    assert(f.len() == 20);
    assert(h[0] == 0x45u8);
    assert forall|i: int| 0 <= i < 20 && i != 10 && i != 10 + 1 implies h[i] == f[i] by {}
    lemma_csum_ignores_skipped(h, f, 10);
    assert(h.subrange(0, 20) =~= h);
    let c = header_checksum(f);
    assert((c / 0x100) as u8 as int * 0x100 + (c % 0x100) as u8 as int == c as int);
}

/// The stored header checksum is never zero (a computed zero is sent as `0xFFFF`).
pub proof fn law_header_checksum_nonzero(ttl: u8, proto: u8, src: u32, dst: u32, total: u16)
    ensures
        stored_checksum(ipv4_header(ttl, proto, src, dst, total)) != 0,
{
    let f = header_fields(ttl, proto, src, dst, total);
    let c = header_checksum(f);
    lemma_csum_words_bound(f, Some(10), 10);
    law_checksum_never_zero(csum_total(f, Some(10)));
    assert((c / 0x100) as u8 as int * 0x100 + (c % 0x100) as u8 as int == c as int);
}

} // verus!
