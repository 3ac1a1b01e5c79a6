use kolibri_utils::ipv4_frame::build_ipv4_header;
use kolibri_utils::ipv4_output::{
    ipv4_header_checksum, ipv4_output_begin, ipv4_output_step, write_ipv4_header, EthOut,
    Ipv4OutputAction, Ipv4OutputCtx, Ipv4OutputEvent, LoopOut, ETHER_PROTO_IPV4,
    IPV4_OUTPUT_MAX_PAYLOAD, IPV4_OUTPUT_PRNG_SEED,
};

#[test]
fn checksum_matches_oracle_and_live_udp() {
    let mut h = [0u8; 20];
    write_ipv4_header(&mut h, 128, 17, 0x0f02_000a, 0x0202_000a, 18);
    let o = build_ipv4_header(128, 17, 0x0f02_000a, 0x0202_000a, 18);
    assert_eq!(h, o);
    assert_eq!(&h[10..12], &0x22b7u16.to_be_bytes());
    assert_ne!(&h[10..12], &[0, 0]);
}

#[test]
fn checksum_never_zero_ttl_sweep() {
    for ttl in 0..=255u8 {
        let mut h = [0u8; 20];
        write_ipv4_header(&mut h, ttl, 1, 0, 0, 0);
        assert_ne!([h[10], h[11]], [0, 0], "ttl={ttl}");
        assert_eq!(h, build_ipv4_header(ttl, 1, 0, 0, 0));
    }
}

#[test]
fn checksum_payload_len_edges() {
    let mut h = [0u8; 20];
    write_ipv4_header(&mut h, 1, 0, 0, 0, 0);
    assert_eq!(u16::from_be_bytes([h[2], h[3]]), 20);
    write_ipv4_header(&mut h, 64, 17, 0x0100007f, 0x0100007f, IPV4_OUTPUT_MAX_PAYLOAD);
    assert_eq!(u16::from_be_bytes([h[2], h[3]]), (20 + IPV4_OUTPUT_MAX_PAYLOAD) as u16);
}

#[test]
fn header_checksum_of_written_header_and_wrapping_total() {
    let mut h = [0u8; 24];
    h[20..].copy_from_slice(&[9, 9, 9, 9]);
    write_ipv4_header(&mut h, 5, 6, 7, 8, 0xFFFF_FFF0);
    // 20 + 0xFFFF_FFF0 wraps to 4 in 32 bits.
    assert_eq!(u16::from_be_bytes([h[2], h[3]]), 4);
    assert_eq!(&h[20..], &[9, 9, 9, 9]);
    assert_eq!(ipv4_header_checksum(&h[..20]), u16::from_be_bytes([h[10], h[11]]));
    // Odd length: the trailing byte counts as the high byte of a last word.
    assert_eq!(ipv4_header_checksum(&[0x01]), 0xFEFF);
    assert_eq!(ipv4_header_checksum(&[]), 0xFFFF);
}

struct State {
    tx: [u32; 16],
    devices: [u32; 16],
    buf: [u8; 64],
    route_ok: bool,
    arp_ok: bool,
    eth_zf: bool,
    loopback: bool,
    loop_oom: bool,
    last_mac: [u8; 6],
    last_eth_total: u32,
    last_loop_total: u32,
    routed_src: u32,
    next_hop: u32,
}

const HEADER_AT: u32 = 0x1000;

/// Runs the verified decision core, doing the outside steps the way the
/// kernel callbacks would against `state`.
fn run(state: &mut State, ttl: u8, proto: u8, plen: u32, src: u32, dst: u32, device: u32) -> u32 {
    state.devices[1] = 0x0DEC_0DE0;
    let mut ctx = Ipv4OutputCtx {
        ttl_proto: u16::from(ttl) | (u16::from(proto) << 8),
        _pad: 0,
        device_in: device,
        payload_len: plen,
        source_in: src,
        dest_in: dst,
        route: 1,
        arp: 1,
        eth_out: 1,
        loop_out: 1,
        packets_tx: 0,
        net_devices: 0,
        out_device: 0,
        frame_size: 0,
        payload_ptr: 0,
    };
    let (mut st, mut ev) = ipv4_output_begin();
    loop {
        let (next_state, action) = ipv4_output_step(&mut ctx, st, ev);
        st = next_state;
        ev = match action {
            Ipv4OutputAction::Route { source, .. } => {
                if !state.route_ok {
                    Ipv4OutputEvent::Routed { next_hop: 0, source: 0, dev_idx4: 0 }
                } else {
                    let src_out = if source == 0 { state.routed_src } else { source };
                    let idx = if state.loopback { 0 } else { 4 };
                    Ipv4OutputEvent::Routed { next_hop: state.next_hop, source: src_out, dev_idx4: idx }
                }
            }
            Ipv4OutputAction::Arp { .. } => {
                if !state.arp_ok {
                    Ipv4OutputEvent::Resolved { eax: 0xffff_ffff, ebx: 0 }
                } else {
                    Ipv4OutputEvent::Resolved { eax: 0x0000_5452, ebx: 0x5634_1200 }
                }
            }
            Ipv4OutputAction::CountAndLoadDevice { dev_idx4 } => {
                let i = (dev_idx4 / 4) as usize;
                state.tx[i] = state.tx[i].wrapping_add(1);
                Ipv4OutputEvent::DeviceLoaded { device: state.devices[i] }
            }
            Ipv4OutputAction::CountAndLoop { total } => {
                state.tx[0] = state.tx[0].wrapping_add(1);
                state.last_loop_total = total;
                Ipv4OutputEvent::LoopDone {
                    lo: LoopOut {
                        buf: if state.loop_oom { 0 } else { 0xB100_0010 },
                        device: 0xB10C_B10C,
                        header: HEADER_AT,
                    },
                }
            }
            Ipv4OutputAction::Eth { proto, device, total, mac } => {
                assert_eq!(proto, ETHER_PROTO_IPV4);
                state.last_mac = mac;
                state.last_eth_total = total;
                Ipv4OutputEvent::EthDone {
                    eth: EthOut { buf: 0xB100_0001, device, frame_size: 60, header: HEADER_AT, zf: state.eth_zf },
                }
            }
            Ipv4OutputAction::Finish { ret, at, header } => {
                if at != 0 {
                    state.buf[..20].copy_from_slice(&header);
                }
                assert_eq!(ctx.payload_ptr, at.wrapping_add(20));
                return ret;
            }
            Ipv4OutputAction::Fail => {
                assert_eq!((ctx.out_device, ctx.frame_size, ctx.payload_ptr), (0, 0, 0));
                return 0;
            }
        };
    }
}

fn fresh() -> State {
    State {
        tx: [0; 16],
        devices: [0; 16],
        buf: [0; 64],
        route_ok: true,
        arp_ok: true,
        eth_zf: false,
        loopback: false,
        loop_oom: false,
        last_mac: [0; 6],
        last_eth_total: 0,
        last_loop_total: 0,
        routed_src: 0x0f02_000a,
        next_hop: 0x0202_000a,
    }
}

#[test]
fn too_large_no_callbacks_no_inc() {
    let mut s = fresh();
    let eax = run(&mut s, 128, 17, 65501, 0, 0x08080808, 0);
    assert_eq!(eax, 0);
    assert_eq!(s.tx, [0; 16]);
}

#[test]
fn no_route_no_inc() {
    let mut s = fresh();
    s.route_ok = false;
    let eax = run(&mut s, 128, 17, 8, 0, 0x08080808, 0);
    assert_eq!(eax, 0);
    assert_eq!(s.tx[1], 0);
}

#[test]
fn arp_fail_no_inc() {
    let mut s = fresh();
    s.arp_ok = false;
    let eax = run(&mut s, 128, 17, 8, 0, 0x08080808, 0);
    assert_eq!(eax, 0);
    assert_eq!(s.tx[1], 0);
}

#[test]
fn eth_zf_increments() {
    let mut s = fresh();
    s.eth_zf = true;
    let eax = run(&mut s, 128, 17, 8, 0, 0x08080808, 0);
    assert_eq!(eax, 0);
    assert_eq!(s.tx[1], 1);
}

#[test]
fn success_header_dest_is_original_not_nexthop() {
    let mut s = fresh();
    s.next_hop = 0x0100000a;
    let dst = 0x08080808;
    let eax = run(&mut s, 128, 17, 18, 0, dst, 0);
    assert_ne!(eax, 0);
    assert_eq!(s.tx[1], 1);
    assert_eq!(s.last_eth_total, 38);
    assert_eq!(s.last_mac, [0x52, 0x54, 0x00, 0x12, 0x34, 0x56]);
    let h = &s.buf[..20];
    assert_eq!(h[0], 0x45);
    assert_eq!(h[8], 128);
    assert_eq!(h[9], 17);
    assert_eq!(&h[12..16], &s.routed_src.to_le_bytes());
    assert_eq!(&h[16..20], &dst.to_le_bytes());
    assert_ne!(&h[16..20], &s.next_hop.to_le_bytes());
    let o = build_ipv4_header(128, 17, s.routed_src, dst, 18);
    assert_eq!(h, &o);
}

#[test]
fn loopback_incs_slot0_source_is_nexthop() {
    let mut s = fresh();
    s.loopback = true;
    s.next_hop = 0x0100007f;
    let eax = run(&mut s, 64, 1, 0, 0, 0x0100007f, 0);
    assert_ne!(eax, 0);
    assert_eq!(s.tx[0], 1);
    assert_eq!(s.tx[1], 0);
    assert_eq!(s.last_loop_total, 20);
    let h = &s.buf[..20];
    assert_eq!(&h[12..16], &s.next_hop.to_le_bytes());
    assert_eq!(&h[16..20], &0x0100007fu32.to_le_bytes());
}

#[test]
fn loopback_oom_continues_and_increments() {
    let mut s = fresh();
    s.loopback = true;
    s.loop_oom = true;
    s.next_hop = 0x0100007f;
    let eax = run(&mut s, 64, 1, 0, 0, 0x0100007f, 0);
    assert_eq!(eax, 0);
    assert_eq!(s.tx[0], 1);
    assert_eq!(s.buf[0], 0x45);
    assert_eq!(&s.buf[12..16], &s.next_hop.to_le_bytes());
}

#[test]
fn al_ah_ttl_not_protocol() {
    let mut s = fresh();
    let _ = run(&mut s, 7, 17, 8, 0, 0x08080808, 0);
    assert_eq!(s.buf[8], 7);
    assert_eq!(s.buf[9], 17);
}

fn xor32(state: &mut u32) -> u32 {
    let mut x = *state;
    x ^= x << 13;
    x ^= x >> 17;
    x ^= x << 5;
    *state = x;
    x
}

#[test]
fn prng_50k_matches_oracle_headers() {
    let mut state = IPV4_OUTPUT_PRNG_SEED;
    let mut next = || xor32(&mut state);
    for _ in 0..50_000u32 {
        let ttl = (next() & 0xff) as u8;
        let proto = (next() & 0xff) as u8;
        let plen = next() % 64;
        let src = next();
        let dst = next() | 1;
        if next() % 17 == 0 {
            let mut s = fresh();
            let eax = run(&mut s, ttl, proto, IPV4_OUTPUT_MAX_PAYLOAD + 1, src, dst, 0);
            assert_eq!(eax, 0);
            continue;
        }
        let mut s = fresh();
        s.routed_src = src;
        s.next_hop = dst;
        match next() % 20 {
            0 => s.route_ok = false,
            1 => s.arp_ok = false,
            2 => s.eth_zf = true,
            _ => {}
        }
        let eax = run(&mut s, ttl, proto, plen, src, dst, 0);
        if !s.route_ok || !s.arp_ok {
            assert_eq!(eax, 0);
            assert_eq!(s.tx[1], 0);
            continue;
        }
        if s.eth_zf {
            assert_eq!(eax, 0);
            assert_eq!(s.tx[1], 1);
            continue;
        }
        assert_ne!(eax, 0);
        let o = build_ipv4_header(ttl, proto, src, dst, plen);
        assert_eq!(&s.buf[..20], &o);
    }
}

#[test]
fn ctx_layout_i686() {
    assert_eq!(kolibri_utils::ipv4_output::IPV4_OUTPUT_CTX_SIZE, 56);
}
