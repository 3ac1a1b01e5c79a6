use kolibri_utils::ipv4_frame::{
    build_ipv4_header, capture_shim, ipv4_header_checksum_ok, ipv4_output_contract, CapturedFrame,
    Ipv4OutputDeps, Ipv4OutputError, Ipv4OutputRequest, DEFAULT_TTL, ETHERTYPE_IPV4,
    IPV4_HEADER_LEN, IPV4_OUTPUT_MAX_PAYLOAD, IPV4_OUTPUT_ORACLE_PRNG_SEED, IP_PROTO_ICMP,
    IP_PROTO_TCP, IP_PROTO_UDP,
};

fn xor32(state: &mut u32) -> u32 {
    let mut x = *state;
    x ^= x << 13;
    x ^= x >> 17;
    x ^= x << 5;
    *state = x;
    x
}

fn ok_deps(src: u32) -> Ipv4OutputDeps {
    Ipv4OutputDeps {
        route_ok: true,
        routed_source_ip: src,
        routed_next_hop: 0,
        arp_ok: true,
        dst_mac: [0x02, 0, 0, 0, 0, 0x02],
        src_mac: [0x52, 0x54, 0x00, 0x12, 0x34, 0x56],
        eth_ok: true,
    }
}

fn req(proto: u8, payload: &[u8], src: u32, dst: u32, ttl: u8) -> Ipv4OutputRequest {
    Ipv4OutputRequest {
        ttl,
        protocol: proto,
        device_ptr: 0,
        payload_len: payload.len() as u32,
        source_ip: src,
        dest_ip: dst,
        payload: payload.to_vec(),
    }
}

#[test]
fn rfc1071_zero_payload_udp_like() {
    let h = build_ipv4_header(64, IP_PROTO_UDP, 0x0a00_020f, 0x0a00_0202, 8);
    assert_eq!(h[0], 0x45);
    assert_eq!(h[9], IP_PROTO_UDP);
    assert!(ipv4_header_checksum_ok(&h));
    assert_eq!(u16::from_be_bytes([h[2], h[3]]), 28);
    assert_eq!(&h[4..8], &[0, 0, 0, 0]);
}

#[test]
fn checksum_known_edge_all_zero_addrs() {
    let h = build_ipv4_header(1, 0, 0, 0, 0);
    assert!(ipv4_header_checksum_ok(&h));
    let c = u16::from_be_bytes([h[10], h[11]]);
    assert_ne!(c, 0);
}

#[test]
fn checksum_never_stores_zero() {
    for ttl in 0..=255u8 {
        let h = build_ipv4_header(ttl, IP_PROTO_ICMP, 0, 0, 0);
        assert_ne!([h[10], h[11]], [0, 0], "ttl={ttl}");
        assert!(ipv4_header_checksum_ok(&h));
    }
}

#[test]
fn vector_udp_like_payload() {
    let payload = b"IPV4SOAK";
    let src = 0x0f02_000a;
    let dst = 0x0202_000a;
    let frame = ipv4_output_contract(&req(IP_PROTO_UDP, payload, src, dst, DEFAULT_TTL), ok_deps(src))
        .unwrap();
    assert_eq!(frame.ethertype, ETHERTYPE_IPV4);
    assert_eq!(frame.ipv4[9], IP_PROTO_UDP);
    assert_eq!(&frame.payload, payload);
    assert!(ipv4_header_checksum_ok(&frame.ipv4[..IPV4_HEADER_LEN]));
    assert_eq!(frame.ipv4.len(), IPV4_HEADER_LEN + payload.len());
}

#[test]
fn vector_tcp_protocol_field_only() {
    let frame = ipv4_output_contract(
        &req(IP_PROTO_TCP, b"ABCD", 0x0100007f, 0x0200007f, 64),
        ok_deps(0x0100007f),
    )
    .unwrap();
    assert_eq!(frame.ipv4[9], IP_PROTO_TCP);
    assert!(ipv4_header_checksum_ok(&frame.ipv4[..IPV4_HEADER_LEN]));
}

#[test]
fn vector_icmp_protocol_field() {
    let frame = ipv4_output_contract(
        &req(IP_PROTO_ICMP, &[8, 0, 0, 0], 0x0100007f, 0x0100007f, 128),
        ok_deps(0x0100007f),
    )
    .unwrap();
    assert_eq!(frame.ipv4[9], IP_PROTO_ICMP);
}

#[test]
fn vector_minimum_and_larger_payload() {
    let src = 0x0a000001u32;
    let min = ipv4_output_contract(&req(IP_PROTO_UDP, &[], src, 1, 1), ok_deps(src)).unwrap();
    assert_eq!(u16::from_be_bytes([min.ipv4[2], min.ipv4[3]]), 20);
    let big = vec![0x5au8; 1400];
    let large = ipv4_output_contract(&req(IP_PROTO_UDP, &big, src, 2, 64), ok_deps(src)).unwrap();
    assert_eq!(large.payload.len(), 1400);
    assert_eq!(u16::from_be_bytes([large.ipv4[2], large.ipv4[3]]), 1420);
}

#[test]
fn vector_ttl_and_id_variations() {
    for ttl in [1u8, 64, 128, 255] {
        let h = build_ipv4_header(ttl, 17, 1, 2, 4);
        assert_eq!(h[8], ttl);
        assert_eq!(&h[4..6], &[0, 0]);
        assert_eq!(&h[6..8], &[0, 0]);
    }
}

#[test]
fn too_large_and_dep_failures() {
    let src = 1u32;
    let mut r = req(IP_PROTO_UDP, &[], src, 2, 64);
    r.payload_len = 65501;
    assert_eq!(ipv4_output_contract(&r, ok_deps(src)).unwrap_err(), Ipv4OutputError::TooLarge);
    r.payload_len = 8;
    r.payload = vec![0; 8];
    let mut d = ok_deps(src);
    d.route_ok = false;
    assert_eq!(ipv4_output_contract(&r, d).unwrap_err(), Ipv4OutputError::NoRoute);
    d = ok_deps(src);
    d.arp_ok = false;
    assert_eq!(ipv4_output_contract(&r, d).unwrap_err(), Ipv4OutputError::ArpError);
    d = ok_deps(src);
    d.eth_ok = false;
    assert_eq!(ipv4_output_contract(&r, d).unwrap_err(), Ipv4OutputError::EthError);
}

#[test]
fn capture_shim_matches_independent_model() {
    let src = 0x0f02_000a;
    let frame =
        ipv4_output_contract(&req(IP_PROTO_UDP, b"PING", src, 0x0202_000a, 128), ok_deps(src)).unwrap();
    let mut buf = Vec::new();
    let n = capture_shim(&frame, &mut buf);
    assert_eq!(n, 14 + 20 + 4);
    assert_eq!(buf, frame.wire_bytes());
    assert_eq!(&buf[12..14], &ETHERTYPE_IPV4.to_be_bytes());
    assert!(ipv4_header_checksum_ok(&buf[14..34]));
}

#[test]
fn dest_header_uses_original_dest_not_gateway() {
    let mut d = ok_deps(0x0a000001);
    d.routed_next_hop = 0x0a0000fe;
    let frame = ipv4_output_contract(&req(IP_PROTO_UDP, b"x", 0x0a000001, 0x08080808, 64), d).unwrap();
    assert_eq!(&frame.ipv4[16..20], &0x08080808u32.to_le_bytes());
    assert_eq!(&frame.ipv4[12..16], &0x0a000001u32.to_le_bytes());
}

#[test]
fn prng_50k_header_checksum_and_contract() {
    let mut state = IPV4_OUTPUT_ORACLE_PRNG_SEED;
    let mut next = || xor32(&mut state);
    for i in 0..50_000u32 {
        let ttl = (next() & 0xff) as u8;
        let proto = match next() % 5 {
            0 => IP_PROTO_ICMP,
            1 => IP_PROTO_TCP,
            2 => IP_PROTO_UDP,
            3 => 89,
            _ => (next() & 0xff) as u8,
        };
        let payload_len = next() % 64;
        let src = next();
        let dst = next() | 1;
        if next() % 17 == 0 {
            let mut r = req(proto, &[], src, dst, ttl);
            r.payload_len = IPV4_OUTPUT_MAX_PAYLOAD + 1 + (next() % 8);
            assert_eq!(ipv4_output_contract(&r, ok_deps(src)).unwrap_err(), Ipv4OutputError::TooLarge);
            continue;
        }
        let payload: Vec<u8> = (0..payload_len).map(|_| (next() & 0xff) as u8).collect();
        let mut deps = ok_deps(src);
        match next() % 20 {
            0 => deps.route_ok = false,
            1 => deps.arp_ok = false,
            2 => deps.eth_ok = false,
            _ => {}
        }
        let r = req(proto, &payload, src, dst, ttl);
        match ipv4_output_contract(&r, deps) {
            Err(Ipv4OutputError::NoRoute) => assert!(!deps.route_ok),
            Err(Ipv4OutputError::ArpError) => assert!(!deps.arp_ok),
            Err(Ipv4OutputError::EthError) => assert!(!deps.eth_ok),
            Err(other) => panic!("case {i}: unexpected {other:?}"),
            Ok(frame) => {
                assert!(deps.route_ok && deps.arp_ok && deps.eth_ok);
                assert!(ipv4_header_checksum_ok(&frame.ipv4[..IPV4_HEADER_LEN]));
                assert_eq!(frame.ipv4[8], ttl);
                assert_eq!(frame.ipv4[9], proto);
                let mut buf = Vec::new();
                capture_shim(&frame, &mut buf);
                assert_eq!(buf, frame.wire_bytes());
                assert_eq!(
                    u16::from_be_bytes([frame.ipv4[2], frame.ipv4[3]]) as usize,
                    IPV4_HEADER_LEN + payload.len()
                );
            }
        }
    }
}

#[test]
fn short_payload_is_zero_filled_and_long_one_cut() {
    let mut r = req(IP_PROTO_UDP, b"AB", 1, 2, 64);
    r.payload_len = 5;
    let f = ipv4_output_contract(&r, ok_deps(1)).unwrap();
    assert_eq!(f.payload, vec![b'A', b'B', 0, 0, 0]);
    r.payload_len = 1;
    let f = ipv4_output_contract(&r, ok_deps(1)).unwrap();
    assert_eq!(f.payload, vec![b'A']);
    assert_eq!(&f.ipv4[20..], b"A");
}

#[test]
fn header_total_saturates_and_exact_checksum() {
    let h = build_ipv4_header(128, 17, 0x0f02_000a, 0x0202_000a, 18);
    assert_eq!(&h[10..12], &0x22b7u16.to_be_bytes());
    let h = build_ipv4_header(1, 2, 3, 4, u32::MAX);
    assert_eq!(u16::from_be_bytes([h[2], h[3]]), 0xFFFF);
    assert!(ipv4_header_checksum_ok(&h));
}

#[test]
fn checksum_ok_rejects_short_bad_ihl_and_tampering() {
    let mut h = build_ipv4_header(9, 6, 0x01020304, 0x05060708, 40);
    assert!(!ipv4_header_checksum_ok(&h[..19]));
    h[15] ^= 1;
    assert!(!ipv4_header_checksum_ok(&h));
    h[15] ^= 1;
    h[0] = 0x44;
    assert!(!ipv4_header_checksum_ok(&h));
    h[0] = 0x46;
    assert!(!ipv4_header_checksum_ok(&h));
}

#[test]
fn wire_bytes_layout() {
    let f = CapturedFrame {
        dst_mac: [1, 2, 3, 4, 5, 6],
        src_mac: [7, 8, 9, 10, 11, 12],
        ethertype: 0x1234,
        ipv4: vec![0xAA, 0xBB],
        payload: vec![],
    };
    assert_eq!(f.wire_bytes(), vec![1, 2, 3, 4, 5, 6, 7, 8, 9, 10, 11, 12, 0x12, 0x34, 0xAA, 0xBB]);
}
