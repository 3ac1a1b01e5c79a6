use kolibri_utils::ipv4_frag::{slot_scan_begin, slot_scan_step, SlotScanAction, SlotScanEvent};
use kolibri_utils::ipv4_frag::{
    ipv4_find_fragment_slot, ipv4_find_fragment_slot_from_keys, FRAGMENT_SLOT_SIZE,
    IPV4_FIND_FRAGMENT_SLOT_PRNG_SEED,
};

/// Independent model of the kernel scan loop.
fn oracle(id: u16, src_ip: u32, dst_ip: u32, slots: &[(u16, u32, u32)], base: u32) -> u32 {
    let mut esi = base;
    let mut ecx = slots.len() as u32;
    let mut idx = 0usize;
    if ecx == 0 {
        return u32::MAX;
    }
    loop {
        let (sid, ssrc, sdst) = slots[idx];
        if sid == id && ssrc == src_ip && sdst == dst_ip {
            return esi;
        }
        esi = esi.wrapping_add(FRAGMENT_SLOT_SIZE as u32);
        idx += 1;
        ecx -= 1;
        if ecx == 0 {
            break;
        }
    }
    u32::MAX
}

fn run_vs_oracle(id: u16, src: u32, dst: u32, slots: &[(u16, u32, u32)], base: u32) {
    let got = ipv4_find_fragment_slot_from_keys(
        id,
        src,
        dst,
        slots.len() as u32,
        |i| slots[i as usize],
        |i| base.wrapping_add(i.wrapping_mul(FRAGMENT_SLOT_SIZE as u32)),
    );
    let exp = oracle(id, src, dst, slots, base);
    assert_eq!(got, exp, "mismatch id={id:#x} src={src:#x} dst={dst:#x} got={got:#x} exp={exp:#x}");
    // The byte-table form agrees with the key form.
    let mut table = vec![0u8; slots.len() * 16];
    for (i, (sid, ssrc, sdst)) in slots.iter().enumerate() {
        table[i * 16 + 2..i * 16 + 4].copy_from_slice(&sid.to_le_bytes());
        table[i * 16 + 4..i * 16 + 8].copy_from_slice(&ssrc.to_le_bytes());
        table[i * 16 + 8..i * 16 + 12].copy_from_slice(&sdst.to_le_bytes());
    }
    let mut hdr = [0u8; 20];
    hdr[4..6].copy_from_slice(&id.to_le_bytes());
    hdr[12..16].copy_from_slice(&src.to_le_bytes());
    hdr[16..20].copy_from_slice(&dst.to_le_bytes());
    assert_eq!(ipv4_find_fragment_slot(&hdr, &table, slots.len() as u32, base), exp);
}

#[test]
fn empty_table_miss() {
    let slots: [(u16, u32, u32); 0] = [];
    run_vs_oracle(1, 2, 3, &slots, 0x1000);
    assert_eq!(ipv4_find_fragment_slot_from_keys(1, 2, 3, 0, |_| (0, 0, 0), |_| 0), u32::MAX);
}

#[test]
fn miss_populated() {
    let slots = [(0x1111, 0x0a00_0001, 0x0a00_0002), (0x2222, 1, 2)];
    run_vs_oracle(0x3333, 1, 2, &slots, 0x2000);
}

#[test]
fn hit_first_middle_last() {
    let slots = [(0x10, 0xA, 0xB), (0x20, 0xC, 0xD), (0x30, 0xE, 0xF)];
    let base = 0x3000;
    run_vs_oracle(0x10, 0xA, 0xB, &slots, base);
    run_vs_oracle(0x20, 0xC, 0xD, &slots, base);
    run_vs_oracle(0x30, 0xE, 0xF, &slots, base);
    assert_eq!(
        ipv4_find_fragment_slot_from_keys(0x20, 0xC, 0xD, 3, |i| slots[i as usize], |i| base + i * 16),
        base + 16
    );
}

#[test]
fn first_match_wins_on_duplicates() {
    let slots = [(0x55, 1, 2), (0x55, 1, 2), (0x55, 1, 2)];
    run_vs_oracle(0x55, 1, 2, &slots, 0x4000);
    assert_eq!(
        ipv4_find_fragment_slot_from_keys(0x55, 1, 2, 3, |i| slots[i as usize], |i| 0x4000 + i * 16),
        0x4000
    );
}

#[test]
fn partial_key_miss() {
    let slots = [(0x99, 0x1111_1111, 0x2222_2222)];
    run_vs_oracle(0x99, 0, 0, &slots, 0x5000);
    run_vs_oracle(0, 0x1111_1111, 0, &slots, 0x5000);
    run_vs_oracle(0, 0, 0x2222_2222, &slots, 0x5000);
}

#[test]
fn zeroed_empty_slot_matches_zero_packet_quirk() {
    let slots = [(0, 0, 0), (0x11, 1, 2)];
    run_vs_oracle(0, 0, 0, &slots, 0x6000);
    assert_eq!(
        ipv4_find_fragment_slot_from_keys(0, 0, 0, 2, |i| slots[i as usize], |i| 0x6000 + i * 16),
        0x6000
    );
}

#[test]
fn pointer_form_matches_keys() {
    let mut table = [0u8; 48];
    table[2] = 0xCD;
    table[3] = 0xAB;
    table[4..8].copy_from_slice(&0x0102_0304u32.to_le_bytes());
    table[8..12].copy_from_slice(&0x0506_0708u32.to_le_bytes());
    table[16 + 2] = 0x11;
    table[16 + 3] = 0x22;
    table[16 + 4..16 + 8].copy_from_slice(&0xAAAAu32.to_le_bytes());
    table[16 + 8..16 + 12].copy_from_slice(&0xBBBBu32.to_le_bytes());

    let mut hdr = [0u8; 20];
    hdr[4] = 0xCD;
    hdr[5] = 0xAB;
    hdr[12..16].copy_from_slice(&0x0102_0304u32.to_le_bytes());
    hdr[16..20].copy_from_slice(&0x0506_0708u32.to_le_bytes());

    let base = 0x0040_0000u32;
    assert_eq!(ipv4_find_fragment_slot(&hdr, &table, 3, base), base);
    hdr[4] = 0x00;
    hdr[5] = 0x00;
    assert_eq!(ipv4_find_fragment_slot(&hdr, &table, 3, base), u32::MAX);
}

#[test]
fn slot_address_wraps_modulo_2_32() {
    let slots = [(1, 1, 1), (2, 2, 2)];
    run_vs_oracle(2, 2, 2, &slots, 0xFFFF_FFF8);
}

#[test]
fn prng_50k_vs_oracle() {
    let mut state = IPV4_FIND_FRAGMENT_SLOT_PRNG_SEED;
    let mut next = || {
        state ^= state << 13;
        state ^= state >> 17;
        state ^= state << 5;
        state
    };
    for _ in 0..50_000 {
        let n = (next() % 8) as usize;
        let mut slots = Vec::with_capacity(n);
        for _ in 0..n {
            let id = (next() & 0xFFFF) as u16;
            let src = next();
            let dst = next();
            slots.push((id, src, dst));
        }
        let q_id = if next() & 1 == 0 && n > 0 { slots[(next() as usize) % n].0 } else { (next() & 0xFFFF) as u16 };
        let q_src = if next() & 1 == 0 && n > 0 { slots[(next() as usize) % n].1 } else { next() };
        let q_dst = if next() & 1 == 0 && n > 0 { slots[(next() as usize) % n].2 } else { next() };
        let base = 0x7000_0000u32.wrapping_add(next() & 0xFFF0);
        run_vs_oracle(q_id, q_src, q_dst, &slots, base);
    }
}

#[test]
fn slot_scan_asks_slots_in_order_and_address_once() {
    let slots = [(1u16, 2u32, 3u32), (4, 5, 6), (7, 8, 9), (7, 8, 9)];
    let (mut st, mut act) = slot_scan_begin(4);
    let mut log = Vec::new();
    let result = loop {
        let ev = match act {
            SlotScanAction::LoadSlot { index } => {
                log.push(("load", index));
                let (id, src_ip, dst_ip) = slots[index as usize];
                SlotScanEvent::Key { id, src_ip, dst_ip }
            }
            SlotScanAction::FetchAddress { index } => {
                log.push(("addr", index));
                SlotScanEvent::Address { addr: 0x1000 + 16 * index }
            }
            SlotScanAction::Finish { result } => break result,
        };
        let (s, a) = slot_scan_step(7, 8, 9, 4, st, ev);
        st = s;
        act = a;
    };
    assert_eq!(result, 0x1020);
    assert_eq!(log, vec![("load", 0), ("load", 1), ("load", 2), ("addr", 2)]);

    let loads = std::cell::RefCell::new(Vec::new());
    let addrs = std::cell::RefCell::new(Vec::new());
    let miss = ipv4_find_fragment_slot_from_keys(
        9,
        9,
        9,
        4,
        |i| {
            loads.borrow_mut().push(i);
            slots[i as usize]
        },
        |i| {
            addrs.borrow_mut().push(i);
            0
        },
    );
    assert_eq!(miss, u32::MAX);
    assert_eq!(*loads.borrow(), vec![0, 1, 2, 3]);
    assert!(addrs.borrow().is_empty());
}
