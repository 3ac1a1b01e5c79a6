use kolibri_utils::ahci::{ahci_find_cmdslot, ahci_find_cmdslot_from_regs, ahci_is_sig_known, ahci_is_sig_known_from_reg, AHCI_FIND_CMDSLOT_PRNG_SEED, AHCI_IS_SIG_KNOWN_PRNG_SEED, SATA_SIG_ATA, SATA_SIG_ATAPI, SATA_SIG_SEMB, SATA_SIG_PM};


/// Independent FASM-flow oracle (not derived from the Rust helper body).
fn oracle_cmdslot(mut slots: u32, ncs: u32) -> u32 {
    let mut ecx = 0u32;
    loop {
        // cmp ecx, edx / jae .for1_end
        if ecx >= ncs {
            return u32::MAX;
        }
        // bt ebx, 0 / jc .cont1
        if (slots & 1) == 0 {
            return ecx;
        }
        slots >>= 1;
        ecx = ecx.wrapping_add(1);
    }
}

fn check_cmdslot(slots: u32, ncs: u32) {
    let got = ahci_find_cmdslot(slots, ncs);
    let exp = oracle_cmdslot(slots, ncs);
    assert_eq!(
        got, exp,
        "mismatch slots={slots:#x} ncs={ncs} got={got:#x} exp={exp:#x}"
    );
}

#[test]
fn ncs_zero_always_miss() {
    check_cmdslot(0, 0);
    check_cmdslot(0xffff_ffff, 0);
}

#[test]
fn empty_slots_first_free() {
    check_cmdslot(0, 1);
    check_cmdslot(0, 15);
    assert_eq!(ahci_find_cmdslot(0, 8), 0);
}

#[test]
fn first_middle_last_free() {
    // bit0 busy → free at 1
    check_cmdslot(0b1, 8);
    assert_eq!(ahci_find_cmdslot(0b1, 8), 1);
    // bits 0..2 busy → free at 3
    check_cmdslot(0b111, 8);
    assert_eq!(ahci_find_cmdslot(0b111, 8), 3);
    // only last of ncs=4 free (bits 0..2 set)
    check_cmdslot(0b0111, 4);
    assert_eq!(ahci_find_cmdslot(0b0111, 4), 3);
}

#[test]
fn all_occupied_miss() {
    check_cmdslot(0b1111, 4);
    assert_eq!(ahci_find_cmdslot(0b1111, 4), u32::MAX);
    // bits 0..14 set with ncs=15 → miss (slot 15 never inspected)
    assert_eq!(ahci_find_cmdslot(0x7fff, 15), u32::MAX);
    check_cmdslot(0xffff_ffff, 15);
}

#[test]
fn ncs_mask_quirk_bound() {
    // FASM and edx, 0xf — callers pass already-masked ncs.
    // ncs=15 checks indices 0..14 only (15 iterations max).
    assert_eq!(ahci_find_cmdslot(0x7fff, 15), u32::MAX); // bits 0..14 set
    assert_eq!(ahci_find_cmdslot(0x3fff, 15), 14); // bit14 clear
    // Slot 15 would be free in a 32-slot HBA, but ncs=15 never inspects it.
    assert_eq!(ahci_find_cmdslot(0x7fff, 15), u32::MAX);
}

#[test]
fn named_vectors() {
    let cases = [
        (0u32, 0u32, u32::MAX),
        (0, 1, 0),
        (1, 1, u32::MAX),
        (0b10, 2, 0),
        (0b01, 2, 1),
        (0b11, 2, u32::MAX),
        (0b1111_1110, 8, 0),
        (0b0111_1111, 8, 7),
        (0xff, 8, u32::MAX),
        (0, 15, 0),
        (0x7fff, 15, u32::MAX),
    ];
    for (slots, ncs, exp) in cases {
        assert_eq!(ahci_find_cmdslot(slots, ncs), exp);
        check_cmdslot(slots, ncs);
    }
}

#[test]
fn prng_50k_cutv() {
    let mut state = AHCI_FIND_CMDSLOT_PRNG_SEED;
    for _ in 0..50_000 {
        // xorshift32
        state ^= state << 13;
        state ^= state >> 17;
        state ^= state << 5;
        let slots = state;
        state ^= state << 13;
        state ^= state >> 17;
        state ^= state << 5;
        let ncs = state & 0xf; // match FASM mask domain
        check_cmdslot(slots, ncs);
    }
}


/// Independent FASM-flow oracle (four `cmp`/`je` chain ending at `.known:`).
fn oracle_sig(sig: u32) -> u32 {
    if sig == SATA_SIG_ATA
        || sig == SATA_SIG_ATAPI
        || sig == SATA_SIG_SEMB
        || sig == SATA_SIG_PM
    {
        1
    } else {
        0
    }
}

fn check_sig(sig: u32) {
    let got = ahci_is_sig_known(sig);
    let exp = oracle_sig(sig);
    assert_eq!(got, exp, "sig={sig:#x} got={got} exp={exp}");
}

#[test]
fn all_four_known_signatures() {
    check_sig(SATA_SIG_ATA);
    check_sig(SATA_SIG_ATAPI);
    check_sig(SATA_SIG_SEMB);
    check_sig(SATA_SIG_PM);
}

#[test]
fn near_miss_and_zero_unknown() {
    check_sig(0);
    check_sig(0xFFFF_FFFF);
    check_sig(SATA_SIG_ATA ^ 1);
    check_sig(SATA_SIG_ATAPI ^ 0x100);
    check_sig(SATA_SIG_SEMB + 1);
    check_sig(SATA_SIG_PM.wrapping_sub(1));
}

#[test]
fn ahci_is_sig_known_prng_corpus_50k() {
    let mut state = AHCI_IS_SIG_KNOWN_PRNG_SEED;
    for _ in 0..50_000 {
        state = state.wrapping_mul(1_664_525).wrapping_add(1_013_904_223);
        check_sig(state);
    }
}
