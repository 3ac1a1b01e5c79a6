//! CP866 and UTF-16 upper-casing as the kernel's path parser does it.

use vstd::prelude::*;

verus! {

/// Upper-case image of one CP866 byte.
///
/// Latin `a..z` and Cyrillic `0xA0..0xAF` move down by 32, `0xE0..0xEF` move to
/// `0x90..0x9F`, `0xF0..0xF7` lose their low bit (the `ё`-style pairs); every
/// other byte is unchanged.
pub open spec fn spec_cp866_upper(ch: u8) -> u8 {
    if ch < 0x61 {
        ch
    } else if ch <= 0x7A {
        (ch - 32) as u8
    } else if ch < 0xA0 {
        ch
    } else if ch < 0xB0 {
        (ch - 32) as u8
    } else if ch < 0xE0 {
        ch
    } else if ch < 0xF0 {
        (ch - 0x50) as u8
    } else if ch > 0xF7 {
        ch
    } else if ch % 2 == 1 {
        (ch - 1) as u8
    } else {
        ch
    }
}

/// Upper-case image of one UTF-16 unit: Latin `a..z` and `U+0430..U+044F`
/// move down by 32, `U+0450..U+045F` by 80; everything else is unchanged.
pub open spec fn spec_utf16_upper(ch: u16) -> u16 {
    if ch < 0x61 {
        ch
    } else if ch <= 0x7A {
        (ch - 32) as u16
    } else if ch < 0x0430 {
        ch
    } else if ch < 0x0450 {
        (ch - 32) as u16
    } else if ch >= 0x0460 {
        ch
    } else {
        (ch - 80) as u16
    }
}

/// Convert one CP866 byte to upper case.
pub fn cp866_to_upper(ch: u8) -> (r: u8)
    ensures
        r == spec_cp866_upper(ch),
{
    if ch < 0x61 {
        return ch;
    }
    if ch <= 0x7A {
        return ch - 32;
    }
    if ch < 0xA0 {
        return ch;
    }
    if ch < 0xB0 {
        return ch - 32;
    }
    if ch < 0xE0 {
        return ch;
    }
    if ch < 0xF0 {
        return ch - (0xE0 - 0x90);
    }
    if ch > 0xF7 {
        return ch;
    }
    let r = ch & 0xFE;
    assert(r == (if ch % 2 == 1 { (ch - 1) as u8 } else { ch })) by (bit_vector)
        requires r == ch & 0xFE;
    r
}

/// Convert one UTF-16 unit to upper case.
pub fn utf16_to_upper(ch: u16) -> (r: u16)
    ensures
        r == spec_utf16_upper(ch),
{
    if ch < 0x61 {
        return ch;
    }
    if ch <= 0x7A {
        return ch - 32;
    }
    if ch < 0x0430 {
        return ch;
    }
    if ch < 0x0450 {
        return ch - 32;
    }
    if ch >= 0x0460 {
        return ch;
    }
    ch - 80
}

/// Register-flow transcription of the CP866 rule (AL tested, EAX adjusted).
pub fn cp866_to_upper_fasm_oracle(ch: u8) -> (r: u8)
    ensures
        r == spec_cp866_upper(ch),
{
    let mut eax: u32 = ch as u32;
    let al = ch;
    if al < 0x61 {
        return eax as u8;
    }
    if al <= 0x7A {
        eax = eax - 32;
        return eax as u8;
    }
    if al < 0xA0 {
        return eax as u8;
    }
    if al < 0xB0 {
        eax = eax - 32;
        return eax as u8;
    }
    if al < 0xE0 {
        return eax as u8;
    }
    if al < 0xF0 {
        eax = eax - (0xE0 - 0x90);
        return eax as u8;
    }
    if al > 0xF7 {
        return eax as u8;
    }
    eax = eax & 0xFFFF_FFFE;
    let r = eax as u8;
    assert(r == (if ch % 2 == 1 { (ch - 1) as u8 } else { ch })) by (bit_vector)
        requires eax == (ch as u32) & 0xFFFF_FFFE, r == eax as u8;
    r
}

/// Register-flow transcription of the UTF-16 rule (AX tested, EAX adjusted).
pub fn utf16_to_upper_fasm_oracle(ch: u16) -> (r: u16)
    ensures
        r == spec_utf16_upper(ch),
{
    let mut eax: u32 = ch as u32;
    let ax = ch;
    if ax < 0x61 {
        return eax as u16;
    }
    if ax <= 0x7A {
        eax = eax - 32;
        return eax as u16;
    }
    if ax < 0x0430 {
        return eax as u16;
    }
    if ax < 0x0450 {
        eax = eax - 32;
        return eax as u16;
    }
    if ax >= 0x0460 {
        return eax as u16;
    }
    eax = eax - 80;
    eax as u16
}

/// Upper-case the low UTF-16 unit held in a full register: the adjustment is
/// applied to the whole 32-bit value (so the high half may borrow), exactly as
/// `sub eax, 32` / `sub eax, 80` do.
pub fn utf16_to_upper_eax(eax: u32) -> (r: u32)
    ensures
        r == (if (eax as u16) < 0x61 || (0x7A < (eax as u16) && (eax as u16) < 0x0430)
            || (eax as u16) >= 0x0460 {
            eax
        } else if (eax as u16) < 0x0450 {
            ((eax as int - 32) % 0x1_0000_0000) as u32
        } else {
            ((eax as int - 80) % 0x1_0000_0000) as u32
        }),
        (r as u16) == spec_utf16_upper(eax as u16),
{
    let ax = eax as u16;
    if ax < 0x61 {
        return eax;
    }
    if ax <= 0x7A {
        let r = eax.wrapping_sub(32);
        assert((r as u16) == ((ax - 32) as u16)) by (bit_vector)
            requires ax == eax as u16, 0x61 <= ax <= 0x7A, r == ((eax as int - 32) % 0x1_0000_0000) as u32;
        return r;
    }
    if ax < 0x0430 {
        return eax;
    }
    if ax < 0x0450 {
        let r = eax.wrapping_sub(32);
        assert((r as u16) == ((ax - 32) as u16)) by (bit_vector)
            requires ax == eax as u16, 0x430 <= ax < 0x450, r == ((eax as int - 32) % 0x1_0000_0000) as u32;
        return r;
    }
    if ax >= 0x0460 {
        return eax;
    }
    let r = eax.wrapping_sub(80);
    assert((r as u16) == ((ax - 80) as u16)) by (bit_vector)
        requires ax == eax as u16, 0x450 <= ax < 0x460, r == ((eax as int - 80) % 0x1_0000_0000) as u32;
    r
}

/// Upper-casing a CP866 byte twice gives the same byte as doing it once.
pub proof fn law_cp866_upper_idempotent(ch: u8)
    ensures
        spec_cp866_upper(spec_cp866_upper(ch)) == spec_cp866_upper(ch),
{
}

/// Upper-casing a UTF-16 unit twice gives the same unit as doing it once.
pub proof fn law_utf16_upper_idempotent(ch: u16)
    ensures
        spec_utf16_upper(spec_utf16_upper(ch)) == spec_utf16_upper(ch),
{
}

/// On the ASCII range both folds agree: a CP866 byte below `0x80` and the same
/// value as a UTF-16 unit are upper-cased to the same code.
pub proof fn law_ascii_folds_agree(ch: u8)
    requires
        ch < 0x80,
    ensures
        spec_cp866_upper(ch) as u16 == spec_utf16_upper(ch as u16),
{
}

} // verus!
