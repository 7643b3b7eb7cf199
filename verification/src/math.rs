use vstd::prelude::*;

verus! {

/// How far each colour channel may lie from the middle grey (0x80)
/// for a colour to count as grey.
pub const TOLERANCE: i32 = 0x10;

/// `v` read as a signed 32-bit number (two's complement).
pub open spec fn as_signed(v: u32) -> int {
    if v < 0x8000_0000 { v as int } else { v as int - 0x1_0000_0000 }
}

pub open spec fn dist_from_mid(v: int) -> int {
    if v - 0x80 < 0 { 0x80 - v } else { v - 0x80 }
}

/// The test `contrast` makes: the whole word (read as signed), the word
/// shifted by 8 and the word shifted by 16 must each lie within
/// `TOLERANCE` of 0x80.
pub open spec fn is_near_grey(c: u32) -> bool {
    &&& dist_from_mid(as_signed(c)) <= TOLERANCE
    &&& dist_from_mid((c >> 8u32) as int) <= TOLERANCE
    &&& dist_from_mid((c >> 16u32) as int) <= TOLERANCE
}

/// The words on which `contrast` overflows a signed 32-bit subtraction
/// or absolute value.
pub open spec fn contrast_overflows(c: u32) -> bool {
    0x8000_0000 <= c <= 0x8000_0080
}

/// The grey test never passes: a word whose signed value is within
/// `TOLERANCE` of 0x80 has nothing above its lowest byte, so its second
/// byte is 0, far from 0x80.
pub proof fn lemma_never_near_grey(c: u32)
    ensures
        !is_near_grey(c),
{
    if dist_from_mid(as_signed(c)) <= TOLERANCE {
        assert(0x70 <= c <= 0x90);
        assert(c >> 8u32 == 0) by (bit_vector)
            requires
                0x70 <= c <= 0x90,
        ;
    }
}

/// A colour that stands out against the background colour `cr_bg`
/// (0x00BBGGRR in the low three bytes): near-grey backgrounds would be
/// shifted by 0x7F7F7F, all others get their colour bytes complemented.
/// Since no word passes the grey test, the result is always the
/// complement of the colour bytes, the top byte kept.
pub fn contrast(cr_bg: u32) -> (r: u32)
    requires
        !contrast_overflows(cr_bg),
    ensures
        r == (if is_near_grey(cr_bg) {
            (0x7F7F7F + cr_bg) as u32 & 0xFF_FFFFu32
        } else {
            cr_bg ^ 0xFF_FFFFu32
        }),
        r == cr_bg ^ 0xFF_FFFFu32,
{
    proof {
        lemma_never_near_grey(cr_bg);
        assert(cr_bg < 0x8000_0000 ==> cr_bg as i32 == cr_bg) by (bit_vector);
        assert(cr_bg >= 0x8000_0081 ==> (cr_bg as i32) as int == cr_bg as int - 0x1_0000_0000)
            by (bit_vector);
        assert(cr_bg >> 8u32 <= 0xFF_FFFF) by (bit_vector);
        assert(cr_bg >> 16u32 <= 0xFFFF) by (bit_vector);
    }
    let d0: i32 = cr_bg as i32 - 0x80;
    let a0: i32 = if d0 < 0 { -d0 } else { d0 };
    let near_grey = a0 <= TOLERANCE && {
        let d1: i32 = (cr_bg >> 8u32) as i32 - 0x80;
        let a1: i32 = if d1 < 0 { -d1 } else { d1 };
        a1 <= TOLERANCE
    } && {
        let d2: i32 = (cr_bg >> 16u32) as i32 - 0x80;
        let a2: i32 = if d2 < 0 { -d2 } else { d2 };
        a2 <= TOLERANCE
    };
    if near_grey {
        (0x7F7F7F + cr_bg) & 0xFF_FFFF
    } else {
        cr_bg ^ 0xFF_FFFF
    }
}

/// Contrast undone: taking the contrast of a contrast gives back the
/// colour it started from.
pub proof fn lemma_contrast_involution(c: u32)
    ensures
        (c ^ 0xFF_FFFFu32) ^ 0xFF_FFFFu32 == c,
{
    assert((c ^ 0xFF_FFFFu32) ^ 0xFF_FFFFu32 == c) by (bit_vector);
}

/// Contrast keeps the top byte (the alpha byte of a packed colour) and
/// changes each of the three colour bytes to its complement.
pub proof fn lemma_contrast_bytes(c: u32)
    ensures
        (c ^ 0xFF_FFFFu32) >> 24u32 == c >> 24u32,
        (c ^ 0xFF_FFFFu32) & 0xFFu32 == 0xFFu32 - (c & 0xFFu32),
        ((c ^ 0xFF_FFFFu32) >> 8u32) & 0xFFu32 == 0xFFu32 - ((c >> 8u32) & 0xFFu32),
        ((c ^ 0xFF_FFFFu32) >> 16u32) & 0xFFu32 == 0xFFu32 - ((c >> 16u32) & 0xFFu32),
{
    assert((c ^ 0xFF_FFFFu32) >> 24u32 == c >> 24u32) by (bit_vector);
    assert((c ^ 0xFF_FFFFu32) & 0xFFu32 == 0xFFu32 - (c & 0xFFu32)) by (bit_vector);
    assert(((c ^ 0xFF_FFFFu32) >> 8u32) & 0xFFu32 == 0xFFu32 - ((c >> 8u32) & 0xFFu32))
        by (bit_vector);
    assert(((c ^ 0xFF_FFFFu32) >> 16u32) & 0xFFu32 == 0xFFu32 - ((c >> 16u32) & 0xFFu32))
        by (bit_vector);
}

} // verus!
