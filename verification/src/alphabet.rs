//! The base64 alphabet: the bijection between six-bit values and the
//! characters `A-Z a-z 0-9 + /`, and the sentinel-valued decode tables.

use vstd::prelude::*;

verus! {

/// The `=` byte that pads the final quartet of an encoding.
pub const PAD: u8 = 61;

/// Sentinel returned by the decode tables for bytes outside the alphabet.
/// It is strictly greater than the OR of any four valid table entries, so a
/// single comparison of the combined value detects an invalid byte anywhere
/// in a quartet.
pub const BADCHAR: u32 = 0x01FF_FFFF;

/// The alphabet character that stands for the six-bit value `v`.
/// Values of 64 and above do not occur; they are mapped like 63.
pub open spec fn char_of(v: u8) -> u8 {
    if v < 26 {
        (65 + v) as u8  // 'A'..='Z'
    } else if v < 52 {
        (71 + v) as u8  // 'a'..='z'
    } else if v < 62 {
        (v - 4) as u8  // '0'..='9'
    } else if v == 62 {
        43  // '+'
    } else {
        47  // '/'
    }
}

/// Whether `c` is one of the 64 alphabet characters (`=` is not).
pub open spec fn is_b64(c: u8) -> bool {
    (65 <= c <= 90) || (97 <= c <= 122) || (48 <= c <= 57) || c == 43 || c == 47
}

/// The six-bit value of an alphabet character; 0 for all other bytes.
pub open spec fn val_of(c: u8) -> u8 {
    if 65 <= c <= 90 {
        (c - 65) as u8
    } else if 97 <= c <= 122 {
        (c - 71) as u8
    } else if 48 <= c <= 57 {
        (c + 4) as u8
    } else if c == 43 {
        62
    } else if c == 47 {
        63
    } else {
        0
    }
}

/// The encode table is injective and lands in the alphabet: every six-bit
/// value has an alphabet character, distinct from the pad, and the decode
/// table recovers the value.
pub proof fn lemma_char_of_val(v: u8)
    requires
        v < 64,
    ensures
        is_b64(char_of(v)),
        char_of(v) != PAD,
        val_of(char_of(v)) == v,
{
}

/// The decode table inverts the encode table: every alphabet character
/// decodes to a six-bit value whose character it is.
pub proof fn lemma_val_of_char(c: u8)
    requires
        is_b64(c),
    ensures
        val_of(c) < 64,
        char_of(val_of(c)) == c,
{
}

/// Encode-table lookup: the alphabet character of a six-bit value.
pub fn b64_char(v: u8) -> (c: u8)
    ensures
        c == char_of(v),
{
    if v < 26 {
        65 + v
    } else if v < 52 {
        71 + v
    } else if v < 62 {
        v - 4
    } else if v == 62 {
        43
    } else {
        47
    }
}

/// Decode lookup shared by the four position tables: the six-bit value of an
/// alphabet byte, or `None` outside the alphabet.
pub fn b64_val(c: u8) -> (r: Option<u8>)
    ensures
        r == if is_b64(c) {
            Some(val_of(c))
        } else {
            None::<u8>
        },
{
    if 65 <= c && c <= 90 {
        Some(c - 65)
    } else if 97 <= c && c <= 122 {
        Some(c - 71)
    } else if 48 <= c && c <= 57 {
        Some(c + 4)
    } else if c == 43 {
        Some(62)
    } else if c == 47 {
        Some(63)
    } else {
        None
    }
}

/// Decode table for the first character of a quartet.
pub open spec fn d0_of(c: u8) -> u32 {
    if is_b64(c) {
        (val_of(c) as u32) << 2
    } else {
        BADCHAR
    }
}

/// Decode table for the second character of a quartet.
pub open spec fn d1_of(c: u8) -> u32 {
    if is_b64(c) {
        (((val_of(c) as u32) & 0xF) << 12) | ((val_of(c) as u32) >> 4)
    } else {
        BADCHAR
    }
}

/// Decode table for the third character of a quartet.
pub open spec fn d2_of(c: u8) -> u32 {
    if is_b64(c) {
        (((val_of(c) as u32) & 0x3) << 22) | (((val_of(c) as u32) >> 2) << 8)
    } else {
        BADCHAR
    }
}

/// Decode table for the fourth character of a quartet.
pub open spec fn d3_of(c: u8) -> u32 {
    if is_b64(c) {
        (val_of(c) as u32) << 16
    } else {
        BADCHAR
    }
}

/// The four six-bit fields cut out of a triplet stay below 64, and the
/// decode-side shifts reassemble the original three bytes from them; the
/// same holds for the shorter fields of a one- or two-byte tail, whose
/// missing input bytes are zero.
pub proof fn lemma_triplet_fields(b0: u8, b1: u8, b2: u8)
    by (bit_vector)
    ensures
        (b0 >> 2) < 64,
        (((b0 & 0x03) << 4) | ((b1 >> 4) & 0x0F)) < 64,
        (((b1 & 0x0F) << 2) | ((b2 >> 6) & 0x03)) < 64,
        (b2 & 0x3F) < 64,
        ((b0 & 0x03) << 4) < 64,
        ((b1 & 0x0F) << 2) < 64,
        ((b0 >> 2) << 2) | ((((b0 & 0x03) << 4) | ((b1 >> 4) & 0x0F)) >> 4) == b0,
        (((((b0 & 0x03) << 4) | ((b1 >> 4) & 0x0F)) & 0xF) << 4) | ((((b1 & 0x0F) << 2) | ((b2
            >> 6) & 0x03)) >> 2) == b1,
        (((((b1 & 0x0F) << 2) | ((b2 >> 6) & 0x03)) & 0x3) << 6) | (b2 & 0x3F) == b2,
        ((b0 >> 2) << 2) | (((b0 & 0x03) << 4) >> 4) == b0,
        (((((b0 & 0x03) << 4) | ((b1 >> 4) & 0x0F)) & 0xF) << 4) | (((b1 & 0x0F) << 2) >> 2)
            == b1,
{
}

/// The fields of a short tail, conceptually padded with zero bytes, lose
/// nothing to the missing bytes: the zero contributions vanish.
pub proof fn lemma_tail_fields_zero(b0: u8, b1: u8)
    by (bit_vector)
    ensures
        ((b0 & 0x03) << 4) | ((0u8 >> 4) & 0x0F) == (b0 & 0x03) << 4,
        ((b1 & 0x0F) << 2) | ((0u8 >> 6) & 0x03) == (b1 & 0x0F) << 2,
{
}

/// Packing a triplet into one 24-bit integer and shifting out the four
/// six-bit groups matches the per-byte shifts, and none of the sums
/// overflow.
pub proof fn lemma_u32_split(t1: u8, t2: u8, t3: u8)
    by (bit_vector)
    ensures
        ({
            let n = ((((t1 as u32) << 16) + ((t2 as u32) << 8)) + (t3 as u32)) as u32;
            &&& ((t1 as u32) << 16) <= 0xFF0000
            &&& ((t2 as u32) << 8) <= 0xFF00
            &&& ((n >> 18) & 0x3f) as u8 == t1 >> 2
            &&& ((n >> 12) & 0x3f) as u8 == ((t1 & 0x03) << 4) | ((t2 >> 4) & 0x0F)
            &&& ((n >> 6) & 0x3f) as u8 == ((t2 & 0x0F) << 2) | ((t3 >> 6) & 0x03)
            &&& (n & 0x3f) as u8 == t3 & 0x3F
        }),
{
}

/// ORing in another table entry never lowers the combined value, so one
/// sentinel entry pushes the whole OR to the sentinel or above.
pub proof fn lemma_or_keeps_sentinel(a: u32, b: u32)
    by (bit_vector)
    ensures
        (a | b) >= a,
        (a | b) >= b,
{
}

/// For a quartet of six-bit values, the OR of the four decode-table entries
/// stays strictly below the sentinel and carries the three decoded bytes in
/// its low 24 bits; the partial ORs of the first two or three entries
/// behave the same way for a short trailing group.
pub proof fn lemma_quartet_pack(v0: u8, v1: u8, v2: u8, v3: u8)
    by (bit_vector)
    requires
        v0 < 64,
        v1 < 64,
        v2 < 64,
        v3 < 64,
    ensures
        ({
            let e0 = (v0 as u32) << 2;
            let e1 = (((v1 as u32) & 0xF) << 12) | ((v1 as u32) >> 4);
            let e2 = (((v2 as u32) & 0x3) << 22) | (((v2 as u32) >> 2) << 8);
            let e3 = (v3 as u32) << 16;
            let x = ((e0 | e1) | e2) | e3;
            &&& x < 0x01FF_FFFF
            &&& (e0 | e1) < 0x01FF_FFFF
            &&& ((e0 | e1) | e2) < 0x01FF_FFFF
            &&& (x & 0xFF) as u8 == (v0 << 2) | (v1 >> 4)
            &&& ((x >> 8) & 0xFF) as u8 == ((v1 & 0xF) << 4) | (v2 >> 2)
            &&& ((x >> 16) & 0xFF) as u8 == ((v2 & 0x3) << 6) | v3
            &&& ((e0 | e1) as u8) == (v0 << 2) | (v1 >> 4)
            &&& (((e0 | e1) | e2) & 0xFF) as u8 == (v0 << 2) | (v1 >> 4)
            &&& ((((e0 | e1) | e2) >> 8) & 0xFF) as u8 == ((v1 & 0xF) << 4) | (v2 >> 2)
        }),
{
}

/// First-position decode lookup.
pub fn d0(c: u8) -> (r: u32)
    ensures
        r == d0_of(c),
{
    match b64_val(c) {
        Some(v) => (v as u32) << 2u32,
        None => BADCHAR,
    }
}

/// Second-position decode lookup.
pub fn d1(c: u8) -> (r: u32)
    ensures
        r == d1_of(c),
{
    match b64_val(c) {
        Some(v) => (((v as u32) & 0xF) << 12u32) | ((v as u32) >> 4u32),
        None => BADCHAR,
    }
}

/// Third-position decode lookup.
pub fn d2(c: u8) -> (r: u32)
    ensures
        r == d2_of(c),
{
    match b64_val(c) {
        Some(v) => (((v as u32) & 0x3) << 22u32) | (((v as u32) >> 2u32) << 8u32),
        None => BADCHAR,
    }
}

/// Fourth-position decode lookup.
pub fn d3(c: u8) -> (r: u32)
    ensures
        r == d3_of(c),
{
    match b64_val(c) {
        Some(v) => (v as u32) << 16u32,
        None => BADCHAR,
    }
}

} // verus!
