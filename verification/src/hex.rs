//! Hexadecimal digits: the two-character payload of a `%XX` escape triplet.
//! The encoder emits uppercase digits; the decoder accepts either case.
//! The decoder-side predicates take a character's scalar value.

use vstd::prelude::*;

verus! {

/// Whether a character scalar value is a hexadecimal digit, of either case.
pub open spec fn is_hex_digit(v: u32) -> bool {
    (0x30 <= v <= 0x39) || (0x41 <= v <= 0x46) || (0x61 <= v <= 0x66)
}

/// The numeric value of a hexadecimal digit given as a character scalar
/// value.
pub open spec fn hex_value(v: u32) -> int
    recommends
        is_hex_digit(v),
{
    if 0x30 <= v <= 0x39 {
        v - 0x30
    } else if 0x41 <= v <= 0x46 {
        v - 0x41 + 10
    } else {
        v - 0x61 + 10
    }
}

/// The byte named by a two-digit hexadecimal escape payload, high digit
/// first, the digits given as character scalar values.
pub open spec fn hex_byte(hi: u32, lo: u32) -> u8
    recommends
        is_hex_digit(hi),
        is_hex_digit(lo),
{
    (hex_value(hi) * 16 + hex_value(lo)) as u8
}

/// The uppercase hexadecimal digit for a value below 16.
pub open spec fn upper_hex_digit(v: int) -> char
    recommends
        0 <= v < 16,
{
    if v == 0 {
        '0'
    } else if v == 1 {
        '1'
    } else if v == 2 {
        '2'
    } else if v == 3 {
        '3'
    } else if v == 4 {
        '4'
    } else if v == 5 {
        '5'
    } else if v == 6 {
        '6'
    } else if v == 7 {
        '7'
    } else if v == 8 {
        '8'
    } else if v == 9 {
        '9'
    } else if v == 10 {
        'A'
    } else if v == 11 {
        'B'
    } else if v == 12 {
        'C'
    } else if v == 13 {
        'D'
    } else if v == 14 {
        'E'
    } else {
        'F'
    }
}

/// The numeric value of a hexadecimal digit given as a character scalar
/// value, or `None` if it is not one.
pub fn hex_digit_value(v: u32) -> (r: Option<u8>)
    ensures
        r is Some <==> is_hex_digit(v),
        r is Some ==> r->0 == hex_value(v) && r->0 < 16,
{
    if 0x30 <= v && v <= 0x39 {
        Some((v - 0x30) as u8)
    } else if 0x41 <= v && v <= 0x46 {
        Some((v - 0x41 + 10) as u8)
    } else if 0x61 <= v && v <= 0x66 {
        Some((v - 0x61 + 10) as u8)
    } else {
        None
    }
}

/// The uppercase hexadecimal digit for a value below 16.
pub fn upper_hex_char(v: u8) -> (r: char)
    requires
        v < 16,
    ensures
        r == upper_hex_digit(v as int),
{
    if v < 10 {
        (0x30 + v as u32) as u8 as char
    } else {
        (0x41 + (v as u32 - 10)) as u8 as char
    }
}

/// An uppercase hexadecimal digit emitted by the encoder reads back as the
/// value it was written from, is ASCII, and is neither a `%` nor a `+`.
pub proof fn lemma_upper_hex_digit_value(v: int)
    requires
        0 <= v < 16,
    ensures
        is_hex_digit(upper_hex_digit(v) as u32),
        hex_value(upper_hex_digit(v) as u32) == v,
        upper_hex_digit(v) != '%',
        upper_hex_digit(v) != '+',
        '\0' <= upper_hex_digit(v) <= '\u{7f}',
{
}

} // verus!
