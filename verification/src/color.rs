//! Byte-level helpers for hexadecimal colour notation.

use vstd::prelude::*;

verus! {

/// The value of an ASCII hexadecimal digit (either case), if `b` is one.
pub open spec fn hex_value(b: u8) -> Option<u8> {
    if 48 <= b <= 57 {
        Some((b - 48) as u8)
    } else if 65 <= b <= 70 {
        Some((b - 55) as u8)
    } else if 97 <= b <= 102 {
        Some((b - 87) as u8)
    } else {
        None
    }
}

/// The value of a two-byte hexadecimal field: an optional `+` sign followed by
/// one digit, or two digits.
pub open spec fn hex_pair_value(b0: u8, b1: u8) -> Option<u8> {
    if b0 == 43 {
        hex_value(b1)
    } else {
        match (hex_value(b0), hex_value(b1)) {
            (Some(hi), Some(lo)) => Some((hi * 16 + lo) as u8),
            _ => None,
        }
    }
}

/// Whether a byte of UTF-8 text begins a character (it is not a
/// continuation byte), i.e. whether text may be sliced just before it.
pub open spec fn starts_char(b: u8) -> bool {
    b < 0x80 || b >= 0xC0
}

pub fn hex_digit_value(b: u8) -> (v: Option<u8>)
    ensures
        v == hex_value(b),
        v matches Some(d) ==> d < 16,
{
    if 48 <= b && b <= 57 {
        Some(b - 48)
    } else if 65 <= b && b <= 70 {
        Some(b - 55)
    } else if 97 <= b && b <= 102 {
        Some(b - 87)
    } else {
        None
    }
}

/// Parse a two-byte field as `u8::from_str_radix(field, 16)` does for
/// two-byte input: `+` and one digit, or two digits.
pub fn hex_pair(b0: u8, b1: u8) -> (v: Option<u8>)
    ensures
        v == hex_pair_value(b0, b1),
{
    if b0 == 43 {
        hex_digit_value(b1)
    } else {
        match (hex_digit_value(b0), hex_digit_value(b1)) {
            (Some(hi), Some(lo)) => Some(hi * 16 + lo),
            _ => None,
        }
    }
}

} // verus!
