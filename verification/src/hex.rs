//! Hexadecimal digit arithmetic: the bijection between bytes and pairs of
//! lowercase hex characters, the address-field rendering of a 32-bit value,
//! and the printable-ASCII classification used by the sidebar.

use vstd::prelude::*;

verus! {

/// The lowercase hexadecimal character for a nibble value below 16.
pub open spec fn hex_digit_of(v: u8) -> u8
    recommends
        v < 16,
{
    if v < 10 {
        (48 + v) as u8
    } else {
        (87 + v) as u8
    }
}

/// Whether `c` is a lowercase hexadecimal character (`0`-`9` or `a`-`f`).
pub open spec fn is_hex_char(c: u8) -> bool {
    (48 <= c && c <= 57) || (97 <= c && c <= 102)
}

/// The nibble value of a lowercase hexadecimal character.
pub open spec fn hex_val_of(c: u8) -> u8
    recommends
        is_hex_char(c),
{
    if c <= 57 {
        (c - 48) as u8
    } else {
        (c - 87) as u8
    }
}

/// Printable ASCII: the bytes the sidebar renders as themselves.
pub open spec fn printable(b: u8) -> bool {
    32 <= b && b <= 126
}

/// The two hex characters of one byte, high nibble first.
pub open spec fn byte_hex(b: u8) -> Seq<u8> {
    seq![hex_digit_of((b / 16) as u8), hex_digit_of((b % 16) as u8)]
}

/// The eight hex characters of a 32-bit value, most significant nibble first.
pub open spec fn u32_hex(a: u32) -> Seq<u8> {
    seq![
        hex_digit_of((a / 0x10000000 % 16) as u8),
        hex_digit_of((a / 0x1000000 % 16) as u8),
        hex_digit_of((a / 0x100000 % 16) as u8),
        hex_digit_of((a / 0x10000 % 16) as u8),
        hex_digit_of((a / 0x1000 % 16) as u8),
        hex_digit_of((a / 0x100 % 16) as u8),
        hex_digit_of((a / 0x10 % 16) as u8),
        hex_digit_of((a % 16) as u8),
    ]
}

/// Hex characters of nibbles are themselves hex characters, are neither a
/// space nor a newline, and carry the nibble value they were made from.
pub proof fn lemma_hex_digit_chars()
    ensures
        forall|v: u8| v < 16 ==> (#[trigger] hex_digit_of(v)) != 32,
        forall|v: u8| v < 16 ==> (#[trigger] hex_digit_of(v)) != 10,
        forall|v: u8| v < 16 ==> is_hex_char(#[trigger] hex_digit_of(v)),
        forall|v: u8| v < 16 ==> hex_val_of(#[trigger] hex_digit_of(v)) == v,
{
}

/// A byte's two hex characters are hex characters, and together they
/// determine the byte.
pub proof fn lemma_byte_hex_chars(b: u8)
    ensures
        byte_hex(b).len() == 2,
        is_hex_char(byte_hex(b)[0]),
        is_hex_char(byte_hex(b)[1]),
        byte_hex(b)[0] != 32 && byte_hex(b)[0] != 10,
        byte_hex(b)[1] != 32 && byte_hex(b)[1] != 10,
        hex_val_of(byte_hex(b)[0]) * 16 + hex_val_of(byte_hex(b)[1]) == b,
{
    lemma_hex_digit_chars();
    assert(b / 16 < 16 && b % 16 < 16);
    assert(b == (b / 16) * 16 + b % 16) by {
        vstd::arithmetic::div_mod::lemma_fundamental_div_mod(b as int, 16);
    };
}

/// The address field holds no space and no newline.
pub proof fn lemma_u32_hex_chars(a: u32)
    ensures
        u32_hex(a).len() == 8,
        forall|j: int| 0 <= j < 8 ==> (#[trigger] u32_hex(a)[j]) != 32,
        forall|j: int| 0 <= j < 8 ==> (#[trigger] u32_hex(a)[j]) != 10,
{
    lemma_hex_digit_chars();
}

/// Split a byte into its high and low nibbles.
pub fn u8_to_hex(b: u8) -> (r: (u8, u8))
    ensures
        r.0 == b / 16,
        r.1 == b % 16,
        r.0 < 16,
        r.1 < 16,
{
    (b / 16, b % 16)
}

/// Combine a pair of nibbles, high one first, into the byte they spell.
pub fn hex_to_u8(hex: (u8, u8)) -> (r: u8)
    requires
        hex.0 < 16,
        hex.1 < 16,
    ensures
        r == hex.0 * 16 + hex.1,
{
    hex.0 * 16 + hex.1
}

/// The lowercase hex character of a nibble.
pub fn hex_to_ascii(h: u8) -> (r: u8)
    requires
        h < 16,
    ensures
        r == hex_digit_of(h),
{
    if h < 10 {
        48 + h
    } else {
        87 + h
    }
}

/// The nibble value of a lowercase hex character.
pub fn ascii_to_hex(c: u8) -> (r: u8)
    requires
        is_hex_char(c),
    ensures
        r == hex_val_of(c),
        r < 16,
{
    if c <= 57 {
        c - 48
    } else {
        c - 87
    }
}

/// Whether a lowercase hex character stands at `c`.
pub fn is_hex_digit(c: u8) -> (r: bool)
    ensures
        r == is_hex_char(c),
{
    (48 <= c && c <= 57) || (97 <= c && c <= 102)
}

/// Whether `b` is printable ASCII.
pub fn is_printable(b: u8) -> (r: bool)
    ensures
        r == printable(b),
{
    32 <= b && b <= 126
}

} // verus!
