//! The base62 alphabet `0-9a-zA-Z` and, for the hexadecimal input side of the
//! encoder, the base16 alphabet `0-9a-fA-F`.

use vstd::prelude::*;

verus! {

/// The base62 digit value a character code denotes: `0`-`9` give 0 to 9,
/// `a`-`z` give 10 to 35, `A`-`Z` give 36 to 61. Codes outside the alphabet
/// give 62, which no digit reaches, so `b62_digit(c) < 62` says that `c` is
/// an alphabet character.
pub open spec fn b62_digit(c: int) -> int {
    if 48 <= c && c <= 57 {
        c - 48
    } else if 97 <= c && c <= 122 {
        c - 97 + 10
    } else if 65 <= c && c <= 90 {
        c - 65 + 36
    } else {
        62
    }
}

/// The character code of a base62 digit value in `[0, 61]`; 0 for the values
/// outside, which `base62_char` rejects.
pub open spec fn b62_code(d: int) -> int {
    if 0 <= d && d <= 9 {
        d + 48
    } else if 10 <= d && d <= 35 {
        d + 97 - 10
    } else if 36 <= d && d <= 61 {
        d + 65 - 36
    } else {
        0
    }
}

/// The base16 digit value a character code denotes: `0`-`9`, `a`-`f` and
/// `A`-`F` give 0 to 15; every other code gives 16.
pub open spec fn hex_digit(c: int) -> int {
    if 48 <= c && c <= 57 {
        c - 48
    } else if 97 <= c && c <= 102 {
        c - 97 + 10
    } else if 65 <= c && c <= 70 {
        c - 65 + 10
    } else {
        16
    }
}

/// Every base62 digit value maps to an ASCII alphabet character, and back to
/// itself.
pub proof fn lemma_b62_code_of_digit(d: int)
    requires
        0 <= d < 62,
    ensures
        48 <= b62_code(d) <= 122,
        b62_digit(b62_code(d)) == d,
{
}

/// Every alphabet character code maps to a digit value, and back to itself.
pub proof fn lemma_b62_digit_of_code(c: int)
    requires
        b62_digit(c) < 62,
    ensures
        48 <= c <= 122,
        b62_code(b62_digit(c)) == c,
{
}

/// The digit value of a base62 alphabet byte, or `None` for a byte outside
/// the alphabet.
pub fn base62_val(value_char: &u8) -> (r: Option<u8>)
    ensures
        r is Some <==> b62_digit(*value_char as int) < 62,
        r matches Some(v) ==> v as int == b62_digit(*value_char as int),
{
    let c = *value_char;
    if 48 <= c && c <= 57 {
        Some(c - 48)
    } else if 97 <= c && c <= 122 {
        Some(c - 97 + 10)
    } else if 65 <= c && c <= 90 {
        Some(c - 65 + 36)
    } else {
        None
    }
}

/// The base62 alphabet byte for a digit value in `[0, 61]`, or `None` for a
/// value outside that range.
pub fn base62_char(value: u8) -> (r: Option<u8>)
    ensures
        r is Some <==> value < 62,
        r matches Some(c) ==> c as int == b62_code(value as int),
{
    if value <= 9 {
        Some(48 + value)
    } else if value <= 35 {
        Some(97 + value - 10)
    } else if value <= 61 {
        Some(65 + value - 36)
    } else {
        None
    }
}

/// The digit value of a base16 alphabet byte, or `None` for a byte outside
/// the alphabet.
pub(crate) fn hex_val(value_char: u8) -> (r: Option<u8>)
    ensures
        r is Some <==> hex_digit(value_char as int) < 16,
        r matches Some(v) ==> v as int == hex_digit(value_char as int),
{
    if 48 <= value_char && value_char <= 57 {
        Some(value_char - 48)
    } else if 97 <= value_char && value_char <= 102 {
        Some(value_char - 97 + 10)
    } else if 65 <= value_char && value_char <= 70 {
        Some(value_char - 65 + 10)
    } else {
        None
    }
}

} // verus!
