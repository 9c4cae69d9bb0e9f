//! The codec's global laws: encoding then decoding gives the value back,
//! decoding then encoding gives the string back, and the fixed-width
//! encoding preserves order.

use vstd::arithmetic::div_mod::lemma_fundamental_div_mod_converse;
use vstd::arithmetic::power::pow;
use vstd::prelude::*;

use crate::alphabet::b62_code;
use crate::alphabet::b62_digit;
use crate::alphabet::lemma_b62_code_of_digit;
use crate::alphabet::lemma_b62_digit_of_code;
use crate::codec::b62_digits;
use crate::codec::b62_digits_of;
use crate::codec::b62_string;
use crate::codec::b62_value;
use crate::codec::is_canonical_b62;
use crate::codec::lemma_max_value_fits;
use crate::radix::digits_in_range;
use crate::radix::lemma_first_difference;
use crate::radix::lemma_low_digits_in_range;
use crate::radix::lemma_low_digits_of_value;
use crate::radix::lemma_low_digits_value;
use crate::radix::lemma_radix_value_lex;
use crate::radix::radix_value;

verus! {

/// `s1` comes lexicographically before `s2`, comparing characters by their
/// position in the base62 alphabet (`0-9` before `a-z` before `A-Z`).
pub open spec fn b62_lex_lt(s1: Seq<char>, s2: Seq<char>) -> bool {
    exists|i: int|
        #![trigger s1.take(i), s2.take(i)]
        0 <= i < s1.len() && i < s2.len() && s1.take(i) == s2.take(i) && b62_digit(
            s1[i] as int,
        ) < b62_digit(s2[i] as int)
}

/// The encoding of `v` is 22 characters long, its digit values are exactly
/// the 22 base62 digits of `v`, and those digits denote `v`.
proof fn lemma_b62_string_facts(v: u128)
    ensures
        b62_string(v as int).len() == 22,
        b62_digits_of(v as int).len() == 22,
        digits_in_range(62, b62_digits_of(v as int)),
        radix_value(62, b62_digits_of(v as int)) == v as int,
        b62_digits(b62_string(v as int)) == b62_digits_of(v as int),
        forall|j: int|
            0 <= j < 22 ==> b62_digit((#[trigger] b62_string(v as int)[j]) as int)
                == b62_digits_of(v as int)[j],
{
    let d = b62_digits_of(v as int);
    lemma_low_digits_in_range(62, v as int, 22);
    lemma_low_digits_value(62, v as int, 22);
    lemma_max_value_fits();
    lemma_fundamental_div_mod_converse(v as int, pow(62, 22), 0, v as int);
    let s = b62_string(v as int);
    assert forall|j: int| 0 <= j < 22 implies b62_digit((#[trigger] s[j]) as int) == d[j] by {
        assert(s[j] == (b62_code(d[j]) as u8) as char);
        lemma_b62_code_of_digit(d[j]);
    }
    assert(b62_digits(s) =~= d);
}

/// Round trip one way: the encoding of any 128-bit value is a canonical
/// base62 string, and it decodes back to that very value.
pub proof fn lemma_decode_of_encode(v: u128)
    ensures
        is_canonical_b62(b62_string(v as int)),
        b62_value(b62_string(v as int)) == v as int,
{
    lemma_b62_string_facts(v);
}

/// Round trip the other way: a canonical base62 string is recovered,
/// character for character, by encoding the value it decodes to.
pub proof fn lemma_encode_of_decode(s: Seq<char>)
    requires
        is_canonical_b62(s),
    ensures
        b62_string(b62_value(s)) == s,
{
    let d = b62_digits(s);
    assert(d.len() == 22);
    assert(digits_in_range(62, d)) by {
        assert(forall|j: int|
            0 <= j < 22 ==> #[trigger] d[j] == b62_digit(s[j] as int));
    }
    lemma_low_digits_of_value(62, d);
    let v = b62_value(s);
    assert(b62_digits_of(v) == d);
    assert(b62_string(v) =~= s) by {
        assert forall|j: int| 0 <= j < 22 implies b62_string(v)[j] == s[j] by {
            assert(d[j] == b62_digit(s[j] as int));
            lemma_b62_digit_of_code(s[j] as int);
            assert(b62_code(d[j]) == s[j] as int);
            assert(b62_string(v)[j] == (b62_code(d[j]) as u8) as char);
            vstd::utf8::char_u32_cast(s[j], s[j] as u32);
        }
    }
}

/// Lexicographic order on equally long alphabet strings, by alphabet
/// position, implies order of the denoted values.
pub proof fn lemma_lex_lt_implies_value_lt(s1: Seq<char>, s2: Seq<char>)
    requires
        s1.len() == s2.len(),
        forall|i: int| 0 <= i < s1.len() ==> b62_digit((#[trigger] s1[i]) as int) < 62,
        forall|i: int| 0 <= i < s2.len() ==> b62_digit((#[trigger] s2[i]) as int) < 62,
        b62_lex_lt(s1, s2),
    ensures
        b62_value(s1) < b62_value(s2),
{
    let d1 = b62_digits(s1);
    let d2 = b62_digits(s2);
    assert(digits_in_range(62, d1)) by {
        assert(forall|j: int|
            0 <= j < d1.len() ==> #[trigger] d1[j] == b62_digit(s1[j] as int));
    }
    assert(digits_in_range(62, d2)) by {
        assert(forall|j: int|
            0 <= j < d2.len() ==> #[trigger] d2[j] == b62_digit(s2[j] as int));
    }
    let i = choose|i: int|
        #![trigger s1.take(i), s2.take(i)]
        0 <= i < s1.len() && i < s2.len() && s1.take(i) == s2.take(i) && b62_digit(
            s1[i] as int,
        ) < b62_digit(s2[i] as int);
    assert(d1.take(i) =~= d2.take(i)) by {
        assert(forall|j: int| 0 <= j < i ==> s1.take(i)[j] == s1[j]);
        assert(forall|j: int| 0 <= j < i ==> s2.take(i)[j] == s2[j]);
        assert(forall|j: int|
            0 <= j < i ==> d1.take(i)[j] == b62_digit((#[trigger] s1[j]) as int));
        assert(forall|j: int|
            0 <= j < i ==> d2.take(i)[j] == b62_digit((#[trigger] s2[j]) as int));
    }
    assert(d1[i] == b62_digit(s1[i] as int));
    assert(d2[i] == b62_digit(s2[i] as int));
    lemma_radix_value_lex(62, d1, d2, i);
}

/// The fixed-width encoding preserves order both ways: of two distinct
/// 128-bit values, exactly the smaller one's string comes lexicographically
/// first, comparing characters by alphabet position.
pub proof fn lemma_encoding_monotonic(v1: u128, v2: u128)
    requires
        v1 < v2,
    ensures
        b62_lex_lt(b62_string(v1 as int), b62_string(v2 as int)),
        !b62_lex_lt(b62_string(v2 as int), b62_string(v1 as int)),
{
    let d1 = b62_digits_of(v1 as int);
    let d2 = b62_digits_of(v2 as int);
    let s1 = b62_string(v1 as int);
    let s2 = b62_string(v2 as int);
    lemma_b62_string_facts(v1);
    lemma_b62_string_facts(v2);
    if d1 == d2 {
        assert(false);
    }
    lemma_first_difference(d1, d2);
    let i = choose|i: int|
        0 <= i < d1.len() && d1.take(i) == d2.take(i) && #[trigger] d1[i] != #[trigger] d2[i];
    if d1[i] > d2[i] {
        lemma_radix_value_lex(62, d2, d1, i);
        assert(false);
    }
    assert(d1[i] < d2[i]);
    assert(s1.take(i) =~= s2.take(i)) by {
        assert(forall|j: int| 0 <= j < i ==> d1.take(i)[j] == #[trigger] d1[j]);
        assert(forall|j: int| 0 <= j < i ==> d2.take(i)[j] == #[trigger] d2[j]);
        assert(forall|j: int|
            0 <= j < 22 ==> #[trigger] s1[j] == (b62_code(d1[j]) as u8) as char);
        assert(forall|j: int|
            0 <= j < 22 ==> #[trigger] s2[j] == (b62_code(d2[j]) as u8) as char);
    }
    assert(b62_digit(s1[i] as int) < b62_digit(s2[i] as int));
    assert(0 <= i < s1.len() && i < s2.len() && s1.take(i) == s2.take(i) && b62_digit(
        s1[i] as int,
    ) < b62_digit(s2[i] as int));
    if b62_lex_lt(s2, s1) {
        lemma_lex_lt_implies_value_lt(s2, s1);
        assert(false);
    }
}

} // verus!
