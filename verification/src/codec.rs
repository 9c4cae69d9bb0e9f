//! The codec itself: `get_integer` decodes a 22-character base62 string to a
//! `u128`, and `get_b62` encodes a 128-bit value, given as a hexadecimal
//! string, to its fixed-width 22-character base62 form.

use vstd::arithmetic::div_mod::{
    lemma_div_decreases, lemma_div_denominator, lemma_fundamental_div_mod,
    lemma_fundamental_div_mod_converse, lemma_mod_division_less_than_divisor,
    lemma_multiply_divide_lt,
};
use vstd::arithmetic::mul::lemma_mul_inequality;
use vstd::arithmetic::power::{lemma_pow_positive, pow};
use vstd::prelude::*;
use vstd::string::StringSliceAdditionalSpecFns;
use vstd::utf8::is_ascii_chars;

use specialized_div_rem::u128_div_rem_delegate;

use crate::alphabet::b62_code;
use crate::alphabet::b62_digit;
use crate::alphabet::base62_char;
use crate::alphabet::base62_val;
use crate::alphabet::hex_digit;
use crate::alphabet::hex_val;
use crate::radix::digits_in_range;
use crate::radix::lemma_low_digits_in_range;
use crate::radix::lemma_low_digits_prepend;
use crate::radix::lemma_low_digits_small;
use crate::radix::lemma_low_digits_value;
use crate::radix::lemma_radix_value_lex;
use crate::radix::lemma_radix_value_prefix;
use crate::radix::lemma_radix_value_push;
use crate::radix::low_digits;
use crate::radix::radix_value;

verus! {

/// The base62 digit values of a character string; characters outside the
/// alphabet appear as the out-of-range marker 62.
pub open spec fn b62_digits(s: Seq<char>) -> Seq<int> {
    s.map_values(|c: char| b62_digit(c as int))
}

/// The integer a base62 character string denotes.
pub open spec fn b62_value(s: Seq<char>) -> int {
    radix_value(62, b62_digits(s))
}

/// A canonical base62 string: exactly 22 characters, every one in the
/// alphabet, denoting a value that fits in 128 bits. These are exactly the
/// strings that decode.
pub open spec fn is_canonical_b62(s: Seq<char>) -> bool {
    &&& s.len() == 22
    &&& forall|i: int| 0 <= i < s.len() ==> b62_digit((#[trigger] s[i]) as int) < 62
    &&& b62_value(s) <= u128::MAX as int
}

/// The 22 base62 digit values of `v`, most significant first.
pub open spec fn b62_digits_of(v: int) -> Seq<int> {
    low_digits(62, v, 22)
}

/// The fixed-width base62 encoding of `v`: 22 ASCII bytes, left-padded with
/// the zero character.
pub open spec fn b62_encoding(v: int) -> Seq<u8> {
    b62_digits_of(v).map_values(|d: int| b62_code(d) as u8)
}

/// The fixed-width base62 encoding of `v`, as a character string.
pub open spec fn b62_string(v: int) -> Seq<char> {
    b62_encoding(v).map_values(|b: u8| b as char)
}

/// The base62 digit values of `2^128 - 1`, the largest encodable value; its
/// canonical string is `7N42dgm5tFLK9N8MT7fHC7`.
pub open spec fn max_b62_digits() -> Seq<int> {
    b62_digits_of(u128::MAX as int)
}

/// `2^128 - 1` fits in 22 base62 digits: it lies below `62^22`.
pub proof fn lemma_max_value_fits()
    ensures
        (u128::MAX as int) < pow(62, 22),
{
    reveal_with_fuel(pow, 23);
}

/// The maximum-value digit table holds 22 digit values in range, and denotes
/// exactly `2^128 - 1`.
pub proof fn lemma_max_b62_digits()
    ensures
        max_b62_digits().len() == 22,
        digits_in_range(62, max_b62_digits()),
        radix_value(62, max_b62_digits()) == u128::MAX as int,
{
    lemma_low_digits_in_range(62, u128::MAX as int, 22);
    lemma_low_digits_value(62, u128::MAX as int, 22);
    lemma_max_value_fits();
    lemma_fundamental_div_mod_converse(u128::MAX as int, pow(62, 22), 0, u128::MAX as int);
}

/// The maximum-value table: the digit values of `7N42dgm5tFLK9N8MT7fHC7`,
/// the base62 representation of `2^128 - 1`, as an explicit constant.
#[verifier::rlimit(100)]
fn max_val_array() -> (r: [u8; 22])
    ensures
        r@.map_values(|b: u8| b as int) == max_b62_digits(),
{
    let r: [u8; 22] = [
        7, 49, 4, 2, 13, 16, 22, 5, 29, 41, 47, 46, 9, 49, 8, 48, 55, 7, 15, 43, 38, 7,
    ];
    proof {
        reveal_with_fuel(low_digits, 23);
        assert(r@.map_values(|b: u8| b as int) =~= max_b62_digits());
    }
    r
}

/// A canonical base62 string holds only alphabet characters, which are all
/// ASCII.
proof fn lemma_canonical_is_ascii(s: Seq<char>)
    requires
        is_canonical_b62(s),
    ensures
        is_ascii_chars(s),
{
    assert forall|i: int| 0 <= i < s.len() implies '\0' <= #[trigger] s[i] <= '\u{7f}' by {
        assert(b62_digit(s[i] as int) < 62);
    }
}

/// Digit-wise comparison against the maximum-value table, most significant
/// digit first: decides whether a 22-digit string denotes a value that fits
/// in 128 bits, without ever forming the value.
fn fits_in_128_bits(vals: &[u8; 22]) -> (r: bool)
    requires
        digits_in_range(62, vals@.map_values(|b: u8| b as int)),
    ensures
        r <==> radix_value(62, vals@.map_values(|b: u8| b as int)) <= u128::MAX as int,
{
    let maxv = max_val_array();
    let ghost d = vals@.map_values(|b: u8| b as int);
    let ghost m = maxv@.map_values(|b: u8| b as int);
    proof {
        lemma_max_b62_digits();
    }
    let mut i: usize = 0;
    while i < 22
        invariant
            0 <= i <= 22,
            d == vals@.map_values(|b: u8| b as int),
            m == maxv@.map_values(|b: u8| b as int),
            m == max_b62_digits(),
            d.len() == 22,
            m.len() == 22,
            digits_in_range(62, d),
            digits_in_range(62, m),
            radix_value(62, m) == u128::MAX as int,
            d.take(i as int) == m.take(i as int),
        decreases 22 - i,
    {
        if vals[i] > maxv[i] {
            proof {
                lemma_radix_value_lex(62, m, d, i as int);
            }
            return false;
        }
        if vals[i] < maxv[i] {
            proof {
                lemma_radix_value_lex(62, d, m, i as int);
            }
            return true;
        }
        proof {
            assert(d.take(i + 1) =~= d.take(i as int).push(d[i as int]));
            assert(m.take(i + 1) =~= m.take(i as int).push(m[i as int]));
        }
        i += 1;
    }
    proof {
        assert(d =~= d.take(22));
        assert(m =~= m.take(22));
    }
    true
}

/// Decode a 22-character base62 string.
///
/// Returns the value the string denotes, or `None` when the string is not
/// exactly 22 characters long, holds a character outside `0-9a-zA-Z`, or
/// denotes a value larger than `2^128 - 1`. The range check compares digit
/// values against the maximum-value table from the most significant digit
/// down, so no arithmetic is done on an out-of-range candidate.
pub fn get_integer(base62: &str) -> (r: Option<u128>)
    ensures
        r is Some <==> is_canonical_b62(base62@),
        r matches Some(v) ==> v as int == b62_value(base62@),
{
    let ghost s = base62@;
    if !base62.is_ascii() {
        proof {
            if is_canonical_b62(s) {
                lemma_canonical_is_ascii(s);
            }
        }
        return None;
    }
    proof {
        vstd::string::is_ascii_spec_bytes(base62);
    }
    let bytes = base62.as_bytes();
    if bytes.len() != 22 {
        return None;
    }
    let mut vals: [u8; 22] = [0u8; 22];
    let mut i: usize = 0;
    while i < 22
        invariant
            0 <= i <= 22,
            s == base62@,
            s.len() == 22,
            bytes@.len() == 22,
            forall|j: int| 0 <= j < 22 ==> bytes@[j] == (#[trigger] s[j]) as u8,
            is_ascii_chars(s),
            forall|j: int|
                0 <= j < i ==> b62_digit((#[trigger] s[j]) as int) < 62 && vals@[j] as int
                    == b62_digit(s[j] as int),
        decreases 22 - i,
    {
        match base62_val(&bytes[i]) {
            Some(v) => {
                vals[i] = v;
            },
            None => {
                proof {
                    let c = s[i as int];
                    assert('\0' <= c <= '\u{7f}');
                    assert(c as int <= 127);
                    assert((c as u8) as int == c as int);
                    assert(b62_digit(c as int) >= 62);
                }
                return None;
            },
        }
        i += 1;
    }
    let ghost d = b62_digits(s);
    proof {
        assert(d =~= vals@.map_values(|b: u8| b as int));
        assert(digits_in_range(62, vals@.map_values(|b: u8| b as int)));
    }
    if !fits_in_128_bits(&vals) {
        return None;
    }
    let mut bi: u128 = 0;
    let mut i: usize = 0;
    while i < 22
        invariant
            0 <= i <= 22,
            s == base62@,
            d == b62_digits(s),
            d.len() == 22,
            d == vals@.map_values(|b: u8| b as int),
            digits_in_range(62, d),
            radix_value(62, d) <= u128::MAX as int,
            bi as int == radix_value(62, d.take(i as int)),
        decreases 22 - i,
    {
        proof {
            assert(d.take(i + 1) =~= d.take(i as int).push(d[i as int]));
            lemma_radix_value_push(62, d.take(i as int), d[i as int]);
            lemma_radix_value_prefix(62, d, i + 1);
        }
        bi = bi * 62 + (vals[i] as u128);
        i += 1;
    }
    proof {
        assert(d =~= d.take(22));
    }
    Some(bi)
}

/// The base16 digit values of a character string; characters outside the
/// hexadecimal alphabet appear as the out-of-range marker 16.
pub open spec fn hex_digits(s: Seq<char>) -> Seq<int> {
    s.map_values(|c: char| hex_digit(c as int))
}

/// The integer a hexadecimal digit string denotes.
pub open spec fn hex_value(s: Seq<char>) -> int {
    radix_value(16, hex_digits(s))
}

/// The digit part of a hexadecimal input: what follows one optional leading
/// plus sign.
pub open spec fn hex_payload(s: Seq<char>) -> Seq<char> {
    if s.len() > 0 && s[0] == '+' {
        s.drop_first()
    } else {
        s
    }
}

/// An input the encoder accepts: an optional plus sign, then at least one
/// hexadecimal digit, together denoting a value that fits in 128 bits.
pub open spec fn is_parseable_hex(s: Seq<char>) -> bool {
    &&& hex_payload(s).len() > 0
    &&& forall|i: int|
        0 <= i < hex_payload(s).len() ==> hex_digit((#[trigger] hex_payload(s)[i]) as int) < 16
    &&& hex_value(hex_payload(s)) <= u128::MAX as int
}

/// An acceptable hexadecimal input holds only the plus sign and hexadecimal
/// digits, which are all ASCII.
proof fn lemma_parseable_is_ascii(s: Seq<char>)
    requires
        is_parseable_hex(s),
    ensures
        is_ascii_chars(s),
{
    let p = hex_payload(s);
    assert forall|i: int| 0 <= i < s.len() implies '\0' <= #[trigger] s[i] <= '\u{7f}' by {
        if s.len() > 0 && s[0] == '+' {
            if i == 0 {
                assert(s[i] as int == 43);
            } else {
                assert(s[i] == p[i - 1]);
                assert(hex_digit(p[i - 1] as int) < 16);
            }
        } else {
            assert(s[i] == p[i]);
            assert(hex_digit(p[i] as int) < 16);
        }
    }
}

/// Fill a 22-byte buffer with the base62 encoding of `v`: repeated division
/// by 62 writes digits from the right, and the positions never reached keep
/// the zero character, which forms the left padding.
fn encode_value(v: u128) -> (r: [u8; 22])
    ensures
        r@ == b62_encoding(v as int),
{
    // 48 is the code of `0`, the padding character
    let mut arr: [u8; 22] = [48u8; 22];
    let mut cur: u128 = v;
    let mut idx: usize = 22;
    proof {
        lemma_max_value_fits();
        reveal(pow);
        lemma_fundamental_div_mod_converse(v as int, 1, v as int, 0);
        assert(arr@.subrange(22, 22) =~= low_digits(62, v as int, 0nat).map_values(
            (|d: int| b62_code(d) as u8),
        ));
    }
    while cur > 0
        invariant
            0 <= idx <= 22,
            cur as int == v as int / pow(62, (22 - idx) as nat),
            (cur as int) < pow(62, idx as nat),
            arr@.subrange(idx as int, 22) == low_digits(62, v as int, (22 - idx) as nat).map_values(
                (|d: int| b62_code(d) as u8),
            ),
            forall|j: int| 0 <= j < idx ==> arr@[j] == 48,
        decreases cur,
    {
        proof {
            if idx == 0 {
                reveal(pow);
                assert(false);
            }
            lemma_mod_division_less_than_divisor(cur as int, 62);
        }
        let (q, rem) = u128_div_rem_delegate(cur, 62);
        let c = base62_char(rem as u8).unwrap();
        let ghost arr0 = arr@;
        arr[idx - 1] = c;
        proof {
            let k = (22 - idx) as nat;
            lemma_low_digits_in_range(62, v as int, k);
            lemma_low_digits_in_range(62, v as int, (k + 1) as nat);
            lemma_low_digits_prepend(62, v as int, k);
            lemma_pow_positive(62, k);
            lemma_div_denominator(v as int, pow(62, k), 62);
            lemma_div_decreases(cur as int, 62);
            reveal(pow);
            assert(pow(62, (k + 1) as nat) == 62 * pow(62, k));
            assert(pow(62, idx as nat) == 62 * pow(62, (idx - 1) as nat));
            lemma_multiply_divide_lt(cur as int, 62, pow(62, (idx - 1) as nat));
            let enc = |d: int| b62_code(d) as u8;
            let lo0 = low_digits(62, v as int, k);
            let lo1 = low_digits(62, v as int, (k + 1) as nat);
            assert(lo1 == seq![(v as int / pow(62, k)) % 62] + lo0);
            assert(lo1.len() == k + 1);
            assert(lo1[0] == (cur as int) % 62);
            assert(arr@ == arr0.update(idx - 1, c));
            assert(arr@.subrange(idx - 1, 22) =~= lo1.map_values(enc)) by {
                assert forall|j: int| 0 <= j < k + 1 implies arr@.subrange(idx - 1, 22)[j]
                    == lo1.map_values(enc)[j] by {
                    if j == 0 {
                        assert(arr@.subrange(idx - 1, 22)[0] == c);
                        assert(c as int == b62_code((cur as int) % 62));
                        assert(lo1.map_values(enc)[0] == b62_code((cur as int) % 62) as u8);
                    } else {
                        assert(arr@.subrange(idx - 1, 22)[j] == arr0[idx - 1 + j]);
                        assert(arr0[idx - 1 + j] == arr0.subrange(idx as int, 22)[j - 1]);
                        assert(arr0.subrange(idx as int, 22)[j - 1] == lo0.map_values(enc)[j - 1]);
                        assert(lo1[j] == lo0[j - 1]);
                        assert(lo1.map_values(enc)[j] == enc(lo1[j]));
                        assert(lo0.map_values(enc)[j - 1] == enc(lo0[j - 1]));
                    }
                }
            }
            assert(forall|j: int| 0 <= j < idx - 1 ==> arr@[j] == 48);
        }
        cur = q;
        idx = idx - 1;
    }
    proof {
        let k = (22 - idx) as nat;
        lemma_pow_positive(62, k);
        lemma_fundamental_div_mod(v as int, pow(62, k));
        lemma_mod_division_less_than_divisor(v as int, pow(62, k));
        assert(cur as int == 0);
        assert(v as int / pow(62, k) == 0);
        assert(v as int == pow(62, k) * (v as int / pow(62, k)) + (v as int % pow(62, k)));
        assert((v as int) < pow(62, k));
        lemma_low_digits_in_range(62, v as int, k);
        lemma_low_digits_in_range(62, v as int, 22);
        lemma_low_digits_small(62, v as int, k, 22);
        let enc = |d: int| b62_code(d) as u8;
        let lo0 = low_digits(62, v as int, k);
        let lo = low_digits(62, v as int, 22);
        assert(lo == Seq::new((22 - k) as nat, |i: int| 0int) + lo0);
        assert(arr@ =~= b62_encoding(v as int)) by {
            assert forall|j: int| 0 <= j < 22 implies arr@[j] == lo.map_values(enc)[j] by {
                assert(lo.map_values(enc)[j] == enc(lo[j]));
                if j < idx {
                    assert(lo[j] == Seq::new((22 - k) as nat, |i: int| 0int)[j]);
                    assert(lo[j] == 0);
                    assert(b62_code(0) == 48);
                } else {
                    assert(arr@[j] == arr@.subrange(idx as int, 22)[j - idx]);
                    assert(arr@.subrange(idx as int, 22)[j - idx] == lo0.map_values(enc)[j - idx]);
                    assert(lo[j] == lo0[j - idx]);
                    assert(lo0.map_values(enc)[j - idx] == enc(lo0[j - idx]));
                }
            }
        }
    }
    arr
}

/// Encode the 128-bit value a hexadecimal string denotes.
///
/// The input is an optional plus sign followed by hexadecimal digits whose
/// value fits in 128 bits; any other input yields `None`. The result is the
/// fixed-width base62 form of that value: 22 ASCII bytes over `0-9a-zA-Z`,
/// left-padded with `0`.
pub fn get_b62(hex: &str) -> (r: Option<[u8; 22]>)
    ensures
        r is Some <==> is_parseable_hex(hex@),
        r matches Some(arr) ==> arr@ == b62_encoding(hex_value(hex_payload(hex@))),
{
    let ghost s = hex@;
    if !hex.is_ascii() {
        proof {
            if is_parseable_hex(s) {
                lemma_parseable_is_ascii(s);
            }
        }
        return None;
    }
    proof {
        vstd::string::is_ascii_spec_bytes(hex);
    }
    let bytes = hex.as_bytes();
    let n = bytes.len();
    let mut start: usize = 0;
    // 43 is the code of `+`, the one sign the input may carry
    if n > 0 && bytes[0] == 43 {
        start = 1;
        proof {
            vstd::utf8::char_u32_cast(s[0], 43);
            vstd::utf8::char_u32_cast('+', 43);
            assert(s[0] == '+');
        }
    }
    let ghost p = hex_payload(s);
    proof {
        if n > 0 && s[0] == '+' {
            assert(start == 1);
        }
        assert(p =~= s.skip(start as int));
    }
    if start == n {
        proof {
            assert(p.len() == 0);
        }
        return None;
    }
    let ghost pd = hex_digits(p);
    let mut acc: u128 = 0;
    let mut i: usize = start;
    while i < n
        invariant
            start <= i <= n,
            start <= 1,
            n > start,
            s == hex@,
            n == s.len(),
            n == bytes@.len(),
            is_ascii_chars(s),
            forall|j: int| 0 <= j < n ==> bytes@[j] == (#[trigger] s[j]) as u8,
            p == hex_payload(s),
            p == s.skip(start as int),
            pd == hex_digits(p),
            pd.len() == n - start,
            forall|j: int| 0 <= j < i - start ==> 0 <= #[trigger] pd[j] < 16,
            acc as int == radix_value(16, pd.take(i - start)),
        decreases n - i,
    {
        let d = match hex_val(bytes[i]) {
            Some(d) => d,
            None => {
                proof {
                    let c = s[i as int];
                    assert('\0' <= c <= '\u{7f}');
                    assert((c as u8) as int == c as int);
                    assert(p[i - start] == c);
                    assert(hex_digit(c as int) >= 16);
                }
                return None;
            },
        };
        proof {
            let c = s[i as int];
            assert('\0' <= c <= '\u{7f}');
            assert((c as u8) as int == c as int);
            assert(p[i - start] == c);
            assert(d as int == pd[i - start]);
            assert(0 <= pd[i - start] < 16);
            lemma_fundamental_div_mod(u128::MAX as int - d as int, 16);
            lemma_mod_division_less_than_divisor(u128::MAX as int - d as int, 16);
        }
        if acc > (u128::MAX - d as u128) / 16 {
            proof {
                let k = i - start;
                assert(pd.take(k + 1) =~= pd.take(k as int).push(pd[k as int]));
                lemma_radix_value_push(16, pd.take(k as int), pd[k as int]);
                lemma_mul_inequality(
                    (u128::MAX as int - d as int) / 16 + 1,
                    acc as int,
                    16,
                );
                assert(acc as int * 16 + d as int > u128::MAX as int);
                if is_parseable_hex(s) {
                    assert(digits_in_range(16, pd)) by {
                        assert(forall|j: int|
                            0 <= j < pd.len() ==> #[trigger] pd[j] == hex_digit(p[j] as int));
                    }
                    lemma_radix_value_prefix(16, pd, k + 1);
                    assert(false);
                }
            }
            return None;
        }
        acc = acc * 16 + d as u128;
        proof {
            let k = i - start;
            assert(pd.take(k + 1) =~= pd.take(k as int).push(pd[k as int]));
            lemma_radix_value_push(16, pd.take(k as int), pd[k as int]);
        }
        i += 1;
    }
    proof {
        assert(pd.take(n - start) =~= pd);
        assert(is_parseable_hex(s)) by {
            assert(forall|j: int|
                0 <= j < p.len() ==> hex_digit((#[trigger] p[j]) as int) == pd[j]);
        }
    }
    let arr = encode_value(acc);
    Some(arr)
}

} // verus!
