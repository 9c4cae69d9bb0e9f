//! Positional numerals over an arbitrary base: the value a digit string
//! denotes, the digit string of a value, and how digit-wise comparison of
//! equally long strings relates to comparison of their values.

use vstd::arithmetic::div_mod::{
    lemma_breakdown, lemma_div_decreases, lemma_div_denominator, lemma_div_pos_is_pos,
    lemma_fundamental_div_mod_converse, lemma_mod_division_less_than_divisor,
};
use vstd::arithmetic::power::{lemma_pow_increases, lemma_pow_positive, pow};
use vstd::prelude::*;

verus! {

/// The integer a digit string denotes in the given base, most significant
/// digit first.
pub open spec fn radix_value(base: int, digits: Seq<int>) -> int
    decreases digits.len(),
{
    if digits.len() == 0 {
        0
    } else {
        radix_value(base, digits.drop_last()) * base + digits.last()
    }
}

/// All digits lie in `[0, base)`.
pub open spec fn digits_in_range(base: int, digits: Seq<int>) -> bool {
    forall|i: int| 0 <= i < digits.len() ==> 0 <= #[trigger] digits[i] < base
}

/// The low `n` digits of `v` in the given base, most significant first.
pub open spec fn low_digits(base: int, v: int, n: nat) -> Seq<int>
    decreases n,
{
    if n == 0 {
        Seq::empty()
    } else {
        low_digits(base, v / base, (n - 1) as nat).push(v % base)
    }
}

/// Appending a digit multiplies the value by the base and adds the digit.
pub proof fn lemma_radix_value_push(base: int, digits: Seq<int>, d: int)
    ensures
        radix_value(base, digits.push(d)) == radix_value(base, digits) * base + d,
{
    assert(digits.push(d).drop_last() =~= digits);
    assert(digits.push(d).last() == d);
}

/// A digit string in range denotes a value in `[0, base^len)`.
pub proof fn lemma_radix_value_bound(base: int, digits: Seq<int>)
    requires
        base >= 1,
        digits_in_range(base, digits),
    ensures
        0 <= radix_value(base, digits) < pow(base, digits.len()),
    decreases digits.len(),
{
    reveal(pow);
    if digits.len() == 0 {
    } else {
        let d0 = digits.drop_last();
        assert(digits_in_range(base, d0)) by {
            assert(forall|i: int| 0 <= i < d0.len() ==> d0[i] == digits[i]);
        }
        lemma_radix_value_bound(base, d0);
        let v0 = radix_value(base, d0);
        let last = digits.last();
        let p = pow(base, d0.len());
        assert(0 <= last < base);
        assert(pow(base, digits.len()) == base * p);
        assert(0 <= v0 * base + last < base * p) by (nonlinear_arith)
            requires
                0 <= v0 < p,
                0 <= last < base,
                base >= 1,
        ;
    }
}

/// Splitting a digit string splits its value: the prefix is scaled by
/// `base^(suffix length)` and the suffix is added.
pub proof fn lemma_radix_value_split(base: int, digits: Seq<int>, i: int)
    requires
        0 <= i <= digits.len(),
    ensures
        radix_value(base, digits) == radix_value(base, digits.take(i)) * pow(
            base,
            (digits.len() - i) as nat,
        ) + radix_value(base, digits.skip(i)),
    decreases digits.len(),
{
    reveal(pow);
    if i == digits.len() {
        assert(digits.take(i) =~= digits);
        assert(digits.skip(i) =~= Seq::<int>::empty());
    } else {
        let d0 = digits.drop_last();
        lemma_radix_value_split(base, d0, i);
        assert(digits.take(i) =~= d0.take(i));
        assert(d0.skip(i) =~= digits.skip(i).drop_last());
        assert(digits.skip(i).last() == digits.last());
        let t = radix_value(base, digits.take(i));
        let p0 = pow(base, (d0.len() - i) as nat);
        let s0 = radix_value(base, d0.skip(i));
        assert(pow(base, (digits.len() - i) as nat) == base * p0);
        assert(radix_value(base, digits) == (t * p0 + s0) * base + digits.last());
        assert(radix_value(base, digits.skip(i)) == s0 * base + digits.last());
        assert((t * p0 + s0) * base == t * (base * p0) + s0 * base) by (nonlinear_arith);
    }
}

/// The value of a prefix never exceeds the value of the whole string.
pub proof fn lemma_radix_value_prefix(base: int, digits: Seq<int>, i: int)
    requires
        base >= 1,
        digits_in_range(base, digits),
        0 <= i <= digits.len(),
    ensures
        0 <= radix_value(base, digits.take(i)) <= radix_value(base, digits),
{
    lemma_radix_value_split(base, digits, i);
    assert(digits_in_range(base, digits.take(i))) by {
        assert(forall|j: int| 0 <= j < i ==> digits.take(i)[j] == digits[j]);
    }
    assert(digits_in_range(base, digits.skip(i))) by {
        assert(forall|j: int|
            0 <= j < digits.len() - i ==> #[trigger] digits.skip(i)[j] == digits[j + i]);
    }
    lemma_radix_value_bound(base, digits.take(i));
    lemma_radix_value_bound(base, digits.skip(i));
    let t = radix_value(base, digits.take(i));
    let s = radix_value(base, digits.skip(i));
    let p = pow(base, (digits.len() - i) as nat);
    lemma_pow_positive(base, (digits.len() - i) as nat);
    assert(t <= t * p + s) by (nonlinear_arith)
        requires
            t >= 0,
            s >= 0,
            p >= 1,
    ;
}

/// Digit strings of equal length compare like their values: if the first
/// difference favours `b`, then `a` denotes the smaller value.
pub proof fn lemma_radix_value_lex(base: int, a: Seq<int>, b: Seq<int>, i: int)
    requires
        base >= 1,
        a.len() == b.len(),
        digits_in_range(base, a),
        digits_in_range(base, b),
        0 <= i < a.len(),
        a.take(i) == b.take(i),
        a[i] < b[i],
    ensures
        radix_value(base, a) < radix_value(base, b),
{
    lemma_radix_value_split(base, a, i + 1);
    lemma_radix_value_split(base, b, i + 1);
    assert(a.take(i + 1) =~= a.take(i).push(a[i]));
    assert(b.take(i + 1) =~= b.take(i).push(b[i]));
    lemma_radix_value_push(base, a.take(i), a[i]);
    lemma_radix_value_push(base, b.take(i), b[i]);
    let ta = radix_value(base, a.take(i + 1));
    let tb = radix_value(base, b.take(i + 1));
    assert(ta < tb);
    assert(digits_in_range(base, a.skip(i + 1))) by {
        assert(forall|j: int|
            0 <= j < a.len() - i - 1 ==> #[trigger] a.skip(i + 1)[j] == a[j + i + 1]);
    }
    assert(digits_in_range(base, b.skip(i + 1))) by {
        assert(forall|j: int|
            0 <= j < b.len() - i - 1 ==> #[trigger] b.skip(i + 1)[j] == b[j + i + 1]);
    }
    lemma_radix_value_bound(base, a.skip(i + 1));
    lemma_radix_value_bound(base, b.skip(i + 1));
    let p = pow(base, (a.len() - i - 1) as nat);
    let sa = radix_value(base, a.skip(i + 1));
    let sb = radix_value(base, b.skip(i + 1));
    lemma_pow_positive(base, (a.len() - i - 1) as nat);
    assert(ta * p + sa < tb * p + sb) by (nonlinear_arith)
        requires
            ta < tb,
            0 <= sa < p,
            0 <= sb,
    ;
}

/// `low_digits` yields `n` digits, all in range.
pub proof fn lemma_low_digits_in_range(base: int, v: int, n: nat)
    requires
        base >= 1,
        v >= 0,
    ensures
        low_digits(base, v, n).len() == n,
        digits_in_range(base, low_digits(base, v, n)),
    decreases n,
{
    if n > 0 {
        lemma_div_pos_is_pos(v, base);
        lemma_low_digits_in_range(base, v / base, (n - 1) as nat);
        lemma_mod_division_less_than_divisor(v, base);
        let d0 = low_digits(base, v / base, (n - 1) as nat);
        assert(forall|i: int|
            0 <= i < n - 1 ==> d0.push(v % base)[i] == d0[i]);
    }
}

/// The low `n` digits of `v` denote `v mod base^n`.
pub proof fn lemma_low_digits_value(base: int, v: int, n: nat)
    requires
        base >= 1,
        v >= 0,
    ensures
        radix_value(base, low_digits(base, v, n)) == v % pow(base, n),
    decreases n,
{
    reveal(pow);
    if n == 0 {
        lemma_fundamental_div_mod_converse(v, 1, v, 0);
    } else {
        lemma_div_pos_is_pos(v, base);
        lemma_low_digits_value(base, v / base, (n - 1) as nat);
        lemma_radix_value_push(
            base,
            low_digits(base, v / base, (n - 1) as nat),
            v % base,
        );
        let p0 = pow(base, (n - 1) as nat);
        lemma_pow_positive(base, (n - 1) as nat);
        lemma_breakdown(v, base, p0);
        assert(pow(base, n) == base * p0);
        assert(((v / base) % p0) * base == base * ((v / base) % p0)) by (nonlinear_arith);
    }
}

/// `low_digits` inverts `radix_value`: a digit string in range is recovered
/// from its value.
pub proof fn lemma_low_digits_of_value(base: int, digits: Seq<int>)
    requires
        base >= 1,
        digits_in_range(base, digits),
    ensures
        low_digits(base, radix_value(base, digits), digits.len()) == digits,
    decreases digits.len(),
{
    if digits.len() == 0 {
        assert(low_digits(base, radix_value(base, digits), digits.len()) =~= digits);
    } else {
        let d0 = digits.drop_last();
        assert(digits_in_range(base, d0)) by {
            assert(forall|i: int| 0 <= i < d0.len() ==> d0[i] == digits[i]);
        }
        lemma_low_digits_of_value(base, d0);
        let v0 = radix_value(base, d0);
        let last = digits.last();
        let v = radix_value(base, digits);
        lemma_radix_value_bound(base, d0);
        lemma_fundamental_div_mod_converse(v, base, v0, last);
        assert(low_digits(base, v, digits.len()) =~= digits) by {
            assert(low_digits(base, v, digits.len()) == low_digits(
                base,
                v0,
                d0.len(),
            ).push(last));
            assert(low_digits(base, v0, d0.len()) == d0);
            assert(d0.push(last) =~= digits);
        }
    }
}

/// The `n + 1` low digits are the digit at weight `base^n` followed by the
/// `n` low digits.
pub proof fn lemma_low_digits_prepend(base: int, v: int, n: nat)
    requires
        base >= 1,
        v >= 0,
    ensures
        low_digits(base, v, (n + 1) as nat) == seq![(v / pow(base, n)) % base]
            + low_digits(base, v, n),
    decreases n,
{
    reveal(pow);
    if n == 0 {
        lemma_fundamental_div_mod_converse(v, 1, v, 0);
        assert(low_digits(base, v / base, 0nat) =~= Seq::<int>::empty());
        assert(low_digits(base, v, 1nat) =~= seq![(v / pow(base, 0nat)) % base]
            + low_digits(base, v, 0nat));
    } else {
        lemma_div_pos_is_pos(v, base);
        lemma_low_digits_prepend(base, v / base, (n - 1) as nat);
        let p0 = pow(base, (n - 1) as nat);
        lemma_pow_positive(base, (n - 1) as nat);
        lemma_div_denominator(v, base, p0);
        assert(pow(base, n) == base * p0);
        assert(low_digits(base, v, (n + 1) as nat) =~= seq![(v / pow(base, n)) % base]
            + low_digits(base, v, n)) by {
            assert(low_digits(base, v, (n + 1) as nat) == low_digits(
                base,
                v / base,
                n,
            ).push(v % base));
            assert(low_digits(base, v / base, n) == seq![((v / base) / p0) % base]
                + low_digits(base, v / base, (n - 1) as nat));
            assert(low_digits(base, v, n) == low_digits(
                base,
                v / base,
                (n - 1) as nat,
            ).push(v % base));
        }
    }
}

/// A value below `base^n` keeps its low `n` digits under a wider width; the
/// extra high digits are zero.
pub proof fn lemma_low_digits_small(base: int, v: int, n: nat, m: nat)
    requires
        base >= 1,
        0 <= v < pow(base, n),
        n <= m,
    ensures
        low_digits(base, v, m) == Seq::new((m - n) as nat, |i: int| 0)
            + low_digits(base, v, n),
    decreases m,
{
    if m == n {
        assert(low_digits(base, v, m) =~= Seq::new((m - n) as nat, |i: int| 0)
            + low_digits(base, v, n));
    } else {
        lemma_low_digits_small(base, v, n, (m - 1) as nat);
        lemma_low_digits_prepend(base, v, (m - 1) as nat);
        lemma_pow_increases(base as nat, n, (m - 1) as nat);
        lemma_pow_positive(base, (m - 1) as nat);
        lemma_fundamental_div_mod_converse(v, pow(base, (m - 1) as nat), 0, v);
        assert((0int) % base == 0) by {
            lemma_fundamental_div_mod_converse(0, base, 0, 0);
        }
        assert(low_digits(base, v, m) =~= Seq::new((m - n) as nat, |i: int| 0)
            + low_digits(base, v, n));
    }
}

/// Two distinct digit strings of equal length disagree at some position with
/// all earlier positions equal.
pub proof fn lemma_first_difference(a: Seq<int>, b: Seq<int>)
    requires
        a.len() == b.len(),
        a != b,
    ensures
        exists|i: int|
            0 <= i < a.len() && a.take(i) == b.take(i) && #[trigger] a[i] != #[trigger] b[i],
    decreases a.len(),
{
    if a.len() == 0 {
        assert(a =~= b);
    } else if a.drop_last() == b.drop_last() {
        let i = a.len() - 1;
        if a[i] == b[i] {
            assert forall|j: int| 0 <= j < a.len() - 1 implies a[j] == b[j] by {
                assert(a[j] == a.drop_last()[j]);
                assert(b[j] == b.drop_last()[j]);
            }
            assert(a =~= b);
        }
        assert(a.take(i) =~= a.drop_last());
        assert(b.take(i) =~= b.drop_last());
        assert(0 <= i < a.len() && a.take(i) == b.take(i) && a[i] != b[i]);
    } else {
        lemma_first_difference(a.drop_last(), b.drop_last());
        let i = choose|i: int|
            0 <= i < a.drop_last().len() && a.drop_last().take(i) == b.drop_last().take(i)
                && #[trigger] a.drop_last()[i] != #[trigger] b.drop_last()[i];
        assert(a.take(i) =~= a.drop_last().take(i));
        assert(b.take(i) =~= b.drop_last().take(i));
        assert(0 <= i < a.len() && a.take(i) == b.take(i) && a[i] != b[i]);
    }
}

} // verus!
