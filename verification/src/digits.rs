//! Decimal digit strings and the natural numbers they denote.

use crate::text::{digit_of, is_digit, is_sign};
use vstd::prelude::*;

verus! {

pub open spec fn pow10(n: nat) -> nat
    decreases n,
{
    if n == 0 {
        1
    } else {
        10 * pow10((n - 1) as nat)
    }
}

/// The number that a string of decimal digits denotes, most significant digit first.
pub open spec fn digits_value(s: Seq<char>) -> nat
    decreases s.len(),
{
    if s.len() == 0 {
        0
    } else {
        digits_value(s.drop_last()) * 10 + digit_of(s.last())
    }
}

pub open spec fn all_digits(s: Seq<char>) -> bool {
    forall|i: int| 0 <= i < s.len() ==> is_digit(#[trigger] s[i])
}

/// At least one digit, and no zero in front of another digit.
pub open spec fn is_canonical(s: Seq<char>) -> bool {
    &&& s.len() >= 1
    &&& all_digits(s)
    &&& s.len() > 1 ==> s[0] != '0'
}

/// The character of a digit's value.
pub open spec fn digit_char(d: nat) -> char {
    ((d + 48) as u8) as char
}

/// The digits of a natural number, without leading zeros.
pub open spec fn nat_digits(n: nat) -> Seq<char>
    decreases n,
{
    if n < 10 {
        seq![digit_char(n)]
    } else {
        nat_digits(n / 10).push(digit_char(n % 10))
    }
}

/// An integer in decimal, with `-` in front of a negative one.
pub open spec fn int_text(v: int) -> Seq<char> {
    if v < 0 {
        seq!['-'] + nat_digits((-v) as nat)
    } else {
        nat_digits(v as nat)
    }
}

/// `n` zeros.
pub open spec fn zeros(n: nat) -> Seq<char> {
    Seq::new(n, |i: int| '0')
}

pub proof fn lemma_digit_char(d: nat)
    requires
        d < 10,
    ensures
        is_digit(digit_char(d)),
        digit_of(digit_char(d)) == d,
        d == 0 <==> digit_char(d) == '0',
        !is_sign(digit_char(d)),
{
}

pub proof fn lemma_digit_of(c: char)
    requires
        is_digit(c),
    ensures
        digit_of(c) < 10,
        digit_char(digit_of(c)) == c,
{
}

pub proof fn lemma_pow10_positive(n: nat)
    ensures
        pow10(n) >= 1,
    decreases n,
{
    if n > 0 {
        lemma_pow10_positive((n - 1) as nat);
    }
}

/// The digits of a number are canonical and denote it.
pub proof fn lemma_nat_digits(n: nat)
    ensures
        is_canonical(nat_digits(n)),
        digits_value(nat_digits(n)) == n,
        n > 0 ==> nat_digits(n)[0] != '0',
        n < 10 <==> nat_digits(n).len() == 1,
    decreases n,
{
    if n < 10 {
        lemma_digit_char(n);
        let s = nat_digits(n);
        assert(s.drop_last() =~= Seq::<char>::empty());
        assert(digits_value(s.drop_last()) == 0);
    } else {
        lemma_nat_digits(n / 10);
        lemma_digit_char(n % 10);
        let init = nat_digits(n / 10);
        let s = nat_digits(n);
        assert(s.drop_last() =~= init);
        assert(s.last() == digit_char(n % 10));
        assert(s[0] == init[0]);
        assert forall|i: int| 0 <= i < s.len() implies is_digit(#[trigger] s[i]) by {
            if i < init.len() {
                assert(s[i] == init[i]);
            }
        }
    }
}

/// Digits bound the number from above by their count.
pub proof fn lemma_value_upper_bound(s: Seq<char>)
    requires
        all_digits(s),
    ensures
        digits_value(s) < pow10(s.len()),
    decreases s.len(),
{
    if s.len() > 0 {
        let init = s.drop_last();
        assert forall|i: int| 0 <= i < init.len() implies is_digit(#[trigger] init[i]) by {
            assert(init[i] == s[i]);
        }
        lemma_value_upper_bound(init);
        assert(is_digit(s[s.len() - 1]));
    }
}

/// With a first digit that is not zero, the count of digits bounds the number from below.
pub proof fn lemma_value_lower_bound(s: Seq<char>)
    requires
        all_digits(s),
        s.len() >= 1,
        s[0] != '0',
    ensures
        digits_value(s) >= pow10((s.len() - 1) as nat),
    decreases s.len(),
{
    let init = s.drop_last();
    if s.len() == 1 {
        assert(is_digit(s[0]));
        assert(init =~= Seq::<char>::empty());
        assert(digits_value(init) == 0);
    } else {
        assert forall|i: int| 0 <= i < init.len() implies is_digit(#[trigger] init[i]) by {
            assert(init[i] == s[i]);
        }
        assert(init[0] == s[0]);
        lemma_value_lower_bound(init);
    }
}

/// A canonical digit string is the digits of the number it denotes.
pub proof fn lemma_canonical_unique(s: Seq<char>)
    requires
        is_canonical(s),
    ensures
        nat_digits(digits_value(s)) == s,
    decreases s.len(),
{
    let init = s.drop_last();
    assert(is_digit(s[s.len() - 1]));
    lemma_digit_of(s.last());
    if s.len() == 1 {
        assert(init =~= Seq::<char>::empty());
        assert(digits_value(init) == 0);
        assert(nat_digits(digits_value(s)) =~= s);
    } else {
        assert forall|i: int| 0 <= i < init.len() implies is_digit(#[trigger] init[i]) by {
            assert(init[i] == s[i]);
        }
        assert(init[0] == s[0]);
        lemma_canonical_unique(init);
        lemma_value_lower_bound(init);
        lemma_pow10_positive((init.len() - 1) as nat);
        let v = digits_value(s);
        assert(v / 10 == digits_value(init));
        assert(v % 10 == digit_of(s.last()));
        assert(nat_digits(v) =~= s);
    }
}

/// A zero in front changes nothing.
pub proof fn lemma_leading_zero(s: Seq<char>)
    requires
        s.len() >= 1,
        s[0] == '0',
    ensures
        digits_value(s) == digits_value(s.drop_first()),
    decreases s.len(),
{
    if s.len() == 1 {
        assert(s.drop_last() =~= Seq::<char>::empty());
        assert(s.drop_first() =~= Seq::<char>::empty());
        assert(digits_value(s.drop_last()) == 0);
    } else {
        let init = s.drop_last();
        assert(init[0] == s[0]);
        lemma_leading_zero(init);
        assert(init.drop_first() =~= s.drop_first().drop_last());
        assert(s.drop_first().last() == s.last());
    }
}

/// Zeros in front change nothing.
pub proof fn lemma_leading_zeros(n: nat, s: Seq<char>)
    ensures
        digits_value(zeros(n) + s) == digits_value(s),
    decreases n,
{
    if n == 0 {
        assert(zeros(n) + s =~= s);
    } else {
        let t = zeros(n) + s;
        assert(t[0] == '0');
        lemma_leading_zero(t);
        assert(t.drop_first() =~= zeros((n - 1) as nat) + s);
        lemma_leading_zeros((n - 1) as nat, s);
    }
}

/// Appending a digit multiplies by ten and adds it.
pub proof fn lemma_value_push(s: Seq<char>, c: char)
    ensures
        digits_value(s.push(c)) == digits_value(s) * 10 + digit_of(c),
{
    assert(s.push(c).drop_last() =~= s);
}

/// A string of digits denotes at least what any of its beginnings denotes.
pub proof fn lemma_value_prefix(s: Seq<char>, i: int)
    requires
        0 <= i <= s.len(),
    ensures
        digits_value(s.subrange(0, i)) <= digits_value(s),
    decreases s.len() - i,
{
    if i == s.len() {
        assert(s.subrange(0, i) =~= s);
    } else {
        lemma_value_prefix(s, i + 1);
        assert(s.subrange(0, i + 1).drop_last() =~= s.subrange(0, i));
    }
}

/// Of two digit strings of one length that first differ at `i`, the one with
/// the smaller digit there denotes the smaller number.
pub proof fn lemma_first_difference(x: Seq<char>, y: Seq<char>, i: int)
    requires
        all_digits(x),
        all_digits(y),
        x.len() == y.len(),
        0 <= i < x.len(),
        x.subrange(0, i) == y.subrange(0, i),
        x[i] < y[i],
    ensures
        digits_value(x) < digits_value(y),
    decreases x.len(),
{
    let xi = x.drop_last();
    let yi = y.drop_last();
    assert(is_digit(x[x.len() - 1]));
    assert(is_digit(y[y.len() - 1]));
    assert(is_digit(x[i]));
    assert(is_digit(y[i]));
    if i == x.len() - 1 {
        assert(xi =~= x.subrange(0, i));
        assert(yi =~= y.subrange(0, i));
    } else {
        assert forall|j: int| 0 <= j < xi.len() implies is_digit(#[trigger] xi[j]) by {
            assert(xi[j] == x[j]);
        }
        assert forall|j: int| 0 <= j < yi.len() implies is_digit(#[trigger] yi[j]) by {
            assert(yi[j] == y[j]);
        }
        assert(xi.subrange(0, i) =~= x.subrange(0, i));
        assert(yi.subrange(0, i) =~= y.subrange(0, i));
        lemma_first_difference(xi, yi, i);
    }
}

/// Of two canonical digit strings the longer denotes the larger number.
pub proof fn lemma_longer_is_larger(x: Seq<char>, y: Seq<char>)
    requires
        is_canonical(x),
        is_canonical(y),
        x.len() < y.len(),
    ensures
        digits_value(x) < digits_value(y),
{
    lemma_value_upper_bound(x);
    lemma_value_lower_bound(y);
    lemma_pow10_monotonic(x.len(), (y.len() - 1) as nat);
}

pub proof fn lemma_pow10_monotonic(a: nat, b: nat)
    requires
        a <= b,
    ensures
        pow10(a) <= pow10(b),
    decreases b,
{
    if a < b {
        lemma_pow10_monotonic(a, (b - 1) as nat);
    }
}

/// The text of an integer begins with `-` exactly when the integer is negative,
/// and its digits follow.
pub proof fn lemma_int_text(v: int)
    ensures
        int_text(v).len() >= 1,
        v < 0 <==> int_text(v)[0] == '-',
        v < 0 ==> int_text(v).subrange(1, int_text(v).len() as int) == nat_digits((-v) as nat),
        v >= 0 ==> is_digit(int_text(v)[0]),
{
    if v < 0 {
        lemma_nat_digits((-v) as nat);
        assert(int_text(v).subrange(1, int_text(v).len() as int) =~= nat_digits((-v) as nat));
    } else {
        lemma_nat_digits(v as nat);
        assert(is_digit(nat_digits(v as nat)[0]));
    }
}

/// Powers of ten multiply as their exponents add.
pub proof fn lemma_pow10_add(a: nat, b: nat)
    ensures
        pow10(a + b) == pow10(a) * pow10(b),
    decreases a,
{
    if a == 0 {
        assert(pow10(0) == 1);
        assert(1 * pow10(b) == pow10(b));
    } else {
        lemma_pow10_add((a - 1) as nat, b);
        assert(pow10(a + b) == 10 * pow10((a - 1 + b) as nat));
        assert(10 * (pow10((a - 1) as nat) * pow10(b)) == (10 * pow10((a - 1) as nat)) * pow10(b))
            by (nonlinear_arith);
    }
}

/// Zeros behind a digit string multiply the number by a power of ten.
pub proof fn lemma_value_padded(s: Seq<char>, k: nat)
    ensures
        digits_value(s + zeros(k)) == digits_value(s) * pow10(k),
    decreases k,
{
    if k == 0 {
        assert(s + zeros(0) =~= s);
        assert(digits_value(s) * 1 == digits_value(s));
    } else {
        let t = s + zeros(k);
        assert(t.drop_last() =~= s + zeros((k - 1) as nat));
        assert(t.last() == '0');
        lemma_value_padded(s, (k - 1) as nat);
        assert((digits_value(s) * pow10((k - 1) as nat)) * 10 == digits_value(s) * (10 * pow10(
            (k - 1) as nat,
        ))) by (nonlinear_arith);
    }
}

/// Multiplying both sides by a positive number keeps their order.
pub proof fn lemma_scale_keeps_order(a: int, b: int, p: int)
    requires
        p > 0,
    ensures
        a < b <==> a * p < b * p,
        a == b <==> a * p == b * p,
{
    assert(a < b ==> a * p < b * p) by (nonlinear_arith)
        requires
            p > 0,
    ;
    assert(b < a ==> b * p < a * p) by (nonlinear_arith)
        requires
            p > 0,
    ;
}

} // verus!
