//! Doubles: decimal numbers in their shortest form, and the text that is
//! written for them.
//!
//! A double is held as the decimal number that was written, with the zeros at
//! the end of its digits dropped: `1.50` and `1.5` are one double. Its text
//! has a point or an exponent, so that it is read as a double again.

use crate::decimal::{compare_decimals, decimal_order};
use crate::digits::{
    digit_char, digits_value, int_text, is_canonical, lemma_nat_digits, lemma_value_lower_bound,
    lemma_pow10_positive, nat_digits, zeros,
};
use crate::number::{Decimal, DecimalValue};
use crate::order::Order;
use crate::text::{append_chars, chars_of, is_digit};
use vstd::prelude::*;

verus! {

/// The most digits in front of the point before the printer turns to an exponent.
pub const MAX_WHOLE_DIGITS: i128 = 16;

/// The most zeros between the point and the digits, and one more, before the
/// printer turns to an exponent.
pub const MAX_SMALL_ZEROS: i128 = 5;

/// Whether no zero stands at the end of the digits; zero itself has the
/// power of ten zero.
pub open spec fn is_normal(d: DecimalValue) -> bool {
    if d.coefficient == 0 {
        d.exponent == 0
    } else {
        d.coefficient % 10 != 0
    }
}

/// The same number without zeros at the end of its digits.
pub open spec fn normalize(d: DecimalValue) -> DecimalValue
    decreases d.coefficient,
{
    if d.coefficient == 0 {
        DecimalValue { negative: d.negative, coefficient: 0, exponent: 0 }
    } else if d.coefficient % 10 == 0 {
        normalize(
            DecimalValue {
                negative: d.negative,
                coefficient: d.coefficient / 10,
                exponent: d.exponent + 1,
            },
        )
    } else {
        d
    }
}

/// What `normalize` gives is normal, keeps the sign, and is its argument
/// where that is normal.
pub proof fn lemma_normalize(d: DecimalValue)
    ensures
        is_normal(normalize(d)),
        normalize(d).negative == d.negative,
        normalize(d).exponent >= d.exponent || d.coefficient == 0,
        is_normal(d) ==> normalize(d) == d,
    decreases d.coefficient,
{
    if d.coefficient != 0 && d.coefficient % 10 == 0 {
        lemma_normalize(
            DecimalValue {
                negative: d.negative,
                coefficient: d.coefficient / 10,
                exponent: d.exponent + 1,
            },
        );
    }
}

/// Zeros behind the digits of a normal number are dropped again.
pub proof fn lemma_normalize_scaled(d: DecimalValue, z: nat)
    requires
        is_normal(d),
        d.coefficient != 0,
    ensures
        normalize(
            DecimalValue {
                negative: d.negative,
                coefficient: d.coefficient * crate::digits::pow10(z),
                exponent: d.exponent - z,
            },
        ) == d,
    decreases z,
{
    let p = crate::digits::pow10(z);
    lemma_pow10_positive(z);
    if z == 0 {
        assert(d.coefficient * 1 == d.coefficient);
    } else {
        let q = crate::digits::pow10((z - 1) as nat);
        lemma_pow10_positive((z - 1) as nat);
        let c = d.coefficient * p;
        assert(c == (d.coefficient * q) * 10) by (nonlinear_arith)
            requires
                c == d.coefficient * p,
                p == 10 * q,
        ;
        assert(d.coefficient * q >= 1) by (nonlinear_arith)
            requires
                d.coefficient >= 1,
                q >= 1,
        ;
        lemma_normalize_scaled(d, (z - 1) as nat);
    }
}

/// How a double is written. With n digits and the power of ten k, the point
/// falls behind the digit n + k. Up to sixteen digits in front of the point
/// are written out, with `.0` behind a whole number; up to four zeros are
/// written between the point and the digits; else the point stands behind
/// the first digit and an exponent follows.
pub open spec fn double_text(d: DecimalValue) -> Seq<char> {
    let sign = if d.negative {
        seq!['-']
    } else {
        Seq::<char>::empty()
    };
    let digits = nat_digits(d.coefficient);
    let n = digits.len() as int;
    let k = d.exponent;
    let point = n + k;
    if 0 <= k && point <= MAX_WHOLE_DIGITS {
        sign + whole_form(digits, k as nat)
    } else if 0 < point <= MAX_WHOLE_DIGITS {
        sign + point_form(digits, point)
    } else if -MAX_SMALL_ZEROS < point <= 0 {
        sign + small_form(digits, (-point) as nat)
    } else {
        sign + exponent_form(digits, point - 1)
    }
}

/// Appends `count` zeros.
pub fn append_zeros(out: &mut String, count: usize)
    ensures
        final(out)@ == old(out)@ + zeros(count as nat),
{
    let mut i: usize = 0;
    assert(out@ + zeros(0) =~= out@);
    while i < count
        invariant
            i <= count,
            out@ == old(out)@ + zeros(i as nat),
        decreases count - i,
    {
        out.push('0');
        i += 1;
        assert(zeros(i as nat) =~= zeros((i - 1) as nat).push('0'));
        assert(out@ =~= old(out)@ + zeros(i as nat));
    }
}

/// Appends a natural number in decimal.
pub fn append_nat(out: &mut String, n: u128)
    ensures
        final(out)@ == old(out)@ + nat_digits(n as nat),
    decreases n,
{
    if n >= 10 {
        append_nat(out, n / 10);
    }
    let d: u8 = (n % 10) as u8;
    let c: char = (d + 48) as char;
    assert(c == digit_char((n % 10) as nat));
    out.push(c);
    assert(out@ =~= old(out)@ + nat_digits(n as nat));
}

/// Appends an integer in decimal, with `-` in front of a negative one.
pub fn append_int(out: &mut String, v: i128)
    ensures
        final(out)@ == old(out)@ + int_text(v as int),
{
    if v < 0 {
        out.push('-');
        let magnitude: u128 = ((-(v + 1)) as u128) + 1;
        append_nat(out, magnitude);
        assert(out@ =~= old(out)@ + int_text(v as int));
    } else {
        append_nat(out, v as u128);
    }
}

/// What is written behind the sign of a whole number: its digits, the zeros
/// of its power of ten, and `.0`.
pub open spec fn whole_form(digits: Seq<char>, k: nat) -> Seq<char> {
    digits + zeros(k) + seq!['.', '0']
}

/// What is written behind the sign where the point falls among the digits.
pub open spec fn point_form(digits: Seq<char>, point: int) -> Seq<char> {
    digits.subrange(0, point) + seq!['.'] + digits.subrange(point, digits.len() as int)
}

/// What is written behind the sign where the point falls before the digits.
pub open spec fn small_form(digits: Seq<char>, count: nat) -> Seq<char> {
    seq!['0', '.'] + zeros(count) + digits
}

/// What is written behind the sign with an exponent: the point stands behind
/// the first digit, and is left out where no digit follows it.
pub open spec fn exponent_form(digits: Seq<char>, e: int) -> Seq<char> {
    if digits.len() == 1 {
        digits + seq!['e'] + int_text(e)
    } else {
        digits.subrange(0, 1) + seq!['.'] + digits.subrange(1, digits.len() as int) + seq!['e']
            + int_text(e)
    }
}

fn append_whole_form(out: &mut String, chars: &Vec<char>, k: usize)
    ensures
        final(out)@ == old(out)@ + whole_form(chars@, k as nat),
{
    append_chars(out, chars, 0, chars.len());
    assert(chars@.subrange(0, chars.len() as int) =~= chars@);
    append_zeros(out, k);
    out.push('.');
    out.push('0');
    assert(out@ =~= old(out)@ + whole_form(chars@, k as nat));
}

fn append_point_form(out: &mut String, chars: &Vec<char>, point: usize)
    requires
        point <= chars.len(),
    ensures
        final(out)@ == old(out)@ + point_form(chars@, point as int),
{
    append_chars(out, chars, 0, point);
    out.push('.');
    append_chars(out, chars, point, chars.len());
    assert(out@ =~= old(out)@ + point_form(chars@, point as int));
}

fn append_small_form(out: &mut String, chars: &Vec<char>, count: usize)
    ensures
        final(out)@ == old(out)@ + small_form(chars@, count as nat),
{
    out.push('0');
    out.push('.');
    append_zeros(out, count);
    append_chars(out, chars, 0, chars.len());
    assert(chars@.subrange(0, chars.len() as int) =~= chars@);
    assert(out@ =~= old(out)@ + small_form(chars@, count as nat));
}

fn append_exponent_form(out: &mut String, chars: &Vec<char>, e: i128)
    requires
        chars.len() >= 1,
    ensures
        final(out)@ == old(out)@ + exponent_form(chars@, e as int),
{
    if chars.len() == 1 {
        append_chars(out, chars, 0, 1);
        assert(chars@.subrange(0, 1) =~= chars@);
    } else {
        append_chars(out, chars, 0, 1);
        out.push('.');
        append_chars(out, chars, 1, chars.len());
    }
    out.push('e');
    append_int(out, e);
    assert(out@ =~= old(out)@ + exponent_form(chars@, e as int));
}

/// A double: a decimal number without zeros at the end of its digits.
#[derive(Debug, PartialEq, Eq, Hash)]
pub struct Double {
    value: Decimal,
}

impl View for Double {
    type V = DecimalValue;

    closed spec fn view(&self) -> DecimalValue {
        self.value@
    }
}

impl Clone for Double {
    fn clone(&self) -> (r: Self)
        ensures
            r@ == self@,
    {
        proof {
            use_type_invariant(self);
        }
        Double { value: self.value.clone() }
    }
}

/// Dropping a zero at the end of more than one digit divides the number by ten.
proof fn lemma_drop_zero(s: Seq<char>)
    requires
        is_canonical(s),
        s.len() >= 2,
        s.last() == '0',
    ensures
        digits_value(s) % 10 == 0,
        digits_value(s) / 10 == digits_value(s.drop_last()),
        digits_value(s) != 0,
        is_canonical(s.drop_last()),
{
    lemma_value_lower_bound(s);
    lemma_pow10_positive((s.len() - 1) as nat);
    let init = s.drop_last();
    assert forall|i: int| 0 <= i < init.len() implies is_digit(#[trigger] init[i]) by {
        assert(init[i] == s[i]);
    }
    assert(init[0] == s[0]);
}

impl Double {
    #[verifier::type_invariant]
    spec fn well_formed(self) -> bool {
        is_normal(self.value@)
    }

    /// The double that a decimal number denotes: the same number without
    /// zeros at the end of its digits; `None` where its power of ten then no
    /// longer fits in 64 bits.
    pub fn from_decimal(d: &Decimal) -> (r: Option<Double>)
        ensures
            match r {
                Some(x) => x@ == normalize(d@) && i64::MIN <= x@.exponent <= i64::MAX,
                None => !(i64::MIN <= normalize(d@).exponent <= i64::MAX),
            },
    {
        let chars = chars_of(d.digits());
        let n = chars.len();
        proof {
            lemma_nat_digits(d@.coefficient);
            lemma_normalize(d@);
        }
        if n == 1 && chars[0] == '0' {
            let zero = Decimal::from_digits(d.is_negative(), &chars, 0);
            return Some(Double { value: zero });
        }
        assert(d@.coefficient != 0);
        assert(chars@[0] != '0');
        let mut m: usize = n;
        let negative = d.is_negative();
        let exponent = d.exponent();
        assert(chars@.subrange(0, n as int) =~= chars@);
        while m > 1 && chars[m - 1] == '0'
            invariant
                1 <= m <= n,
                n == chars.len(),
                chars@[0] != '0',
                is_canonical(chars@.subrange(0, m as int)),
                normalize(d@) == normalize(
                    DecimalValue {
                        negative,
                        coefficient: digits_value(chars@.subrange(0, m as int)),
                        exponent: exponent + (n - m),
                    },
                ),
            decreases m,
        {
            proof {
                let s = chars@.subrange(0, m as int);
                assert(s.last() == chars@[m - 1]);
                lemma_drop_zero(s);
                assert(s.drop_last() =~= chars@.subrange(0, m - 1));
            }
            m -= 1;
        }
        proof {
            let s = chars@.subrange(0, m as int);
            assert(s.last() == chars@[m - 1]);
            lemma_value_lower_bound(s);
            lemma_pow10_positive((s.len() - 1) as nat);
            assert(crate::text::is_digit(s[s.len() - 1]));
            if m == 1 {
                assert(s[0] == chars@[0]);
            }
            assert(digits_value(s) % 10 == crate::text::digit_of(s.last()));
        }
        let lifted: i128 = exponent as i128 + (n - m) as i128;
        if lifted > 0x7fff_ffff_ffff_ffff {
            return None;
        }
        let mut digits: Vec<char> = Vec::new();
        let mut i: usize = 0;
        while i < m
            invariant
                i <= m <= chars.len(),
                digits@ == chars@.subrange(0, i as int),
            decreases m - i,
        {
            digits.push(chars[i]);
            i += 1;
            assert(digits@ =~= chars@.subrange(0, i as int));
        }
        let value = Decimal::from_digits(negative, &digits, lifted as i64);
        Some(Double { value })
    }

    /// The decimal number that the double is held as.
    pub fn decimal(&self) -> (r: &Decimal)
        ensures
            r@ == self@,
            is_normal(self@),
    {
        proof {
            use_type_invariant(self);
        }
        &self.value
    }

    pub fn is_negative(&self) -> (r: bool)
        ensures
            r == self@.negative,
    {
        self.value.is_negative()
    }

    pub fn exponent(&self) -> (r: i64)
        ensures
            r as int == self@.exponent,
    {
        self.value.exponent()
    }

    /// The digits, without zeros at their end.
    pub fn digits(&self) -> (r: &str)
        ensures
            r@ == nat_digits(self@.coefficient),
    {
        self.value.digits()
    }

    /// Appends the double as `double_text` writes it.
    pub fn append_text(&self, out: &mut String)
        ensures
            final(out)@ == old(out)@ + double_text(self@),
    {
        let chars = chars_of(self.value.digits());
        let n = chars.len();
        let k = self.value.exponent();
        let point: i128 = n as i128 + k as i128;
        proof {
            lemma_nat_digits(self@.coefficient);
        }
        if self.value.is_negative() {
            out.push('-');
        }
        let ghost signed = out@;
        if k >= 0 && point <= MAX_WHOLE_DIGITS {
            append_whole_form(out, &chars, k as usize);
        } else if 0 < point && point <= MAX_WHOLE_DIGITS {
            append_point_form(out, &chars, point as usize);
        } else if -MAX_SMALL_ZEROS < point && point <= 0 {
            append_small_form(out, &chars, (-point) as usize);
        } else {
            append_exponent_form(out, &chars, point - 1);
        }
        assert(out@ =~= old(out)@ + double_text(self@));
    }

    /// Compares two doubles by the numbers they denote; of two zeros the
    /// negative comes first.
    pub fn compare(&self, other: &Double) -> (r: Order)
        ensures
            r == decimal_order(self@, other@),
    {
        compare_decimals(&self.value, &other.value)
    }
}

} // verus!
