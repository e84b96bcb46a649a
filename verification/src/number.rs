//! The numbers of the notation: integers of 64 bits and of any size, and
//! decimal numbers of any precision, which stand for both kinds of float.
//!
//! A float is kept as a decimal number: a sign, a coefficient and a power of
//! ten. Nothing is rounded, so what is printed denotes exactly what was read.

use crate::digits::{
    all_digits, digits_value, int_text, is_canonical, lemma_canonical_unique,
    lemma_first_difference, lemma_int_text, lemma_leading_zero, lemma_longer_is_larger,
    lemma_nat_digits, nat_digits, zeros,
};
use crate::decimal::{compare_decimals, decimal_order};
use crate::double::{double_text, Double};
use crate::order::{compare_i64, order_of, Order};
use crate::text::{append_chars, chars_of, is_digit, is_sign, slice_string};
use vstd::prelude::*;

verus! {

/// How many zeros the printer writes between the point and the first digit of
/// a small exact number before it turns to an exponent.
pub const MAX_PADDING: u64 = 28;

/// An optional sign and then digits, at least one.
pub open spec fn is_integer_literal(s: Seq<char>) -> bool {
    if s.len() > 0 && is_sign(s[0]) {
        s.len() >= 2 && all_digits(s.skip(1))
    } else {
        s.len() >= 1 && all_digits(s)
    }
}

/// The integer that an integer literal denotes.
pub open spec fn integer_literal_value(s: Seq<char>) -> int {
    if s.len() > 0 && s[0] == '-' {
        -(digits_value(s.skip(1)) as int)
    } else if s.len() > 0 && s[0] == '+' {
        digits_value(s.skip(1)) as int
    } else {
        digits_value(s) as int
    }
}

/// `itoa::Buffer::format` on an `i64`: the integer in decimal, with `-` in
/// front of a negative one and no other character.
#[verifier::external_body]
fn format_i64(value: i64) -> (text: String)
    ensures
        text@ == int_text(value as int),
{
    itoa::Buffer::new().format(value).to_owned()
}

/// `num_bigint::BigInt`'s `from_str` and then its `to_string`: on a sign and
/// decimal digits the first gives the integer they denote, and the second
/// writes an integer in decimal, without leading zeros, with `-` in front of a
/// negative one.
#[verifier::external_body]
fn canonical_integer(literal: &str) -> (text: String)
    requires
        is_integer_literal(literal@),
    ensures
        text@ == int_text(integer_literal_value(literal@)),
{
    literal.parse::<num_bigint::BigInt>().unwrap().to_string()
}

/// An integer of any size, held as its sign and its decimal digits.
#[derive(Debug, PartialEq, Eq, Hash)]
pub struct BigInteger {
    negative: bool,
    digits: String,
}

impl View for BigInteger {
    type V = int;

    closed spec fn view(&self) -> int {
        if self.negative {
            -(digits_value(self.digits@) as int)
        } else {
            digits_value(self.digits@) as int
        }
    }
}

impl Clone for BigInteger {
    fn clone(&self) -> (r: Self)
        ensures
            r@ == self@,
    {
        proof {
            use_type_invariant(self);
        }
        BigInteger { negative: self.negative, digits: self.digits.clone() }
    }
}

/// Compares the numbers that two canonical digit strings denote.
fn compare_magnitudes(a: &str, b: &str) -> (r: Order)
    requires
        is_canonical(a@),
        is_canonical(b@),
    ensures
        r == order_of(digits_value(a@) as int, digits_value(b@) as int),
{
    let x = chars_of(a);
    let y = chars_of(b);
    if x.len() < y.len() {
        proof {
            lemma_longer_is_larger(x@, y@);
        }
        return Order::Less;
    }
    if x.len() > y.len() {
        proof {
            lemma_longer_is_larger(y@, x@);
        }
        return Order::Greater;
    }
    let mut i: usize = 0;
    while i < x.len()
        invariant
            i <= x.len(),
            x.len() == y.len(),
            x@ == a@,
            y@ == b@,
            all_digits(x@),
            all_digits(y@),
            x@.subrange(0, i as int) == y@.subrange(0, i as int),
        decreases x.len() - i,
    {
        if x[i] < y[i] {
            proof {
                lemma_first_difference(x@, y@, i as int);
            }
            return Order::Less;
        }
        if x[i] > y[i] {
            proof {
                lemma_first_difference(y@, x@, i as int);
            }
            return Order::Greater;
        }
        assert(x@.subrange(0, i + 1) =~= x@.subrange(0, i as int).push(x@[i as int]));
        assert(y@.subrange(0, i + 1) =~= y@.subrange(0, i as int).push(y@[i as int]));
        i += 1;
    }
    assert(x@.subrange(0, i as int) =~= x@);
    assert(y@.subrange(0, i as int) =~= y@);
    Order::Equal
}

impl BigInteger {
    #[verifier::type_invariant]
    spec fn well_formed(self) -> bool {
        &&& is_canonical(self.digits@)
        &&& self.negative ==> digits_value(self.digits@) > 0
    }

    /// The integer that a sign and digits denote.
    pub(crate) fn from_literal(literal: &str) -> (r: BigInteger)
        requires
            is_integer_literal(literal@),
        ensures
            r@ == integer_literal_value(literal@),
    {
        let text = canonical_integer(literal);
        let chars = chars_of(text.as_str());
        proof {
            let v = integer_literal_value(literal@);
            lemma_int_text(v);
            if v < 0 {
                lemma_nat_digits((-v) as nat);
            } else {
                lemma_nat_digits(v as nat);
            }
        }
        if chars[0] == '-' {
            let digits = slice_string(&chars, 1, chars.len());
            BigInteger { negative: true, digits }
        } else {
            BigInteger { negative: false, digits: text }
        }
    }

    /// The integer that `literal` denotes, where it is an optional sign
    /// followed by decimal digits.
    pub fn parse(literal: &str) -> (r: Option<BigInteger>)
        ensures
            r is Some <==> is_integer_literal(literal@),
            r matches Some(b) ==> b@ == integer_literal_value(literal@),
    {
        let chars = chars_of(literal);
        let mut i: usize = 0;
        if chars.len() > 0 && (chars[0] == '+' || chars[0] == '-') {
            i = 1;
        }
        let start = i;
        if i >= chars.len() {
            return None;
        }
        while i < chars.len()
            invariant
                start <= i <= chars.len(),
                chars@ == literal@,
                start == 0 || start == 1,
                (start == 1) == (chars.len() > 0 && is_sign(chars@[0])),
                forall|j: int| start <= j < i ==> is_digit(#[trigger] chars@[j]),
            decreases chars.len() - i,
        {
            if !crate::text::digit(chars[i]) {
                proof {
                    if start == 1 {
                        assert(!is_digit(chars@.skip(1)[i - 1]));
                    } else {
                        assert(!is_digit(chars@[i as int]));
                    }
                }
                return None;
            }
            i += 1;
        }
        proof {
            if start == 1 {
                assert forall|j: int| 0 <= j < chars@.skip(1).len() implies is_digit(
                    #[trigger] chars@.skip(1)[j],
                ) by {
                    assert(chars@.skip(1)[j] == chars@[j + 1]);
                }
            }
        }
        Some(BigInteger::from_literal(literal))
    }

    pub fn is_negative(&self) -> (r: bool)
        ensures
            r == (self@ < 0),
    {
        proof {
            use_type_invariant(self);
        }
        self.negative
    }

    /// The integer in decimal.
    pub fn to_text(&self) -> (text: String)
        ensures
            text@ == int_text(self@),
    {
        let mut out = String::new();
        self.append_text(&mut out);
        assert(out@ =~= int_text(self@));
        out
    }

    /// Appends the integer in decimal.
    pub fn append_text(&self, out: &mut String)
        ensures
            final(out)@ == old(out)@ + int_text(self@),
    {
        proof {
            use_type_invariant(self);
            lemma_canonical_unique(self.digits@);
        }
        if self.negative {
            out.push('-');
        }
        out.append(self.digits.as_str());
        assert(out@ =~= old(out)@ + int_text(self@));
    }

    /// Compares two integers by their values.
    pub fn compare(&self, other: &BigInteger) -> (r: Order)
        ensures
            r == order_of(self@, other@),
    {
        proof {
            use_type_invariant(self);
            use_type_invariant(other);
        }
        if self.negative && !other.negative {
            Order::Less
        } else if !self.negative && other.negative {
            Order::Greater
        } else {
            let m = compare_magnitudes(self.digits.as_str(), other.digits.as_str());
            if self.negative {
                m.reversed()
            } else {
                m
            }
        }
    }
}

/// An integer: one of 64 bits, or one of any size.
#[derive(Clone, Debug, PartialEq, Eq, Hash)]
pub enum Integer {
    Exact(i64),
    Arbitrary(BigInteger),
}

/// What an `Integer` stands for.
pub enum IntegerValue {
    Exact(int),
    Arbitrary(int),
}

impl View for Integer {
    type V = IntegerValue;

    open spec fn view(&self) -> IntegerValue {
        match self {
            Integer::Exact(i) => IntegerValue::Exact(*i as int),
            Integer::Arbitrary(b) => IntegerValue::Arbitrary(b@),
        }
    }
}

/// How an integer is written: in decimal, and `N` behind one of any size.
pub open spec fn integer_text(v: IntegerValue) -> Seq<char> {
    match v {
        IntegerValue::Exact(i) => int_text(i),
        IntegerValue::Arbitrary(i) => int_text(i).push('N'),
    }
}

/// The order of the integers: those of 64 bits first, and each kind by value.
pub open spec fn integer_order(a: IntegerValue, b: IntegerValue) -> Order {
    match (a, b) {
        (IntegerValue::Exact(x), IntegerValue::Exact(y)) => order_of(x, y),
        (IntegerValue::Exact(_), IntegerValue::Arbitrary(_)) => Order::Less,
        (IntegerValue::Arbitrary(_), IntegerValue::Exact(_)) => Order::Greater,
        (IntegerValue::Arbitrary(x), IntegerValue::Arbitrary(y)) => order_of(x, y),
    }
}

impl Integer {
    /// Appends the integer as the notation writes it.
    pub fn append_text(&self, out: &mut String)
        ensures
            final(out)@ == old(out)@ + integer_text(self@),
    {
        match self {
            Integer::Exact(i) => {
                let text = format_i64(*i);
                out.append(text.as_str());
            },
            Integer::Arbitrary(b) => {
                b.append_text(out);
                out.push('N');
                assert(out@ =~= old(out)@ + integer_text(self@));
            },
        }
    }

    pub fn compare(&self, other: &Integer) -> (r: Order)
        ensures
            r == integer_order(self@, other@),
    {
        match (self, other) {
            (Integer::Exact(x), Integer::Exact(y)) => compare_i64(*x, *y),
            (Integer::Exact(_), Integer::Arbitrary(_)) => Order::Less,
            (Integer::Arbitrary(_), Integer::Exact(_)) => Order::Greater,
            (Integer::Arbitrary(x), Integer::Arbitrary(y)) => x.compare(y),
        }
    }
}

/// A decimal number: `coefficient` times ten to the `exponent`, with a sign
/// that zero keeps too.
pub struct DecimalValue {
    pub negative: bool,
    pub coefficient: nat,
    pub exponent: int,
}

/// A decimal number of any precision, held as its sign, the digits of its
/// coefficient and its power of ten.
#[derive(Debug, PartialEq, Eq, Hash)]
pub struct Decimal {
    negative: bool,
    digits: String,
    exponent: i64,
}

impl View for Decimal {
    type V = DecimalValue;

    closed spec fn view(&self) -> DecimalValue {
        DecimalValue {
            negative: self.negative,
            coefficient: digits_value(self.digits@),
            exponent: self.exponent as int,
        }
    }
}

impl Clone for Decimal {
    fn clone(&self) -> (r: Self)
        ensures
            r@ == self@,
    {
        proof {
            use_type_invariant(self);
        }
        Decimal { negative: self.negative, digits: self.digits.clone(), exponent: self.exponent }
    }
}

/// How a decimal number is written where a point or an exponent must show:
/// with the point among the digits where it falls there, behind `0` and a few
/// zeros where it falls shortly before them, and else with an exponent.
pub open spec fn decimal_text(d: DecimalValue) -> Seq<char> {
    let sign = if d.negative {
        seq!['-']
    } else {
        Seq::<char>::empty()
    };
    let digits = nat_digits(d.coefficient);
    let n = digits.len() as int;
    let k = -d.exponent;
    if 0 < k < n {
        sign + digits.subrange(0, n - k) + seq!['.'] + digits.subrange(n - k, n)
    } else if n <= k <= n + MAX_PADDING {
        sign + seq!['0', '.'] + zeros((k - n) as nat) + digits
    } else {
        sign + digits + seq!['e'] + int_text(d.exponent)
    }
}

/// How an exact decimal number is written: as a whole number where it is one,
/// else as `decimal_text` has it; `M` follows.
pub open spec fn exact_text(d: DecimalValue) -> Seq<char> {
    if d.exponent == 0 {
        let sign = if d.negative {
            seq!['-']
        } else {
            Seq::<char>::empty()
        };
        (sign + nat_digits(d.coefficient)).push('M')
    } else {
        decimal_text(d).push('M')
    }
}

impl Decimal {
    #[verifier::type_invariant]
    spec fn well_formed(self) -> bool {
        is_canonical(self.digits@)
    }

    /// The number with the given sign, coefficient digits and power of ten.
    /// Zeros in front of the digits are dropped.
    pub(crate) fn from_digits(negative: bool, digits: &Vec<char>, exponent: i64) -> (r: Decimal)
        requires
            digits.len() >= 1,
            all_digits(digits@),
        ensures
            r@ == (DecimalValue {
                negative,
                coefficient: digits_value(digits@),
                exponent: exponent as int,
            }),
    {
        let mut k: usize = 0;
        assert(digits@.subrange(0, digits.len() as int) =~= digits@);
        while k + 1 < digits.len() && digits[k] == '0'
            invariant
                k < digits.len(),
                all_digits(digits@),
                digits_value(digits@) == digits_value(digits@.subrange(k as int, digits.len() as int)),
            decreases digits.len() - k,
        {
            proof {
                let rest = digits@.subrange(k as int, digits.len() as int);
                lemma_leading_zero(rest);
                assert(rest.drop_first() =~= digits@.subrange(k + 1, digits.len() as int));
            }
            k += 1;
        }
        let text = slice_string(digits, k, digits.len());
        proof {
            assert forall|j: int| 0 <= j < text@.len() implies is_digit(#[trigger] text@[j]) by {
                assert(text@[j] == digits@[k + j]);
            }
        }
        Decimal { negative, digits: text, exponent }
    }

    /// The number with the given sign, coefficient and power of ten, where
    /// `digits` holds decimal digits, at least one, and nothing else.
    pub fn from_parts(negative: bool, digits: &str, exponent: i64) -> (r: Option<Decimal>)
        ensures
            r is Some <==> digits@.len() >= 1 && all_digits(digits@),
            r matches Some(d) ==> d@ == (DecimalValue {
                negative,
                coefficient: digits_value(digits@),
                exponent: exponent as int,
            }),
    {
        let chars = chars_of(digits);
        if chars.len() == 0 {
            return None;
        }
        let mut i: usize = 0;
        while i < chars.len()
            invariant
                i <= chars.len(),
                chars@ == digits@,
                forall|j: int| 0 <= j < i ==> is_digit(#[trigger] chars@[j]),
            decreases chars.len() - i,
        {
            if !crate::text::digit(chars[i]) {
                return None;
            }
            i += 1;
        }
        Some(Decimal::from_digits(negative, &chars, exponent))
    }

    pub fn is_negative(&self) -> (r: bool)
        ensures
            r == self@.negative,
    {
        self.negative
    }

    pub fn exponent(&self) -> (r: i64)
        ensures
            r as int == self@.exponent,
    {
        self.exponent
    }

    /// The digits of the coefficient.
    pub fn digits(&self) -> (r: &str)
        ensures
            r@ == nat_digits(self@.coefficient),
    {
        proof {
            use_type_invariant(self);
            lemma_canonical_unique(self.digits@);
        }
        self.digits.as_str()
    }

    /// Appends the sign and the digits of the coefficient.
    fn append_whole(&self, out: &mut String)
        ensures
            final(out)@ == old(out)@ + (if self@.negative {
                seq!['-']
            } else {
                Seq::<char>::empty()
            }) + nat_digits(self@.coefficient),
    {
        if self.negative {
            out.push('-');
        }
        out.append(self.digits());
        assert(out@ =~= old(out)@ + (if self@.negative {
            seq!['-']
        } else {
            Seq::<char>::empty()
        }) + nat_digits(self@.coefficient));
    }

    /// Appends the number as `decimal_text` writes it.
    pub fn append_text(&self, out: &mut String)
        ensures
            final(out)@ == old(out)@ + decimal_text(self@),
    {
        let chars = chars_of(self.digits());
        let n = chars.len();
        let ghost sign = if self@.negative {
            seq!['-']
        } else {
            Seq::<char>::empty()
        };
        if self.negative {
            out.push('-');
        }
        assert(out@ =~= old(out)@ + sign);
        if self.exponent < 0 {
            let k: u128 = (-(self.exponent as i128)) as u128;
            if k < n as u128 {
                let split: usize = n - (k as usize);
                append_chars(out, &chars, 0, split);
                out.push('.');
                append_chars(out, &chars, split, n);
                assert(out@ =~= old(out)@ + decimal_text(self@));
                return ;
            }
            if k <= n as u128 + MAX_PADDING as u128 {
                out.push('0');
                out.push('.');
                let pad: usize = (k - n as u128) as usize;
                let mut i: usize = 0;
                let ghost before = out@;
                assert(before + zeros(0) =~= before);
                while i < pad
                    invariant
                        i <= pad,
                        out@ == before + zeros(i as nat),
                    decreases pad - i,
                {
                    out.push('0');
                    i += 1;
                    assert(zeros(i as nat) =~= zeros((i - 1) as nat).push('0'));
                    assert(out@ =~= before + zeros(i as nat));
                }
                append_chars(out, &chars, 0, n);
                assert(chars@.subrange(0, n as int) =~= chars@);
                assert(out@ =~= old(out)@ + decimal_text(self@));
                return ;
            }
        }
        append_chars(out, &chars, 0, n);
        assert(chars@.subrange(0, n as int) =~= chars@);
        out.push('e');
        let e = format_i64(self.exponent);
        out.append(e.as_str());
        assert(out@ =~= old(out)@ + decimal_text(self@));
    }

    /// Appends the number as `exact_text` writes it.
    pub fn append_exact_text(&self, out: &mut String)
        ensures
            final(out)@ == old(out)@ + exact_text(self@),
    {
        if self.exponent == 0 {
            self.append_whole(out);
        } else {
            self.append_text(out);
        }
        out.push('M');
        assert(out@ =~= old(out)@ + exact_text(self@));
    }

    /// Compares two decimal numbers.
    pub fn compare(&self, other: &Decimal) -> (r: Order)
        ensures
            r == decimal_order(self@, other@),
    {
        compare_decimals(self, other)
    }
}

/// A float: a double, or an exact decimal number. An exact decimal number
/// keeps the digits that were written; a double drops the zeros at their end.
#[derive(Clone, Debug, PartialEq, Eq, Hash)]
pub enum Float {
    Double(Double),
    Exact(Decimal),
}

/// What a `Float` stands for.
pub enum FloatValue {
    Double(DecimalValue),
    Exact(DecimalValue),
}

impl View for Float {
    type V = FloatValue;

    open spec fn view(&self) -> FloatValue {
        match self {
            Float::Double(d) => FloatValue::Double(d@),
            Float::Exact(d) => FloatValue::Exact(d@),
        }
    }
}

/// How a float is written: `M` follows an exact one.
pub open spec fn float_text(v: FloatValue) -> Seq<char> {
    match v {
        FloatValue::Double(d) => double_text(d),
        FloatValue::Exact(d) => exact_text(d),
    }
}

/// The order of the floats: the doubles first, and each kind as `decimal_order` has it.
pub open spec fn float_order(a: FloatValue, b: FloatValue) -> Order {
    match (a, b) {
        (FloatValue::Double(x), FloatValue::Double(y)) => decimal_order(x, y),
        (FloatValue::Double(_), FloatValue::Exact(_)) => Order::Less,
        (FloatValue::Exact(_), FloatValue::Double(_)) => Order::Greater,
        (FloatValue::Exact(x), FloatValue::Exact(y)) => decimal_order(x, y),
    }
}

impl Float {
    /// Appends the float as the notation writes it.
    pub fn append_text(&self, out: &mut String)
        ensures
            final(out)@ == old(out)@ + float_text(self@),
    {
        match self {
            Float::Double(d) => d.append_text(out),
            Float::Exact(d) => d.append_exact_text(out),
        }
    }

    pub fn compare(&self, other: &Float) -> (r: Order)
        ensures
            r == float_order(self@, other@),
    {
        match (self, other) {
            (Float::Double(x), Float::Double(y)) => x.compare(y),
            (Float::Double(_), Float::Exact(_)) => Order::Less,
            (Float::Exact(_), Float::Double(_)) => Order::Greater,
            (Float::Exact(x), Float::Exact(y)) => x.compare(y),
        }
    }
}

} // verus!
