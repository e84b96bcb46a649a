//! Numbers are read again from their texts.

use crate::ast::Value;
use crate::digits::{
    all_digits, digits_value, int_text, lemma_leading_zeros, lemma_nat_digits,
    lemma_value_padded, nat_digits, pow10, zeros,
};
use crate::double::{
    double_text, exponent_form, is_normal, lemma_normalize, lemma_normalize_scaled, normalize,
    point_form, small_form, whole_form, MAX_SMALL_ZEROS, MAX_WHOLE_DIGITS,
};
use crate::error::ErrorKind;
use crate::grammar::{
    coefficient_digits, number_at, number_layout, power_of_ten, starts_number, NumberLayout,
};
use crate::number::{
    decimal_text, float_text, integer_text, DecimalValue, FloatValue, IntegerValue, MAX_PADDING,
};
use crate::occurs::{
    lemma_digits_run, lemma_occurs_concat, lemma_occurs_subrange, occurs, token_stops,
};
use crate::text::{is_constituent, is_digit};
use vstd::prelude::*;

verus! {

/// The parts that a number is written with.
pub struct NumberParts {
    pub negative: bool,
    pub whole: Seq<char>,
    pub fraction: Option<Seq<char>>,
    pub exponent: Option<(bool, Seq<char>)>,
    pub suffix: Option<char>,
}

pub open spec fn are_digits(t: Seq<char>) -> bool {
    t.len() >= 1 && all_digits(t)
}

impl NumberParts {
    /// Each part holds digits, at least one, and the suffix is `N` or `M`.
    pub open spec fn well_formed(self) -> bool {
        &&& are_digits(self.whole)
        &&& self.fraction matches Some(f) ==> are_digits(f)
        &&& self.exponent matches Some((_, e)) ==> are_digits(e)
        &&& self.suffix matches Some(c) ==> c == 'N' || c == 'M'
    }

    pub open spec fn sign_text(self) -> Seq<char> {
        if self.negative {
            seq!['-']
        } else {
            Seq::empty()
        }
    }

    pub open spec fn fraction_text(self) -> Seq<char> {
        match self.fraction {
            Some(f) => seq!['.'] + f,
            None => Seq::empty(),
        }
    }

    pub open spec fn exponent_text(self) -> Seq<char> {
        match self.exponent {
            Some((negative, e)) => if negative {
                seq!['e', '-'] + e
            } else {
                seq!['e'] + e
            },
            None => Seq::empty(),
        }
    }

    pub open spec fn suffix_text(self) -> Seq<char> {
        match self.suffix {
            Some(c) => seq![c],
            None => Seq::empty(),
        }
    }

    /// The parts, one behind the other.
    pub open spec fn text(self) -> Seq<char> {
        self.sign_text() + self.whole + self.fraction_text() + self.exponent_text()
            + self.suffix_text()
    }

    /// How the parts lie when the text stands at `pos`.
    pub open spec fn layout(self, pos: int) -> NumberLayout {
        let int_start = pos + self.sign_text().len();
        let int_end = int_start + self.whole.len();
        let frac_end = int_end + self.fraction_text().len();
        let exp_end = frac_end + self.exponent_text().len();
        NumberLayout {
            negative: self.negative,
            int_start,
            int_end,
            has_fraction: self.fraction is Some,
            frac_end,
            has_exponent: self.exponent is Some,
            exp_negative: self.exponent matches Some((true, _)),
            exp_start: match self.exponent {
                Some((_, e)) => exp_end - e.len(),
                None => frac_end,
            },
            exp_end,
            suffix_n: self.suffix == Some('N'),
            suffix_m: self.suffix == Some('M'),
            end: exp_end + self.suffix_text().len(),
        }
    }
}

/// The character behind the whole digits is no digit, and is a point only
/// where a fraction follows.
proof fn lemma_behind_whole(s: Seq<char>, at: int, p: NumberParts)
    requires
        p.well_formed(),
        occurs(s, at, p.fraction_text()),
        occurs(s, at + p.fraction_text().len(), p.exponent_text()),
        occurs(s, at + p.fraction_text().len() + p.exponent_text().len(), p.suffix_text()),
        token_stops(
            s,
            at + p.fraction_text().len() + p.exponent_text().len() + p.suffix_text().len(),
        ),
    ensures
        at >= s.len() || !is_digit(s[at]),
        p.fraction is None ==> at >= s.len() || s[at] != '.',
        p.fraction matches Some(f) ==> at + 1 < s.len() && s[at] == '.' && is_digit(s[at + 1]),
{
    match p.fraction {
        Some(f) => {
            let t = p.fraction_text();
            assert(s[at + 0] == t[0]);
            assert(s[at + 1] == t[1]);
            assert(t[1] == f[0]);
        },
        None => {
            lemma_behind_fraction(s, at, p);
        },
    }
}

/// The character behind the fraction is no digit and no point, and marks an
/// exponent only where one follows.
proof fn lemma_behind_fraction(s: Seq<char>, at: int, p: NumberParts)
    requires
        p.well_formed(),
        occurs(s, at, p.exponent_text()),
        occurs(s, at + p.exponent_text().len(), p.suffix_text()),
        token_stops(s, at + p.exponent_text().len() + p.suffix_text().len()),
    ensures
        at >= s.len() || (!is_digit(s[at]) && s[at] != '.'),
        p.exponent is None ==> at >= s.len() || (s[at] != 'e' && s[at] != 'E'),
        p.exponent matches Some((negative, e)) ==> at + 1 < s.len() && s[at] == 'e' && (if negative {
            at + 2 < s.len() && s[at + 1] == '-' && is_digit(s[at + 2])
        } else {
            is_digit(s[at + 1])
        }),
{
    match p.exponent {
        Some((negative, e)) => {
            let t = p.exponent_text();
            assert(s[at + 0] == t[0]);
            assert(s[at + 1] == t[1]);
            if negative {
                assert(s[at + 2] == t[2]);
                assert(t[2] == e[0]);
            } else {
                assert(t[1] == e[0]);
            }
        },
        None => {
            lemma_behind_exponent(s, at, p);
        },
    }
}

/// The character behind the exponent belongs to no number, but for the suffix.
proof fn lemma_behind_exponent(s: Seq<char>, at: int, p: NumberParts)
    requires
        p.well_formed(),
        occurs(s, at, p.suffix_text()),
        token_stops(s, at + p.suffix_text().len()),
    ensures
        at >= s.len() || (!is_digit(s[at]) && s[at] != '.' && s[at] != 'e' && s[at] != 'E'),
        p.suffix is None ==> at >= s.len() || !is_constituent(s[at]),
        p.suffix matches Some(c) ==> at < s.len() && s[at] == c,
{
    match p.suffix {
        Some(c) => {
            let t = p.suffix_text();
            assert(s[at + 0] == t[0]);
        },
        None => {},
    }
}

/// A text made of the parts of a number lies as its parts say, and its
/// digits are those of the parts.
pub proof fn lemma_layout(s: Seq<char>, pos: int, p: NumberParts)
    requires
        p.well_formed(),
        occurs(s, pos, p.text()),
        token_stops(s, pos + p.text().len()),
    ensures
        number_layout(s, pos) == p.layout(pos),
        starts_number(s, pos),
        p.layout(pos).end == pos + p.text().len(),
        s.subrange(p.layout(pos).int_start, p.layout(pos).int_end) == p.whole,
        p.fraction matches Some(f) ==> s.subrange(
            p.layout(pos).int_end + 1,
            p.layout(pos).frac_end,
        ) == f,
        p.exponent matches Some((_, e)) ==> s.subrange(
            p.layout(pos).exp_start,
            p.layout(pos).exp_end,
        ) == e,
        token_stops(s, p.layout(pos).end),
{
    let l = p.layout(pos);
    let sign = p.sign_text();
    let fraction = p.fraction_text();
    let exponent = p.exponent_text();
    let suffix = p.suffix_text();
    lemma_occurs_concat(s, pos, sign + p.whole + fraction + exponent, suffix);
    lemma_occurs_concat(s, pos, sign + p.whole + fraction, exponent);
    lemma_occurs_concat(s, pos, sign + p.whole, fraction);
    lemma_occurs_concat(s, pos, sign, p.whole);
    assert(s[l.int_start + 0] == p.whole[0]);
    if p.negative {
        assert(s[pos + 0] == sign[0]);
    }
    // the whole digits
    lemma_behind_whole(s, l.int_end, p);
    lemma_digits_run(s, l.int_start, p.whole);
    lemma_occurs_subrange(s, l.int_start, p.whole);
    // the fraction
    match p.fraction {
        Some(f) => {
            lemma_occurs_concat(s, l.int_end, seq!['.'], f);
            lemma_behind_fraction(s, l.frac_end, p);
            lemma_digits_run(s, l.int_end + 1, f);
            lemma_occurs_subrange(s, l.int_end + 1, f);
        },
        None => {},
    }
    lemma_behind_fraction(s, l.frac_end, p);
    // the exponent
    match p.exponent {
        Some((negative, e)) => {
            if negative {
                lemma_occurs_concat(s, l.frac_end, seq!['e', '-'], e);
            } else {
                lemma_occurs_concat(s, l.frac_end, seq!['e'], e);
            }
            lemma_behind_exponent(s, l.exp_end, p);
            lemma_digits_run(s, l.exp_start, e);
            lemma_occurs_subrange(s, l.exp_start, e);
        },
        None => {},
    }
    lemma_behind_exponent(s, l.exp_end, p);
}

/// An integer is read again from its text.
pub proof fn lemma_reread_integer(s: Seq<char>, pos: int, v: IntegerValue)
    requires
        v matches IntegerValue::Exact(x) ==> i64::MIN <= x <= i64::MAX,
        occurs(s, pos, integer_text(v)),
        token_stops(s, pos + integer_text(v).len()),
    ensures
        starts_number(s, pos),
        number_at(s, pos) == Ok::<(Value, int), (ErrorKind, int)>(
            (Value::Integer(v), pos + integer_text(v).len()),
        ),
{
    let x = match v {
        IntegerValue::Exact(x) => x,
        IntegerValue::Arbitrary(x) => x,
    };
    let magnitude = if x < 0 {
        (-x) as nat
    } else {
        x as nat
    };
    lemma_nat_digits(magnitude);
    let p = NumberParts {
        negative: x < 0,
        whole: nat_digits(magnitude),
        fraction: None,
        exponent: None,
        suffix: if v is Arbitrary {
            Some('N')
        } else {
            None
        },
    };
    assert(p.text() =~= integer_text(v));
    lemma_layout(s, pos, p);
}

/// The parts that `decimal_text` writes a decimal number with.
pub open spec fn decimal_parts(d: DecimalValue, suffix: Option<char>) -> NumberParts {
    let digits = nat_digits(d.coefficient);
    let n = digits.len() as int;
    let k = -d.exponent;
    if 0 < k < n {
        NumberParts {
            negative: d.negative,
            whole: digits.subrange(0, n - k),
            fraction: Some(digits.subrange(n - k, n)),
            exponent: None,
            suffix,
        }
    } else if n <= k <= n + MAX_PADDING {
        NumberParts {
            negative: d.negative,
            whole: seq!['0'],
            fraction: Some(zeros((k - n) as nat) + digits),
            exponent: None,
            suffix,
        }
    } else {
        NumberParts {
            negative: d.negative,
            whole: digits,
            fraction: None,
            exponent: Some(
                (
                    d.exponent < 0,
                    nat_digits(
                        if d.exponent < 0 {
                            (-d.exponent) as nat
                        } else {
                            d.exponent as nat
                        },
                    ),
                ),
            ),
            suffix,
        }
    }
}

/// The coefficient that parts denote: their whole digits and those of the fraction.
pub open spec fn parts_coefficient(p: NumberParts) -> nat {
    digits_value(
        p.whole + (match p.fraction {
            Some(f) => f,
            None => Seq::<char>::empty(),
        }),
    )
}

/// The power of ten that parts denote: the exponent, less the digits of the fraction.
pub open spec fn parts_power(p: NumberParts) -> int {
    (match p.exponent {
        Some((negative, e)) => if negative {
            -(digits_value(e) as int)
        } else {
            digits_value(e) as int
        },
        None => 0,
    }) - (match p.fraction {
        Some(f) => f.len() as int,
        None => 0,
    })
}

/// What `decimal_parts` states, for a number whose point falls among its digits.
proof fn lemma_parts_point_inside(d: DecimalValue, suffix: Option<char>)
    requires
        suffix is None || suffix == Some('M'),
        0 < -d.exponent < nat_digits(d.coefficient).len(),
    ensures
        decimal_parts(d, suffix).well_formed(),
        decimal_parts(d, suffix).text() == decimal_text(d) + decimal_parts(d, suffix).suffix_text(),
        decimal_parts(d, suffix).fraction is Some,
        parts_coefficient(decimal_parts(d, suffix)) == d.coefficient,
        parts_power(decimal_parts(d, suffix)) == d.exponent,
{
    let p = decimal_parts(d, suffix);
    let digits = nat_digits(d.coefficient);
    let n = digits.len() as int;
    let k = -d.exponent;
    lemma_nat_digits(d.coefficient);
    let w = digits.subrange(0, n - k);
    let f = digits.subrange(n - k, n);
    assert(p.whole == w);
    assert(p.fraction == Some(f));
    assert forall|i: int| 0 <= i < w.len() implies is_digit(#[trigger] w[i]) by {
        assert(w[i] == digits[i]);
    }
    assert forall|i: int| 0 <= i < f.len() implies is_digit(#[trigger] f[i]) by {
        assert(f[i] == digits[n - k + i]);
    }
    assert(w + f =~= digits);
    assert(p.fraction_text() == seq!['.'] + f);
    assert(p.exponent_text() =~= Seq::<char>::empty());
    assert(p.text() =~= p.sign_text() + w + seq!['.'] + f + p.suffix_text());
    assert(decimal_text(d) == p.sign_text() + w + seq!['.'] + f);
}

/// What `decimal_parts` states, for a number whose point falls shortly before its digits.
proof fn lemma_parts_point_before(d: DecimalValue, suffix: Option<char>)
    requires
        suffix is None || suffix == Some('M'),
        nat_digits(d.coefficient).len() <= -d.exponent <= nat_digits(d.coefficient).len()
            + MAX_PADDING,
    ensures
        decimal_parts(d, suffix).well_formed(),
        decimal_parts(d, suffix).text() == decimal_text(d) + decimal_parts(d, suffix).suffix_text(),
        decimal_parts(d, suffix).fraction is Some,
        parts_coefficient(decimal_parts(d, suffix)) == d.coefficient,
        parts_power(decimal_parts(d, suffix)) == d.exponent,
{
    let p = decimal_parts(d, suffix);
    let digits = nat_digits(d.coefficient);
    let n = digits.len() as int;
    let k = -d.exponent;
    lemma_nat_digits(d.coefficient);
    let pad = zeros((k - n) as nat);
    let f = pad + digits;
    assert(p.whole == seq!['0']);
    assert(p.fraction == Some(f));
    assert(is_digit(p.whole[0]));
    assert forall|i: int| 0 <= i < f.len() implies is_digit(#[trigger] f[i]) by {
        if i >= k - n {
            assert(f[i] == digits[i - (k - n)]);
        } else {
            assert(f[i] == '0');
        }
    }
    assert(p.whole + f =~= zeros((k - n + 1) as nat) + digits);
    lemma_leading_zeros((k - n + 1) as nat, digits);
    assert(p.fraction_text() == seq!['.'] + f);
    assert(p.exponent_text() =~= Seq::<char>::empty());
    assert(p.text() =~= p.sign_text() + seq!['0', '.'] + pad + digits + p.suffix_text());
    assert(decimal_text(d) == p.sign_text() + seq!['0', '.'] + pad + digits);
}

/// What `decimal_parts` states, for a number that is written with an exponent.
proof fn lemma_parts_exponent(d: DecimalValue, suffix: Option<char>)
    requires
        suffix is None || suffix == Some('M'),
        !(0 < -d.exponent < nat_digits(d.coefficient).len()),
        !(nat_digits(d.coefficient).len() <= -d.exponent <= nat_digits(d.coefficient).len()
            + MAX_PADDING),
    ensures
        decimal_parts(d, suffix).well_formed(),
        decimal_parts(d, suffix).text() == decimal_text(d) + decimal_parts(d, suffix).suffix_text(),
        decimal_parts(d, suffix).exponent is Some,
        parts_coefficient(decimal_parts(d, suffix)) == d.coefficient,
        parts_power(decimal_parts(d, suffix)) == d.exponent,
{
    let p = decimal_parts(d, suffix);
    let digits = nat_digits(d.coefficient);
    lemma_nat_digits(d.coefficient);
    let magnitude = if d.exponent < 0 {
        (-d.exponent) as nat
    } else {
        d.exponent as nat
    };
    let e = nat_digits(magnitude);
    lemma_nat_digits(magnitude);
    assert(p.whole == digits);
    assert(p.fraction is None);
    assert(p.exponent == Some((d.exponent < 0, e)));
    assert(p.whole + Seq::<char>::empty() =~= digits);
    assert(p.fraction_text() =~= Seq::<char>::empty());
    assert(p.exponent_text() =~= seq!['e'] + int_text(d.exponent));
    assert(p.text() =~= p.sign_text() + digits + seq!['e'] + int_text(d.exponent)
        + p.suffix_text());
    assert(decimal_text(d) == p.sign_text() + digits + seq!['e'] + int_text(d.exponent));
}

/// The parts of `decimal_parts` are well formed, make the text of the number,
/// and denote its coefficient and its power of ten.
pub proof fn lemma_decimal_parts(d: DecimalValue, suffix: Option<char>)
    requires
        suffix is None || suffix == Some('M'),
    ensures
        decimal_parts(d, suffix).well_formed(),
        decimal_parts(d, suffix).text() == decimal_text(d) + decimal_parts(d, suffix).suffix_text(),
        decimal_parts(d, suffix).fraction is Some || decimal_parts(d, suffix).exponent is Some,
        parts_coefficient(decimal_parts(d, suffix)) == d.coefficient,
        parts_power(decimal_parts(d, suffix)) == d.exponent,
{
    let n = nat_digits(d.coefficient).len() as int;
    let k = -d.exponent;
    if 0 < k < n {
        lemma_parts_point_inside(d, suffix);
    } else if n <= k <= n + MAX_PADDING {
        lemma_parts_point_before(d, suffix);
    } else {
        lemma_parts_exponent(d, suffix);
    }
}

/// The parts that `double_text` writes a double with.
pub open spec fn double_parts(d: DecimalValue) -> NumberParts {
    let digits = nat_digits(d.coefficient);
    let n = digits.len() as int;
    let k = d.exponent;
    let point = n + k;
    let e = point - 1;
    let written = Some(
        (
            e < 0,
            nat_digits(
                if e < 0 {
                    (-e) as nat
                } else {
                    e as nat
                },
            ),
        ),
    );
    if 0 <= k && point <= MAX_WHOLE_DIGITS {
        NumberParts {
            negative: d.negative,
            whole: digits + zeros(k as nat),
            fraction: Some(seq!['0']),
            exponent: None,
            suffix: None,
        }
    } else if 0 < point <= MAX_WHOLE_DIGITS {
        NumberParts {
            negative: d.negative,
            whole: digits.subrange(0, point),
            fraction: Some(digits.subrange(point, n)),
            exponent: None,
            suffix: None,
        }
    } else if -MAX_SMALL_ZEROS < point <= 0 {
        NumberParts {
            negative: d.negative,
            whole: seq!['0'],
            fraction: Some(zeros((-point) as nat) + digits),
            exponent: None,
            suffix: None,
        }
    } else if n == 1 {
        NumberParts {
            negative: d.negative,
            whole: digits,
            fraction: None,
            exponent: written,
            suffix: None,
        }
    } else {
        NumberParts {
            negative: d.negative,
            whole: digits.subrange(0, 1),
            fraction: Some(digits.subrange(1, n)),
            exponent: written,
            suffix: None,
        }
    }
}

/// The decimal number that parts denote as they are written.
pub open spec fn parts_decimal(p: NumberParts) -> DecimalValue {
    DecimalValue {
        negative: p.negative,
        coefficient: parts_coefficient(p),
        exponent: parts_power(p),
    }
}

/// What is to be shown of the parts of a double: they are well formed, make
/// its text, show a point or an exponent, and denote a number that is the
/// double once the zeros at the end are dropped.
pub open spec fn parts_denote(p: NumberParts, d: DecimalValue) -> bool {
    &&& p.well_formed()
    &&& p.suffix is None
    &&& p.text() == double_text(d)
    &&& p.fraction is Some || p.exponent is Some
    &&& i64::MIN <= parts_power(p) <= i64::MAX
    &&& normalize(parts_decimal(p)) == d
}

proof fn lemma_double_whole(d: DecimalValue)
    requires
        is_normal(d),
        0 <= d.exponent,
        nat_digits(d.coefficient).len() + d.exponent <= MAX_WHOLE_DIGITS,
    ensures
        parts_denote(double_parts(d), d),
{
    let p = double_parts(d);
    let digits = nat_digits(d.coefficient);
    let k = d.exponent as nat;
    lemma_nat_digits(d.coefficient);
    let w = digits + zeros(k);
    assert(p.whole == w);
    assert(p.fraction == Some(seq!['0']));
    assert forall|i: int| 0 <= i < w.len() implies is_digit(#[trigger] w[i]) by {
        if i < digits.len() {
            assert(w[i] == digits[i]);
        }
    }
    assert(is_digit(seq!['0'][0]));
    assert(p.fraction_text() =~= seq!['.', '0']);
    assert(p.exponent_text() =~= Seq::<char>::empty());
    assert(p.suffix_text() =~= Seq::<char>::empty());
    assert(p.text() =~= p.sign_text() + whole_form(digits, k));
    assert(w + seq!['0'] =~= digits + zeros(k + 1));
    lemma_value_padded(digits, k + 1);
    if d.coefficient == 0 {
        assert(0 * pow10(k + 1) == 0);
    } else {
        lemma_normalize_scaled(d, k + 1);
    }
}

proof fn lemma_double_point(d: DecimalValue)
    requires
        is_normal(d),
        d.exponent < 0,
        i64::MIN <= d.exponent,
        0 < nat_digits(d.coefficient).len() + d.exponent <= MAX_WHOLE_DIGITS,
    ensures
        parts_denote(double_parts(d), d),
{
    let p = double_parts(d);
    let digits = nat_digits(d.coefficient);
    let n = digits.len() as int;
    let point = n + d.exponent;
    lemma_nat_digits(d.coefficient);
    lemma_normalize(d);
    let w = digits.subrange(0, point);
    let f = digits.subrange(point, n);
    assert(p.whole == w);
    assert(p.fraction == Some(f));
    assert forall|i: int| 0 <= i < w.len() implies is_digit(#[trigger] w[i]) by {
        assert(w[i] == digits[i]);
    }
    assert forall|i: int| 0 <= i < f.len() implies is_digit(#[trigger] f[i]) by {
        assert(f[i] == digits[point + i]);
    }
    assert(w + f =~= digits);
    assert(p.fraction_text() == seq!['.'] + f);
    assert(p.exponent_text() =~= Seq::<char>::empty());
    assert(p.suffix_text() =~= Seq::<char>::empty());
    assert(p.text() =~= p.sign_text() + point_form(digits, point));
}

proof fn lemma_double_small(d: DecimalValue)
    requires
        is_normal(d),
        i64::MIN <= d.exponent,
        -MAX_SMALL_ZEROS < nat_digits(d.coefficient).len() + d.exponent <= 0,
    ensures
        parts_denote(double_parts(d), d),
{
    let p = double_parts(d);
    let digits = nat_digits(d.coefficient);
    let n = digits.len() as int;
    let point = n + d.exponent;
    lemma_nat_digits(d.coefficient);
    lemma_normalize(d);
    let pad = zeros((-point) as nat);
    let f = pad + digits;
    assert(p.whole == seq!['0']);
    assert(p.fraction == Some(f));
    assert(is_digit(p.whole[0]));
    assert forall|i: int| 0 <= i < f.len() implies is_digit(#[trigger] f[i]) by {
        if i >= -point {
            assert(f[i] == digits[i + point]);
        } else {
            assert(f[i] == '0');
        }
    }
    assert(p.whole + f =~= zeros((-point + 1) as nat) + digits);
    lemma_leading_zeros((-point + 1) as nat, digits);
    assert(p.fraction_text() == seq!['.'] + f);
    assert(p.exponent_text() =~= Seq::<char>::empty());
    assert(p.suffix_text() =~= Seq::<char>::empty());
    assert(p.text() =~= p.sign_text() + small_form(digits, (-point) as nat));
}

proof fn lemma_double_exponent(d: DecimalValue)
    requires
        is_normal(d),
        i64::MIN <= d.exponent <= i64::MAX,
        !(0 <= d.exponent && nat_digits(d.coefficient).len() + d.exponent <= MAX_WHOLE_DIGITS),
        !(-MAX_SMALL_ZEROS < nat_digits(d.coefficient).len() + d.exponent <= MAX_WHOLE_DIGITS),
    ensures
        parts_denote(double_parts(d), d),
{
    let p = double_parts(d);
    let digits = nat_digits(d.coefficient);
    let n = digits.len() as int;
    let e = n + d.exponent - 1;
    lemma_nat_digits(d.coefficient);
    lemma_normalize(d);
    let magnitude = if e < 0 {
        (-e) as nat
    } else {
        e as nat
    };
    let written = nat_digits(magnitude);
    lemma_nat_digits(magnitude);
    assert(p.exponent == Some((e < 0, written)));
    assert(p.exponent_text() =~= seq!['e'] + int_text(e));
    assert(p.suffix_text() =~= Seq::<char>::empty());
    if n == 1 {
        assert(p.whole == digits);
        assert(p.fraction is None);
        assert(p.whole + Seq::<char>::empty() =~= digits);
        assert(p.fraction_text() =~= Seq::<char>::empty());
        assert(p.text() =~= p.sign_text() + exponent_form(digits, e));
    } else {
        let w = digits.subrange(0, 1);
        let f = digits.subrange(1, n);
        assert(p.whole == w);
        assert(p.fraction == Some(f));
        assert forall|i: int| 0 <= i < w.len() implies is_digit(#[trigger] w[i]) by {
            assert(w[i] == digits[i]);
        }
        assert forall|i: int| 0 <= i < f.len() implies is_digit(#[trigger] f[i]) by {
            assert(f[i] == digits[1 + i]);
        }
        assert(w + f =~= digits);
        assert(p.fraction_text() == seq!['.'] + f);
        assert(p.text() =~= p.sign_text() + exponent_form(digits, e));
    }
}

/// The parts of `double_parts` make the text of the double and denote it.
pub proof fn lemma_double_parts(d: DecimalValue)
    requires
        is_normal(d),
        i64::MIN <= d.exponent <= i64::MAX,
    ensures
        parts_denote(double_parts(d), d),
{
    let n = nat_digits(d.coefficient).len() as int;
    let k = d.exponent;
    let point = n + k;
    if 0 <= k && point <= MAX_WHOLE_DIGITS {
        lemma_double_whole(d);
    } else if 0 < point <= MAX_WHOLE_DIGITS {
        lemma_double_point(d);
    } else if -MAX_SMALL_ZEROS < point <= 0 {
        lemma_double_small(d);
    } else {
        lemma_double_exponent(d);
    }
}

/// A float is read again from its text.
pub proof fn lemma_reread_float(s: Seq<char>, pos: int, v: FloatValue)
    requires
        v matches FloatValue::Double(d) ==> i64::MIN <= d.exponent <= i64::MAX && is_normal(d),
        v matches FloatValue::Exact(d) ==> i64::MIN <= d.exponent <= i64::MAX,
        occurs(s, pos, float_text(v)),
        token_stops(s, pos + float_text(v).len()),
    ensures
        starts_number(s, pos),
        number_at(s, pos) == Ok::<(Value, int), (ErrorKind, int)>(
            (Value::Float(v), pos + float_text(v).len()),
        ),
{
    match v {
        FloatValue::Double(d) => {
            let p = double_parts(d);
            lemma_double_parts(d);
            lemma_layout(s, pos, p);
            lemma_float_value(s, pos, p, parts_decimal(p));
        },
        FloatValue::Exact(d) => {
            if d.exponent == 0 {
                lemma_nat_digits(d.coefficient);
                let p = NumberParts {
                    negative: d.negative,
                    whole: nat_digits(d.coefficient),
                    fraction: None,
                    exponent: None,
                    suffix: Some('M'),
                };
                assert(p.text() =~= float_text(v));
                lemma_layout(s, pos, p);
            } else {
                let p = decimal_parts(d, Some('M'));
                lemma_decimal_parts(d, Some('M'));
                assert(p.text() =~= float_text(v));
                lemma_layout(s, pos, p);
                lemma_float_value(s, pos, p, d);
            }
        },
    }
}

/// What the grammar makes of the digits of a number that lies as parts say.
proof fn lemma_float_value(s: Seq<char>, pos: int, p: NumberParts, d: DecimalValue)
    requires
        number_layout(s, pos) == p.layout(pos),
        s.subrange(p.layout(pos).int_start, p.layout(pos).int_end) == p.whole,
        p.fraction matches Some(f) ==> s.subrange(
            p.layout(pos).int_end + 1,
            p.layout(pos).frac_end,
        ) == f,
        p.exponent matches Some((_, e)) ==> s.subrange(
            p.layout(pos).exp_start,
            p.layout(pos).exp_end,
        ) == e,
        parts_coefficient(p) == d.coefficient,
        parts_power(p) == d.exponent,
    ensures
        digits_value(coefficient_digits(s, number_layout(s, pos))) == d.coefficient,
        power_of_ten(s, number_layout(s, pos)) == d.exponent,
{
    let l = number_layout(s, pos);
    match p.fraction {
        Some(f) => {},
        None => {
            assert(p.whole + Seq::<char>::empty() =~= p.whole);
        },
    }
}

} // verus!
