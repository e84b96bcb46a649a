//! What stands at a place of a text depends on the characters of that place
//! alone: the same characters read alike in another text.

use crate::ast::Value;
use crate::error::ErrorKind;
use crate::grammar::{
    coefficient_digits, digits_end, elements_at, has, has_digit, has_sign, line_end, number_at,
    number_layout, power_of_ten, scalar_at, starts_number, string_body, token_end, value_at,
    whole_value, NumberLayout,
};
use crate::outcome::lemma_digits_end;
use crate::outcome::lemma_string_extent;
use crate::text::{is_constituent, is_digit, is_separator};
use vstd::prelude::*;

verus! {

/// Whether the `m` characters of `s` from `p` on are those of `t` from `q` on.
pub open spec fn agree(s: Seq<char>, p: int, t: Seq<char>, q: int, m: int) -> bool {
    &&& 0 <= p
    &&& 0 <= q
    &&& 0 <= m
    &&& p + m <= s.len()
    &&& q + m <= t.len()
    &&& forall|i: int| 0 <= i < m ==> #[trigger] s[p + i] == t[q + i]
}

/// Whether the places `x` of `s` and `y` of `t` hold one character, or both
/// hold nothing that could belong to a token.
pub open spec fn alike(s: Seq<char>, x: int, t: Seq<char>, y: int) -> bool {
    ||| 0 <= x < s.len() && 0 <= y < t.len() && s[x] == t[y]
    ||| (x >= s.len() || !is_constituent(s[x])) && (y >= t.len() || !is_constituent(t[y]))
}

/// Texts that agree on a stretch agree on what follows its first character.
pub proof fn lemma_agree_next(s: Seq<char>, p: int, t: Seq<char>, q: int, m: int)
    requires
        agree(s, p, t, q, m),
        m >= 1,
    ensures
        s[p] == t[q],
        agree(s, p + 1, t, q + 1, m - 1),
{
    assert(s[p + 0] == t[q + 0]);
    assert forall|i: int| 0 <= i < m - 1 implies #[trigger] s[p + 1 + i] == t[q + 1 + i] by {
        assert(s[p + (i + 1)] == t[q + (i + 1)]);
    }
}

/// Texts that agree on a stretch agree on each part of it, and hold the same
/// characters there.
pub proof fn lemma_agree_part(s: Seq<char>, p: int, t: Seq<char>, q: int, m: int, a: int, b: int)
    requires
        agree(s, p, t, q, m),
        0 <= a <= b <= m,
    ensures
        agree(s, p + a, t, q + a, b - a),
        s.subrange(p + a, p + b) == t.subrange(q + a, q + b),
{
    assert forall|i: int| 0 <= i < b - a implies #[trigger] s[p + a + i] == t[q + a + i] by {
        assert(s[p + (a + i)] == t[q + (a + i)]);
    }
    let x = s.subrange(p + a, p + b);
    let y = t.subrange(q + a, q + b);
    assert forall|i: int| 0 <= i < x.len() implies x[i] == y[i] by {
        assert(s[p + (a + i)] == t[q + (a + i)]);
    }
    assert(x =~= y);
}

/// A token of the same characters ends at the same place.
pub proof fn lemma_token_local(s: Seq<char>, p: int, t: Seq<char>, q: int, m: int)
    requires
        agree(s, p, t, q, m),
        alike(s, p + m, t, q + m),
        p <= token_end(s, p) <= p + m,
    ensures
        token_end(t, q) == q + (token_end(s, p) - p),
    decreases m,
{
    if p < s.len() && is_constituent(s[p]) {
        crate::outcome::lemma_token_end(s, p + 1);
        if m > 0 {
            lemma_agree_next(s, p, t, q, m);
            lemma_token_local(s, p + 1, t, q + 1, m - 1);
        }
    } else {
        if m > 0 {
            lemma_agree_next(s, p, t, q, m);
        }
    }
}

/// Digits of the same characters end at the same place.
pub proof fn lemma_digits_local(s: Seq<char>, p: int, t: Seq<char>, q: int, m: int)
    requires
        agree(s, p, t, q, m),
        alike(s, p + m, t, q + m),
        p <= digits_end(s, p) <= p + m,
    ensures
        digits_end(t, q) == q + (digits_end(s, p) - p),
    decreases m,
{
    if p < s.len() && is_digit(s[p]) {
        crate::outcome::lemma_digits_end(s, p + 1);
        if m > 0 {
            lemma_agree_next(s, p, t, q, m);
            lemma_digits_local(s, p + 1, t, q + 1, m - 1);
        }
    } else {
        if m > 0 {
            lemma_agree_next(s, p, t, q, m);
        }
    }
}

/// A comment of the same characters, with something behind it, ends at the
/// same place.
pub proof fn lemma_line_local(s: Seq<char>, p: int, t: Seq<char>, q: int, m: int)
    requires
        agree(s, p, t, q, m),
        p + m < s.len(),
        line_end(s, p) <= p + m,
    ensures
        line_end(t, q) == q + (line_end(s, p) - p),
    decreases m,
{
    if s[p] == '\n' {
        lemma_agree_next(s, p, t, q, m);
    } else {
        crate::outcome::lemma_line_end(s, p);
        if m == 0 {
        } else {
            lemma_agree_next(s, p, t, q, m);
            if p + 1 < s.len() {
                crate::outcome::lemma_line_end(s, p + 1);
            }
            lemma_line_local(s, p + 1, t, q + 1, m - 1);
        }
    }
}

/// A string of the same characters has the same content and ends at the same place.
pub proof fn lemma_string_local(s: Seq<char>, p: int, t: Seq<char>, q: int, m: int)
    requires
        agree(s, p, t, q, m),
        string_body(s, p) is Some,
        string_body(s, p)->Some_0.1 <= p + m,
    ensures
        string_body(t, q) == Some(
            (string_body(s, p)->Some_0.0, q + (string_body(s, p)->Some_0.1 - p)),
        ),
    decreases m,
{
    lemma_string_extent(s, p);
    lemma_agree_next(s, p, t, q, m);
    if s[p] == '"' {
    } else if s[p] == '\\' && p + 1 < s.len() && crate::grammar::is_string_escape(s[p + 1]) {
        lemma_string_extent(s, p + 2);
        lemma_agree_next(s, p + 1, t, q + 1, m - 1);
        lemma_string_local(s, p + 2, t, q + 2, m - 2);
    } else {
        lemma_string_extent(s, p + 1);
        if m >= 2 {
            lemma_agree_next(s, p + 1, t, q + 1, m - 1);
        }
        lemma_string_local(s, p + 1, t, q + 1, m - 1);
    }
}

/// The stretch and what follows it: texts that agree on a stretch of `s`
/// with something behind it, and are alike behind it.
pub open spec fn same_stretch(s: Seq<char>, p: int, t: Seq<char>, q: int, m: int) -> bool {
    &&& agree(s, p, t, q, m)
    &&& p + m < s.len()
    &&& alike(s, p + m, t, q + m)
}

/// Texts with the same stretch are alike at each place of it and behind it.
pub proof fn lemma_alike_at(s: Seq<char>, p: int, t: Seq<char>, q: int, m: int, x: int)
    requires
        agree(s, p, t, q, m),
        alike(s, p + m, t, q + m),
        0 <= x <= m,
    ensures
        alike(s, p + x, t, q + x),
{
    if x < m {
        assert(s[p + x] == t[q + x]);
    }
}

/// What the grammar asks of a place, it finds alike at places that are alike.
pub proof fn lemma_alike_tests(s: Seq<char>, x: int, t: Seq<char>, y: int)
    requires
        alike(s, x, t, y),
        0 <= x,
        0 <= y,
    ensures
        has_digit(s, x) == has_digit(t, y),
        has_sign(s, x) == has_sign(t, y),
        has(s, x, '.') == has(t, y, '.'),
        has(s, x, 'e') == has(t, y, 'e'),
        has(s, x, 'E') == has(t, y, 'E'),
        has(s, x, '-') == has(t, y, '-'),
        has(s, x, 'N') == has(t, y, 'N'),
        has(s, x, 'M') == has(t, y, 'M'),
        (x < s.len() && is_constituent(s[x])) == (y < t.len() && is_constituent(t[y])),
{
}

/// A layout with every position moved by `by`.
pub open spec fn moved(l: NumberLayout, by: int) -> NumberLayout {
    NumberLayout {
        negative: l.negative,
        int_start: l.int_start + by,
        int_end: l.int_end + by,
        has_fraction: l.has_fraction,
        frac_end: l.frac_end + by,
        has_exponent: l.has_exponent,
        exp_negative: l.exp_negative,
        exp_start: l.exp_start + by,
        exp_end: l.exp_end + by,
        suffix_n: l.suffix_n,
        suffix_m: l.suffix_m,
        end: l.end + by,
    }
}

/// The parts of a number lie one behind the other within the text.
pub proof fn lemma_layout_order(s: Seq<char>, p: int)
    requires
        0 <= p < s.len(),
        starts_number(s, p),
    ensures
        ({
            let l = number_layout(s, p);
            &&& p <= l.int_start <= p + 1
            &&& l.int_start < l.int_end <= l.frac_end <= l.exp_end <= l.end <= s.len()
            &&& l.end <= l.exp_end + 1
            &&& l.has_fraction ==> l.int_end + 1 < l.frac_end
            &&& !l.has_fraction ==> l.frac_end == l.int_end
            &&& l.has_exponent ==> l.frac_end < l.exp_start < l.exp_end && l.exp_start
                <= l.frac_end + 2
            &&& !l.has_exponent ==> l.exp_start == l.frac_end && l.exp_end == l.frac_end
        }),
{
    let l = number_layout(s, p);
    lemma_digits_end(s, l.int_start);
    if l.has_fraction {
        lemma_digits_end(s, l.int_end + 1);
    }
    if l.has_exponent {
        lemma_digits_end(s, l.exp_start);
    }
}

/// A number of the same characters lies alike.
pub proof fn lemma_layout_local(s: Seq<char>, p: int, t: Seq<char>, q: int, m: int)
    requires
        agree(s, p, t, q, m),
        alike(s, p + m, t, q + m),
        p < s.len(),
        starts_number(s, p),
        number_layout(s, p).end == p + m,
        p + m >= s.len() || !is_constituent(s[p + m]),
    ensures
        number_layout(t, q) == moved(number_layout(s, p), q - p),
        starts_number(t, q),
{
    let l = number_layout(s, p);
    let by = q - p;
    lemma_layout_order(s, p);
    // the sign and the first digit
    lemma_alike_at(s, p, t, q, m, 0);
    lemma_alike_tests(s, p, t, q);
    lemma_alike_at(s, p, t, q, m, 1);
    lemma_alike_tests(s, p + 1, t, q + 1);
    // the whole digits
    let a = l.int_start - p;
    lemma_agree_part(s, p, t, q, m, a, m);
    lemma_digits_local(s, l.int_start, t, l.int_start + by, m - a);
    // the fraction
    lemma_alike_at(s, p, t, q, m, l.int_end - p);
    lemma_alike_tests(s, l.int_end, t, l.int_end + by);
    if l.has_fraction {
        lemma_alike_at(s, p, t, q, m, l.int_end + 1 - p);
        lemma_alike_tests(s, l.int_end + 1, t, l.int_end + 1 + by);
        let b = l.int_end + 1 - p;
        lemma_agree_part(s, p, t, q, m, b, m);
        lemma_digits_local(s, l.int_end + 1, t, l.int_end + 1 + by, m - b);
    } else {
        if has(s, l.int_end, '.') {
            lemma_alike_at(s, p, t, q, m, l.int_end + 1 - p);
            lemma_alike_tests(s, l.int_end + 1, t, l.int_end + 1 + by);
        }
    }
    assert(number_layout(t, q).frac_end == l.frac_end + by);
    // the exponent
    lemma_alike_at(s, p, t, q, m, l.frac_end - p);
    lemma_alike_tests(s, l.frac_end, t, l.frac_end + by);
    let marked = has(s, l.frac_end, 'e') || has(s, l.frac_end, 'E');
    if marked {
        lemma_alike_at(s, p, t, q, m, l.frac_end + 1 - p);
        lemma_alike_tests(s, l.frac_end + 1, t, l.frac_end + 1 + by);
        if has_sign(s, l.frac_end + 1) {
            lemma_alike_at(s, p, t, q, m, l.frac_end + 2 - p);
            lemma_alike_tests(s, l.frac_end + 2, t, l.frac_end + 2 + by);
        }
    }
    if l.has_exponent {
        let c = l.exp_start - p;
        lemma_agree_part(s, p, t, q, m, c, m);
        lemma_digits_local(s, l.exp_start, t, l.exp_start + by, m - c);
    }
    assert(number_layout(t, q).exp_end == l.exp_end + by);
    // the suffix
    lemma_alike_at(s, p, t, q, m, l.exp_end - p);
    lemma_alike_tests(s, l.exp_end, t, l.exp_end + by);
}

/// A number of the same characters is the same number.
pub proof fn lemma_number_local(s: Seq<char>, p: int, t: Seq<char>, q: int, m: int)
    requires
        agree(s, p, t, q, m),
        alike(s, p + m, t, q + m),
        p < s.len(),
        starts_number(s, p),
        number_at(s, p) is Ok,
        number_at(s, p)->Ok_0.1 == p + m,
    ensures
        number_at(t, q) == Ok::<(Value, int), (ErrorKind, int)>(
            (number_at(s, p)->Ok_0.0, q + m),
        ),
        starts_number(t, q),
{
    let l = number_layout(s, p);
    let by = q - p;
    lemma_layout_order(s, p);
    lemma_layout_local(s, p, t, q, m);
    lemma_alike_tests(s, p + m, t, q + m);
    lemma_agree_part(s, p, t, q, m, l.int_start - p, l.int_end - p);
    if l.has_fraction {
        lemma_agree_part(s, p, t, q, m, l.int_end + 1 - p, l.frac_end - p);
    }
    if l.has_exponent {
        lemma_agree_part(s, p, t, q, m, l.exp_start - p, l.exp_end - p);
    }
    let k = number_layout(t, q);
    assert(whole_value(t, k) == whole_value(s, l));
    assert(coefficient_digits(t, k) == coefficient_digits(s, l));
    assert(power_of_ten(t, k) == power_of_ten(s, l));
}

/// A value that is no collection, of the same characters and with something
/// alike behind it, is the same value.
pub proof fn lemma_scalar_local(s: Seq<char>, p: int, t: Seq<char>, q: int, m: int)
    requires
        same_stretch(s, p, t, q, m),
        scalar_at(s, p) is Ok,
        scalar_at(s, p)->Ok_0.1 == p + m,
    ensures
        scalar_at(t, q) == Ok::<(Value, int), (ErrorKind, int)>(
            (scalar_at(s, p)->Ok_0.0, q + m),
        ),
{
    crate::outcome::lemma_scalar_extent(s, p);
    lemma_agree_next(s, p, t, q, m);
    let c = s[p];
    if c == ')' || c == ']' || c == '}' {
    } else if c == '"' {
        lemma_string_local(s, p + 1, t, q + 1, m - 1);
    } else if c == '\\' {
        if m >= 2 {
            lemma_agree_next(s, p + 1, t, q + 1, m - 1);
        }
        if is_constituent(s[p + 1]) {
            crate::outcome::lemma_token_end(s, p + 1);
            lemma_token_local(s, p + 1, t, q + 1, m - 1);
            lemma_agree_part(s, p, t, q, m, 1, m);
        }
    } else if c == ';' {
        lemma_line_local(s, p, t, q, m);
    } else if c == ':' {
        crate::outcome::lemma_token_end(s, p + 1);
        lemma_token_local(s, p + 1, t, q + 1, m - 1);
        lemma_agree_part(s, p, t, q, m, 1, m);
    } else if starts_number(s, p) {
        lemma_number_local(s, p, t, q, m);
    } else if is_constituent(c) {
        lemma_alike_at(s, p, t, q, m, 1);
        lemma_alike_tests(s, p + 1, t, q + 1);
        crate::outcome::lemma_token_end(s, p);
        lemma_token_local(s, p, t, q, m);
        lemma_agree_part(s, p, t, q, m, 0, m);
    } else {
    }
}

/// A value of the same characters, with something alike behind it, is the
/// same value.
pub proof fn lemma_value_local(s: Seq<char>, p: int, t: Seq<char>, q: int, m: int)
    requires
        same_stretch(s, p, t, q, m),
        value_at(s, p) is Ok,
        value_at(s, p)->Ok_0.1 == p + m,
    ensures
        value_at(t, q) == Ok::<(Value, int), (ErrorKind, int)>((value_at(s, p)->Ok_0.0, q + m)),
    decreases m, 0int,
{
    crate::outcome::lemma_value_extent(s, p);
    lemma_agree_next(s, p, t, q, m);
    if s[p] == '(' {
        lemma_elements_local(s, p + 1, t, q + 1, m - 1, ')', p, q);
    } else if s[p] == '[' {
        lemma_elements_local(s, p + 1, t, q + 1, m - 1, ']', p, q);
    } else if s[p] == '{' {
        lemma_elements_local(s, p + 1, t, q + 1, m - 1, '}', p, q);
    } else if s[p] == '#' {
        crate::outcome::lemma_elements_extent(s, p + 2, '}', p);
        lemma_agree_next(s, p + 1, t, q + 1, m - 1);
        lemma_elements_local(s, p + 2, t, q + 2, m - 2, '}', p, q);
    } else {
        lemma_scalar_local(s, p, t, q, m);
    }
}

/// The elements of a collection of the same characters are the same elements.
pub proof fn lemma_elements_local(
    s: Seq<char>,
    p: int,
    t: Seq<char>,
    q: int,
    m: int,
    close: char,
    opened: int,
    other: int,
)
    requires
        agree(s, p, t, q, m),
        elements_at(s, p, close, opened) is Ok,
        elements_at(s, p, close, opened)->Ok_0.1 == p + m,
    ensures
        elements_at(t, q, close, other) == Ok::<(Seq<Value>, int), (ErrorKind, int)>(
            (elements_at(s, p, close, opened)->Ok_0.0, q + m),
        ),
    decreases m, 1int,
{
    crate::outcome::lemma_elements_extent(s, p, close, opened);
    lemma_agree_next(s, p, t, q, m);
    if is_separator(s[p]) {
        lemma_elements_local(s, p + 1, t, q + 1, m - 1, close, opened, other);
    } else if s[p] == close {
    } else {
        crate::outcome::lemma_value_extent(s, p);
        let next = value_at(s, p)->Ok_0.1;
        crate::outcome::lemma_elements_extent(s, next, close, opened);
        let a = next - p;
        lemma_agree_part(s, p, t, q, m, 0, a);
        lemma_agree_part(s, p, t, q, m, a, m);
        assert(s[p + a] == t[q + a]);
        lemma_value_local(s, p, t, q, a);
        lemma_elements_local(s, next, t, q + a, m - a, close, opened, other);
    }
}

} // verus!
