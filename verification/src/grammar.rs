//! The notation, as functions from a text and a position to what stands there.
//!
//! A text is a sequence of characters and a position an index into it. Each
//! function gives either what it read and the position behind it, or the kind
//! of error and the position of the error.

use crate::ast::Value;
use crate::collection::{map_of, pairs_of, set_of};
use crate::digits::digits_value;
use crate::double::normalize;
use crate::error::ErrorKind;
use crate::number::{DecimalValue, FloatValue, IntegerValue};
use crate::text::{
    hex_digit_of, is_constituent, is_digit, is_hex_digit, is_separator, is_sign,
};
use vstd::prelude::*;

verus! {

/// The position behind the line that `pos` stands in: behind its line end, or
/// the end of the text.
pub open spec fn line_end(s: Seq<char>, pos: int) -> int
    decreases s.len() - pos,
{
    if pos < 0 || pos >= s.len() {
        pos
    } else if s[pos] == '\n' {
        pos + 1
    } else {
        line_end(s, pos + 1)
    }
}

/// The first position from `pos` on that is neither a separator nor in a
/// comment; `in_comment` says whether `pos` stands in one.
pub open spec fn blank_end(s: Seq<char>, pos: int, in_comment: bool) -> int
    decreases s.len() - pos,
{
    if pos < 0 || pos >= s.len() {
        pos
    } else if in_comment {
        blank_end(s, pos + 1, s[pos] != '\n')
    } else if is_separator(s[pos]) {
        blank_end(s, pos + 1, false)
    } else if s[pos] == ';' {
        blank_end(s, pos + 1, true)
    } else {
        pos
    }
}

/// The first position from `pos` on that holds no constituent character.
pub open spec fn token_end(s: Seq<char>, pos: int) -> int
    decreases s.len() - pos,
{
    if 0 <= pos < s.len() && is_constituent(s[pos]) {
        token_end(s, pos + 1)
    } else {
        pos
    }
}

/// The first position from `pos` on that holds no digit.
pub open spec fn digits_end(s: Seq<char>, pos: int) -> int
    decreases s.len() - pos,
{
    if 0 <= pos < s.len() && is_digit(s[pos]) {
        digits_end(s, pos + 1)
    } else {
        pos
    }
}

/// Whether `c` holds position `pos`.
pub open spec fn has(s: Seq<char>, pos: int, c: char) -> bool {
    0 <= pos < s.len() && s[pos] == c
}

pub open spec fn has_digit(s: Seq<char>, pos: int) -> bool {
    0 <= pos < s.len() && is_digit(s[pos])
}

pub open spec fn has_sign(s: Seq<char>, pos: int) -> bool {
    0 <= pos < s.len() && is_sign(s[pos])
}

/// A number begins with a digit, or with a sign and a digit.
pub open spec fn starts_number(s: Seq<char>, pos: int) -> bool {
    has_digit(s, pos) || (has_sign(s, pos) && has_digit(s, pos + 1))
}

/// The parts of a number as they lie in the text. The whole digits run from
/// `int_start` to `int_end`. Where there is a fraction, its digits run from
/// behind the point to `frac_end`; else `frac_end` is `int_end`. Where there is
/// an exponent, its digits run from `exp_start` to `exp_end`; else both are
/// `frac_end`. A suffix stands at `exp_end`, and `end` is behind it.
pub struct NumberLayout {
    pub negative: bool,
    pub int_start: int,
    pub int_end: int,
    pub has_fraction: bool,
    pub frac_end: int,
    pub has_exponent: bool,
    pub exp_negative: bool,
    pub exp_start: int,
    pub exp_end: int,
    pub suffix_n: bool,
    pub suffix_m: bool,
    pub end: int,
}

/// How the number that begins at `pos` lies in the text.
pub open spec fn number_layout(s: Seq<char>, pos: int) -> NumberLayout {
    let int_start = if has_sign(s, pos) {
        pos + 1
    } else {
        pos
    };
    let int_end = digits_end(s, int_start);
    let has_fraction = has(s, int_end, '.') && has_digit(s, int_end + 1);
    let frac_end = if has_fraction {
        digits_end(s, int_end + 1)
    } else {
        int_end
    };
    let marked = has(s, frac_end, 'e') || has(s, frac_end, 'E');
    let exp_signed = marked && has_sign(s, frac_end + 1);
    let exp_digits = if exp_signed {
        frac_end + 2
    } else {
        frac_end + 1
    };
    let has_exponent = marked && has_digit(s, exp_digits);
    let exp_start = if has_exponent {
        exp_digits
    } else {
        frac_end
    };
    let exp_end = if has_exponent {
        digits_end(s, exp_start)
    } else {
        frac_end
    };
    let suffix_n = has(s, exp_end, 'N');
    let suffix_m = has(s, exp_end, 'M');
    NumberLayout {
        negative: has(s, pos, '-'),
        int_start,
        int_end,
        has_fraction,
        frac_end,
        has_exponent,
        exp_negative: exp_signed && has(s, frac_end + 1, '-'),
        exp_start,
        exp_end,
        suffix_n,
        suffix_m,
        end: if suffix_n || suffix_m {
            exp_end + 1
        } else {
            exp_end
        },
    }
}

/// The digits of the coefficient: the whole digits and those of the fraction.
pub open spec fn coefficient_digits(s: Seq<char>, l: NumberLayout) -> Seq<char> {
    if l.has_fraction {
        s.subrange(l.int_start, l.int_end) + s.subrange(l.int_end + 1, l.frac_end)
    } else {
        s.subrange(l.int_start, l.int_end)
    }
}

/// The power of ten: the exponent that is written, less the digits of the fraction.
pub open spec fn power_of_ten(s: Seq<char>, l: NumberLayout) -> int {
    let written = if !l.has_exponent {
        0
    } else if l.exp_negative {
        -(digits_value(s.subrange(l.exp_start, l.exp_end)) as int)
    } else {
        digits_value(s.subrange(l.exp_start, l.exp_end)) as int
    };
    let scale = if l.has_fraction {
        l.frac_end - l.int_end - 1
    } else {
        0
    };
    written - scale
}

/// The integer that the whole digits denote, with the sign.
pub open spec fn whole_value(s: Seq<char>, l: NumberLayout) -> int {
    if l.negative {
        -(digits_value(s.subrange(l.int_start, l.int_end)) as int)
    } else {
        digits_value(s.subrange(l.int_start, l.int_end)) as int
    }
}

/// The number that begins at `pos`.
///
/// Nothing that could belong to a symbol may follow it. `N` makes an integer
/// of any size and must follow whole digits. `M` makes an exact decimal
/// number, which keeps the digits as they are written. Without a suffix, a
/// fraction or an exponent makes a double, which drops the zeros at the end
/// of its digits, and whole digits make an integer of 64 bits where they fit
/// in it, else one of any size. The power of ten of a float must fit in 64
/// bits, as it is written and as it is kept.
pub open spec fn number_at(s: Seq<char>, pos: int) -> Result<(Value, int), (ErrorKind, int)> {
    let l = number_layout(s, pos);
    if 0 <= l.end < s.len() && is_constituent(s[l.end]) {
        Err((ErrorKind::InvalidNumber, l.end))
    } else if l.suffix_n {
        if l.has_fraction || l.has_exponent {
            Err((ErrorKind::InvalidSuffix, l.exp_end))
        } else {
            Ok((Value::Integer(IntegerValue::Arbitrary(whole_value(s, l))), l.end))
        }
    } else if !l.suffix_m && !l.has_fraction && !l.has_exponent {
        let v = whole_value(s, l);
        if i64::MIN <= v <= i64::MAX {
            Ok((Value::Integer(IntegerValue::Exact(v)), l.end))
        } else {
            Ok((Value::Integer(IntegerValue::Arbitrary(v)), l.end))
        }
    } else {
        let exponent = power_of_ten(s, l);
        if i64::MIN <= exponent <= i64::MAX {
            let d = DecimalValue {
                negative: l.negative,
                coefficient: digits_value(coefficient_digits(s, l)),
                exponent,
            };
            if l.suffix_m {
                Ok((Value::Float(FloatValue::Exact(d)), l.end))
            } else if i64::MIN <= normalize(d).exponent <= i64::MAX {
                Ok((Value::Float(FloatValue::Double(normalize(d))), l.end))
            } else {
                Err((ErrorKind::ExponentOutOfRange, pos))
            }
        } else {
            Err((ErrorKind::ExponentOutOfRange, pos))
        }
    }
}

/// The characters that a backslash in a string joins with: the quote, the
/// backslash, and `n`, `t`, `r`.
pub open spec fn is_string_escape(c: char) -> bool {
    c == '"' || c == '\\' || c == 'n' || c == 't' || c == 'r'
}

/// What an escaped character stands for.
pub open spec fn unescaped(c: char) -> char {
    if c == 'n' {
        '\n'
    } else if c == 't' {
        '\t'
    } else if c == 'r' {
        '\r'
    } else {
        c
    }
}

/// The content of a string from `pos` on, up to its closing quote, and the
/// position behind that quote; `None` where no quote closes it. A backslash
/// in front of any other character than those of `is_string_escape` stands
/// for itself.
pub open spec fn string_body(s: Seq<char>, pos: int) -> Option<(Seq<char>, int)>
    decreases s.len() - pos,
{
    if pos < 0 || pos >= s.len() {
        None
    } else if s[pos] == '"' {
        Some((Seq::empty(), pos + 1))
    } else if s[pos] == '\\' && pos + 1 < s.len() && is_string_escape(s[pos + 1]) {
        match string_body(s, pos + 2) {
            Some((rest, end)) => Some((seq![unescaped(s[pos + 1])] + rest, end)),
            None => None,
        }
    } else {
        match string_body(s, pos + 1) {
            Some((rest, end)) => Some((seq![s[pos]] + rest, end)),
            None => None,
        }
    }
}

/// The string whose opening quote stands at `pos`.
pub open spec fn string_at(s: Seq<char>, pos: int) -> Result<(Value, int), (ErrorKind, int)> {
    match string_body(s, pos + 1) {
        Some((content, end)) => Ok((Value::String(content), end)),
        None => Err((ErrorKind::UnterminatedString, pos)),
    }
}

pub open spec fn name_newline() -> Seq<char> {
    seq!['n', 'e', 'w', 'l', 'i', 'n', 'e']
}

pub open spec fn name_return() -> Seq<char> {
    seq!['r', 'e', 't', 'u', 'r', 'n']
}

pub open spec fn name_space() -> Seq<char> {
    seq!['s', 'p', 'a', 'c', 'e']
}

pub open spec fn name_tab() -> Seq<char> {
    seq!['t', 'a', 'b']
}

pub open spec fn name_backspace() -> Seq<char> {
    seq!['b', 'a', 'c', 'k', 's', 'p', 'a', 'c', 'e']
}

/// The code point that four hexadecimal digits denote.
pub open spec fn hex_value(t: Seq<char>) -> int {
    (hex_digit_of(t[0]) * 4096 + hex_digit_of(t[1]) * 256 + hex_digit_of(t[2]) * 16
        + hex_digit_of(t[3])) as int
}

/// Whether a code point is a character: the surrogates are none.
pub open spec fn is_scalar(code: int) -> bool {
    0 <= code < 0xD800 || 0xE000 <= code <= 0x10FFFF
}

/// The character that a name behind a backslash denotes. One letter stands
/// for itself, but `n`, `r`, `t` and `b` for the line end, the return, the tab
/// and the backspace, as their full names do; `u` and four hexadecimal digits
/// stand for the character with that code.
pub open spec fn named_character(name: Seq<char>) -> Option<char> {
    if name.len() == 1 {
        if name[0] == 'n' {
            Some('\n')
        } else if name[0] == 'r' {
            Some('\r')
        } else if name[0] == 't' {
            Some('\t')
        } else if name[0] == 'b' {
            Some('\u{8}')
        } else {
            Some(name[0])
        }
    } else if name == name_newline() {
        Some('\n')
    } else if name == name_return() {
        Some('\r')
    } else if name == name_space() {
        Some(' ')
    } else if name == name_tab() {
        Some('\t')
    } else if name == name_backspace() {
        Some('\u{8}')
    } else if name.len() == 5 && name[0] == 'u' && is_hex_digit(name[1]) && is_hex_digit(name[2])
        && is_hex_digit(name[3]) && is_hex_digit(name[4]) && is_scalar(
        hex_value(name.subrange(1, 5)),
    ) {
        Some(hex_value(name.subrange(1, 5)) as char)
    } else {
        None
    }
}

/// The character whose backslash stands at `pos`. A character that cannot
/// stand in a symbol is taken alone; else all that could belong to a symbol is
/// taken together, as a name.
pub open spec fn character_at(s: Seq<char>, pos: int) -> Result<(Value, int), (ErrorKind, int)> {
    if pos + 1 >= s.len() {
        Err((ErrorKind::InvalidCharacter, pos))
    } else if !is_constituent(s[pos + 1]) {
        Ok((Value::Character(s[pos + 1]), pos + 2))
    } else {
        let end = token_end(s, pos + 1);
        match named_character(s.subrange(pos + 1, end)) {
            Some(c) => Ok((Value::Character(c), end)),
            None => Err((ErrorKind::InvalidCharacter, pos)),
        }
    }
}

/// The first index from `i` on that holds a slash.
pub open spec fn first_slash(t: Seq<char>, i: int) -> int
    decreases t.len() - i,
{
    if 0 <= i < t.len() && t[i] != '/' {
        first_slash(t, i + 1)
    } else {
        i
    }
}

/// A part of a symbol: not empty, no digit in front, no slash.
pub open spec fn is_segment(t: Seq<char>) -> bool {
    t.len() > 0 && !is_digit(t[0]) && first_slash(t, 0) == t.len()
}

/// The namespace and the name that a token denotes: the slash alone is a
/// name; else one slash parts the namespace from the name; `None` where a part
/// is no segment.
pub open spec fn identifier(t: Seq<char>) -> Option<(Option<Seq<char>>, Seq<char>)> {
    let p = first_slash(t, 0);
    if t == seq!['/'] {
        Some((None, t))
    } else if p >= t.len() {
        if is_segment(t) {
            Some((None, t))
        } else {
            None
        }
    } else {
        let namespace = t.subrange(0, p);
        let name = t.subrange(p + 1, t.len() as int);
        if is_segment(namespace) && is_segment(name) {
            Some((Some(namespace), name))
        } else {
            None
        }
    }
}

pub open spec fn name_nil() -> Seq<char> {
    seq!['n', 'i', 'l']
}

/// The symbol that begins at `pos`; `nil` is no symbol but the value nil.
pub open spec fn symbol_at(s: Seq<char>, pos: int) -> Result<(Value, int), (ErrorKind, int)> {
    let end = token_end(s, pos);
    match identifier(s.subrange(pos, end)) {
        Some((namespace, name)) => if namespace is None && name == name_nil() {
            Ok((Value::Nil, end))
        } else {
            Ok((Value::Symbol { namespace, name }, end))
        },
        None => Err((ErrorKind::InvalidIdentifier, pos)),
    }
}

/// The keyword whose colon stands at `pos`.
pub open spec fn keyword_at(s: Seq<char>, pos: int) -> Result<(Value, int), (ErrorKind, int)> {
    let end = token_end(s, pos + 1);
    match identifier(s.subrange(pos + 1, end)) {
        Some((namespace, name)) => Ok((Value::Keyword { namespace, name }, end)),
        None => Err((ErrorKind::InvalidIdentifier, pos)),
    }
}

/// The value that is no collection and begins at `pos`.
pub open spec fn scalar_at(s: Seq<char>, pos: int) -> Result<(Value, int), (ErrorKind, int)> {
    let c = s[pos];
    if c == ')' || c == ']' || c == '}' {
        Err((ErrorKind::UnexpectedClose, pos))
    } else if c == '"' {
        string_at(s, pos)
    } else if c == '\\' {
        character_at(s, pos)
    } else if c == ';' {
        Ok((Value::Comment, line_end(s, pos)))
    } else if c == ':' {
        keyword_at(s, pos)
    } else if starts_number(s, pos) {
        number_at(s, pos)
    } else if is_constituent(c) {
        symbol_at(s, pos)
    } else {
        Err((ErrorKind::UnrecognizedCharacter, pos))
    }
}

/// The value that begins at `pos`.
///
/// A set keeps each element once, in the canonical order. A map takes its
/// elements two by two as key and value, keeps the entries in the canonical
/// order of the keys, and of two entries with one key the later. A comment
/// among the elements of a collection is an element.
pub open spec fn value_at(s: Seq<char>, pos: int) -> Result<(Value, int), (ErrorKind, int)>
    decreases s.len() - pos, 0int,
{
    if pos < 0 || pos >= s.len() {
        Err((ErrorKind::EmptyInput, pos))
    } else if s[pos] == '(' {
        match elements_at(s, pos + 1, ')', pos) {
            Ok((items, end)) => Ok((Value::List(items), end)),
            Err(e) => Err(e),
        }
    } else if s[pos] == '[' {
        match elements_at(s, pos + 1, ']', pos) {
            Ok((items, end)) => Ok((Value::Vector(items), end)),
            Err(e) => Err(e),
        }
    } else if s[pos] == '{' {
        match elements_at(s, pos + 1, '}', pos) {
            Ok((items, end)) => if items.len() % 2 == 1 {
                Err((ErrorKind::OddMapElements, pos))
            } else {
                Ok((Value::SortedMap(map_of(pairs_of(items))), end))
            },
            Err(e) => Err(e),
        }
    } else if s[pos] == '#' {
        if pos + 1 < s.len() && s[pos + 1] == '{' {
            match elements_at(s, pos + 2, '}', pos) {
                Ok((items, end)) => Ok((Value::SortedSet(set_of(items)), end)),
                Err(e) => Err(e),
            }
        } else {
            Err((ErrorKind::UnrecognizedCharacter, pos))
        }
    } else {
        scalar_at(s, pos)
    }
}

/// The elements from `pos` up to the delimiter `close`, and the position
/// behind it. `opened` is where the collection began: an error for a missing
/// `close` points there.
pub open spec fn elements_at(s: Seq<char>, pos: int, close: char, opened: int) -> Result<
    (Seq<Value>, int),
    (ErrorKind, int),
>
    decreases s.len() - pos, 1int,
{
    if pos < 0 || pos >= s.len() {
        Err((ErrorKind::UnterminatedCollection, opened))
    } else if is_separator(s[pos]) {
        elements_at(s, pos + 1, close, opened)
    } else if s[pos] == close {
        Ok((Seq::empty(), pos + 1))
    } else {
        match value_at(s, pos) {
            Ok((first, next)) => if pos < next <= s.len() {
                match elements_at(s, next, close, opened) {
                    Ok((rest, end)) => Ok((seq![first] + rest, end)),
                    Err(e) => Err(e),
                }
            } else {
                Err((ErrorKind::UnterminatedCollection, opened))
            },
            Err(e) => Err(e),
        }
    }
}

/// The value that a text denotes: one value, with nothing but separators and
/// comments in front of it and behind it. A text of separators and comments
/// with at least one comment denotes a comment.
pub open spec fn read(s: Seq<char>) -> Result<Value, (ErrorKind, int)> {
    let start = blank_end(s, 0, false);
    if start >= s.len() {
        if s.contains(';') {
            Ok(Value::Comment)
        } else {
            Err((ErrorKind::EmptyInput, s.len() as int))
        }
    } else {
        match value_at(s, start) {
            Ok((v, end)) => {
                let rest = blank_end(s, end, false);
                if rest >= s.len() {
                    Ok(v)
                } else {
                    Err((ErrorKind::TrailingInput, rest))
                }
            },
            Err(e) => Err(e),
        }
    }
}

} // verus!
