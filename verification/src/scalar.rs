//! Reading the values that are no collections: strings, characters, symbols,
//! keywords, numbers and comments.

use crate::ast::{optional_text, Expr, Value};
use crate::digits::{digits_value, lemma_value_prefix, lemma_value_push};
use crate::double::Double;
use crate::error::{ErrorKind, ParseError};
use crate::grammar::{
    blank_end, character_at, coefficient_digits, digits_end, first_slash, identifier, is_scalar,
    is_segment, keyword_at, line_end, name_backspace, name_newline, name_nil, name_return,
    name_space, name_tab, named_character, number_at, number_layout, power_of_ten, scalar_at,
    starts_number, string_at, string_body, symbol_at, token_end, whole_value, NumberLayout,
};
use crate::number::{BigInteger, Decimal, DecimalValue, Float, Integer, IntegerValue};
use crate::text::{
    char_at, chars_of, constituent, digit, digit_value, hex_digit, hex_digit_value, is_constituent,
    is_digit, is_sign, separator, sign, slice_string,
};
use vstd::prelude::*;

verus! {

/// `char::from_u32` gives the character with the given code, where there is one.
pub assume_specification[ char::from_u32 ](code: u32) -> (r: Option<char>)
    ensures
        r == (if is_scalar(code as int) {
            Some(code as char)
        } else {
            None::<char>
        }),
;

/// Whether what was read is what the grammar gives.
pub open spec fn value_agrees(
    s: Seq<char>,
    got: Result<(Expr, usize), ParseError>,
    expected: Result<(Value, int), (ErrorKind, int)>,
) -> bool {
    match (got, expected) {
        (Ok((e, end)), Ok((v, q))) => e@ == v && end == q,
        (Err(error), Err((kind, at))) => error.is_at(s, kind, at),
        _ => false,
    }
}

pub fn scan_line_end(chars: &Vec<char>, pos: usize) -> (end: usize)
    requires
        pos <= chars.len(),
    ensures
        end == line_end(chars@, pos as int),
        pos <= end <= chars.len(),
        pos < chars.len() ==> pos < end,
{
    let mut i = pos;
    while i < chars.len() && chars[i] != '\n'
        invariant
            pos <= i <= chars.len(),
            line_end(chars@, pos as int) == line_end(chars@, i as int),
        decreases chars.len() - i,
    {
        i += 1;
    }
    if i < chars.len() {
        i + 1
    } else {
        i
    }
}

pub fn scan_blank(chars: &Vec<char>, pos: usize) -> (end: usize)
    requires
        pos <= chars.len(),
    ensures
        end == blank_end(chars@, pos as int, false),
        pos <= end <= chars.len(),
{
    let mut i = pos;
    let mut in_comment = false;
    while i < chars.len() && (in_comment || separator(chars[i]) || chars[i] == ';')
        invariant
            pos <= i <= chars.len(),
            blank_end(chars@, pos as int, false) == blank_end(chars@, i as int, in_comment),
        decreases chars.len() - i,
    {
        if in_comment {
            in_comment = chars[i] != '\n';
        } else if chars[i] == ';' {
            in_comment = true;
        }
        i += 1;
    }
    i
}

pub fn scan_token(chars: &Vec<char>, pos: usize) -> (end: usize)
    requires
        pos <= chars.len(),
    ensures
        end == token_end(chars@, pos as int),
        pos <= end <= chars.len(),
        forall|i: int| pos <= i < end ==> is_constituent(#[trigger] chars@[i]),
        pos < chars.len() && is_constituent(chars@[pos as int]) ==> pos < end,
{
    let mut i = pos;
    while i < chars.len() && constituent(chars[i])
        invariant
            pos <= i <= chars.len(),
            token_end(chars@, pos as int) == token_end(chars@, i as int),
            forall|j: int| pos <= j < i ==> is_constituent(#[trigger] chars@[j]),
        decreases chars.len() - i,
    {
        i += 1;
    }
    i
}

pub fn scan_digits(chars: &Vec<char>, pos: usize) -> (end: usize)
    requires
        pos <= chars.len(),
    ensures
        end == digits_end(chars@, pos as int),
        pos <= end <= chars.len(),
        forall|i: int| pos <= i < end ==> is_digit(#[trigger] chars@[i]),
        pos < chars.len() && is_digit(chars@[pos as int]) ==> pos < end,
{
    let mut i = pos;
    while i < chars.len() && digit(chars[i])
        invariant
            pos <= i <= chars.len(),
            digits_end(chars@, pos as int) == digits_end(chars@, i as int),
            forall|j: int| pos <= j < i ==> is_digit(#[trigger] chars@[j]),
        decreases chars.len() - i,
    {
        i += 1;
    }
    i
}

/// The number that the digits from `from` up to `to` denote, where it fits in 128 bits.
fn digits_u128(chars: &Vec<char>, from: usize, to: usize) -> (r: Option<u128>)
    requires
        from <= to <= chars.len(),
        forall|i: int| from <= i < to ==> is_digit(#[trigger] chars@[i]),
    ensures
        match r {
            Some(v) => v == digits_value(chars@.subrange(from as int, to as int)),
            None => digits_value(chars@.subrange(from as int, to as int)) > u128::MAX,
        },
{
    let ghost all = chars@.subrange(from as int, to as int);
    let mut acc: u128 = 0;
    let mut i = from;
    assert(chars@.subrange(from as int, from as int) =~= Seq::<char>::empty());
    while i < to
        invariant
            from <= i <= to <= chars.len(),
            all == chars@.subrange(from as int, to as int),
            forall|j: int| from <= j < to ==> is_digit(#[trigger] chars@[j]),
            acc == digits_value(chars@.subrange(from as int, i as int)),
        decreases to - i,
    {
        let d = digit_value(chars[i]) as u128;
        proof {
            lemma_value_push(chars@.subrange(from as int, i as int), chars@[i as int]);
            assert(chars@.subrange(from as int, i + 1) =~= chars@.subrange(
                from as int,
                i as int,
            ).push(chars@[i as int]));
        }
        if acc > (u128::MAX - d) / 10 {
            proof {
                lemma_value_prefix(all, i + 1 - from);
                assert(all.subrange(0, i + 1 - from) =~= chars@.subrange(from as int, i + 1));
            }
            return None;
        }
        acc = acc * 10 + d;
        i += 1;
    }
    Some(acc)
}

/// Appends the characters from `from` up to `to`.
fn extend_chars(out: &mut Vec<char>, chars: &Vec<char>, from: usize, to: usize)
    requires
        from <= to <= chars.len(),
    ensures
        final(out)@ == old(out)@ + chars@.subrange(from as int, to as int),
{
    let mut i = from;
    assert(out@ + chars@.subrange(from as int, from as int) =~= out@);
    while i < to
        invariant
            from <= i <= to <= chars.len(),
            out@ == old(out)@ + chars@.subrange(from as int, i as int),
        decreases to - i,
    {
        out.push(chars[i]);
        i += 1;
        assert(out@ =~= old(out)@ + chars@.subrange(from as int, i as int));
    }
}

/// The parts of a number as they lie in the text.
pub struct Layout {
    pub negative: bool,
    pub int_start: usize,
    pub int_end: usize,
    pub has_fraction: bool,
    pub frac_end: usize,
    pub has_exponent: bool,
    pub exp_negative: bool,
    pub exp_start: usize,
    pub exp_end: usize,
    pub suffix_n: bool,
    pub suffix_m: bool,
    pub end: usize,
}

impl View for Layout {
    type V = NumberLayout;

    open spec fn view(&self) -> NumberLayout {
        NumberLayout {
            negative: self.negative,
            int_start: self.int_start as int,
            int_end: self.int_end as int,
            has_fraction: self.has_fraction,
            frac_end: self.frac_end as int,
            has_exponent: self.has_exponent,
            exp_negative: self.exp_negative,
            exp_start: self.exp_start as int,
            exp_end: self.exp_end as int,
            suffix_n: self.suffix_n,
            suffix_m: self.suffix_m,
            end: self.end as int,
        }
    }
}

/// The parts lie one behind the other within the text, and hold digits where
/// digits are meant.
pub open spec fn layout_fits(s: Seq<char>, pos: int, l: NumberLayout) -> bool {
    &&& pos <= l.int_start < l.int_end <= l.frac_end <= l.exp_end <= l.end <= s.len()
    &&& l.int_start <= pos + 1
    &&& forall|i: int| l.int_start <= i < l.int_end ==> is_digit(#[trigger] s[i])
    &&& l.has_fraction ==> l.int_end + 1 < l.frac_end
    &&& !l.has_fraction ==> l.int_end == l.frac_end
    &&& forall|i: int| l.int_end + 1 <= i < l.frac_end ==> is_digit(#[trigger] s[i])
    &&& l.has_exponent ==> l.frac_end < l.exp_start < l.exp_end
    &&& !l.has_exponent ==> l.frac_end == l.exp_end
    &&& l.has_exponent ==> forall|i: int| l.exp_start <= i < l.exp_end ==> is_digit(#[trigger] s[i])
}

/// Finds how the number that begins at `pos` lies in the text.
pub fn scan_number(chars: &Vec<char>, pos: usize) -> (r: Layout)
    requires
        pos < chars.len(),
        starts_number(chars@, pos as int),
    ensures
        r@ == number_layout(chars@, pos as int),
        layout_fits(chars@, pos as int, r@),
{
    let n = chars.len();
    let negative = chars[pos] == '-';
    let int_start = if sign(chars[pos]) {
        pos + 1
    } else {
        pos
    };
    let int_end = scan_digits(chars, int_start);
    let has_fraction = int_end < n && n - int_end > 1 && chars[int_end] == '.' && digit(
        chars[int_end + 1],
    );
    let frac_end = if has_fraction {
        scan_digits(chars, int_end + 1)
    } else {
        int_end
    };
    let marked = frac_end < n && (chars[frac_end] == 'e' || chars[frac_end] == 'E');
    let exp_signed = marked && n - frac_end > 1 && sign(chars[frac_end + 1]);
    let exp_digits: usize = if !marked {
        frac_end
    } else if exp_signed {
        frac_end + 2
    } else {
        frac_end + 1
    };
    let has_exponent = marked && exp_digits < n && digit(chars[exp_digits]);
    let exp_negative = exp_signed && chars[frac_end + 1] == '-';
    let exp_start = if has_exponent {
        exp_digits
    } else {
        frac_end
    };
    let exp_end = if has_exponent {
        scan_digits(chars, exp_start)
    } else {
        frac_end
    };
    let suffix_n = exp_end < n && chars[exp_end] == 'N';
    let suffix_m = exp_end < n && chars[exp_end] == 'M';
    let end = if suffix_n || suffix_m {
        exp_end + 1
    } else {
        exp_end
    };
    Layout {
        negative,
        int_start,
        int_end,
        has_fraction,
        frac_end,
        has_exponent,
        exp_negative,
        exp_start,
        exp_end,
        suffix_n,
        suffix_m,
        end,
    }
}

/// The integer that the whole digits of a number denote.
fn read_integer(chars: &Vec<char>, pos: usize, l: &Layout) -> (r: Integer)
    requires
        pos < chars.len(),
        layout_fits(chars@, pos as int, l@),
        l.int_start == pos + 1 ==> is_sign(chars@[pos as int]),
        l.negative == (chars@[pos as int] == '-'),
    ensures
        r@ == (if l.suffix_n || !(i64::MIN <= whole_value(chars@, l@) <= i64::MAX) {
            IntegerValue::Arbitrary(whole_value(chars@, l@))
        } else {
            IntegerValue::Exact(whole_value(chars@, l@))
        }),
{
    let ghost s = chars@;
    let magnitude = digits_u128(chars, l.int_start, l.int_end);
    if !l.suffix_n {
        match magnitude {
            Some(v) => {
                if !l.negative && v <= 0x7fff_ffff_ffff_ffff {
                    return Integer::Exact(v as i64);
                }
                if l.negative && v <= 0x8000_0000_0000_0000 {
                    let x: i128 = -(v as i128);
                    return Integer::Exact(x as i64);
                }
            },
            None => {},
        }
    }
    let literal = slice_string(chars, pos, l.int_end);
    proof {
        let t = s.subrange(pos as int, l.int_end as int);
        let d = s.subrange(l.int_start as int, l.int_end as int);
        assert forall|i: int| 0 <= i < d.len() implies is_digit(#[trigger] d[i]) by {
            assert(d[i] == s[l.int_start + i]);
        }
        if l.int_start > pos {
            assert(t.skip(1) =~= d);
        } else {
            assert(t =~= d);
            assert(is_digit(s[pos as int]));
        }
        assert(t[0] == s[pos as int]);
    }
    Integer::Arbitrary(BigInteger::from_literal(literal.as_str()))
}

/// The power of ten of a number, where it fits in 64 bits.
fn read_power(chars: &Vec<char>, pos: usize, l: &Layout) -> (r: Option<i64>)
    requires
        layout_fits(chars@, pos as int, l@),
    ensures
        match r {
            Some(e) => e == power_of_ten(chars@, l@),
            None => !(i64::MIN <= power_of_ten(chars@, l@) <= i64::MAX),
        },
{
    let mut written: i128 = 0;
    if l.has_exponent {
        match digits_u128(chars, l.exp_start, l.exp_end) {
            Some(v) => {
                if v > 0x2_0000_0000_0000_0000 {
                    return None;
                } else if l.exp_negative {
                    written = -(v as i128);
                } else {
                    written = v as i128;
                }
            },
            None => {
                return None;
            },
        }
    }
    let scale: usize = if l.has_fraction {
        l.frac_end - l.int_end - 1
    } else {
        0
    };
    let e: i128 = written - (scale as i128);
    if e < -0x8000_0000_0000_0000 || e > 0x7fff_ffff_ffff_ffff {
        None
    } else {
        Some(e as i64)
    }
}

/// The decimal number with the digits of a number and the given power of ten.
fn read_decimal(chars: &Vec<char>, pos: usize, l: &Layout, exponent: i64) -> (r: Decimal)
    requires
        layout_fits(chars@, pos as int, l@),
    ensures
        r@ == (DecimalValue {
            negative: l.negative,
            coefficient: digits_value(coefficient_digits(chars@, l@)),
            exponent: exponent as int,
        }),
{
    let mut digits: Vec<char> = Vec::new();
    extend_chars(&mut digits, chars, l.int_start, l.int_end);
    if l.has_fraction {
        extend_chars(&mut digits, chars, l.int_end + 1, l.frac_end);
    }
    proof {
        assert(digits@ =~= coefficient_digits(chars@, l@));
        assert forall|i: int| 0 <= i < digits@.len() implies is_digit(#[trigger] digits@[i]) by {
            if i < l.int_end - l.int_start {
                assert(digits@[i] == chars@[l.int_start + i]);
            } else {
                assert(digits@[i] == chars@[l.int_end + 1 + (i - (l.int_end - l.int_start))]);
            }
        }
    }
    Decimal::from_digits(l.negative, &digits, exponent)
}

/// Reads the number that begins at `pos`.
pub fn read_number(chars: &Vec<char>, pos: usize) -> (r: Result<(Expr, usize), ParseError>)
    requires
        pos < chars.len(),
        starts_number(chars@, pos as int),
    ensures
        value_agrees(chars@, r, number_at(chars@, pos as int)),
        r matches Ok((_, end)) ==> pos < end <= chars.len(),
{
    let l = scan_number(chars, pos);
    if l.end < chars.len() && constituent(chars[l.end]) {
        return Err(ParseError::locate(chars, ErrorKind::InvalidNumber, l.end));
    }
    if l.suffix_n && (l.has_fraction || l.has_exponent) {
        return Err(ParseError::locate(chars, ErrorKind::InvalidSuffix, l.exp_end));
    }
    if !l.suffix_m && !l.has_fraction && !l.has_exponent {
        let i = read_integer(chars, pos, &l);
        return Ok((Expr::Integer(i), l.end));
    }
    match read_power(chars, pos, &l) {
        Some(exponent) => {
            let d = read_decimal(chars, pos, &l, exponent);
            if l.suffix_m {
                Ok((Expr::Float(Float::Exact(d)), l.end))
            } else {
                match Double::from_decimal(&d) {
                    Some(double) => Ok((Expr::Float(Float::Double(double)), l.end)),
                    None => Err(ParseError::locate(chars, ErrorKind::ExponentOutOfRange, pos)),
                }
            }
        },
        None => Err(ParseError::locate(chars, ErrorKind::ExponentOutOfRange, pos)),
    }
}

/// What stands in front of the rest of a string.
pub open spec fn with_prefix(prefix: Seq<char>, rest: Option<(Seq<char>, int)>) -> Option<
    (Seq<char>, int),
> {
    match rest {
        Some((t, end)) => Some((prefix + t, end)),
        None => None,
    }
}

/// Reads the string whose opening quote stands at `pos`.
pub fn read_string(chars: &Vec<char>, pos: usize) -> (r: Result<(Expr, usize), ParseError>)
    requires
        pos < chars.len(),
    ensures
        value_agrees(chars@, r, string_at(chars@, pos as int)),
        r matches Ok((_, end)) ==> pos < end <= chars.len(),
{
    let n = chars.len();
    let ghost s = chars@;
    let mut out = String::new();
    let mut i = pos + 1;
    proof {
        let whole = string_body(s, pos + 1);
        match whole {
            Some((t, end)) => {
                assert(out@ + t =~= t);
            },
            None => {},
        }
    }
    while i < n && chars[i] != '"'
        invariant
            pos < i <= n,
            n == chars.len(),
            s == chars@,
            string_body(s, pos + 1) == with_prefix(out@, string_body(s, i as int)),
        decreases n - i,
    {
        let ghost before = out@;
        let c = chars[i];
        if c == '\\' && n - i > 1 && (chars[i + 1] == '"' || chars[i + 1] == '\\' || chars[i + 1]
            == 'n' || chars[i + 1] == 't' || chars[i + 1] == 'r') {
            let e = chars[i + 1];
            let u = if e == 'n' {
                '\n'
            } else if e == 't' {
                '\t'
            } else if e == 'r' {
                '\r'
            } else {
                e
            };
            out.push(u);
            proof {
                match string_body(s, i + 2) {
                    Some((t, end)) => {
                        assert(before + (seq![u] + t) =~= out@ + t);
                    },
                    None => {},
                }
            }
            i += 2;
        } else {
            out.push(c);
            proof {
                match string_body(s, i + 1) {
                    Some((t, end)) => {
                        assert(before + (seq![c] + t) =~= out@ + t);
                    },
                    None => {},
                }
            }
            i += 1;
        }
    }
    if i >= n {
        return Err(ParseError::locate(chars, ErrorKind::UnterminatedString, pos));
    }
    proof {
        assert(out@ + Seq::<char>::empty() =~= out@);
    }
    Ok((Expr::String(out), i + 1))
}

/// Whether the characters from `from` up to `to` are those of `word`.
fn is_word(chars: &Vec<char>, from: usize, to: usize, word: &str) -> (r: bool)
    requires
        from <= to <= chars.len(),
    ensures
        r == (chars@.subrange(from as int, to as int) == word@),
{
    let w = chars_of(word);
    if w.len() != to - from {
        return false;
    }
    let mut i: usize = 0;
    while i < w.len()
        invariant
            i <= w.len(),
            w.len() == to - from,
            from <= to <= chars.len(),
            w@ == word@,
            forall|j: int| 0 <= j < i ==> chars@[from + j] == w@[j],
        decreases w.len() - i,
    {
        if chars[from + i] != w[i] {
            assert(chars@.subrange(from as int, to as int)[i as int] != w@[i as int]);
            return false;
        }
        i += 1;
    }
    assert(chars@.subrange(from as int, to as int) =~= w@);
    true
}

/// The character that the name from `from` up to `to` denotes.
fn read_character_name(chars: &Vec<char>, from: usize, to: usize) -> (r: Option<char>)
    requires
        from < to <= chars.len(),
    ensures
        r == named_character(chars@.subrange(from as int, to as int)),
{
    let ghost name = chars@.subrange(from as int, to as int);
    proof {
        reveal_strlit("newline");
        reveal_strlit("return");
        reveal_strlit("space");
        reveal_strlit("tab");
        reveal_strlit("backspace");
        assert("newline"@ =~= name_newline());
        assert("return"@ =~= name_return());
        assert("space"@ =~= name_space());
        assert("tab"@ =~= name_tab());
        assert("backspace"@ =~= name_backspace());
        assert(name[0] == chars@[from as int]);
    }
    let c = char_at(chars, from);
    if to - from == 1 {
        if c == 'n' {
            Some('\n')
        } else if c == 'r' {
            Some('\r')
        } else if c == 't' {
            Some('\t')
        } else if c == 'b' {
            Some('\u{8}')
        } else {
            Some(c)
        }
    } else if is_word(chars, from, to, "newline") {
        Some('\n')
    } else if is_word(chars, from, to, "return") {
        Some('\r')
    } else if is_word(chars, from, to, "space") {
        Some(' ')
    } else if is_word(chars, from, to, "tab") {
        Some('\t')
    } else if is_word(chars, from, to, "backspace") {
        Some('\u{8}')
    } else if to - from == 5 && c == 'u' && hex_digit(chars[from + 1]) && hex_digit(chars[from + 2])
        && hex_digit(chars[from + 3]) && hex_digit(chars[from + 4]) {
        proof {
            assert(name[1] == chars@[from + 1]);
            assert(name[2] == chars@[from + 2]);
            assert(name[3] == chars@[from + 3]);
            assert(name[4] == chars@[from + 4]);
            let t = name.subrange(1, 5);
            assert(t[0] == name[1] && t[1] == name[2] && t[2] == name[3] && t[3] == name[4]);
        }
        let code: u32 = hex_digit_value(chars[from + 1]) * 4096 + hex_digit_value(chars[from + 2])
            * 256 + hex_digit_value(chars[from + 3]) * 16 + hex_digit_value(chars[from + 4]);
        char::from_u32(code)
    } else {
        proof {
            if name.len() == 5 {
                assert(name[1] == chars@[from + 1]);
                assert(name[2] == chars@[from + 2]);
                assert(name[3] == chars@[from + 3]);
                assert(name[4] == chars@[from + 4]);
            }
        }
        None
    }
}

/// Reads the character whose backslash stands at `pos`.
pub fn read_character(chars: &Vec<char>, pos: usize) -> (r: Result<(Expr, usize), ParseError>)
    requires
        pos < chars.len(),
    ensures
        value_agrees(chars@, r, character_at(chars@, pos as int)),
        r matches Ok((_, end)) ==> pos < end <= chars.len(),
{
    let n = chars.len();
    if n - pos <= 1 {
        return Err(ParseError::locate(chars, ErrorKind::InvalidCharacter, pos));
    }
    let c = char_at(chars, pos + 1);
    if !constituent(c) {
        return Ok((Expr::Character(c), pos + 2));
    }
    let end = scan_token(chars, pos + 1);
    assert(end > pos + 1);
    match read_character_name(chars, pos + 1, end) {
        Some(c) => Ok((Expr::Character(c), end)),
        None => Err(ParseError::locate(chars, ErrorKind::InvalidCharacter, pos)),
    }
}

/// The first slash from `from` on, or `to` where there is none.
fn find_slash(chars: &Vec<char>, from: usize, to: usize) -> (p: usize)
    requires
        from <= to <= chars.len(),
    ensures
        from <= p <= to,
        p - from == first_slash(chars@.subrange(from as int, to as int), 0),
{
    let ghost t = chars@.subrange(from as int, to as int);
    let mut i = from;
    while i < to && chars[i] != '/'
        invariant
            from <= i <= to <= chars.len(),
            t == chars@.subrange(from as int, to as int),
            first_slash(t, 0) == first_slash(t, i - from),
        decreases to - i,
    {
        assert(t[i - from] == chars@[i as int]);
        i += 1;
    }
    proof {
        if i < to {
            assert(t[i - from] == chars@[i as int]);
        }
    }
    i
}

/// Whether the characters from `from` up to `to` are a part of a symbol.
fn segment(chars: &Vec<char>, from: usize, to: usize) -> (r: bool)
    requires
        from <= to <= chars.len(),
    ensures
        r == is_segment(chars@.subrange(from as int, to as int)),
{
    if from == to {
        return false;
    }
    assert(chars@.subrange(from as int, to as int)[0] == chars@[from as int]);
    if digit(chars[from]) {
        return false;
    }
    find_slash(chars, from, to) == to
}

/// The namespace and the name that the token from `from` up to `to` denotes.
pub fn read_identifier(chars: &Vec<char>, from: usize, to: usize) -> (r: Option<
    (Option<String>, String),
>)
    requires
        from <= to <= chars.len(),
    ensures
        match (r, identifier(chars@.subrange(from as int, to as int))) {
            (Some((namespace, name)), Some((n, m))) => optional_text(namespace) == n && name@ == m,
            (None, None) => true,
            _ => false,
        },
{
    let ghost t = chars@.subrange(from as int, to as int);
    if to - from == 1 && chars[from] == '/' {
        assert(t =~= seq!['/']);
        return Some((None, slice_string(chars, from, to)));
    }
    proof {
        if t == seq!['/'] {
            assert(t.len() == 1);
            assert(t[0] == chars@[from as int]);
        }
    }
    let p = find_slash(chars, from, to);
    if p == to {
        if segment(chars, from, to) {
            Some((None, slice_string(chars, from, to)))
        } else {
            None
        }
    } else {
        assert(t.subrange(0, p - from) =~= chars@.subrange(from as int, p as int));
        assert(t.subrange(p - from + 1, t.len() as int) =~= chars@.subrange(p + 1, to as int));
        if segment(chars, from, p) && segment(chars, p + 1, to) {
            Some((Some(slice_string(chars, from, p)), slice_string(chars, p + 1, to)))
        } else {
            None
        }
    }
}

/// Reads the symbol that begins at `pos`.
pub fn read_symbol(chars: &Vec<char>, pos: usize) -> (r: Result<(Expr, usize), ParseError>)
    requires
        pos < chars.len(),
        is_constituent(chars@[pos as int]),
    ensures
        value_agrees(chars@, r, symbol_at(chars@, pos as int)),
        r matches Ok((_, end)) ==> pos < end <= chars.len(),
{
    let end = scan_token(chars, pos);
    assert(end > pos);
    match read_identifier(chars, pos, end) {
        Some((namespace, name)) => {
            proof {
                reveal_strlit("nil");
                assert("nil"@ =~= name_nil());
            }
            let letters = chars_of(name.as_str());
            assert(letters@.subrange(0, letters.len() as int) =~= name@);
            if namespace.is_none() && is_word(&letters, 0, letters.len(), "nil") {
                Ok((Expr::Nil, end))
            } else {
                Ok((Expr::Symbol { namespace, name }, end))
            }
        },
        None => Err(ParseError::locate(chars, ErrorKind::InvalidIdentifier, pos)),
    }
}

/// Reads the keyword whose colon stands at `pos`.
pub fn read_keyword(chars: &Vec<char>, pos: usize) -> (r: Result<(Expr, usize), ParseError>)
    requires
        pos < chars.len(),
    ensures
        value_agrees(chars@, r, keyword_at(chars@, pos as int)),
        r matches Ok((_, end)) ==> pos < end <= chars.len(),
{
    let end = scan_token(chars, pos + 1);
    match read_identifier(chars, pos + 1, end) {
        Some((namespace, name)) => Ok((Expr::Keyword { namespace, name }, end)),
        None => Err(ParseError::locate(chars, ErrorKind::InvalidIdentifier, pos)),
    }
}

/// Reads the value that is no collection and begins at `pos`.
pub fn read_scalar(chars: &Vec<char>, pos: usize) -> (r: Result<(Expr, usize), ParseError>)
    requires
        pos < chars.len(),
    ensures
        value_agrees(chars@, r, scalar_at(chars@, pos as int)),
        r matches Ok((_, end)) ==> pos < end <= chars.len(),
{
    let n = chars.len();
    let c = chars[pos];
    if c == ')' || c == ']' || c == '}' {
        Err(ParseError::locate(chars, ErrorKind::UnexpectedClose, pos))
    } else if c == '"' {
        read_string(chars, pos)
    } else if c == '\\' {
        read_character(chars, pos)
    } else if c == ';' {
        Ok((Expr::Comment, scan_line_end(chars, pos)))
    } else if c == ':' {
        read_keyword(chars, pos)
    } else if digit(c) || (sign(c) && n - pos > 1 && digit(chars[pos + 1])) {
        read_number(chars, pos)
    } else if constituent(c) {
        read_symbol(chars, pos)
    } else {
        Err(ParseError::locate(chars, ErrorKind::UnrecognizedCharacter, pos))
    }
}

} // verus!

