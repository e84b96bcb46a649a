//! What the printer writes, the reader reads as the value it was written for.

use crate::ast::Value;
use crate::collection::{lemma_map_of_increasing, lemma_set_of_increasing, pairs_of};
use crate::digits::{lemma_int_text, lemma_nat_digits, nat_digits};
use crate::double::{
    double_text, exponent_form, point_form, small_form, whole_form, MAX_SMALL_ZEROS,
    MAX_WHOLE_DIGITS,
};
use crate::error::ErrorKind;
use crate::grammar::{elements_at, name_nil, read, starts_number, symbol_at, value_at};
use crate::number::{decimal_text, exact_text, DecimalValue, FloatValue, IntegerValue};
use crate::occurs::{
    lemma_no_slash, lemma_occurs_concat, lemma_occurs_one, lemma_occurs_self,
    lemma_occurs_subrange, lemma_token_run, occurs, token_stops,
};
use crate::printer::{joined, joined_entries, text_of};
use crate::readable::{all_entries_readable, all_readable, is_readable};
use crate::reread_number::{lemma_reread_float, lemma_reread_integer};
use crate::reread_text::{
    lemma_identifier_constituent, lemma_reread_character, lemma_reread_keyword,
    lemma_reread_string, lemma_reread_symbol,
};
use crate::text::{is_constituent, is_digit, is_separator};
use vstd::prelude::*;

verus! {

/// A character that can begin a value in a collection: no separator, no
/// closing delimiter, no comment.
pub open spec fn begins_value(c: char) -> bool {
    !is_separator(c) && c != ')' && c != ']' && c != '}' && c != ';'
}

/// The text of a decimal number begins with its sign or a digit.
proof fn lemma_decimal_starts(d: DecimalValue)
    ensures
        decimal_text(d).len() >= 1,
        exact_text(d).len() >= 1,
        decimal_text(d)[0] == '-' || is_digit(decimal_text(d)[0]),
        exact_text(d)[0] == '-' || is_digit(exact_text(d)[0]),
{
    lemma_nat_digits(d.coefficient);
    let digits = nat_digits(d.coefficient);
    assert(is_digit(digits[0]));
    let n = digits.len() as int;
    let k = -d.exponent;
    if 0 < k < n {
        assert(digits.subrange(0, n - k)[0] == digits[0]);
    }
}

/// The text of a double begins with its sign or a digit.
proof fn lemma_double_starts(d: DecimalValue)
    ensures
        double_text(d).len() >= 1,
        double_text(d)[0] == '-' || is_digit(double_text(d)[0]),
{
    lemma_nat_digits(d.coefficient);
    let digits = nat_digits(d.coefficient);
    assert(is_digit(digits[0]));
    let n = digits.len() as int;
    let point = n + d.exponent;
    if 0 <= d.exponent && point <= MAX_WHOLE_DIGITS {
        assert(whole_form(digits, d.exponent as nat)[0] == digits[0]);
    } else if 0 < point <= MAX_WHOLE_DIGITS {
        assert(point_form(digits, point)[0] == digits[0]);
    } else if -MAX_SMALL_ZEROS < point <= 0 {
        assert(small_form(digits, (-point) as nat)[0] == '0');
    } else {
        assert(exponent_form(digits, point - 1)[0] == digits[0]);
    }
}

/// The text of a readable value is not empty and begins as a value may.
pub proof fn lemma_text_starts(v: Value)
    requires
        is_readable(v),
    ensures
        text_of(v).len() >= 1,
        begins_value(text_of(v)[0]),
{
    match v {
        Value::Symbol { namespace, name } => {
            lemma_identifier_constituent(namespace, name);
        },
        Value::Integer(i) => {
            match i {
                IntegerValue::Exact(x) => {
                    lemma_int_text(x);
                },
                IntegerValue::Arbitrary(x) => {
                    lemma_int_text(x);
                },
            }
        },
        Value::Float(f) => {
            match f {
                FloatValue::Double(d) => {
                    lemma_double_starts(d);
                },
                FloatValue::Exact(d) => {
                    lemma_decimal_starts(d);
                },
            }
        },
        _ => {},
    }
}

/// The value nil is read again from its text.
proof fn lemma_reread_nil(s: Seq<char>, pos: int)
    requires
        occurs(s, pos, name_nil()),
        token_stops(s, pos + 3),
    ensures
        symbol_at(s, pos) == Ok::<(Value, int), (ErrorKind, int)>((Value::Nil, pos + 3)),
        !starts_number(s, pos),
        is_constituent(s[pos]),
{
    let t = name_nil();
    assert(s[pos + 0] == t[0]);
    assert forall|i: int| 0 <= i < t.len() implies is_constituent(#[trigger] t[i]) by {}
    lemma_token_run(s, pos, t);
    lemma_occurs_subrange(s, pos, t);
    lemma_no_slash(t, 0);
}

/// A readable value that is no collection is read again from its text.
proof fn lemma_reread_scalar(s: Seq<char>, pos: int, v: Value)
    requires
        is_readable(v),
        !(v is List || v is Vector || v is SortedSet || v is SortedMap),
        occurs(s, pos, text_of(v)),
        token_stops(s, pos + text_of(v).len()),
    ensures
        value_at(s, pos) == Ok::<(Value, int), (ErrorKind, int)>((v, pos + text_of(v).len())),
{
    let t = text_of(v);
    lemma_text_starts(v);
    assert(s[pos + 0] == t[0]);
    match v {
        Value::String(c) => {
            lemma_reread_string(s, pos, c);
        },
        Value::Symbol { namespace, name } => {
            lemma_identifier_constituent(namespace, name);
            lemma_reread_symbol(s, pos, namespace, name);
            if t.len() >= 2 {
                assert(s[pos + 1] == t[1]);
            }
        },
        Value::Keyword { namespace, name } => {
            lemma_reread_keyword(s, pos, namespace, name);
        },
        Value::Character(c) => {
            lemma_reread_character(s, pos, c);
        },
        Value::Integer(i) => {
            lemma_reread_integer(s, pos, i);
        },
        Value::Float(f) => {
            lemma_reread_float(s, pos, f);
        },
        Value::Nil => {
            lemma_reread_nil(s, pos);
        },
        _ => {},
    }
}

/// The keys and values from index `i` on, one behind the other.
pub open spec fn flat(entries: Seq<(Value, Value)>, i: int) -> Seq<Value>
    decreases entries.len() - i,
{
    if i < 0 || i >= entries.len() {
        Seq::empty()
    } else {
        seq![entries[i].0, entries[i].1] + flat(entries, i + 1)
    }
}

/// `flat` holds each key and behind it its value.
proof fn lemma_flat(entries: Seq<(Value, Value)>, i: int)
    requires
        0 <= i <= entries.len(),
    ensures
        flat(entries, i).len() == 2 * (entries.len() - i),
        forall|j: int|
            0 <= j < entries.len() - i ==> flat(entries, i)[2 * j] == (#[trigger] entries[i + j]).0
                && flat(entries, i)[2 * j + 1] == entries[i + j].1,
    decreases entries.len() - i,
{
    if i < entries.len() {
        lemma_flat(entries, i + 1);
        let f = flat(entries, i);
        let rest = flat(entries, i + 1);
        assert forall|j: int| 0 <= j < entries.len() - i implies f[2 * j] == (
        #[trigger] entries[i + j]).0 && f[2 * j + 1] == entries[i + j].1 by {
            if j > 0 {
                assert(f[2 * j] == rest[2 * (j - 1)]);
                assert(f[2 * j + 1] == rest[2 * (j - 1) + 1]);
                assert(entries[i + 1 + (j - 1)] == entries[i + j]);
            }
        }
    }
}

/// The pairs of all keys and values laid flat are the entries.
proof fn lemma_pairs_of_flat(entries: Seq<(Value, Value)>)
    ensures
        pairs_of(flat(entries, 0)) == entries,
        flat(entries, 0).len() % 2 == 0,
{
    lemma_flat(entries, 0);
    let f = flat(entries, 0);
    let p = pairs_of(f);
    assert(p.len() == entries.len());
    assert forall|j: int| 0 <= j < entries.len() implies p[j] == entries[j] by {
        assert(entries[0 + j] == entries[j]);
        assert(f[2 * j] == entries[j].0);
        assert(f[2 * j + 1] == entries[j].1);
    }
    assert(p =~= entries);
}

/// A readable value is read again from its text, wherever the text stands,
/// if what follows it belongs to no token.
pub proof fn lemma_reread_value(s: Seq<char>, pos: int, v: Value)
    requires
        is_readable(v),
        occurs(s, pos, text_of(v)),
        token_stops(s, pos + text_of(v).len()),
    ensures
        value_at(s, pos) == Ok::<(Value, int), (ErrorKind, int)>((v, pos + text_of(v).len())),
    decreases v, 0int,
{
    let t = text_of(v);
    match v {
        Value::List(items) => {
            let inner = joined(items, 0);
            assert(t =~= seq!['('] + (inner + seq![')']));
            lemma_occurs_concat(s, pos, seq!['('], inner + seq![')']);
            lemma_occurs_one(s, pos, '(');
            lemma_reread_elements(s, pos + 1, items, 0, ')', pos);
            assert(items.subrange(0, items.len() as int) =~= items);
        },
        Value::Vector(items) => {
            let inner = joined(items, 0);
            assert(t =~= seq!['['] + (inner + seq![']']));
            lemma_occurs_concat(s, pos, seq!['['], inner + seq![']']);
            lemma_occurs_one(s, pos, '[');
            lemma_reread_elements(s, pos + 1, items, 0, ']', pos);
            assert(items.subrange(0, items.len() as int) =~= items);
        },
        Value::SortedSet(items) => {
            let inner = joined(items, 0);
            assert(t =~= seq!['#', '{'] + (inner + seq!['}']));
            lemma_occurs_concat(s, pos, seq!['#', '{'], inner + seq!['}']);
            assert(s[pos + 0] == seq!['#', '{'][0]);
            assert(s[pos + 1] == seq!['#', '{'][1]);
            lemma_reread_elements(s, pos + 2, items, 0, '}', pos);
            assert(items.subrange(0, items.len() as int) =~= items);
            lemma_set_of_increasing(items);
        },
        Value::SortedMap(entries) => {
            let inner = joined_entries(entries, 0);
            assert(t =~= seq!['{'] + (inner + seq!['}']));
            lemma_occurs_concat(s, pos, seq!['{'], inner + seq!['}']);
            lemma_occurs_one(s, pos, '{');
            lemma_reread_entries(s, pos + 1, entries, 0, pos);
            lemma_pairs_of_flat(entries);
            lemma_map_of_increasing(entries);
        },
        _ => {
            lemma_reread_scalar(s, pos, v);
        },
    }
}

/// The values from index `i` on are read again from their texts, up to the
/// closing delimiter.
pub proof fn lemma_reread_elements(
    s: Seq<char>,
    pos: int,
    items: Seq<Value>,
    i: int,
    close: char,
    opened: int,
)
    requires
        0 <= i <= items.len(),
        all_readable(items, i),
        close == ')' || close == ']' || close == '}',
        occurs(s, pos, joined(items, i) + seq![close]),
    ensures
        elements_at(s, pos, close, opened) == Ok::<(Seq<Value>, int), (ErrorKind, int)>(
            (items.subrange(i, items.len() as int), pos + joined(items, i).len() + 1),
        ),
    decreases items, items.len() - i,
{
    let rest = items.subrange(i, items.len() as int);
    if i == items.len() {
        assert(joined(items, i) + seq![close] =~= seq![close]);
        lemma_occurs_one(s, pos, close);
        assert(rest =~= Seq::<Value>::empty());
    } else {
        let v = items[i];
        let t = text_of(v);
        lemma_text_starts(v);
        let next = pos + t.len();
        if i == items.len() - 1 {
            assert(joined(items, i) + seq![close] =~= t + seq![close]);
            lemma_occurs_concat(s, pos, t, seq![close]);
            lemma_occurs_one(s, next, close);
            assert(s[pos + 0] == t[0]);
            lemma_reread_value(s, pos, v);
            assert(elements_at(s, next, close, opened) == Ok::<
                (Seq<Value>, int),
                (ErrorKind, int),
            >((Seq::empty(), next + 1)));
            assert(seq![v] + Seq::<Value>::empty() =~= rest);
        } else {
            let more = joined(items, i + 1);
            assert(joined(items, i) + seq![close] =~= t + (seq![' '] + (more + seq![close])));
            lemma_occurs_concat(s, pos, t, seq![' '] + (more + seq![close]));
            lemma_occurs_concat(s, next, seq![' '], more + seq![close]);
            lemma_occurs_one(s, next, ' ');
            assert(s[pos + 0] == t[0]);
            lemma_reread_value(s, pos, v);
            lemma_reread_elements(s, next + 1, items, i + 1, close, opened);
            assert(elements_at(s, next, close, opened) == elements_at(
                s,
                next + 1,
                close,
                opened,
            ));
            assert(seq![v] + items.subrange(i + 1, items.len() as int) =~= rest);
        }
    }
}

/// The keys and values from index `i` on are read again from their texts, up
/// to the closing brace.
pub proof fn lemma_reread_entries(
    s: Seq<char>,
    pos: int,
    entries: Seq<(Value, Value)>,
    i: int,
    opened: int,
)
    requires
        0 <= i <= entries.len(),
        all_entries_readable(entries, i),
        occurs(s, pos, joined_entries(entries, i) + seq!['}']),
    ensures
        elements_at(s, pos, '}', opened) == Ok::<(Seq<Value>, int), (ErrorKind, int)>(
            (flat(entries, i), pos + joined_entries(entries, i).len() + 1),
        ),
    decreases entries, entries.len() - i,
{
    let close = seq!['}'];
    if i == entries.len() {
        assert(joined_entries(entries, i) + close =~= close);
        lemma_occurs_one(s, pos, '}');
    } else {
        let k = entries[i].0;
        let v = entries[i].1;
        let kt = text_of(k);
        let vt = text_of(v);
        lemma_text_starts(k);
        lemma_text_starts(v);
        let at_value = pos + kt.len() + 1;
        let next = at_value + vt.len();
        let tail = if i == entries.len() - 1 {
            close
        } else {
            seq![',', ' '] + (joined_entries(entries, i + 1) + close)
        };
        assert(joined_entries(entries, i) + close =~= kt + (seq![' '] + (vt + tail)));
        lemma_occurs_concat(s, pos, kt, seq![' '] + (vt + tail));
        lemma_occurs_concat(s, pos + kt.len(), seq![' '], vt + tail);
        lemma_occurs_concat(s, at_value, vt, tail);
        lemma_occurs_one(s, pos + kt.len(), ' ');
        assert(s[pos + 0] == kt[0]);
        assert(s[at_value + 0] == vt[0]);
        assert(s[next + 0] == tail[0]);
        lemma_reread_value(s, pos, k);
        lemma_reread_value(s, at_value, v);
        assert(elements_at(s, pos + kt.len(), '}', opened) == elements_at(
            s,
            at_value,
            '}',
            opened,
        ));
        if i == entries.len() - 1 {
            assert(elements_at(s, next, '}', opened) == Ok::<(Seq<Value>, int), (ErrorKind, int)>(
                (Seq::empty(), next + 1),
            ));
            assert(flat(entries, i + 1) =~= Seq::<Value>::empty());
            assert(seq![v] + Seq::<Value>::empty() =~= seq![v]);
            assert(seq![k] + seq![v] =~= flat(entries, i));
        } else {
            let more = joined_entries(entries, i + 1);
            lemma_occurs_concat(s, next, seq![',', ' '], more + close);
            assert(s[next + 1] == seq![',', ' '][1]);
            lemma_reread_entries(s, next + 2, entries, i + 1, opened);
            assert(elements_at(s, next + 1, '}', opened) == elements_at(
                s,
                next + 2,
                '}',
                opened,
            ));
            assert(elements_at(s, next, '}', opened) == elements_at(s, next + 1, '}', opened));
            assert(seq![k] + (seq![v] + flat(entries, i + 1)) =~= flat(entries, i));
        }
    }
}

/// The text of a readable value denotes that value.
pub proof fn lemma_print_then_read(v: Value)
    requires
        is_readable(v),
    ensures
        read(text_of(v)) == Ok::<Value, (ErrorKind, int)>(v),
{
    let s = text_of(v);
    lemma_text_starts(v);
    lemma_occurs_self(s, Seq::empty());
    lemma_reread_value(s, 0, v);
}

pub open spec fn all_separators(t: Seq<char>) -> bool {
    forall|i: int| 0 <= i < t.len() ==> is_separator(#[trigger] t[i])
}

/// Whether `gaps` can stand around the texts of `items`: one in front of each
/// and one behind the last, each made of separators, and those between two
/// texts not empty.
pub open spec fn gaps_fit(items: Seq<Value>, gaps: Seq<Seq<char>>) -> bool {
    &&& gaps.len() == items.len() + 1
    &&& forall|j: int| 0 <= j < gaps.len() ==> all_separators(#[trigger] gaps[j])
    &&& forall|j: int| 0 < j < items.len() ==> (#[trigger] gaps[j]).len() >= 1
}

/// The texts of the values from index `i` on, each behind its gap, and the
/// last gap behind them.
pub open spec fn spaced(items: Seq<Value>, gaps: Seq<Seq<char>>, i: int) -> Seq<char>
    decreases items.len() - i,
{
    if i < 0 || i > items.len() || gaps.len() != items.len() + 1 {
        Seq::empty()
    } else if i == items.len() {
        gaps[i]
    } else {
        gaps[i] + text_of(items[i]) + spaced(items, gaps, i + 1)
    }
}

/// Separators in front of an element or of the closing delimiter are skipped.
proof fn lemma_skip_gap(s: Seq<char>, pos: int, gap: Seq<char>, close: char, opened: int)
    requires
        occurs(s, pos, gap),
        all_separators(gap),
    ensures
        elements_at(s, pos, close, opened) == elements_at(s, pos + gap.len(), close, opened),
    decreases gap.len(),
{
    if gap.len() > 0 {
        assert(s[pos + 0] == gap[0]);
        let rest = gap.drop_first();
        assert forall|i: int| 0 <= i < rest.len() implies s[pos + 1 + i] == #[trigger] rest[i] by {
            assert(rest[i] == gap[i + 1]);
            assert(s[pos + (i + 1)] == gap[i + 1]);
        }
        assert forall|i: int| 0 <= i < rest.len() implies is_separator(#[trigger] rest[i]) by {
            assert(rest[i] == gap[i + 1]);
        }
        lemma_skip_gap(s, pos + 1, rest, close, opened);
    }
}

/// The values from index `i` on are read again from their texts, whatever
/// separators stand around the texts.
pub proof fn lemma_reread_spaced(
    s: Seq<char>,
    pos: int,
    items: Seq<Value>,
    gaps: Seq<Seq<char>>,
    i: int,
    close: char,
    opened: int,
)
    requires
        0 <= i <= items.len(),
        all_readable(items, i),
        gaps_fit(items, gaps),
        close == ')' || close == ']' || close == '}',
        occurs(s, pos, spaced(items, gaps, i) + seq![close]),
    ensures
        elements_at(s, pos, close, opened) == Ok::<(Seq<Value>, int), (ErrorKind, int)>(
            (items.subrange(i, items.len() as int), pos + spaced(items, gaps, i).len() + 1),
        ),
    decreases items.len() - i,
{
    let gap = gaps[i];
    let rest = items.subrange(i, items.len() as int);
    let at = pos + gap.len();
    assert(all_separators(gap));
    if i == items.len() {
        lemma_occurs_concat(s, pos, gap, seq![close]);
        lemma_skip_gap(s, pos, gap, close, opened);
        lemma_occurs_one(s, at, close);
        assert(rest =~= Seq::<Value>::empty());
    } else {
        let v = items[i];
        let t = text_of(v);
        let more = spaced(items, gaps, i + 1);
        lemma_text_starts(v);
        assert(spaced(items, gaps, i) + seq![close] =~= gap + (t + (more + seq![close])));
        lemma_occurs_concat(s, pos, gap, t + (more + seq![close]));
        lemma_occurs_concat(s, at, t, more + seq![close]);
        lemma_skip_gap(s, pos, gap, close, opened);
        let next = at + t.len();
        assert(s[at + 0] == t[0]);
        // what follows the text is a separator or the closing delimiter
        let following = more + seq![close];
        assert(s[next + 0] == following[0]);
        let next_gap = gaps[i + 1];
        assert(all_separators(next_gap));
        if next_gap.len() > 0 {
            assert(following[0] == next_gap[0]);
        } else {
            assert(i + 1 == items.len());
            assert(following =~= seq![close]);
        }
        lemma_reread_value(s, at, v);
        lemma_reread_spaced(s, next, items, gaps, i + 1, close, opened);
        assert(seq![v] + items.subrange(i + 1, items.len() as int) =~= rest);
    }
}

} // verus!
