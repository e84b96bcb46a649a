//! What the reader gives is readable, but for the comments in it.

use crate::ast::{lemma_no_comment, lemma_no_entry_comment, Value};
use crate::collection::{lemma_map_of, lemma_map_of_members, lemma_set_of, pairs_of};
use crate::grammar::{
    digits_end, elements_at, first_slash, identifier, is_string_escape, line_end, number_layout,
    read, scalar_at, starts_number, string_body, token_end, value_at,
};
use crate::digits::digits_value;
use crate::double::lemma_normalize;
use crate::grammar::{coefficient_digits, power_of_ten};
use crate::number::DecimalValue;
use crate::occurs::{all_constituent, lemma_first_slash};
use crate::printer::identifier_text;
use crate::readable::{
    is_name, is_readable, lemma_each_entry_readable, lemma_each_readable, number_like,
};
use crate::text::{is_constituent, is_digit};
use vstd::prelude::*;

verus! {

/// `token_end` stays within the text and runs over constituent characters only.
pub proof fn lemma_token_end(s: Seq<char>, pos: int)
    requires
        0 <= pos <= s.len(),
    ensures
        pos <= token_end(s, pos) <= s.len(),
        forall|j: int| pos <= j < token_end(s, pos) ==> is_constituent(#[trigger] s[j]),
    decreases s.len() - pos,
{
    if pos < s.len() && is_constituent(s[pos]) {
        lemma_token_end(s, pos + 1);
    }
}

/// What a token denotes are a namespace and a name of which it is the text.
pub proof fn lemma_identifier_parts(t: Seq<char>)
    requires
        all_constituent(t),
        identifier(t) is Some,
    ensures
        is_name(identifier(t)->Some_0.0, identifier(t)->Some_0.1),
        identifier_text(identifier(t)->Some_0.0, identifier(t)->Some_0.1) == t,
{
    let p = first_slash(t, 0);
    lemma_first_slash(t, 0);
    if t == seq!['/'] {
    } else if p >= t.len() {
    } else {
        let namespace = t.subrange(0, p);
        let name = t.subrange(p + 1, t.len() as int);
        assert forall|i: int| 0 <= i < namespace.len() implies is_constituent(
            #[trigger] namespace[i],
        ) by {
            assert(namespace[i] == t[i]);
        }
        assert forall|i: int| 0 <= i < name.len() implies is_constituent(#[trigger] name[i]) by {
            assert(name[i] == t[p + 1 + i]);
        }
        assert(namespace + seq!['/'] + name =~= t);
    }
}

/// The characters of a token are constituent.
proof fn lemma_token_text(s: Seq<char>, pos: int)
    requires
        0 <= pos <= s.len(),
    ensures
        all_constituent(s.subrange(pos, token_end(s, pos))),
{
    lemma_token_end(s, pos);
    let t = s.subrange(pos, token_end(s, pos));
    assert forall|i: int| 0 <= i < t.len() implies is_constituent(#[trigger] t[i]) by {
        assert(t[i] == s[pos + i]);
    }
}

/// A value that is no collection, as the reader gives it, is a comment or readable.
pub proof fn lemma_scalar_outcome(s: Seq<char>, pos: int)
    requires
        0 <= pos < s.len(),
        scalar_at(s, pos) is Ok,
    ensures
        scalar_at(s, pos)->Ok_0.0 is Comment || is_readable(scalar_at(s, pos)->Ok_0.0),
{
    let c = s[pos];
    if c == ')' || c == ']' || c == '}' {
    } else if c == '"' {
    } else if c == '\\' {
    } else if c == ';' {
    } else if c == ':' {
        lemma_token_text(s, pos + 1);
        lemma_identifier_parts(s.subrange(pos + 1, token_end(s, pos + 1)));
    } else if starts_number(s, pos) {
        let l = number_layout(s, pos);
        lemma_normalize(
            DecimalValue {
                negative: l.negative,
                coefficient: digits_value(coefficient_digits(s, l)),
                exponent: power_of_ten(s, l),
            },
        );
    } else if is_constituent(c) {
        lemma_token_text(s, pos);
        lemma_token_end(s, pos);
        let t = s.subrange(pos, token_end(s, pos));
        lemma_identifier_parts(t);
        if number_like(t) {
            assert(t[0] == s[pos]);
            if t.len() >= 2 {
                assert(t[1] == s[pos + 1]);
            }
        }
    } else {
    }
}

/// Whether each value is readable or holds a comment.
pub open spec fn each_readable_or_comment(items: Seq<Value>) -> bool {
    forall|j: int|
        0 <= j < items.len() ==> (#[trigger] items[j]).has_comment() || is_readable(items[j])
}

/// A value, as the reader gives it, holds a comment or is readable.
pub proof fn lemma_value_outcome(s: Seq<char>, pos: int)
    requires
        value_at(s, pos) is Ok,
    ensures
        value_at(s, pos)->Ok_0.0.has_comment() || is_readable(value_at(s, pos)->Ok_0.0),
    decreases s.len() - pos, 0int,
{
    let v = value_at(s, pos)->Ok_0.0;
    if pos < 0 || pos >= s.len() {
    } else if s[pos] == '(' {
        lemma_elements_outcome(s, pos + 1, ')', pos);
        let items = v->List_0;
        if !v.has_comment() {
            lemma_no_comment(items, 0);
            lemma_each_readable(items, 0);
        }
    } else if s[pos] == '[' {
        lemma_elements_outcome(s, pos + 1, ']', pos);
        let items = v->Vector_0;
        if !v.has_comment() {
            lemma_no_comment(items, 0);
            lemma_each_readable(items, 0);
        }
    } else if s[pos] == '{' {
        lemma_elements_outcome(s, pos + 1, '}', pos);
        let items = elements_at(s, pos + 1, '}', pos)->Ok_0.0;
        let pairs = pairs_of(items);
        let entries = v->SortedMap_0;
        if !v.has_comment() {
            lemma_no_entry_comment(entries, 0);
            lemma_map_of_members(pairs);
            lemma_map_of(pairs);
            assert forall|j: int| 0 <= j < entries.len() implies is_readable(
                (#[trigger] entries[j]).0,
            ) && is_readable(entries[j].1) by {
                assert(entries.contains(entries[j]));
                assert(pairs.contains(entries[j]));
                let k = choose|k: int| 0 <= k < pairs.len() && pairs[k] == entries[j];
                assert(pairs[k] == (items[2 * k], items[2 * k + 1]));
                assert(items[2 * k].has_comment() || is_readable(items[2 * k]));
                assert(items[2 * k + 1].has_comment() || is_readable(items[2 * k + 1]));
            }
            lemma_each_entry_readable(entries, 0);
        }
    } else if s[pos] == '#' {
        if pos + 1 < s.len() && s[pos + 1] == '{' {
            lemma_elements_outcome(s, pos + 2, '}', pos);
            let items = elements_at(s, pos + 2, '}', pos)->Ok_0.0;
            let members = v->SortedSet_0;
            if !v.has_comment() {
                lemma_no_comment(members, 0);
                lemma_set_of(items);
                assert forall|j: int| 0 <= j < members.len() implies is_readable(
                    #[trigger] members[j],
                ) by {
                    assert(members.contains(members[j]));
                    assert(items.contains(members[j]));
                    let k = choose|k: int| 0 <= k < items.len() && items[k] == members[j];
                    assert(items[k].has_comment() || is_readable(items[k]));
                }
                lemma_each_readable(members, 0);
            }
        }
    } else {
        lemma_scalar_outcome(s, pos);
    }
}

/// The elements of a collection, as the reader gives them, each hold a
/// comment or are readable.
pub proof fn lemma_elements_outcome(s: Seq<char>, pos: int, close: char, opened: int)
    requires
        elements_at(s, pos, close, opened) is Ok,
    ensures
        each_readable_or_comment(elements_at(s, pos, close, opened)->Ok_0.0),
    decreases s.len() - pos, 1int,
{
    let items = elements_at(s, pos, close, opened)->Ok_0.0;
    if pos < 0 || pos >= s.len() {
    } else if crate::text::is_separator(s[pos]) {
        lemma_elements_outcome(s, pos + 1, close, opened);
    } else if s[pos] == close {
    } else {
        lemma_value_outcome(s, pos);
        let first = value_at(s, pos)->Ok_0.0;
        let next = value_at(s, pos)->Ok_0.1;
        lemma_elements_outcome(s, next, close, opened);
        let rest = elements_at(s, next, close, opened)->Ok_0.0;
        assert forall|j: int| 0 <= j < items.len() implies (#[trigger] items[j]).has_comment()
            || is_readable(items[j]) by {
            if j > 0 {
                assert(items[j] == rest[j - 1]);
            }
        }
    }
}

/// The value that a text denotes holds a comment or is readable.
pub proof fn lemma_read_outcome(s: Seq<char>)
    requires
        read(s) is Ok,
    ensures
        read(s)->Ok_0.has_comment() || is_readable(read(s)->Ok_0),
{
    let start = crate::grammar::blank_end(s, 0, false);
    if start < s.len() {
        lemma_value_outcome(s, start);
    }
}

/// `digits_end` stays within the text and runs over digits only.
pub proof fn lemma_digits_end(s: Seq<char>, pos: int)
    requires
        0 <= pos <= s.len(),
    ensures
        pos <= digits_end(s, pos) <= s.len(),
        pos < s.len() && is_digit(s[pos]) ==> pos < digits_end(s, pos),
        forall|j: int| pos <= j < digits_end(s, pos) ==> is_digit(#[trigger] s[j]),
    decreases s.len() - pos,
{
    if pos < s.len() && is_digit(s[pos]) {
        lemma_digits_end(s, pos + 1);
    }
}

/// No slash stands in a number.
pub proof fn lemma_number_holds_no_slash(s: Seq<char>, pos: int)
    requires
        0 <= pos < s.len(),
        starts_number(s, pos),
    ensures
        pos < number_layout(s, pos).end <= s.len(),
        forall|j: int| pos <= j < number_layout(s, pos).end ==> #[trigger] s[j] != '/',
{
    let l = number_layout(s, pos);
    lemma_digits_end(s, l.int_start);
    if l.has_fraction {
        lemma_digits_end(s, l.int_end + 1);
    }
    if l.has_exponent {
        lemma_digits_end(s, l.exp_start);
    }
    assert forall|j: int| pos <= j < l.end implies #[trigger] s[j] != '/' by {
        if j < l.int_start {
        } else if j < l.int_end {
            assert(is_digit(s[j]));
        } else if j < l.frac_end {
            if j > l.int_end {
                assert(is_digit(s[j]));
            }
        } else if j < l.exp_end {
            if j >= l.exp_start {
                assert(is_digit(s[j]));
            }
        } else {
        }
    }
}

/// `line_end` stays within the text and passes at least one character.
pub proof fn lemma_line_end(s: Seq<char>, pos: int)
    requires
        0 <= pos < s.len(),
    ensures
        pos < line_end(s, pos) <= s.len(),
    decreases s.len() - pos,
{
    if s[pos] != '\n' {
        if pos + 1 < s.len() {
            lemma_line_end(s, pos + 1);
        } else {
            assert(line_end(s, pos + 1) == pos + 1);
        }
    }
}

/// A string ends within the text, behind where its content begins.
pub proof fn lemma_string_extent(s: Seq<char>, pos: int)
    requires
        0 <= pos,
    ensures
        string_body(s, pos) matches Some((_, end)) ==> pos < end <= s.len(),
    decreases s.len() - pos,
{
    if pos >= s.len() {
    } else if s[pos] == '"' {
    } else if s[pos] == '\\' && pos + 1 < s.len() && is_string_escape(s[pos + 1]) {
        lemma_string_extent(s, pos + 2);
    } else {
        lemma_string_extent(s, pos + 1);
    }
}

/// A value that is no collection takes at least one character and ends
/// within the text.
pub proof fn lemma_scalar_extent(s: Seq<char>, pos: int)
    requires
        0 <= pos < s.len(),
    ensures
        scalar_at(s, pos) matches Ok((_, end)) ==> pos < end <= s.len(),
{
    let c = s[pos];
    if c == ')' || c == ']' || c == '}' {
    } else if c == '"' {
        lemma_string_extent(s, pos + 1);
    } else if c == '\\' {
        if pos + 1 < s.len() {
            lemma_token_end(s, pos + 1);
        }
    } else if c == ';' {
        lemma_line_end(s, pos);
    } else if c == ':' {
        lemma_token_end(s, pos + 1);
    } else if starts_number(s, pos) {
        lemma_number_holds_no_slash(s, pos);
    } else if is_constituent(c) {
        lemma_token_end(s, pos + 1);
    } else {
    }
}

/// A value takes at least one character and ends within the text.
pub proof fn lemma_value_extent(s: Seq<char>, pos: int)
    requires
        0 <= pos,
    ensures
        value_at(s, pos) matches Ok((_, end)) ==> pos < end <= s.len(),
    decreases s.len() - pos, 0int,
{
    if pos >= s.len() {
    } else if s[pos] == '(' {
        lemma_elements_extent(s, pos + 1, ')', pos);
    } else if s[pos] == '[' {
        lemma_elements_extent(s, pos + 1, ']', pos);
    } else if s[pos] == '{' {
        lemma_elements_extent(s, pos + 1, '}', pos);
    } else if s[pos] == '#' {
        if pos + 1 < s.len() && s[pos + 1] == '{' {
            lemma_elements_extent(s, pos + 2, '}', pos);
        }
    } else {
        lemma_scalar_extent(s, pos);
    }
}

/// The elements of a collection end within the text, behind their closing delimiter.
pub proof fn lemma_elements_extent(s: Seq<char>, pos: int, close: char, opened: int)
    requires
        0 <= pos,
    ensures
        elements_at(s, pos, close, opened) matches Ok((_, end)) ==> pos < end <= s.len(),
    decreases s.len() - pos, 1int,
{
    if pos >= s.len() {
    } else if crate::text::is_separator(s[pos]) {
        lemma_elements_extent(s, pos + 1, close, opened);
    } else if s[pos] == close {
    } else {
        lemma_value_extent(s, pos);
        match value_at(s, pos) {
            Ok((_, next)) => {
                lemma_elements_extent(s, next, close, opened);
            },
            Err(_) => {},
        }
    }
}

} // verus!
