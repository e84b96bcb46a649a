//! What holds of the reader and the printer together.

use crate::ast::Value;
use crate::collection::{
    keys_distinct, lemma_entries_unique, lemma_increasing_unique, lemma_map_of,
    lemma_map_of_keeps, lemma_map_of_members, lemma_set_of, map_of, set_of,
};
use crate::error::ErrorKind;
use crate::digits::int_text;
use crate::grammar::{
    blank_end, elements_at, first_slash, identifier, keyword_at, number_at, number_layout, read,
    starts_number, symbol_at, token_end, value_at, whole_value,
};
use crate::number::IntegerValue;
use crate::occurs::lemma_first_slash;
use crate::text::{is_constituent, is_digit, is_separator};
use crate::outcome::{
    lemma_elements_extent, lemma_number_holds_no_slash, lemma_read_outcome, lemma_token_end,
    lemma_value_extent,
};
use crate::printer::text_of;
use crate::readable::is_readable;
use crate::collection::pairs_of;
use crate::occurs::{lemma_occurs_concat, lemma_occurs_self, occurs};
use crate::readable::all_readable;
use crate::respace::{composed, gaps_match, lemma_respaced, read_as};
use crate::roundtrip::{gaps_fit, lemma_print_then_read, lemma_reread_spaced, spaced};
use vstd::prelude::*;

verus! {

/// Printing and reading again changes nothing: where a text denotes a value
/// in which no comment stands, the canonical text of that value denotes the
/// same value.
pub proof fn law_round_trip(s: Seq<char>)
    requires
        read(s) is Ok,
        !read(s)->Ok_0.has_comment(),
    ensures
        read(text_of(read(s)->Ok_0)) == read(s),
{
    lemma_read_outcome(s);
    lemma_print_then_read(read(s)->Ok_0);
}

/// The canonical text of a readable value denotes it.
pub proof fn law_text_denotes_value(v: Value)
    requires
        is_readable(v),
    ensures
        read(text_of(v)) == Ok::<Value, (ErrorKind, int)>(v),
{
    lemma_print_then_read(v);
}

/// The order in which elements are put into a set does not show: two
/// sequences of elements that hold the same values make the same set, and so
/// the same text.
pub proof fn law_set_ignores_order(a: Seq<Value>, b: Seq<Value>)
    requires
        forall|v: Value| a.contains(v) <==> b.contains(v),
    ensures
        set_of(a) == set_of(b),
        text_of(Value::SortedSet(set_of(a))) == text_of(Value::SortedSet(set_of(b))),
{
    lemma_set_of(a);
    lemma_set_of(b);
    lemma_increasing_unique(set_of(a), set_of(b));
}

/// The order in which entries with distinct keys are put into a map does not
/// show: two sequences of such entries that hold the same entries make the
/// same map, and so the same text.
pub proof fn law_map_ignores_order(a: Seq<(Value, Value)>, b: Seq<(Value, Value)>)
    requires
        keys_distinct(a),
        keys_distinct(b),
        forall|e: (Value, Value)| a.contains(e) <==> b.contains(e),
    ensures
        map_of(a) == map_of(b),
        text_of(Value::SortedMap(map_of(a))) == text_of(Value::SortedMap(map_of(b))),
{
    lemma_map_of(a);
    lemma_map_of(b);
    lemma_map_of_members(a);
    lemma_map_of_members(b);
    lemma_map_of_keeps(a);
    lemma_map_of_keeps(b);
    lemma_entries_unique(map_of(a), map_of(b));
}

/// A map with an odd number of elements is refused, at the place where it opens.
pub proof fn law_odd_map_refused(s: Seq<char>, pos: int)
    requires
        0 <= pos < s.len(),
        s[pos] == '{',
        elements_at(s, pos + 1, '}', pos) is Ok,
        elements_at(s, pos + 1, '}', pos)->Ok_0.0.len() % 2 == 1,
    ensures
        value_at(s, pos) == Err::<(Value, int), (ErrorKind, int)>(
            (ErrorKind::OddMapElements, pos),
        ),
        blank_end(s, 0, false) == pos ==> read(s) == Err::<Value, (ErrorKind, int)>(
            (ErrorKind::OddMapElements, pos),
        ),
{
}

/// Separators in front of an element or of the closing delimiter of a
/// collection read as nothing, however many and whichever they are.
pub proof fn law_separators_in_collection(
    s: Seq<char>,
    pos: int,
    count: nat,
    close: char,
    opened: int,
)
    requires
        0 <= pos,
        pos + count <= s.len(),
        forall|i: int| pos <= i < pos + count ==> is_separator(#[trigger] s[i]),
    ensures
        elements_at(s, pos, close, opened) == elements_at(s, pos + count, close, opened),
    decreases count,
{
    if count > 0 {
        assert(is_separator(s[pos]));
        law_separators_in_collection(s, pos + 1, (count - 1) as nat, close, opened);
    }
}

/// Separators in front of the value of a text, and behind it, read as nothing.
pub proof fn law_separators_around_value(s: Seq<char>, pos: int, count: nat)
    requires
        0 <= pos,
        pos + count <= s.len(),
        forall|i: int| pos <= i < pos + count ==> is_separator(#[trigger] s[i]),
    ensures
        blank_end(s, pos, false) == blank_end(s, pos + count, false),
    decreases count,
{
    if count > 0 {
        assert(is_separator(s[pos]));
        law_separators_around_value(s, pos + 1, (count - 1) as nat);
    }
}

/// The suffix decides the kind of a number, whatever its size: `N` makes an
/// integer of any size, `M` an exact decimal number. Without a suffix, a
/// fraction or an exponent makes a double, and whole digits make an integer
/// of 64 bits exactly where their value fits in one.
pub proof fn law_number_kinds(s: Seq<char>, pos: int)
    requires
        number_at(s, pos) is Ok,
    ensures
        ({
            let l = number_layout(s, pos);
            let v = number_at(s, pos)->Ok_0.0;
            &&& l.suffix_n ==> v == Value::Integer(IntegerValue::Arbitrary(whole_value(s, l)))
            &&& l.suffix_m ==> v is Float && v->Float_0 is Exact
            &&& !l.suffix_n && !l.suffix_m && (l.has_fraction || l.has_exponent) ==> v is Float
                && v->Float_0 is Double
            &&& !l.suffix_n && !l.suffix_m && !l.has_fraction && !l.has_exponent ==> (if i64::MIN
                <= whole_value(s, l) <= i64::MAX {
                v == Value::Integer(IntegerValue::Exact(whole_value(s, l)))
            } else {
                v == Value::Integer(IntegerValue::Arbitrary(whole_value(s, l)))
            })
        }),
{
}

/// Every integer of 64 bits, written in decimal, is read as that integer of 64 bits.
pub proof fn law_integers_of_64_bits(x: int)
    requires
        i64::MIN <= x <= i64::MAX,
    ensures
        read(int_text(x)) == Ok::<Value, (ErrorKind, int)>(Value::Integer(IntegerValue::Exact(x))),
{
    lemma_print_then_read(Value::Integer(IntegerValue::Exact(x)));
}

/// A token with a slash whose namespace or name begins with a digit denotes
/// no symbol and no keyword.
pub proof fn law_digit_begins_no_part(t: Seq<char>)
    requires
        first_slash(t, 0) < t.len(),
        t.len() >= 2,
        is_digit(t[0]) || (first_slash(t, 0) + 1 < t.len() && is_digit(t[first_slash(t, 0) + 1])),
    ensures
        identifier(t) is None,
{
    let p = first_slash(t, 0);
    lemma_first_slash(t, 0);
    assert(t != seq!['/']) by {
        assert(seq!['/'].len() == 1);
    }
    let namespace = t.subrange(0, p);
    let name = t.subrange(p + 1, t.len() as int);
    if is_digit(t[0]) {
        if p > 0 {
            assert(namespace[0] == t[0]);
        }
    } else {
        assert(name[0] == t[p + 1]);
    }
}

/// A symbol or keyword with a part that begins with a digit is refused.
pub proof fn law_digit_part_refused(s: Seq<char>, pos: int)
    requires
        0 <= pos <= s.len(),
    ensures
        ({
            let t = s.subrange(pos, token_end(s, pos));
            first_slash(t, 0) + 1 < t.len() && is_digit(t[first_slash(t, 0) + 1]) ==> symbol_at(
                s,
                pos,
            ) == Err::<(Value, int), (ErrorKind, int)>((ErrorKind::InvalidIdentifier, pos))
        }),
        ({
            let t = s.subrange(pos + 1, token_end(s, pos + 1));
            pos < s.len() && first_slash(t, 0) < t.len() && t.len() >= 2 && (is_digit(t[0]) || (
            first_slash(t, 0) + 1 < t.len() && is_digit(t[first_slash(t, 0) + 1])))
                ==> keyword_at(s, pos) == Err::<(Value, int), (ErrorKind, int)>(
                (ErrorKind::InvalidIdentifier, pos),
            )
        }),
{
    let t = s.subrange(pos, token_end(s, pos));
    if first_slash(t, 0) + 1 < t.len() && is_digit(t[first_slash(t, 0) + 1]) {
        lemma_first_slash(t, 0);
        law_digit_begins_no_part(t);
    }
    let k = s.subrange(pos + 1, token_end(s, pos + 1));
    if pos < s.len() && first_slash(k, 0) < k.len() && k.len() >= 2 && (is_digit(k[0]) || (
    first_slash(k, 0) + 1 < k.len() && is_digit(k[first_slash(k, 0) + 1]))) {
        law_digit_begins_no_part(k);
    }
}

/// What begins as a number and holds a slash is refused: a namespace cannot
/// begin with a digit, nor with a sign and a digit.
pub proof fn law_number_with_slash_refused(s: Seq<char>, pos: int, slash: int)
    requires
        0 <= pos < s.len(),
        starts_number(s, pos),
        pos <= slash < token_end(s, pos),
        s[slash] == '/',
    ensures
        value_at(s, pos) == Err::<(Value, int), (ErrorKind, int)>(
            (ErrorKind::InvalidNumber, number_layout(s, pos).end),
        ),
{
    lemma_number_holds_no_slash(s, pos);
    lemma_token_end(s, pos);
    let l = number_layout(s, pos);
    assert(l.end <= slash);
    assert(is_constituent(s[l.end]));
    assert(is_constituent(s[pos]));
}

/// A value takes at least one character of the text and ends within it, and
/// so do the elements of a collection with their closing delimiter.
pub proof fn law_values_take_characters(s: Seq<char>, pos: int, close: char, opened: int)
    requires
        0 <= pos,
    ensures
        value_at(s, pos) matches Ok((_, end)) ==> pos < end <= s.len(),
        elements_at(s, pos, close, opened) matches Ok((_, end)) ==> pos < end <= s.len(),
{
    lemma_value_extent(s, pos);
    lemma_elements_extent(s, pos, close, opened);
}

/// Separators are interchangeable: whatever separators stand in front of,
/// between and behind the texts of the elements of a vector, the same vector
/// is read.
pub proof fn law_separators_interchangeable(
    items: Seq<Value>,
    gaps: Seq<Seq<char>>,
    others: Seq<Seq<char>>,
)
    requires
        all_readable(items, 0),
        gaps_fit(items, gaps),
        gaps_fit(items, others),
    ensures
        read(seq!['['] + spaced(items, gaps, 0) + seq![']']) == Ok::<Value, (ErrorKind, int)>(
            Value::Vector(items),
        ),
        read(seq!['['] + spaced(items, gaps, 0) + seq![']']) == read(
            seq!['['] + spaced(items, others, 0) + seq![']'],
        ),
{
    lemma_vector_with_gaps(items, gaps);
    lemma_vector_with_gaps(items, others);
}

/// A vector is read from the texts of its elements with any separators around them.
proof fn lemma_vector_with_gaps(items: Seq<Value>, gaps: Seq<Seq<char>>)
    requires
        all_readable(items, 0),
        gaps_fit(items, gaps),
    ensures
        read(seq!['['] + spaced(items, gaps, 0) + seq![']']) == Ok::<Value, (ErrorKind, int)>(
            Value::Vector(items),
        ),
{
    let inner = spaced(items, gaps, 0);
    let s = seq!['['] + inner + seq![']'];
    assert(s =~= seq!['['] + (inner + seq![']']));
    lemma_occurs_self(s, Seq::empty());
    lemma_occurs_concat(s, 0, seq!['['], inner + seq![']']);
    lemma_reread_spaced(s, 1, items, gaps, 0, ']', 0);
    assert(s[0] == '[');
    assert(items.subrange(0, items.len() as int) =~= items);
    assert(blank_end(s, s.len() as int, false) == s.len());
}

/// The delimiters of the collections: of a list, a vector, a set and a map.
pub open spec fn delimits(open: Seq<char>, close: char) -> bool {
    ||| open == seq!['('] && close == ')'
    ||| open == seq!['['] && close == ']'
    ||| open == seq!['#', '{'] && close == '}'
    ||| open == seq!['{'] && close == '}'
}

/// What a collection with the given opening and elements is read as.
pub open spec fn collection_of(open: Seq<char>, values: Seq<Value>) -> Result<
    Value,
    (ErrorKind, int),
> {
    if open == seq!['('] {
        Ok(Value::List(values))
    } else if open == seq!['['] {
        Ok(Value::Vector(values))
    } else if open == seq!['#', '{'] {
        Ok(Value::SortedSet(set_of(values)))
    } else if values.len() % 2 == 1 {
        Err((ErrorKind::OddMapElements, 0))
    } else {
        Ok(Value::SortedMap(map_of(pairs_of(values))))
    }
}

/// A text that is one collection is read as the collection of its elements.
proof fn lemma_collection_read(s: Seq<char>, open: Seq<char>, close: char, values: Seq<Value>)
    requires
        delimits(open, close),
        occurs(s, 0, open),
        elements_at(s, open.len() as int, close, 0) == Ok::<(Seq<Value>, int), (ErrorKind, int)>(
            (values, s.len() as int),
        ),
    ensures
        read(s) == collection_of(open, values),
{
    assert(s[0int + 0] == open[0]);
    assert(blank_end(s, s.len() as int, false) == s.len());
    assert(blank_end(s, 0, false) == 0);
    if open == seq!['#', '{'] {
        assert(s[0int + 1] == open[1]);
        assert(open.len() == 2);
        assert(value_at(s, 0) == Ok::<(Value, int), (ErrorKind, int)>(
            (Value::SortedSet(set_of(values)), s.len() as int),
        ));
    } else {
        assert(open.len() == 1);
        if open == seq!['('] {
            assert(s[0] == '(');
            assert(value_at(s, 0) == Ok::<(Value, int), (ErrorKind, int)>(
                (Value::List(values), s.len() as int),
            ));
        } else if open == seq!['['] {
            assert(s[0] == '[');
            assert(open[0] != '(');
            assert(value_at(s, 0) == Ok::<(Value, int), (ErrorKind, int)>(
                (Value::Vector(values), s.len() as int),
            ));
        } else {
            assert(open == seq!['{']);
            assert(s[0] == '{');
        }
    }
}

/// The elements of a composed text are the values its spellings are read as.
proof fn lemma_composed_elements(
    open: Seq<char>,
    close: char,
    spellings: Seq<Seq<char>>,
    values: Seq<Value>,
    gaps: Seq<Seq<char>>,
    others: Seq<Seq<char>>,
)
    requires
        delimits(open, close),
        values.len() == spellings.len(),
        gaps_match(spellings.len(), gaps, others),
        read_as(
            open + composed(spellings, gaps, 0) + seq![close],
            open.len() as int,
            spellings,
            gaps,
            values,
            0,
        ),
    ensures
        occurs(open + composed(spellings, others, 0) + seq![close], 0, open),
        elements_at(
            open + composed(spellings, others, 0) + seq![close],
            open.len() as int,
            close,
            0,
        ) == Ok::<(Seq<Value>, int), (ErrorKind, int)>(
            (values, (open + composed(spellings, others, 0) + seq![close]).len() as int),
        ),
{
    let a = open + composed(spellings, gaps, 0) + seq![close];
    let b = open + composed(spellings, others, 0) + seq![close];
    let start = open.len() as int;
    assert(a =~= open + (composed(spellings, gaps, 0) + seq![close]));
    assert(b =~= open + (composed(spellings, others, 0) + seq![close]));
    lemma_occurs_self(a, Seq::empty());
    lemma_occurs_self(b, Seq::empty());
    lemma_occurs_concat(a, 0, open, composed(spellings, gaps, 0) + seq![close]);
    lemma_occurs_concat(b, 0, open, composed(spellings, others, 0) + seq![close]);
    lemma_respaced(a, start, b, start, spellings, gaps, others, values, 0, close, 0);
    assert(values.subrange(0, values.len() as int) =~= values);
}

/// The separators of a text leave no trace. Take the text of a collection
/// whose elements are spelled in any way, and put other separators in front
/// of, between and behind the elements, none where none was between two
/// elements: the text then denotes the same value, and so prints alike.
pub proof fn law_separators_leave_no_trace(
    open: Seq<char>,
    close: char,
    spellings: Seq<Seq<char>>,
    values: Seq<Value>,
    gaps: Seq<Seq<char>>,
    others: Seq<Seq<char>>,
)
    requires
        delimits(open, close),
        values.len() == spellings.len(),
        gaps_match(spellings.len(), gaps, others),
        read_as(
            open + composed(spellings, gaps, 0) + seq![close],
            open.len() as int,
            spellings,
            gaps,
            values,
            0,
        ),
    ensures
        read(open + composed(spellings, gaps, 0) + seq![close]) == collection_of(open, values),
        read(open + composed(spellings, others, 0) + seq![close]) == collection_of(open, values),
{
    let a = open + composed(spellings, gaps, 0) + seq![close];
    let b = open + composed(spellings, others, 0) + seq![close];
    lemma_gaps_match_self(spellings.len(), gaps, others);
    lemma_composed_elements(open, close, spellings, values, gaps, gaps);
    lemma_composed_elements(open, close, spellings, values, gaps, others);
    lemma_collection_read(a, open, close, values);
    lemma_collection_read(b, open, close, values);
}

/// Gaps match themselves.
proof fn lemma_gaps_match_self(count: nat, gaps: Seq<Seq<char>>, others: Seq<Seq<char>>)
    requires
        gaps_match(count, gaps, others),
    ensures
        gaps_match(count, gaps, gaps),
{
}

} // verus!
