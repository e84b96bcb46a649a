//! Two texts of one collection that differ in their separators alone denote
//! the same elements.

use crate::ast::Value;
use crate::error::ErrorKind;
use crate::grammar::{elements_at, value_at};
use crate::local::{agree, alike, lemma_value_local};
use crate::occurs::{lemma_occurs_concat, lemma_occurs_one, occurs};
use crate::outcome::lemma_value_extent;
use crate::roundtrip::all_separators;
use crate::text::is_separator;
use vstd::prelude::*;

verus! {

/// The spellings from index `i` on, each behind its gap, and the last gap
/// behind them.
pub open spec fn composed(spellings: Seq<Seq<char>>, gaps: Seq<Seq<char>>, i: int) -> Seq<char>
    decreases spellings.len() - i,
{
    if i < 0 || i > spellings.len() || gaps.len() != spellings.len() + 1 {
        Seq::empty()
    } else if i == spellings.len() {
        gaps[i]
    } else {
        gaps[i] + spellings[i] + composed(spellings, gaps, i + 1)
    }
}

/// Whether, from `pos` on, each spelling from index `i` on is read where it
/// stands in `s`, whole, as the value of its index.
pub open spec fn read_as(
    s: Seq<char>,
    pos: int,
    spellings: Seq<Seq<char>>,
    gaps: Seq<Seq<char>>,
    values: Seq<Value>,
    i: int,
) -> bool
    decreases spellings.len() - i,
{
    if i < 0 || i >= spellings.len() || gaps.len() != spellings.len() + 1 || values.len()
        != spellings.len() {
        true
    } else {
        let at = pos + gaps[i].len();
        let next = at + spellings[i].len();
        &&& value_at(s, at) == Ok::<(Value, int), (ErrorKind, int)>((values[i], next))
        &&& read_as(s, next, spellings, gaps, values, i + 1)
    }
}

/// Whether two families of gaps can stand around the same `count` spellings:
/// each gap is made of separators, and between two spellings one is empty
/// exactly where the other is.
pub open spec fn gaps_match(count: nat, gaps: Seq<Seq<char>>, others: Seq<Seq<char>>) -> bool {
    &&& gaps.len() == count + 1
    &&& others.len() == count + 1
    &&& forall|j: int| 0 <= j <= count ==> all_separators(#[trigger] gaps[j])
    &&& forall|j: int| 0 <= j <= count ==> all_separators(#[trigger] others[j])
    &&& forall|j: int|
        0 < j < count ==> ((#[trigger] gaps[j]).len() == 0) == ((#[trigger] others[j]).len() == 0)
}

/// Separators in front of an element or of the closing delimiter are skipped.
proof fn lemma_skip(s: Seq<char>, pos: int, gap: Seq<char>, close: char, opened: int)
    requires
        occurs(s, pos, gap),
        all_separators(gap),
    ensures
        elements_at(s, pos, close, opened) == elements_at(s, pos + gap.len(), close, opened),
    decreases gap.len(),
{
    if gap.len() > 0 {
        assert(s[pos + 0] == gap[0]);
        let rest = gap.drop_first();
        assert forall|i: int| 0 <= i < rest.len() implies s[pos + 1 + i] == #[trigger] rest[i] by {
            assert(rest[i] == gap[i + 1]);
            assert(s[pos + (i + 1)] == gap[i + 1]);
        }
        assert forall|i: int| 0 <= i < rest.len() implies is_separator(#[trigger] rest[i]) by {
            assert(rest[i] == gap[i + 1]);
        }
        lemma_skip(s, pos + 1, rest, close, opened);
    }
}

/// What follows a spelling in a composed text: the first character of the
/// gap behind it, else of the next spelling, else the closing delimiter.
proof fn lemma_follower(
    s: Seq<char>,
    next: int,
    spellings: Seq<Seq<char>>,
    gaps: Seq<Seq<char>>,
    i: int,
    close: char,
)
    requires
        0 <= i < spellings.len(),
        gaps.len() == spellings.len() + 1,
        occurs(s, next, composed(spellings, gaps, i + 1) + seq![close]),
        i + 1 < spellings.len() ==> spellings[i + 1].len() >= 1,
    ensures
        next < s.len(),
        gaps[i + 1].len() > 0 ==> s[next] == gaps[i + 1][0],
        gaps[i + 1].len() == 0 && i + 1 < spellings.len() ==> s[next] == spellings[i + 1][0],
        gaps[i + 1].len() == 0 && i + 1 == spellings.len() ==> s[next] == close,
{
    let following = composed(spellings, gaps, i + 1) + seq![close];
    assert(s[next + 0] == following[0]);
    if gaps[i + 1].len() > 0 {
        assert(following[0] == gaps[i + 1][0]);
    } else if i + 1 < spellings.len() {
        assert(following[0] == spellings[i + 1][0]);
    } else {
        assert(following =~= seq![close]);
    }
}

/// The spellings read in one text are read as the same values in another
/// text that has other separators around them.
pub proof fn lemma_respaced(
    s: Seq<char>,
    p: int,
    t: Seq<char>,
    q: int,
    spellings: Seq<Seq<char>>,
    gaps: Seq<Seq<char>>,
    others: Seq<Seq<char>>,
    values: Seq<Value>,
    i: int,
    close: char,
    opened: int,
)
    requires
        0 <= i <= spellings.len(),
        values.len() == spellings.len(),
        gaps_match(spellings.len(), gaps, others),
        close == ')' || close == ']' || close == '}',
        occurs(s, p, composed(spellings, gaps, i) + seq![close]),
        occurs(t, q, composed(spellings, others, i) + seq![close]),
        read_as(s, p, spellings, gaps, values, i),
    ensures
        elements_at(t, q, close, opened) == Ok::<(Seq<Value>, int), (ErrorKind, int)>(
            (
                values.subrange(i, values.len() as int),
                q + composed(spellings, others, i).len() + 1,
            ),
        ),
    decreases spellings.len() - i,
{
    let gap = others[i];
    let rest = values.subrange(i, values.len() as int);
    let at = q + gap.len();
    assert(all_separators(gap));
    assert(all_separators(gaps[i]));
    if i == spellings.len() {
        lemma_occurs_concat(t, q, gap, seq![close]);
        lemma_skip(t, q, gap, close, opened);
        lemma_occurs_one(t, at, close);
        assert(rest =~= Seq::<Value>::empty());
    } else {
        let e = spellings[i];
        let m = e.len() as int;
        let from = p + gaps[i].len();
        // where the spelling stands in the two texts
        let more_s = composed(spellings, gaps, i + 1) + seq![close];
        let more_t = composed(spellings, others, i + 1) + seq![close];
        assert(composed(spellings, gaps, i) + seq![close] =~= gaps[i] + (e + more_s));
        assert(composed(spellings, others, i) + seq![close] =~= gap + (e + more_t));
        lemma_occurs_concat(s, p, gaps[i], e + more_s);
        lemma_occurs_concat(s, from, e, more_s);
        lemma_occurs_concat(t, q, gap, e + more_t);
        lemma_occurs_concat(t, at, e, more_t);
        lemma_skip(t, q, gap, close, opened);
        // the spelling is read in `s`, so it is not empty and begins a value
        lemma_value_extent(s, from);
        assert(m >= 1);
        assert(s[from + 0] == e[0]);
        assert(t[at + 0] == e[0]);
        assert forall|j: int| 0 <= j < m implies #[trigger] s[from + j] == t[at + j] by {
            assert(s[from + j] == e[j]);
            assert(t[at + j] == e[j]);
        }
        assert(agree(s, from, t, at, m));
        // what follows it is alike in the two texts
        assert(read_as(s, from + m, spellings, gaps, values, i + 1));
        if i + 1 < spellings.len() {
            let after = from + m + gaps[i + 1].len();
            assert(value_at(s, after) == Ok::<(Value, int), (ErrorKind, int)>(
                (values[i + 1], after + spellings[i + 1].len()),
            ));
            lemma_value_extent(s, after);
        }
        lemma_follower(s, from + m, spellings, gaps, i, close);
        lemma_follower(t, at + m, spellings, others, i, close);
        assert(all_separators(gaps[i + 1]));
        assert(all_separators(others[i + 1]));
        if gaps[i + 1].len() > 0 {
            assert(is_separator(gaps[i + 1][0]));
        }
        if others[i + 1].len() > 0 {
            assert(is_separator(others[i + 1][0]));
        }
        assert(alike(s, from + m, t, at + m));
        lemma_value_local(s, from, t, at, m);
        lemma_respaced(s, from + m, t, at + m, spellings, gaps, others, values, i + 1, close, opened);
        assert(seq![values[i]] + values.subrange(i + 1, values.len() as int) =~= rest);
    }
}

} // verus!
