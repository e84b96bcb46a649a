//! A text within a text, and how the scanners of the grammar run over it.

use crate::grammar::{digits_end, first_slash, token_end};
use crate::text::{is_constituent, is_digit};
use vstd::prelude::*;

verus! {

/// Whether the text `t` stands in `s` from position `pos` on.
pub open spec fn occurs(s: Seq<char>, pos: int, t: Seq<char>) -> bool {
    &&& 0 <= pos
    &&& pos + t.len() <= s.len()
    &&& forall|i: int| 0 <= i < t.len() ==> s[pos + i] == #[trigger] t[i]
}

/// Whether a token that ends in front of `pos` ends there: the text ends, or
/// a character follows that belongs to no token.
pub open spec fn token_stops(s: Seq<char>, pos: int) -> bool {
    pos >= s.len() || !is_constituent(s[pos])
}

pub open spec fn all_constituent(t: Seq<char>) -> bool {
    forall|i: int| 0 <= i < t.len() ==> is_constituent(#[trigger] t[i])
}

/// A text made of two stands where the first stands and the second behind it.
pub proof fn lemma_occurs_concat(s: Seq<char>, pos: int, a: Seq<char>, b: Seq<char>)
    ensures
        occurs(s, pos, a + b) <==> occurs(s, pos, a) && occurs(s, pos + a.len(), b),
{
    let t = a + b;
    if occurs(s, pos, t) {
        assert forall|i: int| 0 <= i < a.len() implies s[pos + i] == #[trigger] a[i] by {
            assert(t[i] == a[i]);
        }
        assert forall|i: int| 0 <= i < b.len() implies s[pos + a.len() + i] == #[trigger] b[i] by {
            assert(t[a.len() + i] == b[i]);
        }
    }
    if occurs(s, pos, a) && occurs(s, pos + a.len(), b) {
        assert forall|i: int| 0 <= i < t.len() implies s[pos + i] == #[trigger] t[i] by {
            if i < a.len() {
                assert(t[i] == a[i]);
            } else {
                assert(t[i] == b[i - a.len()]);
            }
        }
    }
}

/// A text stands at the beginning of itself, and of any text it begins.
pub proof fn lemma_occurs_self(t: Seq<char>, rest: Seq<char>)
    ensures
        occurs(t + rest, 0, t),
        occurs(t, 0, t),
{
    assert forall|i: int| 0 <= i < t.len() implies (t + rest)[0 + i] == #[trigger] t[i] by {}
}

/// One character stands where it stands.
pub proof fn lemma_occurs_one(s: Seq<char>, pos: int, c: char)
    ensures
        occurs(s, pos, seq![c]) <==> 0 <= pos < s.len() && s[pos] == c,
{
    if occurs(s, pos, seq![c]) {
        assert(seq![c][0] == c);
        assert(s[pos + 0] == seq![c][0]);
    }
}

/// Over constituent characters up to a place where a token stops, `token_end`
/// runs to that place.
pub proof fn lemma_token_run(s: Seq<char>, pos: int, t: Seq<char>)
    requires
        occurs(s, pos, t),
        all_constituent(t),
        token_stops(s, pos + t.len()),
    ensures
        token_end(s, pos) == pos + t.len(),
    decreases t.len(),
{
    if t.len() == 0 {
    } else {
        assert(s[pos + 0] == t[0]);
        let rest = t.drop_first();
        assert forall|i: int| 0 <= i < rest.len() implies s[pos + 1 + i] == #[trigger] rest[i] by {
            assert(rest[i] == t[i + 1]);
            assert(s[pos + (i + 1)] == t[i + 1]);
        }
        assert forall|i: int| 0 <= i < rest.len() implies is_constituent(#[trigger] rest[i]) by {
            assert(rest[i] == t[i + 1]);
        }
        lemma_token_run(s, pos + 1, rest);
    }
}

/// Over digits up to a place that holds none, `digits_end` runs to that place.
pub proof fn lemma_digits_run(s: Seq<char>, pos: int, t: Seq<char>)
    requires
        occurs(s, pos, t),
        forall|i: int| 0 <= i < t.len() ==> is_digit(#[trigger] t[i]),
        pos + t.len() >= s.len() || !is_digit(s[pos + t.len()]),
    ensures
        digits_end(s, pos) == pos + t.len(),
    decreases t.len(),
{
    if t.len() == 0 {
    } else {
        assert(s[pos + 0] == t[0]);
        let rest = t.drop_first();
        assert forall|i: int| 0 <= i < rest.len() implies s[pos + 1 + i] == #[trigger] rest[i] by {
            assert(rest[i] == t[i + 1]);
            assert(s[pos + (i + 1)] == t[i + 1]);
        }
        assert forall|i: int| 0 <= i < rest.len() implies is_digit(#[trigger] rest[i]) by {
            assert(rest[i] == t[i + 1]);
        }
        lemma_digits_run(s, pos + 1, rest);
    }
}

/// Where a text stands, the characters from there on are that text.
pub proof fn lemma_occurs_subrange(s: Seq<char>, pos: int, t: Seq<char>)
    requires
        occurs(s, pos, t),
    ensures
        s.subrange(pos, pos + t.len()) == t,
{
    assert forall|i: int| 0 <= i < t.len() implies s.subrange(pos, pos + t.len())[i] == t[i] by {
        assert(s[pos + i] == t[i]);
    }
    assert(s.subrange(pos, pos + t.len()) =~= t);
}

/// In a text without a slash, `first_slash` runs to the end.
pub proof fn lemma_no_slash(t: Seq<char>, i: int)
    requires
        0 <= i <= t.len(),
        forall|j: int| i <= j < t.len() ==> #[trigger] t[j] != '/',
    ensures
        first_slash(t, i) == t.len(),
    decreases t.len() - i,
{
    if i < t.len() {
        lemma_no_slash(t, i + 1);
    }
}

/// Where `first_slash` runs to the end from `i`, no slash stands from `i` on.
pub proof fn lemma_first_slash_end(t: Seq<char>, i: int)
    requires
        0 <= i <= t.len(),
        first_slash(t, i) == t.len(),
    ensures
        forall|j: int| i <= j < t.len() ==> #[trigger] t[j] != '/',
    decreases t.len() - i,
{
    if i < t.len() {
        if t[i] != '/' {
            lemma_first_slash_end(t, i + 1);
        }
    }
}

/// `first_slash` lands on a slash or at the end, with no slash in front.
pub proof fn lemma_first_slash(t: Seq<char>, i: int)
    requires
        0 <= i <= t.len(),
    ensures
        i <= first_slash(t, i) <= t.len(),
        first_slash(t, i) < t.len() ==> t[first_slash(t, i)] == '/',
        forall|j: int| i <= j < first_slash(t, i) ==> #[trigger] t[j] != '/',
    decreases t.len() - i,
{
    if i < t.len() && t[i] != '/' {
        lemma_first_slash(t, i + 1);
    }
}

/// In front of a slash that follows a text without one, `first_slash` stops
/// at that slash.
pub proof fn lemma_slash_after(a: Seq<char>, b: Seq<char>, i: int)
    requires
        0 <= i <= a.len(),
        forall|j: int| i <= j < a.len() ==> #[trigger] a[j] != '/',
    ensures
        first_slash(a + seq!['/'] + b, i) == a.len(),
    decreases a.len() - i,
{
    let t = a + seq!['/'] + b;
    if i < a.len() {
        assert(t[i] == a[i]);
        lemma_slash_after(a, b, i + 1);
    } else {
        assert(t[i] == '/');
    }
}

} // verus!
