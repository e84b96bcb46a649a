//! The reader: from a text to the value it denotes.

use crate::ast::{entry_views, lemma_entry_views, lemma_views, views, Expr, Value};
use crate::collection::{collect_map, collect_set, pairs_of};
use crate::error::{ErrorKind, ParseError};
use crate::grammar::{elements_at, read, value_at};
use crate::scalar::{read_scalar, scan_blank, value_agrees};
use crate::text::{chars_of, separator};
use vstd::prelude::*;

verus! {

/// The elements read so far, in front of what is still to read.
pub open spec fn after(
    front: Seq<Value>,
    rest: Result<(Seq<Value>, int), (ErrorKind, int)>,
) -> Result<(Seq<Value>, int), (ErrorKind, int)> {
    match rest {
        Ok((items, end)) => Ok((front + items, end)),
        Err(e) => Err(e),
    }
}

/// Whether the elements that were read are what the grammar gives.
pub open spec fn elements_agree(
    s: Seq<char>,
    got: Result<(Vec<Expr>, usize), ParseError>,
    expected: Result<(Seq<Value>, int), (ErrorKind, int)>,
) -> bool {
    match (got, expected) {
        (Ok((items, end)), Ok((values, q))) => views(items@) == values && end == q,
        (Err(error), Err((kind, at))) => error.is_at(s, kind, at),
        _ => false,
    }
}

/// The elements two by two, as keys and values.
fn pair_up(items: Vec<Expr>) -> (pairs: Vec<(Expr, Expr)>)
    requires
        items.len() % 2 == 0,
    ensures
        entry_views(pairs@) == pairs_of(views(items@)),
{
    let ghost all = views(items@);
    let mut pairs: Vec<(Expr, Expr)> = Vec::new();
    let mut key: Option<Expr> = None;
    proof {
        lemma_views(items@);
    }
    for e in it: items
        invariant
            all == views(it.seq()),
            all.len() == it.seq().len(),
            forall|j: int| 0 <= j < it.seq().len() ==> (#[trigger] all[j]) == it.seq()[j]@,
            pairs.len() == it.index@ / 2,
            forall|j: int|
                0 <= j < pairs.len() ==> (#[trigger] pairs@[j]).0@ == all[2 * j] && pairs@[j].1@
                    == all[2 * j + 1],
            key is Some <==> it.index@ % 2 == 1,
            key matches Some(k) ==> k@ == all[it.index@ - 1],
    {
        match key {
            Some(k) => {
                pairs.push((k, e));
                key = None;
            },
            None => {
                key = Some(e);
            },
        }
    }
    proof {
        lemma_entry_views(pairs@);
        assert(entry_views(pairs@) =~= pairs_of(all));
    }
    pairs
}

/// Reads the value that begins at `pos`.
pub fn read_value(chars: &Vec<char>, pos: usize) -> (r: Result<(Expr, usize), ParseError>)
    requires
        pos < chars.len(),
    ensures
        value_agrees(chars@, r, value_at(chars@, pos as int)),
        r matches Ok((_, end)) ==> pos < end <= chars.len(),
    decreases chars.len() - pos, 0int,
{
    let c = chars[pos];
    if c == '(' {
        match read_elements(chars, pos + 1, ')', pos) {
            Ok((items, end)) => Ok((Expr::List(items), end)),
            Err(e) => Err(e),
        }
    } else if c == '[' {
        match read_elements(chars, pos + 1, ']', pos) {
            Ok((items, end)) => Ok((Expr::Vector(items), end)),
            Err(e) => Err(e),
        }
    } else if c == '{' {
        match read_elements(chars, pos + 1, '}', pos) {
            Ok((items, end)) => {
                proof {
                    lemma_views(items@);
                }
                if items.len() % 2 == 1 {
                    Err(ParseError::locate(chars, ErrorKind::OddMapElements, pos))
                } else {
                    let entries = collect_map(pair_up(items));
                    Ok((Expr::SortedMap(entries), end))
                }
            },
            Err(e) => Err(e),
        }
    } else if c == '#' {
        if chars.len() - pos > 1 && chars[pos + 1] == '{' {
            match read_elements(chars, pos + 2, '}', pos) {
                Ok((items, end)) => Ok((Expr::SortedSet(collect_set(items)), end)),
                Err(e) => Err(e),
            }
        } else {
            Err(ParseError::locate(chars, ErrorKind::UnrecognizedCharacter, pos))
        }
    } else {
        read_scalar(chars, pos)
    }
}

/// Reads the elements from `pos` up to the delimiter `close`; `opened` is
/// where the collection began.
pub fn read_elements(chars: &Vec<char>, pos: usize, close: char, opened: usize) -> (r: Result<
    (Vec<Expr>, usize),
    ParseError,
>)
    requires
        pos <= chars.len(),
        opened < pos,
    ensures
        elements_agree(chars@, r, elements_at(chars@, pos as int, close, opened as int)),
        r matches Ok((_, end)) ==> pos < end <= chars.len(),
    decreases chars.len() - pos, 1int,
{
    let ghost s = chars@;
    let n = chars.len();
    let mut items: Vec<Expr> = Vec::new();
    let mut i = pos;
    proof {
        lemma_views(items@);
        match elements_at(s, pos as int, close, opened as int) {
            Ok((rest, end)) => {
                assert(views(items@) + rest =~= rest);
            },
            Err(e) => {},
        }
    }
    while i < n && (separator(chars[i]) || chars[i] != close)
        invariant
            pos <= i <= n,
            n == chars.len(),
            s == chars@,
            opened < pos,
            elements_at(s, pos as int, close, opened as int) == after(
                views(items@),
                elements_at(s, i as int, close, opened as int),
            ),
        decreases n - i,
    {
        if separator(chars[i]) {
            i += 1;
        } else {
            let ghost before = views(items@);
            let ghost held = items@;
            match read_value(chars, i) {
                Ok((e, next)) => {
                    items.push(e);
                    proof {
                        lemma_views(items@);
                        lemma_views(held);
                        assert(views(items@) =~= before.push(e@));
                        match elements_at(s, next as int, close, opened as int) {
                            Ok((rest, end)) => {
                                assert(before + (seq![e@] + rest) =~= views(items@) + rest);
                            },
                            Err(e) => {},
                        }
                    }
                    i = next;
                },
                Err(error) => {
                    return Err(error);
                },
            }
        }
    }
    if i >= n {
        return Err(ParseError::locate(chars, ErrorKind::UnterminatedCollection, opened));
    }
    proof {
        assert(views(items@) + Seq::<Value>::empty() =~= views(items@));
    }
    Ok((items, i + 1))
}

/// Whether a semicolon stands in the text.
fn holds_comment(chars: &Vec<char>) -> (r: bool)
    ensures
        r == chars@.contains(';'),
{
    let mut i: usize = 0;
    while i < chars.len()
        invariant
            i <= chars.len(),
            forall|j: int| 0 <= j < i ==> chars@[j] != ';',
        decreases chars.len() - i,
    {
        if chars[i] == ';' {
            return true;
        }
        i += 1;
    }
    false
}

/// Whether the outcome of reading is what the grammar gives for the text.
pub open spec fn agrees(
    s: Seq<char>,
    got: Result<Expr, ParseError>,
    expected: Result<Value, (ErrorKind, int)>,
) -> bool {
    match (got, expected) {
        (Ok(e), Ok(v)) => e@ == v,
        (Err(error), Err((kind, at))) => error.is_at(s, kind, at),
        _ => false,
    }
}

/// Reads the value that a text denotes.
pub fn parse(text: &str) -> (r: Result<Expr, ParseError>)
    ensures
        agrees(text@, r, read(text@)),
{
    let chars = chars_of(text);
    let n = chars.len();
    let start = scan_blank(&chars, 0);
    if start >= n {
        if holds_comment(&chars) {
            Ok(Expr::Comment)
        } else {
            Err(ParseError::locate(&chars, ErrorKind::EmptyInput, n))
        }
    } else {
        match read_value(&chars, start) {
            Ok((e, end)) => {
                let rest = scan_blank(&chars, end);
                if rest >= n {
                    Ok(e)
                } else {
                    Err(ParseError::locate(&chars, ErrorKind::TrailingInput, rest))
                }
            },
            Err(error) => Err(error),
        }
    }
}

/// A reader. It holds no state: each call of `parse` stands alone.
#[derive(Clone, Copy, Debug, Default)]
pub struct ExprParser {}

impl ExprParser {
    pub fn new() -> (r: ExprParser) {
        ExprParser {  }
    }

    /// Reads the value that a text denotes.
    pub fn parse(&self, text: &str) -> (r: Result<Expr, ParseError>)
        ensures
            agrees(text@, r, read(text@)),
    {
        parse(text)
    }
}

} // verus!
