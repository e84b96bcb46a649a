//! Telling whether a value is readable: whether a tree that was built by hand
//! would be read again from its text.

use crate::ast::{
    entry_views, lemma_entry_views, lemma_views, optional_text, views, Expr, Value,
};
use crate::canonical::{lemma_order_transitive, value_order};
use crate::number::Float;
use crate::collection::{is_increasing, keys_of};
use crate::grammar::{first_slash, name_nil};
use crate::occurs::{lemma_first_slash_end, lemma_no_slash};
use crate::order::Order;
use crate::printer::identifier_text;
use crate::readable::{
    all_entries_readable, all_readable, is_name, is_part, is_readable, is_symbol_name,
};
use crate::text::{chars_of, constituent, digit, is_constituent, sign};
use vstd::prelude::*;

verus! {

/// Whether a text is a part of a symbol or keyword.
fn part(t: &str) -> (r: bool)
    ensures
        r == is_part(t@),
{
    let c = chars_of(t);
    if c.len() == 0 {
        return false;
    }
    if digit(c[0]) {
        return false;
    }
    let mut i: usize = 0;
    while i < c.len()
        invariant
            i <= c.len(),
            c@ == t@,
            forall|j: int| 0 <= j < i ==> is_constituent(#[trigger] c@[j]) && c@[j] != '/',
        decreases c.len() - i,
    {
        if !constituent(c[i]) {
            return false;
        }
        if c[i] == '/' {
            proof {
                if first_slash(c@, 0) == c@.len() {
                    lemma_first_slash_end(c@, 0);
                    assert(c@[i as int] != '/');
                }
            }
            return false;
        }
        i += 1;
    }
    proof {
        lemma_no_slash(c@, 0);
    }
    true
}

/// Whether a text is the slash alone.
fn is_slash(t: &str) -> (r: bool)
    ensures
        r == (t@ == seq!['/']),
{
    let c = chars_of(t);
    if c.len() == 1 && c[0] == '/' {
        assert(c@ =~= seq!['/']);
        true
    } else {
        proof {
            if c@ == seq!['/'] {
                assert(seq!['/'].len() == 1);
                assert(seq!['/'][0] == '/');
            }
        }
        false
    }
}

/// Whether a namespace and a name are those of a keyword.
fn name_fits(namespace: &Option<String>, name: &String) -> (r: bool)
    ensures
        r == is_name(optional_text(*namespace), name@),
{
    match namespace {
        Some(n) => part(n.as_str()) && part(name.as_str()),
        None => is_slash(name.as_str()) || part(name.as_str()),
    }
}

/// Whether a namespace and a name are those of a symbol.
fn symbol_fits(namespace: &Option<String>, name: &String) -> (r: bool)
    ensures
        r == is_symbol_name(optional_text(*namespace), name@),
{
    if !name_fits(namespace, name) {
        return false;
    }
    let ghost text = identifier_text(optional_text(*namespace), name@);
    let c = chars_of(name.as_str());
    match namespace {
        Some(n) => {
            let front = chars_of(n.as_str());
            assert(text =~= n@ + seq!['/'] + name@);
            assert(text[0] == n@[0]);
            if sign(front[0]) && front.len() >= 2 && digit(front[1]) {
                assert(text[1] == n@[1]);
                return false;
            }
            proof {
                if front.len() >= 2 {
                    assert(text[1] == n@[1]);
                } else {
                    assert(text[1] == '/');
                }
            }
            true
        },
        None => {
            if sign(c[0]) && c.len() >= 2 && digit(c[1]) {
                return false;
            }
            if c.len() == 3 && c[0] == 'n' && c[1] == 'i' && c[2] == 'l' {
                assert(c@ =~= name_nil());
                return false;
            }
            proof {
                if name@ == name_nil() {
                    assert(name_nil().len() == 3);
                    assert(name_nil()[0] == 'n' && name_nil()[1] == 'i' && name_nil()[2] == 'l');
                }
            }
            true
        },
    }
}

/// Where each value comes before the next, each comes before every later one.
proof fn lemma_chain(s: Seq<Value>, i: int, j: int)
    requires
        forall|k: int| 0 <= k < s.len() - 1 ==> #[trigger] value_order(s[k], s[k + 1]) == Order::Less,
        0 <= i < j < s.len(),
    ensures
        value_order(s[i], s[j]) == Order::Less,
    decreases j - i,
{
    if j > i + 1 {
        lemma_chain(s, i, j - 1);
        assert(value_order(s[j - 1], s[j - 1 + 1]) == Order::Less);
        lemma_order_transitive(s[i], s[j - 1], s[j]);
    } else {
        assert(value_order(s[i], s[i + 1]) == Order::Less);
    }
}

/// Whether each value comes before every later one.
fn increasing(items: &Vec<Expr>) -> (r: bool)
    ensures
        r == is_increasing(views(items@)),
{
    let ghost all = views(items@);
    proof {
        lemma_views(items@);
    }
    let mut i: usize = 1;
    while i < items.len()
        invariant
            1 <= i,
            all == views(items@),
            all.len() == items@.len(),
            forall|j: int| 0 <= j < items@.len() ==> (#[trigger] all[j]) == items@[j]@,
            forall|k: int| 0 <= k < i - 1 ==> #[trigger] value_order(all[k], all[k + 1]) == Order::Less,
        decreases items.len() - i,
    {
        if !items[i - 1].compare(&items[i]).is_less() {
            proof {
                if is_increasing(all) {
                    assert(value_order(all[i - 1], all[i as int]) == Order::Less);
                }
            }
            return false;
        }
        i += 1;
    }
    proof {
        assert forall|a: int, b: int| 0 <= a < b < all.len() implies #[trigger] value_order(
            all[a],
            all[b],
        ) == Order::Less by {
            lemma_chain(all, a, b);
        }
    }
    true
}

/// Whether each key comes before every later one.
fn keys_increasing(entries: &Vec<(Expr, Expr)>) -> (r: bool)
    ensures
        r == is_increasing(keys_of(entry_views(entries@))),
{
    let ghost keys = keys_of(entry_views(entries@));
    proof {
        lemma_entry_views(entries@);
    }
    let mut i: usize = 1;
    while i < entries.len()
        invariant
            1 <= i,
            keys == keys_of(entry_views(entries@)),
            keys.len() == entries@.len(),
            forall|j: int| 0 <= j < entries@.len() ==> (#[trigger] keys[j]) == entries@[j].0@,
            forall|k: int|
                0 <= k < i - 1 ==> #[trigger] value_order(keys[k], keys[k + 1]) == Order::Less,
        decreases entries.len() - i,
    {
        if !entries[i - 1].0.compare(&entries[i].0).is_less() {
            proof {
                if is_increasing(keys) {
                    assert(value_order(keys[i - 1], keys[i as int]) == Order::Less);
                }
            }
            return false;
        }
        i += 1;
    }
    proof {
        assert forall|a: int, b: int| 0 <= a < b < keys.len() implies #[trigger] value_order(
            keys[a],
            keys[b],
        ) == Order::Less by {
            lemma_chain(keys, a, b);
        }
    }
    true
}

/// Whether all the values are readable.
fn all_are_readable(items: &Vec<Expr>) -> (r: bool)
    ensures
        r == all_readable(views(items@), 0),
    decreases items,
{
    let ghost all = views(items@);
    proof {
        lemma_views(items@);
    }
    let mut i: usize = 0;
    while i < items.len()
        invariant
            i <= items.len(),
            all == views(items@),
            all.len() == items@.len(),
            forall|j: int| 0 <= j < items@.len() ==> (#[trigger] all[j]) == items@[j]@,
            all_readable(all, 0) == all_readable(all, i as int),
        decreases items.len() - i,
    {
        proof {
            vstd::std_specs::vec::axiom_vec_index_decreases(*items, i as int);
        }
        if !items[i].is_readable() {
            return false;
        }
        i += 1;
    }
    true
}

/// Whether all the keys and values are readable.
fn all_entries_are_readable(entries: &Vec<(Expr, Expr)>) -> (r: bool)
    ensures
        r == all_entries_readable(entry_views(entries@), 0),
    decreases entries,
{
    let ghost all = entry_views(entries@);
    proof {
        lemma_entry_views(entries@);
    }
    let mut i: usize = 0;
    while i < entries.len()
        invariant
            i <= entries.len(),
            all == entry_views(entries@),
            all.len() == entries@.len(),
            forall|j: int|
                0 <= j < entries@.len() ==> (#[trigger] all[j]) == (
                    entries@[j].0@,
                    entries@[j].1@,
                ),
            all_entries_readable(all, 0) == all_entries_readable(all, i as int),
        decreases entries.len() - i,
    {
        proof {
            vstd::std_specs::vec::axiom_vec_index_decreases(*entries, i as int);
        }
        if !entries[i].0.is_readable() || !entries[i].1.is_readable() {
            return false;
        }
        i += 1;
    }
    true
}

impl Expr {
    /// Whether the value is readable: whether the reader gives this very
    /// value for its canonical text.
    pub fn is_readable(&self) -> (r: bool)
        ensures
            r == is_readable(self@),
        decreases self,
    {
        match self {
            Expr::String(_) => true,
            Expr::Symbol { namespace, name } => symbol_fits(namespace, name),
            Expr::Keyword { namespace, name } => name_fits(namespace, name),
            Expr::Character(_) => true,
            Expr::Integer(_) => true,
            Expr::Float(f) => {
                match f {
                    Float::Double(d) => {
                        let _ = d.decimal();
                        let _ = d.exponent();
                    },
                    Float::Exact(d) => {
                        let _ = d.exponent();
                    },
                }
                true
            },
            Expr::Nil => true,
            Expr::Comment => false,
            Expr::List(items) => all_are_readable(items),
            Expr::Vector(items) => all_are_readable(items),
            Expr::SortedSet(items) => all_are_readable(items) && increasing(items),
            Expr::SortedMap(entries) => all_entries_are_readable(entries) && keys_increasing(
                entries,
            ),
        }
    }
}

} // verus!
