//! The values that the reader gives: those that are read again from their
//! canonical text.

use crate::ast::Value;
use crate::collection::{is_increasing, keys_of};
use crate::double::is_normal;
use crate::grammar::{is_segment, name_nil};
use crate::number::{FloatValue, IntegerValue};
use crate::occurs::all_constituent;
use crate::printer::identifier_text;
use crate::text::{is_digit, is_sign};
use vstd::prelude::*;

verus! {

/// Whether a text begins as a number does.
pub open spec fn number_like(t: Seq<char>) -> bool {
    t.len() >= 1 && (is_digit(t[0]) || (is_sign(t[0]) && t.len() >= 2 && is_digit(t[1])))
}

/// A part of a symbol or keyword, made of characters that may stand in one.
pub open spec fn is_part(t: Seq<char>) -> bool {
    is_segment(t) && all_constituent(t)
}

/// The namespaces and names of keywords: parts, or the slash alone as a name.
pub open spec fn is_name(namespace: Option<Seq<char>>, name: Seq<char>) -> bool {
    match namespace {
        Some(n) => is_part(n) && is_part(name),
        None => name == seq!['/'] || is_part(name),
    }
}

/// The namespaces and names of symbols: those of keywords that do not begin
/// as a number does and are not `nil`.
pub open spec fn is_symbol_name(namespace: Option<Seq<char>>, name: Seq<char>) -> bool {
    &&& is_name(namespace, name)
    &&& !number_like(identifier_text(namespace, name))
    &&& !(namespace is None && name == name_nil())
}

/// Whether a value is one that the reader gives and the printer takes: its
/// names are names, its numbers fit, its doubles have no zeros at the end of
/// their digits, its sets and maps are in the canonical order without
/// repetition, and no comment stands in it.
pub open spec fn is_readable(v: Value) -> bool
    decreases v, 0int,
{
    match v {
        Value::String(_) => true,
        Value::Symbol { namespace, name } => is_symbol_name(namespace, name),
        Value::Keyword { namespace, name } => is_name(namespace, name),
        Value::Character(_) => true,
        Value::Integer(i) => match i {
            IntegerValue::Exact(x) => i64::MIN <= x <= i64::MAX,
            IntegerValue::Arbitrary(_) => true,
        },
        Value::Float(f) => match f {
            FloatValue::Double(d) => i64::MIN <= d.exponent <= i64::MAX && is_normal(d),
            FloatValue::Exact(d) => i64::MIN <= d.exponent <= i64::MAX,
        },
        Value::Nil => true,
        Value::Comment => false,
        Value::List(items) => all_readable(items, 0),
        Value::Vector(items) => all_readable(items, 0),
        Value::SortedSet(items) => all_readable(items, 0) && is_increasing(items),
        Value::SortedMap(entries) => all_entries_readable(entries, 0) && is_increasing(
            keys_of(entries),
        ),
    }
}

/// Whether the values from index `i` on are readable.
pub open spec fn all_readable(items: Seq<Value>, i: int) -> bool
    decreases items, items.len() - i,
{
    i < 0 || i >= items.len() || (is_readable(items[i]) && all_readable(items, i + 1))
}

/// Whether the keys and values from index `i` on are readable.
pub open spec fn all_entries_readable(entries: Seq<(Value, Value)>, i: int) -> bool
    decreases entries, entries.len() - i,
{
    i < 0 || i >= entries.len() || (is_readable(entries[i].0) && is_readable(entries[i].1)
        && all_entries_readable(entries, i + 1))
}

/// Where all values from `i` on are readable, each of them is.
pub proof fn lemma_all_readable(items: Seq<Value>, i: int)
    requires
        0 <= i,
        all_readable(items, i),
    ensures
        forall|j: int| i <= j < items.len() ==> is_readable(#[trigger] items[j]),
    decreases items.len() - i,
{
    if i < items.len() {
        lemma_all_readable(items, i + 1);
    }
}

/// Where each value from `i` on is readable, all of them are.
pub proof fn lemma_each_readable(items: Seq<Value>, i: int)
    requires
        0 <= i,
        forall|j: int| i <= j < items.len() ==> is_readable(#[trigger] items[j]),
    ensures
        all_readable(items, i),
    decreases items.len() - i,
{
    if i < items.len() {
        lemma_each_readable(items, i + 1);
    }
}

/// Where all entries from `i` on are readable, each key and value is.
pub proof fn lemma_all_entries_readable(entries: Seq<(Value, Value)>, i: int)
    requires
        0 <= i,
        all_entries_readable(entries, i),
    ensures
        forall|j: int|
            i <= j < entries.len() ==> is_readable((#[trigger] entries[j]).0) && is_readable(
                entries[j].1,
            ),
    decreases entries.len() - i,
{
    if i < entries.len() {
        lemma_all_entries_readable(entries, i + 1);
    }
}

/// Where each key and value from `i` on is readable, all entries are.
pub proof fn lemma_each_entry_readable(entries: Seq<(Value, Value)>, i: int)
    requires
        0 <= i,
        forall|j: int|
            i <= j < entries.len() ==> is_readable((#[trigger] entries[j]).0) && is_readable(
                entries[j].1,
            ),
    ensures
        all_entries_readable(entries, i),
    decreases entries.len() - i,
{
    if i < entries.len() {
        lemma_each_entry_readable(entries, i + 1);
    }
}

} // verus!
