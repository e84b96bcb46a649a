//! The values of the notation.
//!
//! `Expr` is the tree that the reader builds and the printer writes. Its view,
//! `Value`, is the same tree over mathematical sequences and integers; the
//! contracts of the library speak of views.

pub use crate::double::Double;
pub use crate::number::{BigInteger, Decimal, Float, Integer};
use crate::number::{FloatValue, IntegerValue};
use vstd::prelude::*;

verus! {

/// What an `Expr` stands for.
pub enum Value {
    String(Seq<char>),
    Symbol { namespace: Option<Seq<char>>, name: Seq<char> },
    Keyword { namespace: Option<Seq<char>>, name: Seq<char> },
    Character(char),
    Integer(IntegerValue),
    Float(FloatValue),
    Nil,
    Comment,
    List(Seq<Value>),
    Vector(Seq<Value>),
    /// The members, in the order in which they are kept.
    SortedSet(Seq<Value>),
    /// The entries, each a key and its value, in the order in which they are kept.
    SortedMap(Seq<(Value, Value)>),
}

/// A value of the notation. Texts are owned: a tree does not borrow from the
/// text it was read from.
#[derive(Debug, PartialEq, Eq, Hash)]
pub enum Expr {
    String(String),
    Symbol { namespace: Option<String>, name: String },
    Keyword { namespace: Option<String>, name: String },
    Character(char),
    Integer(Integer),
    Float(Float),
    Nil,
    /// A line comment. What it said is not kept.
    Comment,
    List(Vec<Expr>),
    Vector(Vec<Expr>),
    SortedSet(Vec<Expr>),
    SortedMap(Vec<(Expr, Expr)>),
}

/// The view of an optional text.
pub open spec fn optional_text(t: Option<String>) -> Option<Seq<char>> {
    match t {
        Some(s) => Some(s@),
        None => None,
    }
}

/// What a tree stands for.
pub open spec fn value_of(e: Expr) -> Value
    decreases e,
{
    match e {
        Expr::String(s) => Value::String(s@),
        Expr::Symbol { namespace, name } => Value::Symbol {
            namespace: optional_text(namespace),
            name: name@,
        },
        Expr::Keyword { namespace, name } => Value::Keyword {
            namespace: optional_text(namespace),
            name: name@,
        },
        Expr::Character(c) => Value::Character(c),
        Expr::Integer(i) => Value::Integer(i@),
        Expr::Float(f) => Value::Float(f@),
        Expr::Nil => Value::Nil,
        Expr::Comment => Value::Comment,
        Expr::List(items) => Value::List(views(items@)),
        Expr::Vector(items) => Value::Vector(views(items@)),
        Expr::SortedSet(items) => Value::SortedSet(views(items@)),
        Expr::SortedMap(entries) => Value::SortedMap(entry_views(entries@)),
    }
}

/// What each tree of a sequence stands for.
pub open spec fn views(items: Seq<Expr>) -> Seq<Value>
    decreases items,
{
    Seq::new(
        items.len(),
        |i: int|
            if 0 <= i < items.len() {
                value_of(items[i])
            } else {
                Value::Nil
            },
    )
}

/// What each entry of a sequence stands for.
pub open spec fn entry_views(entries: Seq<(Expr, Expr)>) -> Seq<(Value, Value)>
    decreases entries,
{
    Seq::new(
        entries.len(),
        |i: int|
            if 0 <= i < entries.len() {
                (value_of(entries[i].0), value_of(entries[i].1))
            } else {
                (Value::Nil, Value::Nil)
            },
    )
}

impl View for Expr {
    type V = Value;

    open spec fn view(&self) -> Value {
        value_of(*self)
    }
}

/// Each place of `views` holds the view of what stands at that place.
pub proof fn lemma_views(items: Seq<Expr>)
    ensures
        views(items).len() == items.len(),
        forall|i: int| 0 <= i < items.len() ==> (#[trigger] views(items)[i]) == items[i]@,
{
}

/// Each place of `entry_views` holds the views of the key and the value at that place.
pub proof fn lemma_entry_views(entries: Seq<(Expr, Expr)>)
    ensures
        entry_views(entries).len() == entries.len(),
        forall|i: int|
            0 <= i < entries.len() ==> (#[trigger] entry_views(entries)[i]) == (
                entries[i].0@,
                entries[i].1@,
            ),
{
}

/// A copy of an optional text.
fn clone_optional_text(t: &Option<String>) -> (r: Option<String>)
    ensures
        optional_text(r) == optional_text(*t),
{
    match t {
        Some(s) => Some(s.clone()),
        None => None,
    }
}

/// Copies of the values in `items`.
fn clone_all(items: &Vec<Expr>) -> (r: Vec<Expr>)
    ensures
        views(r@) == views(items@),
    decreases items,
{
    let mut out: Vec<Expr> = Vec::new();
    let mut i: usize = 0;
    while i < items.len()
        invariant
            i <= items.len(),
            out.len() == i,
            forall|j: int| 0 <= j < i ==> value_of(out@[j]) == value_of(items@[j]),
        decreases items.len() - i,
    {
        proof {
            vstd::std_specs::vec::axiom_vec_index_decreases(*items, i as int);
        }
        out.push(items[i].clone());
        i += 1;
    }
    assert(views(out@) =~= views(items@));
    out
}

impl Clone for Expr {
    fn clone(&self) -> (r: Self)
        ensures
            r@ == self@,
        decreases self,
    {
        let r = match self {
            Expr::String(s) => Expr::String(s.clone()),
            Expr::Symbol { namespace, name } => Expr::Symbol {
                namespace: clone_optional_text(namespace),
                name: name.clone(),
            },
            Expr::Keyword { namespace, name } => Expr::Keyword {
                namespace: clone_optional_text(namespace),
                name: name.clone(),
            },
            Expr::Character(c) => Expr::Character(*c),
            Expr::Integer(i) => Expr::Integer(
                match i {
                    Integer::Exact(x) => Integer::Exact(*x),
                    Integer::Arbitrary(b) => Integer::Arbitrary(b.clone()),
                },
            ),
            Expr::Float(f) => Expr::Float(
                match f {
                    Float::Double(d) => Float::Double(d.clone()),
                    Float::Exact(d) => Float::Exact(d.clone()),
                },
            ),
            Expr::Nil => Expr::Nil,
            Expr::Comment => Expr::Comment,
            Expr::List(items) => Expr::List(clone_all(items)),
            Expr::Vector(items) => Expr::Vector(clone_all(items)),
            Expr::SortedSet(items) => Expr::SortedSet(clone_all(items)),
            Expr::SortedMap(entries) => {
                let mut out: Vec<(Expr, Expr)> = Vec::new();
                let mut i: usize = 0;
                while i < entries.len()
                    invariant
                        i <= entries.len(),
                        out.len() == i,
                        self is SortedMap,
                        self->SortedMap_0 == *entries,
                        forall|j: int|
                            0 <= j < i ==> value_of(out@[j].0) == value_of(entries@[j].0)
                                && value_of(out@[j].1) == value_of(entries@[j].1),
                    decreases entries.len() - i,
                {
                    proof {
                        vstd::std_specs::vec::axiom_vec_index_decreases(*entries, i as int);
                    }
                    let key = entries[i].0.clone();
                    let value = entries[i].1.clone();
                    out.push((key, value));
                    i += 1;
                }
                assert(entry_views(out@) =~= entry_views(entries@));
                Expr::SortedMap(out)
            },
        };
        r
    }
}

impl Value {
    /// Whether a comment stands anywhere in the value.
    pub open spec fn has_comment(self) -> bool
        decreases self, 0int,
    {
        match self {
            Value::Comment => true,
            Value::List(items) => any_comment(items, 0),
            Value::Vector(items) => any_comment(items, 0),
            Value::SortedSet(items) => any_comment(items, 0),
            Value::SortedMap(entries) => any_entry_comment(entries, 0),
            _ => false,
        }
    }
}

/// Whether a comment stands in a value from index `i` on.
pub open spec fn any_comment(items: Seq<Value>, i: int) -> bool
    decreases items, items.len() - i,
{
    0 <= i < items.len() && (items[i].has_comment() || any_comment(items, i + 1))
}

/// Whether a comment stands in a key or a value from index `i` on.
pub open spec fn any_entry_comment(entries: Seq<(Value, Value)>, i: int) -> bool
    decreases entries, entries.len() - i,
{
    0 <= i < entries.len() && (entries[i].0.has_comment() || entries[i].1.has_comment()
        || any_entry_comment(entries, i + 1))
}

/// No comment from `i` on means none in any value from there on.
pub proof fn lemma_no_comment(items: Seq<Value>, i: int)
    requires
        0 <= i,
        !any_comment(items, i),
    ensures
        forall|j: int| i <= j < items.len() ==> !(#[trigger] items[j]).has_comment(),
    decreases items.len() - i,
{
    if i < items.len() {
        lemma_no_comment(items, i + 1);
    }
}

/// No comment from `i` on means none in any key or value from there on.
pub proof fn lemma_no_entry_comment(entries: Seq<(Value, Value)>, i: int)
    requires
        0 <= i,
        !any_entry_comment(entries, i),
    ensures
        forall|j: int|
            i <= j < entries.len() ==> !(#[trigger] entries[j]).0.has_comment()
                && !entries[j].1.has_comment(),
    decreases entries.len() - i,
{
    if i < entries.len() {
        lemma_no_entry_comment(entries, i + 1);
    }
}

} // verus!
