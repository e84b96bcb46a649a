//! The canonical order of values: total, and equal only on equal values.
//! Sets and maps are kept in it, so that equal collections print alike.

use crate::ast::{entry_views, lemma_entry_views, lemma_views, views, Expr, Value};
use crate::decimal::{
    lemma_decimal_order_equal, lemma_decimal_order_reverse, lemma_decimal_order_transitive,
};
use crate::number::{float_order, integer_order, FloatValue, IntegerValue};
use crate::order::{
    compare_chars, compare_optional_texts, compare_texts, lemma_text_order_equal,
    lemma_text_order_reverse, lemma_text_order_transitive, optional_text_order, order_of,
    text_order, Order,
};
use vstd::prelude::*;

verus! {

/// The place of a value's kind among the kinds.
pub open spec fn kind_rank(v: Value) -> int {
    match v {
        Value::String(_) => 0,
        Value::Symbol { .. } => 1,
        Value::Keyword { .. } => 2,
        Value::Character(_) => 3,
        Value::Integer(_) => 4,
        Value::Float(_) => 5,
        Value::Nil => 6,
        Value::Comment => 7,
        Value::List(_) => 8,
        Value::Vector(_) => 9,
        Value::SortedSet(_) => 10,
        Value::SortedMap(_) => 11,
    }
}

/// The canonical order: values of different kinds by their kinds; texts from
/// the left by code points, an absent namespace first; numbers as their
/// modules order them; collections from the left, member by member, a
/// collection before any that it begins; entries by key, then by value.
pub open spec fn value_order(a: Value, b: Value) -> Order
    decreases a, 0int,
{
    match (a, b) {
        (Value::String(x), Value::String(y)) => text_order(x, y),
        (
            Value::Symbol { namespace: n1, name: m1 },
            Value::Symbol { namespace: n2, name: m2 },
        ) => optional_text_order(n1, n2).then_with(text_order(m1, m2)),
        (
            Value::Keyword { namespace: n1, name: m1 },
            Value::Keyword { namespace: n2, name: m2 },
        ) => optional_text_order(n1, n2).then_with(text_order(m1, m2)),
        (Value::Character(x), Value::Character(y)) => order_of(x as int, y as int),
        (Value::Integer(x), Value::Integer(y)) => integer_order(x, y),
        (Value::Float(x), Value::Float(y)) => float_order(x, y),
        (Value::List(x), Value::List(y)) => values_order_from(x, y, 0),
        (Value::Vector(x), Value::Vector(y)) => values_order_from(x, y, 0),
        (Value::SortedSet(x), Value::SortedSet(y)) => values_order_from(x, y, 0),
        (Value::SortedMap(x), Value::SortedMap(y)) => entries_order_from(x, y, 0),
        _ => order_of(kind_rank(a), kind_rank(b)),
    }
}

/// The order of two sequences of values from index `i` on.
pub open spec fn values_order_from(a: Seq<Value>, b: Seq<Value>, i: int) -> Order
    decreases a, a.len() - i,
{
    if i < 0 {
        Order::Equal
    } else if i >= a.len() {
        if i >= b.len() {
            Order::Equal
        } else {
            Order::Less
        }
    } else if i >= b.len() {
        Order::Greater
    } else {
        value_order(a[i], b[i]).then_with(values_order_from(a, b, i + 1))
    }
}

/// The order of two sequences of entries from index `i` on.
pub open spec fn entries_order_from(
    a: Seq<(Value, Value)>,
    b: Seq<(Value, Value)>,
    i: int,
) -> Order
    decreases a, a.len() - i,
{
    if i < 0 {
        Order::Equal
    } else if i >= a.len() {
        if i >= b.len() {
            Order::Equal
        } else {
            Order::Less
        }
    } else if i >= b.len() {
        Order::Greater
    } else {
        value_order(a[i].0, b[i].0).then_with(value_order(a[i].1, b[i].1)).then_with(
            entries_order_from(a, b, i + 1),
        )
    }
}

/// Two values compare equal exactly when they are the same value.
pub proof fn lemma_order_equal(a: Value, b: Value)
    ensures
        value_order(a, b) == Order::Equal <==> a == b,
    decreases a, 0int,
{
    match (a, b) {
        (Value::String(x), Value::String(y)) => {
            lemma_text_order_equal(x, y);
        },
        (
            Value::Symbol { namespace: n1, name: m1 },
            Value::Symbol { namespace: n2, name: m2 },
        ) => {
            lemma_optional_text_order_equal(n1, n2);
            lemma_text_order_equal(m1, m2);
        },
        (
            Value::Keyword { namespace: n1, name: m1 },
            Value::Keyword { namespace: n2, name: m2 },
        ) => {
            lemma_optional_text_order_equal(n1, n2);
            lemma_text_order_equal(m1, m2);
        },
        (Value::Float(x), Value::Float(y)) => {
            lemma_float_order_equal(x, y);
        },
        (Value::List(x), Value::List(y)) => {
            assert(x.subrange(0, 0) =~= y.subrange(0, 0));
            lemma_values_order_equal(x, y, 0);
        },
        (Value::Vector(x), Value::Vector(y)) => {
            assert(x.subrange(0, 0) =~= y.subrange(0, 0));
            lemma_values_order_equal(x, y, 0);
        },
        (Value::SortedSet(x), Value::SortedSet(y)) => {
            assert(x.subrange(0, 0) =~= y.subrange(0, 0));
            lemma_values_order_equal(x, y, 0);
        },
        (Value::SortedMap(x), Value::SortedMap(y)) => {
            assert(x.subrange(0, 0) =~= y.subrange(0, 0));
            lemma_entries_order_equal(x, y, 0);
        },
        _ => {},
    }
}

proof fn lemma_optional_text_order_equal(a: Option<Seq<char>>, b: Option<Seq<char>>)
    ensures
        optional_text_order(a, b) == Order::Equal <==> a == b,
{
    match (a, b) {
        (Some(x), Some(y)) => {
            lemma_text_order_equal(x, y);
        },
        _ => {},
    }
}

proof fn lemma_optional_text_order_reverse(a: Option<Seq<char>>, b: Option<Seq<char>>)
    ensures
        optional_text_order(b, a) == optional_text_order(a, b).reverse(),
{
    match (a, b) {
        (Some(x), Some(y)) => {
            lemma_text_order_reverse(x, y);
        },
        _ => {},
    }
}

proof fn lemma_optional_text_order_transitive(
    a: Option<Seq<char>>,
    b: Option<Seq<char>>,
    c: Option<Seq<char>>,
)
    requires
        optional_text_order(a, b) != Order::Greater,
        optional_text_order(b, c) != Order::Greater,
    ensures
        optional_text_order(a, c) != Order::Greater,
        optional_text_order(a, b) == Order::Less || optional_text_order(b, c) == Order::Less
            ==> optional_text_order(a, c) == Order::Less,
{
    match (a, b, c) {
        (Some(x), Some(y), Some(z)) => {
            lemma_text_order_transitive(x, y, z);
        },
        _ => {},
    }
}

proof fn lemma_values_order_equal(a: Seq<Value>, b: Seq<Value>, i: int)
    requires
        0 <= i <= a.len(),
        i <= b.len(),
        a.subrange(0, i) == b.subrange(0, i),
    ensures
        values_order_from(a, b, i) == Order::Equal <==> a == b,
    decreases a, a.len() - i,
{
    if i >= a.len() || i >= b.len() {
        if a.len() == b.len() {
            assert(a.subrange(0, i) =~= a);
            assert(b.subrange(0, i) =~= b);
        }
    } else {
        lemma_order_equal(a[i], b[i]);
        if a[i] == b[i] {
            assert(a.subrange(0, i + 1) =~= a.subrange(0, i).push(a[i]));
            assert(b.subrange(0, i + 1) =~= b.subrange(0, i).push(b[i]));
            lemma_values_order_equal(a, b, i + 1);
        }
    }
}

proof fn lemma_entries_order_equal(a: Seq<(Value, Value)>, b: Seq<(Value, Value)>, i: int)
    requires
        0 <= i <= a.len(),
        i <= b.len(),
        a.subrange(0, i) == b.subrange(0, i),
    ensures
        entries_order_from(a, b, i) == Order::Equal <==> a == b,
    decreases a, a.len() - i,
{
    if i >= a.len() || i >= b.len() {
        if a.len() == b.len() {
            assert(a.subrange(0, i) =~= a);
            assert(b.subrange(0, i) =~= b);
        }
    } else {
        lemma_order_equal(a[i].0, b[i].0);
        lemma_order_equal(a[i].1, b[i].1);
        if a[i] == b[i] {
            assert(a.subrange(0, i + 1) =~= a.subrange(0, i).push(a[i]));
            assert(b.subrange(0, i + 1) =~= b.subrange(0, i).push(b[i]));
            lemma_entries_order_equal(a, b, i + 1);
        }
    }
}

/// Exchanging the two values reverses the outcome.
pub proof fn lemma_order_reverse(a: Value, b: Value)
    ensures
        value_order(b, a) == value_order(a, b).reverse(),
    decreases a, 0int,
{
    match (a, b) {
        (Value::String(x), Value::String(y)) => {
            lemma_text_order_reverse(x, y);
        },
        (
            Value::Symbol { namespace: n1, name: m1 },
            Value::Symbol { namespace: n2, name: m2 },
        ) => {
            lemma_optional_text_order_reverse(n1, n2);
            lemma_text_order_reverse(m1, m2);
        },
        (
            Value::Keyword { namespace: n1, name: m1 },
            Value::Keyword { namespace: n2, name: m2 },
        ) => {
            lemma_optional_text_order_reverse(n1, n2);
            lemma_text_order_reverse(m1, m2);
        },
        (Value::Float(x), Value::Float(y)) => {
            lemma_float_order_reverse(x, y);
        },
        (Value::List(x), Value::List(y)) => {
            lemma_values_order_reverse(x, y, 0);
        },
        (Value::Vector(x), Value::Vector(y)) => {
            lemma_values_order_reverse(x, y, 0);
        },
        (Value::SortedSet(x), Value::SortedSet(y)) => {
            lemma_values_order_reverse(x, y, 0);
        },
        (Value::SortedMap(x), Value::SortedMap(y)) => {
            lemma_entries_order_reverse(x, y, 0);
        },
        _ => {},
    }
}

proof fn lemma_values_order_reverse(a: Seq<Value>, b: Seq<Value>, i: int)
    requires
        0 <= i,
    ensures
        values_order_from(b, a, i) == values_order_from(a, b, i).reverse(),
    decreases a, a.len() - i,
{
    if i >= a.len() || i >= b.len() {
    } else {
        lemma_order_reverse(a[i], b[i]);
        lemma_values_order_reverse(a, b, i + 1);
    }
}

proof fn lemma_entries_order_reverse(a: Seq<(Value, Value)>, b: Seq<(Value, Value)>, i: int)
    requires
        0 <= i,
    ensures
        entries_order_from(b, a, i) == entries_order_from(a, b, i).reverse(),
    decreases a, a.len() - i,
{
    if i >= a.len() || i >= b.len() {
    } else {
        lemma_order_reverse(a[i].0, b[i].0);
        lemma_order_reverse(a[i].1, b[i].1);
        lemma_entries_order_reverse(a, b, i + 1);
    }
}

/// Values of different kinds are ordered by their kinds.
proof fn lemma_order_of_kinds(a: Value, b: Value)
    ensures
        kind_rank(a) != kind_rank(b) ==> value_order(a, b) == order_of(kind_rank(a), kind_rank(b)),
{
}

/// The canonical order is transitive.
pub proof fn lemma_order_transitive(a: Value, b: Value, c: Value)
    requires
        value_order(a, b) != Order::Greater,
        value_order(b, c) != Order::Greater,
    ensures
        value_order(a, c) != Order::Greater,
        value_order(a, b) == Order::Less || value_order(b, c) == Order::Less ==> value_order(a, c)
            == Order::Less,
    decreases a, 0int,
{
    lemma_order_of_kinds(a, b);
    lemma_order_of_kinds(b, c);
    lemma_order_of_kinds(a, c);
    if kind_rank(a) == kind_rank(b) && kind_rank(b) == kind_rank(c) {
        match a {
            Value::String(x) => {
                lemma_text_order_transitive(x, b->String_0, c->String_0);
            },
            Value::Symbol { namespace: n1, name: m1 } => {
                let n2 = b->Symbol_namespace;
                let n3 = c->Symbol_namespace;
                lemma_optional_text_order_transitive(n1, n2, n3);
                lemma_optional_text_order_equal(n1, n2);
                lemma_optional_text_order_equal(n2, n3);
                lemma_optional_text_order_equal(n1, n3);
                if n1 == n2 && n2 == n3 {
                    lemma_text_order_transitive(m1, b->Symbol_name, c->Symbol_name);
                }
            },
            Value::Keyword { namespace: n1, name: m1 } => {
                let n2 = b->Keyword_namespace;
                let n3 = c->Keyword_namespace;
                lemma_optional_text_order_transitive(n1, n2, n3);
                lemma_optional_text_order_equal(n1, n2);
                lemma_optional_text_order_equal(n2, n3);
                lemma_optional_text_order_equal(n1, n3);
                if n1 == n2 && n2 == n3 {
                    lemma_text_order_transitive(m1, b->Keyword_name, c->Keyword_name);
                }
            },
            Value::Character(_) => {},
            Value::Integer(x) => {
                lemma_integer_order_transitive(x, b->Integer_0, c->Integer_0);
            },
            Value::Float(x) => {
                lemma_float_order_transitive(x, b->Float_0, c->Float_0);
            },
            Value::Nil => {},
            Value::Comment => {},
            Value::List(x) => {
                lemma_values_order_transitive(x, b->List_0, c->List_0, 0);
            },
            Value::Vector(x) => {
                lemma_values_order_transitive(x, b->Vector_0, c->Vector_0, 0);
            },
            Value::SortedSet(x) => {
                lemma_values_order_transitive(x, b->SortedSet_0, c->SortedSet_0, 0);
            },
            Value::SortedMap(x) => {
                lemma_entries_order_transitive(x, b->SortedMap_0, c->SortedMap_0, 0);
            },
        }
    }
}

proof fn lemma_integer_order_transitive(a: IntegerValue, b: IntegerValue, c: IntegerValue)
    requires
        integer_order(a, b) != Order::Greater,
        integer_order(b, c) != Order::Greater,
    ensures
        integer_order(a, c) != Order::Greater,
        integer_order(a, b) == Order::Less || integer_order(b, c) == Order::Less ==> integer_order(
            a,
            c,
        ) == Order::Less,
{
}

proof fn lemma_float_order_equal(a: FloatValue, b: FloatValue)
    ensures
        float_order(a, b) == Order::Equal <==> a == b,
{
    match (a, b) {
        (FloatValue::Double(x), FloatValue::Double(y)) => {
            lemma_decimal_order_equal(x, y);
        },
        (FloatValue::Exact(x), FloatValue::Exact(y)) => {
            lemma_decimal_order_equal(x, y);
        },
        _ => {},
    }
}

proof fn lemma_float_order_reverse(a: FloatValue, b: FloatValue)
    ensures
        float_order(b, a) == float_order(a, b).reverse(),
{
    match (a, b) {
        (FloatValue::Double(x), FloatValue::Double(y)) => {
            lemma_decimal_order_reverse(x, y);
        },
        (FloatValue::Exact(x), FloatValue::Exact(y)) => {
            lemma_decimal_order_reverse(x, y);
        },
        _ => {},
    }
}

proof fn lemma_float_order_transitive(a: FloatValue, b: FloatValue, c: FloatValue)
    requires
        float_order(a, b) != Order::Greater,
        float_order(b, c) != Order::Greater,
    ensures
        float_order(a, c) != Order::Greater,
        float_order(a, b) == Order::Less || float_order(b, c) == Order::Less ==> float_order(a, c)
            == Order::Less,
{
    match (a, b, c) {
        (FloatValue::Double(x), FloatValue::Double(y), FloatValue::Double(z)) => {
            lemma_decimal_order_transitive(x, y, z);
        },
        (FloatValue::Exact(x), FloatValue::Exact(y), FloatValue::Exact(z)) => {
            lemma_decimal_order_transitive(x, y, z);
        },
        _ => {},
    }
}

proof fn lemma_values_order_transitive(a: Seq<Value>, b: Seq<Value>, c: Seq<Value>, i: int)
    requires
        0 <= i,
        values_order_from(a, b, i) != Order::Greater,
        values_order_from(b, c, i) != Order::Greater,
    ensures
        values_order_from(a, c, i) != Order::Greater,
        values_order_from(a, b, i) == Order::Less || values_order_from(b, c, i) == Order::Less
            ==> values_order_from(a, c, i) == Order::Less,
    decreases a, a.len() - i,
{
    if i >= a.len() || i >= b.len() || i >= c.len() {
    } else {
        lemma_order_transitive(a[i], b[i], c[i]);
        lemma_order_equal(a[i], b[i]);
        lemma_order_equal(b[i], c[i]);
        lemma_order_equal(a[i], c[i]);
        if a[i] == b[i] && b[i] == c[i] {
            lemma_values_order_transitive(a, b, c, i + 1);
        }
    }
}

proof fn lemma_entries_order_transitive(
    a: Seq<(Value, Value)>,
    b: Seq<(Value, Value)>,
    c: Seq<(Value, Value)>,
    i: int,
)
    requires
        0 <= i,
        entries_order_from(a, b, i) != Order::Greater,
        entries_order_from(b, c, i) != Order::Greater,
    ensures
        entries_order_from(a, c, i) != Order::Greater,
        entries_order_from(a, b, i) == Order::Less || entries_order_from(b, c, i) == Order::Less
            ==> entries_order_from(a, c, i) == Order::Less,
    decreases a, a.len() - i,
{
    if i >= a.len() || i >= b.len() || i >= c.len() {
    } else {
        lemma_order_transitive(a[i].0, b[i].0, c[i].0);
        lemma_order_equal(a[i].0, b[i].0);
        lemma_order_equal(b[i].0, c[i].0);
        lemma_order_equal(a[i].0, c[i].0);
        if a[i].0 == b[i].0 && b[i].0 == c[i].0 {
            lemma_order_transitive(a[i].1, b[i].1, c[i].1);
            lemma_order_equal(a[i].1, b[i].1);
            lemma_order_equal(b[i].1, c[i].1);
            lemma_order_equal(a[i].1, c[i].1);
            if a[i].1 == b[i].1 && b[i].1 == c[i].1 {
                lemma_entries_order_transitive(a, b, c, i + 1);
            }
        }
    }
}

/// The place of a value's kind among the kinds.
fn kind_rank_of(e: &Expr) -> (r: u8)
    ensures
        r as int == kind_rank(e@),
{
    match e {
        Expr::String(_) => 0,
        Expr::Symbol { .. } => 1,
        Expr::Keyword { .. } => 2,
        Expr::Character(_) => 3,
        Expr::Integer(_) => 4,
        Expr::Float(_) => 5,
        Expr::Nil => 6,
        Expr::Comment => 7,
        Expr::List(_) => 8,
        Expr::Vector(_) => 9,
        Expr::SortedSet(_) => 10,
        Expr::SortedMap(_) => 11,
    }
}

/// Compares two sequences of values, from the left.
fn compare_all(xs: &Vec<Expr>, ys: &Vec<Expr>) -> (r: Order)
    ensures
        r == values_order_from(views(xs@), views(ys@), 0),
    decreases xs,
{
    let mut i: usize = 0;
    proof {
        lemma_views(xs@);
        lemma_views(ys@);
    }
    while i < xs.len() && i < ys.len()
        invariant
            i <= xs.len(),
            i <= ys.len(),
            views(xs@).len() == xs@.len(),
            views(ys@).len() == ys@.len(),
            forall|j: int| 0 <= j < xs@.len() ==> (#[trigger] views(xs@)[j]) == xs@[j]@,
            forall|j: int| 0 <= j < ys@.len() ==> (#[trigger] views(ys@)[j]) == ys@[j]@,
            values_order_from(views(xs@), views(ys@), 0) == values_order_from(
                views(xs@),
                views(ys@),
                i as int,
            ),
        decreases xs.len() - i,
    {
        proof {
            vstd::std_specs::vec::axiom_vec_index_decreases(*xs, i as int);
        }
        let o = xs[i].compare(&ys[i]);
        if !o.is_equal() {
            return o;
        }
        i += 1;
    }
    if i < ys.len() {
        Order::Less
    } else if i < xs.len() {
        Order::Greater
    } else {
        Order::Equal
    }
}

/// Compares two sequences of entries, from the left.
fn compare_entries(xs: &Vec<(Expr, Expr)>, ys: &Vec<(Expr, Expr)>) -> (r: Order)
    ensures
        r == entries_order_from(entry_views(xs@), entry_views(ys@), 0),
    decreases xs,
{
    let mut i: usize = 0;
    proof {
        lemma_entry_views(xs@);
        lemma_entry_views(ys@);
    }
    while i < xs.len() && i < ys.len()
        invariant
            i <= xs.len(),
            i <= ys.len(),
            entry_views(xs@).len() == xs@.len(),
            entry_views(ys@).len() == ys@.len(),
            forall|j: int|
                0 <= j < xs@.len() ==> (#[trigger] entry_views(xs@)[j]) == (xs@[j].0@, xs@[j].1@),
            forall|j: int|
                0 <= j < ys@.len() ==> (#[trigger] entry_views(ys@)[j]) == (ys@[j].0@, ys@[j].1@),
            entries_order_from(entry_views(xs@), entry_views(ys@), 0) == entries_order_from(
                entry_views(xs@),
                entry_views(ys@),
                i as int,
            ),
        decreases xs.len() - i,
    {
        proof {
            vstd::std_specs::vec::axiom_vec_index_decreases(*xs, i as int);
        }
        let by_key = xs[i].0.compare(&ys[i].0);
        if !by_key.is_equal() {
            return by_key;
        }
        let by_value = xs[i].1.compare(&ys[i].1);
        if !by_value.is_equal() {
            return by_value;
        }
        i += 1;
    }
    if i < ys.len() {
        Order::Less
    } else if i < xs.len() {
        Order::Greater
    } else {
        Order::Equal
    }
}

impl Expr {
    /// Compares two values in the canonical order.
    pub fn compare(&self, other: &Expr) -> (r: Order)
        ensures
            r == value_order(self@, other@),
        decreases self,
    {
        match (self, other) {
            (Expr::String(x), Expr::String(y)) => compare_texts(x.as_str(), y.as_str()),
            (
                Expr::Symbol { namespace: n1, name: m1 },
                Expr::Symbol { namespace: n2, name: m2 },
            ) => {
                let by_namespace = compare_optional_texts(n1, n2);
                if by_namespace.is_equal() {
                    compare_texts(m1.as_str(), m2.as_str())
                } else {
                    by_namespace
                }
            },
            (
                Expr::Keyword { namespace: n1, name: m1 },
                Expr::Keyword { namespace: n2, name: m2 },
            ) => {
                let by_namespace = compare_optional_texts(n1, n2);
                if by_namespace.is_equal() {
                    compare_texts(m1.as_str(), m2.as_str())
                } else {
                    by_namespace
                }
            },
            (Expr::Character(x), Expr::Character(y)) => compare_chars(*x, *y),
            (Expr::Integer(x), Expr::Integer(y)) => x.compare(y),
            (Expr::Float(x), Expr::Float(y)) => x.compare(y),
            (Expr::List(x), Expr::List(y)) => compare_all(x, y),
            (Expr::Vector(x), Expr::Vector(y)) => compare_all(x, y),
            (Expr::SortedSet(x), Expr::SortedSet(y)) => compare_all(x, y),
            (Expr::SortedMap(x), Expr::SortedMap(y)) => compare_entries(x, y),
            _ => {
                let a = kind_rank_of(self);
                let b = kind_rank_of(other);
                if a < b {
                    Order::Less
                } else if a == b {
                    Order::Equal
                } else {
                    Order::Greater
                }
            },
        }
    }

    /// Whether two values are the same value.
    pub fn same(&self, other: &Expr) -> (r: bool)
        ensures
            r == (self@ == other@),
    {
        proof {
            lemma_order_equal(self@, other@);
        }
        self.compare(other).is_equal()
    }
}

} // verus!
