//! The three outcomes of a comparison, and the orders on integers and on texts
//! from which the order on values is built.

use vstd::prelude::*;

verus! {

/// How a first thing stands to a second.
#[derive(Clone, Copy, Debug, PartialEq, Eq, Structural)]
pub enum Order {
    Less,
    Equal,
    Greater,
}

impl Order {
    /// The outcome with the two sides exchanged.
    pub open spec fn reverse(self) -> Order {
        match self {
            Order::Less => Order::Greater,
            Order::Equal => Order::Equal,
            Order::Greater => Order::Less,
        }
    }

    /// `self`, unless it is `Equal`: then `next` decides.
    pub open spec fn then_with(self, next: Order) -> Order {
        match self {
            Order::Equal => next,
            _ => self,
        }
    }

    /// The outcome with the two sides exchanged.
    pub fn reversed(self) -> (r: Order)
        ensures
            r == self.reverse(),
    {
        match self {
            Order::Less => Order::Greater,
            Order::Equal => Order::Equal,
            Order::Greater => Order::Less,
        }
    }

    pub fn is_equal(self) -> (r: bool)
        ensures
            r == (self == Order::Equal),
    {
        match self {
            Order::Equal => true,
            _ => false,
        }
    }

    pub fn is_less(self) -> (r: bool)
        ensures
            r == (self == Order::Less),
    {
        match self {
            Order::Less => true,
            _ => false,
        }
    }

    pub fn is_greater(self) -> (r: bool)
        ensures
            r == (self == Order::Greater),
    {
        match self {
            Order::Greater => true,
            _ => false,
        }
    }
}

/// The order of the integers.
pub open spec fn order_of(a: int, b: int) -> Order {
    if a < b {
        Order::Less
    } else if a == b {
        Order::Equal
    } else {
        Order::Greater
    }
}

/// `false` before `true`.
pub open spec fn order_of_flags(a: bool, b: bool) -> Order {
    order_of(if a { 1 } else { 0 }, if b { 1 } else { 0 })
}

/// The order of two texts from index `i` on, given that they agree before it:
/// the first character that differs decides, and a text comes before any text
/// that it begins.
pub open spec fn text_order_from(a: Seq<char>, b: Seq<char>, i: int) -> Order
    decreases a.len() - i,
{
    if i < 0 {
        Order::Equal
    } else if i >= a.len() {
        if i >= b.len() {
            Order::Equal
        } else {
            Order::Less
        }
    } else if i >= b.len() {
        Order::Greater
    } else if a[i] != b[i] {
        order_of(a[i] as int, b[i] as int)
    } else {
        text_order_from(a, b, i + 1)
    }
}

/// The order of two texts: by the code points, from the left.
pub open spec fn text_order(a: Seq<char>, b: Seq<char>) -> Order {
    text_order_from(a, b, 0)
}

/// An absent text comes before any text.
pub open spec fn optional_text_order(a: Option<Seq<char>>, b: Option<Seq<char>>) -> Order {
    match (a, b) {
        (None, None) => Order::Equal,
        (None, Some(_)) => Order::Less,
        (Some(_), None) => Order::Greater,
        (Some(x), Some(y)) => text_order(x, y),
    }
}

pub proof fn lemma_text_order_from_equal(a: Seq<char>, b: Seq<char>, i: int)
    requires
        0 <= i,
        i <= a.len(),
        i <= b.len(),
        a.subrange(0, i) == b.subrange(0, i),
    ensures
        text_order_from(a, b, i) == Order::Equal <==> a == b,
    decreases a.len() - i,
{
    if i >= a.len() || i >= b.len() {
        if a.len() == b.len() {
            assert(a.subrange(0, i) =~= a);
            assert(b.subrange(0, i) =~= b);
        }
    } else if a[i] != b[i] {
    } else {
        assert(a.subrange(0, i + 1) =~= a.subrange(0, i).push(a[i]));
        assert(b.subrange(0, i + 1) =~= b.subrange(0, i).push(b[i]));
        lemma_text_order_from_equal(a, b, i + 1);
    }
}

pub proof fn lemma_text_order_from_reverse(a: Seq<char>, b: Seq<char>, i: int)
    requires
        0 <= i,
    ensures
        text_order_from(b, a, i) == text_order_from(a, b, i).reverse(),
    decreases a.len() - i,
{
    if i >= a.len() || i >= b.len() {
    } else if a[i] != b[i] {
    } else {
        lemma_text_order_from_reverse(a, b, i + 1);
    }
}

pub proof fn lemma_text_order_from_transitive(a: Seq<char>, b: Seq<char>, c: Seq<char>, i: int)
    requires
        0 <= i,
        text_order_from(a, b, i) != Order::Greater,
        text_order_from(b, c, i) != Order::Greater,
    ensures
        text_order_from(a, c, i) != Order::Greater,
        text_order_from(a, b, i) == Order::Less || text_order_from(b, c, i) == Order::Less
            ==> text_order_from(a, c, i) == Order::Less,
    decreases a.len() - i,
{
    if i >= a.len() || i >= b.len() || i >= c.len() {
    } else if a[i] != b[i] || b[i] != c[i] {
    } else {
        lemma_text_order_from_transitive(a, b, c, i + 1);
    }
}

/// Two texts compare equal exactly when they are the same text.
pub proof fn lemma_text_order_equal(a: Seq<char>, b: Seq<char>)
    ensures
        text_order(a, b) == Order::Equal <==> a == b,
{
    assert(a.subrange(0, 0) =~= b.subrange(0, 0));
    lemma_text_order_from_equal(a, b, 0);
}

/// Exchanging the two texts reverses the outcome.
pub proof fn lemma_text_order_reverse(a: Seq<char>, b: Seq<char>)
    ensures
        text_order(b, a) == text_order(a, b).reverse(),
{
    lemma_text_order_from_reverse(a, b, 0);
}

/// The order of texts is transitive.
pub proof fn lemma_text_order_transitive(a: Seq<char>, b: Seq<char>, c: Seq<char>)
    requires
        text_order(a, b) != Order::Greater,
        text_order(b, c) != Order::Greater,
    ensures
        text_order(a, c) != Order::Greater,
        text_order(a, b) == Order::Less || text_order(b, c) == Order::Less ==> text_order(a, c)
            == Order::Less,
{
    lemma_text_order_from_transitive(a, b, c, 0);
}

/// Compares two integers.
pub fn compare_i64(a: i64, b: i64) -> (r: Order)
    ensures
        r == order_of(a as int, b as int),
{
    if a < b {
        Order::Less
    } else if a == b {
        Order::Equal
    } else {
        Order::Greater
    }
}

/// Compares two flags, `false` first.
pub fn compare_flags(a: bool, b: bool) -> (r: Order)
    ensures
        r == order_of_flags(a, b),
{
    if a == b {
        Order::Equal
    } else if b {
        Order::Less
    } else {
        Order::Greater
    }
}

/// Compares two characters by their code points.
pub fn compare_chars(a: char, b: char) -> (r: Order)
    ensures
        r == order_of(a as int, b as int),
{
    if a < b {
        Order::Less
    } else if a == b {
        Order::Equal
    } else {
        Order::Greater
    }
}

/// Compares two texts by their code points, from the left.
pub fn compare_texts(a: &str, b: &str) -> (r: Order)
    ensures
        r == text_order(a@, b@),
{
    let x = crate::text::chars_of(a);
    let y = crate::text::chars_of(b);
    let mut i: usize = 0;
    while i < x.len() && i < y.len()
        invariant
            i <= x.len(),
            i <= y.len(),
            x@ == a@,
            y@ == b@,
            text_order(x@, y@) == text_order_from(x@, y@, i as int),
        decreases x.len() - i,
    {
        if x[i] != y[i] {
            return compare_chars(x[i], y[i]);
        }
        i += 1;
    }
    if i < y.len() {
        Order::Less
    } else if i < x.len() {
        Order::Greater
    } else {
        Order::Equal
    }
}

/// Compares two texts that may be absent.
pub fn compare_optional_texts(a: &Option<String>, b: &Option<String>) -> (r: Order)
    ensures
        r == optional_text_order(
            match a {
                Some(x) => Some(x@),
                None => None,
            },
            match b {
                Some(y) => Some(y@),
                None => None,
            },
        ),
{
    match (a, b) {
        (None, None) => Order::Equal,
        (None, Some(_)) => Order::Less,
        (Some(_), None) => Order::Greater,
        (Some(x), Some(y)) => compare_texts(x.as_str(), y.as_str()),
    }
}

} // verus!
