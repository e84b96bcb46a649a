//! Sets and maps as sequences in the canonical order, without repetition.

use crate::ast::{entry_views, lemma_entry_views, lemma_views, views, Expr, Value};
use crate::canonical::{lemma_order_equal, lemma_order_reverse, lemma_order_transitive, value_order};
use crate::order::Order;
use vstd::prelude::*;

verus! {

/// Each member comes before every later one.
pub open spec fn is_increasing(items: Seq<Value>) -> bool {
    forall|i: int, j: int|
        0 <= i < j < items.len() ==> #[trigger] value_order(items[i], items[j]) == Order::Less
}

/// The keys of a sequence of entries.
pub open spec fn keys_of(entries: Seq<(Value, Value)>) -> Seq<Value> {
    Seq::new(entries.len(), |i: int| entries[i].0)
}

/// The first index from `i` on whose member does not come before `v`.
pub open spec fn insertion_point(items: Seq<Value>, v: Value, i: int) -> int
    decreases items.len() - i,
{
    if 0 <= i < items.len() && value_order(items[i], v) == Order::Less {
        insertion_point(items, v, i + 1)
    } else {
        i
    }
}

/// `items` with `v` put in at its place, unless `v` stands there already.
pub open spec fn set_insert(items: Seq<Value>, v: Value) -> Seq<Value> {
    let p = insertion_point(items, v, 0);
    if p < items.len() && items[p] == v {
        items
    } else {
        items.insert(p, v)
    }
}

/// The set that holds the given elements: each is put in, from the left.
pub open spec fn set_of(elements: Seq<Value>) -> Seq<Value>
    decreases elements.len(),
{
    if elements.len() == 0 {
        Seq::empty()
    } else {
        set_insert(set_of(elements.drop_last()), elements.last())
    }
}

/// `entries` with the entry of `key` and `value` put in at its place; an entry with
/// that key is replaced.
pub open spec fn map_insert(entries: Seq<(Value, Value)>, key: Value, value: Value) -> Seq<
    (Value, Value),
> {
    let p = insertion_point(keys_of(entries), key, 0);
    if p < entries.len() && entries[p].0 == key {
        entries.update(p, (key, value))
    } else {
        entries.insert(p, (key, value))
    }
}

/// The elements two by two: a key, then its value.
pub open spec fn pairs_of(elements: Seq<Value>) -> Seq<(Value, Value)> {
    Seq::new((elements.len() / 2) as nat, |i: int| (elements[2 * i], elements[2 * i + 1]))
}

/// The map that holds the given entries: each is put in, from the left, so
/// that of two entries with one key the later stays.
pub open spec fn map_of(pairs: Seq<(Value, Value)>) -> Seq<(Value, Value)>
    decreases pairs.len(),
{
    if pairs.len() == 0 {
        Seq::empty()
    } else {
        map_insert(map_of(pairs.drop_last()), pairs.last().0, pairs.last().1)
    }
}

/// Where `insertion_point` lands: behind every member that comes before `v`,
/// and on one that does not, or at the end.
pub proof fn lemma_insertion_point(items: Seq<Value>, v: Value, i: int)
    requires
        0 <= i <= items.len(),
    ensures
        i <= insertion_point(items, v, i) <= items.len(),
        forall|j: int|
            i <= j < insertion_point(items, v, i) ==> value_order(#[trigger] items[j], v)
                == Order::Less,
        insertion_point(items, v, i) < items.len() ==> value_order(
            items[insertion_point(items, v, i)],
            v,
        ) != Order::Less,
    decreases items.len() - i,
{
    if i < items.len() && value_order(items[i], v) == Order::Less {
        lemma_insertion_point(items, v, i + 1);
    }
}

/// Putting a value into an increasing sequence leaves it increasing.
pub proof fn lemma_set_insert_increasing(items: Seq<Value>, v: Value)
    requires
        is_increasing(items),
    ensures
        is_increasing(set_insert(items, v)),
{
    let p = insertion_point(items, v, 0);
    lemma_insertion_point(items, v, 0);
    let r = set_insert(items, v);
    if p < items.len() && items[p] == v {
    } else {
        assert forall|i: int, j: int| 0 <= i < j < r.len() implies #[trigger] value_order(
            r[i],
            r[j],
        ) == Order::Less by {
            if j < p {
                assert(value_order(items[i], items[j]) == Order::Less);
            } else if j == p {
                assert(r[i] == items[i]);
            } else {
                // j > p, so r[j] is items[j - 1], which does not come before v
                assert(r[j] == items[j - 1]);
                lemma_order_equal(items[p], v);
                lemma_order_reverse(items[p], v);
                assert(value_order(v, items[p]) == Order::Less);
                if j - 1 > p {
                    assert(value_order(items[p], items[j - 1]) == Order::Less);
                    lemma_order_transitive(v, items[p], items[j - 1]);
                }
                assert(value_order(v, r[j]) == Order::Less);
                if i < p {
                    assert(r[i] == items[i]);
                    assert(value_order(items[i], v) == Order::Less);
                    lemma_order_transitive(r[i], v, r[j]);
                } else if i == p {
                } else {
                    assert(value_order(items[i - 1], items[j - 1]) == Order::Less);
                }
            }
        }
    }
}

/// What a set holds after a value was put in: the value, and what it held.
pub proof fn lemma_set_insert_members(items: Seq<Value>, v: Value)
    ensures
        forall|x: Value| #[trigger]
            set_insert(items, v).contains(x) <==> (x == v || items.contains(x)),
{
    let p = insertion_point(items, v, 0);
    lemma_insertion_point(items, v, 0);
    let r = set_insert(items, v);
    assert forall|x: Value| #[trigger] r.contains(x) <==> (x == v || items.contains(x)) by {
        if p < items.len() && items[p] == v {
            assert(items.contains(v));
        } else {
            if r.contains(x) {
                let k = choose|k: int| 0 <= k < r.len() && r[k] == x;
                if k < p {
                    assert(items[k] == x);
                } else if k > p {
                    assert(items[k - 1] == x);
                }
            }
            if x == v {
                assert(r[p] == v);
            }
            if items.contains(x) {
                let k = choose|k: int| 0 <= k < items.len() && items[k] == x;
                if k < p {
                    assert(r[k] == x);
                } else {
                    assert(r[k + 1] == x);
                }
            }
        }
    }
}

/// A set made of elements is increasing and holds exactly those elements.
pub proof fn lemma_set_of(elements: Seq<Value>)
    ensures
        is_increasing(set_of(elements)),
        forall|x: Value| #[trigger] set_of(elements).contains(x) <==> elements.contains(x),
    decreases elements.len(),
{
    if elements.len() == 0 {
    } else {
        let init = elements.drop_last();
        lemma_set_of(init);
        lemma_set_insert_increasing(set_of(init), elements.last());
        lemma_set_insert_members(set_of(init), elements.last());
        assert forall|x: Value| #[trigger]
            set_of(elements).contains(x) <==> elements.contains(x) by {
            if elements.contains(x) {
                let k = choose|k: int| 0 <= k < elements.len() && elements[k] == x;
                if k < elements.len() - 1 {
                    assert(init[k] == x);
                }
            }
            if init.contains(x) {
                let k = choose|k: int| 0 <= k < init.len() && init[k] == x;
                assert(elements[k] == x);
            }
            assert(elements[elements.len() - 1] == elements.last());
        }
    }
}

/// An increasing sequence is the set of its own members.
pub proof fn lemma_set_of_increasing(items: Seq<Value>)
    requires
        is_increasing(items),
    ensures
        set_of(items) == items,
    decreases items.len(),
{
    if items.len() == 0 {
        assert(set_of(items) =~= items);
    } else {
        let init = items.drop_last();
        assert(is_increasing(init)) by {
            assert forall|i: int, j: int| 0 <= i < j < init.len() implies #[trigger] value_order(
                init[i],
                init[j],
            ) == Order::Less by {
                assert(value_order(items[i], items[j]) == Order::Less);
            }
        }
        lemma_set_of_increasing(init);
        assert forall|j: int| 0 <= j < init.len() implies value_order(
            #[trigger] init[j],
            items.last(),
        ) == Order::Less by {
            assert(value_order(items[j], items[items.len() - 1]) == Order::Less);
        }
        lemma_insertion_point_at_end(init, items.last(), 0);
        assert(init.insert(init.len() as int, items.last()) =~= items);
    }
}

/// Behind members that all come before `v`, the insertion point is the end.
pub proof fn lemma_insertion_point_at_end(items: Seq<Value>, v: Value, i: int)
    requires
        0 <= i <= items.len(),
        forall|j: int| 0 <= j < items.len() ==> value_order(#[trigger] items[j], v) == Order::Less,
    ensures
        insertion_point(items, v, i) == items.len(),
    decreases items.len() - i,
{
    if i < items.len() {
        lemma_insertion_point_at_end(items, v, i + 1);
    }
}

/// Putting an entry into a map with increasing keys leaves the keys increasing.
pub proof fn lemma_map_insert_increasing(entries: Seq<(Value, Value)>, key: Value, value: Value)
    requires
        is_increasing(keys_of(entries)),
    ensures
        is_increasing(keys_of(map_insert(entries, key, value))),
{
    let keys = keys_of(entries);
    let p = insertion_point(keys, key, 0);
    lemma_insertion_point(keys, key, 0);
    let r = map_insert(entries, key, value);
    if p < entries.len() && entries[p].0 == key {
        assert(keys_of(r) =~= keys);
    } else {
        lemma_set_insert_increasing(keys, key);
        assert(keys[p] == entries[p].0 || p >= entries.len());
        assert(keys_of(r) =~= set_insert(keys, key));
    }
}

/// A map made of entries has increasing keys.
pub proof fn lemma_map_of(pairs: Seq<(Value, Value)>)
    ensures
        is_increasing(keys_of(map_of(pairs))),
    decreases pairs.len(),
{
    if pairs.len() == 0 {
    } else {
        lemma_map_of(pairs.drop_last());
        lemma_map_insert_increasing(map_of(pairs.drop_last()), pairs.last().0, pairs.last().1);
    }
}

/// Entries with increasing keys are the map of themselves.
pub proof fn lemma_map_of_increasing(entries: Seq<(Value, Value)>)
    requires
        is_increasing(keys_of(entries)),
    ensures
        map_of(entries) == entries,
    decreases entries.len(),
{
    if entries.len() == 0 {
        assert(map_of(entries) =~= entries);
    } else {
        let init = entries.drop_last();
        let keys = keys_of(entries);
        assert(keys_of(init) =~= keys.drop_last());
        assert(is_increasing(keys_of(init))) by {
            assert forall|i: int, j: int| 0 <= i < j < init.len() implies #[trigger] value_order(
                keys_of(init)[i],
                keys_of(init)[j],
            ) == Order::Less by {
                assert(value_order(keys[i], keys[j]) == Order::Less);
            }
        }
        lemma_map_of_increasing(init);
        assert forall|j: int| 0 <= j < init.len() implies value_order(
            #[trigger] keys_of(init)[j],
            entries.last().0,
        ) == Order::Less by {
            assert(value_order(keys[j], keys[entries.len() - 1]) == Order::Less);
        }
        lemma_insertion_point_at_end(keys_of(init), entries.last().0, 0);
        assert(init.insert(init.len() as int, entries.last()) =~= entries);
    }
}

/// What a map holds after an entry was put in is that entry or was held before.
pub proof fn lemma_map_insert_members(entries: Seq<(Value, Value)>, key: Value, value: Value)
    ensures
        forall|x: (Value, Value)| #[trigger]
            map_insert(entries, key, value).contains(x) ==> x == (key, value) || entries.contains(
                x,
            ),
{
    let p = insertion_point(keys_of(entries), key, 0);
    lemma_insertion_point(keys_of(entries), key, 0);
    let r = map_insert(entries, key, value);
    assert forall|x: (Value, Value)| #[trigger] r.contains(x) implies x == (key, value)
        || entries.contains(x) by {
        let k = choose|k: int| 0 <= k < r.len() && r[k] == x;
        if p < entries.len() && entries[p].0 == key {
            if k != p {
                assert(entries[k] == x);
            }
        } else {
            if k < p {
                assert(entries[k] == x);
            } else if k > p {
                assert(entries[k - 1] == x);
            }
        }
    }
}

/// What a map made of entries holds is among those entries.
pub proof fn lemma_map_of_members(pairs: Seq<(Value, Value)>)
    ensures
        forall|x: (Value, Value)| #[trigger] map_of(pairs).contains(x) ==> pairs.contains(x),
    decreases pairs.len(),
{
    if pairs.len() == 0 {
        assert forall|x: (Value, Value)| #[trigger] map_of(pairs).contains(x) implies pairs.contains(
            x,
        ) by {
            let k = choose|k: int| 0 <= k < map_of(pairs).len() && map_of(pairs)[k] == x;
        }
    } else {
        let init = pairs.drop_last();
        lemma_map_of_members(init);
        lemma_map_insert_members(map_of(init), pairs.last().0, pairs.last().1);
        assert forall|x: (Value, Value)| #[trigger] map_of(pairs).contains(x) implies pairs.contains(
            x,
        ) by {
            if x == pairs.last() {
                assert(pairs[pairs.len() - 1] == x);
            } else {
                assert(map_of(init).contains(x));
                assert(init.contains(x));
                let k = choose|k: int| 0 <= k < init.len() && init[k] == x;
                assert(pairs[k] == x);
            }
        }
    }
}

/// A beginning of an increasing sequence is increasing.
pub proof fn lemma_increasing_drop_last(items: Seq<Value>)
    requires
        is_increasing(items),
        items.len() >= 1,
    ensures
        is_increasing(items.drop_last()),
{
    let init = items.drop_last();
    assert forall|i: int, j: int| 0 <= i < j < init.len() implies #[trigger] value_order(
        init[i],
        init[j],
    ) == Order::Less by {
        assert(value_order(items[i], items[j]) == Order::Less);
    }
}

/// In an increasing sequence no value stands twice.
pub proof fn lemma_increasing_distinct(items: Seq<Value>, i: int, j: int)
    requires
        is_increasing(items),
        0 <= i < items.len(),
        0 <= j < items.len(),
        items[i] == items[j],
    ensures
        i == j,
{
    lemma_order_equal(items[i], items[j]);
    if i < j {
        assert(value_order(items[i], items[j]) == Order::Less);
    } else if j < i {
        assert(value_order(items[j], items[i]) == Order::Less);
        lemma_order_equal(items[j], items[i]);
    }
}

/// Two increasing sequences that hold the same values end with the same value.
proof fn lemma_same_last(x: Seq<Value>, y: Seq<Value>)
    requires
        is_increasing(x),
        is_increasing(y),
        x.len() >= 1,
        y.len() >= 1,
        forall|v: Value| x.contains(v) <==> y.contains(v),
    ensures
        x.last() == y.last(),
{
    let xl = x.last();
    let yl = y.last();
    assert(x[x.len() - 1] == xl);
    assert(y[y.len() - 1] == yl);
    assert(x.contains(xl));
    assert(y.contains(yl));
    assert(y.contains(xl));
    assert(x.contains(yl));
    let j = choose|j: int| 0 <= j < y.len() && y[j] == xl;
    let k = choose|k: int| 0 <= k < x.len() && x[k] == yl;
    if j < y.len() - 1 && k < x.len() - 1 {
        assert(value_order(y[j], y[y.len() - 1]) == Order::Less);
        assert(value_order(x[k], x[x.len() - 1]) == Order::Less);
        lemma_order_reverse(xl, yl);
    }
}

/// Two increasing sequences that hold the same values are one sequence.
pub proof fn lemma_increasing_unique(x: Seq<Value>, y: Seq<Value>)
    requires
        is_increasing(x),
        is_increasing(y),
        forall|v: Value| x.contains(v) <==> y.contains(v),
    ensures
        x == y,
    decreases x.len(),
{
    if x.len() == 0 {
        if y.len() > 0 {
            assert(y.contains(y[0]));
            assert(x.contains(y[0]));
        }
        assert(x =~= y);
    } else if y.len() == 0 {
        assert(x.contains(x[0]));
        assert(y.contains(x[0]));
    } else {
        lemma_same_last(x, y);
        let xi = x.drop_last();
        let yi = y.drop_last();
        lemma_increasing_drop_last(x);
        lemma_increasing_drop_last(y);
        assert forall|v: Value| xi.contains(v) <==> yi.contains(v) by {
            if xi.contains(v) {
                let i = choose|i: int| 0 <= i < xi.len() && xi[i] == v;
                assert(x[i] == v);
                assert(x.contains(v));
                assert(y.contains(v));
                let m = choose|m: int| 0 <= m < y.len() && y[m] == v;
                if m == y.len() - 1 {
                    assert(x[x.len() - 1] == v);
                    lemma_increasing_distinct(x, i, x.len() - 1);
                }
                assert(yi[m] == v);
            }
            if yi.contains(v) {
                let i = choose|i: int| 0 <= i < yi.len() && yi[i] == v;
                assert(y[i] == v);
                assert(y.contains(v));
                assert(x.contains(v));
                let m = choose|m: int| 0 <= m < x.len() && x[m] == v;
                if m == x.len() - 1 {
                    assert(y[y.len() - 1] == v);
                    lemma_increasing_distinct(y, i, y.len() - 1);
                }
                assert(xi[m] == v);
            }
        }
        lemma_increasing_unique(xi, yi);
        assert(x =~= xi.push(x.last()));
        assert(y =~= yi.push(y.last()));
    }
}

/// No two entries have one key.
pub open spec fn keys_distinct(pairs: Seq<(Value, Value)>) -> bool {
    forall|i: int, j: int|
        0 <= i < j < pairs.len() ==> (#[trigger] pairs[i]).0 != (#[trigger] pairs[j]).0
}

/// Where no entry has the key, putting an entry in keeps all that was held.
proof fn lemma_map_insert_keeps(entries: Seq<(Value, Value)>, key: Value, value: Value)
    requires
        forall|i: int| 0 <= i < entries.len() ==> (#[trigger] entries[i]).0 != key,
    ensures
        map_insert(entries, key, value).contains((key, value)),
        forall|x: (Value, Value)|
            entries.contains(x) ==> #[trigger] map_insert(entries, key, value).contains(x),
{
    let p = insertion_point(keys_of(entries), key, 0);
    lemma_insertion_point(keys_of(entries), key, 0);
    let r = map_insert(entries, key, value);
    assert(r == entries.insert(p, (key, value)));
    assert(r[p] == (key, value));
    assert forall|x: (Value, Value)| entries.contains(x) implies #[trigger] r.contains(x) by {
        let k = choose|k: int| 0 <= k < entries.len() && entries[k] == x;
        if k < p {
            assert(r[k] == x);
        } else {
            assert(r[k + 1] == x);
        }
    }
}

/// A map made of entries with distinct keys holds each of them.
pub proof fn lemma_map_of_keeps(pairs: Seq<(Value, Value)>)
    requires
        keys_distinct(pairs),
    ensures
        forall|x: (Value, Value)| pairs.contains(x) ==> #[trigger] map_of(pairs).contains(x),
    decreases pairs.len(),
{
    if pairs.len() > 0 {
        let init = pairs.drop_last();
        let last = pairs.last();
        assert(last == pairs[pairs.len() - 1]);
        assert(keys_distinct(init)) by {
            assert forall|i: int, j: int| 0 <= i < j < init.len() implies (#[trigger] init[i]).0 != (
            #[trigger] init[j]).0 by {
                assert(init[i] == pairs[i]);
                assert(init[j] == pairs[j]);
            }
        }
        lemma_map_of_keeps(init);
        lemma_map_of_members(init);
        let held = map_of(init);
        assert forall|i: int| 0 <= i < held.len() implies (#[trigger] held[i]).0 != last.0 by {
            assert(held.contains(held[i]));
            assert(init.contains(held[i]));
            let k = choose|k: int| 0 <= k < init.len() && init[k] == held[i];
            assert(pairs[k] == held[i]);
            assert(pairs[k].0 != pairs[pairs.len() - 1].0);
        }
        lemma_map_insert_keeps(held, last.0, last.1);
        assert forall|x: (Value, Value)| pairs.contains(x) implies #[trigger] map_of(
            pairs,
        ).contains(x) by {
            let k = choose|k: int| 0 <= k < pairs.len() && pairs[k] == x;
            if k < pairs.len() - 1 {
                assert(init[k] == x);
                assert(init.contains(x));
                assert(held.contains(x));
            }
        }
    }
}

/// Two sequences of entries with increasing keys that hold the same entries
/// end with the same entry.
proof fn lemma_same_last_entry(x: Seq<(Value, Value)>, y: Seq<(Value, Value)>)
    requires
        is_increasing(keys_of(x)),
        is_increasing(keys_of(y)),
        x.len() >= 1,
        y.len() >= 1,
        forall|e: (Value, Value)| x.contains(e) <==> y.contains(e),
    ensures
        x.last() == y.last(),
{
    let xl = x.last();
    let yl = y.last();
    let xk = keys_of(x);
    let yk = keys_of(y);
    assert(x[x.len() - 1] == xl);
    assert(y[y.len() - 1] == yl);
    assert(x.contains(xl));
    assert(y.contains(yl));
    assert(y.contains(xl));
    assert(x.contains(yl));
    let j = choose|j: int| 0 <= j < y.len() && y[j] == xl;
    let k = choose|k: int| 0 <= k < x.len() && x[k] == yl;
    if j < y.len() - 1 && k < x.len() - 1 {
        assert(value_order(yk[j], yk[y.len() - 1]) == Order::Less);
        assert(value_order(xk[k], xk[x.len() - 1]) == Order::Less);
        lemma_order_reverse(xl.0, yl.0);
    }
}

/// Two sequences of entries with increasing keys that hold the same entries
/// are one sequence.
pub proof fn lemma_entries_unique(x: Seq<(Value, Value)>, y: Seq<(Value, Value)>)
    requires
        is_increasing(keys_of(x)),
        is_increasing(keys_of(y)),
        forall|e: (Value, Value)| x.contains(e) <==> y.contains(e),
    ensures
        x == y,
    decreases x.len(),
{
    if x.len() == 0 {
        if y.len() > 0 {
            assert(y.contains(y[0]));
            assert(x.contains(y[0]));
        }
        assert(x =~= y);
    } else if y.len() == 0 {
        assert(x.contains(x[0]));
        assert(y.contains(x[0]));
    } else {
        lemma_same_last_entry(x, y);
        let xi = x.drop_last();
        let yi = y.drop_last();
        assert(keys_of(xi) =~= keys_of(x).drop_last());
        assert(keys_of(yi) =~= keys_of(y).drop_last());
        lemma_increasing_drop_last(keys_of(x));
        lemma_increasing_drop_last(keys_of(y));
        assert forall|e: (Value, Value)| xi.contains(e) <==> yi.contains(e) by {
            if xi.contains(e) {
                let i = choose|i: int| 0 <= i < xi.len() && xi[i] == e;
                assert(x[i] == e);
                assert(x.contains(e));
                assert(y.contains(e));
                let m = choose|m: int| 0 <= m < y.len() && y[m] == e;
                if m == y.len() - 1 {
                    assert(x[x.len() - 1] == e);
                    assert(keys_of(x)[i] == keys_of(x)[x.len() - 1]);
                    lemma_increasing_distinct(keys_of(x), i, x.len() - 1);
                }
                assert(yi[m] == e);
            }
            if yi.contains(e) {
                let i = choose|i: int| 0 <= i < yi.len() && yi[i] == e;
                assert(y[i] == e);
                assert(y.contains(e));
                assert(x.contains(e));
                let m = choose|m: int| 0 <= m < x.len() && x[m] == e;
                if m == x.len() - 1 {
                    assert(y[y.len() - 1] == e);
                    assert(keys_of(y)[i] == keys_of(y)[y.len() - 1]);
                    lemma_increasing_distinct(keys_of(y), i, y.len() - 1);
                }
                assert(xi[m] == e);
            }
        }
        lemma_entries_unique(xi, yi);
        assert(x =~= xi.push(x.last()));
        assert(y =~= yi.push(y.last()));
    }
}

/// Where all values from `i` up to `p` come before `v` and what stands at `p`
/// does not, `p` is the insertion point.
pub proof fn lemma_insertion_point_is(items: Seq<Value>, v: Value, i: int, p: int)
    requires
        0 <= i <= p <= items.len(),
        forall|j: int| i <= j < p ==> #[trigger] value_order(items[j], v) == Order::Less,
        p == items.len() || value_order(items[p], v) != Order::Less,
    ensures
        insertion_point(items, v, i) == p,
    decreases p - i,
{
    if i < p {
        assert(value_order(items[i], v) == Order::Less);
        lemma_insertion_point_is(items, v, i + 1, p);
    }
}

/// What comes before a value that does not come behind `v` comes before `v`.
proof fn lemma_before_place(items: Seq<Value>, v: Value, mid: int, j: int)
    requires
        is_increasing(items),
        0 <= j < mid < items.len(),
        value_order(items[mid], v) != Order::Greater,
    ensures
        value_order(items[j], v) == Order::Less,
{
    assert(value_order(items[j], items[mid]) == Order::Less);
    lemma_order_transitive(items[j], items[mid], v);
}

/// What comes behind a value that comes behind `v` comes behind `v`.
proof fn lemma_behind_place(items: Seq<Value>, v: Value, mid: int, j: int)
    requires
        is_increasing(items),
        0 <= mid <= j < items.len(),
        value_order(items[mid], v) == Order::Greater,
    ensures
        value_order(items[j], v) == Order::Greater,
{
    lemma_order_reverse(items[mid], v);
    if mid < j {
        assert(value_order(items[mid], items[j]) == Order::Less);
        lemma_order_transitive(v, items[mid], items[j]);
    }
    lemma_order_reverse(items[j], v);
}

/// Finds the place of `e` in a set, and whether `e` stands there.
fn find_member(items: &Vec<Expr>, e: &Expr) -> (r: (usize, bool))
    requires
        is_increasing(views(items@)),
    ensures
        r.0 <= items.len(),
        r.0 == insertion_point(views(items@), e@, 0),
        r.1 == (r.0 < items.len() && views(items@)[r.0 as int] == e@),
{
    let ghost all = views(items@);
    proof {
        lemma_views(items@);
    }
    let mut lo: usize = 0;
    let mut hi: usize = items.len();
    while lo < hi
        invariant
            lo <= hi <= items.len(),
            all == views(items@),
            all.len() == items@.len(),
            is_increasing(all),
            forall|j: int| 0 <= j < items@.len() ==> (#[trigger] all[j]) == items@[j]@,
            forall|j: int| 0 <= j < lo ==> #[trigger] value_order(all[j], e@) == Order::Less,
            forall|j: int| hi <= j < all.len() ==> #[trigger] value_order(all[j], e@) == Order::Greater,
        decreases hi - lo,
    {
        let mid = lo + (hi - lo) / 2;
        let o = items[mid].compare(e);
        if o.is_less() {
            proof {
                assert forall|j: int| 0 <= j < mid + 1 implies #[trigger] value_order(all[j], e@)
                    == Order::Less by {
                    if j < mid {
                        lemma_before_place(all, e@, mid as int, j);
                    }
                }
            }
            lo = mid + 1;
        } else if o.is_equal() {
            proof {
                lemma_order_equal(all[mid as int], e@);
                assert forall|j: int| 0 <= j < mid implies #[trigger] value_order(all[j], e@)
                    == Order::Less by {
                    lemma_before_place(all, e@, mid as int, j);
                }
                lemma_insertion_point_is(all, e@, 0, mid as int);
            }
            return (mid, true);
        } else {
            proof {
                assert forall|j: int| mid <= j < all.len() implies #[trigger] value_order(
                    all[j],
                    e@,
                ) == Order::Greater by {
                    lemma_behind_place(all, e@, mid as int, j);
                }
            }
            hi = mid;
        }
    }
    proof {
        if lo < items.len() {
            assert(value_order(all[lo as int], e@) == Order::Greater);
            lemma_order_equal(all[lo as int], e@);
        }
        lemma_insertion_point_is(all, e@, 0, lo as int);
    }
    (lo, false)
}

/// Finds the place of `key` in a map, and whether an entry with it stands there.
fn find_key(entries: &Vec<(Expr, Expr)>, key: &Expr) -> (r: (usize, bool))
    requires
        is_increasing(keys_of(entry_views(entries@))),
    ensures
        r.0 <= entries.len(),
        r.0 == insertion_point(keys_of(entry_views(entries@)), key@, 0),
        r.1 == (r.0 < entries.len() && entry_views(entries@)[r.0 as int].0 == key@),
{
    let ghost keys = keys_of(entry_views(entries@));
    proof {
        lemma_entry_views(entries@);
    }
    let mut lo: usize = 0;
    let mut hi: usize = entries.len();
    while lo < hi
        invariant
            lo <= hi <= entries.len(),
            keys == keys_of(entry_views(entries@)),
            keys.len() == entries@.len(),
            is_increasing(keys),
            forall|j: int| 0 <= j < entries@.len() ==> (#[trigger] keys[j]) == entries@[j].0@,
            forall|j: int| 0 <= j < lo ==> #[trigger] value_order(keys[j], key@) == Order::Less,
            forall|j: int|
                hi <= j < keys.len() ==> #[trigger] value_order(keys[j], key@) == Order::Greater,
        decreases hi - lo,
    {
        let mid = lo + (hi - lo) / 2;
        let o = entries[mid].0.compare(key);
        if o.is_less() {
            proof {
                assert forall|j: int| 0 <= j < mid + 1 implies #[trigger] value_order(
                    keys[j],
                    key@,
                ) == Order::Less by {
                    if j < mid {
                        lemma_before_place(keys, key@, mid as int, j);
                    }
                }
            }
            lo = mid + 1;
        } else if o.is_equal() {
            proof {
                lemma_order_equal(keys[mid as int], key@);
                assert forall|j: int| 0 <= j < mid implies #[trigger] value_order(keys[j], key@)
                    == Order::Less by {
                    lemma_before_place(keys, key@, mid as int, j);
                }
                lemma_insertion_point_is(keys, key@, 0, mid as int);
            }
            return (mid, true);
        } else {
            proof {
                assert forall|j: int| mid <= j < keys.len() implies #[trigger] value_order(
                    keys[j],
                    key@,
                ) == Order::Greater by {
                    lemma_behind_place(keys, key@, mid as int, j);
                }
            }
            hi = mid;
        }
    }
    proof {
        if lo < entries.len() {
            assert(value_order(keys[lo as int], key@) == Order::Greater);
            lemma_order_equal(keys[lo as int], key@);
        }
        lemma_insertion_point_is(keys, key@, 0, lo as int);
    }
    (lo, false)
}

/// Puts `e` into a set at its place, unless the set holds it already.
pub fn insert_member(items: &mut Vec<Expr>, e: Expr)
    requires
        is_increasing(views(old(items)@)),
    ensures
        views(final(items)@) == set_insert(views(old(items)@), e@),
        is_increasing(views(final(items)@)),
{
    let ghost before = views(items@);
    proof {
        lemma_views(items@);
        lemma_set_insert_increasing(before, e@);
    }
    let (place, found) = find_member(items, &e);
    if !found {
        items.insert(place, e);
        proof {
            lemma_views(items@);
            assert(views(items@) =~= before.insert(place as int, e@));
        }
    }
}

/// Puts an entry into a map at the place of its key; an entry with that key is replaced.
pub fn insert_entry(entries: &mut Vec<(Expr, Expr)>, key: Expr, value: Expr)
    requires
        is_increasing(keys_of(entry_views(old(entries)@))),
    ensures
        entry_views(final(entries)@) == map_insert(entry_views(old(entries)@), key@, value@),
        is_increasing(keys_of(entry_views(final(entries)@))),
{
    let ghost before = entry_views(entries@);
    proof {
        lemma_entry_views(entries@);
        lemma_map_insert_increasing(before, key@, value@);
    }
    let (place, found) = find_key(entries, &key);
    if found {
        entries.remove(place);
    }
    entries.insert(place, (key, value));
    proof {
        lemma_entry_views(entries@);
        if found {
            assert(entry_views(entries@) =~= before.update(place as int, (key@, value@)));
        } else {
            assert(entry_views(entries@) =~= before.insert(place as int, (key@, value@)));
        }
    }
}

/// The set of the given elements.
pub fn collect_set(elements: Vec<Expr>) -> (items: Vec<Expr>)
    ensures
        views(items@) == set_of(views(elements@)),
{
    let mut items: Vec<Expr> = Vec::new();
    let ghost all = views(elements@);
    proof {
        lemma_views(elements@);
        assert(views(items@) =~= set_of(all.take(0)));
    }
    for e in it: elements
        invariant
            all == views(it.seq()),
            all.len() == it.seq().len(),
            forall|j: int| 0 <= j < it.seq().len() ==> (#[trigger] all[j]) == it.seq()[j]@,
            views(items@) == set_of(all.take(it.index@)),
            is_increasing(views(items@)),
    {
        proof {
            let k = it.index@;
            assert(all.take(k + 1).drop_last() =~= all.take(k));
            assert(all.take(k + 1).last() == e@);
        }
        insert_member(&mut items, e);
    }
    proof {
        assert(all.take(all.len() as int) =~= all);
    }
    items
}

/// The map of the given entries; of two with one key the later stays.
pub fn collect_map(pairs: Vec<(Expr, Expr)>) -> (entries: Vec<(Expr, Expr)>)
    ensures
        entry_views(entries@) == map_of(entry_views(pairs@)),
{
    let mut entries: Vec<(Expr, Expr)> = Vec::new();
    let ghost all = entry_views(pairs@);
    proof {
        lemma_entry_views(pairs@);
        assert(entry_views(entries@) =~= map_of(all.take(0)));
    }
    for pair in it: pairs
        invariant
            all == entry_views(it.seq()),
            all.len() == it.seq().len(),
            forall|j: int|
                0 <= j < it.seq().len() ==> (#[trigger] all[j]) == (it.seq()[j].0@, it.seq()[j].1@),
            entry_views(entries@) == map_of(all.take(it.index@)),
            is_increasing(keys_of(entry_views(entries@))),
    {
        proof {
            let k = it.index@;
            assert(all.take(k + 1).drop_last() =~= all.take(k));
            assert(all.take(k + 1).last() == (pair.0@, pair.1@));
        }
        let (key, value) = pair;
        insert_entry(&mut entries, key, value);
    }
    proof {
        assert(all.take(all.len() as int) =~= all);
    }
    entries
}

impl Expr {
    /// The set of the given elements: each once, in the canonical order.
    pub fn sorted_set(elements: Vec<Expr>) -> (r: Expr)
        ensures
            r@ == Value::SortedSet(set_of(views(elements@))),
    {
        Expr::SortedSet(collect_set(elements))
    }

    /// The map of the given entries, in the canonical order of the keys; of
    /// two entries with one key the later stays.
    pub fn sorted_map(pairs: Vec<(Expr, Expr)>) -> (r: Expr)
        ensures
            r@ == Value::SortedMap(map_of(entry_views(pairs@))),
    {
        Expr::SortedMap(collect_map(pairs))
    }
}

} // verus!
