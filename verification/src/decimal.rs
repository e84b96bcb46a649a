//! The order of decimal numbers: by the numbers they denote.

use crate::digits::{
    all_digits, digits_value, is_canonical, lemma_first_difference, lemma_nat_digits,
    lemma_pow10_add, lemma_pow10_monotonic, lemma_pow10_positive, lemma_scale_keeps_order,
    lemma_value_lower_bound, lemma_value_padded, lemma_value_upper_bound, pow10, zeros,
};
use crate::number::{Decimal, DecimalValue};
use crate::order::{compare_flags, compare_i64, order_of, order_of_flags, Order};
use crate::text::{chars_of, is_digit};
use vstd::prelude::*;

verus! {

/// The coefficient with its sign.
pub open spec fn signed_coefficient(d: DecimalValue) -> int {
    if d.negative {
        -(d.coefficient as int)
    } else {
        d.coefficient as int
    }
}

/// How far one power of ten lies above the smaller of two.
pub open spec fn lift(e: int, f: int) -> nat {
    if e > f {
        (e - f) as nat
    } else {
        0
    }
}

/// The number that `d` denotes, as a multiple of ten to the `unit`, which is
/// at most the power of ten of `d`.
pub open spec fn scaled(d: DecimalValue, unit: int) -> int {
    signed_coefficient(d) * pow10((d.exponent - unit) as nat)
}

/// The order of the numbers that two decimal numbers denote.
pub open spec fn numeric_order(a: DecimalValue, b: DecimalValue) -> Order {
    order_of(
        signed_coefficient(a) * pow10(lift(a.exponent, b.exponent)),
        signed_coefficient(b) * pow10(lift(b.exponent, a.exponent)),
    )
}

/// The order of decimal numbers: by the numbers they denote; of two that
/// denote one number, the one with the smaller power of ten first, as `1.00`
/// before `1.0`; and of two zeros with one power of ten, the negative first.
pub open spec fn decimal_order(a: DecimalValue, b: DecimalValue) -> Order {
    numeric_order(a, b).then_with(order_of(a.exponent, b.exponent)).then_with(
        order_of_flags(b.negative, a.negative),
    )
}

/// The order of two numbers shows at any unit that is at most both powers of ten.
proof fn lemma_numeric_order_at(a: DecimalValue, b: DecimalValue, unit: int)
    requires
        unit <= a.exponent,
        unit <= b.exponent,
    ensures
        numeric_order(a, b) == order_of(scaled(a, unit), scaled(b, unit)),
{
    let low = if a.exponent < b.exponent {
        a.exponent
    } else {
        b.exponent
    };
    let pa = pow10(lift(a.exponent, b.exponent));
    let pb = pow10(lift(b.exponent, a.exponent));
    let p = pow10((low - unit) as nat);
    lemma_pow10_positive((low - unit) as nat);
    lemma_pow10_add(lift(a.exponent, b.exponent), (low - unit) as nat);
    lemma_pow10_add(lift(b.exponent, a.exponent), (low - unit) as nat);
    let sa = signed_coefficient(a);
    let sb = signed_coefficient(b);
    assert(scaled(a, unit) == (sa * pa) * p) by (nonlinear_arith)
        requires
            scaled(a, unit) == sa * (pa * p),
    ;
    assert(scaled(b, unit) == (sb * pb) * p) by (nonlinear_arith)
        requires
            scaled(b, unit) == sb * (pb * p),
    ;
    lemma_scale_keeps_order(sa * pa, sb * pb, p as int);
    lemma_scale_keeps_order(sb * pb, sa * pa, p as int);
}

/// Two decimal numbers compare equal exactly when they are the same.
pub proof fn lemma_decimal_order_equal(a: DecimalValue, b: DecimalValue)
    ensures
        decimal_order(a, b) == Order::Equal <==> a == b,
{
    if a.exponent == b.exponent {
        assert(pow10(0) == 1);
        assert(signed_coefficient(a) * 1 == signed_coefficient(a));
        assert(signed_coefficient(b) * 1 == signed_coefficient(b));
    }
}

/// Exchanging two decimal numbers reverses the outcome.
pub proof fn lemma_decimal_order_reverse(a: DecimalValue, b: DecimalValue)
    ensures
        decimal_order(b, a) == decimal_order(a, b).reverse(),
{
}

/// The order of decimal numbers is transitive.
pub proof fn lemma_decimal_order_transitive(a: DecimalValue, b: DecimalValue, c: DecimalValue)
    requires
        decimal_order(a, b) != Order::Greater,
        decimal_order(b, c) != Order::Greater,
    ensures
        decimal_order(a, c) != Order::Greater,
        decimal_order(a, b) == Order::Less || decimal_order(b, c) == Order::Less ==> decimal_order(
            a,
            c,
        ) == Order::Less,
{
    let ab = if a.exponent < b.exponent {
        a.exponent
    } else {
        b.exponent
    };
    let unit = if ab < c.exponent {
        ab
    } else {
        c.exponent
    };
    lemma_numeric_order_at(a, b, unit);
    lemma_numeric_order_at(b, c, unit);
    lemma_numeric_order_at(a, c, unit);
}

/// Compares the numbers that two digit strings denote when zeros are written
/// behind the one with the greater power of ten, to bring both to one unit.
fn compare_scaled(x: &Vec<char>, ex: i64, y: &Vec<char>, ey: i64) -> (r: Order)
    requires
        is_canonical(x@),
        is_canonical(y@),
        x@[0] != '0',
        y@[0] != '0',
    ensures
        r == order_of(
            (digits_value(x@) * pow10(lift(ex as int, ey as int))) as int,
            (digits_value(y@) * pow10(lift(ey as int, ex as int))) as int,
        ),
{
    let ghost px = x@ + zeros(lift(ex as int, ey as int));
    let ghost py = y@ + zeros(lift(ey as int, ex as int));
    proof {
        lemma_value_padded(x@, lift(ex as int, ey as int));
        lemma_value_padded(y@, lift(ey as int, ex as int));
        assert forall|i: int| 0 <= i < px.len() implies is_digit(#[trigger] px[i]) by {
            if i < x@.len() {
                assert(px[i] == x@[i]);
            }
        }
        assert forall|i: int| 0 <= i < py.len() implies is_digit(#[trigger] py[i]) by {
            if i < y@.len() {
                assert(py[i] == y@[i]);
            }
        }
        assert(px[0] == x@[0]);
        assert(py[0] == y@[0]);
        lemma_value_upper_bound(px);
        lemma_value_lower_bound(px);
        lemma_value_upper_bound(py);
        lemma_value_lower_bound(py);
    }
    let top_x: i128 = x.len() as i128 + ex as i128;
    let top_y: i128 = y.len() as i128 + ey as i128;
    assert(px.len() - py.len() == top_x - top_y);
    if top_x < top_y {
        proof {
            lemma_pow10_monotonic(px.len(), (py.len() - 1) as nat);
        }
        return Order::Less;
    }
    if top_x > top_y {
        proof {
            lemma_pow10_monotonic(py.len(), (px.len() - 1) as nat);
        }
        return Order::Greater;
    }
    let n = if x.len() > y.len() {
        x.len()
    } else {
        y.len()
    };
    let mut i: usize = 0;
    assert(px.subrange(0, 0) =~= py.subrange(0, 0));
    while i < n
        invariant
            i <= n,
            n == px.len(),
            n == py.len(),
            x.len() <= n,
            y.len() <= n,
            px == x@ + zeros(lift(ex as int, ey as int)),
            py == y@ + zeros(lift(ey as int, ex as int)),
            all_digits(px),
            all_digits(py),
            digits_value(px) == digits_value(x@) * pow10(lift(ex as int, ey as int)),
            digits_value(py) == digits_value(y@) * pow10(lift(ey as int, ex as int)),
            px.subrange(0, i as int) == py.subrange(0, i as int),
        decreases n - i,
    {
        let dx = if i < x.len() {
            x[i]
        } else {
            '0'
        };
        let dy = if i < y.len() {
            y[i]
        } else {
            '0'
        };
        assert(dx == px[i as int]);
        assert(dy == py[i as int]);
        if dx < dy {
            proof {
                lemma_first_difference(px, py, i as int);
            }
            return Order::Less;
        }
        if dx > dy {
            proof {
                lemma_first_difference(py, px, i as int);
            }
            return Order::Greater;
        }
        assert(px.subrange(0, i + 1) =~= px.subrange(0, i as int).push(px[i as int]));
        assert(py.subrange(0, i + 1) =~= py.subrange(0, i as int).push(py[i as int]));
        i += 1;
    }
    assert(px.subrange(0, n as int) =~= px);
    assert(py.subrange(0, n as int) =~= py);
    Order::Equal
}

/// Compares the numbers that two decimal numbers denote.
fn compare_numbers(a: &Decimal, b: &Decimal) -> (r: Order)
    ensures
        r == numeric_order(a@, b@),
{
    let x = chars_of(a.digits());
    let y = chars_of(b.digits());
    let ghost pa = pow10(lift(a@.exponent, b@.exponent));
    let ghost pb = pow10(lift(b@.exponent, a@.exponent));
    let ghost ca = a@.coefficient as int;
    let ghost cb = b@.coefficient as int;
    proof {
        lemma_nat_digits(a@.coefficient);
        lemma_nat_digits(b@.coefficient);
        lemma_pow10_positive(lift(a@.exponent, b@.exponent));
        lemma_pow10_positive(lift(b@.exponent, a@.exponent));
        assert(ca >= 1 ==> ca * pa >= 1) by (nonlinear_arith)
            requires
                pa >= 1,
        ;
        assert(cb >= 1 ==> cb * pb >= 1) by (nonlinear_arith)
            requires
                pb >= 1,
        ;
        assert((-ca) * pa == -(ca * pa)) by (nonlinear_arith);
        assert((-cb) * pb == -(cb * pb)) by (nonlinear_arith);
        assert(0 * pa == 0);
        assert(0 * pb == 0);
    }
    let zero_a = x.len() == 1 && x[0] == '0';
    let zero_b = y.len() == 1 && y[0] == '0';
    assert(zero_a == (ca == 0));
    assert(zero_b == (cb == 0));
    let class_a: i8 = if zero_a {
        0
    } else if a.is_negative() {
        -1
    } else {
        1
    };
    let class_b: i8 = if zero_b {
        0
    } else if b.is_negative() {
        -1
    } else {
        1
    };
    if class_a < class_b {
        return Order::Less;
    }
    if class_a > class_b {
        return Order::Greater;
    }
    if class_a == 0 {
        return Order::Equal;
    }
    let m = compare_scaled(&x, a.exponent(), &y, b.exponent());
    if class_a < 0 {
        m.reversed()
    } else {
        m
    }
}

/// Compares two decimal numbers.
pub fn compare_decimals(a: &Decimal, b: &Decimal) -> (r: Order)
    ensures
        r == decimal_order(a@, b@),
{
    let by_number = compare_numbers(a, b);
    if !by_number.is_equal() {
        return by_number;
    }
    let by_exponent = compare_i64(a.exponent(), b.exponent());
    if !by_exponent.is_equal() {
        return by_exponent;
    }
    compare_flags(b.is_negative(), a.is_negative())
}

} // verus!
