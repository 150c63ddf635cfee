//! How numbers behave: where arithmetic is exact, and which way it goes.

use crate::bounds::{lemma_nonnegative, nonnegative};
use crate::double::{
    at_most, clamped, greater_of, lemma_round_exact, lemma_round_monotone, lemma_round_range,
    lemma_signed, lemma_units_order, lemma_units_zero, lemma_whole_exact, lesser_of, nearest,
    of_int, one_unit, product, quotient, round_mag, signed, sum, to_count, to_integer, total,
    units_of, Double, INF_MAG,
};
use vstd::arithmetic::power2::lemma_pow2_pos;
use vstd::prelude::*;

verus! {

/// Equal fractions round to the same magnitude.
proof fn lemma_round_same(n: nat, d: nat, m: nat, e: nat)
    requires
        d > 0,
        e > 0,
        n * e == m * d,
    ensures
        round_mag(n, d) == round_mag(m, e),
{
    lemma_round_monotone(n, d, m, e);
    lemma_round_monotone(m, e, n, d);
}

/// The units of a small whole number.
proof fn lemma_small(n: nat)
    requires
        n < 9007199254740992,
    ensures
        units_of(of_int(n as int).mag()) == n * one_unit(),
        of_int(n as int).mag() == round_mag(n * one_unit(), 1),
        of_int(n as int).is_finite(),
        !of_int(n as int).neg(),
        n > 0 ==> of_int(n as int).num() > 0,
        n > 0 ==> !of_int(n as int).is_zero(),
        n == 0 ==> of_int(n as int).is_zero(),
{
    lemma_whole_exact(n as int);
    lemma_pow2_pos(1074);
    lemma_round_range(n * one_unit(), 1);
    lemma_units_zero();
    assert(n > 0 ==> n * one_unit() > 0) by (nonlinear_arith)
        requires
            one_unit() > 0,
    ;
    lemma_units_order(0, of_int(n as int).mag());
    assert(n == 0 ==> n * one_unit() == 0) by (nonlinear_arith);
}

/// The product of small whole numbers is their product.
pub proof fn law_products_of_whole_numbers(a: nat, b: nat)
    requires
        a < 9007199254740992,
        b < 9007199254740992,
        a * b < 9007199254740992,
    ensures
        product(of_int(a as int), of_int(b as int)) == of_int((a * b) as int),
{
    let u = one_unit();
    lemma_pow2_pos(1074);
    lemma_small(a);
    lemma_small(b);
    lemma_small(a * b);
    assert((a * u) * (b * u) * 1 == ((a * b) * u) * u) by (nonlinear_arith);
    lemma_round_same((a * u) * (b * u), u, (a * b) * u, 1);
}

/// A whole number times another, over the other, is the first.
pub proof fn law_quotients_of_whole_numbers(a: nat, b: nat)
    requires
        a < 9007199254740992,
        0 < b < 9007199254740992,
        a * b < 9007199254740992,
    ensures
        quotient(of_int((a * b) as int), of_int(b as int)) == of_int(a as int),
{
    let u = one_unit();
    lemma_pow2_pos(1074);
    lemma_small(a);
    lemma_small(b);
    lemma_small(a * b);
    assert(b * u > 0) by (nonlinear_arith)
        requires
            b > 0,
            u > 0,
    ;
    assert(((a * b) * u) * u * 1 == (a * u) * (b * u)) by (nonlinear_arith);
    lemma_round_same(((a * b) * u) * u, b * u, a * u, 1);
}

/// The sum of small whole numbers is their sum.
pub proof fn law_sums_of_whole_numbers(a: nat, b: nat)
    requires
        a + b < 9007199254740992,
    ensures
        sum(of_int(a as int), of_int(b as int)) == of_int((a + b) as int),
{
    let u = one_unit();
    lemma_pow2_pos(1074);
    lemma_small(a);
    lemma_small(b);
    lemma_small(a + b);
    assert((a + b) * u == a * u + b * u) by (nonlinear_arith);
    if a + b == 0 {
        lemma_round_exact(0);
        lemma_units_zero();
    } else {
        assert((a + b) * u > 0) by (nonlinear_arith)
            requires
                a + b > 0,
                u > 0,
        ;
    }
}

/// The numbers of a list, added up.
pub open spec fn added(v: Seq<nat>) -> nat
    decreases v.len(),
{
    if v.len() == 0 {
        0
    } else {
        added(v.drop_last()) + v.last()
    }
}

/// The total of small whole numbers is what they add up to.
pub proof fn law_totals_of_whole_numbers(v: Seq<nat>)
    requires
        v.len() > 0,
        added(v) < 9007199254740992,
    ensures
        total(v.map_values(|n: nat| of_int(n as int))) == of_int(added(v) as int),
    decreases v.len(),
{
    let w = v.map_values(|n: nat| of_int(n as int));
    let head = v.drop_last();
    assert(w.drop_last() =~= head.map_values(|n: nat| of_int(n as int)));
    let n = v.last();
    if head.len() == 0 {
        lemma_small(n);
        lemma_signed(true, 0);
        lemma_units_zero();
        lemma_round_exact(0);
        assert(total(w.drop_last()) == signed(true, 0));
        assert(added(head) == 0);
        assert(total(w) == sum(signed(true, 0), of_int(n as int)));
        if n > 0 {
            let x = of_int(n as int);
            assert(x.num() == units_of(x.mag()));
        }
    } else {
        law_totals_of_whole_numbers(head);
        law_sums_of_whole_numbers(added(head), n);
    }
}

/// A number over 1 is the number.
pub proof fn law_over_one(x: Double)
    requires
        !x.is_nan(),
    ensures
        quotient(x, of_int(1)) == x,
        product(x, of_int(1)) == x,
{
    let u = one_unit();
    let a = units_of(x.mag());
    lemma_pow2_pos(1074);
    lemma_small(1);
    assert(1 * u == u);
    assert(a * u * 1 == a * u) by (nonlinear_arith);
    lemma_round_same(a * u, u, a, 1);
    lemma_round_exact(x.mag());
}

/// A number over itself is 1.
pub proof fn law_over_itself(x: Double)
    requires
        x.is_finite(),
        !x.is_zero(),
    ensures
        quotient(x, x) == of_int(1),
{
    let u = one_unit();
    let a = units_of(x.mag());
    lemma_pow2_pos(1074);
    lemma_small(1);
    lemma_units_zero();
    lemma_units_order(0, x.mag());
    assert(1 * u == u);
    assert(a * u * 1 == u * a) by (nonlinear_arith);
    lemma_round_same(a * u, a, u, 1);
}

/// The magnitudes of numbers that are not below zero are ordered as the numbers are.
proof fn lemma_ordered(a: Double, b: Double)
    requires
        nonnegative(a),
        at_most(a, b),
    ensures
        nonnegative(b),
        a.mag() <= b.mag(),
        units_of(a.mag()) <= units_of(b.mag()),
        a.num() == units_of(a.mag()),
        b.num() == units_of(b.mag()),
{
    lemma_nonnegative(a);
    lemma_nonnegative(b);
    lemma_units_zero();
    lemma_units_order(a.mag(), b.mag());
    lemma_units_order(b.mag(), a.mag());
    lemma_units_order(0, b.mag());
}

/// Numbers with ordered magnitudes, where neither is below zero.
proof fn lemma_in_order(a: Double, b: Double)
    requires
        a.mag() <= b.mag() <= INF_MAG,
        a.neg() ==> a.mag() == 0,
        b.neg() ==> b.mag() == 0,
    ensures
        at_most(a, b),
        nonnegative(a),
        nonnegative(b),
{
    lemma_units_zero();
    lemma_units_order(a.mag(), b.mag());
    lemma_nonnegative(a);
    lemma_nonnegative(b);
}

/// What the larger factor gives is no smaller.
pub proof fn law_products_grow(a: Double, b: Double, k: Double)
    requires
        nonnegative(a),
        at_most(a, b),
        k.is_finite(),
        k.num() > 0,
    ensures
        at_most(product(a, k), product(b, k)),
        nonnegative(product(a, k)),
{
    let u = one_unit();
    lemma_pow2_pos(1074);
    lemma_ordered(a, b);
    lemma_nonnegative(a);
    lemma_nonnegative(b);
    lemma_units_zero();
    let (x, y, z) = (units_of(a.mag()), units_of(b.mag()), units_of(k.mag()));
    assert(!k.neg() && !k.is_zero());
    let (m, n) = (round_mag(x * z, u), round_mag(y * z, u));
    assert(x * z * u <= y * z * u) by (nonlinear_arith)
        requires
            x <= y,
    ;
    lemma_round_monotone(x * z, u, y * z, u);
    lemma_round_range(x * z, u);
    lemma_round_range(y * z, u);
    lemma_round_zero(u);
    assert(x == 0 ==> x * z == 0) by (nonlinear_arith);
    assert(y == 0 ==> y * z == 0) by (nonlinear_arith);
    lemma_in_order(product(a, k), product(b, k));
}

proof fn lemma_round_zero(d: nat)
    requires
        d > 0,
    ensures
        round_mag(0, d) == 0,
{
    lemma_units_zero();
    lemma_round_exact(0);
    assert(0 * 1 == 0 * d) by (nonlinear_arith);
    lemma_round_same(0, d, 0, 1);
}

/// The larger number, divided, is no smaller.
pub proof fn law_quotients_grow(a: Double, b: Double, w: Double)
    requires
        nonnegative(a),
        at_most(a, b),
        w.is_finite(),
        w.num() > 0,
    ensures
        at_most(quotient(a, w), quotient(b, w)),
        nonnegative(quotient(a, w)),
{
    let u = one_unit();
    lemma_pow2_pos(1074);
    lemma_ordered(a, b);
    lemma_nonnegative(a);
    lemma_nonnegative(b);
    lemma_units_zero();
    let (x, y, z) = (units_of(a.mag()), units_of(b.mag()), units_of(w.mag()));
    assert(!w.neg() && !w.is_zero());
    assert((x * u) * z <= (y * u) * z) by (nonlinear_arith)
        requires
            x <= y,
    ;
    lemma_round_monotone(x * u, z, y * u, z);
    lemma_round_range(x * u, z);
    lemma_round_range(y * u, z);
    lemma_round_zero(z);
    assert(x == 0 ==> x * u == 0) by (nonlinear_arith);
    assert(y == 0 ==> y * u == 0) by (nonlinear_arith);
    lemma_in_order(quotient(a, w), quotient(b, w));
}

/// Divided by the larger number, a number is no larger.
pub proof fn law_quotients_shrink(a: Double, w: Double, x: Double)
    requires
        nonnegative(a),
        a.is_finite(),
        w.num() > 0,
        at_most(w, x),
        x.is_finite(),
    ensures
        at_most(quotient(a, x), quotient(a, w)),
        nonnegative(quotient(a, x)),
{
    let u = one_unit();
    lemma_pow2_pos(1074);
    lemma_nonnegative(a);
    lemma_nonnegative(w);
    lemma_ordered(w, x);
    lemma_units_zero();
    let (n, y, z) = (units_of(a.mag()), units_of(w.mag()), units_of(x.mag()));
    assert(w.is_finite());
    assert(!x.neg() && !x.is_zero() && !w.neg() && !w.is_zero());
    assert((n * u) * y <= (n * u) * z) by (nonlinear_arith)
        requires
            y <= z,
    ;
    lemma_round_monotone(n * u, z, n * u, y);
    lemma_round_range(n * u, z);
    lemma_round_range(n * u, y);
    lemma_round_zero(z);
    lemma_round_zero(y);
    assert(n == 0 ==> n * u == 0) by (nonlinear_arith);
    lemma_in_order(quotient(a, x), quotient(a, w));
}

/// Nothing, times or over a number, is nothing.
pub proof fn law_nothing_stays(a: Double, k: Double)
    requires
        a.num() == 0,
        k.is_finite(),
        k.num() > 0,
    ensures
        product(a, k).num() == 0,
        product(a, k).is_finite(),
        quotient(a, k).num() == 0,
        quotient(a, k).is_finite(),
{
    let u = one_unit();
    let z = units_of(k.mag());
    lemma_pow2_pos(1074);
    lemma_units_zero();
    lemma_units_order(0, a.mag());
    lemma_units_order(0, k.mag());
    lemma_round_zero(u);
    lemma_round_zero(z);
    assert(0 * z == 0) by (nonlinear_arith);
    assert(0 * u == 0) by (nonlinear_arith);
    lemma_signed(a.neg() != k.neg(), 0);
}

/// Holding between bounds keeps the order.
pub proof fn law_held_in_order(a: Double, b: Double, lo: Double, hi: Double)
    requires
        at_most(a, b),
        at_most(lo, hi),
    ensures
        at_most(clamped(a, lo, hi), clamped(b, lo, hi)),
{
}

/// The nearest whole number is at most half away; of two that are as near, it is the even one.
pub proof fn law_the_nearest_is_even_in_a_tie(n: nat, d: nat)
    requires
        d > 0,
    ensures
        2 * (nearest(n, d) * d - n) <= d,
        2 * (n - nearest(n, d) * d) <= d,
        2 * (nearest(n, d) * d - n) == d || 2 * (n - nearest(n, d) * d) == d ==> nearest(n, d) % 2
            == 0,
{
    let (q, r) = (n / d, n % d);
    vstd::arithmetic::div_mod::lemma_fundamental_div_mod(n as int, d as int);
    assert(d * q == q * d) by (nonlinear_arith);
    assert((q + 1) * d == q * d + d) by (nonlinear_arith);
}

/// A number as a count is cut to its whole part; below zero it is none.
pub proof fn law_counts_are_cut_to_the_whole(x: Double, n: nat)
    requires
        x.is_finite(),
        n * one_unit() <= units_of(x.mag()) < (n + 1) * one_unit(),
        n <= i64::MAX,
    ensures
        !x.neg() ==> to_count(x) == n && to_integer(x) == n,
        x.neg() ==> to_count(x) == 0 && to_integer(x) == -n,
{
    let u = one_unit();
    let a = units_of(x.mag());
    lemma_pow2_pos(1074);
    assert(a / u == n) by {
        assert((n + 1) * u == n * u + u) by (nonlinear_arith);
        assert(n * u == u * n) by (nonlinear_arith);
        vstd::arithmetic::div_mod::lemma_fundamental_div_mod_converse(
            a as int,
            u as int,
            n as int,
            a - n * u,
        );
    }
}

/// The greater of two numbers is one of them and at least each, the lesser one of them and at
/// most each; what is no number gives way.
pub proof fn law_the_greater_and_the_lesser(a: Double, b: Double)
    ensures
        !a.is_nan() && !b.is_nan() ==> (greater_of(a, b) == a || greater_of(a, b) == b) && at_most(
            a,
            greater_of(a, b),
        ) && at_most(b, greater_of(a, b)),
        !a.is_nan() && !b.is_nan() ==> (lesser_of(a, b) == a || lesser_of(a, b) == b) && at_most(
            lesser_of(a, b),
            a,
        ) && at_most(lesser_of(a, b), b),
        a.is_nan() && !b.is_nan() ==> greater_of(a, b) == b && lesser_of(a, b) == b,
        b.is_nan() ==> greater_of(a, b) == a && lesser_of(a, b) == a,
{
}

} // verus!
