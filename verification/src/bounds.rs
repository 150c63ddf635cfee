//! Bounds on what the operations of [`Double`] give.
//!
//! Rounding keeps order, so a part of a whole stays between nothing and the whole, and
//! the percentages that the reports show stay between 0 and 100.

use crate::double::{
    at_most, difference, greater_of, greatest, lemma_count_positive, lemma_round_exact,
    lemma_round_monotone, lemma_signed, lemma_units_order, lemma_units_zero, lemma_whole_exact,
    of_int, one_unit, product, quotient, round_mag, sum, total, units_of, Double, INF_MAG,
};
use vstd::arithmetic::power2::lemma_pow2_pos;
use vstd::prelude::*;

verus! {

/// A number that is not below zero.
pub open spec fn nonnegative(x: Double) -> bool {
    at_most(of_int(0), x)
}

pub proof fn lemma_nonnegative(x: Double)
    ensures
        nonnegative(x) == (!x.is_nan() && (!x.neg() || x.is_zero())),
        nonnegative(x) == (!x.is_nan() && x.num() >= 0),
{
    lemma_whole_exact(0);
    lemma_units_zero();
    lemma_units_order(0, x.mag());
}

/// A larger count is no smaller a number.
pub proof fn lemma_counts_increase(a: nat, b: nat)
    requires
        a <= b,
        0 < b <= u64::MAX,
    ensures
        at_most(of_int(a as int), of_int(b as int)),
        of_int(a as int).is_finite(),
        nonnegative(of_int(a as int)),
{
    let u = one_unit();
    lemma_count_positive(b);
    assert(a * u * 1 <= b * u * 1) by (nonlinear_arith)
        requires
            a <= b,
    ;
    lemma_round_monotone(a * u, 1, b * u, 1);
    lemma_units_order(round_mag(a * u, 1), round_mag(b * u, 1));
    lemma_signed(false, round_mag(a * u, 1));
    lemma_nonnegative(of_int(a as int));
}

/// A part over its whole is at most 1.
pub proof fn lemma_fraction(a: Double, b: Double)
    requires
        nonnegative(a),
        at_most(a, b),
        b.is_finite(),
        b.num() > 0,
    ensures
        quotient(a, b).is_finite(),
        nonnegative(quotient(a, b)),
        quotient(a, b).num() <= one_unit(),
{
    let u = one_unit();
    let (x, y) = (units_of(a.mag()), units_of(b.mag()));
    lemma_nonnegative(a);
    lemma_nonnegative(b);
    lemma_units_zero();
    lemma_units_order(a.mag(), b.mag());
    lemma_pow2_pos(1074);
    lemma_whole_exact(1);
    assert(x * u * 1 <= u * y) by (nonlinear_arith)
        requires
            x <= y,
    ;
    lemma_round_monotone(x * u, y, u, 1);
    let m = round_mag(x * u, y);
    assert(1 * u == u);
    lemma_units_order(m, round_mag(u, 1));
    lemma_signed(a.neg() != b.neg(), m);
    if a.neg() {
        // minus zero
        assert(x == 0);
        assert(0 * u == 0) by (nonlinear_arith);
        assert(0 * u * 1 <= 0 * y) by (nonlinear_arith);
        lemma_round_monotone(0, y, 0, 1);
        lemma_round_exact(0);
    }
    lemma_nonnegative(quotient(a, b));
}

/// A fraction of a number is at most the number.
pub proof fn lemma_scaled(q: Double, x: Double)
    requires
        nonnegative(q),
        q.is_finite(),
        q.num() <= one_unit(),
        nonnegative(x),
        x.is_finite(),
    ensures
        product(q, x).is_finite(),
        nonnegative(product(q, x)),
        at_most(product(q, x), x),
{
    let u = one_unit();
    let (a, b) = (units_of(q.mag()), units_of(x.mag()));
    lemma_nonnegative(q);
    lemma_nonnegative(x);
    lemma_units_zero();
    lemma_pow2_pos(1074);
    assert(a * b * 1 <= b * u) by (nonlinear_arith)
        requires
            a <= u,
    ;
    lemma_round_monotone(a * b, u, b, 1);
    lemma_round_exact(x.mag());
    let m = round_mag(a * b, u);
    lemma_units_order(m, x.mag());
    lemma_signed(q.neg() != x.neg(), m);
    if q.neg() || x.neg() {
        // minus zero
        assert(a * b == 0) by (nonlinear_arith)
            requires
                a == 0 || b == 0,
        ;
        assert(0 * 1 <= 0 * u) by (nonlinear_arith);
        lemma_round_monotone(0, u, 0, 1);
        lemma_round_exact(0);
    }
    lemma_nonnegative(product(q, x));
}

/// The order of two factors does not matter.
pub proof fn lemma_product_commutes(a: Double, b: Double)
    ensures
        product(a, b) == product(b, a),
{
    let (x, y) = (units_of(a.mag()), units_of(b.mag()));
    assert(x * y == y * x) by (nonlinear_arith);
}

/// What is left of a number after a part of it is taken is at most the number.
pub proof fn lemma_rest(x: Double, part: Double)
    requires
        x.is_finite(),
        nonnegative(part),
        at_most(part, x),
    ensures
        nonnegative(difference(x, part)),
        at_most(difference(x, part), x),
{
    lemma_nonnegative(part);
    lemma_nonnegative(x);
    lemma_units_zero();
    lemma_units_order(part.mag(), x.mag());
    lemma_signed(!part.neg(), part.mag());
    let n = crate::double::negated(part);
    let s = x.num() + n.num();
    assert(n.num() == -part.num());
    assert(0 <= s <= x.num());
    if s > 0 {
        lemma_round_monotone(s as nat, 1, units_of(x.mag()), 1);
        lemma_round_exact(x.mag());
        let m = round_mag(s as nat, 1);
        lemma_units_order(m, x.mag());
        lemma_signed(false, m);
    } else {
        lemma_signed(x.neg() && n.neg(), 0);
    }
    lemma_nonnegative(difference(x, part));
}

/// Numbers that are not below zero have a sum that is not.
pub proof fn lemma_sum_nonnegative(a: Double, b: Double)
    requires
        nonnegative(a),
        nonnegative(b),
    ensures
        nonnegative(sum(a, b)),
{
    lemma_nonnegative(a);
    lemma_nonnegative(b);
    lemma_units_zero();
    if a.is_finite() && b.is_finite() {
        let s = a.num() + b.num();
        if s > 0 {
            crate::double::lemma_round_range(s as nat, 1);
            lemma_signed(false, round_mag(s as nat, 1));
        } else {
            lemma_signed(a.neg() && b.neg(), 0);
        }
    }
    lemma_nonnegative(sum(a, b));
}

pub proof fn lemma_total_nonnegative(v: Seq<Double>)
    requires
        forall|i: int| 0 <= i < v.len() ==> nonnegative(#[trigger] v[i]),
    ensures
        nonnegative(total(v)),
    decreases v.len(),
{
    if v.len() == 0 {
        lemma_signed(true, 0);
        lemma_nonnegative(total(v));
    } else {
        assert forall|i: int| 0 <= i < v.drop_last().len() implies nonnegative(
            #[trigger] v.drop_last()[i],
        ) by {
            assert(v.drop_last()[i] == v[i]);
        }
        lemma_total_nonnegative(v.drop_last());
        assert(nonnegative(v[v.len() - 1]));
        lemma_sum_nonnegative(total(v.drop_last()), v.last());
    }
}

/// The mean of numbers that are not below zero is not.
pub proof fn lemma_mean_nonnegative(x: Double, n: nat)
    requires
        nonnegative(x),
        0 < n <= u64::MAX,
    ensures
        nonnegative(quotient(x, of_int(n as int))),
{
    let d = of_int(n as int);
    lemma_count_positive(n);
    lemma_nonnegative(x);
    lemma_units_zero();
    lemma_units_order(0, d.mag());
    if x.is_finite() {
        let a = units_of(x.mag()) * one_unit();
        let m = round_mag(a, units_of(d.mag()));
        crate::double::lemma_round_range(a, units_of(d.mag()));
        lemma_signed(x.neg() != d.neg(), m);
        if x.neg() {
            assert(a == 0) by (nonlinear_arith)
                requires
                    a == 0 * one_unit(),
            ;
            assert(0 * 1 <= 0 * units_of(d.mag())) by (nonlinear_arith);
            lemma_round_monotone(0, units_of(d.mag()), 0, 1);
            lemma_round_exact(0);
        }
    } else {
        lemma_signed(false, INF_MAG as nat);
    }
    lemma_nonnegative(quotient(x, d));
}

/// How far a number falls short of a greater one, in percent of that.
pub open spec fn shortfall(most: Double, mean: Double) -> Double {
    product(quotient(difference(most, mean), most), of_int(100))
}

/// A shortfall is at most 100 percent, and where it is not below zero it is one of
/// something.
pub proof fn lemma_shortfall(most: Double, mean: Double)
    requires
        most.is_finite(),
        most.num() > 0,
        nonnegative(mean),
    ensures
        at_most(shortfall(most, mean), of_int(100)),
        at_most(mean, most) ==> nonnegative(shortfall(most, mean)),
        nonnegative(greater_of(shortfall(most, mean), of_int(0))),
        at_most(greater_of(shortfall(most, mean), of_int(0)), of_int(100)),
{
    lemma_whole_exact(0);
    lemma_whole_exact(100);
    lemma_pow2_pos(1074);
    lemma_units_zero();
    lemma_nonnegative(most);
    lemma_nonnegative(mean);
    lemma_nonnegative(of_int(100));
    assert(100 * one_unit() > 0);
    if at_most(mean, most) {
        lemma_rest(most, mean);
        lemma_fraction(difference(most, mean), most);
        lemma_scaled(quotient(difference(most, mean), most), of_int(100));
    } else {
        lemma_below(most, mean);
    }
}

/// Where the mean is past the most, the shortfall is not above zero.
proof fn lemma_below(most: Double, mean: Double)
    requires
        most.is_finite(),
        most.num() > 0,
        nonnegative(mean),
        !at_most(mean, most),
    ensures
        !shortfall(most, mean).is_nan(),
        shortfall(most, mean).num() <= 0,
{
    lemma_whole_exact(100);
    lemma_pow2_pos(1074);
    lemma_units_zero();
    lemma_nonnegative(mean);
    lemma_nonnegative(most);
    lemma_units_order(0, most.mag());
    lemma_signed(!mean.neg(), mean.mag());
    let d = difference(most, mean);
    let s = most.num() - mean.num();
    assert(s < 0);
    if mean.is_finite() {
        crate::double::lemma_round_range((-s) as nat, 1);
        lemma_signed(true, round_mag((-s) as nat, 1));
    }
    assert(d.neg() && !d.is_nan());
    // a negative difference over a positive number
    let q = quotient(d, most);
    let n = units_of(d.mag()) * one_unit();
    crate::double::lemma_round_range(n, units_of(most.mag()));
    lemma_signed(true, round_mag(n, units_of(most.mag())));
    lemma_signed(true, INF_MAG as nat);
    assert(q.neg() && !q.is_nan());
    let m = units_of(q.mag()) * units_of(of_int(100).mag());
    crate::double::lemma_round_range(m, one_unit());
    lemma_signed(true, round_mag(m, one_unit()));
    lemma_units_order(0, of_int(100).mag());
    assert(100 * one_unit() > 0);
}

/// The greatest of numbers that are finite, from a finite start, is finite, and none of
/// them is above it.
pub proof fn lemma_greatest(start: Double, v: Seq<Double>, i: int)
    requires
        start.is_finite(),
        forall|k: int| 0 <= k < v.len() ==> (#[trigger] v[k]).is_finite(),
        0 <= i < v.len(),
    ensures
        greatest(start, v).is_finite(),
        at_most(v[i], greatest(start, v)),
        at_most(start, greatest(start, v)),
    decreases v.len(),
{
    let head = v.drop_last();
    assert(v[v.len() - 1] == v.last());
    assert forall|k: int| 0 <= k < head.len() implies (#[trigger] head[k]).is_finite() by {
        assert(head[k] == v[k]);
    }
    if i < head.len() {
        lemma_greatest(start, head, i);
        assert(head[i] == v[i]);
    } else if head.len() > 0 {
        lemma_greatest(start, head, 0);
    } else {
        assert(greatest(start, head) == start);
    }
}

} // verus!
