//! Shares of a whole, in percent, and how far rounding takes them from what they stand for.

use crate::bounds::{lemma_fraction, lemma_nonnegative, lemma_scaled, nonnegative};
use crate::double::{
    at_most, clamped, lemma_held, lemma_round_error, lemma_round_range, lemma_signed,
    lemma_units_order, lemma_units_zero, lemma_whole_exact, of_int, one_unit, product, quotient,
    round_mag, units_of, Double,
};
use vstd::arithmetic::power2::{lemma_pow2_adds, lemma_pow2_pos, pow2};
use vstd::prelude::*;

verus! {

/// Whether a number of units is at most `parts` of 2^53 away from a share of `whole`: from
/// `part` times 100 over `whole`.
pub open spec fn is_share(p: int, part: int, whole: int, parts: int) -> bool {
    let u = one_unit();
    &&& (p * whole - 100 * u * part) * 9007199254740992 <= parts * u * whole
    &&& (100 * u * part - p * whole) * 9007199254740992 <= parts * u * whole
}

/// The two roundings of a percentage, in whole numbers.
proof fn lemma_two_roundings(p: int, q: int, x: int, s: int, u: int)
    requires
        0 <= x <= s,
        0 < s,
        0 <= q,
        u >= 200 * 4503599627370496,
        (q * s - x * u) * 9007199254740992 <= x * u + 4503599627370496 * s,
        (x * u - q * s) * 9007199254740992 <= x * u + 4503599627370496 * s,
        (p - 100 * q) * 9007199254740992 <= 100 * q + 4503599627370496,
        (100 * q - p) * 9007199254740992 <= 100 * q + 4503599627370496,
    ensures
        (p * s - 100 * u * x) * 9007199254740992 <= 301 * u * s,
        (100 * u * x - p * s) * 9007199254740992 <= 301 * u * s,
{
    let (su, xu, qs) = (s * u, x * u, q * s);
    assert(xu <= su) by (nonlinear_arith)
        requires
            xu == x * u,
            su == s * u,
            x <= s,
            u >= 0,
    ;
    assert(su >= 200 * 4503599627370496 * s) by (nonlinear_arith)
        requires
            su == s * u,
            s > 0,
            u >= 200 * 4503599627370496,
    ;
    // what the quotient is at most
    assert(qs <= 2 * su);
    // the second rounding, over all
    let (e, f) = ((p - 100 * q) * s, (100 * q - p) * s);
    assert(e * 9007199254740992 <= 100 * qs + 4503599627370496 * s) by (nonlinear_arith)
        requires
            e == (p - 100 * q) * s,
            qs == q * s,
            (p - 100 * q) * 9007199254740992 <= 100 * q + 4503599627370496,
            s > 0,
    ;
    assert(f * 9007199254740992 <= 100 * qs + 4503599627370496 * s) by (nonlinear_arith)
        requires
            f == (100 * q - p) * s,
            qs == q * s,
            (100 * q - p) * 9007199254740992 <= 100 * q + 4503599627370496,
            s > 0,
    ;
    assert(p * s == e + 100 * qs) by (nonlinear_arith)
        requires
            e == (p - 100 * q) * s,
            qs == q * s,
    ;
    assert(f == -e) by (nonlinear_arith)
        requires
            e == (p - 100 * q) * s,
            f == (100 * q - p) * s,
    ;
    assert(100 * u * x == 100 * xu) by (nonlinear_arith)
        requires
            xu == x * u,
    ;
    assert(301 * u * s == 301 * su) by (nonlinear_arith)
        requires
            su == s * u,
    ;
}

/// A percentage of a whole, held between 0 and 100, is the share that it stands for, up to
/// rounding.
pub proof fn lemma_share(x: Double, whole: Double)
    requires
        nonnegative(x),
        at_most(x, whole),
        whole.is_finite(),
        whole.num() > 0,
    ensures
        ({
            let p = clamped(product(quotient(x, whole), of_int(100)), of_int(0), of_int(100));
            &&& p.is_finite()
            &&& 0 <= p.num() <= 100 * one_unit()
            &&& is_share(p.num(), x.num(), whole.num(), 301)
        }),
{
    let u = one_unit();
    let hundred = of_int(100);
    lemma_whole_exact(0);
    lemma_whole_exact(100);
    lemma_units_zero();
    lemma_nonnegative(x);
    lemma_nonnegative(whole);
    lemma_units_order(x.mag(), whole.mag());
    lemma_units_order(0, x.mag());
    lemma_units_order(0, whole.mag());
    lemma_large_unit();
    let (a, s) = (units_of(x.mag()), units_of(whole.mag()));
    assert(x.num() == a && whole.num() == s);
    lemma_fraction(x, whole);
    let q = quotient(x, whole);
    lemma_nonnegative(q);
    lemma_units_order(0, q.mag());
    let n = units_of(q.mag());
    assert(q.num() == n);
    let m = round_mag(a * u, s);
    lemma_round_range(a * u, s);
    lemma_signed(x.neg() != whole.neg(), m);
    assert(q.mag() == m);
    lemma_round_error(a * u, s);
    let v = n * (100 * u);
    let y = product(q, hundred);
    let c = round_mag(v, u);
    lemma_round_range(v, u);
    lemma_scaled(q, hundred);
    lemma_signed(q.neg() != hundred.neg(), c);
    assert(units_of(hundred.mag()) == 100 * u);
    assert(y.mag() == c);
    lemma_nonnegative(y);
    lemma_units_order(0, y.mag());
    lemma_round_error(v, u);
    let p = units_of(c);
    assert(y.num() == p);
    assert((p - 100 * n) * 9007199254740992 <= 100 * n + 4503599627370496
        && (100 * n - p) * 9007199254740992 <= 100 * n + 4503599627370496) by {
        assert(v == (100 * n) * u) by (nonlinear_arith)
            requires
                v == n * (100 * u),
        ;
        lemma_over_unit(p as int, 100 * n as int, u as int);
    }
    lemma_two_roundings(p as int, n as int, a as int, s as int, u as int);
    lemma_held(y, 100);
}

proof fn lemma_large_unit()
    ensures
        one_unit() >= 200 * 4503599627370496,
{
    vstd::arithmetic::power2::lemma2_to64();
    lemma_pow2_adds(64, 1010);
    lemma_pow2_pos(1010);
    let q = pow2(1010);
    assert(18446744073709551616 * q >= 18446744073709551616) by (nonlinear_arith)
        requires
            q >= 1,
    ;
}

/// The bound of a rounding by one unit, without the unit.
proof fn lemma_over_unit(p: int, w: int, u: int)
    requires
        u > 0,
        (p * u - w * u) * 9007199254740992 <= w * u + 4503599627370496 * u,
        (w * u - p * u) * 9007199254740992 <= w * u + 4503599627370496 * u,
    ensures
        (p - w) * 9007199254740992 <= w + 4503599627370496,
        (w - p) * 9007199254740992 <= w + 4503599627370496,
{
    assert((p - w) * 9007199254740992 <= w + 4503599627370496) by (nonlinear_arith)
        requires
            u > 0,
            (p * u - w * u) * 9007199254740992 <= w * u + 4503599627370496 * u,
    {
        assert((p * u - w * u) * 9007199254740992 == ((p - w) * 9007199254740992) * u);
        assert(w * u + 4503599627370496 * u == (w + 4503599627370496) * u);
    }
    assert((w - p) * 9007199254740992 <= w + 4503599627370496) by (nonlinear_arith)
        requires
            u > 0,
            (w * u - p * u) * 9007199254740992 <= w * u + 4503599627370496 * u,
    {
        assert((w * u - p * u) * 9007199254740992 == ((w - p) * 9007199254740992) * u);
        assert(w * u + 4503599627370496 * u == (w + 4503599627370496) * u);
    }
}

} // verus!
