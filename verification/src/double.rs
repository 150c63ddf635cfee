//! IEEE 754 double-precision numbers, computed in integer arithmetic.
//!
//! A [`Double`] holds the 64 bits of a binary64 number. Every finite one is a whole
//! number of the smallest step, 2^-1074; [`units_of`] is that whole number for a
//! magnitude. The exact result of an operation is a ratio in these units, and
//! [`round_mag`] is the nearest magnitude, ties to even, so each operation gives bit
//! for bit what the hardware gives in its default rounding mode. Where an operation
//! has no number as its result, it gives [`NAN_BITS`].

use crate::natural::Natural;
use vstd::arithmetic::power2::{
    lemma2_to64, lemma_pow2_adds, lemma_pow2_pos, lemma_pow2_strictly_increases, lemma_pow2_unfold,
    pow2,
};
use vstd::prelude::*;

verus! {

/// 2^52: the magnitudes that share an exponent.
pub const TWO52: u64 = 4503599627370496;

/// The magnitude of infinity; a larger one is not a number.
pub const INF_MAG: u64 = 9218868437227405312;

/// The sign bit.
pub const SIGN: u64 = 9223372036854775808;

/// The bits of the not-a-number that operations give.
pub const NAN_BITS: u64 = 9221120237041090560;

/// A double-precision number, by its bits. `==` compares the bits; the numeric
/// comparisons are [`Double::lt`], [`Double::le`] and [`Double::same`].
#[derive(Clone, Copy, Debug, PartialEq, Eq, Structural)]
pub struct Double {
    pub bits: u64,
}

/// The significand of the magnitude `mag`.
pub open spec fn significand_of(mag: nat) -> nat {
    if mag < TWO52 {
        mag
    } else {
        TWO52 as nat + mag % (TWO52 as nat)
    }
}

/// The power of two, in units, that the significand of `mag` counts.
pub open spec fn shift_of(mag: nat) -> nat {
    if mag < TWO52 {
        0
    } else {
        (mag / (TWO52 as nat) - 1) as nat
    }
}

/// The magnitude `mag` in units of 2^-1074. Infinity comes out above every number.
pub open spec fn units_of(mag: nat) -> nat {
    significand_of(mag) * pow2(shift_of(mag))
}

/// The number 1 in units.
pub open spec fn one_unit() -> nat {
    pow2(1074)
}

/// How many bits `q` has beyond 53.
pub open spec fn excess(q: nat) -> nat
    decreases q,
{
    if q < 9007199254740992 {
        0
    } else {
        1 + excess(q / 2)
    }
}

/// `n / d` to the nearest whole number, ties to even.
pub open spec fn nearest(n: nat, d: nat) -> nat {
    let q = n / d;
    let r = n % d;
    if 2 * r < d || (2 * r == d && q % 2 == 0) {
        q
    } else {
        q + 1
    }
}

/// The magnitude nearest to `n / d` units, ties to even; infinity when out of range.
pub open spec fn round_mag(n: nat, d: nat) -> nat {
    let j = excess(n / d);
    let m = j * TWO52 as nat + nearest(n, d * pow2(j));
    if m < INF_MAG {
        m
    } else {
        INF_MAG as nat
    }
}

/// The number with this sign and magnitude.
pub open spec fn signed(neg: bool, mag: nat) -> Double {
    Double {
        bits: if neg {
            (SIGN + mag) as u64
        } else {
            mag as u64
        },
    }
}

/// The double nearest to `n / d` units, with a sign.
pub open spec fn rounded(neg: bool, n: nat, d: nat) -> Double {
    signed(neg, round_mag(n, d))
}

pub open spec fn nan() -> Double {
    Double { bits: NAN_BITS }
}

/// The double nearest to the whole number `x`.
pub open spec fn of_int(x: int) -> Double {
    rounded(x < 0, if x < 0 {
        (-x) as nat
    } else {
        x as nat
    } * one_unit(), 1)
}

/// `-a`.
pub open spec fn negated(a: Double) -> Double {
    signed(!a.neg(), a.mag())
}

/// `a + b`.
pub open spec fn sum(a: Double, b: Double) -> Double {
    if a.is_nan() || b.is_nan() {
        nan()
    } else if a.is_inf() {
        if b.is_inf() && a.neg() != b.neg() {
            nan()
        } else {
            a
        }
    } else if b.is_inf() {
        b
    } else {
        let s = a.num() + b.num();
        if s == 0 {
            signed(a.neg() && b.neg(), 0)
        } else if s < 0 {
            rounded(true, (-s) as nat, 1)
        } else {
            rounded(false, s as nat, 1)
        }
    }
}

/// `a - b`.
pub open spec fn difference(a: Double, b: Double) -> Double {
    sum(a, negated(b))
}

/// `a * b`.
pub open spec fn product(a: Double, b: Double) -> Double {
    let neg = a.neg() != b.neg();
    if a.is_nan() || b.is_nan() {
        nan()
    } else if a.is_inf() || b.is_inf() {
        if a.is_zero() || b.is_zero() {
            nan()
        } else {
            signed(neg, INF_MAG as nat)
        }
    } else {
        rounded(neg, units_of(a.mag()) * units_of(b.mag()), one_unit())
    }
}

/// `a / b`.
pub open spec fn quotient(a: Double, b: Double) -> Double {
    let neg = a.neg() != b.neg();
    if a.is_nan() || b.is_nan() || (a.is_inf() && b.is_inf()) || (a.is_zero() && b.is_zero()) {
        nan()
    } else if a.is_inf() || b.is_zero() {
        signed(neg, INF_MAG as nat)
    } else if b.is_inf() {
        signed(neg, 0)
    } else {
        rounded(neg, units_of(a.mag()) * one_unit(), units_of(b.mag()))
    }
}

/// `a < b`; false where either is not a number.
pub open spec fn less(a: Double, b: Double) -> bool {
    !a.is_nan() && !b.is_nan() && a.num() < b.num()
}

/// `a <= b`; false where either is not a number.
pub open spec fn at_most(a: Double, b: Double) -> bool {
    !a.is_nan() && !b.is_nan() && a.num() <= b.num()
}

/// The greater of two; a not-a-number gives way to the other.
pub open spec fn greater_of(a: Double, b: Double) -> Double {
    if b.is_nan() || less(b, a) {
        a
    } else {
        b
    }
}

/// The lesser of two; a not-a-number gives way to the other.
pub open spec fn lesser_of(a: Double, b: Double) -> Double {
    if b.is_nan() || less(a, b) {
        a
    } else {
        b
    }
}

/// `a` held between `lo` and `hi`.
pub open spec fn clamped(a: Double, lo: Double, hi: Double) -> Double {
    if less(a, lo) {
        lo
    } else if less(hi, a) {
        hi
    } else {
        a
    }
}

/// The numbers of a list, summed from the first to the last.
pub open spec fn total(v: Seq<Double>) -> Double
    decreases v.len(),
{
    if v.len() == 0 {
        signed(true, 0)
    } else {
        sum(total(v.drop_last()), v.last())
    }
}

/// The greatest of `start` and the numbers of a list.
pub open spec fn greatest(start: Double, v: Seq<Double>) -> Double
    decreases v.len(),
{
    if v.len() == 0 {
        start
    } else {
        greater_of(greatest(start, v.drop_last()), v.last())
    }
}

/// The whole part of the magnitude.
pub open spec fn whole_part(a: Double) -> nat {
    units_of(a.mag()) / one_unit()
}

/// The whole part as a 64-bit count, as `as u64` gives it: 0 below zero and for a
/// not-a-number, the largest count where it does not fit.
pub open spec fn to_count(a: Double) -> u64 {
    if a.is_nan() || a.neg() {
        0
    } else if whole_part(a) > u64::MAX {
        u64::MAX
    } else {
        whole_part(a) as u64
    }
}

/// The whole part as a signed 64-bit number, as `as i64` gives it.
pub open spec fn to_integer(a: Double) -> i64 {
    if a.is_nan() {
        0
    } else if a.neg() {
        if whole_part(a) > -(i64::MIN as int) {
            i64::MIN
        } else {
            (-(whole_part(a) as int)) as i64
        }
    } else if whole_part(a) > i64::MAX {
        i64::MAX
    } else {
        whole_part(a) as i64
    }
}

impl Double {
    /// Whether the sign bit is set.
    pub open spec fn neg(self) -> bool {
        self.bits >= SIGN
    }

    /// The bits without the sign.
    pub open spec fn mag(self) -> nat {
        if self.bits >= SIGN {
            (self.bits - SIGN) as nat
        } else {
            self.bits as nat
        }
    }

    pub open spec fn is_nan(self) -> bool {
        self.mag() > INF_MAG
    }

    pub open spec fn is_inf(self) -> bool {
        self.mag() == INF_MAG
    }

    pub open spec fn is_finite(self) -> bool {
        self.mag() < INF_MAG
    }

    pub open spec fn is_zero(self) -> bool {
        self.mag() == 0
    }

    /// The number in units of 2^-1074.
    pub open spec fn num(self) -> int {
        if self.neg() {
            -(units_of(self.mag()) as int)
        } else {
            units_of(self.mag()) as int
        }
    }
}

// ------------------------------------------------------------------ lemmas

proof fn lemma_two53()
    ensures
        pow2(52) == TWO52,
        pow2(53) == 9007199254740992,
        pow2(0) == 1,
        pow2(1) == 2,
{
    lemma2_to64();
    lemma_pow2_unfold(53);
    assert(pow2(52) == TWO52) by {
        lemma_pow2_adds(26, 26);
        assert(67108864 * 67108864 == TWO52) by (nonlinear_arith);
    }
}

/// `excess` is the place of the leading bit.
proof fn lemma_excess(q: nat)
    ensures
        q < pow2(53 + excess(q)),
        excess(q) > 0 ==> q >= pow2(52 + excess(q)),
    decreases q,
{
    lemma_two53();
    if q >= 9007199254740992 {
        lemma_excess(q / 2);
        lemma_pow2_unfold(53 + excess(q));
        lemma_pow2_unfold(52 + excess(q));
    }
}

proof fn lemma_excess_unique(q: nat, j: nat)
    requires
        q < pow2(53 + j),
        j > 0 ==> q >= pow2(52 + j),
    ensures
        excess(q) == j,
{
    lemma_excess(q);
    let e = excess(q);
    if e < j {
        if 53 + e < 52 + j {
            lemma_pow2_strictly_increases(53 + e, 52 + j);
        }
    }
    if j < e {
        if 53 + j < 52 + e {
            lemma_pow2_strictly_increases(53 + j, 52 + e);
        }
    }
}

proof fn lemma_shift(mag: nat)
    ensures
        mag < TWO52 ==> significand_of(mag) == mag && shift_of(mag) == 0,
        mag >= TWO52 ==> TWO52 <= significand_of(mag) < 2 * TWO52 && mag == (shift_of(mag) + 1)
            * TWO52 + (significand_of(mag) - TWO52),
        mag == shift_of(mag) * TWO52 as nat + significand_of(mag),
{
    if mag >= TWO52 {
        assert(mag == (mag / (TWO52 as nat)) * (TWO52 as nat) + mag % (TWO52 as nat));
    }
}

/// A larger magnitude is a larger number.
pub proof fn lemma_units_increase(a: nat, b: nat)
    requires
        a < b,
    ensures
        units_of(a) < units_of(b),
{
    lemma_shift(a);
    lemma_shift(b);
    lemma_two53();
    let (sa, sb) = (shift_of(a), shift_of(b));
    let (ma, mb) = (significand_of(a), significand_of(b));
    lemma_pow2_pos(sa);
    if sa == sb {
        assert(ma < mb);
        assert(ma * pow2(sa) < mb * pow2(sa)) by (nonlinear_arith)
            requires
                ma < mb,
                pow2(sa) > 0,
        ;
    } else {
        assert(sa < sb) by {
            if sb < sa {
                assert((sb + 1) * TWO52 <= sa * TWO52);
            }
        }
        let k = (sb - sa - 1) as nat;
        lemma_pow2_adds(sa, 1);
        lemma_pow2_adds(sa + 1, k);
        lemma_pow2_pos(k);
        let p = pow2(sa);
        assert(ma * p < (2 * TWO52) * p) by (nonlinear_arith)
            requires
                ma < 2 * TWO52,
                p > 0,
        ;
        assert(mb * (p * 2 * pow2(k)) >= (2 * TWO52) * p) by (nonlinear_arith)
            requires
                mb >= TWO52,
                p > 0,
                pow2(k) > 0,
        ;
    }
}

pub proof fn lemma_units_order(a: nat, b: nat)
    ensures
        (a < b) == (units_of(a) < units_of(b)),
        (a == b) == (units_of(a) == units_of(b)),
{
    if a < b {
        lemma_units_increase(a, b);
    }
    if b < a {
        lemma_units_increase(b, a);
    }
}

/// Rounding leaves a number that a double can hold as it is.
pub proof fn lemma_round_exact(mag: nat)
    requires
        mag <= INF_MAG,
    ensures
        round_mag(units_of(mag), 1) == mag,
{
    lemma_shift(mag);
    lemma_two53();
    let j = shift_of(mag);
    let m = significand_of(mag);
    let p = pow2(j);
    lemma_pow2_pos(j);
    lemma_pow2_adds(53, j);
    lemma_pow2_adds(52, j);
    let u = m * p;
    assert(u < 9007199254740992 * p) by (nonlinear_arith)
        requires
            u == m * p,
            m < 9007199254740992,
            p > 0,
    ;
    if j > 0 {
        assert(u >= TWO52 * p) by (nonlinear_arith)
            requires
                u == m * p,
                m >= TWO52,
                p > 0,
        ;
    }
    lemma_excess_unique(u, j);
    assert(u / 1 == u);
    assert(1 * p == p);
    vstd::arithmetic::div_mod::lemma_div_multiples_vanish(m as int, p as int);
    vstd::arithmetic::div_mod::lemma_mod_multiples_basic(m as int, p as int);
    assert(p as int * m as int == m * p) by (nonlinear_arith);
    assert(u / p == m && u % p == 0);
}

pub proof fn lemma_signed(neg: bool, mag: nat)
    requires
        mag < SIGN,
    ensures
        signed(neg, mag).neg() == neg,
        signed(neg, mag).mag() == mag,
{
}

pub proof fn lemma_round_range(n: nat, d: nat)
    ensures
        round_mag(n, d) <= INF_MAG,
{
}

proof fn lemma_nearest_monotone(n: nat, d: nat, m: nat, e: nat)
    requires
        d > 0,
        e > 0,
        n * e <= m * d,
    ensures
        n / d <= m / e,
        nearest(n, d) <= nearest(m, e),
{
    let (q, r) = (n / d, n % d);
    let (p, s) = (m / e, m % e);
    vstd::arithmetic::div_mod::lemma_fundamental_div_mod(n as int, d as int);
    vstd::arithmetic::div_mod::lemma_fundamental_div_mod(m as int, e as int);
    assert(q <= p) by (nonlinear_arith)
        requires
            n == d * q + r,
            m == e * p + s,
            s < e,
            n * e <= m * d,
            d > 0,
            e > 0,
    ;
    if q == p {
        assert(r * e <= s * d) by (nonlinear_arith)
            requires
                n == d * q + r,
                m == e * q + s,
                n * e <= m * d,
        ;
        assert(2 * r > d ==> 2 * s > e) by (nonlinear_arith)
            requires
                r * e <= s * d,
                d > 0,
                e > 0,
        ;
        assert(2 * r == d ==> 2 * s >= e) by (nonlinear_arith)
            requires
                r * e <= s * d,
                d > 0,
                e > 0,
        ;
    }
}

/// Rounding keeps the order: of two ratios, the lesser does not round to more.
pub proof fn lemma_round_monotone(n: nat, d: nat, m: nat, e: nat)
    requires
        d > 0,
        e > 0,
        n * e <= m * d,
    ensures
        round_mag(n, d) <= round_mag(m, e),
{
    lemma_nearest_monotone(n, d, m, e);
    let (q, p) = (n / d, m / e);
    let (j, k) = (excess(q), excess(p));
    lemma_excess(q);
    lemma_excess(p);
    lemma_nearest_normal(n, d);
    lemma_nearest_normal(m, e);
    if j > k && 53 + k < 52 + j {
        lemma_pow2_strictly_increases(53 + k, 52 + j);
    }
    if j == k {
        lemma_pow2_pos(j);
        let w = pow2(j);
        assert(d * w > 0 && e * w > 0) by (nonlinear_arith)
            requires
                d > 0,
                e > 0,
                w > 0,
        ;
        assert(n * (e * w) <= m * (d * w)) by (nonlinear_arith)
            requires
                n * e <= m * d,
        ;
        lemma_nearest_monotone(n, d * w, m, e * w);
    } else {
        assert((j + 2) * TWO52 <= (k + 1) * TWO52) by (nonlinear_arith)
            requires
                j + 1 <= k,
        ;
        assert((j + 2) * TWO52 == j * TWO52 + 2 * TWO52) by (nonlinear_arith);
        assert((k + 1) * TWO52 == k * TWO52 + TWO52) by (nonlinear_arith);
    }
}

/// A magnitude above zero is a number above zero.
pub proof fn lemma_units_positive(mag: nat)
    requires
        mag > 0,
    ensures
        units_of(mag) > 0,
{
    lemma_units_zero();
    lemma_units_increase(0, mag);
}

/// Twice a number rounds to more than it.
pub proof fn lemma_double_rounds_up(mag: nat)
    requires
        0 < mag < INF_MAG,
    ensures
        round_mag(2 * units_of(mag), 1) > mag,
{
    lemma_shift(mag);
    lemma_shift(mag + 1);
    lemma_two53();
    let (s, k) = (significand_of(mag), shift_of(mag));
    let p = pow2(k);
    lemma_pow2_pos(k);
    assert(units_of(mag + 1) == (s + 1) * p) by {
        if mag + 1 >= TWO52 && shift_of(mag + 1) != k {
            let kk = shift_of(mag + 1);
            if mag >= TWO52 {
                assert((mag + 1) / (TWO52 as nat) == mag / (TWO52 as nat) + 1);
                lemma_pow2_unfold(kk);
                assert(TWO52 as nat * (2 * p) == (s + 1) * p) by (nonlinear_arith)
                    requires
                        s + 1 == 2 * TWO52,
                ;
            }
        }
    }
    assert((s + 1) * p <= 2 * (s * p)) by (nonlinear_arith)
        requires
            s >= 1,
    ;
    lemma_round_exact(mag + 1);
    lemma_round_monotone(units_of(mag + 1), 1, 2 * units_of(mag), 1);
}

/// What fits in 53 bits, times a power of two, is a double.
pub proof fn lemma_representable(m: nat, j: nat)
    requires
        m < 9007199254740992,
        round_mag(m * pow2(j), 1) < INF_MAG,
    ensures
        units_of(round_mag(m * pow2(j), 1)) == m * pow2(j),
{
    lemma_two53();
    let n = m * pow2(j);
    let e = excess(n);
    lemma_excess(n);
    lemma_pow2_adds(53, j);
    lemma_pow2_pos(j);
    assert(n / 1 == n);
    if m == 0 {
        assert(n == 0);
        lemma_units_zero();
        return ;
    }
    assert(n < 9007199254740992 * pow2(j)) by (nonlinear_arith)
        requires
            n == m * pow2(j),
            m < 9007199254740992,
            pow2(j) > 0,
    ;
    assert(e <= j) by {
        if e > j {
            if 53 + j < 52 + e {
                lemma_pow2_strictly_increases(53 + j, 52 + e);
            }
        }
    }
    let k = (j - e) as nat;
    let q = m * pow2(k);
    let p = pow2(e);
    lemma_pow2_adds(k, e);
    lemma_pow2_pos(e);
    assert(n == q * p) by (nonlinear_arith)
        requires
            n == m * pow2(j),
            pow2(j) == pow2(k) * p,
            q == m * pow2(k),
    ;
    assert(1 * p == p);
    vstd::arithmetic::div_mod::lemma_fundamental_div_mod_converse(n as int, p as int, q as int, 0);
    lemma_nearest_normal(n, 1);
    lemma_pow2_adds(53, e);
    assert(q < 9007199254740992) by (nonlinear_arith)
        requires
            q * p < 9007199254740992 * p,
            p > 0,
    ;
    let mag = e * TWO52 as nat + q;
    lemma_shift(mag);
    if e > 0 {
        assert(mag / (TWO52 as nat) == e + 1) by {
            vstd::arithmetic::div_mod::lemma_fundamental_div_mod_converse(
                mag as int,
                TWO52 as int,
                e as int + 1,
                q - TWO52,
            );
        }
    } else if q >= TWO52 {
        assert(mag / (TWO52 as nat) == 1);
    }
}

/// What fits in 53 bits, times a power of two of up to 1992 bits, is not infinite.
pub proof fn lemma_within_range(m: nat, j: nat)
    requires
        m < 9007199254740992,
        j <= 1992,
    ensures
        round_mag(m * pow2(j), 1) < INF_MAG,
{
    let n = m * pow2(j);
    let top = (INF_MAG - 1) as nat;
    lemma_two53();
    lemma_shift(top);
    lemma_pow2_adds(53, j);
    lemma_pow2_pos(j);
    assert(top / (TWO52 as nat) == 2046);
    let s = significand_of(top);
    assert(pow2(53 + j) <= pow2(2045)) by {
        if 53 + j < 2045 {
            lemma_pow2_strictly_increases(53 + j, 2045);
        }
    }
    assert(n <= pow2(53 + j)) by (nonlinear_arith)
        requires
            n == m * pow2(j),
            m < 9007199254740992,
            pow2(53 + j) == 9007199254740992 * pow2(j),
            pow2(j) > 0,
    ;
    assert(pow2(2045) <= s * pow2(2045)) by (nonlinear_arith)
        requires
            s >= 1,
            pow2(2045) >= 0,
    ;
    assert(n * 1 <= units_of(top) * 1);
    lemma_round_monotone(n, 1, units_of(top), 1);
    lemma_round_exact(top);
}

/// The units of a significand of up to 53 bits, times a power of two.
proof fn lemma_units_at(j: nat, k: nat)
    requires
        k <= 9007199254740992,
        j > 0 ==> k >= TWO52,
    ensures
        units_of(j * TWO52 as nat + k) == k * pow2(j),
{
    let mag = j * TWO52 as nat + k;
    lemma_two53();
    lemma_shift(mag);
    if k == 9007199254740992 {
        lemma_pow2_unfold(j + 1);
        vstd::arithmetic::div_mod::lemma_fundamental_div_mod_converse(
            mag as int,
            TWO52 as int,
            j as int + 2,
            0,
        );
        assert(TWO52 as nat * (2 * pow2(j)) == 9007199254740992 * pow2(j)) by (nonlinear_arith);
    } else if k >= TWO52 {
        vstd::arithmetic::div_mod::lemma_fundamental_div_mod_converse(
            mag as int,
            TWO52 as int,
            j as int + 1,
            k - TWO52,
        );
    }
}

/// A rounded number is off by at most 2^-53 of the number, or half the smallest step.
pub proof fn lemma_round_error(n: nat, d: nat)
    requires
        d > 0,
        round_mag(n, d) < INF_MAG,
    ensures
        (units_of(round_mag(n, d)) * d - n) * 9007199254740992 <= n + TWO52 * d,
        (n - units_of(round_mag(n, d)) * d) * 9007199254740992 <= n + TWO52 * d,
        n / d >= 9007199254740992 ==> (units_of(round_mag(n, d)) * d - n) * 9007199254740992 <= n
            && (n - units_of(round_mag(n, d)) * d) * 9007199254740992 <= n,
{
    let q = n / d;
    let j = excess(q);
    let p = pow2(j);
    let w = d * p;
    let k = nearest(n, w);
    lemma_two53();
    lemma_excess(q);
    lemma_pow2_pos(j);
    assert(w > 0) by (nonlinear_arith)
        requires
            w == d * p,
            d > 0,
            p > 0,
    ;
    lemma_nearest_normal(n, d);
    lemma_units_at(j, k);
    vstd::arithmetic::div_mod::lemma_fundamental_div_mod(n as int, w as int);
    vstd::arithmetic::div_mod::lemma_mod_bound(n as int, w as int);
    let (a, r) = (n / w, n % w);
    assert(2 * (k * w - n) <= w && 2 * (n - k * w) <= w) by {
        assert(n == w * a + r);
        assert((a + 1) * w == w * a + w) by (nonlinear_arith);
        assert(a * w == w * a) by (nonlinear_arith);
    }
    assert((k * p) * d == k * w) by (nonlinear_arith)
        requires
            w == d * p,
    ;
    let e = units_of(round_mag(n, d)) * d - n;
    assert(e == k * w - n);
    if j == 0 {
        assert(w == d) by {
            assert(d * 1 == d);
        }
    } else {
        lemma_pow2_adds(52, j);
        vstd::arithmetic::div_mod::lemma_fundamental_div_mod(n as int, d as int);
        vstd::arithmetic::div_mod::lemma_mod_bound(n as int, d as int);
        assert(w * TWO52 <= n) by (nonlinear_arith)
            requires
                w == d * p,
                q >= TWO52 * p,
                n >= d * q,
        {
            assert(d * q >= d * (TWO52 * p));
            assert(d * (TWO52 * p) == (d * p) * TWO52);
        }
    }
}

/// A ratio that falls short of a whole number `k` of steps `w` by less than half a step has
/// that number as its nearest.
proof fn lemma_nearest_below(n: nat, w: nat, k: nat)
    requires
        w > 0,
        n <= k * w,
        2 * (k * w - n) < w,
    ensures
        nearest(n, w) == k,
{
    if n == k * w {
        vstd::arithmetic::div_mod::lemma_fundamental_div_mod_converse(
            n as int,
            w as int,
            k as int,
            0,
        );
    } else {
        assert(k >= 1) by (nonlinear_arith)
            requires
                n < k * w,
        ;
        assert((k - 1) * w == k * w - w) by (nonlinear_arith);
        vstd::arithmetic::div_mod::lemma_fundamental_div_mod_converse(
            n as int,
            w as int,
            k - 1,
            n - (k - 1) * w,
        );
    }
}

/// A ratio that falls short of a double by at most 2^-58 of it rounds to the double.
pub proof fn lemma_just_below(n: nat, d: nat, mag: nat)
    requires
        0 < mag < INF_MAG,
        d > 0,
        n <= units_of(mag) * d,
        (units_of(mag) * d - n) * 288230376151711744 <= units_of(mag) * d,
    ensures
        round_mag(n, d) == mag,
{
    lemma_two53();
    lemma_shift(mag);
    let (s, t) = (significand_of(mag), shift_of(mag));
    let p = pow2(t);
    let w = d * p;
    let u = units_of(mag);
    let gap = u * d - n;
    lemma_pow2_pos(t);
    lemma_pow2_adds(52, t);
    lemma_pow2_adds(53, t);
    assert(w > 0) by (nonlinear_arith)
        requires
            w == d * p,
            d > 0,
            p > 0,
    ;
    assert(u * d == s * w) by (nonlinear_arith)
        requires
            u == s * p,
            w == d * p,
    ;
    assert(s * w <= 9007199254740992 * w) by (nonlinear_arith)
        requires
            s <= 9007199254740992,
            w > 0,
    ;
    assert(32 * gap <= w);
    let q = n / d;
    vstd::arithmetic::div_mod::lemma_fundamental_div_mod(n as int, d as int);
    vstd::arithmetic::div_mod::lemma_mod_bound(n as int, d as int);
    assert(q <= u) by (nonlinear_arith)
        requires
            d * q <= n,
            n <= u * d,
            d > 0,
    ;
    assert(u < pow2(53 + t)) by (nonlinear_arith)
        requires
            u == s * p,
            s < 9007199254740992,
            pow2(53 + t) == 9007199254740992 * p,
            p > 0,
    ;
    if t == 0 || s > TWO52 || gap == 0 {
        if t > 0 {
            assert(q >= pow2(52 + t)) by {
                if s > TWO52 {
                    assert((s - 1) * p >= TWO52 * p) by (nonlinear_arith)
                        requires
                            s - 1 >= TWO52,
                            p > 0,
                    ;
                    assert((s - 1) * p * d == s * w - w) by (nonlinear_arith)
                        requires
                            w == d * p,
                    ;
                    assert(q >= (s - 1) * p) by (nonlinear_arith)
                        requires
                            n >= (s - 1) * p * d,
                            n < d * q + d,
                            d > 0,
                    ;
                } else {
                    assert(s * p >= TWO52 * p) by (nonlinear_arith)
                        requires
                            s >= TWO52,
                            p > 0,
                    ;
                    assert(q >= u) by (nonlinear_arith)
                        requires
                            n == u * d,
                            n < d * q + d,
                            d > 0,
                    ;
                }
            }
        }
        lemma_excess_unique(q, t);
        lemma_nearest_below(n, w, s);
    } else {
        // just below a power of two, where the steps are half as wide
        let h = (t - 1) as nat;
        let v = d * pow2(h);
        lemma_pow2_unfold(t);
        lemma_pow2_pos(h);
        lemma_pow2_adds(53, h);
        lemma_pow2_adds(52, h);
        assert(w == 2 * v) by (nonlinear_arith)
            requires
                w == d * p,
                p == 2 * pow2(h),
                v == d * pow2(h),
        ;
        assert(q < pow2(53 + h)) by (nonlinear_arith)
            requires
                d * q <= n,
                n < u * d,
                u == pow2(53 + h),
                d > 0,
        ;
        let half = pow2(52 + h);
        assert(half * d == TWO52 * v) by (nonlinear_arith)
            requires
                half == TWO52 * pow2(h),
                v == d * pow2(h),
        ;
        assert(s == TWO52);
        assert(s * w == 9007199254740992 * v) by (nonlinear_arith)
            requires
                s == 4503599627370496,
                w == 2 * v,
        ;
        assert(n >= half * d);
        assert(q >= half) by (nonlinear_arith)
            requires
                n >= half * d,
                n < d * q + d,
                d > 0,
        ;
        lemma_excess_unique(q, h);
        lemma_nearest_below(n, v, 9007199254740992);
    }
}

/// A whole number of steps, rounded, is off by at most 2^-53 of it.
pub proof fn lemma_steps_error(n: nat)
    requires
        round_mag(n, 1) < INF_MAG,
    ensures
        (units_of(round_mag(n, 1)) - n) * 9007199254740992 <= n,
        (n - units_of(round_mag(n, 1))) * 9007199254740992 <= n,
{
    assert(n / 1 == n);
    if n < 9007199254740992 {
        lemma_two53();
        assert(1 * pow2(0) == 1);
        assert(n % 1 == 0);
        lemma_units_at(0, n);
        assert(n * 1 == n);
    } else {
        lemma_round_error(n, 1);
        assert(units_of(round_mag(n, 1)) * 1 == units_of(round_mag(n, 1)));
    }
}

/// The largest double has at least 2^2097 units.
pub proof fn lemma_largest()
    ensures
        units_of((INF_MAG - 1) as nat) >= pow2(2097),
{
    let top = (INF_MAG - 1) as nat;
    lemma_two53();
    lemma_shift(top);
    lemma_pow2_adds(52, 2045);
    lemma_pow2_pos(2045);
    assert(top / (TWO52 as nat) == 2046);
    let (s, p) = (significand_of(top), pow2(2045));
    assert(s * p >= TWO52 * p) by (nonlinear_arith)
        requires
            s >= TWO52,
            p > 0,
    ;
}

/// A whole number below 2^53 is a double.
pub proof fn lemma_whole_exact(x: int)
    requires
        -9007199254740992 < x < 9007199254740992,
    ensures
        of_int(x).is_finite(),
        of_int(x).num() == x * one_unit(),
        of_int(x).neg() == (x < 0),
{
    let m = if x < 0 {
        (-x) as nat
    } else {
        x as nat
    };
    let n = m * pow2(1074);
    lemma_two53();
    lemma_pow2_pos(1074);
    lemma_pow2_adds(53, 1074);
    let e = excess(n);
    lemma_excess(n);
    assert(n / 1 == n);
    assert(n < 9007199254740992 * pow2(1074)) by (nonlinear_arith)
        requires
            n == m * pow2(1074),
            m < 9007199254740992,
            pow2(1074) > 0,
    ;
    if e > 1074 {
        if 53 + 1074 < 52 + e {
            lemma_pow2_strictly_increases(53 + 1074, (52 + e) as nat);
        }
    }
    lemma_nearest_normal(n, 1);
    assert(e * TWO52 <= 1074 * TWO52) by (nonlinear_arith)
        requires
            e <= 1074,
    ;
    lemma_representable(m, 1074);
    assert((-x) * one_unit() == -(x * one_unit())) by (nonlinear_arith);
}

/// A count of 64 bits is finite as a double, and above zero where the count is.
pub proof fn lemma_count_positive(n: nat)
    requires
        0 < n <= u64::MAX,
    ensures
        of_int(n as int).is_finite(),
        !of_int(n as int).neg(),
        !of_int(n as int).is_zero(),
{
    let u = pow2(1074);
    let v = n * u;
    lemma_two53();
    lemma2_to64();
    lemma_pow2_pos(1074);
    lemma_pow2_adds(64, 1074);
    assert(v < 18446744073709551616 * u) by (nonlinear_arith)
        requires
            v == n * u,
            n < 18446744073709551616,
            u > 0,
    ;
    let e = excess(v);
    lemma_excess(v);
    assert(v / 1 == v);
    assert(e <= 1086) by {
        if e > 1086 && 1138 < 52 + e {
            lemma_pow2_strictly_increases(1138, 52 + e);
        }
    }
    lemma_nearest_normal(v, 1);
    assert(e * TWO52 <= 1086 * TWO52) by (nonlinear_arith)
        requires
            e <= 1086,
    ;
    lemma_whole_exact(1);
    assert(1 * u == u);
    assert(u * 1 <= v * 1) by (nonlinear_arith)
        requires
            v == n * u,
            n >= 1,
    ;
    lemma_round_monotone(u, 1, v, 1);
    lemma_units_zero();
}

/// Holding a number between 0 and `hi` gives a number between them.
pub proof fn lemma_held(x: Double, hi: int)
    requires
        !x.is_nan(),
        0 <= hi < 9007199254740992,
    ensures
        at_most(of_int(0), clamped(x, of_int(0), of_int(hi))),
        at_most(clamped(x, of_int(0), of_int(hi)), of_int(hi)),
{
    lemma_whole_exact(0);
    lemma_whole_exact(hi);
    assert(hi * one_unit() >= 0) by (nonlinear_arith)
        requires
            hi >= 0,
            one_unit() >= 0,
    ;
}

// ------------------------------------------------------------------ operations

/// The magnitude nearest to `n / d` units.
pub fn round_ratio(n: &Natural, d: &Natural) -> (r: u64)
    requires
        d@ > 0,
    ensures
        r == round_mag(n@, d@),
{
    let mut top: Natural = d.shl(53);
    let mut j: u64 = 0;
    proof {
        lemma_two53();
        assert(d@ * pow2(53 + 0) == top@);
    }
    while j < 2046 && n.minus(&top).is_some()
        invariant
            d@ > 0,
            j <= 2046,
            top@ == d@ * pow2((53 + j) as nat),
            j > 0 ==> n@ >= d@ * pow2((52 + j) as nat),
        ensures
            top@ == d@ * pow2((53 + j) as nat),
            j > 0 ==> n@ >= d@ * pow2((52 + j) as nat),
            j < 2046 ==> n@ < top@,
            j <= 2046,
        decreases 2046 - j,
    {
        proof {
            lemma_pow2_unfold((54 + j) as nat);
            assert(2 * (d@ * pow2((53 + j) as nat)) == d@ * (2 * pow2((53 + j) as nat)))
                by (nonlinear_arith);
        }
        top = top.double();
        j += 1;
    }
    if j == 2046 {
        proof {
            lemma_excess_at_least(n@, d@, 2046);
        }
        return INF_MAG;
    }
    let scaled: Natural = d.shl(j as u32);
    proof {
        lemma_excess_of_ratio(n@, d@, j as nat);
        lemma_pow2_pos(j as nat);
        assert(scaled@ > 0) by (nonlinear_arith)
            requires
                scaled@ == d@ * pow2(j as nat),
                d@ > 0,
                pow2(j as nat) > 0,
        ;
    }
    let (quo, rem) = n.div_rem(&scaled);
    proof {
        let w = scaled@;
        lemma_pow2_adds(j as nat, 53);
        lemma_two53();
        assert(d@ * (pow2(j as nat) * 9007199254740992) == w * 9007199254740992)
            by (nonlinear_arith)
            requires
                w == d@ * pow2(j as nat),
        ;
        assert(quo@ < 9007199254740992) by (nonlinear_arith)
            requires
                quo@ * w + rem@ < w * 9007199254740992,
        ;
        vstd::arithmetic::div_mod::lemma_fundamental_div_mod_converse(
            n@ as int,
            w as int,
            quo@ as int,
            rem@ as int,
        );
    }
    let q: u64 = quo.to_u64();
    let up: bool = match rem.double().minus(&scaled) {
        None => false,
        Some(over) => if over.is_zero() {
            q % 2 == 1
        } else {
            true
        },
    };
    let m: u64 = if up {
        q + 1
    } else {
        q
    };
    j * TWO52 + m
}

proof fn lemma_ratio_below(n: nat, d: nat, k: nat)
    requires
        d > 0,
    ensures
        (n < d * k) == (n / d < k),
{
    let q = n / d;
    assert(n == d * q + n % d) by {
        vstd::arithmetic::div_mod::lemma_fundamental_div_mod(n as int, d as int);
    }
    assert(n % d < d);
    if q < k {
        assert(d * q + d <= d * k) by (nonlinear_arith)
            requires
                q + 1 <= k,
        ;
    } else {
        assert(d * q >= d * k) by (nonlinear_arith)
            requires
                q >= k,
        ;
    }
}

proof fn lemma_excess_of_ratio(n: nat, d: nat, j: nat)
    requires
        d > 0,
        n < d * pow2(53 + j),
        j > 0 ==> n >= d * pow2(52 + j),
    ensures
        excess(n / d) == j,
{
    lemma_ratio_below(n, d, pow2(53 + j));
    lemma_ratio_below(n, d, pow2(52 + j));
    lemma_excess_unique(n / d, j);
}

/// A ratio with at least 53 + `j` bits rounds to a magnitude with exponent above `j`.
proof fn lemma_excess_at_least(n: nat, d: nat, j: nat)
    requires
        d > 0,
        j > 0,
        n >= d * pow2(52 + j),
    ensures
        excess(n / d) >= j,
        round_mag(n, d) >= (j + 1) * TWO52 || round_mag(n, d) == INF_MAG,
{
    let q = n / d;
    let e = excess(q);
    lemma_ratio_below(n, d, pow2(52 + j));
    lemma_excess(q);
    if e < j && 53 + e < 52 + j {
        lemma_pow2_strictly_increases(53 + e, 52 + j);
    }
    lemma_nearest_normal(n, d);
    assert((j + 1) * TWO52 <= (e + 1) * TWO52) by (nonlinear_arith)
        requires
            j <= e,
    ;
    assert((e + 1) * TWO52 == e * TWO52 + TWO52) by (nonlinear_arith);
}

/// What is rounded has at most 53 bits, and exactly 53 where bits were dropped.
proof fn lemma_nearest_normal(n: nat, d: nat)
    requires
        d > 0,
    ensures
        nearest(n, d * pow2(excess(n / d))) <= 9007199254740992,
        excess(n / d) > 0 ==> nearest(n, d * pow2(excess(n / d))) >= TWO52,
{
    let q = n / d;
    let e = excess(q);
    lemma_two53();
    lemma_excess(q);
    lemma_pow2_pos(e);
    let w = d * pow2(e);
    assert(w > 0) by (nonlinear_arith)
        requires
            w == d * pow2(e),
            d > 0,
            pow2(e) > 0,
    ;
    lemma_ratio_below(n, d, pow2(53 + e));
    lemma_ratio_below(n, d, pow2(52 + e));
    lemma_pow2_adds(e, 53);
    lemma_pow2_adds(e, 52);
    assert(d * (pow2(e) * 9007199254740992) == w * 9007199254740992) by (nonlinear_arith)
        requires
            w == d * pow2(e),
    ;
    assert(d * (pow2(e) * TWO52 as nat) == w * TWO52 as nat) by (nonlinear_arith)
        requires
            w == d * pow2(e),
    ;
    lemma_ratio_below(n, w, 9007199254740992);
    lemma_ratio_below(n, w, TWO52 as nat);
}

pub(crate) fn apply_sign(neg: bool, mag: u64) -> (r: Double)
    requires
        mag < SIGN,
    ensures
        r == signed(neg, mag as nat),
{
    if neg {
        Double { bits: SIGN + mag }
    } else {
        Double { bits: mag }
    }
}

fn round_signed(neg: bool, n: &Natural, d: &Natural) -> (r: Double)
    requires
        d@ > 0,
    ensures
        r == rounded(neg, n@, d@),
{
    apply_sign(neg, round_ratio(n, d))
}

impl Double {
    /// The number with these bits.
    pub fn from_bits(bits: u64) -> (r: Double)
        ensures
            r.bits == bits,
    {
        Double { bits }
    }

    /// The double nearest to a count.
    pub fn from_u64(x: u64) -> (r: Double)
        ensures
            r == of_int(x as int),
    {
        round_signed(false, &Natural::from_u64(x).shl(1074), &Natural::from_u64(1))
    }

    /// The double nearest to a signed number.
    pub fn from_i64(x: i64) -> (r: Double)
        ensures
            r == of_int(x as int),
    {
        let abs: u64 = if x < 0 {
            (-(x as i128)) as u64
        } else {
            x as u64
        };
        round_signed(x < 0, &Natural::from_u64(abs).shl(1074), &Natural::from_u64(1))
    }

    pub(crate) fn negative(self) -> (r: bool)
        ensures
            r == self.neg(),
    {
        self.bits >= SIGN
    }

    pub(crate) fn magnitude(self) -> (r: u64)
        ensures
            r == self.mag(),
            r < SIGN,
    {
        if self.bits >= SIGN {
            self.bits - SIGN
        } else {
            self.bits
        }
    }

    fn significand(self) -> (r: u64)
        ensures
            r == significand_of(self.mag()),
            r < 9007199254740992,
    {
        let mag: u64 = self.magnitude();
        if mag < TWO52 {
            mag
        } else {
            TWO52 + mag % TWO52
        }
    }

    fn shift(self) -> (r: u32)
        ensures
            r == shift_of(self.mag()),
            r <= 2046,
    {
        let mag: u64 = self.magnitude();
        if mag < TWO52 {
            0
        } else {
            (mag / TWO52 - 1) as u32
        }
    }

    pub(crate) fn units(self) -> (r: Natural)
        ensures
            r@ == units_of(self.mag()),
    {
        Natural::from_u64(self.significand()).shl(self.shift())
    }

    /// Whether the number is neither infinite nor a not-a-number.
    pub fn finite(self) -> (r: bool)
        ensures
            r == self.is_finite(),
    {
        self.magnitude() < INF_MAG
    }

    /// Whether this is not a number.
    pub fn nan(self) -> (r: bool)
        ensures
            r == self.is_nan(),
    {
        self.magnitude() > INF_MAG
    }

    pub(crate) fn infinite(self) -> (r: bool)
        ensures
            r == self.is_inf(),
    {
        self.magnitude() == INF_MAG
    }

    /// `self < other`.
    pub fn lt(self, other: Double) -> (r: bool)
        ensures
            r == less(self, other),
    {
        proof {
            lemma_units_order(self.mag(), other.mag());
            lemma_units_order(other.mag(), self.mag());
            lemma_units_order(0, self.mag());
            lemma_units_order(0, other.mag());
            lemma_units_zero();
        }
        if self.nan() || other.nan() {
            false
        } else if self.negative() {
            if other.negative() {
                other.magnitude() < self.magnitude()
            } else {
                self.magnitude() > 0 || other.magnitude() > 0
            }
        } else if other.negative() {
            false
        } else {
            self.magnitude() < other.magnitude()
        }
    }

    /// `self <= other`.
    pub fn le(self, other: Double) -> (r: bool)
        ensures
            r == at_most(self, other),
    {
        !self.nan() && !other.nan() && !other.lt(self)
    }

    /// `self == other`, as numbers.
    pub fn same(self, other: Double) -> (r: bool)
        ensures
            r == (!self.is_nan() && !other.is_nan() && self.num() == other.num()),
    {
        self.le(other) && other.le(self)
    }

    /// `-self`.
    pub fn negate(self) -> (r: Double)
        ensures
            r == negated(self),
    {
        apply_sign(!self.negative(), self.magnitude())
    }

    /// `self + other`.
    pub fn plus(self, other: Double) -> (r: Double)
        ensures
            r == sum(self, other),
    {
        if self.nan() || other.nan() {
            return Double { bits: NAN_BITS };
        }
        if self.infinite() {
            if other.infinite() && self.negative() != other.negative() {
                return Double { bits: NAN_BITS };
            }
            return self;
        }
        if other.infinite() {
            return other;
        }
        let one: Natural = Natural::from_u64(1);
        let a: Natural = self.units();
        let b: Natural = other.units();
        if self.negative() == other.negative() {
            let total: Natural = a.plus(&b);
            if total.is_zero() {
                return apply_sign(self.negative(), 0);
            }
            return round_signed(self.negative(), &total, &one);
        }
        match a.minus(&b) {
            Some(left) => {
                if left.is_zero() {
                    apply_sign(false, 0)
                } else {
                    round_signed(self.negative(), &left, &one)
                }
            },
            None => {
                match b.minus(&a) {
                    Some(left) => round_signed(other.negative(), &left, &one),
                    None => Double { bits: NAN_BITS },
                }
            },
        }
    }

    /// `self - other`.
    pub fn minus(self, other: Double) -> (r: Double)
        ensures
            r == difference(self, other),
    {
        self.plus(other.negate())
    }

    /// `self * other`.
    pub fn times(self, other: Double) -> (r: Double)
        ensures
            r == product(self, other),
    {
        let neg: bool = self.negative() != other.negative();
        if self.nan() || other.nan() {
            return Double { bits: NAN_BITS };
        }
        if self.infinite() || other.infinite() {
            if self.magnitude() == 0 || other.magnitude() == 0 {
                return Double { bits: NAN_BITS };
            }
            return apply_sign(neg, INF_MAG);
        }
        let m: u64 = self.significand();
        let k: u64 = other.significand();
        let wide: Natural = Natural::from_u64(m).times_u64(k);
        let n: Natural = wide.shl(self.shift() + other.shift());
        let one: Natural = Natural::from_u64(1).shl(1074);
        proof {
            let (sa, sb) = (shift_of(self.mag()), shift_of(other.mag()));
            lemma_pow2_adds(sa, sb);
            assert((m as nat * k as nat) * (pow2(sa) * pow2(sb)) == (m as nat * pow2(sa)) * (
            k as nat * pow2(sb))) by (nonlinear_arith);
            lemma_pow2_pos(1074);
        }
        round_signed(neg, &n, &one)
    }

    /// `self / other`.
    pub fn over(self, other: Double) -> (r: Double)
        ensures
            r == quotient(self, other),
    {
        let neg: bool = self.negative() != other.negative();
        if self.nan() || other.nan() || (self.infinite() && other.infinite()) || (self.magnitude()
            == 0 && other.magnitude() == 0) {
            return Double { bits: NAN_BITS };
        }
        if self.infinite() || other.magnitude() == 0 {
            return apply_sign(neg, INF_MAG);
        }
        if other.infinite() {
            return apply_sign(neg, 0);
        }
        let n: Natural = self.units().shl(1074);
        let d: Natural = other.units();
        proof {
            lemma_units_zero();
            lemma_units_order(0, other.mag());
        }
        round_signed(neg, &n, &d)
    }

    /// The greater of the two.
    pub fn max(self, other: Double) -> (r: Double)
        ensures
            r == greater_of(self, other),
    {
        if other.nan() || other.lt(self) {
            self
        } else {
            other
        }
    }

    /// The lesser of the two.
    pub fn min(self, other: Double) -> (r: Double)
        ensures
            r == lesser_of(self, other),
    {
        if other.nan() || self.lt(other) {
            self
        } else {
            other
        }
    }

    /// The number held between `lo` and `hi`.
    pub fn clamp(self, lo: Double, hi: Double) -> (r: Double)
        ensures
            r == clamped(self, lo, hi),
    {
        if self.lt(lo) {
            lo
        } else if hi.lt(self) {
            hi
        } else {
            self
        }
    }

    /// Whole part and remainder of the magnitude, in units.
    fn split(self) -> (r: (Natural, Natural))
        ensures
            r.0@ == whole_part(self),
            r.1@ == units_of(self.mag()) % one_unit(),
    {
        let one: Natural = Natural::from_u64(1).shl(1074);
        proof {
            lemma_pow2_pos(1074);
            assert(1 * pow2(1074) == pow2(1074));
        }
        let (q, r) = self.units().div_rem(&one);
        proof {
            vstd::arithmetic::div_mod::lemma_fundamental_div_mod_converse(
                units_of(self.mag()) as int,
                one@ as int,
                q@ as int,
                r@ as int,
            );
        }
        (q, r)
    }

    /// The whole part of the magnitude, at most `u64::MAX`.
    fn whole(self) -> (r: u64)
        ensures
            r as nat == if whole_part(self) > u64::MAX {
                u64::MAX as nat
            } else {
                whole_part(self)
            },
    {
        let (q, _) = self.split();
        let limit: Natural = Natural::from_u64(u64::MAX);
        match limit.minus(&q) {
            Some(_) => q.to_u64(),
            None => u64::MAX,
        }
    }

    /// The whole part as a count.
    pub fn to_u64(self) -> (r: u64)
        ensures
            r == to_count(self),
    {
        if self.nan() || self.negative() {
            0
        } else {
            self.whole()
        }
    }

    /// The whole part as a signed number.
    pub fn to_i64(self) -> (r: i64)
        ensures
            r == to_integer(self),
    {
        if self.nan() {
            return 0;
        }
        let w: u64 = self.whole();
        if self.negative() {
            if w >= SIGN {
                i64::MIN
            } else {
                -(w as i64)
            }
        } else if w >= SIGN {
            i64::MAX
        } else {
            w as i64
        }
    }

    /// Whether a finite number has no fractional part.
    pub fn is_whole(self) -> (r: bool)
        ensures
            r == (units_of(self.mag()) % one_unit() == 0),
    {
        let (_, r) = self.split();
        r.is_zero()
    }
}

/// The numbers of a list, summed from the first to the last.
pub fn total_of(v: &Vec<Double>) -> (r: Double)
    ensures
        r == total(v@),
{
    let mut acc: Double = apply_sign(true, 0);
    let mut i: usize = 0;
    assert(v@.take(0) =~= Seq::empty());
    while i < v.len()
        invariant
            i <= v.len(),
            acc == total(v@.take(i as int)),
        decreases v.len() - i,
    {
        assert(v@.take(i + 1).drop_last() =~= v@.take(i as int));
        acc = acc.plus(v[i]);
        i += 1;
    }
    assert(v@.take(i as int) =~= v@);
    acc
}

/// The greatest of `start` and the numbers of a list.
pub fn greatest_of(start: Double, v: &Vec<Double>) -> (r: Double)
    ensures
        r == greatest(start, v@),
{
    let mut acc: Double = start;
    let mut i: usize = 0;
    assert(v@.take(0) =~= Seq::empty());
    while i < v.len()
        invariant
            i <= v.len(),
            acc == greatest(start, v@.take(i as int)),
        decreases v.len() - i,
    {
        assert(v@.take(i + 1).drop_last() =~= v@.take(i as int));
        acc = acc.max(v[i]);
        i += 1;
    }
    assert(v@.take(i as int) =~= v@);
    acc
}

pub proof fn lemma_units_zero()
    ensures
        units_of(0) == 0,
{
    lemma_two53();
    assert(0 * pow2(0) == 0);
}

} // verus!
