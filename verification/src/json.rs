//! JSON documents, read with `serde_json`.
//!
//! A `serde_json::Value` is opaque here: [`json_of`] is the document that it holds,
//! and each accessor says what it reads of it.

use crate::decimal::{
    lemma_pow10_adds, lemma_pow10_pos, lemma_power_exact, lemma_shortest_parts, pointed, pow10,
    shortest_parts,
};
use crate::double::{
    lemma_count_positive, lemma_largest, lemma_round_exact, lemma_round_monotone,
    lemma_round_range, lemma_signed, lemma_steps_error, lemma_units_order, lemma_units_zero,
    lemma_whole_exact, negated, of_int, one_unit, product, quotient, round_mag, signed,
    units_of, Double, INF_MAG,
};
use crate::report::json_text;
use crate::text::joined;
use vstd::arithmetic::power2::pow2;
use vstd::prelude::*;

verus! {

/// A JSON document. A number has its value as a double, and as a count where it is a
/// whole number from 0 to 2^64 - 1 written without a fraction or an exponent.
pub enum Json {
    Null,
    Bool(bool),
    Number { value: Double, count: Option<u64> },
    Text(Seq<char>),
    Array(Seq<Json>),
    Object(Map<Seq<char>, Json>),
}

/// A `serde_json` document.
#[verifier::external_type_specification]
#[verifier::external_body]
pub struct ExValue(serde_json::Value);

/// The document that a `serde_json::Value` holds.
pub uninterp spec fn json_of(v: serde_json::Value) -> Json;

/// The document that `serde_json::from_str` reads from a text, none where it refuses it.
pub uninterp spec fn json_parsed(text: Seq<char>) -> Option<Json>;

/// The member of an object.
pub open spec fn member(j: Json, key: Seq<char>) -> Option<Json> {
    match j {
        Json::Object(m) => if m.contains_key(key) {
            Some(m[key])
        } else {
            None
        },
        _ => None,
    }
}

/// The text of a string.
pub open spec fn text_in(j: Json) -> Option<Seq<char>> {
    match j {
        Json::Text(s) => Some(s),
        _ => None,
    }
}

/// The text of a member.
pub open spec fn member_text(j: Json, key: Seq<char>) -> Option<Seq<char>> {
    match member(j, key) {
        Some(m) => text_in(m),
        None => None,
    }
}

/// The elements of an array.
pub open spec fn items_in(j: Json) -> Option<Seq<Json>> {
    match j {
        Json::Array(v) => Some(v),
        _ => None,
    }
}

// ------------------------------------------------------------------ written documents

/// A member of a flat object. A number is `digits` times 10^-`places`.
pub enum Scalar {
    Null,
    Number { neg: bool, digits: nat, places: nat },
    Text(Seq<char>),
}

/// The members of a flat object, in the order in which they are written.
pub type Members = Seq<(Seq<char>, Scalar)>;

/// An object that ends in a list of flat objects.
pub struct Listing {
    pub head: Members,
    pub name: Seq<char>,
    pub rows: Seq<Members>,
}

pub open spec fn scalar_text(v: Scalar) -> Seq<char> {
    match v {
        Scalar::Null => "null"@,
        Scalar::Number { neg, digits, places } => (if neg {
            "-"@
        } else {
            ""@
        }) + pointed(digits, places),
        Scalar::Text(s) => json_text(s),
    }
}

pub open spec fn member_line(m: (Seq<char>, Scalar)) -> Seq<char> {
    json_text(m.0) + ": "@ + scalar_text(m.1)
}

/// The members, separated by commas.
pub open spec fn members_text(m: Members) -> Seq<char> {
    joined(m.map_values(|f: (Seq<char>, Scalar)| member_line(f)), ", "@)
}

/// The rows, separated by commas, each on its line.
pub open spec fn rows_text(rows: Seq<Members>) -> Seq<char>
    decreases rows.len(),
{
    if rows.len() == 0 {
        Seq::empty()
    } else {
        "    {"@ + members_text(rows[0]) + "}"@ + (if rows.len() > 1 {
            ","@
        } else {
            ""@
        }) + "\n"@ + rows_text(rows.skip(1))
    }
}

/// The text of an object that ends in a list of flat objects.
pub open spec fn listing_text(l: Listing) -> Seq<char> {
    "{\n  "@ + members_text(l.head) + (if l.head.len() > 0 {
        ",\n  "@
    } else {
        ""@
    }) + json_text(l.name) + ": [\n"@ + rows_text(l.rows) + "  ]\n}\n"@
}

/// The first digits of a whole number, as many as fit in 64 bits, and how many are left.
pub open spec fn leading(digits: nat) -> (nat, nat)
    decreases digits,
{
    if digits <= u64::MAX {
        (digits, 0)
    } else {
        let (first, left) = leading(digits / 10);
        (first, left + 1)
    }
}

/// A number over 10^`places`, by powers of ten that are doubles.
pub open spec fn scaled_down(x: Double, places: nat) -> Double
    decreases places,
{
    if places > 308 {
        scaled_down(quotient(x, of_int(pow10(308) as int)), (places - 308) as nat)
    } else {
        quotient(x, of_int(pow10(places) as int))
    }
}

/// The double that a number is read as: its digits, as a double, over the power of ten, as
/// a double; of a whole number that does not fit in 64 bits, its first digits times the
/// power of ten.
pub open spec fn number_read(neg: bool, digits: nat, places: nat) -> Double {
    let (first, left) = leading(digits);
    let size = if places > 0 {
        scaled_down(of_int(digits as int), places)
    } else if left > 0 {
        product(of_int(first as int), of_int(pow10(left) as int))
    } else {
        of_int(digits as int)
    };
    if neg {
        negated(size)
    } else {
        size
    }
}

/// Whether a number is read: one behind the point has digits that fit in 64 bits, and a
/// whole one is not read as infinite.
pub open spec fn number_fits(digits: nat, places: nat) -> bool {
    if places > 0 {
        digits <= u64::MAX && places <= 1074
    } else {
        leading(digits).1 <= 308 && number_read(false, digits, 0).is_finite()
    }
}

pub open spec fn scalar_json(v: Scalar) -> Json {
    match v {
        Scalar::Null => Json::Null,
        Scalar::Number { neg, digits, places } => Json::Number {
            value: number_read(neg, digits, places),
            count: if !neg && places == 0 && digits <= u64::MAX {
                Some(digits as u64)
            } else {
                None
            },
        },
        Scalar::Text(s) => Json::Text(s),
    }
}

/// The members by their keys; the last of a key counts.
pub open spec fn members_json(m: Members) -> Map<Seq<char>, Json>
    decreases m.len(),
{
    if m.len() == 0 {
        Map::empty()
    } else {
        members_json(m.drop_last()).insert(m.last().0, scalar_json(m.last().1))
    }
}

/// The document that an object is which ends in a list of flat objects.
pub open spec fn listing_json(l: Listing) -> Json {
    Json::Object(
        members_json(l.head).insert(
            l.name,
            Json::Array(l.rows.map_values(|r: Members| Json::Object(members_json(r)))),
        ),
    )
}

/// Whether the numbers of an object are read.
pub open spec fn members_fit(m: Members) -> bool {
    forall|i: int|
        0 <= i < m.len() ==> ((#[trigger] m[i]).1 matches Scalar::Number { digits, places, .. }
            ==> number_fits(digits, places))
}

pub open spec fn listing_fits(l: Listing) -> bool {
    members_fit(l.head) && forall|i: int|
        0 <= i < l.rows.len() ==> members_fit(#[trigger] l.rows[i])
}

/// Whether a text, where it is that of a listing, is read as the document that this is.
pub open spec fn listing_is_read(text: Seq<char>) -> bool {
    forall|l: Listing|
        listing_fits(l) && #[trigger] listing_text(l) == text ==> json_parsed(text) == Some(
            listing_json(l),
        )
}

// ------------------------------------------------------------------ reading

/// `serde_json::from_str`, for a `Value`. What it reads is a function of the text alone.
/// The text of an object that ends in a list of flat objects, laid out over lines, gives
/// that object: strings are unescaped, the last member of a key counts, a whole number
/// is converted to a double and, without a sign, is a count too, and a number with a point
/// is its digits, converted to a double, over the double nearest to the power of ten. So a
/// decimal does not always give the double nearest to it. A whole number of more than 64
/// bits is its first digits, as many as fit, times the power of ten of the rest. Of other
/// texts nothing is said here, nor of numbers that are out of range.
#[verifier::external_body]
pub(crate) fn parse(text: &str) -> (r: Option<serde_json::Value>)
    ensures
        match r {
            Some(v) => json_parsed(text@) == Some(json_of(v)),
            None => json_parsed(text@) is None,
        },
        forall|l: Listing|
            listing_fits(l) && #[trigger] listing_text(l) == text@ ==> r is Some && json_of(r->0)
                == listing_json(l),
{
    match serde_json::from_str(text) {
        Ok(v) => Some(v),
        Err(_) => None,
    }
}

/// `Value::get` with a key: the member of an object, none where the value is no object
/// or has no such member.
#[verifier::external_body]
pub(crate) fn get<'a>(v: &'a serde_json::Value, key: &str) -> (r: Option<&'a serde_json::Value>)
    ensures
        match r {
            Some(m) => member(json_of(*v), key@) == Some(json_of(*m)),
            None => member(json_of(*v), key@) is None,
        },
{
    v.get(key)
}

/// `Value::as_array`: the elements of an array in their order, none for any other value.
pub assume_specification[ serde_json::Value::as_array ](v: &serde_json::Value) -> (r: Option<
    &Vec<serde_json::Value>,
>)
    ensures
        match r {
            Some(items) => items_in(json_of(*v)) is Some && items@.len() == items_in(
                json_of(*v),
            )->0.len() && forall|i: int|
                0 <= i < items@.len() ==> json_of(#[trigger] items@[i]) == items_in(
                    json_of(*v),
                )->0[i],
            None => items_in(json_of(*v)) is None,
        },
;

/// `Value::as_str`: the text of a string, none for any other value.
pub assume_specification[ serde_json::Value::as_str ](v: &serde_json::Value) -> (r: Option<&str>)
    ensures
        match r {
            Some(s) => text_in(json_of(*v)) == Some(s@),
            None => text_in(json_of(*v)) is None,
        },
;

/// `Value::as_u64`: the count that a number is, none for any other value.
pub assume_specification[ serde_json::Value::as_u64 ](v: &serde_json::Value) -> (r: Option<u64>)
    ensures
        r == match json_of(*v) {
            Json::Number { count, .. } => count,
            _ => None,
        },
;

/// `Value::as_f64`, by its bits: the value of a number, none for any other value.
#[verifier::external_body]
fn number_bits(v: &serde_json::Value) -> (r: Option<u64>)
    ensures
        match json_of(*v) {
            Json::Number { value, .. } => r == Some(value.bits),
            _ => r is None,
        },
{
    match v.as_f64() {
        Some(x) => Some(x.to_bits()),
        None => None,
    }
}

/// The value of a number.
pub fn number(v: &serde_json::Value) -> (r: Option<Double>)
    ensures
        r == match json_of(*v) {
            Json::Number { value, .. } => Some(value),
            _ => None,
        },
{
    match number_bits(v) {
        Some(bits) => Some(Double { bits }),
        None => None,
    }
}

/// The text of a member.
pub fn get_text<'a>(v: &'a serde_json::Value, key: &str) -> (r: Option<&'a str>)
    ensures
        match r {
            Some(s) => member_text(json_of(*v), key@) == Some(s@),
            None => member_text(json_of(*v), key@) is None,
        },
{
    match get(v, key) {
        Some(m) => m.as_str(),
        None => None,
    }
}

// ------------------------------------------------------------------ laws

/// A number over a power of ten is at most the number.
proof fn lemma_scaled_down(x: Double, places: nat)
    requires
        x.is_finite(),
        !x.neg(),
    ensures
        scaled_down(x, places).is_finite(),
        !scaled_down(x, places).neg(),
    decreases places,
{
    let k = if places > 308 {
        308
    } else {
        places
    };
    let p = pow10(k);
    let b = of_int(p as int);
    lemma_pow10_pos(k);
    lemma_whole_exact(1);
    let u = one_unit();
    vstd::arithmetic::power2::lemma_pow2_pos(1074);
    assert(1 * u == u);
    assert(u * 1 <= (p * u) * 1) by (nonlinear_arith)
        requires
            p >= 1,
            u > 0,
    ;
    lemma_round_monotone(u, 1, p * u, 1);
    lemma_round_range(p * u, 1);
    lemma_signed(false, round_mag(p * u, 1));
    lemma_units_order(of_int(1).mag(), b.mag());
    lemma_units_zero();
    assert(!b.is_zero() && !b.is_nan() && !b.neg());
    let (n, d) = (units_of(x.mag()), units_of(b.mag()));
    assert(u <= d);
    assert((n * u) * 1 <= n * d) by (nonlinear_arith)
        requires
            u <= d,
    ;
    lemma_round_monotone(n * u, d, n, 1);
    lemma_round_exact(x.mag());
    lemma_round_range(n * u, d);
    lemma_signed(false, round_mag(n * u, d));
    lemma_signed(false, 0);
    if places > 308 {
        lemma_scaled_down(quotient(x, b), (places - 308) as nat);
    }
}

/// What is read is finite.
pub proof fn lemma_read_finite(neg: bool, digits: nat, places: nat)
    requires
        number_fits(digits, places),
    ensures
        number_read(neg, digits, places).is_finite(),
{
    let x = number_read(false, digits, places);
    if places > 0 {
        if digits == 0 {
            lemma_whole_exact(0);
        } else {
            lemma_count_positive(digits);
        }
        lemma_scaled_down(of_int(digits as int), places);
    }
    lemma_signed(!x.neg(), x.mag());
}

/// A number that is written as a whole number of 64 bits, or as less than 2^53 digits'
/// worth of steps of at least 10^-22, is read as exactly itself.
pub proof fn law_short_numbers_are_read_exactly(x: Double)
    requires
        x.is_finite(),
        ({
            let (digits, places) = shortest_parts(x);
            ||| places == 0 && digits <= u64::MAX
            ||| places <= 22 && digits < 9007199254740992
        }),
    ensures
        number_read(x.neg(), shortest_parts(x).0, shortest_parts(x).1) == x,
{
    let (digits, places) = shortest_parts(x);
    let u = one_unit();
    let a = of_int(digits as int);
    lemma_shortest_parts(x);
    lemma_signed(x.neg(), x.mag());
    lemma_signed(false, x.mag());
    assert(signed(x.neg(), x.mag()) == x);
    if places == 0 {
        assert(pow10(0) == 1);
        assert(a == signed(false, x.mag()));
    } else {
        lemma_whole_exact(digits as int);
        lemma_power_exact(places);
        let p = pow10(places);
        let b = of_int(p as int);
        lemma_pow10_pos(places);
        vstd::arithmetic::power2::lemma_pow2_pos(1074);
        let (n, d) = ((digits * u) * u, p * u);
        assert(d > 0) by (nonlinear_arith)
            requires
                d == p * u,
                p > 0,
                u > 0,
        ;
        assert(n * p == (digits * u) * d) by (nonlinear_arith)
            requires
                n == (digits * u) * u,
                d == p * u,
        ;
        lemma_round_monotone(n, d, digits * u, p);
        lemma_round_monotone(digits * u, p, n, d);
        assert(units_of(a.mag()) == digits * u);
        lemma_units_zero();
        assert(!b.is_zero());
        assert(quotient(a, b) == signed(false, x.mag()));
    }
}

/// The first digits of a whole number, and what they leave.
proof fn lemma_leading(digits: nat, k: nat)
    requires
        digits < 18446744073709551616 * pow10(k),
    ensures
        leading(digits).1 <= k,
        leading(digits).0 <= u64::MAX,
        leading(digits).0 * pow10(leading(digits).1) <= digits,
        digits > 0 ==> leading(digits).0 > 0,
    decreases digits,
{
    if digits <= u64::MAX {
        assert(digits * 1 == digits);
        assert(pow10(0) == 1);
    } else {
        assert(k > 0) by {
            if k == 0 {
                assert(pow10(0) == 1);
            }
        }
        let p = pow10((k - 1) as nat);
        let q = digits / 10;
        assert(pow10(k) == 10 * p);
        lemma_leading(q, (k - 1) as nat);
        let (first, left) = leading(q);
        let r = pow10(left);
        assert(pow10(left + 1) == 10 * r);
        assert(first * (10 * r) == 10 * (first * r)) by (nonlinear_arith);
    }
}

/// The product of the first digits and the power of ten of the rest, where the number that
/// they are of is below 2^1020.
proof fn lemma_long_number(x: Double, digits: nat)
    requires
        x.is_finite(),
        units_of(x.mag()) < pow2(2094),
        round_mag(digits * one_unit(), 1) == x.mag(),
        digits > u64::MAX,
        leading(digits).0 * pow10(leading(digits).1) <= digits,
        0 < leading(digits).0 <= u64::MAX,
    ensures
        product(
            of_int(leading(digits).0 as int),
            of_int(pow10(leading(digits).1) as int),
        ).is_finite(),
{
    let (first, left) = leading(digits);
    let (p, u) = (pow10(left), one_unit());
    let (a, b) = (of_int(first as int), of_int(p as int));
    vstd::arithmetic::power2::lemma_pow2_pos(1074);
    lemma_pow10_pos(left);
    lemma_count_positive(first);
    lemma_steps_error(first * u);
    assert(p <= digits) by (nonlinear_arith)
        requires
            first * p <= digits,
            first >= 1,
    ;
    assert((p * u) * 1 <= (digits * u) * 1) by (nonlinear_arith)
        requires
            p <= digits,
    ;
    lemma_round_monotone(p * u, 1, digits * u, 1);
    lemma_signed(false, round_mag(p * u, 1));
    lemma_steps_error(p * u);
    lemma_steps_error(digits * u);
    let (m, n, w) = (units_of(a.mag()), units_of(b.mag()), units_of(x.mag()));
    lemma_round_range(first * u, 1);
    lemma_signed(false, round_mag(first * u, 1));
    assert(m <= 2 * (first * u));
    assert(n <= 2 * (p * u));
    assert(digits * u <= 2 * w);
    let top = units_of((INF_MAG - 1) as nat);
    lemma_largest();
    vstd::arithmetic::power2::lemma_pow2_adds(2094, 3);
    vstd::arithmetic::power2::lemma2_to64();
    assert(8 * w <= top);
    let (fu, pu, du) = (first * u, p * u, digits * u);
    assert(m * n <= 4 * (fu * pu)) by (nonlinear_arith)
        requires
            m <= 2 * fu,
            n <= 2 * pu,
    ;
    assert(fu * pu <= du * u) by (nonlinear_arith)
        requires
            fu == first * u,
            pu == p * u,
            du == digits * u,
            first * p <= digits,
            u > 0,
    {
        assert(fu * pu == (first * p) * (u * u));
        assert(du * u == digits * (u * u));
    }
    assert(du * u <= (2 * w) * u) by (nonlinear_arith)
        requires
            du <= 2 * w,
            u > 0,
    ;
    assert((m * n) * 1 <= top * u) by (nonlinear_arith)
        requires
            m * n <= 4 * (fu * pu),
            fu * pu <= du * u,
            du * u <= (2 * w) * u,
            8 * w <= top,
            u > 0,
    ;
    lemma_round_monotone(m * n, u, top, 1);
    lemma_round_exact((INF_MAG - 1) as nat);
    lemma_signed(false, round_mag(m * n, u));
}

/// Every number below 2^1020 in magnitude is read, however it is written.
pub proof fn law_ordinary_numbers_are_read(x: Double)
    requires
        x.is_finite(),
        units_of(x.mag()) < pow2(1020) * one_unit(),
    ensures
        number_fits(shortest_parts(x).0, shortest_parts(x).1),
{
    let (digits, places) = shortest_parts(x);
    lemma_shortest_parts(x);
    vstd::arithmetic::power2::lemma_pow2_adds(1020, 1074);
    if places == 0 {
        assert(pow10(0) == 1);
        lemma_pow10_adds(308, 12);
        let (p, q) = (pow10(308), pow10(12));
        reveal_with_fuel(pow10, 13);
        assert(q == 1000000000000);
        assert(p * q <= 18446744073709551616 * p) by (nonlinear_arith)
            requires
                q == 1000000000000,
                p >= 0,
        ;
        lemma_leading(digits, 308);
        if digits <= u64::MAX {
            if digits == 0 {
                lemma_whole_exact(0);
            } else {
                lemma_count_positive(digits);
            }
        } else {
            lemma_long_number(x, digits);
        }
    }
}

} // verus!
