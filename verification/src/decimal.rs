//! Numbers as text: decimal and hexadecimal numerals, and doubles read and written
//! in decimal with correct rounding.

use crate::double::{
    nearest, of_int, one_unit, round_mag, signed, units_of, Double, INF_MAG, NAN_BITS,
};
use crate::natural::Natural;
use crate::text::{all_digits, ascii_lower, digit_of, digits_value};
use vstd::arithmetic::power2::{lemma_pow2_adds, lemma_pow2_pos, lemma_pow2_unfold, pow2};
use vstd::prelude::*;

verus! {

// ------------------------------------------------------------------ numerals

/// The character of a digit.
pub open spec fn digit_char(d: nat, upper: bool) -> char {
    if d < 10 {
        (48 + d) as char
    } else if upper {
        (55 + d) as char
    } else {
        (87 + d) as char
    }
}

/// The numeral of `n` in a radix.
pub open spec fn numeral(n: nat, radix: nat, upper: bool) -> Seq<char>
    decreases n,
{
    if radix < 2 {
        Seq::empty()
    } else if n < radix {
        seq![digit_char(n, upper)]
    } else {
        proof {
            vstd::arithmetic::div_mod::lemma_div_decreases(n as int, radix as int);
        }
        numeral(n / radix, radix, upper).push(digit_char(n % radix, upper))
    }
}

/// The decimal numeral of `n`.
pub open spec fn dec(n: nat) -> Seq<char> {
    numeral(n, 10, false)
}

/// The decimal numeral of a signed number.
pub open spec fn dec_int(x: int) -> Seq<char> {
    if x < 0 {
        "-"@ + dec((-x) as nat)
    } else {
        dec(x as nat)
    }
}

/// A run of zeros.
pub open spec fn zeros(n: nat) -> Seq<char> {
    Seq::new(n, |i: int| '0')
}

/// `s` filled up with zeros on the left.
pub open spec fn filled(s: Seq<char>, width: nat) -> Seq<char> {
    if s.len() < width {
        zeros((width - s.len()) as nat) + s
    } else {
        s
    }
}

proof fn lemma_quotient_less(n: nat, radix: nat)
    requires
        radix >= 2,
        n >= radix,
    ensures
        n / radix < n,
{
    vstd::arithmetic::div_mod::lemma_div_decreases(n as int, radix as int);
}

proof fn lemma_numeral_len(n: nat, radix: nat, upper: bool)
    requires
        radix >= 2,
    ensures
        numeral(n, radix, upper).len() > 0,
    decreases n,
{
    if n >= radix {
        lemma_quotient_less(n, radix);
        lemma_numeral_len(n / radix, radix, upper);
    }
}

fn digit_char_of(d: u32, upper: bool) -> (r: char)
    requires
        d < 16,
    ensures
        r == digit_char(d as nat, upper),
{
    let code: u32 = if d < 10 {
        48 + d
    } else if upper {
        55 + d
    } else {
        87 + d
    };
    (code as u8) as char
}


fn reversed(v: &Vec<char>) -> (r: String)
    ensures
        r@ == v@.reverse(),
{
    let mut out: String = String::new();
    let mut i: usize = v.len();
    while i > 0
        invariant
            i <= v.len(),
            out@ == v@.reverse().take(v.len() - i),
        decreases i,
    {
        i -= 1;
        out.push(v[i]);
        proof {
            let k = v.len() - i - 1;
            assert(v@.reverse()[k] == v@[i as int]);
            assert(v@.reverse().take(k + 1) =~= v@.reverse().take(k).push(v@[i as int]));
        }
    }
    assert(v@.reverse().take(v@.len() as int) =~= v@.reverse());
    out
}

/// The numeral of a natural number.
fn numeral_of(n: &Natural, radix: u32, upper: bool) -> (r: String)
    requires
        2 <= radix <= 16,
    ensures
        r@ == numeral(n@, radix as nat, upper),
{
    let mut back: Vec<char> = Vec::new();
    let mut rest: Natural = n.copy();
    loop
        invariant
            2 <= radix <= 16,
            numeral(n@, radix as nat, upper) == numeral(rest@, radix as nat, upper)
                + back@.reverse(),
        decreases rest@,
    {
        let (q, d) = rest.div_small(radix);
        let c: char = digit_char_of(d, upper);
        let ghost before = back@;
        back.push(c);
        proof {
            assert(back@.reverse() =~= seq![c] + before.reverse());
            vstd::arithmetic::div_mod::lemma_fundamental_div_mod_converse(
                rest@ as int,
                radix as int,
                q@ as int,
                d as int,
            );
        }
        if q.is_zero() {
            proof {
                assert(rest@ < radix);
                assert(seq![c] + before.reverse() =~= numeral(rest@, radix as nat, upper)
                    + before.reverse());
            }
            return reversed(&back);
        }
        proof {
            assert(rest@ >= radix) by (nonlinear_arith)
                requires
                    rest@ == q@ * radix + d,
                    q@ >= 1,
            ;
            assert(q@ < rest@) by (nonlinear_arith)
                requires
                    rest@ == q@ * radix + d,
                    q@ >= 1,
                    radix >= 2,
            ;
            let t = numeral(q@, radix as nat, upper);
            assert(t.push(c) + before.reverse() =~= t + (seq![c] + before.reverse()));
        }
        rest = q;
    }
}

/// The decimal numeral of a count.
pub fn decimal(n: u64) -> (r: String)
    ensures
        r@ == dec(n as nat),
{
    numeral_of(&Natural::from_u64(n), 10, false)
}

/// The decimal numeral of a signed number.
pub fn decimal_signed(x: i64) -> (r: String)
    ensures
        r@ == dec_int(x as int),
{
    if x < 0 {
        let abs: u64 = (-(x as i128)) as u64;
        let mut out: String = "-".to_string();
        out.append(decimal(abs).as_str());
        out
    } else {
        decimal(x as u64)
    }
}

/// The hexadecimal numeral of a count.
pub fn hexadecimal(n: u64, upper: bool) -> (r: String)
    ensures
        r@ == numeral(n as nat, 16, upper),
{
    numeral_of(&Natural::from_u64(n), 16, upper)
}

fn zeros_of(n: usize) -> (r: String)
    ensures
        r@ == zeros(n as nat),
{
    let mut out: String = String::new();
    let mut i: usize = 0;
    while i < n
        invariant
            i <= n,
            out@ == zeros(i as nat),
        decreases n - i,
    {
        out.push('0');
        i += 1;
    }
    out
}

/// The string filled up with zeros on the left.
pub fn fill(s: &str, width: usize) -> (r: String)
    ensures
        r@ == filled(s@, width as nat),
{
    let v: Vec<char> = crate::text::chars_of(s);
    if v.len() < width {
        let mut out: String = zeros_of(width - v.len());
        out.append(s);
        out
    } else {
        s.to_string()
    }
}

// ------------------------------------------------------------------ reading numerals back

pub proof fn lemma_numeral_digits(n: nat)
    ensures
        all_digits(dec(n), 10),
        digits_value(dec(n), 10) == n,
        dec(n).len() > 0,
        dec(n)[0] != '+',
        dec(n)[0] != '-',
    decreases n,
{
    lemma_numeral_len(n, 10, false);
    if n >= 10 {
        lemma_numeral_digits(n / 10);
        let s = dec(n);
        assert(s.drop_last() =~= dec(n / 10));
        assert(s[0] == dec(n / 10)[0]);
        assert forall|i: int| 0 <= i < s.len() implies digit_of(#[trigger] s[i], 10) is Some by {
            if i < s.len() - 1 {
                assert(dec(n / 10)[i] == s[i]);
            }
        }
    } else {
        let s = dec(n);
        assert(s.drop_last() =~= Seq::empty());
        assert(digits_value(s.drop_last(), 10) == 0);
    }
}

/// A written count reads back as itself.
pub proof fn law_count_reads_back(n: u64)
    ensures
        crate::text::unsigned_of(dec(n as nat), 10, u64::MAX as nat) == Some(n as nat),
{
    lemma_numeral_digits(n as nat);
}

/// A written signed number reads back as itself.
pub proof fn law_integer_reads_back(x: i64)
    ensures
        crate::text::signed_of(dec_int(x as int), i64::MIN as int, i64::MAX as int) == Some(
            x as int,
        ),
{
    if x < 0 {
        reveal_strlit("-");
        lemma_numeral_digits((-(x as int)) as nat);
        assert(dec_int(x as int).skip(1) =~= dec((-(x as int)) as nat));
    } else {
        lemma_numeral_digits(x as nat);
    }
}


// ------------------------------------------------------------------ reading doubles

/// 10 to the power `n`.
pub open spec fn pow10(n: nat) -> nat
    decreases n,
{
    if n == 0 {
        1
    } else {
        10 * pow10((n - 1) as nat)
    }
}

/// The magnitude nearest to `digits` times 10 to the power `e`.
pub open spec fn decimal_mag(digits: nat, e: int) -> nat {
    if e >= 0 {
        round_mag(digits * pow10(e as nat) * one_unit(), 1)
    } else {
        round_mag(digits * one_unit(), pow10((-e) as nat))
    }
}

/// The first place of `e` or `E`, or the length.
pub open spec fn exponent_place(s: Seq<char>) -> int
    decreases s.len(),
{
    if s.len() == 0 || ascii_lower(s[0]) == 'e' {
        0
    } else {
        1 + exponent_place(s.skip(1))
    }
}

/// The exponent written in `s`: a sign where there is one, and digits.
pub open spec fn exponent_of(s: Seq<char>) -> Option<int> {
    let body = if s.len() > 0 && (s[0] == '+' || s[0] == '-') {
        s.skip(1)
    } else {
        s
    };
    if body.len() > 0 && all_digits(body, 10) {
        Some(
            if s[0] == '-' {
                -(digits_value(body, 10) as int)
            } else {
                digits_value(body, 10) as int
            },
        )
    } else {
        None
    }
}

/// The digits and the power of ten of an unsigned decimal number.
pub open spec fn decimal_parts(s: Seq<char>) -> Option<(nat, int)> {
    let at = exponent_place(s);
    let mantissa = s.take(at);
    let exponent = if at < s.len() {
        exponent_of(s.skip(at + 1))
    } else {
        Some(0int)
    };
    let dot = crate::text::place_of(mantissa, '.');
    let whole = mantissa.take(dot);
    let frac = if dot < mantissa.len() {
        mantissa.skip(dot + 1)
    } else {
        Seq::empty()
    };
    if all_digits(whole, 10) && all_digits(frac, 10) && whole.len() + frac.len() > 0
        && exponent is Some {
        Some((digits_value(whole + frac, 10), exponent->0 - frac.len()))
    } else {
        None
    }
}

/// The double that `s` writes: a decimal number with or without a sign, a point and
/// an exponent, or `inf`, `infinity` or `nan` in any case.
pub open spec fn parsed(s: Seq<char>) -> Option<Double> {
    let neg = s.len() > 0 && s[0] == '-';
    let body = if s.len() > 0 && (s[0] == '+' || s[0] == '-') {
        s.skip(1)
    } else {
        s
    };
    let low = body.map_values(|c: char| ascii_lower(c));
    if low == "inf"@.map_values(|c: char| ascii_lower(c)) || low == "infinity"@.map_values(
        |c: char| ascii_lower(c),
    ) {
        Some(signed(neg, INF_MAG as nat))
    } else if low == "nan"@.map_values(|c: char| ascii_lower(c)) {
        Some(signed(neg, NAN_BITS as nat))
    } else {
        match decimal_parts(body) {
            Some((digits, e)) => Some(signed(neg, decimal_mag(digits, e))),
            None => None,
        }
    }
}

pub proof fn lemma_pow10_adds(a: nat, b: nat)
    ensures
        pow10(a + b) == pow10(a) * pow10(b),
    decreases b,
{
    if b > 0 {
        lemma_pow10_adds(a, (b - 1) as nat);
        let (p, q) = (pow10(a), pow10((b - 1) as nat));
        assert(10 * (p * q) == p * (10 * q)) by (nonlinear_arith);
    } else {
        assert(pow10(a) * 1 == pow10(a));
    }
}

pub proof fn lemma_pow10_pos(n: nat)
    ensures
        pow10(n) > 0,
    decreases n,
{
    if n > 0 {
        lemma_pow10_pos((n - 1) as nat);
    }
}

proof fn lemma_pow10_large(n: nat)
    ensures
        pow10(n) >= pow2(3 * n),
    decreases n,
{
    if n > 0 {
        lemma_pow10_large((n - 1) as nat);
        lemma_pow2_unfold((3 * n) as nat);
        lemma_pow2_unfold((3 * n - 1) as nat);
        lemma_pow2_unfold((3 * n - 2) as nat);
    } else {
        vstd::arithmetic::power2::lemma2_to64();
    }
}

/// From ten to the 400th power on, every number rounds to infinity.
proof fn lemma_rounds_to_infinity(digits: nat, e: nat)
    requires
        digits >= 1,
        e >= 400,
    ensures
        round_mag(digits * pow10(e) * one_unit(), 1) == INF_MAG,
{
    let n = digits * pow10(e) * one_unit();
    lemma_pow10_large(400);
    lemma_pow10_adds(400, (e - 400) as nat);
    lemma_pow10_pos((e - 400) as nat);
    lemma_pow2_adds(1200, 1074);
    lemma_pow2_adds(2098, 176);
    lemma_pow2_adds(52, 2046);
    lemma_pow2_pos(176);
    lemma_pow2_pos(1074);
    vstd::arithmetic::power2::lemma2_to64();
    vstd::arithmetic::power2::lemma2_to64_rest();
    let (p, q, u) = (pow10(400), pow10((e - 400) as nat), pow2(1074));
    let w = digits * (p * q);
    assert(w >= p) by (nonlinear_arith)
        requires
            w == digits * (p * q),
            digits >= 1,
            q >= 1,
    ;
    let a = pow2(1200);
    assert(w * u >= a * u) by (nonlinear_arith)
        requires
            w >= a,
    ;
    let (b, c) = (pow2(2098), pow2(176));
    assert(b * c >= b) by (nonlinear_arith)
        requires
            c >= 1,
    ;
    assert(units_of(INF_MAG as nat) == pow2(2098));
    crate::double::lemma_round_exact(INF_MAG as nat);
    crate::double::lemma_round_monotone(units_of(INF_MAG as nat), 1, n, 1);
}

/// A ratio below one half rounds to zero.
proof fn lemma_rounds_to_zero(n: nat, d: nat)
    requires
        2 * n < d,
    ensures
        round_mag(n, d) == 0,
{
    vstd::arithmetic::div_mod::lemma_fundamental_div_mod_converse(n as int, d as int, 0, n as int);
    vstd::arithmetic::power2::lemma2_to64();
    assert(d * 1 == d);
}

proof fn lemma_small_rounds_to_zero(digits: nat, count: nat, e: nat)
    requires
        digits < pow10(count),
        e >= count + 400,
    ensures
        round_mag(digits * one_unit(), pow10(e)) == 0,
{
    lemma_pow10_large(400);
    lemma_pow10_adds(count, (e - count) as nat);
    lemma_pow10_adds(400, (e - count - 400) as nat);
    lemma_pow10_pos((e - count - 400) as nat);
    lemma_pow2_adds(1075, 125);
    lemma_pow2_unfold(1075);
    lemma_pow2_pos(125);
    lemma_pow2_pos(1074);
    let (p, q) = (pow10(400), pow10((e - count - 400) as nat));
    let u = pow2(1074);
    let r = pow2(125);
    let m = pow10(count);
    assert(p >= 2 * u) by (nonlinear_arith)
        requires
            p >= 2 * u * r,
            r >= 1,
    ;
    let t = p * q;
    assert(t >= 2 * u) by (nonlinear_arith)
        requires
            t == p * q,
            p >= 2 * u,
            q >= 1,
    ;
    assert(2 * (digits * u) < m * t) by (nonlinear_arith)
        requires
            digits + 1 <= m,
            t >= 2 * u,
            u >= 1,
    ;
    lemma_rounds_to_zero(digits * u, pow10(e));
}

/// `n` times 10 to the power `tens`.
fn scaled_up(n: &Natural, tens: usize) -> (r: Natural)
    ensures
        r@ == n@ * pow10(tens as nat),
{
    let mut r: Natural = n.copy();
    let mut i: usize = 0;
    assert(n@ * 1 == n@);
    while i < tens
        invariant
            i <= tens,
            r@ == n@ * pow10(i as nat),
        decreases tens - i,
    {
        proof {
            let p = pow10(i as nat);
            assert((n@ * p) * 10 == n@ * (10 * p)) by (nonlinear_arith);
        }
        r = r.mul_add(10, 0);
        i += 1;
    }
    r
}

/// The magnitude of a decimal number of `count` digits.
fn round_decimal(digits: &Natural, count: usize, e: i128) -> (r: u64)
    requires
        digits@ < pow10(count as nat),
    ensures
        r == decimal_mag(digits@, e as int),
{
    if digits.is_zero() {
        proof {
            if e >= 0 {
                assert(0 * pow10(e as nat) * one_unit() == 0) by (nonlinear_arith);
                lemma_rounds_to_zero(0, 1);
            } else {
                assert(0 * one_unit() == 0);
                lemma_pow10_pos((-(e as int)) as nat);
                lemma_rounds_to_zero(0, pow10((-(e as int)) as nat));
            }
        }
        return 0;
    }
    if e >= 400 {
        proof {
            lemma_rounds_to_infinity(digits@, e as nat);
        }
        return INF_MAG;
    }
    if e < 0 && e <= -400 - (count as i128) {
        proof {
            lemma_small_rounds_to_zero(digits@, count as nat, (-(e as int)) as nat);
        }
        return 0;
    }
    if e >= 0 {
        let n: Natural = scaled_up(digits, e as usize).shl(1074);
        crate::double::round_ratio(&n, &Natural::from_u64(1))
    } else {
        let tens: u128 = (-e) as u128;
        let n: Natural = digits.shl(1074);
        let d: Natural = tens_of(tens);
        proof {
            lemma_pow10_pos(tens as nat);
        }
        crate::double::round_ratio(&n, &d)
    }
}

/// 10 to the power `n`.
fn tens_of(n: u128) -> (r: Natural)
    ensures
        r@ == pow10(n as nat),
{
    let mut r: Natural = Natural::from_u64(1);
    let mut i: u128 = 0;
    while i < n
        invariant
            i <= n,
            r@ == pow10(i as nat),
        decreases n - i,
    {
        r = r.mul_add(10, 0);
        i += 1;
    }
    r
}


proof fn lemma_digits_below(s: Seq<char>)
    requires
        all_digits(s, 10),
    ensures
        digits_value(s, 10) < pow10(s.len()),
    decreases s.len(),
{
    if s.len() > 0 {
        let t = s.drop_last();
        assert forall|i: int| 0 <= i < t.len() implies digit_of(#[trigger] t[i], 10) is Some by {
            assert(s[i] == t[i]);
        }
        lemma_digits_below(t);
        assert(digit_of(s[s.len() - 1], 10) is Some);
    }
}

/// The value of a run of digits; none where another character stands in it.
fn read_digits(s: &[char]) -> (r: Option<Natural>)
    ensures
        match r {
            Some(v) => all_digits(s@, 10) && v@ == digits_value(s@, 10),
            None => !all_digits(s@, 10),
        },
{
    let mut v: Natural = Natural::zero();
    let mut i: usize = 0;
    while i < s.len()
        invariant
            i <= s.len(),
            v@ == digits_value(s@.take(i as int), 10),
            forall|j: int| 0 <= j < i ==> digit_of(#[trigger] s@[j], 10) is Some,
        decreases s.len() - i,
    {
        assert(s@.take(i + 1).drop_last() =~= s@.take(i as int));
        match crate::text::digit(s[i], 10) {
            None => {
                return None;
            },
            Some(d) => {
                v = v.mul_add(10, d);
            },
        }
        i += 1;
    }
    assert(s@.take(i as int) =~= s@);
    Some(v)
}

/// An exponent this large is past every double.
pub const FAR: i128 = 1000000000000000000000000000000;

/// `x` held between `-FAR` and `FAR`.
pub open spec fn held(x: int) -> int {
    if x > FAR {
        FAR as int
    } else if x < -(FAR as int) {
        -(FAR as int)
    } else {
        x
    }
}

/// The exponent written in `s`, held to what is still told apart.
fn read_exponent(s: &[char]) -> (r: Option<i128>)
    ensures
        match r {
            Some(x) => exponent_of(s@) is Some && x == held(exponent_of(s@)->0),
            None => exponent_of(s@) is None,
        },
{
    let signed: bool = s.len() > 0 && (s[0] == '+' || s[0] == '-');
    let body: &[char] = if signed {
        crate::text::tail(s, 1)
    } else {
        s
    };
    if body.len() == 0 {
        return None;
    }
    match read_digits(body) {
        None => None,
        Some(v) => {
            let limit: Natural = Natural::from_u64(1000000000000000).times_u64(1000000000000000);
            assert(limit@ == FAR);
            let x: i128 = match v.minus(&limit) {
                Some(_) => FAR,
                None => small(&v),
            };
            if s[0] == '-' {
                Some(-x)
            } else {
                Some(x)
            }
        },
    }
}

/// A natural number below the limit of exponents.
fn small(v: &Natural) -> (r: i128)
    requires
        v@ < FAR,
    ensures
        r == v@,
{
    let unit: Natural = Natural::from_u64(1000000000000000);
    let (q, r) = v.div_rem(&unit);
    proof {
        assert(q@ < 1000000000000000) by (nonlinear_arith)
            requires
                v@ == q@ * 1000000000000000 + r@,
                v@ < 1000000000000000000000000000000,
        ;
    }
    (q.to_u64() as i128) * 1000000000000000 + (r.to_u64() as i128)
}

/// Past the range of doubles, the exponent makes no difference.
proof fn lemma_far_exponents(digits: nat, count: nat, a: int, b: int)
    requires
        digits < pow10(count),
        (a >= 400 && b >= 400) || (a <= -400 - count && b <= -400 - count),
    ensures
        decimal_mag(digits, a) == decimal_mag(digits, b),
{
    if a >= 400 {
        if digits == 0 {
            assert(0 * pow10(a as nat) * one_unit() == 0) by (nonlinear_arith);
            assert(0 * pow10(b as nat) * one_unit() == 0) by (nonlinear_arith);
        } else {
            lemma_rounds_to_infinity(digits, a as nat);
            lemma_rounds_to_infinity(digits, b as nat);
        }
    } else {
        lemma_small_rounds_to_zero(digits, count, (-a) as nat);
        lemma_small_rounds_to_zero(digits, count, (-b) as nat);
    }
}

fn find_exponent(s: &[char]) -> (r: usize)
    ensures
        r == exponent_place(s@),
        r <= s.len(),
{
    let mut i: usize = 0;
    assert(s@.skip(0) =~= s@);
    while i < s.len()
        invariant
            i <= s.len(),
            exponent_place(s@) == i + exponent_place(s@.skip(i as int)),
        decreases s.len() - i,
    {
        if crate::text::lower(s[i]) == 'e' {
            return i;
        }
        assert(s@.skip(i as int).skip(1) =~= s@.skip(i + 1));
        i += 1;
    }
    i
}

/// Reads an unsigned decimal number.
fn read_decimal(s: &[char]) -> (r: Option<u64>)
    ensures
        match decimal_parts(s@) {
            Some((digits, e)) => r is Some && r->0 == decimal_mag(digits, e),
            None => r is None,
        },
{
    let at: usize = find_exponent(s);
    let mantissa: &[char] = crate::text::head(s, at);
    let exponent: Option<i128> = if at < s.len() {
        read_exponent(crate::text::tail(s, at + 1))
    } else {
        Some(0)
    };
    let ghost exact = if at < s.len() {
        exponent_of(s@.skip(at + 1))
    } else {
        Some(0int)
    };
    let dot: usize = crate::text::find(mantissa, '.');
    let whole: &[char] = crate::text::head(mantissa, dot);
    let mut all: Vec<char> = Vec::new();
    all.extend_from_slice(whole);
    let mut frac_len: usize = 0;
    let ghost frac = if dot < mantissa@.len() {
        mantissa@.skip(dot + 1)
    } else {
        Seq::empty()
    };
    assert(all@ =~= whole@);
    if dot < mantissa.len() {
        let f: &[char] = crate::text::tail(mantissa, dot + 1);
        all.extend_from_slice(f);
        frac_len = f.len();
    }
    proof {
        assert(all@ =~= whole@ + frac);
        assert(all_digits(all@, 10) == (all_digits(whole@, 10) && all_digits(frac, 10))) by {
            if all_digits(all@, 10) {
                assert forall|i: int| 0 <= i < whole@.len() implies digit_of(
                    #[trigger] whole@[i],
                    10,
                ) is Some by {
                    assert(all@[i] == whole@[i]);
                }
                assert forall|i: int| 0 <= i < frac.len() implies digit_of(
                    #[trigger] frac[i],
                    10,
                ) is Some by {
                    assert(all@[whole@.len() + i] == frac[i]);
                }
            }
        }
    }
    if all.len() == 0 {
        return None;
    }
    match (read_digits(all.as_slice()), exponent) {
        (Some(digits), Some(x)) => {
            let e: i128 = x - (frac_len as i128);
            proof {
                lemma_digits_below(all@);
                let true_e = exact->0 - frac.len();
                if true_e != e {
                    lemma_far_exponents(digits@, all@.len(), true_e, e as int);
                }
            }
            Some(round_decimal(&digits, all.len(), e))
        },
        _ => None,
    }
}

/// The double that the characters write.
pub fn parse_double(s: &[char]) -> (r: Option<Double>)
    ensures
        r == parsed(s@),
{
    let neg: bool = s.len() > 0 && s[0] == '-';
    let body: &[char] = if s.len() > 0 && (s[0] == '+' || s[0] == '-') {
        crate::text::tail(s, 1)
    } else {
        s
    };
    if crate::text::is_ignoring_case(body, "inf") || crate::text::is_ignoring_case(
        body,
        "infinity",
    ) {
        Some(crate::double::apply_sign(neg, INF_MAG))
    } else if crate::text::is_ignoring_case(body, "nan") {
        Some(crate::double::apply_sign(neg, NAN_BITS))
    } else {
        match read_decimal(body) {
            Some(m) => {
                proof {
                    let (digits, e) = decimal_parts(body@)->0;
                    assert(decimal_mag(digits, e) <= INF_MAG);
                }
                Some(crate::double::apply_sign(neg, m))
            },
            None => None,
        }
    }
}

// ------------------------------------------------------------------ writing doubles

/// A whole number of steps of 10^-`places`, with the point in its place.
pub open spec fn pointed(n: nat, places: nat) -> Seq<char> {
    if places == 0 {
        dec(n)
    } else {
        let s = filled(dec(n), places + 1);
        s.take(s.len() - places) + "."@ + s.skip(s.len() - places)
    }
}

/// The number with `places` decimals, rounded to the nearest, ties to even.
pub open spec fn fixed(x: Double, places: nat) -> Seq<char> {
    if x.is_nan() {
        "NaN"@
    } else {
        let sign = if x.neg() {
            "-"@
        } else {
            ""@
        };
        if x.is_inf() {
            sign + "inf"@
        } else {
            sign + pointed(nearest(units_of(x.mag()) * pow10(places), one_unit()), places)
        }
    }
}

fn put_point(n: &Natural, places: usize) -> (r: String)
    requires
        places < usize::MAX,
    ensures
        r@ == pointed(n@, places as nat),
{
    let digits: String = numeral_of(n, 10, false);
    if places == 0 {
        return digits;
    }
    let full: String = fill(digits.as_str(), places + 1);
    let v: Vec<char> = crate::text::chars_of(full.as_str());
    let at: usize = v.len() - places;
    let mut out: String = crate::text::string_of(crate::text::head(v.as_slice(), at));
    out.append(".");
    out.append(crate::text::string_of(crate::text::tail(v.as_slice(), at)).as_str());
    out
}

/// `n / d` to the nearest whole number.
fn nearest_of(n: &Natural, d: &Natural) -> (r: Natural)
    requires
        d@ > 0,
    ensures
        r@ == nearest(n@, d@),
{
    let (q, rem) = n.div_rem(d);
    proof {
        vstd::arithmetic::div_mod::lemma_fundamental_div_mod_converse(
            n@ as int,
            d@ as int,
            q@ as int,
            rem@ as int,
        );
    }
    let (_, odd) = q.div_small(2);
    proof {
        let half = (q@ - odd) / 2;
        assert(q@ % 2 == odd);
    }
    let up: bool = match rem.double().minus(d) {
        None => false,
        Some(over) => !over.is_zero() || odd == 1,
    };
    if up {
        q.plus(&Natural::from_u64(1))
    } else {
        q
    }
}

/// A number of units to the nearest whole number.
pub(crate) fn nearest_whole(n: &Natural) -> (r: Natural)
    ensures
        r@ == nearest(n@, one_unit()),
{
    let one: Natural = Natural::from_u64(1).shl(1074);
    proof {
        lemma_pow2_pos(1074);
    }
    nearest_of(n, &one)
}

/// The number with `places` decimals.
pub fn to_fixed(x: Double, places: usize) -> (r: String)
    requires
        places < usize::MAX,
    ensures
        r@ == fixed(x, places as nat),
{
    if x.nan() {
        return "NaN".to_string();
    }
    let mut out: String = if x.negative() {
        "-".to_string()
    } else {
        "".to_string()
    };
    if x.infinite() {
        out.append("inf");
        return out;
    }
    let n: Natural = nearest_whole(&scaled_up(&x.units(), places));
    out.append(put_point(&n, places).as_str());
    out
}


/// The magnitude over 10^`e`, as a ratio.
pub open spec fn over_ten(mag: nat, e: int) -> (nat, nat) {
    if e >= 0 {
        (units_of(mag), pow10(e as nat) * one_unit())
    } else {
        (units_of(mag) * pow10((-e) as nat), one_unit())
    }
}

/// Digits and power of ten that write `mag` with steps of 10^`e`: the neighbour that
/// reads back as `mag`, the nearer where both do. None where neither does.
pub open spec fn written_at(mag: nat, e: int) -> Option<nat> {
    let (n, d) = over_ten(mag, e);
    let low = n / d;
    let down = decimal_mag(low, e) == mag;
    let up = decimal_mag(low + 1, e) == mag;
    if down && (!up || 2 * (n % d) < d) {
        Some(low)
    } else if up {
        Some(low + 1)
    } else {
        None
    }
}

/// The largest steps, from 10^`e` down, with which `mag` can be written.
pub open spec fn written_from(mag: nat, e: int) -> (nat, int)
    decreases e + 1074,
{
    match written_at(mag, e) {
        Some(digits) => (digits, e),
        None => {
            if e <= -1074 {
                (0, e)
            } else {
                written_from(mag, e - 1)
            }
        },
    }
}

/// `digits` times 10^`e`, without an exponent.
pub open spec fn plain(digits: nat, e: int) -> Seq<char> {
    if e >= 0 {
        dec(digits) + zeros(e as nat)
    } else {
        pointed(digits, (-e) as nat)
    }
}

/// The number in the fewest digits that read back as it.
pub open spec fn shortest(x: Double) -> Seq<char> {
    if x.is_nan() {
        "NaN"@
    } else {
        let sign = if x.neg() {
            "-"@
        } else {
            ""@
        };
        if x.is_inf() {
            sign + "inf"@
        } else if x.is_zero() {
            sign + "0"@
        } else {
            let (digits, e) = written_from(x.mag(), 309);
            sign + plain(digits, e)
        }
    }
}

/// A step of at least twice the number does not read back as it.
proof fn lemma_step_too_large(mag: nat, e: int)
    requires
        0 < mag < INF_MAG,
        2 * over_ten(mag, e).0 <= over_ten(mag, e).1,
    ensures
        written_at(mag, e) is None,
{
    let (n, d) = over_ten(mag, e);
    lemma_pow2_pos(1074);
    crate::double::lemma_units_positive(mag);
    if e >= 0 {
        lemma_pow10_pos(e as nat);
    } else {
        lemma_pow10_pos((-e) as nat);
    }
    assert(n < d) by {
        if e >= 0 {
            assert(pow10(e as nat) * one_unit() > 0) by (nonlinear_arith)
                requires
                    pow10(e as nat) > 0,
                    one_unit() > 0,
            ;
        }
    }
    vstd::arithmetic::div_mod::lemma_fundamental_div_mod_converse(n as int, d as int, 0, n as int);
    let u = units_of(mag);
    crate::double::lemma_double_rounds_up(mag);
    if e >= 0 {
        assert(0 * pow10(e as nat) * one_unit() == 0) by (nonlinear_arith);
        assert(1 * pow10(e as nat) * one_unit() == d);
        lemma_rounds_to_zero(0, 1);
        crate::double::lemma_round_monotone(2 * u, 1, d, 1);
    } else {
        let p = pow10((-e) as nat);
        assert(0 * one_unit() == 0);
        assert(1 * one_unit() == one_unit());
        lemma_rounds_to_zero(0, p);
        assert((2 * u) * p == 2 * (u * p)) by (nonlinear_arith);
        crate::double::lemma_round_monotone(2 * u, 1, one_unit(), p);
    }
}

/// The digits and the power of ten of the shortest form.
fn write_from(x: Double) -> (r: (Natural, i32))
    requires
        0 < x.mag() < INF_MAG,
    ensures
        r.0@ == written_from(x.mag(), 309).0,
        r.1 == written_from(x.mag(), 309).1,
        -1074 <= r.1 <= 309,
{
    let ghost mag = x.mag();
    let u: Natural = x.units();
    let mag_bits: u64 = x.magnitude();
    let one: Natural = Natural::from_u64(1).shl(1074);
    let mut e: i32 = 309;
    // 10 to the power |e|
    let mut p: Natural = tens_of(309);
    loop
        invariant
            0 < mag < INF_MAG,
            mag == x.mag(),
            mag_bits == mag,
            u@ == units_of(mag),
            one@ == one_unit(),
            -1074 <= e <= 309,
            p@ == pow10(if e >= 0 {
                e as nat
            } else {
                (-(e as int)) as nat
            }),
            written_from(mag, 309) == written_from(mag, e as int),
        decreases e + 1074,
    {
        proof {
            lemma_pow2_pos(1074);
            lemma_pow10_pos(
                if e >= 0 {
                    e as nat
                } else {
                    (-(e as int)) as nat
                },
            );
        }
        let mut found: Option<Natural> = None;
        let ghost (n0, d0) = over_ten(mag, e as int);
        let n: Natural = if e >= 0 {
            u.copy()
        } else {
            scaled_up(&u, (-e) as usize)
        };
        let d: Natural = if e >= 0 {
            p.shl(1074)
        } else {
            one.copy()
        };
        assert(n@ == n0 && d@ == d0);
        proof {
            if e >= 0 {
                assert(pow10(e as nat) * one_unit() > 0) by (nonlinear_arith)
                    requires
                        pow10(e as nat) > 0,
                        one_unit() > 0,
                ;
            }
        }
        if d.minus(&n.double()).is_some() {
            proof {
                lemma_step_too_large(mag, e as int);
            }
        } else {
            let (low, rem) = n.div_rem(&d);
            proof {
                vstd::arithmetic::div_mod::lemma_fundamental_div_mod_converse(
                    n@ as int,
                    d@ as int,
                    low@ as int,
                    rem@ as int,
                );
            }
            let high: Natural = low.plus(&Natural::from_u64(1));
            let down: bool = reads_as(&low, e, &p, mag_bits);
            let up: bool = reads_as(&high, e, &p, mag_bits);
            if down && (!up || rem.double().minus(&d).is_none()) {
                found = Some(low);
            } else if up {
                found = Some(high);
            }
        }
        match found {
            Some(digits) => {
                return (digits, e);
            },
            None => {},
        }
        if e == -1074 {
            return (Natural::zero(), e);
        }
        if e > 0 {
            let (q, _) = p.div_small(10);
            p = q;
        } else {
            p = p.mul_add(10, 0);
        }
        e -= 1;
    }
}

/// Whether `digits` times 10^`e` reads back as the magnitude; `p` is 10^|`e`|.
fn reads_as(digits: &Natural, e: i32, p: &Natural, mag: u64) -> (r: bool)
    requires
        -1074 <= e <= 309,
        p@ == pow10(if e >= 0 {
            e as nat
        } else {
            (-(e as int)) as nat
        }),
    ensures
        r == (decimal_mag(digits@, e as int) == mag),
{
    if e >= 0 {
        let n: Natural = scaled_up(digits, e as usize).shl(1074);
        crate::double::round_ratio(&n, &Natural::from_u64(1)) == mag
    } else {
        proof {
            lemma_pow10_pos((-(e as int)) as nat);
        }
        crate::double::round_ratio(&digits.shl(1074), p) == mag
    }
}

/// The number in the fewest digits that read back as it.
pub fn to_shortest(x: Double) -> (r: String)
    ensures
        r@ == shortest(x),
{
    if x.nan() {
        return "NaN".to_string();
    }
    let mut out: String = if x.negative() {
        "-".to_string()
    } else {
        "".to_string()
    };
    if x.infinite() {
        out.append("inf");
        return out;
    }
    if x.magnitude() == 0 {
        out.append("0");
        return out;
    }
    let (digits, e) = write_from(x);
    if e >= 0 {
        let mut body: String = numeral_of(&digits, 10, false);
        body.append(zeros_of(e as usize).as_str());
        out.append(body.as_str());
    } else {
        out.append(put_point(&digits, (-e) as usize).as_str());
    }
    out
}


// ------------------------------------------------------------------ reading doubles back

/// 5 to the power `n`.
spec fn pow5(n: nat) -> nat
    decreases n,
{
    if n == 0 {
        1
    } else {
        5 * pow5((n - 1) as nat)
    }
}

proof fn lemma_pow10_factors(n: nat)
    ensures
        pow10(n) == pow5(n) * pow2(n),
    decreases n,
{
    if n == 0 {
        vstd::arithmetic::power2::lemma2_to64();
    } else {
        lemma_pow10_factors((n - 1) as nat);
        lemma_pow2_unfold(n);
        let (a, b) = (pow5((n - 1) as nat), pow2((n - 1) as nat));
        assert(10 * (a * b) == (5 * a) * (2 * b)) by (nonlinear_arith);
    }
}

/// Steps of 10^-1074 write every number exactly.
proof fn lemma_written_exactly(mag: nat)
    requires
        0 < mag < INF_MAG,
    ensures
        written_at(mag, -1074) is Some,
{
    let u = units_of(mag);
    let p = pow10(1074);
    let (n, d) = over_ten(mag, -1074);
    lemma_pow10_factors(1074);
    lemma_pow10_pos(1074);
    lemma_pow2_pos(1074);
    let f = u * pow5(1074);
    assert(u * (pow5(1074) * d) == f * d) by (nonlinear_arith)
        requires
            f == u * pow5(1074),
    ;
    vstd::arithmetic::div_mod::lemma_fundamental_div_mod_converse(n as int, d as int, f as int, 0);
    assert(f * d == u * p);
    crate::double::lemma_round_exact(mag);
    assert((u * p) * 1 == u * p);
    crate::double::lemma_round_monotone(u * p, p, u, 1);
    crate::double::lemma_round_monotone(u, 1, u * p, p);
}

/// What is written has the magnitude that it was written for.
proof fn lemma_written(mag: nat, e: int)
    requires
        0 < mag < INF_MAG,
        e >= -1074,
    ensures
        decimal_mag(written_from(mag, e).0, written_from(mag, e).1) == mag,
    decreases e + 1074,
{
    if written_at(mag, e) is None {
        if e == -1074 {
            lemma_written_exactly(mag);
        } else {
            lemma_written(mag, e - 1);
        }
    }
}

proof fn lemma_zeros_before(m: nat, s: Seq<char>)
    requires
        all_digits(s, 10),
    ensures
        all_digits(zeros(m) + s, 10),
        digits_value(zeros(m) + s, 10) == digits_value(s, 10),
    decreases m + s.len(),
{
    let t = zeros(m) + s;
    assert forall|i: int| 0 <= i < t.len() implies digit_of(#[trigger] t[i], 10) is Some by {
        if i >= m {
            assert(t[i] == s[i - m]);
        }
    }
    if s.len() > 0 {
        assert(t.drop_last() =~= zeros(m) + s.drop_last());
        assert forall|i: int| 0 <= i < s.drop_last().len() implies digit_of(
            #[trigger] s.drop_last()[i],
            10,
        ) is Some by {
            assert(s[i] == s.drop_last()[i]);
        }
        lemma_zeros_before(m, s.drop_last());
    } else if m > 0 {
        assert(t.drop_last() =~= zeros((m - 1) as nat) + s);
        lemma_zeros_before((m - 1) as nat, s);
    }
}

proof fn lemma_zeros_after(s: Seq<char>, m: nat)
    requires
        all_digits(s, 10),
    ensures
        all_digits(s + zeros(m), 10),
        digits_value(s + zeros(m), 10) == digits_value(s, 10) * pow10(m),
    decreases m,
{
    let t = s + zeros(m);
    assert forall|i: int| 0 <= i < t.len() implies digit_of(#[trigger] t[i], 10) is Some by {
        if i < s.len() {
            assert(t[i] == s[i]);
        }
    }
    if m > 0 {
        assert(t.drop_last() =~= s + zeros((m - 1) as nat));
        lemma_zeros_after(s, (m - 1) as nat);
        let (v, p) = (digits_value(s, 10), pow10((m - 1) as nat));
        assert((v * p) * 10 == v * (10 * p)) by (nonlinear_arith);
    } else {
        assert(t =~= s);
        assert(digits_value(s, 10) * 1 == digits_value(s, 10));
    }
}

proof fn lemma_no_exponent(s: Seq<char>)
    requires
        forall|i: int| 0 <= i < s.len() ==> ascii_lower(#[trigger] s[i]) != 'e',
    ensures
        exponent_place(s) == s.len(),
    decreases s.len(),
{
    if s.len() > 0 {
        assert forall|i: int| 0 <= i < s.skip(1).len() implies ascii_lower(
            #[trigger] s.skip(1)[i],
        ) != 'e' by {
            assert(s[i + 1] == s.skip(1)[i]);
        }
        assert(ascii_lower(s[0]) != 'e');
        lemma_no_exponent(s.skip(1));
    }
}

proof fn lemma_no_point(s: Seq<char>, c: char, at: int)
    requires
        0 <= at <= s.len(),
        forall|i: int| 0 <= i < at ==> #[trigger] s[i] != c,
        at < s.len() ==> s[at] == c,
    ensures
        crate::text::place_of(s, c) == at,
    decreases s.len(),
{
    if s.len() > 0 && at > 0 {
        assert(s[0] != c);
        assert forall|i: int| 0 <= i < at - 1 implies #[trigger] s.skip(1)[i] != c by {
            assert(s[i + 1] == s.skip(1)[i]);
        }
        lemma_no_point(s.skip(1), c, at - 1);
    }
}

proof fn lemma_whole_parts(digits: nat, e: int)
    requires
        e >= 0,
    ensures
        match decimal_parts(plain(digits, e)) {
            Some((d, k)) => decimal_mag(d, k) == decimal_mag(digits, e),
            None => false,
        },
        plain(digits, e).len() > 0,
        digit_of(plain(digits, e)[0], 10) is Some,
{
    lemma_numeral_digits(digits);
    let s = plain(digits, e);
    lemma_zeros_after(dec(digits), e as nat);
    assert(digit_of(s[0], 10) is Some);
    assert forall|i: int| 0 <= i < s.len() implies ascii_lower(#[trigger] s[i]) != 'e' && s[i]
        != '.' by {
        assert(digit_of(s[i], 10) is Some);
    }
    lemma_no_exponent(s);
    assert(s.take(s.len() as int) =~= s);
    lemma_no_point(s, '.', s.len() as int);
    assert(s + Seq::<char>::empty() =~= s);
    let v = digits * pow10(e as nat);
    assert(pow10(0) == 1);
    assert(v * 1 * one_unit() == v * one_unit());
}

proof fn lemma_pointed_parts(digits: nat, e: int)
    requires
        e < 0,
    ensures
        match decimal_parts(plain(digits, e)) {
            Some((d, k)) => decimal_mag(d, k) == decimal_mag(digits, e),
            None => false,
        },
        plain(digits, e).len() > 0,
        digit_of(plain(digits, e)[0], 10) is Some,
{
    lemma_numeral_digits(digits);
    let s = plain(digits, e);
    let k = (-e) as nat;
    let f = filled(dec(digits), k + 1);
    if dec(digits).len() < k + 1 {
        lemma_zeros_before((k + 1 - dec(digits).len()) as nat, dec(digits));
    }
    reveal_strlit(".");
    let a = f.len() - k;
    let (whole, frac) = (f.take(a), f.skip(a));
    assert(s =~= whole + "."@ + frac);
    assert forall|i: int| 0 <= i < s.len() implies ascii_lower(#[trigger] s[i]) != 'e' && (i
        < a ==> s[i] != '.') by {
        if i < a {
            assert(s[i] == f[i]);
            assert(digit_of(f[i], 10) is Some);
        } else if i > a {
            assert(s[i] == f[i - 1]);
            assert(digit_of(f[i - 1], 10) is Some);
        }
    }
    assert(s[0] == f[0]);
    assert(digit_of(f[0], 10) is Some);
    lemma_no_exponent(s);
    assert(s.take(s.len() as int) =~= s);
    lemma_no_point(s, '.', a);
    assert(s.take(a) =~= whole);
    assert(s.skip(a + 1) =~= frac);
    assert(whole + frac =~= f);
    assert forall|i: int| 0 <= i < whole.len() implies digit_of(#[trigger] whole[i], 10)
        is Some by {
        assert(f[i] == whole[i]);
    }
    assert forall|i: int| 0 <= i < frac.len() implies digit_of(#[trigger] frac[i], 10)
        is Some by {
        assert(f[a + i] == frac[i]);
    }
    assert(digits_value(f, 10) == digits);
}

/// A number without an exponent, taken apart, has the magnitude that it writes.
proof fn lemma_plain_parts(digits: nat, e: int)
    ensures
        match decimal_parts(plain(digits, e)) {
            Some((d, k)) => decimal_mag(d, k) == decimal_mag(digits, e),
            None => false,
        },
        plain(digits, e).len() > 0,
        digit_of(plain(digits, e)[0], 10) is Some,
{
    if e >= 0 {
        lemma_whole_parts(digits, e);
    } else {
        lemma_pointed_parts(digits, e);
    }
}

/// A finite number, written in its shortest form, reads back as the same double.
pub proof fn law_shortest_reads_back(x: Double)
    requires
        x.is_finite(),
    ensures
        parsed(shortest(x)) == Some(x),
{
    let mag = x.mag();
    let body = if mag == 0 {
        "0"@
    } else {
        plain(written_from(mag, 309).0, written_from(mag, 309).1)
    };
    reveal_strlit("0");
    reveal_strlit("-");
    reveal_strlit("");
    reveal_strlit("inf");
    reveal_strlit("infinity");
    reveal_strlit("nan");
    let (digits, e): (nat, int) = if mag == 0 {
        (0, 0)
    } else {
        written_from(mag, 309)
    };
    if mag == 0 {
        assert(dec(0) =~= seq!['0']);
        assert(plain(0, 0) =~= "0"@);
        assert(0 * pow10(0) * one_unit() == 0) by (nonlinear_arith);
        lemma_rounds_to_zero(0, 1);
    } else {
        lemma_written(mag, 309);
    }
    assert(body == plain(digits, e));
    assert(decimal_mag(digits, e) == mag);
    lemma_plain_parts(digits, e);
    let s = shortest(x);
    if x.neg() {
        assert(s.skip(1) =~= body);
    } else {
        assert(s =~= body);
    }
    let low = body.map_values(|c: char| ascii_lower(c));
    assert(low[0] == ascii_lower(body[0]));
    assert("inf"@.map_values(|c: char| ascii_lower(c))[0] == 'i');
    assert("infinity"@.map_values(|c: char| ascii_lower(c))[0] == 'i');
    assert("nan"@.map_values(|c: char| ascii_lower(c))[0] == 'n');
}

/// The digits of the shortest form of a finite number, and how many of them stand behind
/// the point.
pub open spec fn shortest_parts(x: Double) -> (nat, nat) {
    if x.is_zero() {
        (0, 0)
    } else {
        let (digits, e) = written_from(x.mag(), 309);
        if e >= 0 {
            (digits * pow10(e as nat), 0)
        } else {
            (digits, (-e) as nat)
        }
    }
}

/// A numeral with zeros behind it is that of the number times a power of ten.
pub proof fn lemma_zeros_multiply(n: nat, m: nat)
    requires
        n > 0,
    ensures
        dec(n) + zeros(m) == dec(n * pow10(m)),
    decreases m,
{
    if m == 0 {
        assert(n * 1 == n);
        assert(dec(n) + zeros(0) =~= dec(n));
    } else {
        let k = (m - 1) as nat;
        lemma_zeros_multiply(n, k);
        lemma_pow10_pos(k);
        let v = n * pow10(k);
        assert(v >= 1) by (nonlinear_arith)
            requires
                v == n * pow10(k),
                n >= 1,
                pow10(k) >= 1,
        ;
        assert(n * (10 * pow10(k)) == 10 * v) by (nonlinear_arith)
            requires
                v == n * pow10(k),
        ;
        assert((10 * v) / 10 == v);
        assert((10 * v) % 10 == 0);
        assert(dec(n) + zeros(m) =~= (dec(n) + zeros(k)).push('0'));
    }
}

/// A number that has more than 64 bits of digits in steps of 10^`e` can be written in steps
/// ten times as wide.
proof fn lemma_wider_steps(mag: nat, e: int)
    requires
        0 < mag < INF_MAG,
        over_ten(mag, e).0 / over_ten(mag, e).1 >= u64::MAX,
    ensures
        written_at(mag, e + 1) is Some,
{
    let u = units_of(mag);
    let o = one_unit();
    lemma_pow2_pos(1074);
    let (n, d) = over_ten(mag, e);
    let (m, w) = over_ten(mag, e + 1);
    let low = m / w;
    if e + 1 >= 0 {
        let p = pow10((e + 1) as nat);
        lemma_pow10_pos((e + 1) as nat);
        assert(w > 0) by (nonlinear_arith)
            requires
                w == p * o,
                p > 0,
                o > 0,
        ;
        // ten steps are one of the wider ones
        assert(10 * u >= (u64::MAX as nat) * w) by {
            if e >= 0 {
                lemma_pow10_pos(e as nat);
                let t = pow10(e as nat);
                assert(d > 0) by (nonlinear_arith)
                    requires
                        d == t * o,
                        t > 0,
                        o > 0,
                ;
                assert(w == 10 * d) by (nonlinear_arith)
                    requires
                        w == (10 * t) * o,
                        d == t * o,
                ;
                lemma_at_least(n, d, u64::MAX as nat);
            } else {
                assert(pow10(0) == 1);
                assert(pow10(1) == 10) by {
                    reveal_with_fuel(pow10, 2);
                }
                assert(n == 10 * u) by (nonlinear_arith)
                    requires
                        n == u * 10,
                ;
                assert(1 * o == o);
                lemma_at_least(n, d, u64::MAX as nat);
            }
        }
        vstd::arithmetic::div_mod::lemma_fundamental_div_mod(u as int, w as int);
        vstd::arithmetic::div_mod::lemma_mod_bound(u as int, w as int);
        let a = low * p * o;
        assert(a == w * low) by (nonlinear_arith)
            requires
                a == low * p * o,
                w == p * o,
        ;
        assert(u * 1 == u);
        crate::double::lemma_just_below(a, 1, mag);
    } else {
        let k = (-(e + 1)) as nat;
        let p = pow10(k);
        lemma_pow10_pos(k);
        assert(pow10((-e) as nat) == 10 * p);
        assert(n == 10 * m) by (nonlinear_arith)
            requires
                n == u * (10 * p),
                m == u * p,
        ;
        lemma_at_least(n, d, u64::MAX as nat);
        vstd::arithmetic::div_mod::lemma_fundamental_div_mod(m as int, w as int);
        vstd::arithmetic::div_mod::lemma_mod_bound(m as int, w as int);
        assert(low * o == o * low) by (nonlinear_arith);
        crate::double::lemma_just_below(low * o, p, mag);
    }
}

proof fn lemma_at_least(n: nat, d: nat, q: nat)
    requires
        d > 0,
        n / d >= q,
    ensures
        n >= q * d,
{
    vstd::arithmetic::div_mod::lemma_fundamental_div_mod(n as int, d as int);
    vstd::arithmetic::div_mod::lemma_mod_bound(n as int, d as int);
    assert(q * d <= d * (n / d)) by (nonlinear_arith)
        requires
            n / d >= q,
            d > 0,
    ;
}

/// The digits are the number of steps, or one more.
proof fn lemma_written_digits(mag: nat, e: int)
    requires
        over_ten(mag, e).0 / over_ten(mag, e).1 < u64::MAX,
    ensures
        written_at(mag, e) matches Some(digits) ==> digits <= u64::MAX,
{
    let (n, d) = over_ten(mag, e);
    lemma_pow2_pos(1074);
    if e >= 0 {
        let p = pow10(e as nat);
        lemma_pow10_pos(e as nat);
        assert(p * one_unit() > 0) by (nonlinear_arith)
            requires
                p > 0,
                one_unit() > 0,
        ;
    }
    vstd::arithmetic::div_mod::lemma_div_pos_is_pos(n as int, d as int);
    let low = n / d;
    if let Some(digits) = written_at(mag, e) {
        assert(digits == low || digits == low + 1);
    }
}

/// Below the widest steps tried, the digits of the shortest form fit in 64 bits.
proof fn lemma_digits_fit(mag: nat, e: int)
    requires
        0 < mag < INF_MAG,
        e >= -1074,
    ensures
        written_from(mag, e).1 <= e,
        written_from(mag, e).1 >= -1074,
        written_from(mag, e).1 == e || written_from(mag, e).0 <= u64::MAX,
    decreases e + 1074,
{
    if written_at(mag, e) is None && e > -1074 {
        lemma_digits_fit(mag, e - 1);
        reveal_with_fuel(written_from, 2);
        assert(written_from(mag, e) == written_from(mag, e - 1));
        if written_at(mag, e - 1) is None && e - 1 > -1074 {
            lemma_digits_fit(mag, e - 2);
        }
        if written_from(mag, e - 1).1 == e - 1 {
            if over_ten(mag, e - 1).0 / over_ten(mag, e - 1).1 >= u64::MAX {
                lemma_wider_steps(mag, e - 1);
                assert(written_at(mag, e) is Some);
            }
            lemma_written_digits(mag, e - 1);
        }
    }
}

/// Ten to the power `4 * n` has at least `13 * n` bits.
proof fn lemma_pow10_bits(n: nat)
    ensures
        pow10(4 * n) >= pow2(13 * n),
    decreases n,
{
    if n > 0 {
        let m = (n - 1) as nat;
        lemma_pow10_bits(m);
        lemma_pow10_adds(4 * m, 4);
        lemma_pow2_adds(13 * m, 13);
        reveal_with_fuel(pow10, 5);
        vstd::arithmetic::power2::lemma2_to64();
        let (p, q) = (pow10(4 * m), pow2(13 * m));
        assert(p * 10000 >= q * 8192) by (nonlinear_arith)
            requires
                p >= q,
        ;
    } else {
        vstd::arithmetic::power2::lemma2_to64();
    }
}

/// The whole numbers from 10^320 on round to infinity.
proof fn lemma_too_large(n: nat)
    requires
        n >= pow10(320),
    ensures
        round_mag(n * one_unit(), 1) == INF_MAG,
{
    lemma_pow10_bits(80);
    lemma_pow2_adds(1040, 1074);
    lemma_pow2_adds(2098, 16);
    lemma_pow2_adds(52, 2046);
    lemma_pow2_pos(1074);
    vstd::arithmetic::power2::lemma2_to64();
    vstd::arithmetic::power2::lemma2_to64_rest();
    let (a, u, b) = (pow2(1040), one_unit(), pow2(2098));
    assert(n * u >= a * u) by (nonlinear_arith)
        requires
            n >= a,
    ;
    assert(a * u >= b) by (nonlinear_arith)
        requires
            a * u == b * 65536,
    ;
    assert(units_of(INF_MAG as nat) == b);
    crate::double::lemma_round_exact(INF_MAG as nat);
    crate::double::lemma_round_monotone(b, 1, n * u, 1);
}

proof fn lemma_large_power()
    ensures
        pow10(320) > u64::MAX,
{
    lemma_pow10_bits(80);
    lemma_pow2_adds(64, 976);
    lemma_pow2_pos(976);
    vstd::arithmetic::power2::lemma2_to64();
    let q = pow2(976);
    assert(18446744073709551616 * q >= 18446744073709551616) by (nonlinear_arith)
        requires
            q >= 1,
    ;
}

/// What the shortest form of a number writes, and the magnitude that its digits round to.
pub proof fn lemma_shortest_parts(x: Double)
    requires
        x.is_finite(),
    ensures
        shortest(x) == (if x.neg() {
            "-"@
        } else {
            ""@
        }) + pointed(shortest_parts(x).0, shortest_parts(x).1),
        round_mag(shortest_parts(x).0 * one_unit(), pow10(shortest_parts(x).1)) == x.mag(),
        shortest_parts(x).1 <= 1074,
        shortest_parts(x).1 > 0 ==> shortest_parts(x).0 <= u64::MAX,
        shortest_parts(x).0 < pow10(320),
{
    let mag = x.mag();
    reveal_strlit("0");
    lemma_pow10_pos(320);
    if mag == 0 {
        assert(dec(0) =~= "0"@);
        assert(0 * one_unit() == 0) by (nonlinear_arith);
        assert(pow10(0) == 1);
        lemma_rounds_to_zero(0, 1);
    } else {
        let (digits, e) = written_from(mag, 309);
        lemma_written(mag, 309);
        lemma_digits_fit(mag, 309);
        let all = shortest_parts(x).0;
        if e < 0 {
            lemma_large_power();
        } else if all >= pow10(320) {
            lemma_too_large(all);
        }
        if digits == 0 {
            lemma_pow10_pos((-e) as nat);
            assert(0 * pow10(e as nat) * one_unit() == 0) by (nonlinear_arith);
            assert(0 * one_unit() == 0) by (nonlinear_arith);
            lemma_rounds_to_zero(0, 1);
            lemma_rounds_to_zero(0, pow10((-e) as nat));
        }
        if e >= 0 {
            lemma_zeros_multiply(digits, e as nat);
            assert(pow10(0) == 1);
        }
    }
}

proof fn lemma_pow5_below(a: nat, b: nat)
    requires
        a <= b,
    ensures
        0 < pow5(a) <= pow5(b),
    decreases b,
{
    if a < b {
        lemma_pow5_below(a, (b - 1) as nat);
    } else if a > 0 {
        lemma_pow5_below((a - 1) as nat, (a - 1) as nat);
    }
}

/// The powers of ten up to 10^22 are doubles.
pub proof fn lemma_power_exact(places: nat)
    requires
        places <= 22,
    ensures
        of_int(pow10(places) as int).is_finite(),
        !of_int(pow10(places) as int).neg(),
        units_of(of_int(pow10(places) as int).mag()) == pow10(places) * one_unit(),
{
    let m = pow5(places);
    let j = places + 1074;
    lemma_pow5_below(places, 22);
    reveal_with_fuel(pow5, 23);
    assert(pow5(22) == 2384185791015625);
    lemma_pow10_factors(places);
    lemma_pow2_adds(places, 1074);
    let n = m * pow2(j);
    assert(n == pow10(places) * one_unit()) by (nonlinear_arith)
        requires
            n == m * pow2(j),
            pow2(j) == pow2(places) * one_unit(),
            pow10(places) == m * pow2(places),
    ;
    crate::double::lemma_within_range(m, j);
    crate::double::lemma_representable(m, j);
    crate::double::lemma_signed(false, round_mag(n, 1));
}

} // verus!
