//! How texts come apart and numbers are written.

use crate::decimal::{
    dec, decimal_mag, decimal_parts, exponent_of, exponent_place, filled, fixed, lemma_pow10_pos,
    lemma_zeros_multiply, over_ten, pointed, pow10, written_at, written_from, zeros,
};
use crate::double::{
    lemma_round_exact, lemma_round_monotone, lemma_whole_exact, nearest, of_int, one_unit, units_of,
    Double, INF_MAG,
};
use crate::text::{
    after_last, ascii_lower, begins, code_of, digit_of, ends, halves, is_space, joined,
    last_place_of, lemma_place_is, lemma_place_of, lemma_word_len, lines_of, occurs, pieces,
    place_of, trimmed, trimmed_end, trimmed_start, unsigned_of, word_len, words_of,
};
use vstd::arithmetic::power2::lemma_pow2_pos;
use vstd::prelude::*;

verus! {

// ------------------------------------------------------------------ parts

/// A text comes apart at the first separator.
pub proof fn law_halves_part_at_the_first(s: Seq<char>, c: char)
    ensures
        match halves(s, c) {
            Some((a, b)) => s == a + seq![c] + b && !a.contains(c),
            None => !s.contains(c),
        },
{
    lemma_place_of(s, c);
    let i = place_of(s, c);
    if i < s.len() {
        assert(s =~= s.take(i) + seq![c] + s.skip(i + 1));
    }
}

/// What comes after the last separator holds none.
pub proof fn law_the_last_part_holds_no_separator(s: Seq<char>, c: char)
    ensures
        match after_last(s, c) {
            Some(r) => !r.contains(c) && ends(s, seq![c] + r),
            None => !s.contains(c),
        },
    decreases s.len(),
{
    let i = last_place_of(s, c);
    lemma_last_place(s, c);
    if i >= 0 {
        let r = s.skip(i + 1);
        assert(s.skip(i) =~= seq![c] + r);
    }
}

proof fn lemma_last_place(s: Seq<char>, c: char)
    ensures
        -1 <= last_place_of(s, c) < s.len(),
        last_place_of(s, c) >= 0 ==> s[last_place_of(s, c)] == c,
        forall|i: int| last_place_of(s, c) < i < s.len() ==> #[trigger] s[i] != c,
    decreases s.len(),
{
    if s.len() > 0 && s.last() != c {
        let head = s.drop_last();
        lemma_last_place(head, c);
        assert forall|i: int| last_place_of(s, c) < i < s.len() implies #[trigger] s[i] != c by {
            if i < head.len() {
                assert(head[i] == s[i]);
            }
        }
    }
}

proof fn lemma_joined_first(a: Seq<char>, v: Seq<Seq<char>>, sep: Seq<char>)
    requires
        v.len() > 0,
    ensures
        joined(seq![a] + v, sep) == a + sep + joined(v, sep),
    decreases v.len(),
{
    let w = seq![a] + v;
    assert(w.drop_last() =~= seq![a] + v.drop_last());
    assert(w.last() == v.last());
    if v.len() == 1 {
        assert(w.drop_last() =~= seq![a]);
        assert(joined(w.drop_last(), sep) == a);
    } else {
        lemma_joined_first(a, v.drop_last(), sep);
        assert(joined(w, sep) =~= a + sep + joined(v, sep));
    }
}

/// The pieces, put together with the separator between them, are the text; none of them holds
/// the separator.
pub proof fn law_pieces_make_up_the_text(s: Seq<char>, sep: char)
    ensures
        pieces(s, sep).len() > 0,
        joined(pieces(s, sep), seq![sep]) == s,
        forall|i: int| 0 <= i < pieces(s, sep).len() ==> !(#[trigger] pieces(s, sep)[i]).contains(sep),
    decreases s.len(),
{
    lemma_place_of(s, sep);
    let i = place_of(s, sep);
    if i < s.len() {
        let (a, rest) = (s.take(i), s.skip(i + 1));
        law_pieces_make_up_the_text(rest, sep);
        lemma_joined_first(a, pieces(rest, sep), seq![sep]);
        assert(s =~= a + seq![sep] + rest);
        assert(!a.contains(sep));
        let p = pieces(s, sep);
        assert forall|k: int| 0 <= k < p.len() implies !(#[trigger] p[k]).contains(sep) by {
            if k > 0 {
                assert(p[k] == pieces(rest, sep)[k - 1]);
            }
        }
    } else {
        assert(!s.contains(sep));
    }
}

/// White space throughout.
pub open spec fn is_blank(s: Seq<char>) -> bool {
    forall|i: int| 0 <= i < s.len() ==> is_space(#[trigger] s[i])
}

/// Trimming takes white space off both ends, and all of it.
pub proof fn law_trimming_takes_the_ends(s: Seq<char>)
    ensures
        exists|a: Seq<char>, b: Seq<char>|
            is_blank(a) && is_blank(b) && s == #[trigger] (a + trimmed(s) + b),
        trimmed(s).len() > 0 ==> !is_space(trimmed(s)[0]) && !is_space(trimmed(s).last()),
{
    let a = lemma_trimmed_start(s);
    let t = trimmed_start(s);
    let b = lemma_trimmed_end(t);
    assert(s =~= a + trimmed(s) + b);
    if trimmed(s).len() > 0 {
        assert(trimmed(s)[0] == t[0]);
    }
}

proof fn lemma_trimmed_start(s: Seq<char>) -> (a: Seq<char>)
    ensures
        is_blank(a),
        s == a + trimmed_start(s),
        trimmed_start(s).len() > 0 ==> !is_space(trimmed_start(s)[0]),
    decreases s.len(),
{
    if s.len() > 0 && is_space(s[0]) {
        let b = lemma_trimmed_start(s.skip(1));
        let a = seq![s[0]] + b;
        assert forall|i: int| 0 <= i < a.len() implies is_space(#[trigger] a[i]) by {
            if i > 0 {
                assert(a[i] == b[i - 1]);
            }
        }
        assert(trimmed_start(s) == trimmed_start(s.skip(1)));
        assert(s =~= seq![s[0]] + s.skip(1));
        assert(seq![s[0]] + (b + trimmed_start(s)) =~= a + trimmed_start(s));
        a
    } else {
        assert(s =~= Seq::empty() + s);
        Seq::empty()
    }
}

proof fn lemma_trimmed_end(s: Seq<char>) -> (b: Seq<char>)
    ensures
        is_blank(b),
        s == trimmed_end(s) + b,
        trimmed_end(s).len() > 0 ==> !is_space(trimmed_end(s).last()),
    decreases s.len(),
{
    if s.len() > 0 && is_space(s.last()) {
        let c = lemma_trimmed_end(s.drop_last());
        let b = c.push(s.last());
        assert(trimmed_end(s) == trimmed_end(s.drop_last()));
        assert(s =~= s.drop_last().push(s.last()));
        assert((trimmed_end(s) + c).push(s.last()) =~= trimmed_end(s) + b);
        b
    } else {
        assert(s =~= s + Seq::empty());
        Seq::empty()
    }
}

/// A text without white space is one word.
pub proof fn law_a_word_is_a_word(w: Seq<char>)
    requires
        w.len() > 0,
        forall|i: int| 0 <= i < w.len() ==> !is_space(#[trigger] w[i]),
    ensures
        words_of(w) == seq![w],
{
    lemma_full_word(w);
    assert(w.take(w.len() as int) =~= w);
    assert(w.skip(w.len() as int) =~= Seq::empty());
    assert(words_of(Seq::<char>::empty()) =~= Seq::empty());
    assert(words_of(w) == seq![w.take(w.len() as int)] + words_of(w.skip(w.len() as int)));
    assert(seq![w] + Seq::<Seq<char>>::empty() =~= seq![w]);
}

proof fn lemma_full_word(w: Seq<char>)
    requires
        forall|i: int| 0 <= i < w.len() ==> !is_space(#[trigger] w[i]),
    ensures
        word_len(w) == w.len(),
    decreases w.len(),
{
    if w.len() > 0 {
        let t = w.skip(1);
        assert forall|i: int| 0 <= i < t.len() implies !is_space(#[trigger] t[i]) by {
            assert(t[i] == w[i + 1]);
        }
        lemma_full_word(t);
    }
}

proof fn lemma_word_before(a: Seq<char>, c: char, b: Seq<char>)
    requires
        is_space(c),
    ensures
        word_len(a + seq![c] + b) == word_len(a),
    decreases a.len(),
{
    let s = a + seq![c] + b;
    if a.len() > 0 && !is_space(a[0]) {
        lemma_word_before(a.skip(1), c, b);
        assert(s.skip(1) =~= a.skip(1) + seq![c] + b);
    }
}

/// White space parts words: those before it and those after it, and no more.
pub proof fn law_white_space_parts_words(a: Seq<char>, c: char, b: Seq<char>)
    requires
        is_space(c),
    ensures
        words_of(a + seq![c] + b) == words_of(a) + words_of(b),
    decreases a.len(),
{
    let s = a + seq![c] + b;
    if a.len() == 0 {
        assert(s.skip(1) =~= b);
        assert(words_of(a) + words_of(b) =~= words_of(b));
    } else if is_space(a[0]) {
        law_white_space_parts_words(a.skip(1), c, b);
        assert(s.skip(1) =~= a.skip(1) + seq![c] + b);
    } else {
        let n = word_len(a) as int;
        lemma_word_before(a, c, b);
        lemma_word_len(a);
        law_white_space_parts_words(a.skip(n), c, b);
        assert(s.take(n) =~= a.take(n));
        assert(s.skip(n) =~= a.skip(n) + seq![c] + b);
        assert(seq![a.take(n)] + (words_of(a.skip(n)) + words_of(b)) =~= seq![a.take(n)]
            + words_of(a.skip(n)) + words_of(b));
    }
}

/// A line ends at a line feed, with or without a carriage return before it.
pub proof fn law_a_line_ends_at_a_line_feed(a: Seq<char>, b: Seq<char>)
    requires
        !a.contains('\n'),
    ensures
        lines_of(a + seq!['\n'] + b) == seq![
            if a.len() > 0 && a.last() == '\r' {
                a.drop_last()
            } else {
                a
            },
        ] + lines_of(b),
        a.len() > 0 ==> lines_of(a) == seq![a],
        lines_of(Seq::empty()) == Seq::<Seq<char>>::empty(),
{
    let s = a + seq!['\n'] + b;
    let n = a.len() as int;
    assert forall|j: int| 0 <= j < n implies s[j] != '\n' by {
        assert(s[j] == a[j]);
        assert(a.contains(a[j]));
    }
    assert(s[n] == '\n');
    lemma_place_is(s, '\n', n);
    assert(s.take(n) =~= a);
    assert(s.skip(n + 1) =~= b);
    assert forall|j: int| 0 <= j < n implies a[j] != '\n' by {
        assert(a.contains(a[j]));
    }
    lemma_place_is(a, '\n', n);
}

/// A text occurs in another exactly where that is something, the text, and something more.
pub proof fn law_what_occurs_is_within(a: Seq<char>, p: Seq<char>, b: Seq<char>)
    ensures
        occurs(a + p + b, p),
        begins(p + b, p),
        ends(a + p, p),
{
    let s = a + p + b;
    assert(s.skip(a.len() as int).take(p.len() as int) =~= p);
    assert(begins(s.skip(a.len() as int), p));
    assert((p + b).take(p.len() as int) =~= p);
    assert((a + p).skip(a.len() as int) =~= p);
}

/// Lower case is of the letters from `A` to `Z` alone.
pub proof fn law_letters_are_lowered(c: char)
    ensures
        'A' <= c <= 'Z' ==> ascii_lower(c) as int - 'a' as int == c as int - 'A' as int,
        !('A' <= c <= 'Z') ==> ascii_lower(c) == c,
        ascii_lower(ascii_lower(c)) == ascii_lower(c),
{
}

/// Digits are worth their place in `0123456789abcdef`, in either case, below the radix.
pub proof fn law_digits_are_worth_their_place(c: char, radix: nat)
    requires
        2 <= radix <= 16,
    ensures
        match digit_of(c, radix) {
            Some(d) => d < radix && if '0' <= c <= '9' {
                d == c as int - '0' as int
            } else {
                d == 10 + ascii_lower(c) as int - 'a' as int
            },
            None => !('0' <= c <= '9' && (c as int - '0' as int) < radix) && !('a' <= ascii_lower(
                c,
            ) <= 'f' && (10 + ascii_lower(c) as int - 'a' as int) < radix),
        },
{
}

/// A code is hexadecimal behind `0x` or `0X`, else decimal.
pub proof fn law_codes_are_hexadecimal_behind_0x(s: Seq<char>)
    ensures
        code_of("0x"@ + s) == unsigned_of(s, 16, u64::MAX as nat),
        code_of("0X"@ + s) == unsigned_of(s, 16, u64::MAX as nat),
        !begins(s, "0x"@) && !begins(s, "0X"@) ==> code_of(s) == unsigned_of(
            s,
            10,
            u64::MAX as nat,
        ),
{
    reveal_strlit("0x");
    reveal_strlit("0X");
    let (a, b) = ("0x"@ + s, "0X"@ + s);
    assert(a.take(2) =~= "0x"@ && a.skip(2) =~= s);
    assert(b.take(2) =~= "0X"@ && b.skip(2) =~= s);
}

// ------------------------------------------------------------------ decimals

/// A number with decimals is written to the nearest step.
pub proof fn law_decimals_are_rounded_to_the_nearest(x: Double, places: nat)
    requires
        x.is_finite(),
        !x.neg(),
    ensures
        exists|k: nat| #[trigger]
            pointed(k, places) == fixed(x, places) && 2 * (k * one_unit() - units_of(x.mag())
                * pow10(places)) <= one_unit() && 2 * (units_of(x.mag()) * pow10(places) - k
                * one_unit()) <= one_unit(),
{
    let u = one_unit();
    let n = units_of(x.mag()) * pow10(places);
    lemma_pow2_pos(1074);
    let k = nearest(n, u);
    lemma_nearest(n, u);
    reveal_strlit("");
    assert(""@ + pointed(k, places) =~= pointed(k, places));
    assert(pointed(k, places) == fixed(x, places));
}

proof fn lemma_nearest(n: nat, d: nat)
    requires
        d > 0,
    ensures
        2 * (nearest(n, d) * d - n) <= d,
        2 * (n - nearest(n, d) * d) <= d,
{
    let (q, r) = (n / d, n % d);
    vstd::arithmetic::div_mod::lemma_fundamental_div_mod(n as int, d as int);
    assert(d * q == q * d) by (nonlinear_arith);
    assert((q + 1) * d == q * d + d) by (nonlinear_arith);
}

/// A whole number is written with zeros behind the point.
pub proof fn law_whole_numbers_are_written_with_zeros(n: nat, places: nat)
    requires
        n < 9007199254740992,
        places > 0,
    ensures
        fixed(of_int(n as int), places) == dec(n) + "."@ + zeros(places),
        fixed(of_int(n as int), 0) == dec(n),
{
    let u = one_unit();
    lemma_whole_exact(n as int);
    lemma_pow2_pos(1074);
    lemma_pow10_pos(places);
    reveal_strlit("");
    lemma_exact_nearest(n * pow10(places), u);
    lemma_exact_nearest(n, u);
    assert(n * u * pow10(places) == (n * pow10(places)) * u) by (nonlinear_arith);
    assert(pow10(0) == 1);
    assert(n * u * 1 == n * u);
    let k = n * pow10(places);
    assert(""@ + pointed(k, places) =~= pointed(k, places));
    assert(""@ + dec(n) =~= dec(n));
    let s = filled(dec(k), places + 1);
    if n > 0 {
        lemma_zeros_multiply(n, places);
        crate::decimal::lemma_numeral_digits(n);
        assert(s == dec(n) + zeros(places));
        assert(s.take(s.len() - places) =~= dec(n));
        assert(s.skip(s.len() - places) =~= zeros(places));
    } else {
        assert(k == 0) by (nonlinear_arith)
            requires
                k == n * pow10(places),
                n == 0,
        ;
        assert(dec(0) =~= seq!['0']);
        assert(s =~= zeros(places + 1));
        assert(s.take(s.len() - places) =~= dec(0));
        assert(s.skip(s.len() - places) =~= zeros(places));
    }
}

proof fn lemma_exact_nearest(k: nat, d: nat)
    requires
        d > 0,
    ensures
        nearest(k * d, d) == k,
{
    vstd::arithmetic::div_mod::lemma_div_multiples_vanish(k as int, d as int);
    vstd::arithmetic::div_mod::lemma_mod_multiples_basic(k as int, d as int);
    assert(k * d == d * k) by (nonlinear_arith);
}

/// What is written in wider steps is at most, or at least, as much as its neighbours.
proof fn lemma_neighbours(mag: nat, e: int, d: nat)
    requires
        mag <= INF_MAG,
        written_at(mag, e) is None,
    ensures
        decimal_mag(d, e) != mag,
{
    let (n, w) = over_ten(mag, e);
    let u = one_unit();
    let low = n / w;
    lemma_pow2_pos(1074);
    lemma_round_exact(mag);
    if e >= 0 {
        let p = pow10(e as nat);
        lemma_pow10_pos(e as nat);
        assert(w > 0) by (nonlinear_arith)
            requires
                w == p * u,
                p > 0,
                u > 0,
        ;
        vstd::arithmetic::div_mod::lemma_fundamental_div_mod(n as int, w as int);
        assert(low * p * u == w * low) by (nonlinear_arith)
            requires
                w == p * u,
        ;
        assert((low + 1) * p * u == w * low + w) by (nonlinear_arith)
            requires
                w == p * u,
        ;
        assert(low * p * u <= n <= (low + 1) * p * u);
        lemma_round_monotone(low * p * u, 1, n, 1);
        lemma_round_monotone(n, 1, (low + 1) * p * u, 1);
        if d <= low {
            assert(d * p * u <= low * p * u) by (nonlinear_arith)
                requires
                    d <= low,
            ;
            lemma_round_monotone(d * p * u, 1, low * p * u, 1);
        } else {
            assert((low + 1) * p * u <= d * p * u) by (nonlinear_arith)
                requires
                    low + 1 <= d,
            ;
            lemma_round_monotone((low + 1) * p * u, 1, d * p * u, 1);
        }
    } else {
        let p = pow10((-e) as nat);
        let a = units_of(mag);
        lemma_pow10_pos((-e) as nat);
        vstd::arithmetic::div_mod::lemma_fundamental_div_mod(n as int, w as int);
        assert(low * u <= a * p <= (low + 1) * u) by (nonlinear_arith)
            requires
                n == a * p,
                w == u,
                n == w * low + n % w,
                0 <= n % w < w,
        ;
        lemma_round_monotone(low * u, p, a, 1);
        lemma_round_monotone(a, 1, (low + 1) * u, p);
        if d <= low {
            assert((d * u) * p <= (low * u) * p) by (nonlinear_arith)
                requires
                    d <= low,
            ;
            lemma_round_monotone(d * u, p, low * u, p);
        } else {
            assert(((low + 1) * u) * p <= (d * u) * p) by (nonlinear_arith)
                requires
                    low + 1 <= d,
            ;
            lemma_round_monotone((low + 1) * u, p, d * u, p);
        }
    }
}

proof fn lemma_wider_steps_fail(mag: nat, e: int, k: int)
    requires
        -1074 <= e,
        written_from(mag, e).1 < k <= e,
    ensures
        written_at(mag, k) is None,
    decreases e + 1074,
{
    if k < e {
        lemma_wider_steps_fail(mag, e - 1, k);
    }
}

/// A number is written in the widest steps that read back as it: with any wider ones, whatever
/// the digits, another number would be read.
pub proof fn law_no_wider_steps_read_back(mag: nat, k: int, digits: nat)
    requires
        mag <= INF_MAG,
        written_from(mag, 309).1 < k <= 309,
    ensures
        decimal_mag(digits, k) != mag,
{
    lemma_wider_steps_fail(mag, 309, k);
    lemma_neighbours(mag, k, digits);
}

/// An exponent moves the point: by so many places up, or down where it is negative.
pub proof fn law_an_exponent_moves_the_point(s: Seq<char>, digits: nat, e: int, k: nat)
    requires
        forall|i: int| 0 <= i < s.len() ==> ascii_lower(#[trigger] s[i]) != 'e',
        decimal_parts(s) == Some((digits, e)),
    ensures
        decimal_parts(s + seq!['e'] + dec(k)) == Some((digits, e + k)),
        decimal_parts(s + seq!['e', '-'] + dec(k)) == Some((digits, e - k)),
{
    crate::decimal::lemma_numeral_digits(k);
    lemma_exponent(s, dec(k), digits, e, k as int);
    assert(s + seq!['e'] + dec(k) =~= s + (seq!['e'] + dec(k)));
    let t = seq!['-'] + dec(k);
    assert(t.skip(1) =~= dec(k));
    assert(exponent_of(t) == Some(-(k as int)));
    lemma_exponent(s, t, digits, e, -(k as int));
    assert(s + seq!['e', '-'] + dec(k) =~= s + (seq!['e'] + t));
}

proof fn lemma_exponent(s: Seq<char>, t: Seq<char>, digits: nat, e: int, k: int)
    requires
        forall|i: int| 0 <= i < s.len() ==> ascii_lower(#[trigger] s[i]) != 'e',
        decimal_parts(s) == Some((digits, e)),
        exponent_of(t) == Some(k),
    ensures
        decimal_parts(s + (seq!['e'] + t)) == Some((digits, e + k)),
{
    let n = s.len() as int;
    let a = s + (seq!['e'] + t);
    lemma_no_mark(s);
    lemma_first_mark(s, seq!['e'] + t);
    assert(s.take(n) =~= s);
    assert(a.take(n) =~= s);
    assert(a.skip(n + 1) =~= t);
}

proof fn lemma_no_mark(s: Seq<char>)
    requires
        forall|i: int| 0 <= i < s.len() ==> ascii_lower(#[trigger] s[i]) != 'e',
    ensures
        exponent_place(s) == s.len(),
    decreases s.len(),
{
    if s.len() > 0 {
        let t = s.skip(1);
        assert forall|i: int| 0 <= i < t.len() implies ascii_lower(#[trigger] t[i]) != 'e' by {
            assert(t[i] == s[i + 1]);
        }
        assert(ascii_lower(s[0]) != 'e');
        lemma_no_mark(t);
    }
}

proof fn lemma_first_mark(s: Seq<char>, t: Seq<char>)
    requires
        forall|i: int| 0 <= i < s.len() ==> ascii_lower(#[trigger] s[i]) != 'e',
        t.len() > 0,
        t[0] == 'e',
    ensures
        exponent_place(s + t) == s.len(),
    decreases s.len(),
{
    let a = s + t;
    if s.len() > 0 {
        let r = s.skip(1);
        assert forall|i: int| 0 <= i < r.len() implies ascii_lower(#[trigger] r[i]) != 'e' by {
            assert(r[i] == s[i + 1]);
        }
        lemma_first_mark(r, t);
        assert(a.skip(1) =~= r + t);
        assert(a[0] == s[0]);
    }
}

} // verus!
