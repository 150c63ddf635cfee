//! What an encoded config gives back: the values of its fields, and nothing besides.

use crate::pmudb::{encoded, high_bits, in_register, low_bits, placed};
use crate::table::found;
use vstd::arithmetic::power2::{lemma2_to64, lemma_pow2_adds, lemma_pow2_pos, pow2};
use vstd::prelude::*;

verus! {

/// Bit ranges, from their lowest bit to their highest.
pub type Ranges = Seq<(u8, u8)>;

/// How many bits a range has.
pub open spec fn width(r: (u8, u8)) -> u64 {
    (r.1 - r.0 + 1) as u64
}

/// How many bits ranges have together.
pub open spec fn total_width(ranges: Ranges) -> nat
    decreases ranges.len(),
{
    if ranges.len() == 0 {
        0
    } else {
        width(ranges[0]) as nat + total_width(ranges.skip(1))
    }
}

/// The bits of a range.
pub open spec fn bits_of(r: (u8, u8)) -> u64 {
    low_bits(width(r)) << (r.0 as u64)
}

/// The bits of ranges.
pub open spec fn bits_of_all(ranges: Ranges) -> u64
    decreases ranges.len(),
{
    if ranges.len() == 0 {
        0
    } else {
        bits_of(ranges[0]) | bits_of_all(ranges.skip(1))
    }
}

/// A value moved up by `w` bits.
pub open spec fn moved_up(val: u64, w: u64) -> u64 {
    if w >= 64 {
        0
    } else {
        val << w
    }
}

/// The value that a config holds in ranges: the first range has its lowest bits, the next
/// range the next, and so on.
pub open spec fn gathered(config: u64, ranges: Ranges) -> u64
    decreases ranges.len(),
{
    if ranges.len() == 0 {
        0
    } else {
        let w = width(ranges[0]);
        ((config >> (ranges[0].0 as u64)) & low_bits(w)) | moved_up(
            gathered(config, ranges.skip(1)),
            w,
        )
    }
}

/// Whether two ranges share no bit.
pub open spec fn apart(a: (u8, u8), b: (u8, u8)) -> bool {
    a.1 < b.0 || b.1 < a.0
}

/// Whether no two ranges share a bit.
pub open spec fn all_apart(ranges: Ranges) -> bool {
    forall|i: int, j: int|
        0 <= i < j < ranges.len() ==> apart(#[trigger] ranges[i], #[trigger] ranges[j])
}

/// The ranges of all fields, one after the other.
pub open spec fn ranges_of(
    fields: Seq<(Seq<char>, u64)>,
    fmt: Seq<(Seq<char>, Ranges)>,
) -> Ranges
    decreases fields.len(),
{
    if fields.len() == 0 {
        Seq::empty()
    } else {
        ranges_of(fields.drop_last(), fmt) + (match found(fmt, fields.last().0) {
            Some(ranges) => ranges,
            None => Seq::empty(),
        })
    }
}

// ------------------------------------------------------------------ bits

proof fn lemma_rest(ranges: Ranges)
    requires
        in_register(ranges),
        ranges.len() > 0,
    ensures
        in_register(ranges.skip(1)),
        ranges[0].0 <= ranges[0].1 < 64,
        all_apart(ranges) ==> all_apart(ranges.skip(1)),
{
    let rest = ranges.skip(1);
    assert forall|i: int| 0 <= i < rest.len() implies (#[trigger] rest[i]).0 <= rest[i].1
        && rest[i].1 < 64 by {
        assert(rest[i] == ranges[i + 1]);
    }
    if all_apart(ranges) {
        assert forall|i: int, j: int| 0 <= i < j < rest.len() implies apart(
            #[trigger] rest[i],
            #[trigger] rest[j],
        ) by {
            assert(rest[i] == ranges[i + 1] && rest[j] == ranges[j + 1]);
        }
    }
}

/// The lowest bits, where they are not all.
proof fn lemma_low_bits(w: u64)
    requires
        w < 64,
    ensures
        1u64 << w >= 1,
        low_bits(w) == (1u64 << w) - 1,
{
    assert((1u64 << w) >= 1) by (bit_vector)
        requires
            w < 64,
    ;
}

proof fn lemma_apart(a: (u8, u8), b: (u8, u8))
    requires
        a.0 <= a.1 < 64,
        b.0 <= b.1 < 64,
        apart(a, b),
    ensures
        bits_of(a) & bits_of(b) == 0,
{
    let (wa, wb) = (width(a), width(b));
    let (la, lb) = (a.0 as u64, b.0 as u64);
    let (ma, mb) = (low_bits(wa), low_bits(wb));
    if a.1 < b.0 {
        lemma_low_bits(wa);
        assert((ma << la) & (mb << lb) == 0) by (bit_vector)
            requires
                wa < 64,
                lb < 64,
                wa + la <= lb,
                ma == (1u64 << wa) - 1,
        ;
    } else {
        lemma_low_bits(wb);
        assert((ma << la) & (mb << lb) == 0) by (bit_vector)
            requires
                wb < 64,
                la < 64,
                wb + lb <= la,
                mb == (1u64 << wb) - 1,
        ;
    }
}

/// A range that is apart from each of others shares no bit with them.
proof fn lemma_apart_from_all(r: (u8, u8), ranges: Ranges)
    requires
        r.0 <= r.1 < 64,
        in_register(ranges),
        forall|i: int| 0 <= i < ranges.len() ==> apart(r, #[trigger] ranges[i]),
    ensures
        bits_of(r) & bits_of_all(ranges) == 0,
    decreases ranges.len(),
{
    let m = bits_of(r);
    if ranges.len() > 0 {
        lemma_rest(ranges);
        let rest = ranges.skip(1);
        assert forall|i: int| 0 <= i < rest.len() implies apart(r, #[trigger] rest[i]) by {
            assert(rest[i] == ranges[i + 1]);
        }
        lemma_apart_from_all(r, rest);
        lemma_apart(r, ranges[0]);
        let (a, b) = (bits_of(ranges[0]), bits_of_all(rest));
        assert(m & (a | b) == 0) by (bit_vector)
            requires
                m & a == 0,
                m & b == 0,
        ;
    } else {
        assert(m & 0 == 0) by (bit_vector);
    }
}

/// Placing a value adds the bits of its own.
pub proof fn lemma_placed_adds(config: u64, val: u64, ranges: Ranges)
    ensures
        placed(config, val, ranges) == config | placed(0, val, ranges),
    decreases ranges.len(),
{
    if ranges.len() == 0 {
        assert(config | 0 == config) by (bit_vector);
    } else {
        let w = width(ranges[0]);
        let x = (val & low_bits(w)) << (ranges[0].0 as u64);
        let rest = ranges.skip(1);
        lemma_placed_adds(config | x, high_bits(val, w), rest);
        lemma_placed_adds(0 | x, high_bits(val, w), rest);
        let p = placed(0, high_bits(val, w), rest);
        assert((config | x) | p == config | ((0 | x) | p)) by (bit_vector);
    }
}

/// A placed value keeps within its ranges.
proof fn lemma_placed_within(val: u64, ranges: Ranges)
    ensures
        placed(0, val, ranges) & !bits_of_all(ranges) == 0,
    decreases ranges.len(),
{
    if ranges.len() == 0 {
        assert(0u64 & !0u64 == 0) by (bit_vector);
    } else {
        let w = width(ranges[0]);
        let m = low_bits(w);
        let l = ranges[0].0 as u64;
        let x = (val & m) << l;
        let rest = ranges.skip(1);
        let p = placed(0, high_bits(val, w), rest);
        let b = bits_of_all(rest);
        lemma_placed_adds(0 | x, high_bits(val, w), rest);
        lemma_placed_within(high_bits(val, w), rest);
        assert(((0 | ((val & m) << l)) | p) & !((m << l) | b) == 0) by (bit_vector)
            requires
                p & !b == 0,
        ;
    }
}

/// What ranges hold depends on their own bits alone.
proof fn lemma_gathered_same(a: u64, b: u64, ranges: Ranges)
    requires
        in_register(ranges),
        a & bits_of_all(ranges) == b & bits_of_all(ranges),
    ensures
        gathered(a, ranges) == gathered(b, ranges),
    decreases ranges.len(),
{
    if ranges.len() > 0 {
        lemma_rest(ranges);
        let rest = ranges.skip(1);
        let m = low_bits(width(ranges[0]));
        let l = ranges[0].0 as u64;
        let r = bits_of_all(rest);
        assert((a >> l) & m == (b >> l) & m && a & r == b & r) by (bit_vector)
            requires
                l < 64,
                a & ((m << l) | r) == b & ((m << l) | r),
        ;
        lemma_gathered_same(a, b, rest);
    }
}

/// A value below 2^(`w` + `n`) has, without its lowest `w` bits, at most `n` bits.
proof fn lemma_high_bits(val: u64, w: u64, n: nat)
    requires
        1 <= w,
        val < pow2(w as nat + n),
    ensures
        high_bits(val, w) < pow2(n),
{
    lemma_pow2_pos(n);
    lemma_pow2_pos(w as nat);
    if w < 64 {
        lemma_pow2_adds(w as nat, n);
        vstd::bits::lemma_u64_shr_is_div(val, w);
        let (p, q) = (pow2(w as nat), pow2(n));
        let d = val as nat / p;
        vstd::arithmetic::div_mod::lemma_fundamental_div_mod(val as int, p as int);
        assert(d < q) by (nonlinear_arith)
            requires
                p * d <= val,
                val < p * q,
                p > 0,
        ;
    }
}

/// A value that fits in ranges reads back from them.
proof fn lemma_placed_reads_back(val: u64, ranges: Ranges)
    requires
        in_register(ranges),
        all_apart(ranges),
        val < pow2(total_width(ranges)),
    ensures
        gathered(placed(0, val, ranges), ranges) == val,
    decreases ranges.len(),
{
    if ranges.len() == 0 {
        lemma2_to64();
    } else {
        lemma_rest(ranges);
        let rest = ranges.skip(1);
        let w = width(ranges[0]);
        let m = low_bits(w);
        let l = ranges[0].0 as u64;
        let h = high_bits(val, w);
        let q = placed(0, h, rest);
        let b = bits_of_all(rest);
        let p = placed(0, val, ranges);
        lemma_placed_adds(0 | ((val & m) << l), h, rest);
        lemma_placed_within(h, rest);
        assert forall|i: int| 0 <= i < rest.len() implies apart(ranges[0], #[trigger] rest[i]) by {
            assert(rest[i] == ranges[i + 1]);
        }
        lemma_apart_from_all(ranges[0], rest);
        lemma_high_bits(val, w, total_width(rest));
        lemma_placed_reads_back(h, rest);
        assert(((0 | ((val & m) << l)) | q) & b == q & b) by (bit_vector)
            requires
                (m << l) & b == 0,
        ;
        lemma_gathered_same(p, q, rest);
        if w >= 64 {
            assert(l == 0);
            assert(((0 | ((val & 0xffff_ffff_ffff_ffffu64) << 0u64)) | q) >> 0u64
                & 0xffff_ffff_ffff_ffffu64 | 0u64 == val) by (bit_vector)
                requires
                    q & !b == 0,
                    (0xffff_ffff_ffff_ffffu64 << 0u64) & b == 0,
            ;
        } else {
            lemma_low_bits(w);
            assert((((0 | ((val & m) << l)) | q) >> l) & m == val & m) by (bit_vector)
                requires
                    w < 64,
                    w + l <= 64,
                    m == (1u64 << w) - 1,
                    q & !b == 0,
                    (m << l) & b == 0,
            ;
            assert((val & m) | ((val >> w) << w) == val) by (bit_vector)
                requires
                    w < 64,
                    m == (1u64 << w) - 1,
            ;
        }
    }
}

proof fn lemma_bits_of_both(a: Ranges, b: Ranges)
    ensures
        bits_of_all(a + b) == bits_of_all(a) | bits_of_all(b),
    decreases a.len(),
{
    let y = bits_of_all(b);
    if a.len() == 0 {
        assert(a + b =~= b);
        assert(0 | y == y) by (bit_vector);
    } else {
        assert((a + b).skip(1) =~= a.skip(1) + b);
        lemma_bits_of_both(a.skip(1), b);
        let (f, x) = (bits_of(a[0]), bits_of_all(a.skip(1)));
        assert(f | (x | y) == (f | x) | y) by (bit_vector);
    }
}

/// Ranges of which none shares a bit with one of the others share none with them all.
proof fn lemma_lists_apart(a: Ranges, b: Ranges)
    requires
        in_register(a),
        in_register(b),
        all_apart(a + b),
    ensures
        bits_of_all(a) & bits_of_all(b) == 0,
    decreases a.len(),
{
    let y = bits_of_all(b);
    if a.len() == 0 {
        assert(0 & y == 0) by (bit_vector);
    } else {
        let all = a + b;
        assert forall|j: int| 0 <= j < b.len() implies apart(a[0], #[trigger] b[j]) by {
            assert(all[0] == a[0] && all[a.len() + j] == b[j]);
        }
        lemma_rest(a);
        lemma_apart_from_all(a[0], b);
        assert forall|i: int| 0 <= i < all.len() implies (#[trigger] all[i]).0 <= all[i].1
            && all[i].1 < 64 by {
            if i < a.len() {
                assert(all[i] == a[i]);
            } else {
                assert(all[i] == b[i - a.len()]);
            }
        }
        lemma_rest(all);
        assert(all.skip(1) =~= a.skip(1) + b);
        lemma_lists_apart(a.skip(1), b);
        let (f, x) = (bits_of(a[0]), bits_of_all(a.skip(1)));
        assert((f | x) & y == 0) by (bit_vector)
            requires
                f & y == 0,
                x & y == 0,
        ;
    }
}

// ------------------------------------------------------------------ laws

/// Whether every field has ranges in a 64-bit register, and a value that fits in them.
pub open spec fn fields_fit(
    fields: Seq<(Seq<char>, u64)>,
    fmt: Seq<(Seq<char>, Ranges)>,
) -> bool {
    forall|i: int|
        0 <= i < fields.len() ==> (found(fmt, (#[trigger] fields[i]).0) matches Some(ranges)
            && in_register(ranges) && fields[i].1 < pow2(total_width(ranges)))
}

/// Where no two ranges share a bit, an encoded config gives every field back, over all of
/// its ranges, and every other bit of it is 0.
pub proof fn law_config_gives_back_its_fields(
    fields: Seq<(Seq<char>, u64)>,
    fmt: Seq<(Seq<char>, Ranges)>,
)
    requires
        fields_fit(fields, fmt),
        all_apart(ranges_of(fields, fmt)),
    ensures
        encoded(fields, fmt) is Some,
        encoded(fields, fmt)->0 & !bits_of_all(ranges_of(fields, fmt)) == 0,
        forall|i: int|
            0 <= i < fields.len() ==> gathered(
                encoded(fields, fmt)->0,
                found(fmt, (#[trigger] fields[i]).0)->0,
            ) == fields[i].1,
{
    lemma_encoded(fields, fmt);
}

proof fn lemma_encoded(fields: Seq<(Seq<char>, u64)>, fmt: Seq<(Seq<char>, Ranges)>)
    requires
        fields_fit(fields, fmt),
        all_apart(ranges_of(fields, fmt)),
    ensures
        in_register(ranges_of(fields, fmt)),
        encoded(fields, fmt) is Some,
        encoded(fields, fmt)->0 & !bits_of_all(ranges_of(fields, fmt)) == 0,
        forall|i: int|
            0 <= i < fields.len() ==> bits_of_all(found(fmt, (#[trigger] fields[i]).0)->0)
                & !bits_of_all(ranges_of(fields, fmt)) == 0 && gathered(
                encoded(fields, fmt)->0,
                found(fmt, fields[i].0)->0,
            ) == fields[i].1,
    decreases fields.len(),
{
    if fields.len() == 0 {
        assert(0u64 & !0u64 == 0) by (bit_vector);
    } else {
        let n = fields.len() - 1;
        let front = fields.drop_last();
        let before = ranges_of(front, fmt);
        let (name, v) = fields[n];
        let own = found(fmt, name)->0;
        let all = before + own;
        assert(fields.last() == fields[n]);
        assert(found(fmt, fields[n].0) is Some);
        assert(ranges_of(fields, fmt) == all);
        assert forall|i: int| 0 <= i < front.len() implies (found(fmt, (#[trigger] front[i]).0)
            matches Some(ranges) && in_register(ranges) && front[i].1 < pow2(
            total_width(ranges),
        )) by {
            assert(front[i] == fields[i]);
        }
        assert forall|i: int, j: int| 0 <= i < j < before.len() implies apart(
            #[trigger] before[i],
            #[trigger] before[j],
        ) by {
            assert(all[i] == before[i] && all[j] == before[j]);
        }
        assert forall|i: int, j: int| 0 <= i < j < own.len() implies apart(
            #[trigger] own[i],
            #[trigger] own[j],
        ) by {
            assert(all[before.len() + i] == own[i] && all[before.len() + j] == own[j]);
        }
        lemma_encoded(front, fmt);
        assert forall|i: int| 0 <= i < all.len() implies (#[trigger] all[i]).0 <= all[i].1
            && all[i].1 < 64 by {
            if i < before.len() {
                assert(all[i] == before[i]);
            } else {
                assert(all[i] == own[i - before.len()]);
            }
        }
        let c = encoded(front, fmt)->0;
        let q = placed(0, v, own);
        let (bb, bo) = (bits_of_all(before), bits_of_all(own));
        lemma_placed_adds(c, v, own);
        lemma_placed_within(v, own);
        lemma_bits_of_both(before, own);
        lemma_lists_apart(before, own);
        lemma_placed_reads_back(v, own);
        assert((c | q) & !(bb | bo) == 0 && (c | q) & bo == q & bo && bo & !(bb | bo) == 0)
            by (bit_vector)
            requires
                c & !bb == 0,
                q & !bo == 0,
                bb & bo == 0,
        ;
        lemma_gathered_same(c | q, q, own);
        assert forall|i: int| 0 <= i < fields.len() implies bits_of_all(
            found(fmt, (#[trigger] fields[i]).0)->0,
        ) & !bits_of_all(all) == 0 && gathered(c | q, found(fmt, fields[i].0)->0)
            == fields[i].1 by {
            if i < n {
                assert(front[i] == fields[i]);
                let r = found(fmt, front[i].0)->0;
                let m = bits_of_all(r);
                assert(m & !(bb | bo) == 0 && (c | q) & m == c & m) by (bit_vector)
                    requires
                        m & !bb == 0,
                        q & !bo == 0,
                        bb & bo == 0,
                ;
                lemma_gathered_same(c | q, c, r);
            }
        }
    }
}

/// The order of the fields does not matter: neighbours may change places.
pub proof fn law_field_order_does_not_matter(
    a: Seq<(Seq<char>, u64)>,
    x: (Seq<char>, u64),
    y: (Seq<char>, u64),
    b: Seq<(Seq<char>, u64)>,
    fmt: Seq<(Seq<char>, Ranges)>,
)
    ensures
        encoded(a.push(x).push(y) + b, fmt) == encoded(a.push(y).push(x) + b, fmt),
    decreases b.len(),
{
    let (l, r) = (a.push(x).push(y) + b, a.push(y).push(x) + b);
    if b.len() > 0 {
        law_field_order_does_not_matter(a, x, y, b.drop_last(), fmt);
        assert(l.drop_last() =~= a.push(x).push(y) + b.drop_last());
        assert(r.drop_last() =~= a.push(y).push(x) + b.drop_last());
        assert(l.last() == b.last() && r.last() == b.last());
    } else {
        reveal_with_fuel(encoded, 3);
        assert(l =~= a.push(x).push(y));
        assert(r =~= a.push(y).push(x));
        assert(l.drop_last() =~= a.push(x));
        assert(r.drop_last() =~= a.push(y));
        assert(a.push(x).drop_last() =~= a);
        assert(a.push(y).drop_last() =~= a);
        if let (Some(c), Some(p), Some(q)) = (
            encoded(a, fmt),
            found(fmt, x.0),
            found(fmt, y.0),
        ) {
            lemma_placed_adds(c, x.1, p);
            lemma_placed_adds(c, y.1, q);
            let (u, v) = (placed(0, x.1, p), placed(0, y.1, q));
            lemma_placed_adds(c | u, y.1, q);
            lemma_placed_adds(c | v, x.1, p);
            assert((c | u) | v == (c | v) | u) by (bit_vector);
        }
    }
}

} // verus!
