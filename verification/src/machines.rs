//! What a machine is known by, and how its events are looked up.

use crate::aggregate::{largest, short_note, short_text};
use crate::cpu::{cpus_online, item_cpus, midr, names_several, total_cpus, vendor_named, Vendor};
use crate::decimal::dec;
use crate::double::{to_integer, Double};
use crate::formula::{double_op, single_op, Op};
use crate::metric::{since, Duration};
use crate::pmu::{cpu_number, cpus_in, listed_cpus, online, range_of};
use crate::pmudb::{
    encoded_fields, event_of, field_value, first_with_data, type_of, unit_named, EntryModel,
    UnitModel,
};
use crate::text::{begins, digit_of, halves, occurs, pieces, trimmed, unsigned_of};
use crate::wording::law_what_occurs_is_within;
use vstd::prelude::*;

verus! {

// ------------------------------------------------------------------ CPUs

/// The vendors that are told apart.
pub proof fn law_vendors_are_known_by_name(s: Seq<char>)
    ensures
        trimmed(s) == "AuthenticAMD"@ ==> vendor_named(s) == Vendor::Amd,
        trimmed(s) == "GenuineIntel"@ ==> vendor_named(s) == Vendor::Intel,
        trimmed(s) != "AuthenticAMD"@ && trimmed(s) != "GenuineIntel"@ ==> vendor_named(s)
            == Vendor::Other,
{
    reveal_strlit("AuthenticAMD");
    reveal_strlit("GenuineIntel");
    assert("AuthenticAMD"@[0] != "GenuineIntel"@[0]);
}

/// The identification register of an ARM core, from the highest bits down: eight of the
/// implementer, four of the variant, four that are all set, twelve of the part, four of the
/// revision.
pub proof fn law_the_arm_register_is_laid_out(imp: u64, var: u64, part: u64, rev: u64)
    requires
        imp < 256,
        var < 16,
        part < 4096,
        rev < 16,
    ensures
        midr(imp, var, part, rev) == imp * 16777216 + var * 1048576 + 15 * 65536 + part * 16 + rev,
{
    assert((imp << 24u64) | (var << 20u64) | (0xfu64 << 16u64) | (part << 4u64) | rev == imp
        * 16777216 + var * 1048576 + 15 * 65536 + part * 16 + rev) by (bit_vector)
        requires
            imp < 256,
            var < 16,
            part < 4096,
            rev < 16,
    ;
}

/// A range has every CPU from its first to its last, in order.
pub proof fn law_a_range_has_every_cpu(a: int, b: int, k: int)
    requires
        i32::MIN <= a,
        b <= i32::MAX,
    ensures
        a <= b ==> range_of(a, b).len() == b - a + 1,
        a > b ==> range_of(a, b).len() == 0,
        0 <= k <= b - a ==> range_of(a, b)[k] == a + k,
    decreases b - a + 1,
{
    if a <= b {
        law_a_range_has_every_cpu(a, b - 1, k);
    }
}

/// The CPUs of a list are those of its items, one after the other.
pub proof fn law_a_list_has_the_cpus_of_its_items(items: Seq<Seq<char>>, item: Seq<char>)
    ensures
        listed_cpus(items.push(item)) == listed_cpus(items) + cpus_in(item),
        listed_cpus(Seq::empty()) == Seq::<i32>::empty(),
{
    assert(items.push(item).drop_last() =~= items);
}

/// An item of a list is a number, or a range of two.
pub proof fn law_an_item_is_a_number_or_a_range(item: Seq<char>, a: int, b: int)
    ensures
        halves(item, '-') is None && cpu_number(item) == Some(a) ==> cpus_in(item) == seq![a as i32],
        (halves(item, '-') matches Some((x, y)) && cpu_number(x) == Some(a) && cpu_number(y) == Some(
            b,
        )) ==> cpus_in(item) == range_of(a, b),
{
}

/// Where the kernel lists no CPU, those from 0 on are taken, as many as there are processors and
/// at least one.
pub proof fn law_without_a_list_every_processor_is_taken(nproc: i32)
    ensures
        online(None, nproc).len() == if nproc > 1 {
            nproc as int
        } else {
            1
        },
        online(None, nproc)[0] == 0,
        nproc > 1 ==> online(None, nproc)[nproc - 1] == nproc - 1,
{
    let last: int = if nproc > 1 {
        nproc - 1
    } else {
        0
    };
    law_a_range_has_every_cpu(0, last, 0);
    law_a_range_has_every_cpu(0, last, last);
}

/// An item counts as many CPUs as its range has, and one that is no range counts one.
pub proof fn law_items_are_counted(item: Seq<char>, a: nat, b: nat)
    ensures
        halves(item, '-') is None ==> item_cpus(item) == 1,
        (halves(item, '-') matches Some((x, y)) && unsigned_of(trimmed(x), 10, u64::MAX as nat)
            == Some(a) && unsigned_of(trimmed(y), 10, u64::MAX as nat) == Some(b)) && a <= b
            ==> item_cpus(item) == b - a + 1,
{
}

/// The CPUs of items add up.
pub proof fn law_items_add_up(items: Seq<Seq<char>>, item: Seq<char>)
    ensures
        total_cpus(items.push(item)) == total_cpus(items) + item_cpus(item),
        total_cpus(Seq::empty()) == 0,
{
    assert(items.push(item).drop_last() =~= items);
}

// ------------------------------------------------------------------ events

/// The model whose data is loaded is the first of the CPU's that has any.
pub proof fn law_the_first_model_with_data_is_loaded(
    models: Seq<Seq<char>>,
    dirs: Seq<Seq<char>>,
    i: int,
)
    requires
        0 <= i < models.len(),
        dirs.contains(models[i]),
        forall|k: int| 0 <= k < i ==> !dirs.contains(#[trigger] models[k]),
    ensures
        first_with_data(models, dirs) == Some(models[i]),
    decreases models.len(),
{
    if i > 0 {
        let rest = models.skip(1);
        assert(rest[i - 1] == models[i]);
        assert forall|k: int| 0 <= k < i - 1 implies !dirs.contains(#[trigger] rest[k]) by {
            assert(rest[k] == models[k + 1]);
        }
        assert(!dirs.contains(models[0]));
        law_the_first_model_with_data_is_loaded(rest, dirs, i - 1);
    }
}

/// What an entry does not say is taken from its template; what it says is its own.
pub proof fn law_an_entry_comes_before_its_template(m: EntryModel, base: EntryModel, i: int)
    ensures
        m.codes[i] is Some ==> field_value(m, Some(base), i) == m.codes[i],
        m.codes[i] is None ==> field_value(m, Some(base), i) == base.codes[i],
        field_value(m, None, i) == m.codes[i],
        m.unit is None && base.unit is None ==> (event_of(m, Some(base)) matches Some((n, e))
            ==> e.unit == "cpu"@),
        m.unit is None ==> (event_of(m, None) matches Some((n, e)) ==> e.unit == "cpu"@),
        m.event_name is None && base.event_name is None ==> event_of(m, Some(base)) is None,
{
}

/// A code of zero is left out, but for that of the event itself.
pub proof fn law_zero_codes_are_left_out(m: EntryModel, base: Option<EntryModel>, n: nat)
    requires
        n > 0,
    ensures
        n > 1 && field_value(m, base, n - 1) == Some(0u64) ==> encoded_fields(m, base, n)
            == encoded_fields(m, base, (n - 1) as nat),
        n == 1 && field_value(m, base, 0) == Some(0u64) ==> encoded_fields(m, base, n).len() == 1,
        field_value(m, base, n - 1) is None ==> encoded_fields(m, base, n) == encoded_fields(
            m,
            base,
            (n - 1) as nat,
        ),
        (field_value(m, base, n - 1) matches Some(v) && v != 0) ==> encoded_fields(m, base, n).last().1
            == field_value(m, base, n - 1)->0,
{
    reveal_with_fuel(encoded_fields, 2);
}

/// The kernel says of which type a PMU is; where it does not, events are raw.
pub proof fn law_the_kernel_says_the_type(sys: Seq<UnitModel>, unit: Seq<char>, text: Seq<char>)
    ensures
        unit.len() > 0 && unit_named(sys, unit) is None ==> type_of(sys, unit) == 4,
        unit.len() > 0 && (unit_named(sys, unit) matches Some(u) && u.kind is None) ==> type_of(
            sys,
            unit,
        ) == 4,
        unit.len() > 0 && (unit_named(sys, unit) matches Some(u) && u.kind == Some(text)) && (
        unsigned_of(trimmed(text), 10, u32::MAX as nat) is Some) ==> type_of(sys, unit)
            == unsigned_of(trimmed(text), 10, u32::MAX as nat)->0,
        type_of(sys, Seq::empty()) == type_of(sys, "cpu"@),
{
    reveal_strlit("cpu");
}

/// The operators of formulas, by the characters that write them.
pub proof fn law_operators_are_written_as_usual()
    ensures
        single_op('+' as u8) == Some(Op::Add),
        single_op('-' as u8) == Some(Op::Sub),
        single_op('*' as u8) == Some(Op::Mul),
        single_op('/' as u8) == Some(Op::Div),
        single_op('(' as u8) == Some(Op::Open),
        single_op(')' as u8) == Some(Op::Close),
        single_op(',' as u8) == Some(Op::Comma),
        single_op('?' as u8) == Some(Op::Question),
        single_op(':' as u8) == Some(Op::Colon),
        single_op('<' as u8) == Some(Op::Less),
        single_op('>' as u8) == Some(Op::Greater),
        double_op('<' as u8) == Some(Op::AtMost),
        double_op('>' as u8) == Some(Op::AtLeast),
        double_op('=' as u8) == Some(Op::Equal),
        double_op('!' as u8) == Some(Op::Unequal),
{
}

// ------------------------------------------------------------------ time

/// The time between two readings of a clock, put on the earlier, gives the later; a clock that
/// went back gives no time.
pub proof fn law_time_passes_between_readings(now: Duration, earlier: Duration)
    requires
        now.wf(),
        earlier.wf(),
    ensures
        ({
            let d = since(now, earlier);
            let nanos = |t: Duration| t.secs * 1000000000 + t.nanos;
            &&& d.wf()
            &&& nanos(now) >= nanos(earlier) ==> nanos(earlier) + nanos(d) == nanos(now)
            &&& nanos(now) < nanos(earlier) ==> nanos(d) == 0
        }),
{
}

// ------------------------------------------------------------------ ranks that are missing

/// The size of a job is the largest that any rank tells.
pub proof fn law_the_largest_size_counts(vals: Seq<Double>, i: int)
    requires
        0 <= i < vals.len(),
    ensures
        largest(vals) matches Some(m) && m >= to_integer(vals[i]) && exists|k: int|
            0 <= k < vals.len() && m == to_integer(#[trigger] vals[k]),
    decreases vals.len(),
{
    let head = vals.drop_last();
    let n = vals.len() - 1;
    assert(vals[n] == vals.last());
    if head.len() > 0 {
        let j = if i < n {
            i
        } else {
            0
        };
        law_the_largest_size_counts(head, j);
        assert(head[j] == vals[j]);
        let m = largest(head)->0;
        let k = choose|k: int| 0 <= k < head.len() && m == to_integer(#[trigger] head[k]);
        assert(vals[k] == head[k]);
    } else {
        assert(largest(head) is None);
    }
}

/// A warning says how many ranks reported, of how many, and how many did not.
pub proof fn law_a_warning_counts_the_missing(found: nat, expected: i64)
    requires
        found < expected,
    ensures
        short_note(found, Some(expected)) matches Some(t) && occurs(
            t,
            dec(found) + " of "@ + dec(expected as nat) + " ranks — "@ + dec(
                (expected - found) as nat,
            ) + " never reported"@,
        ),
{
    let t = short_text(found as int, expected as int);
    let a = "uaps: WARNING: aggregated "@;
    let long =
        " never reported (crashed, or could not reach the launch-node collector). \
           The job-level metrics below reflect only the "@;
    let short = " never reported"@;
    reveal_strlit(" never reported");
    reveal_strlit(
        " never reported (crashed, or could not reach the launch-node collector). \
           The job-level metrics below reflect only the ",
    );
    assert(long.take(15) =~= short);
    let mid = dec(found) + " of "@ + dec(expected as nat) + " ranks — "@ + dec(
        (expected - found) as nat,
    );
    let p = mid + short;
    let rest = long.skip(15) + dec(found) + " ranks that completed."@;
    assert(t =~= a + p + rest) by {
        assert(long =~= short + long.skip(15));
    }
    assert(t.skip(a.len() as int).take(p.len() as int) =~= p);
    assert(begins(t.skip(a.len() as int), p));
}

/// The CPUs that the kernel lists are taken as listed.
pub proof fn law_listed_cpus_are_taken(s: Seq<char>, nproc: i32)
    ensures
        ({
            let listed = listed_cpus(pieces(trimmed(s), ','));
            &&& listed.len() > 0 ==> online(Some(s), nproc) == listed
            &&& listed.len() == 0 ==> online(Some(s), nproc) == online(None, nproc)
        }),
{
}

/// Without a list one CPU is counted.
pub proof fn law_one_cpu_at_least()
    ensures
        cpus_online(None) == 1,
{
}

/// A core runs more than one thread where its siblings are a list or a range; a core that is its
/// own only sibling runs one.
pub proof fn law_siblings_share_a_core(a: Seq<char>, b: Seq<char>, n: nat)
    ensures
        names_several(a + ","@ + b),
        names_several(a + "-"@ + b),
        !names_several(dec(n)),
{
    law_what_occurs_is_within(a, ","@, b);
    law_what_occurs_is_within(a, "-"@, b);
    crate::decimal::lemma_numeral_digits(n);
    reveal_strlit(",");
    reveal_strlit("-");
    let s = dec(n);
    assert forall|i: int| 0 <= i <= s.len() implies !begins(#[trigger] s.skip(i), ","@) && !begins(
        s.skip(i),
        "-"@,
    ) by {
        if i < s.len() {
            assert(digit_of(s[i], 10) is Some);
            assert(s.skip(i).take(1)[0] == s[i]);
            assert(","@[0] == ',' && "-"@[0] == '-');
        }
    }
}

} // verus!
