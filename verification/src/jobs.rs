//! What a job's metrics are of its ranks': sums, but for a few.

use crate::aggregate::{
    aggregated, are_tables, headings, headline, imbalance, imbalance_row, imbalances, is_derived,
    is_rank_name, law_metrics_are_reduced, lemma_imbalance_names, lowest, row_in, typed_value,
    values, HeadingModel, RankRows,
};
use crate::arithmetic::{
    added, law_products_of_whole_numbers, law_quotients_of_whole_numbers, law_sums_of_whole_numbers,
    law_the_nearest_is_even_in_a_tie, law_totals_of_whole_numbers,
};
use crate::bounds::{lemma_nonnegative, nonnegative};
use crate::derive::{derived, inputs_of, lemma_keys};
use crate::double::{
    at_most, difference, greater_of, greatest, lemma_count_positive, lemma_round_exact,
    lemma_round_monotone, lemma_round_range, lemma_signed, lemma_units_order, lemma_units_zero,
    lemma_whole_exact, less, nearest, negated, of_int, one_unit, product, quotient, round_mag,
    signed, sum, to_count, to_integer, total, units_of, whole_part, Double, INF_MAG,
};
use crate::metric::{
    is_span, lemma_numeric_rows, number_of, numeric_of, rows, seconds, span_of, Duration,
    MetricModel, ValueModel,
};
use crate::table::found;
use crate::text::{begins, ends};
use vstd::arithmetic::power2::lemma_pow2_pos;
use crate::json::{member, member_text, Json};
use vstd::prelude::*;

verus! {

/// What the ranks say of the very metrics that are derived is left out, and of no others.
pub proof fn law_only_derived_metrics_are_left_out(key: Seq<char>)
    ensures
        is_derived(key) <==> inputs_of(key) is Some,
{
}

/// A rank more, with a metric, is a value more of it; without, it changes nothing.
pub proof fn law_every_rank_counts(ranks: Seq<RankRows>, rank: RankRows, key: Seq<char>)
    ensures
        values(ranks.push(rank), key) == match found(rank, key) {
            Some(m) => values(ranks, key).push(m.value),
            None => values(ranks, key),
        },
        values(Seq::empty(), key) == Seq::<Double>::empty(),
{
    assert(ranks.push(rank).drop_last() =~= ranks);
}

/// A metric of the job is the total of its values over the ranks, but for the elapsed time, the
/// threads and the world size, percentages, and what is derived.
pub proof fn law_other_metrics_are_summed(ranks: Seq<RankRows>, key: Seq<char>, h: HeadingModel)
    requires
        found(headings(ranks), key) == Some(h),
        are_tables(ranks),
        key != "nranks"@,
        key != "elapsed_time"@,
        key != "max_threads"@,
        key != "mpi_world_size"@,
        inputs_of(key) is None,
        h.unit != "%"@,
    ensures
        numeric_of(aggregated(ranks), key) == Some(
            number_of(typed_value(total(values(ranks, key)), h.unit)),
        ),
{
    law_only_derived_metrics_are_left_out(key);
    law_metrics_are_reduced(ranks, key, h);
}

/// A percentage of the job is the mean over the ranks that have it, but for the elapsed time,
/// the threads and the world size, whatever their unit.
pub proof fn law_percentages_are_averaged(ranks: Seq<RankRows>, key: Seq<char>, h: HeadingModel)
    requires
        found(headings(ranks), key) == Some(h),
        are_tables(ranks),
        key != "nranks"@,
        key != "elapsed_time"@,
        key != "max_threads"@,
        key != "mpi_world_size"@,
        inputs_of(key) is None,
        h.unit == "%"@,
    ensures
        numeric_of(aggregated(ranks), key) == Some(
            quotient(total(values(ranks, key)), of_int(values(ranks, key).len() as int)),
        ),
{
    law_only_derived_metrics_are_left_out(key);
    law_metrics_are_reduced(ranks, key, h);
    reveal_strlit("%");
    reveal_strlit("s");
    assert("%"@[0] != "s"@[0]);
}

/// The job's elapsed time, threads and world size are those of the rank with the most.
pub proof fn law_the_largest_stands_for_the_job(
    ranks: Seq<RankRows>,
    key: Seq<char>,
    h: HeadingModel,
) -> (j: int)
    requires
        found(headings(ranks), key) == Some(h),
        are_tables(ranks),
        key == "elapsed_time"@ || key == "max_threads"@ || key == "mpi_world_size"@,
        forall|i: int|
            0 <= i < values(ranks, key).len() ==> (#[trigger] values(ranks, key)[i]).is_finite(),
        values(ranks, key).len() > 0,
    ensures
        0 <= j < values(ranks, key).len(),
        forall|i: int|
            0 <= i < values(ranks, key).len() ==> at_most(
                #[trigger] values(ranks, key)[i],
                values(ranks, key)[j],
            ),
        numeric_of(aggregated(ranks), key) == Some(
            number_of(typed_value(values(ranks, key)[j], h.unit)),
        ),
{
    lemma_three_keys();
    law_only_derived_metrics_are_left_out(key);
    law_metrics_are_reduced(ranks, key, h);
    lemma_largest_value(values(ranks, key))
}

proof fn lemma_three_keys()
    ensures
        "elapsed_time"@ != "nranks"@ && inputs_of("elapsed_time"@) is None,
        "max_threads"@ != "nranks"@ && inputs_of("max_threads"@) is None,
        "mpi_world_size"@ != "nranks"@ && inputs_of("mpi_world_size"@) is None,
{
    lemma_keys();
    reveal_strlit("nranks");
    reveal_strlit("elapsed_time");
    reveal_strlit("max_threads");
    reveal_strlit("mpi_world_size");
    reveal_strlit("memory_bound");
    reveal_strlit("cpu_freq_ghz");
    reveal_strlit("dram_bound_pct");
    reveal_strlit("dtlb_miss_rate");
    assert("elapsed_time"@.len() == 12 && "max_threads"@.len() == 11);
    assert("mpi_world_size"@.len() == 14 && "nranks"@.len() == 6);
    assert("elapsed_time"@[0] == 'e');
    assert("mpi_world_size"@[0] == 'm');
    assert("memory_bound"@[0] == 'm' && "cpu_freq_ghz"@[0] == 'c');
    assert("dram_bound_pct"@[0] == 'd' && "dtlb_miss_rate"@[0] == 'd');
}

/// The greatest of finite numbers is one of them, and none is above it.
pub proof fn lemma_largest_value(v: Seq<Double>) -> (j: int)
    requires
        v.len() > 0,
        forall|i: int| 0 <= i < v.len() ==> (#[trigger] v[i]).is_finite(),
    ensures
        0 <= j < v.len(),
        greatest(lowest(), v) == v[j],
        forall|i: int| 0 <= i < v.len() ==> at_most(#[trigger] v[i], v[j]),
    decreases v.len(),
{
    lemma_signed(true, (INF_MAG - 1) as nat);
    let head = v.drop_last();
    let n = v.len() - 1;
    assert(v[n] == v.last());
    lemma_not_below_lowest(v[n]);
    if head.len() == 0 {
        assert(greatest(lowest(), head) == lowest());
        assert(greatest(lowest(), v) == v[n]);
        assert forall|i: int| 0 <= i < v.len() implies at_most(#[trigger] v[i], v[n]) by {
            assert(i == n);
        }
        n
    } else {
        assert forall|i: int| 0 <= i < head.len() implies (#[trigger] head[i]).is_finite() by {
            assert(head[i] == v[i]);
        }
        let k = lemma_largest_value(head);
        assert(head[k] == v[k]);
        let j = if less(v[n], v[k]) {
            k
        } else {
            n
        };
        assert forall|i: int| 0 <= i < v.len() implies at_most(#[trigger] v[i], v[j]) by {
            if i < n {
                assert(head[i] == v[i]);
            }
        }
        j
    }
}

proof fn lemma_not_below_lowest(x: Double)
    requires
        x.is_finite(),
    ensures
        !less(x, lowest()),
{
    lemma_signed(true, (INF_MAG - 1) as nat);
    lemma_units_order(x.mag(), (INF_MAG - 1) as nat);
}

// ------------------------------------------------------------------ whole numbers

/// A small whole number is itself as a count, and as a signed one.
pub proof fn law_whole_numbers_are_counted(n: nat)
    requires
        n < 9007199254740992,
    ensures
        to_count(of_int(n as int)) == n,
        to_integer(of_int(n as int)) == n,
{
    let x = of_int(n as int);
    lemma_whole_exact(n as int);
    lemma_pow2_pos(1074);
    let u = one_unit();
    assert(n * u / u == n) by (nonlinear_arith)
        requires
            u > 0,
    ;
    assert(whole_part(x) == n);
}

/// A small whole number with any unit but seconds keeps its number.
pub proof fn law_typed_numbers_stay(n: nat, unit: Seq<char>)
    requires
        n < 9007199254740992,
        unit != "s"@,
    ensures
        number_of(typed_value(of_int(n as int), unit)) == of_int(n as int),
{
    let x = of_int(n as int);
    law_whole_numbers_are_counted(n);
    lemma_whole_exact(n as int);
    lemma_whole_exact(0);
    lemma_pow2_pos(1074);
    assert(n * one_unit() >= 0) by (nonlinear_arith);
    assert(0 * one_unit() == 0) by (nonlinear_arith);
    if n == 0 {
        assert(greater_of(x, of_int(0)) == x);
    } else {
        assert(n * one_unit() > 0) by (nonlinear_arith)
            requires
                n > 0,
                one_unit() > 0,
        ;
        assert(greater_of(x, of_int(0)) == x);
    }
}

/// A whole number of seconds is that span, and the span is that number.
pub proof fn law_whole_seconds_are_spans(n: nat)
    requires
        n < 9007199254740992,
    ensures
        span_of(of_int(n as int)) == (Duration { secs: n as u64, nanos: 0 }),
        seconds(Duration { secs: n as u64, nanos: 0 }) == of_int(n as int),
        number_of(typed_value(of_int(n as int), "s"@)) == of_int(n as int),
{
    let u = one_unit();
    let x = of_int(n as int);
    lemma_whole_exact(n as int);
    lemma_whole_exact(0);
    lemma_pow2_pos(1074);
    let k = n * 1000000000;
    assert(n * u * 1000000000 == k * u) by (nonlinear_arith)
        requires
            k == n * 1000000000,
    ;
    assert(k * u / u == k && (k * u) % u == 0) by (nonlinear_arith)
        requires
            u > 0,
    ;
    assert(nearest(k * u, u) == k);
    assert(0 * 1000000000 == 0);
    law_quotients_of_whole_numbers(0, 1000000000);
    law_sums_of_whole_numbers(n, 0);
    assert(0 * u == 0) by (nonlinear_arith);
    assert(n * u >= 0) by (nonlinear_arith);
    if n == 0 {
        assert(greater_of(x, of_int(0)) == x);
    } else {
        assert(n * u > 0) by (nonlinear_arith)
            requires
                n > 0,
                u > 0,
        ;
        assert(greater_of(x, of_int(0)) == x);
    }
}

/// What the ranks counted adds up: a job of ranks that counted whole numbers reports their sum,
/// of any metric but those of the largest rank, percentages and what is derived.
pub proof fn law_counts_add_up(
    ranks: Seq<RankRows>,
    key: Seq<char>,
    h: HeadingModel,
    counts: Seq<nat>,
)
    requires
        found(headings(ranks), key) == Some(h),
        are_tables(ranks),
        key != "nranks"@,
        key != "elapsed_time"@,
        key != "max_threads"@,
        key != "mpi_world_size"@,
        inputs_of(key) is None,
        h.unit != "%"@,
        counts.len() > 0,
        values(ranks, key) == counts.map_values(|n: nat| of_int(n as int)),
        added(counts) < 9007199254740992,
    ensures
        numeric_of(aggregated(ranks), key) == Some(of_int(added(counts) as int)),
{
    law_other_metrics_are_summed(ranks, key, h);
    law_totals_of_whole_numbers(counts);
    if h.unit == "s"@ {
        law_whole_seconds_are_spans(added(counts));
    } else {
        law_typed_numbers_stay(added(counts), h.unit);
    }
}

/// Percentages whose mean is whole give the job that mean: those that agree, the same.
pub proof fn law_whole_means_are_exact(
    ranks: Seq<RankRows>,
    key: Seq<char>,
    h: HeadingModel,
    counts: Seq<nat>,
    mean: nat,
)
    requires
        found(headings(ranks), key) == Some(h),
        are_tables(ranks),
        key != "nranks"@,
        key != "elapsed_time"@,
        key != "max_threads"@,
        key != "mpi_world_size"@,
        inputs_of(key) is None,
        h.unit == "%"@,
        counts.len() > 0,
        values(ranks, key) == counts.map_values(|n: nat| of_int(n as int)),
        added(counts) == mean * counts.len(),
        added(counts) < 9007199254740992,
        counts.len() < 9007199254740992,
        mean < 9007199254740992,
    ensures
        numeric_of(aggregated(ranks), key) == Some(of_int(mean as int)),
{
    law_percentages_are_averaged(ranks, key, h);
    law_totals_of_whole_numbers(counts);
    law_quotients_of_whole_numbers(mean, counts.len());
}

// ------------------------------------------------------------------ imbalance

/// The difference of small whole numbers is their difference.
pub proof fn lemma_difference(a: nat, b: nat)
    requires
        b <= a < 9007199254740992,
    ensures
        difference(of_int(a as int), of_int(b as int)) == of_int(a - b),
{
    let u = one_unit();
    let (x, y) = (of_int(a as int), of_int(b as int));
    lemma_pow2_pos(1074);
    lemma_whole_exact(a as int);
    lemma_whole_exact(b as int);
    lemma_whole_exact(a - b);
    lemma_units_zero();
    lemma_round_exact(0);
    lemma_signed(!y.neg(), y.mag());
    assert(negated(y).num() == -(b * u));
    assert((a - b) * u == a * u - b * u) by (nonlinear_arith);
    if a > b {
        assert((a - b) * u > 0) by (nonlinear_arith)
            requires
                a > b,
                u > 0,
        ;
    } else {
        assert((a - b) * u == 0);
        assert(((a - b) as nat) * u == 0);
    }
}

/// The imbalance of whole numbers: what the mean over all ranks lacks of the most, in percent of
/// the most. Where the mean is the most, there is none.
pub proof fn law_imbalance_is_what_the_mean_lacks(
    counts: Seq<nat>,
    nranks: nat,
    most: nat,
    mean: nat,
    j: int,
)
    requires
        0 <= j < counts.len(),
        counts[j] == most,
        forall|i: int| 0 <= i < counts.len() ==> #[trigger] counts[i] <= most,
        0 < most < 9007199254740992,
        mean <= most,
        0 < nranks < 9007199254740992,
        added(counts) == mean * nranks,
        added(counts) < 9007199254740992,
    ensures
        imbalance(counts.map_values(|n: nat| of_int(n as int)), nranks) == product(
            quotient(of_int(most - mean), of_int(most as int)),
            of_int(100),
        ),
        mean == most ==> imbalance(counts.map_values(|n: nat| of_int(n as int)), nranks) == of_int(
            0,
        ),
        2 * mean == most ==> imbalance(counts.map_values(|n: nat| of_int(n as int)), nranks)
            == of_int(50),
        mean == 0 ==> imbalance(counts.map_values(|n: nat| of_int(n as int)), nranks) == of_int(
            100,
        ),
{
    let v = counts.map_values(|n: nat| of_int(n as int));
    assert forall|i: int| 0 <= i < v.len() implies (#[trigger] v[i]).is_finite() by {
        assert(v[i] == of_int(counts[i] as int));
        lemma_whole_exact(counts[i] as int);
    }
    let k = lemma_largest_value(v);
    let m = of_int(most as int);
    assert(v[k] == m) by {
        assert(at_most(v[j], v[k]));
        assert(v[j] == m && v[k] == of_int(counts[k] as int));
        lemma_whole_exact(most as int);
        lemma_whole_exact(counts[k] as int);
        lemma_pow2_pos(1074);
        assert(counts[k] >= most) by (nonlinear_arith)
            requires
                most * one_unit() <= counts[k] * one_unit(),
                one_unit() > 0,
        ;
    }
    law_totals_of_whole_numbers(counts);
    law_quotients_of_whole_numbers(mean, nranks);
    lemma_difference(most, mean);
    let short = product(quotient(of_int(most - mean), m), of_int(100));
    lemma_shortfall_whole((most - mean) as nat, most);
    lemma_nonnegative(short);
    lemma_whole_exact(0);
    assert(0 * one_unit() == 0) by (nonlinear_arith);
    assert(imbalance(v, nranks) == greater_of(short, of_int(0)));
    if less(of_int(0), short) {
        assert(greater_of(short, of_int(0)) == short);
    } else {
        lemma_shortfall_whole((most - mean) as nat, most);
        assert(short.num() == 0 && !short.neg());
        lemma_units_zero();
        lemma_units_order(0, short.mag());
        lemma_round_exact(0);
        assert(of_int(0) == short);
    }
}

pub proof fn lemma_shortfall_whole(d: nat, most: nat)
    requires
        d <= most < 9007199254740992,
        0 < most,
    ensures
        nonnegative(product(quotient(of_int(d as int), of_int(most as int)), of_int(100))),
        !product(quotient(of_int(d as int), of_int(most as int)), of_int(100)).neg(),
        d == 0 ==> product(quotient(of_int(d as int), of_int(most as int)), of_int(100)) == of_int(
            0,
        ),
        2 * d == most ==> product(quotient(of_int(d as int), of_int(most as int)), of_int(100))
            == of_int(50),
        d == most ==> product(quotient(of_int(d as int), of_int(most as int)), of_int(100))
            == of_int(100),
{
    let (x, m) = (of_int(d as int), of_int(most as int));
    let u = one_unit();
    lemma_pow2_pos(1074);
    lemma_whole_exact(d as int);
    lemma_whole_exact(most as int);
    lemma_whole_exact(100);
    lemma_whole_exact(0);
    lemma_units_zero();
    lemma_nonnegative(x);
    assert(d * u >= 0) by (nonlinear_arith);
    assert(d * u <= most * u) by (nonlinear_arith)
        requires
            d <= most,
    ;
    assert(most * u > 0) by (nonlinear_arith)
        requires
            most > 0,
            u > 0,
    ;
    crate::bounds::lemma_fraction(x, m);
    let q = quotient(x, m);
    lemma_round_range(units_of(x.mag()) * u, units_of(m.mag()));
    assert(!q.neg());
    lemma_nonnegative(of_int(100));
    assert(100 * u > 0);
    crate::bounds::lemma_scaled(q, of_int(100));
    lemma_round_range(units_of(q.mag()) * units_of(of_int(100).mag()), u);
    if d == 0 {
        assert(0 * most == 0) by (nonlinear_arith);
        law_quotients_of_whole_numbers(0, most);
        law_products_of_whole_numbers(0, 100);
    }
    if d == most {
        assert(1 * most == most);
        law_quotients_of_whole_numbers(1, most);
        law_products_of_whole_numbers(1, 100);
    }
    if 2 * d == most {
        lemma_half(d, 50);
    }
}

/// Half of a number.
pub proof fn lemma_half(d: nat, n: nat)
    requires
        0 < d,
        2 * d < 9007199254740992,
        2 * n < 9007199254740992,
    ensures
        product(quotient(of_int(d as int), of_int((2 * d) as int)), of_int((2 * n) as int))
            == of_int(n as int),
{
    let u = one_unit();
    let (x, m) = (of_int(d as int), of_int((2 * d) as int));
    lemma_pow2_pos(1074);
    lemma_whole_exact(d as int);
    lemma_whole_exact((2 * d) as int);
    lemma_whole_exact((2 * n) as int);
    lemma_whole_exact(n as int);
    lemma_units_zero();
    vstd::arithmetic::power2::lemma_pow2_adds(1, 1073);
    vstd::arithmetic::power2::lemma2_to64();
    let w = vstd::arithmetic::power2::pow2(1073);
    assert(u == 2 * w);
    // the half itself
    crate::double::lemma_within_range(1, 1073);
    crate::double::lemma_representable(1, 1073);
    assert(1 * w == w);
    let half = round_mag(w, 1);
    assert(units_of(half) == w);
    assert((d * u) * u * 1 == w * ((2 * d) * u)) by (nonlinear_arith)
        requires
            u == 2 * w,
    ;
    assert((2 * d) * u > 0) by (nonlinear_arith)
        requires
            d > 0,
            u > 0,
    ;
    lemma_round_monotone((d * u) * u, (2 * d) * u, w, 1);
    lemma_round_monotone(w, 1, (d * u) * u, (2 * d) * u);
    let q = quotient(x, m);
    lemma_units_order(0, m.mag());
    assert(q.mag() == half && !q.neg());
    assert(w * ((2 * n) * u) * 1 == (n * u) * u) by (nonlinear_arith)
        requires
            u == 2 * w,
    ;
    lemma_round_monotone(w * ((2 * n) * u), u, n * u, 1);
    lemma_round_monotone(n * u, 1, w * ((2 * n) * u), u);
    lemma_round_range(n * u, 1);
}

proof fn lemma_imbalance_keys_differ()
    ensures
        "elapsed_time_imbalance_pct"@.len() == 26,
        "cpu_time_imbalance_pct"@.len() == 22,
        "gflops_imbalance_pct"@.len() == 20,
        "ipc_imbalance_pct"@.len() == 17,
        "memory_bound_imbalance_pct"@.len() == 26,
        "elapsed_time_imbalance_pct"@ != "memory_bound_imbalance_pct"@,
{
    reveal_strlit("elapsed_time_imbalance_pct");
    reveal_strlit("cpu_time_imbalance_pct");
    reveal_strlit("gflops_imbalance_pct");
    reveal_strlit("ipc_imbalance_pct");
    reveal_strlit("memory_bound_imbalance_pct");
    assert("elapsed_time_imbalance_pct"@[0] != "memory_bound_imbalance_pct"@[0]);
}

#[verifier::rlimit(40)]
proof fn lemma_imbalance_at(ranks: Seq<RankRows>, i: int)
    requires
        0 <= i < 5,
    ensures
        numeric_of(rows(imbalances(ranks)), headline(i) + "_imbalance_pct"@) == match imbalances(
            ranks,
        )[i] {
            Some(m) => Some(number_of(m.value)),
            None => None,
        },
{
    let v = imbalances(ranks);
    lemma_imbalance_keys_differ();
    lemma_imbalance_names();
    assert(v.len() == 5);
    let key = headline(i) + "_imbalance_pct"@;
    assert(i == 0 || i == 1 || i == 2 || i == 3 || i == 4);
    assert(v[i] matches Some(m) ==> m.key == key);
    assert forall|k: int| 0 <= k < v.len() && k != i implies (#[trigger] v[k] matches Some(m)
        ==> m.key != key) by {
        assert(k == 0 || k == 1 || k == 2 || k == 3 || k == 4);
    }
    lemma_numeric_rows(v, key, i);
}

/// Whether a row tells the imbalance of values.
spec fn tells_imbalance(row: Option<MetricModel>, vals: Seq<Double>, nranks: nat) -> bool {
    match row {
        Some(m) => vals.len() >= 2 && less(of_int(0), greatest(lowest(), vals)) && number_of(m.value)
            == imbalance(vals, nranks),
        None => !(vals.len() >= 2 && less(of_int(0), greatest(lowest(), vals))),
    }
}

proof fn lemma_imbalance_row(
    ranks: Seq<RankRows>,
    source: Seq<char>,
    key: Seq<char>,
    label: Seq<char>,
)
    ensures
        tells_imbalance(
            imbalance_row(ranks, source, key, label),
            values(ranks, source),
            ranks.len(),
        ),
{
}

proof fn lemma_imbalance_value(ranks: Seq<RankRows>, i: int)
    requires
        0 <= i < 5,
    ensures
        tells_imbalance(imbalances(ranks)[i], values(ranks, headline(i)), ranks.len()),
{
    let v = imbalances(ranks);
    if i == 0 {
        let label = "Wall-time imbalance (across ranks)"@;
        let key = "elapsed_time_imbalance_pct"@;
        lemma_imbalance_row(ranks, "elapsed_time"@, key, label);
        assert(v[0] == imbalance_row(ranks, "elapsed_time"@, key, label));
    } else if i == 1 {
        let label = "CPU-time imbalance (across ranks)"@;
        let key = "cpu_time_imbalance_pct"@;
        lemma_imbalance_row(ranks, "cpu_time"@, key, label);
        assert(v[1] == imbalance_row(ranks, "cpu_time"@, key, label));
    } else if i == 2 {
        let label = "FP-throughput imbalance (across ranks)"@;
        let key = "gflops_imbalance_pct"@;
        lemma_imbalance_row(ranks, "gflops"@, key, label);
        assert(v[2] == imbalance_row(ranks, "gflops"@, key, label));
    } else if i == 3 {
        let label = "IPC imbalance (across ranks)"@;
        let key = "ipc_imbalance_pct"@;
        lemma_imbalance_row(ranks, "ipc"@, key, label);
        assert(v[3] == imbalance_row(ranks, "ipc"@, key, label));
    } else {
        let label = "Memory-bound imbalance (across ranks)"@;
        let key = "memory_bound_imbalance_pct"@;
        lemma_imbalance_row(ranks, "memory_bound"@, key, label);
        assert(v[4] == imbalance_row(ranks, "memory_bound"@, key, label));
    }
}

/// An imbalance is reported of the elapsed time, the CPU time, the FP throughput, the IPC and
/// memory bound, each exactly where two ranks or more have the metric and one of its values is
/// above zero.
pub proof fn law_imbalance_takes_two_ranks(ranks: Seq<RankRows>, i: int)
    requires
        0 <= i < 5,
        forall|k: int|
            0 <= k < values(ranks, headline(i)).len() ==> (#[trigger] values(
                ranks,
                headline(i),
            )[k]).is_finite(),
    ensures
        ({
            let vals = values(ranks, headline(i));
            numeric_of(rows(imbalances(ranks)), headline(i) + "_imbalance_pct"@) == if vals.len()
                >= 2 && exists|k: int| 0 <= k < vals.len() && less(of_int(0), #[trigger] vals[k]) {
                Some(imbalance(vals, ranks.len()))
            } else {
                None
            }
        }),
{
    let vals = values(ranks, headline(i));
    lemma_imbalance_at(ranks, i);
    lemma_imbalance_value(ranks, i);
    if vals.len() >= 2 {
        let j = lemma_largest_value(vals);
        if exists|k: int| 0 <= k < vals.len() && less(of_int(0), #[trigger] vals[k]) {
            let k = choose|k: int| 0 <= k < vals.len() && less(of_int(0), #[trigger] vals[k]);
            assert(at_most(vals[k], vals[j]));
        } else {
            assert(!less(of_int(0), vals[j]));
        }
    }
}

/// A rank's snapshot is a file named `snap.` and something and `.json`; the job's own,
/// `snap.json`, is none.
pub proof fn law_rank_files_are_known_by_name(name: Seq<char>)
    ensures
        is_rank_name("snap."@ + name + ".json"@),
        !is_rank_name("snap.json"@),
        is_rank_name(name) ==> begins(name, "snap."@) && ends(name, ".json"@),
{
    reveal_strlit("snap.");
    reveal_strlit(".json");
    reveal_strlit("snap.json");
    let s = "snap."@ + name + ".json"@;
    assert(s.take(5) =~= "snap."@);
    assert(s.skip(s.len() - 5) =~= ".json"@);
    assert(s.len() >= 10 && "snap.json"@.len() == 9);
}

/// A value is typed by its unit: seconds are a span, `%` a percentage, bytes a volume, a whole
/// number without a unit a count, and any other number stays as it is, with its unit.
pub proof fn law_units_give_the_type(x: Double, unit: Seq<char>, n: nat)
    requires
        n < 9007199254740992,
    ensures
        typed_value(x, "s"@) is Duration,
        typed_value(x, "%"@) == ValueModel::Percent(x),
        typed_value(x, "bytes"@) is Bytes,
        less(x, of_int(0)) ==> typed_value(x, "bytes"@) == ValueModel::Bytes(0),
        typed_value(of_int(n as int), ""@) == (ValueModel::Int { value: n as i64, unit: ""@ }),
        unit != "s"@ && unit != "%"@ && unit != "bytes"@ && unit != ""@ ==> typed_value(x, unit)
            == (ValueModel::Float { value: x, unit }),
{
    reveal_strlit("s");
    reveal_strlit("%");
    reveal_strlit("bytes");
    reveal_strlit("");
    assert("%"@[0] != "s"@[0]);
    assert("s"@.len() == 1 && "%"@.len() == 1 && "bytes"@.len() == 5 && ""@.len() == 0);
    law_whole_numbers_are_counted(n);
    law_whole_numbers_are_counted(0);
    let y = of_int(n as int);
    lemma_whole_exact(n as int);
    lemma_pow2_pos(1074);
    let u = one_unit();
    assert((n * u) % u == 0) by (nonlinear_arith)
        requires
            u > 0,
    ;
    lemma_below_limit(n);
}

proof fn lemma_below_limit(n: nat)
    requires
        n < 9007199254740992,
    ensures
        less(signed(false, of_int(n as int).mag()), of_int(9000000000000000000)),
{
    let y = of_int(n as int);
    lemma_whole_exact(n as int);
    lemma_whole_exact(9007199254740991);
    lemma_pow2_pos(1074);
    let u = one_unit();
    assert(n * u <= 9007199254740991 * u) by (nonlinear_arith)
        requires
            n <= 9007199254740991,
    ;
    lemma_limit_is_larger();
    lemma_signed(false, y.mag());
}

/// The limit of counts is above what is exact.
proof fn lemma_limit_is_larger()
    ensures
        less(of_int(9007199254740991), of_int(9000000000000000000)),
{
    let u = one_unit();
    let (a, b) = (of_int(9007199254740991), of_int(9000000000000000000));
    lemma_pow2_pos(1074);
    lemma_whole_exact(9007199254740991);
    lemma_count_positive(9007199254740991);
    lemma_count_positive(9000000000000000000);
    crate::double::lemma_double_rounds_up(a.mag());
    let twice = 2 * units_of(a.mag());
    assert(twice * 1 <= 9000000000000000000 * u * 1) by (nonlinear_arith)
        requires
            twice == 2 * (9007199254740991 * u),
    ;
    lemma_round_monotone(twice, 1, 9000000000000000000 * u, 1);
    lemma_round_range(9000000000000000000 * u, 1);
    lemma_units_order(a.mag(), b.mag());
}

/// A row of a rank's snapshot without a unit has none, and without a label is labelled by its
/// key; without a key, or a value that is finite, it is no row.
pub proof fn law_rows_have_defaults(j: Json)
    ensures
        row_in(j) matches Some((key, m)) ==> member_text(j, "key"@) == Some(key)
            && m.value.is_finite() && m.unit == match member_text(j, "unit"@) {
            Some(u) => u,
            None => ""@,
        } && m.label == match member_text(j, "label"@) {
            Some(l) => l,
            None => key,
        },
        member_text(j, "key"@) is None ==> row_in(j) is None,
        member(j, "value"@) is None ==> row_in(j) is None,
        (member(j, "value"@) matches Some(Json::Number { value, .. }) && value.is_finite())
            && member_text(j, "key"@) is Some ==> (row_in(j) matches Some((key, m)) && member(
            j,
            "value"@,
        ) matches Some(Json::Number { value, .. }) && m.value == value),
{
}

/// A span below a second is its nanoseconds in thousand-millionths of a second.
pub proof fn law_nanoseconds_are_thousand_millionths(n: nat)
    requires
        0 < n < 1000000000,
    ensures
        seconds(Duration { secs: 0, nanos: n as u32 }) == quotient(
            of_int(n as int),
            of_int(1000000000),
        ),
{
    let (x, b) = (of_int(n as int), of_int(1000000000));
    let u = one_unit();
    let q = quotient(x, b);
    lemma_whole_exact(0);
    lemma_whole_exact(n as int);
    lemma_whole_exact(1000000000);
    lemma_pow2_pos(1074);
    lemma_units_zero();
    lemma_round_exact(0);
    lemma_count_positive(n);
    lemma_count_positive(1000000000);
    assert(0 * u == 0) by (nonlinear_arith);
    assert(n * u > 0 && n * u <= 1000000000 * u) by (nonlinear_arith)
        requires
            0 < n < 1000000000,
            u > 0,
    ;
    lemma_nonnegative(x);
    crate::bounds::lemma_fraction(x, b);
    lemma_round_range(units_of(x.mag()) * u, units_of(b.mag()));
    assert(!q.neg());
    lemma_round_exact(q.mag());
    lemma_nonnegative(q);
    lemma_units_order(0, q.mag());
    if q.num() == 0 {
        assert(q.mag() == 0);
    }
}

/// A number of seconds is a span to the nearest nanosecond.
pub proof fn law_spans_are_to_the_nanosecond(x: Double)
    requires
        is_span(x),
    ensures
        ({
            let d = span_of(x);
            let nanos = d.secs * 1000000000 + d.nanos;
            &&& d.nanos < 1000000000
            &&& 2 * (nanos * one_unit() - units_of(x.mag()) * 1000000000) <= one_unit()
            &&& 2 * (units_of(x.mag()) * 1000000000 - nanos * one_unit()) <= one_unit()
        }),
{
    lemma_pow2_pos(1074);
    law_the_nearest_is_even_in_a_tie(units_of(x.mag()) * 1000000000, one_unit());
    let k = nearest(units_of(x.mag()) * 1000000000, one_unit());
    let d = span_of(x);
    assert(d.secs * 1000000000 + d.nanos == k);
}

} // verus!
