//! How evenly work is spread: over threads by their CPU time, over ranks by their time in MPI.

use crate::arithmetic::{added, law_quotients_of_whole_numbers, law_totals_of_whole_numbers};
use crate::bounds::{lemma_counts_increase, lemma_fraction, lemma_scaled};
use crate::decimal::{fixed, parsed};
use crate::double::{
    at_most, greater_of, greatest, lemma_round_exact, lemma_units_order, lemma_units_zero,
    lemma_whole_exact, less, of_int, one_unit, product, quotient, sum, total, Double,
};
use crate::jobs::{lemma_difference, lemma_shortfall_whole};
use crate::metric::{number_of, numeric_of};
use crate::mpi::{
    fn_of, fn_totals, mpi_metrics, mpi_times, ranked, secs_of, stat_in, top_rows, walls, with_fns,
    with_time, FnModel, FnTotals, StatModel,
};
use crate::text::{begins, signed_of, words_of};
use crate::threads::{busy_seconds, gap_percent, recorded, thread_metrics, workers};
use crate::throughput::lemma_whole_positive;
use vstd::arithmetic::power2::lemma_pow2_pos;
use vstd::prelude::*;

verus! {

// ------------------------------------------------------------------ threads

/// Recording a thread sets its ticks and leaves those of every other.
pub proof fn law_recording_sets_one_thread(last: Seq<(i32, u64)>, tid: i32, ticks: u64, other: i32)
    ensures
        recorded(last, tid, ticks).contains((tid, ticks)),
        other != tid ==> forall|n: u64|
            #![trigger recorded(last, tid, ticks).contains((other, n))]
            #![trigger last.contains((other, n))]
            recorded(last, tid, ticks).contains((other, n)) <==> last.contains((other, n)),
    decreases last.len(),
{
    let r = recorded(last, tid, ticks);
    if last.len() == 0 {
        assert(r[0] == (tid, ticks));
    } else if last[0].0 == tid {
        assert(r[0] == (tid, ticks));
        assert forall|n: u64| other != tid implies r.contains((other, n)) == last.contains(
            (other, n),
        ) by {
            if r.contains((other, n)) {
                let i = choose|i: int| 0 <= i < r.len() && r[i] == (other, n);
                assert(last[i] == r[i]);
            }
            if last.contains((other, n)) {
                let i = choose|i: int| 0 <= i < last.len() && last[i] == (other, n);
                assert(r[i] == last[i]);
            }
        }
    } else {
        let rest = last.skip(1);
        law_recording_sets_one_thread(rest, tid, ticks, other);
        let q = recorded(rest, tid, ticks);
        assert(r =~= seq![last[0]] + q);
        let i = choose|i: int| 0 <= i < q.len() && q[i] == (tid, ticks);
        assert(r[i + 1] == (tid, ticks));
        assert forall|n: u64| other != tid implies r.contains((other, n)) == last.contains(
            (other, n),
        ) by {
            if r.contains((other, n)) {
                let i = choose|i: int| 0 <= i < r.len() && r[i] == (other, n);
                if i > 0 {
                    assert(q[i - 1] == (other, n));
                    assert(q.contains((other, n)) && rest.contains((other, n)));
                    let k = choose|k: int| 0 <= k < rest.len() && rest[k] == (other, n);
                    assert(last[k + 1] == (other, n));
                } else {
                    assert(last[0] == (other, n));
                }
            }
            if last.contains((other, n)) {
                let i = choose|i: int| 0 <= i < last.len() && last[i] == (other, n);
                if i > 0 {
                    assert(rest[i - 1] == (other, n));
                    assert(rest.contains((other, n)) && q.contains((other, n)));
                    let k = choose|k: int| 0 <= k < q.len() && q[k] == (other, n);
                    assert(r[k + 1] == (other, n));
                } else {
                    assert(r[0] == (other, n));
                }
            }
        }
    }
}

/// The whole seconds of threads, as ticks.
pub open spec fn ticking(last: Seq<(i32, u64)>, secs: Seq<nat>, clk: u64) -> bool {
    &&& last.len() == secs.len()
    &&& forall|i: int| 0 <= i < last.len() ==> (#[trigger] last[i]).1 == secs[i] * clk
}

pub open spec fn whole(v: Seq<nat>) -> Seq<Double> {
    v.map_values(|n: nat| of_int(n as int))
}

proof fn lemma_busy(last: Seq<(i32, u64)>, secs: Seq<nat>, clk: u64)
    requires
        ticking(last, secs, clk),
        0 < clk < 9007199254740992,
        forall|i: int|
            0 <= i < secs.len() ==> 0 < #[trigger] secs[i] && secs[i] * clk < 9007199254740992,
    ensures
        busy_seconds(last, clk) == whole(secs),
    decreases last.len(),
{
    if last.len() > 0 {
        let n = last.len() - 1;
        let (h, s) = (last.drop_last(), secs.drop_last());
        assert forall|i: int| 0 <= i < h.len() implies (#[trigger] h[i]).1 == s[i] * clk by {
            assert(h[i] == last[i] && s[i] == secs[i]);
        }
        assert forall|i: int| 0 <= i < s.len() implies 0 < #[trigger] s[i] && s[i] * clk
            < 9007199254740992 by {
            assert(s[i] == secs[i]);
        }
        lemma_busy(h, s, clk);
        let k = secs[n];
        assert(last[n].1 == k * clk);
        assert(k <= k * clk) by (nonlinear_arith)
            requires
                clk > 0,
        ;
        law_quotients_of_whole_numbers(k, clk as nat);
        lemma_whole_positive(k);
        assert(whole(secs) =~= whole(s).push(of_int(k as int)));
    } else {
        assert(whole(secs) =~= Seq::empty());
    }
}

/// A tenth of a number is at most the number.
proof fn lemma_tenth(n: nat)
    requires
        0 < n < 9007199254740992,
    ensures
        at_most(product(quotient(of_int(1), of_int(10)), of_int(n as int)), of_int(n as int)),
{
    lemma_counts_increase(1, 10);
    lemma_whole_exact(10);
    lemma_pow2_pos(1074);
    assert(10 * one_unit() > 0);
    lemma_fraction(of_int(1), of_int(10));
    lemma_whole_exact(n as int);
    lemma_counts_increase(n, n);
    lemma_scaled(quotient(of_int(1), of_int(10)), of_int(n as int));
}

/// The most of whole numbers, from zero.
proof fn lemma_most(v: Seq<nat>, most: nat, j: int)
    requires
        0 <= j < v.len(),
        v[j] == most,
        forall|i: int| 0 <= i < v.len() ==> #[trigger] v[i] <= most,
        most < 9007199254740992,
    ensures
        greatest(of_int(0), whole(v)) == of_int(most as int),
    decreases v.len(),
{
    let w = whole(v);
    let n = v.len() - 1;
    let head = v.drop_last();
    assert(w.drop_last() =~= whole(head));
    assert(w.last() == of_int(v[n] as int));
    lemma_whole_exact(0);
    lemma_whole_exact(v[n] as int);
    lemma_whole_exact(most as int);
    lemma_pow2_pos(1074);
    assert(0 * one_unit() == 0) by (nonlinear_arith);
    if head.len() == 0 {
        assert(j == n);
        assert(greatest(of_int(0), whole(head)) == of_int(0));
        assert(most * one_unit() >= 0) by (nonlinear_arith);
        assert(greater_of(of_int(0), of_int(most as int)) == of_int(most as int));
    } else if j < n {
        assert(head[j] == most);
        assert forall|i: int| 0 <= i < head.len() implies #[trigger] head[i] <= most by {
            assert(head[i] == v[i]);
        }
        lemma_most(head, most, j);
        assert(v[n] * one_unit() <= most * one_unit()) by (nonlinear_arith)
            requires
                v[n] <= most,
        ;
        if v[n] != most {
            assert(v[n] * one_unit() < most * one_unit()) by (nonlinear_arith)
                requires
                    v[n] < most,
                    one_unit() > 0,
            ;
        }
    } else {
        lemma_at_most(head, most);
        assert(greater_of(greatest(of_int(0), whole(head)), of_int(most as int)) == of_int(
            most as int,
        ));
    }
}

proof fn lemma_at_most(v: Seq<nat>, most: nat)
    requires
        forall|i: int| 0 <= i < v.len() ==> #[trigger] v[i] <= most,
        most < 9007199254740992,
    ensures
        at_most(greatest(of_int(0), whole(v)), of_int(most as int)),
    decreases v.len(),
{
    lemma_whole_exact(0);
    lemma_whole_exact(most as int);
    lemma_pow2_pos(1074);
    assert(0 * one_unit() == 0) by (nonlinear_arith);
    assert(most * one_unit() >= 0) by (nonlinear_arith);
    let w = whole(v);
    if v.len() > 0 {
        let n = v.len() - 1;
        let head = v.drop_last();
        assert(w.drop_last() =~= whole(head));
        assert forall|i: int| 0 <= i < head.len() implies #[trigger] head[i] <= most by {
            assert(head[i] == v[i]);
        }
        lemma_at_most(head, most);
        assert(w.last() == of_int(v[n] as int));
        lemma_whole_exact(v[n] as int);
        assert(v[n] * one_unit() <= most * one_unit()) by (nonlinear_arith)
            requires
                v[n] <= most,
        ;
    }
}

/// All are workers that did at least a tenth of the most.
proof fn lemma_all_work(v: Seq<nat>, most: nat)
    requires
        forall|i: int|
            0 <= i < v.len() ==> at_most(
                product(quotient(of_int(1), of_int(10)), of_int(most as int)),
                of_int(#[trigger] v[i] as int),
            ),
    ensures
        workers(whole(v), of_int(most as int)) == whole(v),
    decreases v.len(),
{
    if v.len() > 0 {
        let head = v.drop_last();
        assert forall|i: int| 0 <= i < head.len() implies at_most(
            product(quotient(of_int(1), of_int(10)), of_int(most as int)),
            of_int(#[trigger] head[i] as int),
        ) by {
            assert(head[i] == v[i]);
        }
        lemma_all_work(head, most);
        assert(whole(v).drop_last() =~= whole(head));
        assert(whole(v).last() == of_int(v[v.len() - 1] as int));
        assert(whole(v) =~= whole(head).push(of_int(v[v.len() - 1] as int)));
    } else {
        assert(whole(v) =~= Seq::empty());
    }
}

proof fn lemma_thread_rows(last: Seq<(i32, u64)>, clk: u64)
    requires
        busy_seconds(last, clk).len() >= 2,
    ensures
        ({
            let cpu = busy_seconds(last, clk);
            let max = greatest(of_int(0), cpu);
            let active = workers(cpu, max);
            let mean = quotient(total(active), of_int(active.len() as int));
            &&& numeric_of(thread_metrics(last, clk), "active_threads"@) == Some(
                of_int((active.len() as i64) as int),
            )
            &&& numeric_of(thread_metrics(last, clk), "thread_imbalance_pct"@) == Some(
                gap_percent(max, mean),
            )
        }),
{
    reveal_strlit("active_threads");
    reveal_strlit("thread_imbalance_pct");
    assert("active_threads"@.len() == 14 && "thread_imbalance_pct"@.len() == 20);
    let m = thread_metrics(last, clk);
    assert(m.len() == 2);
    assert(m.skip(1)[0] == m[1]);
    reveal_with_fuel(numeric_of, 3);
}

/// Threads that each did at least a tenth of what the busiest did all count as workers, and the
/// imbalance is what their mean lacks of the busiest, in percent of it: none where all did the
/// same.
pub proof fn law_thread_imbalance_is_what_the_mean_lacks(
    last: Seq<(i32, u64)>,
    clk: u64,
    secs: Seq<nat>,
    most: nat,
    mean: nat,
    j: int,
)
    requires
        ticking(last, secs, clk),
        0 < clk < 9007199254740992,
        2 <= secs.len() < 9007199254740992,
        forall|i: int|
            0 <= i < secs.len() ==> 0 < #[trigger] secs[i] && secs[i] * clk < 9007199254740992,
        0 <= j < secs.len(),
        secs[j] == most,
        forall|i: int| 0 <= i < secs.len() ==> #[trigger] secs[i] <= most,
        most < 9007199254740992,
        forall|i: int|
            0 <= i < secs.len() ==> at_most(
                product(quotient(of_int(1), of_int(10)), of_int(most as int)),
                of_int(#[trigger] secs[i] as int),
            ),
        added(secs) == mean * secs.len(),
        added(secs) < 9007199254740992,
        mean <= most,
    ensures
        ({
            let m = thread_metrics(last, clk);
            let gap = numeric_of(m, "thread_imbalance_pct"@);
            &&& numeric_of(m, "active_threads"@) == Some(of_int(secs.len() as int))
            &&& gap == Some(
                product(quotient(of_int(most - mean), of_int(most as int)), of_int(100)),
            )
            &&& mean == most ==> gap == Some(of_int(0))
            &&& 2 * mean == most ==> gap == Some(of_int(50))
        }),
{
    assert(secs[j] > 0);
    lemma_busy(last, secs, clk);
    lemma_most(secs, most, j);
    lemma_all_work(secs, most);
    lemma_thread_rows(last, clk);
    law_totals_of_whole_numbers(secs);
    law_quotients_of_whole_numbers(mean, secs.len());
    lemma_difference(most, mean);
    lemma_whole_positive(most);
    lemma_shortfall_whole((most - mean) as nat, most);
}

/// Threads that did the same for as long are all at work, without imbalance.
pub proof fn law_even_threads_have_no_imbalance(last: Seq<(i32, u64)>, clk: u64, secs: nat)
    requires
        2 <= last.len() < 9007199254740992,
        0 < clk < 9007199254740992,
        0 < secs,
        secs * clk < 9007199254740992,
        secs * last.len() < 9007199254740992,
        forall|i: int| 0 <= i < last.len() ==> (#[trigger] last[i]).1 == secs * clk,
    ensures
        numeric_of(thread_metrics(last, clk), "active_threads"@) == Some(
            of_int(last.len() as int),
        ),
        numeric_of(thread_metrics(last, clk), "thread_imbalance_pct"@) == Some(of_int(0)),
{
    let v = Seq::new(last.len(), |i: int| secs);
    assert(secs <= secs * clk) by (nonlinear_arith)
        requires
            clk > 0,
    ;
    lemma_tenth(secs);
    lemma_added_same(v, secs);
    law_thread_imbalance_is_what_the_mean_lacks(last, clk, v, secs, secs, 0);
}

proof fn lemma_added_same(v: Seq<nat>, n: nat)
    requires
        forall|i: int| 0 <= i < v.len() ==> #[trigger] v[i] == n,
    ensures
        added(v) == n * v.len(),
    decreases v.len(),
{
    if v.len() > 0 {
        let head = v.drop_last();
        assert forall|i: int| 0 <= i < head.len() implies #[trigger] head[i] == n by {
            assert(head[i] == v[i]);
        }
        lemma_added_same(head, n);
        assert(v.last() == v[v.len() - 1]);
        assert(n * head.len() + n == n * (head.len() + 1)) by (nonlinear_arith);
    } else {
        assert(n * 0 == 0) by (nonlinear_arith);
    }
}

/// A thread that did less than a tenth of the most is no worker, and one that did a tenth is.
pub proof fn law_coordinators_are_left_out(cpu: Seq<Double>, most: Double, x: Double)
    ensures
        workers(cpu.push(x), most) == if less(
            x,
            product(quotient(of_int(1), of_int(10)), most),
        ) || x.is_nan() || product(quotient(of_int(1), of_int(10)), most).is_nan() {
            workers(cpu, most)
        } else {
            workers(cpu, most).push(x)
        },
        workers(Seq::empty(), most) == Seq::<Double>::empty(),
{
    assert(cpu.push(x).drop_last() =~= cpu);
}

/// Fewer than two threads that ran tell nothing of balance.
pub proof fn law_one_thread_has_no_balance(last: Seq<(i32, u64)>, clk: u64)
    requires
        busy_seconds(last, clk).len() < 2,
    ensures
        thread_metrics(last, clk).len() == 0,
{
}

// ------------------------------------------------------------------ MPI

/// The rows that come before those of the functions.
proof fn lemma_mpi_rows(ranks: Seq<StatModel>)
    requires
        ranks.len() > 0,
    ensures
        ({
            let m = mpi_metrics(ranks);
            &&& m.len() >= 4
            &&& m[0].key == "mpi_ranks"@ && m[1].key == "mpi_time"@ && m[2].key == "mpi_time_pct"@
                && m[3].key == "mpi_imbalance_pct"@
            &&& numeric_of(m, "mpi_ranks"@) == Some(number_of(m[0].value))
            &&& numeric_of(m, "mpi_time"@) == Some(number_of(m[1].value))
            &&& numeric_of(m, "mpi_time_pct"@) == Some(number_of(m[2].value))
            &&& numeric_of(m, "mpi_imbalance_pct"@) == Some(number_of(m[3].value))
        }),
{
    reveal_strlit("mpi_ranks");
    reveal_strlit("mpi_time");
    reveal_strlit("mpi_time_pct");
    reveal_strlit("mpi_imbalance_pct");
    assert("mpi_ranks"@.len() == 9 && "mpi_time"@.len() == 8 && "mpi_time_pct"@.len() == 12
        && "mpi_imbalance_pct"@.len() == 17);
    let m = mpi_metrics(ranks);
    assert(m.skip(1)[0] == m[1]);
    assert(m.skip(1).skip(1)[0] == m[2]);
    assert(m.skip(1).skip(1).skip(1)[0] == m[3]);
    reveal_with_fuel(numeric_of, 5);
}

/// Time in MPI is the mean over the ranks; its share is of the mean wall time, none without any;
/// its imbalance is what the mean lacks of the rank with the most.
pub proof fn law_mpi_time_is_the_mean_over_ranks(
    ranks: Seq<StatModel>,
    times: Seq<nat>,
    spans: Seq<nat>,
    mean: nat,
    span: nat,
    most: nat,
    j: int,
)
    requires
        0 < ranks.len() < 9007199254740992,
        mpi_times(ranks) == whole(times),
        walls(ranks) == whole(spans),
        added(times) == mean * ranks.len(),
        added(spans) == span * ranks.len(),
        added(times) < 9007199254740992,
        added(spans) < 9007199254740992,
        span < 9007199254740992,
        0 <= j < times.len(),
        times[j] == most,
        forall|i: int| 0 <= i < times.len() ==> #[trigger] times[i] <= most,
        mean <= most < 9007199254740992,
    ensures
        ({
            let m = mpi_metrics(ranks);
            &&& numeric_of(m, "mpi_ranks"@) == Some(of_int(ranks.len() as int))
            &&& numeric_of(m, "mpi_time"@) == Some(of_int(mean as int))
            &&& span > 0 ==> numeric_of(m, "mpi_time_pct"@) == Some(
                product(quotient(of_int(mean as int), of_int(span as int)), of_int(100)),
            )
            &&& span == 0 ==> numeric_of(m, "mpi_time_pct"@) == Some(of_int(0))
            &&& most > 0 ==> numeric_of(m, "mpi_imbalance_pct"@) == Some(
                product(quotient(of_int(most - mean), of_int(most as int)), of_int(100)),
            )
            &&& most == mean ==> numeric_of(m, "mpi_imbalance_pct"@) == Some(of_int(0))
        }),
{
    let n = ranks.len();
    assert(whole(times).len() == times.len() && whole(spans).len() == spans.len());
    assert(mpi_times(ranks).len() == n && walls(ranks).len() == n);
    lemma_mpi_rows(ranks);
    law_totals_of_whole_numbers(times);
    law_totals_of_whole_numbers(spans);
    law_quotients_of_whole_numbers(mean, n);
    law_quotients_of_whole_numbers(span, n);
    lemma_most(times, most, j);
    lemma_whole_positive(span);
    lemma_whole_positive(most);
    lemma_difference(most, mean);
    if most > 0 {
        let short = product(quotient(of_int(most - mean), of_int(most as int)), of_int(100));
        lemma_shortfall_whole((most - mean) as nat, most);
        lemma_held_above(short);
    }
}

/// A number that is not below zero is the greater of it and zero.
proof fn lemma_held_above(x: Double)
    requires
        at_most(of_int(0), x),
        !x.neg(),
    ensures
        greater_of(x, of_int(0)) == x,
{
    lemma_whole_exact(0);
    lemma_units_zero();
    lemma_round_exact(0);
    assert(0 * one_unit() == 0) by (nonlinear_arith);
    lemma_units_order(0, x.mag());
    if !less(of_int(0), x) {
        assert(x.mag() == 0);
        assert(of_int(0).mag() == 0);
    }
}

/// The time of a function among totals.
pub open spec fn time_of(t: FnTotals, name: Seq<char>) -> Option<Double>
    decreases t.len(),
{
    if t.len() == 0 {
        None
    } else if t[0].0 == name {
        Some(t[0].1)
    } else {
        time_of(t.skip(1), name)
    }
}

/// Another time of a function adds to its total, and leaves those of the others.
pub proof fn law_times_of_a_function_add_up(
    t: FnTotals,
    name: Seq<char>,
    secs: Double,
    other: Seq<char>,
)
    ensures
        time_of(with_time(t, name, secs), name) == match time_of(t, name) {
            Some(x) => Some(sum(x, secs)),
            None => Some(secs),
        },
        other != name ==> time_of(with_time(t, name, secs), other) == time_of(t, other),
    decreases t.len(),
{
    let r = with_time(t, name, secs);
    if t.len() == 0 {
        assert(r[0] == (name, secs));
        assert(r.skip(1) =~= Seq::empty());
        reveal_with_fuel(time_of, 2);
    } else if t[0].0 == name {
        assert(r.skip(1) =~= t.skip(1));
    } else {
        law_times_of_a_function_add_up(t.skip(1), name, secs, other);
        assert(r.skip(1) =~= with_time(t.skip(1), name, secs));
    }
}

/// At most five functions are told, from the one with the most time down, each with its time
/// and its share of the time of all.
pub proof fn law_the_top_functions_are_told(t: FnTotals, i: int)
    requires
        0 <= i < top_rows(t).len(),
    ensures
        top_rows(t).len() <= 5,
        t.len() <= 5 ==> top_rows(t).len() == t.len(),
        t.len() > 5 ==> top_rows(t).len() == 5,
        number_of(top_rows(t)[i].value) == t[i].1,
        top_rows(t)[i].key == "mpi_top"@.push(('1' as int + i) as char),
        ({
            let all = total(t.map_values(|e: (Seq<char>, Double)| e.1));
            less(of_int(0), all) ==> top_rows(t)[i].label == "  "@ + t[i].0 + "  ("@ + fixed(
                product(quotient(t[i].1, all), of_int(100)),
                0,
            ) + "% of MPI)"@
        }),
{
    reveal_strlit("mpi_top");
    reveal_strlit("mpi_top1");
    reveal_strlit("mpi_top2");
    reveal_strlit("mpi_top3");
    reveal_strlit("mpi_top4");
    reveal_strlit("mpi_top5");
    assert(i == 0 || i == 1 || i == 2 || i == 3 || i == 4);
    assert("mpi_top1"@ =~= "mpi_top"@.push('1'));
    assert("mpi_top2"@ =~= "mpi_top"@.push('2'));
    assert("mpi_top3"@ =~= "mpi_top"@.push('3'));
    assert("mpi_top4"@ =~= "mpi_top"@.push('4'));
    assert("mpi_top5"@ =~= "mpi_top"@.push('5'));
}

/// A line of a rank's record sets what it names and nothing else.
pub proof fn law_a_line_says_one_thing(lines: Seq<Seq<char>>, x: Seq<char>)
    ensures
        stat_in(lines.push("wall="@ + x)) == (StatModel { wall: secs_of(x), ..stat_in(lines) }),
        stat_in(lines.push("mpi_time="@ + x)) == (StatModel {
            mpi_time: secs_of(x),
            ..stat_in(lines)
        }),
        stat_in(lines.push("fn="@ + x)).wall == stat_in(lines).wall,
        stat_in(lines.push("fn="@ + x)).mpi_time == stat_in(lines).mpi_time,
        stat_in(lines.push("fn="@ + x)).fns == match fn_of(x) {
            Some(f) => stat_in(lines).fns.push(f),
            None => stat_in(lines).fns,
        },
{
    reveal_strlit("wall=");
    reveal_strlit("mpi_time=");
    reveal_strlit("fn=");
    let (a, b, c) = ("wall="@ + x, "mpi_time="@ + x, "fn="@ + x);
    assert(a.take(5) =~= "wall="@ && a.skip(5) =~= x);
    assert(b.take(9) =~= "mpi_time="@ && b.skip(9) =~= x);
    assert(c.take(3) =~= "fn="@ && c.skip(3) =~= x);
    assert(a[0] == 'w' && b[0] == 'm' && c[0] == 'f');
    assert(!begins(b, "wall="@)) by {
        if begins(b, "wall="@) {
            assert(b.take(5)[0] == b[0]);
        }
    }
    assert(!begins(c, "wall="@)) by {
        if begins(c, "wall="@) {
            assert(c.take(5)[0] == c[0]);
        }
    }
    assert(!begins(c, "mpi_time="@)) by {
        if begins(c, "mpi_time="@) {
            assert(c.take(9)[0] == c[0]);
        }
    }
    assert(lines.push(a).drop_last() =~= lines);
    assert(lines.push(b).drop_last() =~= lines);
    assert(lines.push(c).drop_last() =~= lines);
}

/// The functions of all ranks count, each under its name; they are told behind the job's own
/// times, ranked by their totals.
pub proof fn law_every_rank_adds_its_functions(ranks: Seq<StatModel>, r: StatModel, f: FnModel)
    ensures
        fn_totals(ranks.push(r)) == with_fns(fn_totals(ranks), r.fns),
        with_fns(fn_totals(ranks), r.fns.push(f)) == with_time(
            with_fns(fn_totals(ranks), r.fns),
            f.name,
            f.secs,
        ),
        fn_totals(Seq::empty()).len() == 0,
        mpi_metrics(ranks.push(r)).skip(4) == top_rows(ranked(fn_totals(ranks.push(r)))),
{
    assert(ranks.push(r).drop_last() =~= ranks);
    assert(r.fns.push(f).drop_last() =~= r.fns);
    assert(mpi_metrics(ranks.push(r)).skip(4) =~= top_rows(ranked(fn_totals(ranks.push(r)))));
}

/// A thread that never ran does not count; one that ran for some ticks does, by its seconds.
pub proof fn law_idle_threads_do_not_count(
    last: Seq<(i32, u64)>,
    clk: u64,
    tid: i32,
    secs: nat,
)
    requires
        0 < clk < 9007199254740992,
        0 < secs,
        secs * clk < 9007199254740992,
    ensures
        busy_seconds(last.push((tid, 0)), clk) == busy_seconds(last, clk),
        busy_seconds(last.push((tid, (secs * clk) as u64)), clk) == busy_seconds(last, clk).push(
            of_int(secs as int),
        ),
        busy_seconds(Seq::empty(), clk).len() == 0,
{
    assert(last.push((tid, 0)).drop_last() =~= last);
    assert(last.push((tid, (secs * clk) as u64)).drop_last() =~= last);
    assert(0 * clk == 0) by (nonlinear_arith);
    assert(secs <= secs * clk) by (nonlinear_arith)
        requires
            clk > 0,
    ;
    law_quotients_of_whole_numbers(0, clk as nat);
    law_quotients_of_whole_numbers(secs, clk as nat);
    lemma_whole_positive(0);
    lemma_whole_positive(secs);
}

/// A function's line is its name, its seconds and its calls.
pub proof fn law_a_function_is_name_seconds_calls(x: Seq<char>, w: Seq<Seq<char>>, calls: int)
    requires
        w == words_of(x),
    ensures
        w.len() < 3 ==> fn_of(x) is None,
        w.len() >= 3 ==> (fn_of(x) matches Some(f) && f.name == w[0] && f.secs == match parsed(
            w[1],
        ) {
            Some(t) => t,
            None => of_int(0),
        }),
        w.len() >= 3 && signed_of(w[2], i64::MIN as int, i64::MAX as int) == Some(calls) ==> (fn_of(
            x,
        ) matches Some(f) && f.calls == calls),
{
}

} // verus!
