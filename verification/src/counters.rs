//! What counters say: counts scaled by the share of time they ran, and totals over scopes.

use crate::arithmetic::{
    law_over_itself, law_over_one, law_products_grow, law_products_of_whole_numbers,
    law_quotients_grow, law_quotients_of_whole_numbers, law_sums_of_whole_numbers,
};
use crate::bounds::{lemma_counts_increase, lemma_product_commutes};
use crate::double::{
    at_most, lemma_count_positive, lemma_units_order, lemma_units_zero, lemma_whole_exact, of_int,
    one_unit, quotient, Double,
};
use crate::jobs::law_whole_numbers_are_counted;
use crate::metric::{law_numeric_keeps, lemma_numeric_row, numeric_of, row};
use crate::perf::{counter_metric, counter_metrics};
use crate::pmu::{event_total, group_read, totals, EventCfg, GroupModel};
use vstd::prelude::*;

verus! {

/// The words of a read of `n` events: how many there are, the time enabled, the time
/// running, and the counts.
pub open spec fn is_record(words: Seq<u64>, n: nat) -> bool {
    words.len() == n + 3 && words[0] == n && n < 9007199254740992
}

/// A count is above zero.
proof fn lemma_above_zero(n: u64)
    requires
        n > 0,
    ensures
        of_int(n as int).is_finite(),
        !of_int(n as int).is_zero(),
        of_int(n as int).num() > 0,
{
    lemma_count_positive(n as nat);
    lemma_units_zero();
    lemma_units_order(0, of_int(n as int).mag());
}

/// A record is read exactly where the group ran, and gives a value per event.
pub proof fn law_a_record_is_read_where_the_group_ran(words: Seq<u64>, n: nat)
    requires
        is_record(words, n),
    ensures
        match group_read(words, n) {
            Some(r) => words[1] > 0 && words[2] > 0 && r.vals.len() == n,
            None => words[1] == 0 || words[2] == 0,
        },
{
    law_whole_numbers_are_counted(n);
}

/// A record of another number of events is not read.
pub proof fn law_a_torn_record_is_not_read(words: Seq<u64>, n: nat)
    requires
        words.len() != n + 3 || (words[0] != n && words[0] < 9007199254740992),
    ensures
        group_read(words, n) is None,
{
    if words.len() == n + 3 {
        law_whole_numbers_are_counted(words[0] as nat);
    }
}

/// A group that ran all the time it was enabled has its counts as they are.
pub proof fn law_a_group_that_always_ran_is_not_scaled(words: Seq<u64>, n: nat, k: int)
    requires
        is_record(words, n),
        words[1] == words[2],
        words[1] > 0,
        0 <= k < n,
    ensures
        group_read(words, n) matches Some(r) && r.vals[k] == of_int(words[k + 3] as int)
            && r.coverage == of_int(1),
{
    law_whole_numbers_are_counted(n);
    lemma_above_zero(words[1]);
    law_over_itself(of_int(words[1] as int));
    lemma_count_number(words[k + 3]);
    law_over_one(of_int(words[k + 3] as int));
    lemma_whole_exact(0);
    lemma_whole_exact(1);
    assert(0 * one_unit() == 0) by (nonlinear_arith);
}

proof fn lemma_count_number(n: u64)
    ensures
        of_int(n as int).is_finite(),
        !of_int(n as int).is_nan(),
        !of_int(n as int).neg(),
{
    if n > 0 {
        lemma_count_positive(n as nat);
    } else {
        lemma_whole_exact(0);
    }
}

/// A group that ran a `k`th of the time counted a `k`th: its counts are scaled up by `k`.
pub proof fn law_a_group_that_ran_a_part_is_scaled_up(words: Seq<u64>, n: nat, k: nat, j: int)
    requires
        is_record(words, n),
        words[2] > 0,
        words[1] == k * words[2],
        0 < k,
        words[1] < 9007199254740992,
        0 <= j < n,
        words[j + 3] * k < 9007199254740992,
    ensures
        group_read(words, n) matches Some(r) && r.vals[j] == of_int(words[j + 3] * k),
{
    let run = words[2] as nat;
    assert(k * run >= k && k * run >= run) by (nonlinear_arith)
        requires
            k > 0,
            run > 0,
    ;
    law_whole_numbers_are_counted(n);
    law_quotients_of_whole_numbers(k, run);
    let c = words[j + 3] as nat;
    assert(c * k >= c) by (nonlinear_arith)
        requires
            k > 0,
    ;
    law_products_of_whole_numbers(c, k);
}

/// A group that ran no longer than it was enabled counted no more than it is scaled to.
pub proof fn law_scaling_never_loses(words: Seq<u64>, n: nat, k: int)
    requires
        is_record(words, n),
        0 < words[2] <= words[1],
        0 <= k < n,
        words[k + 3] > 0,
    ensures
        group_read(words, n) matches Some(r) && at_most(of_int(words[k + 3] as int), r.vals[k]),
{
    let (e, r) = (of_int(words[1] as int), of_int(words[2] as int));
    let c = of_int(words[k + 3] as int);
    law_whole_numbers_are_counted(n);
    lemma_above_zero(words[1]);
    lemma_above_zero(words[2]);
    lemma_above_zero(words[k + 3]);
    lemma_counts_increase(words[2] as nat, words[1] as nat);
    law_quotients_grow(r, e, r);
    law_over_itself(r);
    let scale = quotient(e, r);
    assert(at_most(of_int(1), scale));
    lemma_counts_increase(1, 1);
    law_products_grow(of_int(1), scale, c);
    lemma_product_commutes(of_int(1), c);
    lemma_product_commutes(scale, c);
    law_over_one(c);
}

/// The scope was read, and counted `n` of the event.
pub open spec fn read_as(scope: Seq<Option<GroupModel>>, gi: int, j: int, n: nat) -> bool {
    scope[gi] matches Some(g) && g.last matches Some(vals) && vals[j] == of_int(n as int)
}

/// The scope was never read of the group.
pub open spec fn unread(scope: Seq<Option<GroupModel>>, gi: int) -> bool {
    match scope[gi] {
        Some(g) => g.last is None,
        None => true,
    }
}

/// A scope more adds its count to the total; one that was never read changes nothing, and
/// without any that was there is no total.
pub proof fn law_scopes_add_up(
    threads: Seq<Seq<Option<GroupModel>>>,
    scope: Seq<Option<GroupModel>>,
    gi: int,
    j: int,
    m: nat,
    n: nat,
)
    requires
        m + n < 9007199254740992,
    ensures
        read_as(scope, gi, j, n) && event_total(threads, gi, j) == Some(of_int(m as int))
            ==> event_total(threads.push(scope), gi, j) == Some(of_int((m + n) as int)),
        read_as(scope, gi, j, n) && event_total(threads, gi, j) is None ==> event_total(
            threads.push(scope),
            gi,
            j,
        ) == Some(of_int(n as int)),
        unread(scope, gi) ==> event_total(threads.push(scope), gi, j) == event_total(
            threads,
            gi,
            j,
        ),
        event_total(Seq::empty(), gi, j) is None,
{
    assert(threads.push(scope).drop_last() =~= threads);
    law_sums_of_whole_numbers(m, n);
    law_sums_of_whole_numbers(0, n);
}

/// The number of events before a group.
pub open spec fn events_before(groups: Seq<Vec<EventCfg>>, n: nat) -> nat
    decreases n,
{
    if n == 0 {
        0
    } else {
        events_before(groups, (n - 1) as nat) + groups[n - 1]@.len()
    }
}

/// The totals come group after group, each group's in the order of its events.
pub proof fn law_totals_follow_the_groups(
    groups: Seq<Vec<EventCfg>>,
    threads: Seq<Seq<Option<GroupModel>>>,
    n: nat,
    gi: nat,
    j: int,
)
    requires
        gi < n <= groups.len(),
        0 <= j < groups[gi as int]@.len(),
    ensures
        totals(groups, threads, n).len() == events_before(groups, n),
        events_before(groups, gi) + j < events_before(groups, n),
        totals(groups, threads, n)[events_before(groups, gi) + j] == event_total(
            threads,
            gi as int,
            j,
        ),
    decreases n,
{
    lemma_totals_length(groups, threads, n);
    lemma_totals_length(groups, threads, (n - 1) as nat);
    if gi < n - 1 {
        law_totals_follow_the_groups(groups, threads, (n - 1) as nat, gi, j);
    }
}

proof fn lemma_totals_length(
    groups: Seq<Vec<EventCfg>>,
    threads: Seq<Seq<Option<GroupModel>>>,
    n: nat,
)
    requires
        n <= groups.len(),
    ensures
        totals(groups, threads, n).len() == events_before(groups, n),
    decreases n,
{
    if n > 0 {
        lemma_totals_length(groups, threads, (n - 1) as nat);
    }
}

/// Each counter is told under its own key, as the whole number counted; one that was not
/// counted is not told.
pub proof fn law_counters_are_told_as_counted(
    outputs: Seq<(Seq<char>, Seq<char>)>,
    sums: Seq<Option<Double>>,
    i: int,
    n: nat,
)
    requires
        0 <= i < outputs.len(),
        outputs.len() <= sums.len(),
        forall|a: int, b: int|
            0 <= a < b < outputs.len() ==> (#[trigger] outputs[a]).0 != (#[trigger] outputs[b]).0,
        n < 9007199254740992,
    ensures
        sums[i] == Some(of_int(n as int)) ==> numeric_of(
            counter_metrics(outputs, sums),
            outputs[i].0,
        ) == Some(of_int(n as int)),
        sums[i] is None ==> numeric_of(counter_metrics(outputs, sums), outputs[i].0) is None,
    decreases outputs.len(),
{
    let head = outputs.drop_last();
    let key = outputs[i].0;
    let last = outputs.len() - 1;
    law_whole_numbers_are_counted(n);
    let m = counter_metric(outputs.last(), sums, last);
    law_numeric_keeps(counter_metrics(head, sums), row(m), key);
    lemma_numeric_row(m, key);
    assert forall|a: int, b: int| 0 <= a < b < head.len() implies (#[trigger] head[a]).0 != (
    #[trigger] head[b]).0 by {
        assert(head[a] == outputs[a] && head[b] == outputs[b]);
    }
    if i < last {
        assert(head[i] == outputs[i]);
        law_counters_are_told_as_counted(head, sums, i, n);
        assert(outputs[i].0 != outputs[last].0);
    } else {
        lemma_untold(head, sums, key);
    }
}

proof fn lemma_untold(
    outputs: Seq<(Seq<char>, Seq<char>)>,
    sums: Seq<Option<Double>>,
    key: Seq<char>,
)
    requires
        forall|a: int| 0 <= a < outputs.len() ==> (#[trigger] outputs[a]).0 != key,
    ensures
        numeric_of(counter_metrics(outputs, sums), key) is None,
    decreases outputs.len(),
{
    if outputs.len() > 0 {
        let head = outputs.drop_last();
        assert forall|a: int| 0 <= a < head.len() implies (#[trigger] head[a]).0 != key by {
            assert(head[a] == outputs[a]);
        }
        lemma_untold(head, sums, key);
        let m = counter_metric(outputs.last(), sums, outputs.len() - 1);
        law_numeric_keeps(counter_metrics(head, sums), row(m), key);
        lemma_numeric_row(m, key);
        assert(outputs.last() == outputs[outputs.len() - 1]);
    }
}

} // verus!
