//! What pipeline slots are spent on: eight to a cycle, each for one cause.

use crate::arithmetic::{law_nothing_stays, law_over_itself, law_over_one};
use crate::derive::is_held;
use crate::double::{
    at_most, lemma_round_exact, lemma_signed, lemma_units_order, lemma_units_zero,
    lemma_whole_exact, less, of_int, one_unit, product, quotient, sum, Double,
};
use crate::jobs::lemma_difference;
use crate::metric::{lemma_numeric_rows, number_of, numeric_of, rows};
use crate::topdown::{
    counted, main_group, memory_fraction, no_sums, percent_of, split_group, sums_over, top_metrics,
    top_rows, TopModel, TopSums, CFG_BACKEND, CFG_CYCLES, CFG_FRONTEND, CFG_LOAD_NOT_COMPLETE,
    CFG_NOT_COMPLETE, CFG_RETIRED, CFG_SMT,
};
use vstd::arithmetic::power2::lemma_pow2_pos;
use vstd::prelude::*;

verus! {

proof fn lemma_slot_keys()
    ensures
        "topdown_retiring_pct"@.len() == 20,
        "topdown_frontend_pct"@.len() == 20,
        "topdown_retiring_pct"@ != "topdown_frontend_pct"@,
        "topdown_backend_pct"@.len() == 19,
        "topdown_badspec_pct"@.len() == 19,
        "topdown_backend_pct"@ != "topdown_badspec_pct"@,
        "topdown_smt_pct"@.len() == 15,
        "topdown_backend_mem_pct"@.len() == 23,
        "topdown_backend_core_pct"@.len() == 24,
{
    reveal_strlit("topdown_retiring_pct");
    reveal_strlit("topdown_frontend_pct");
    reveal_strlit("topdown_backend_pct");
    reveal_strlit("topdown_badspec_pct");
    reveal_strlit("topdown_smt_pct");
    reveal_strlit("topdown_backend_mem_pct");
    reveal_strlit("topdown_backend_core_pct");
    assert("topdown_retiring_pct"@[8] != "topdown_frontend_pct"@[8]);
    assert("topdown_backend_pct"@[10] != "topdown_badspec_pct"@[10]);
}

proof fn lemma_row(s: TopSums, key: Seq<char>, j: int)
    requires
        0 <= j < 7,
        j == 0 && key == "topdown_retiring_pct"@ || j == 1 && key == "topdown_frontend_pct"@ || j
            == 2 && key == "topdown_backend_pct"@ || j == 3 && key == "topdown_smt_pct"@ || j == 4
            && key == "topdown_backend_mem_pct"@ || j == 5 && key == "topdown_backend_core_pct"@
            || j == 6 && key == "topdown_badspec_pct"@,
    ensures
        numeric_of(rows(top_rows(s)), key) == match top_rows(s)[j] {
            Some(m) => Some(number_of(m.value)),
            None => None,
        },
{
    lemma_slot_keys();
    let v = top_rows(s);
    assert(v.len() == 7);
    assert(v[j] matches Some(m) ==> m.key == key);
    assert forall|k: int| 0 <= k < v.len() && k != j implies (#[trigger] v[k] matches Some(m)
        ==> m.key != key) by {
        assert(k == 0 || k == 1 || k == 2 || k == 3 || k == 4 || k == 5 || k == 6);
    }
    lemma_numeric_rows(v, key, j);
}

/// Something was counted: on some thread, for some cycles.
pub open spec fn was_counted(s: TopSums) -> bool {
    s.threads > 0 && less(of_int(0), product(of_int(8), s.cycles))
}

proof fn lemma_hundred()
    ensures
        of_int(0).num() == 0,
        of_int(1).num() > 0,
        of_int(1).is_finite(),
        of_int(100).num() > 0,
        of_int(100).is_finite(),
        of_int(0).is_zero(),
        !of_int(0).neg(),
        !of_int(1).neg(),
        of_int(0).num() < of_int(1).num(),
{
    lemma_whole_exact(0);
    lemma_whole_exact(1);
    lemma_whole_exact(100);
    lemma_pow2_pos(1074);
    lemma_units_zero();
    assert(0 * one_unit() == 0) by (nonlinear_arith);
    assert(1 * one_unit() > 0 && 100 * one_unit() > 0);
    lemma_units_order(0, of_int(0).mag());
}

/// A cycle has eight slots. Each cause of the first level is told as the percentage of all slots
/// that its own event counted, held between 0 and 100.
pub proof fn law_a_cycle_has_eight_slots(s: TopSums)
    requires
        was_counted(s),
    ensures
        ({
            let m = top_metrics(s);
            let slots = product(of_int(8), s.cycles);
            let share = |x: Double| product(quotient(x, slots), of_int(100));
            &&& numeric_of(m, "topdown_retiring_pct"@) matches Some(v) && is_held(
                v,
                share(s.retired),
            )
            &&& numeric_of(m, "topdown_frontend_pct"@) matches Some(v) && is_held(
                v,
                share(s.frontend),
            )
            &&& numeric_of(m, "topdown_backend_pct"@) matches Some(v) && is_held(
                v,
                share(s.backend),
            )
            &&& numeric_of(m, "topdown_smt_pct"@) matches Some(v) && is_held(v, share(s.smt))
        }),
{
    lemma_hundred();
    lemma_row(s, "topdown_retiring_pct"@, 0);
    lemma_row(s, "topdown_frontend_pct"@, 1);
    lemma_row(s, "topdown_backend_pct"@, 2);
    lemma_row(s, "topdown_smt_pct"@, 3);
}

/// Bad speculation is what retiring, frontend, backend and SMT leave of the slots: with whole
/// slots, none where those four are all of them.
pub proof fn law_bad_speculation_is_what_is_left(
    s: TopSums,
    slots: nat,
    f: nat,
    b: nat,
    t: nat,
    r: nat,
)
    requires
        was_counted(s),
        product(of_int(8), s.cycles) == of_int(slots as int),
        s.frontend == of_int(f as int),
        s.backend == of_int(b as int),
        s.smt == of_int(t as int),
        s.retired == of_int(r as int),
        f + b + t + r <= slots < 9007199254740992,
    ensures
        numeric_of(top_metrics(s), "topdown_badspec_pct"@) matches Some(v) && is_held(
            v,
            product(quotient(of_int(slots - f - b - t - r), of_int(slots as int)), of_int(100)),
        ),
{
    lemma_hundred();
    lemma_row(s, "topdown_badspec_pct"@, 6);
    lemma_difference(slots, f);
    lemma_difference((slots - f) as nat, b);
    lemma_difference((slots - f - b) as nat, t);
    lemma_difference((slots - f - b - t) as nat, r);
    let left = of_int(slots - f - b - t - r);
    lemma_whole_exact(slots - f - b - t - r);
    lemma_pow2_pos(1074);
    let n: int = slots - f - b - t - r;
    assert(n * one_unit() >= 0) by (nonlinear_arith)
        requires
            n >= 0,
    ;
    if n > 0 {
        assert(n * one_unit() > 0) by (nonlinear_arith)
            requires
                n > 0,
                one_unit() > 0,
        ;
    }
}

/// Nothing is told where nothing was counted.
pub proof fn law_nothing_counted_is_not_told(s: TopSums)
    requires
        s.threads == 0 || at_most(product(of_int(8), s.cycles), of_int(0)),
    ensures
        top_metrics(s).len() == 0,
{
}

/// The backend is split exactly where its stalls were counted on at least half of the threads.
pub proof fn law_the_backend_is_split_where_most_threads_say(s: TopSums)
    requires
        was_counted(s),
    ensures
        ({
            let m = top_metrics(s);
            let said = less(of_int(0), s.not_complete) && less(
                of_int(0),
                product(of_int(8), s.cycles_split),
            ) && 2 * s.split_threads >= s.threads;
            &&& (numeric_of(m, "topdown_backend_mem_pct"@) is Some) == said
            &&& (numeric_of(m, "topdown_backend_core_pct"@) is Some) == said
        }),
{
    lemma_hundred();
    lemma_row(s, "topdown_backend_mem_pct"@, 4);
    lemma_row(s, "topdown_backend_core_pct"@, 5);
}

/// Of stalls that all wait for a load, the whole backend share is memory's, and none the core's;
/// of stalls none of which does, it is the other way round.
pub proof fn law_loads_are_memory_and_the_rest_is_core(s: TopSums)
    requires
        was_counted(s),
        less(of_int(0), s.not_complete),
        s.not_complete.is_finite(),
        less(of_int(0), product(of_int(8), s.cycles_split)),
        2 * s.split_threads >= s.threads,
        s.load_not_complete == s.not_complete || s.load_not_complete == of_int(0),
        !product(
            quotient(s.backend_split, product(of_int(8), s.cycles_split)),
            of_int(100),
        ).is_nan(),
    ensures
        ({
            let m = top_metrics(s);
            let share = product(
                quotient(s.backend_split, product(of_int(8), s.cycles_split)),
                of_int(100),
            );
            &&& numeric_of(m, "topdown_backend_mem_pct"@) matches Some(a) && numeric_of(
                m,
                "topdown_backend_core_pct"@,
            ) matches Some(b) && if s.load_not_complete == s.not_complete {
                is_held(a, share) && b.num() == 0
            } else {
                a.num() == 0 && is_held(b, share)
            }
        }),
{
    lemma_hundred();
    lemma_row(s, "topdown_backend_mem_pct"@, 4);
    lemma_row(s, "topdown_backend_core_pct"@, 5);
    lemma_units_zero();
    lemma_units_order(0, s.not_complete.mag());
    let slots = product(of_int(8), s.cycles_split);
    let p = percent_of(s.backend_split, slots);
    assert(at_most(of_int(0), p) && at_most(p, of_int(100)));
    assert(p.is_finite()) by {
        lemma_units_order(p.mag(), of_int(100).mag());
    }
    law_over_one(p);
    if s.load_not_complete == s.not_complete {
        law_over_itself(s.not_complete);
        assert(memory_fraction(s) == of_int(1));
        lemma_difference(1, 1);
    } else {
        law_nothing_stays(of_int(0), s.not_complete);
        let q = quotient(of_int(0), s.not_complete);
        assert(memory_fraction(s) == q);
        lemma_units_order(0, q.mag());
        assert(q.mag() == 0 && !q.neg());
        lemma_round_exact(0);
        assert(q == of_int(0));
        lemma_difference(1, 0);
    }
    lemma_times_nothing(p);
}

/// A finite number times nothing is nothing.
proof fn lemma_times_nothing(p: Double)
    requires
        p.is_finite(),
    ensures
        product(p, of_int(0)).num() == 0,
{
    lemma_hundred();
    lemma_units_zero();
    lemma_pow2_pos(1074);
    lemma_round_exact(0);
    let a = crate::double::units_of(p.mag());
    assert(a * 0 == 0) by (nonlinear_arith);
    assert(0 * 1 == 0 * one_unit()) by (nonlinear_arith);
    crate::double::lemma_round_monotone(0, one_unit(), 0, 1);
    crate::double::lemma_round_monotone(0, 1, 0, one_unit());
    lemma_signed(p.neg() != of_int(0).neg(), 0);
}

/// What was counted of an event.
pub open spec fn count_of_event(s: TopSums, config: u64) -> Double {
    if config == CFG_CYCLES {
        s.cycles
    } else if config == CFG_FRONTEND {
        s.frontend
    } else if config == CFG_BACKEND {
        s.backend
    } else if config == CFG_SMT {
        s.smt
    } else if config == CFG_RETIRED {
        s.retired
    } else if config == CFG_NOT_COMPLETE {
        s.not_complete
    } else {
        s.load_not_complete
    }
}

proof fn lemma_counted_main(s: TopSums, g: TopModel, i: int)
    requires
        g.main is Some,
        0 <= i < 5,
    ensures
        count_of_event(counted(s, g), main_group()[i].config) == sum(
            count_of_event(s, main_group()[i].config),
            g.main->0[i],
        ),
{
    if i == 0 {
        assert(main_group()[0].config == CFG_CYCLES);
    } else if i == 1 {
        assert(main_group()[1].config == CFG_FRONTEND);
    } else if i == 2 {
        assert(main_group()[2].config == CFG_BACKEND);
    } else if i == 3 {
        assert(main_group()[3].config == CFG_SMT);
    } else {
        assert(main_group()[4].config == CFG_RETIRED);
    }
}

proof fn lemma_counted_split(s: TopSums, g: TopModel, i: int)
    requires
        g.main is Some,
        g.split is Some,
        0 <= i < 2,
    ensures
        count_of_event(counted(s, g), split_group()[i].config) == sum(
            count_of_event(s, split_group()[i].config),
            g.split->0[i],
        ),
{
    if i == 0 {
        assert(split_group()[0].config == CFG_NOT_COMPLETE);
    } else {
        assert(split_group()[1].config == CFG_LOAD_NOT_COMPLETE);
    }
}

/// A scope more adds what it counted of each event to that event's own count, whichever place
/// the event has in its group; one that was never read adds nothing.
pub proof fn law_scopes_add_to_their_events(v: Seq<TopModel>, g: TopModel, i: int)
    ensures
        g.main is Some && 0 <= i < 5 ==> count_of_event(
            sums_over(v.push(g)),
            main_group()[i].config,
        ) == sum(count_of_event(sums_over(v), main_group()[i].config), g.main->0[i]),
        g.main is Some && g.split is Some && 0 <= i < 2 ==> count_of_event(
            sums_over(v.push(g)),
            split_group()[i].config,
        ) == sum(count_of_event(sums_over(v), split_group()[i].config), g.split->0[i]),
        g.main is None ==> sums_over(v.push(g)) == sums_over(v),
        sums_over(Seq::empty()) == no_sums(),
{
    assert(v.push(g).drop_last() =~= v);
    if g.main is Some && 0 <= i < 5 {
        lemma_counted_main(sums_over(v), g, i);
    }
    if g.main is Some && g.split is Some && 0 <= i < 2 {
        lemma_counted_split(sums_over(v), g, i);
    }
}

/// A scope that was read is a thread, and one whose split was read is one of the split too.
pub proof fn law_scopes_are_threads(v: Seq<TopModel>, g: TopModel)
    requires
        sums_over(v).threads < u64::MAX,
        sums_over(v).split_threads < u64::MAX,
    ensures
        ({
            let (a, b) = (sums_over(v), sums_over(v.push(g)));
            &&& g.main is Some ==> b.threads == a.threads + 1
            &&& g.main is Some && g.split is Some ==> b.split_threads == a.split_threads + 1
            &&& g.main is Some && g.split is None ==> b.split_threads == a.split_threads
                && b.cycles_split == a.cycles_split && b.backend_split == a.backend_split
                && b.not_complete == a.not_complete && b.load_not_complete == a.load_not_complete
        }),
{
    assert(v.push(g).drop_last() =~= v);
}

/// The split divides the backend slots of the very scopes that it was read on: where it was read
/// on all of them, their cycles, backend slots and threads are all there are.
pub proof fn law_the_split_is_of_its_own_scopes(v: Seq<TopModel>)
    requires
        forall|i: int|
            0 <= i < v.len() ==> (#[trigger] v[i]).main is Some ==> v[i].split is Some,
    ensures
        sums_over(v).cycles_split == sums_over(v).cycles,
        sums_over(v).backend_split == sums_over(v).backend,
        sums_over(v).split_threads == sums_over(v).threads,
    decreases v.len(),
{
    if v.len() > 0 {
        let head = v.drop_last();
        assert forall|i: int| 0 <= i < head.len() implies (#[trigger] head[i]).main is Some
            ==> head[i].split is Some by {
            assert(head[i] == v[i]);
        }
        law_the_split_is_of_its_own_scopes(head);
        assert(v[v.len() - 1] == v.last());
    }
}

} // verus!
