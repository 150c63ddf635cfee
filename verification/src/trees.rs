//! The top-down tree from formulas: which are chosen, what they are counted with, and how they
//! are told.

use crate::double::{of_int, product, Double};
use crate::evaluate::{evaluated, CountsModel, Env, Host};
use crate::hwpc::{
    all_encode, candidate, canon_key, chosen_metric, group_counts, group_with_room, is_present,
    joined_group, packed, packed_one, references_of, status_of, ChosenModel, DbModel, Packing,
};
use crate::metric::number_of;
use crate::pmudb::{resolved, UnitModel};
use crate::table::{ascending, found, lemma_inserted};
use vstd::prelude::*;

verus! {

proof fn lemma_tree_keys()
    ensures
        "topdown_retiring_pct"@.len() == 20,
        "topdown_frontend_pct"@.len() == 20,
        "topdown_retiring_pct"@ != "topdown_frontend_pct"@,
        "topdown_backend_pct"@.len() == 19,
        "topdown_badspec_pct"@.len() == 19,
        "topdown_backend_pct"@ != "topdown_badspec_pct"@,
{
    reveal_strlit("topdown_retiring_pct");
    reveal_strlit("topdown_frontend_pct");
    reveal_strlit("topdown_backend_pct");
    reveal_strlit("topdown_badspec_pct");
    assert("topdown_retiring_pct"@[8] != "topdown_frontend_pct"@[8]);
    assert("topdown_backend_pct"@[10] != "topdown_badspec_pct"@[10]);
}

/// Each metric of the tree is taken from the model's formula of its own name, the plain one
/// before that of the `tma_` tree.
pub proof fn law_a_metric_is_taken_from_its_own_formula(db: DbModel, i: int)
    requires
        0 <= i < 4,
    ensures
        ({
            let (plain, tma) = if canon_key(i) == "topdown_retiring_pct"@ {
                ("retiring"@, "tma_retiring"@)
            } else if canon_key(i) == "topdown_frontend_pct"@ {
                ("frontend_bound"@, "tma_frontend_bound"@)
            } else if canon_key(i) == "topdown_backend_pct"@ {
                ("backend_bound"@, "tma_backend_bound"@)
            } else {
                ("bad_speculation"@, "tma_bad_speculation"@)
            };
            &&& found(db.metrics, plain) is Some ==> candidate(db, i) == Some(plain)
            &&& found(db.metrics, plain) is None && found(db.metrics, tma) is Some ==> candidate(
                db,
                i,
            ) == Some(tma)
            &&& found(db.metrics, plain) is None && found(db.metrics, tma) is None ==> candidate(
                db,
                i,
            ) is None
        }),
        canon_key(0) == "topdown_retiring_pct"@,
        canon_key(1) == "topdown_frontend_pct"@,
        canon_key(2) == "topdown_backend_pct"@,
        canon_key(3) == "topdown_badspec_pct"@,
{
    lemma_tree_keys();
    assert(i == 0 || i == 1 || i == 2 || i == 3);
}

/// The aliases that the kernel has besides the database.
pub proof fn law_the_kernel_knows_its_aliases(db: DbModel, name: Seq<char>)
    ensures
        is_present(db, name) <==> found(db.events, name) is Some || name == "slots"@ || name
            == "topdown-retiring"@ || name == "topdown-bad-spec"@ || name == "topdown-fe-bound"@
            || name == "topdown-be-bound"@ || name == "topdown-heavy-ops"@ || name
            == "topdown-br-mispredict"@ || name == "topdown-fetch-lat"@ || name
            == "topdown-mem-bound"@,
{
}

/// A formula whose value is a fraction of the slots is told in percent, from the counts of its
/// own group, under its own key; where it cannot be evaluated it is not told.
pub proof fn law_a_formula_is_told_in_percent(
    db: DbModel,
    host: Host,
    groups: Seq<Seq<Seq<char>>>,
    sums: Seq<Option<Double>>,
    c: ChosenModel,
)
    ensures
        ({
            let from = crate::hwpc::events_before(groups, c.group);
            let names = groups[c.group as int];
            let counts = group_counts(names, sums, from, names.len());
            let env = Env { metrics: db.metrics, host, counts: CountsModel::Measured(counts) };
            match (chosen_metric(db, host, groups, sums, c), evaluated(env, c.metric)) {
                (Some(m), Some((v, asked))) => m.key == c.key && number_of(m.value) == product(
                    v,
                    of_int(100),
                ),
                (None, None) => true,
                _ => false,
            }
        }),
{
}

/// The counts of a group are those at its events' places in the totals.
pub proof fn law_a_group_reads_its_own_totals(
    names: Seq<Seq<char>>,
    sums: Seq<Option<Double>>,
    from: nat,
    n: nat,
    k: int,
)
    requires
        n <= names.len(),
        0 <= k < n,
        from + n <= sums.len(),
        forall|a: int, b: int| 0 <= a < b < n ==> #[trigger] names[a] != #[trigger] names[b],
    ensures
        ascending(group_counts(names, sums, from, n)),
        found(group_counts(names, sums, from, n), names[k]) == sums[from + k],
    decreases n,
{
    let m = (n - 1) as nat;
    let before = group_counts(names, sums, from, m);
    lemma_counts_ascend(names, sums, from, m);
    if sums[(from + m) as int] is Some {
        lemma_inserted(before, names[m as int], sums[(from + m) as int]->0);
    }
    if k < m {
        law_a_group_reads_its_own_totals(names, sums, from, m, k);
        assert(names[k] != names[m as int]);
        if sums[(from + m) as int] is Some {
            assert(found(group_counts(names, sums, from, n), names[k]) == found(before, names[k]));
        }
    } else if sums[(from + m) as int] is None {
        lemma_not_counted(names, sums, from, m, names[k]);
    }
}

proof fn lemma_counts_ascend(names: Seq<Seq<char>>, sums: Seq<Option<Double>>, from: nat, n: nat)
    ensures
        ascending(group_counts(names, sums, from, n)),
    decreases n,
{
    if n > 0 {
        let m = (n - 1) as nat;
        lemma_counts_ascend(names, sums, from, m);
        if from + m < sums.len() && sums[(from + m) as int] is Some {
            lemma_inserted(
                group_counts(names, sums, from, m),
                names[m as int],
                sums[(from + m) as int]->0,
            );
        }
    }
}

proof fn lemma_not_counted(
    names: Seq<Seq<char>>,
    sums: Seq<Option<Double>>,
    from: nat,
    n: nat,
    name: Seq<char>,
)
    requires
        forall|a: int| 0 <= a < n ==> #[trigger] names[a] != name,
    ensures
        found(group_counts(names, sums, from, n), name) is None,
    decreases n,
{
    if n > 0 {
        let m = (n - 1) as nat;
        lemma_not_counted(names, sums, from, m, name);
        lemma_counts_ascend(names, sums, from, m);
        if from + m < sums.len() && sums[(from + m) as int] is Some {
            let before = group_counts(names, sums, from, m);
            lemma_inserted(before, names[m as int], sums[(from + m) as int]->0);
            assert(names[m as int] != name);
            assert(found(group_counts(names, sums, from, n), name) == found(before, name));
        }
    }
}

/// Whether a metric of the tree can be counted: the model has a formula, in the language, of at
/// most five events, all of which can be encoded.
pub open spec fn is_countable(db: DbModel, sys: Seq<UnitModel>, host: Host, i: int) -> bool {
    match candidate(db, i) {
        Some(m) => match references_of(db, host, m) {
            Some(refs) => refs.len() <= 5 && forall|k: int|
                0 <= k < refs.len() ==> resolved(db.events, sys, #[trigger] refs[k]) is Some,
            None => false,
        },
        None => false,
    }
}

pub open spec fn is_chosen(p: Packing, key: Seq<char>) -> bool {
    exists|c: int| 0 <= c < p.chosen.len() && (#[trigger] p.chosen[c]).key == key
}

/// Exactly the metrics that can be counted are chosen.
pub proof fn law_what_can_be_counted_is_chosen(
    db: DbModel,
    sys: Seq<UnitModel>,
    host: Host,
    n: nat,
    i: int,
)
    requires
        0 <= i < n <= 4,
    ensures
        is_chosen(packed(db, sys, host, n), canon_key(i)) <==> is_countable(db, sys, host, i),
    decreases n,
{
    let m = (n - 1) as nat;
    let p = packed(db, sys, host, m);
    let q = packed(db, sys, host, n);
    lemma_tree_keys();
    lemma_step(p, db, sys, host, m as int);
    if i < m {
        law_what_can_be_counted_is_chosen(db, sys, host, m, i);
        assert(canon_key(i) != canon_key(m as int)) by {
            assert(i == 0 || i == 1 || i == 2);
            assert(m == 1 || m == 2 || m == 3);
        }
        if is_chosen(q, canon_key(i)) {
            let c = choose|c: int| 0 <= c < q.chosen.len() && (#[trigger] q.chosen[c]).key
                == canon_key(i);
            assert(c < p.chosen.len());
            assert(p.chosen[c] == q.chosen[c]);
        }
        if is_chosen(p, canon_key(i)) {
            let c = choose|c: int| 0 <= c < p.chosen.len() && (#[trigger] p.chosen[c]).key
                == canon_key(i);
            assert(q.chosen[c] == p.chosen[c]);
        }
    } else {
        lemma_not_yet(db, sys, host, m, canon_key(i));
        if is_countable(db, sys, host, i) {
            assert(q.chosen[p.chosen.len() as int].key == canon_key(i));
        } else {
            assert(q.chosen == p.chosen);
        }
    }
}

/// A step of the packing adds a metric exactly where it can be counted.
proof fn lemma_step(p: Packing, db: DbModel, sys: Seq<UnitModel>, host: Host, i: int)
    ensures
        ({
            let q = packed_one(p, db, sys, host, i);
            if is_countable(db, sys, host, i) {
                q.chosen.len() == p.chosen.len() + 1 && q.chosen.drop_last() == p.chosen
                    && q.chosen.last().key == canon_key(i)
            } else {
                q.chosen == p.chosen
            }
        }),
{
    let q = packed_one(p, db, sys, host, i);
    if is_countable(db, sys, host, i) {
        let refs = references_of(db, host, candidate(db, i)->0)->0;
        assert(all_encode(db, sys, refs));
        assert(q.chosen.drop_last() =~= p.chosen);
    } else {
        match candidate(db, i) {
            Some(m) => match references_of(db, host, m) {
                Some(refs) => {
                    assert(!all_encode(db, sys, refs) || refs.len() > 5);
                },
                None => {},
            },
            None => {},
        }
    }
}

proof fn lemma_not_yet(db: DbModel, sys: Seq<UnitModel>, host: Host, n: nat, key: Seq<char>)
    requires
        n <= 4,
        forall|i: int| 0 <= i < n ==> #[trigger] canon_key(i) != key,
    ensures
        !is_chosen(packed(db, sys, host, n), key),
    decreases n,
{
    if n > 0 {
        let m = (n - 1) as nat;
        let (p, q) = (packed(db, sys, host, m), packed(db, sys, host, n));
        lemma_not_yet(db, sys, host, m, key);
        lemma_step(p, db, sys, host, m as int);
        if is_chosen(q, key) {
            let c = choose|c: int| 0 <= c < q.chosen.len() && (#[trigger] q.chosen[c]).key == key;
            if c < p.chosen.len() {
                assert(p.chosen[c] == q.chosen[c]);
            } else {
                assert(canon_key(m as int) != key);
            }
        }
    }
}

/// No group has more than five events.
pub proof fn law_no_group_has_more_than_five_events(
    db: DbModel,
    sys: Seq<UnitModel>,
    host: Host,
    n: nat,
    g: int,
)
    requires
        0 <= g < packed(db, sys, host, n).groups.len(),
    ensures
        packed(db, sys, host, n).groups[g].len() <= 5,
    decreases n,
{
    if n > 0 {
        let m = (n - 1) as nat;
        let i: int = n - 1;
        let p = packed(db, sys, host, m);
        let q = packed_one(p, db, sys, host, i);
        if g < p.groups.len() {
            law_no_group_has_more_than_five_events(db, sys, host, m, g);
        }
        match candidate(db, i) {
            Some(name) => match references_of(db, host, name) {
                Some(refs) => {
                    if all_encode(db, sys, refs) && refs.len() <= 5 {
                        let gi = group_with_room(p.groups, refs);
                        lemma_room(p.groups, refs);
                        lemma_joined_length(Seq::empty(), refs);
                    }
                },
                None => {},
            },
            None => {},
        }
    }
}

proof fn lemma_room(groups: Seq<Seq<Seq<char>>>, refs: Seq<Seq<char>>)
    ensures
        group_with_room(groups, refs) < groups.len() ==> joined_group(
            groups[group_with_room(groups, refs) as int],
            refs,
        ).len() <= 5,
        group_with_room(groups, refs) <= groups.len(),
    decreases groups.len(),
{
    if groups.len() > 0 && joined_group(groups[0], refs).len() > 5 {
        lemma_room(groups.skip(1), refs);
        let k = group_with_room(groups.skip(1), refs);
        if k < groups.skip(1).len() {
            assert(groups.skip(1)[k as int] == groups[(k + 1) as int]);
        }
    }
}

proof fn lemma_joined_length(g: Seq<Seq<char>>, refs: Seq<Seq<char>>)
    ensures
        joined_group(g, refs).len() <= g.len() + refs.len(),
    decreases refs.len(),
{
    if refs.len() > 0 {
        lemma_joined_length(g, refs.drop_last());
    }
}

/// A metric is resolved exactly where the model has a formula for it in the language, all of
/// whose events are present.
pub proof fn law_a_metric_is_resolved_where_its_events_are_present(
    db: DbModel,
    host: Host,
    i: int,
)
    ensures
        status_of(db, host, i).resolved <==> (candidate(db, i) matches Some(m) && references_of(
            db,
            host,
            m,
        ) matches Some(refs) && forall|k: int|
            0 <= k < refs.len() ==> is_present(db, #[trigger] refs[k])),
        status_of(db, host, i).key == canon_key(i),
        status_of(db, host, i).metric == candidate(db, i),
{
    match candidate(db, i) {
        Some(m) => match references_of(db, host, m) {
            Some(refs) => lemma_missing(db, refs),
            None => {},
        },
        None => {},
    }
}

proof fn lemma_missing(db: DbModel, refs: Seq<Seq<char>>)
    ensures
        crate::hwpc::first_missing(db, refs) is None <==> forall|k: int|
            0 <= k < refs.len() ==> is_present(db, #[trigger] refs[k]),
    decreases refs.len(),
{
    if refs.len() > 0 {
        let rest = refs.skip(1);
        lemma_missing(db, rest);
        assert forall|k: int| 0 <= k < rest.len() implies #[trigger] rest[k] == refs[k + 1] by {}
        if forall|k: int| 0 <= k < rest.len() ==> is_present(db, #[trigger] rest[k]) {
            if is_present(db, refs[0]) {
                assert forall|k: int| 0 <= k < refs.len() implies is_present(
                    db,
                    #[trigger] refs[k],
                ) by {
                    if k > 0 {
                        assert(rest[k - 1] == refs[k]);
                    }
                }
            }
        } else {
            let k = choose|k: int| 0 <= k < rest.len() && !is_present(db, #[trigger] rest[k]);
            assert(!is_present(db, refs[k + 1]));
        }
    }
}

/// A metric goes into the first group that has room for its events; a new group is begun only
/// where none has.
pub proof fn law_groups_are_filled_first(
    p: Packing,
    db: DbModel,
    sys: Seq<UnitModel>,
    host: Host,
    i: int,
    g: int,
)
    requires
        is_countable(db, sys, host, i),
        0 <= g < p.groups.len(),
        joined_group(
            p.groups[g],
            references_of(db, host, candidate(db, i)->0)->0,
        ).len() <= 5,
        forall|k: int|
            0 <= k < g ==> joined_group(
                #[trigger] p.groups[k],
                references_of(db, host, candidate(db, i)->0)->0,
            ).len() > 5,
    ensures
        packed_one(p, db, sys, host, i).groups.len() == p.groups.len(),
        packed_one(p, db, sys, host, i).chosen.last().group == g,
        packed_one(p, db, sys, host, i).chosen.last().key == canon_key(i),
{
    let refs = references_of(db, host, candidate(db, i)->0)->0;
    assert(all_encode(db, sys, refs));
    lemma_first_room(p.groups, refs, g);
}

proof fn lemma_first_room(groups: Seq<Seq<Seq<char>>>, refs: Seq<Seq<char>>, g: int)
    requires
        0 <= g < groups.len(),
        joined_group(groups[g], refs).len() <= 5,
        forall|k: int| 0 <= k < g ==> joined_group(#[trigger] groups[k], refs).len() > 5,
    ensures
        group_with_room(groups, refs) == g,
    decreases groups.len(),
{
    if g > 0 {
        let rest = groups.skip(1);
        assert(rest[g - 1] == groups[g]);
        assert forall|k: int| 0 <= k < g - 1 implies joined_group(
            #[trigger] rest[k],
            refs,
        ).len() > 5 by {
            assert(rest[k] == groups[k + 1]);
        }
        assert(joined_group(groups[0], refs).len() > 5);
        lemma_first_room(rest, refs, g - 1);
    }
}

/// A group with a metric's events has those it had and those, and no others.
pub proof fn law_a_group_takes_the_events_once(
    g: Seq<Seq<char>>,
    refs: Seq<Seq<char>>,
    e: Seq<char>,
)
    ensures
        joined_group(g, refs).contains(e) <==> g.contains(e) || refs.contains(e),
    decreases refs.len(),
{
    if refs.len() > 0 {
        let head = refs.drop_last();
        let before = joined_group(g, head);
        let now = joined_group(g, refs);
        let last = refs.last();
        law_a_group_takes_the_events_once(g, head, e);
        assert(refs[refs.len() - 1] == last);
        if refs.contains(e) {
            let i = choose|i: int| 0 <= i < refs.len() && refs[i] == e;
            if i < head.len() {
                assert(head[i] == e);
            }
        }
        if head.contains(e) {
            let i = choose|i: int| 0 <= i < head.len() && head[i] == e;
            assert(refs[i] == e);
        }
        if !before.contains(last) {
            assert(now[before.len() as int] == last);
            if before.contains(e) {
                let i = choose|i: int| 0 <= i < before.len() && before[i] == e;
                assert(now[i] == e);
            }
            if now.contains(e) {
                let i = choose|i: int| 0 <= i < now.len() && now[i] == e;
                if i < before.len() {
                    assert(before[i] == e);
                }
            }
        }
    }
}

} // verus!
