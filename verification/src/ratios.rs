//! Ratios across ranks: what the ranks say of a derived metric never reaches the job.

use crate::aggregate::{
    aggregated, are_tables, headings, imbalances, is_derived, job_base, job_row, job_rows,
    lemma_found_last, lemma_headings, lemma_job_rows, ranks_in, row_in, rows_in, times_fit,
    values, with_rows, world_size, FileModel, HeadingModel, Headings, RankRows,
};
use crate::derive::{derived, has_inputs, law_derived_where_possible};
use crate::json::{items_in, json_parsed, member, Json};
use crate::metric::{int_metric, law_numeric_keeps, numeric_of, row, rows};
use crate::table::{ascending, found, inserted, lemma_found, lemma_inserted, lemma_place};
use crate::text::{lemma_text_order, text_less};
use vstd::prelude::*;

verus! {

/// The rows but those of derived metrics.
pub open spec fn kept<V>(rows: Seq<(Seq<char>, V)>) -> Seq<(Seq<char>, V)>
    decreases rows.len(),
{
    if rows.len() == 0 {
        Seq::empty()
    } else if is_derived(rows.last().0) {
        kept(rows.drop_last())
    } else {
        kept(rows.drop_last()).push(rows.last())
    }
}

/// What the ranks say of all but derived metrics.
pub open spec fn kept_of(ranks: Seq<RankRows>) -> Seq<RankRows> {
    ranks.map_values(|r: RankRows| kept(r))
}

// ------------------------------------------------------------------ rows

/// The rows but the last are in order where all are.
proof fn lemma_front<V>(rows: Seq<(Seq<char>, V)>)
    requires
        ascending(rows),
        rows.len() > 0,
    ensures
        ascending(rows.drop_last()),
{
    let head = rows.drop_last();
    assert forall|i: int, j: int| 0 <= i < j < head.len() implies text_less(
        #[trigger] head[i].0,
        #[trigger] head[j].0,
    ) by {
        assert(head[i] == rows[i] && head[j] == rows[j]);
    }
}

/// A row that is kept is one of the rows, and not of a derived metric.
proof fn lemma_kept_from<V>(rows: Seq<(Seq<char>, V)>, i: int) -> (j: int)
    requires
        0 <= i < kept(rows).len(),
    ensures
        0 <= j < rows.len(),
        rows[j] == kept(rows)[i],
        !is_derived(kept(rows)[i].0),
    decreases rows.len(),
{
    let head = rows.drop_last();
    if i < kept(head).len() {
        let j = lemma_kept_from(head, i);
        assert(head[j] == rows[j]);
        j
    } else {
        rows.len() - 1
    }
}

/// A row that is not of a derived metric is kept.
proof fn lemma_kept_to<V>(rows: Seq<(Seq<char>, V)>, j: int) -> (i: int)
    requires
        0 <= j < rows.len(),
        !is_derived(rows[j].0),
    ensures
        0 <= i < kept(rows).len(),
        kept(rows)[i] == rows[j],
    decreases rows.len(),
{
    let head = rows.drop_last();
    if j < head.len() {
        assert(head[j] == rows[j]);
        lemma_kept_to(head, j)
    } else {
        kept(head).len() as int
    }
}

/// The rows that are kept stay in order.
proof fn lemma_kept_ascends<V>(rows: Seq<(Seq<char>, V)>)
    requires
        ascending(rows),
    ensures
        ascending(kept(rows)),
    decreases rows.len(),
{
    if rows.len() > 0 {
        lemma_front(rows);
        let head = rows.drop_last();
        let n = rows.len() - 1;
        lemma_kept_ascends(head);
        let k = kept(rows);
        assert forall|i: int, j: int| 0 <= i < j < k.len() implies text_less(
            #[trigger] k[i].0,
            #[trigger] k[j].0,
        ) by {
            if j < kept(head).len() {
                assert(k[i] == kept(head)[i] && k[j] == kept(head)[j]);
            } else {
                let a = lemma_kept_from(head, i);
                assert(k[i] == kept(head)[i]);
                assert(rows[a] == head[a]);
                assert(text_less(rows[a].0, rows[n].0));
            }
        }
    }
}

/// Of what is kept, the same is found.
proof fn lemma_kept_found<V>(rows: Seq<(Seq<char>, V)>, key: Seq<char>)
    requires
        ascending(rows),
    ensures
        found(kept(rows), key) == if is_derived(key) {
            None
        } else {
            found(rows, key)
        },
    decreases rows.len(),
{
    lemma_kept_ascends(rows);
    if rows.len() > 0 {
        lemma_front(rows);
        lemma_kept_found(rows.drop_last(), key);
        lemma_found_last(rows, key);
        if !is_derived(rows.last().0) {
            lemma_found_last(kept(rows), key);
            assert(kept(rows).drop_last() =~= kept(rows.drop_last()));
        }
    }
}

/// Rows in order are given by what is found in them.
proof fn lemma_same_rows<V>(a: Seq<(Seq<char>, V)>, b: Seq<(Seq<char>, V)>)
    requires
        ascending(a),
        ascending(b),
        forall|k: Seq<char>| #[trigger] found(a, k) == found(b, k),
    ensures
        a == b,
    decreases a.len(),
{
    if a.len() == 0 {
        if b.len() > 0 {
            lemma_found(b, 0);
            assert(found(a, b[0].0) is None);
        }
        assert(a =~= b);
    } else {
        let (n, ka) = (a.len() - 1, a.last().0);
        lemma_found(a, n);
        assert(found(b, ka) is Some);
        let m = b.len() - 1;
        let kb = b.last().0;
        lemma_found(b, m);
        assert(found(a, kb) == found(b, kb));
        let p = crate::table::place(b, ka);
        let q = crate::table::place(a, kb);
        lemma_place(b, ka);
        lemma_place(a, kb);
        lemma_text_order(ka, kb);
        lemma_text_order(kb, ka);
        if p < m {
            assert(text_less(b[p].0, b[m].0));
            assert(text_less(ka, kb));
            if q < n {
                assert(text_less(a[q].0, a[n].0));
            }
        }
        assert(ka == kb);
        lemma_front(a);
        lemma_front(b);
        assert forall|k: Seq<char>| #[trigger] found(a.drop_last(), k) == found(
            b.drop_last(),
            k,
        ) by {
            lemma_found_last(a, k);
            lemma_found_last(b, k);
            assert(found(a, k) == found(b, k));
        }
        lemma_same_rows(a.drop_last(), b.drop_last());
        assert(a =~= a.drop_last().push(a.last()));
        assert(b =~= b.drop_last().push(b.last()));
    }
}

/// Setting a row, and keeping what is not derived.
proof fn lemma_kept_inserted<V>(rows: Seq<(Seq<char>, V)>, key: Seq<char>, value: V)
    requires
        ascending(rows),
    ensures
        kept(inserted(rows, key, value)) == if is_derived(key) {
            kept(rows)
        } else {
            inserted(kept(rows), key, value)
        },
{
    let next = inserted(rows, key, value);
    lemma_inserted(rows, key, value);
    lemma_kept_ascends(next);
    lemma_kept_ascends(rows);
    lemma_inserted(kept(rows), key, value);
    let want = if is_derived(key) {
        kept(rows)
    } else {
        inserted(kept(rows), key, value)
    };
    assert forall|k: Seq<char>| #[trigger] found(kept(next), k) == found(want, k) by {
        lemma_kept_found(next, k);
        lemma_kept_found(rows, k);
        if k != key {
            assert(found(next, k) == found(rows, k));
            assert(found(inserted(kept(rows), key, value), k) == found(kept(rows), k));
        }
    }
    lemma_same_rows(kept(next), want);
}

// ------------------------------------------------------------------ the job

/// The headings that rows add, of what is kept.
proof fn lemma_kept_headings(h: Headings, rows: RankRows)
    requires
        ascending(h),
    ensures
        kept(with_rows(h, rows)) == with_rows(kept(h), kept(rows)),
        ascending(with_rows(h, rows)),
    decreases rows.len(),
{
    if rows.len() > 0 {
        let head = rows.drop_last();
        lemma_kept_headings(h, head);
        let before = with_rows(h, head);
        let (key, m) = rows.last();
        let new = HeadingModel { unit: m.unit, label: m.label };
        lemma_inserted(before, key, new);
        lemma_kept_inserted(before, key, new);
        lemma_kept_found(before, key);
        if !is_derived(key) {
            assert(kept(rows).drop_last() =~= kept(head));
        }
    }
}

proof fn lemma_kept_all_headings(ranks: Seq<RankRows>)
    ensures
        headings(kept_of(ranks)) == kept(headings(ranks)),
    decreases ranks.len(),
{
    if ranks.len() > 0 {
        let head = ranks.drop_last();
        lemma_kept_all_headings(head);
        lemma_headings(head);
        lemma_kept_headings(headings(head), ranks.last());
        assert(kept_of(ranks).drop_last() =~= kept_of(head));
    }
}

proof fn lemma_kept_values(ranks: Seq<RankRows>, key: Seq<char>)
    requires
        are_tables(ranks),
        !is_derived(key),
    ensures
        values(kept_of(ranks), key) == values(ranks, key),
    decreases ranks.len(),
{
    if ranks.len() > 0 {
        let head = ranks.drop_last();
        assert forall|i: int| 0 <= i < head.len() implies ascending(#[trigger] head[i]) by {
            assert(head[i] == ranks[i]);
        }
        lemma_kept_values(head, key);
        assert(kept_of(ranks).drop_last() =~= kept_of(head));
        assert(ascending(ranks[ranks.len() - 1]));
        lemma_kept_found(ranks.last(), key);
    }
}

proof fn lemma_kept_job_rows(ranks: Seq<RankRows>, h: Headings)
    requires
        are_tables(ranks),
    ensures
        job_rows(kept_of(ranks), kept(h)) == job_rows(ranks, h),
    decreases h.len(),
{
    if h.len() > 0 {
        let head = h.drop_last();
        let (key, heading) = h.last();
        lemma_kept_job_rows(ranks, head);
        if is_derived(key) {
            assert(job_rows(ranks, head) + row(None) =~= job_rows(ranks, head));
        } else {
            lemma_kept_values(ranks, key);
            assert(kept(h).drop_last() =~= kept(head));
            assert(job_row(kept_of(ranks), key, heading) == job_row(ranks, key, heading));
        }
    }
}

proof fn lemma_kept_times(ranks: Seq<RankRows>, h: Headings)
    requires
        are_tables(ranks),
    ensures
        times_fit(kept_of(ranks), kept(h)) == times_fit(ranks, h),
{
    let k = kept(h);
    let other = kept_of(ranks);
    if times_fit(ranks, h) {
        assert forall|i: int|
            0 <= i < k.len() && job_row(other, (#[trigger] k[i]).0, k[i].1) is Some implies
            crate::aggregate::has_type(
            crate::aggregate::reduced(k[i].0, k[i].1.unit, values(other, k[i].0)),
            k[i].1.unit,
        ) by {
            let j = lemma_kept_from(h, i);
            lemma_kept_values(ranks, h[j].0);
        }
    }
    if times_fit(other, k) {
        assert forall|j: int|
            0 <= j < h.len() && job_row(ranks, (#[trigger] h[j]).0, h[j].1) is Some implies
            crate::aggregate::has_type(
            crate::aggregate::reduced(h[j].0, h[j].1.unit, values(ranks, h[j].0)),
            h[j].1.unit,
        ) by {
            let i = lemma_kept_to(h, j);
            lemma_kept_values(ranks, h[j].0);
            assert(k[i] == h[j]);
        }
    }
}

/// The counts and times that imbalances and the job's size are of are not derived.
proof fn lemma_sources()
    ensures
        !is_derived("elapsed_time"@),
        !is_derived("cpu_time"@),
        !is_derived("gflops"@),
        !is_derived("mpi_world_size"@),
{
    reveal_strlit("elapsed_time");
    reveal_strlit("cpu_time");
    reveal_strlit("gflops");
    reveal_strlit("mpi_world_size");
    crate::derive::lemma_keys();
    reveal_strlit("llc_mpki");
    reveal_strlit("memory_bound");
    reveal_strlit("cpu_freq_ghz");
    reveal_strlit("dtlb_miss_rate");
    reveal_strlit("dram_bound_pct");
    assert("elapsed_time"@[0] != "memory_bound"@[0]);
    assert("elapsed_time"@[0] != "cpu_freq_ghz"@[0]);
    assert("cpu_time"@[0] != "llc_mpki"@[0]);
    assert("mpi_world_size"@[0] != "dtlb_miss_rate"@[0]);
    assert("mpi_world_size"@[0] != "dram_bound_pct"@[0]);
}

proof fn lemma_same_imbalances(a: Seq<RankRows>, b: Seq<RankRows>)
    requires
        a.len() == b.len(),
        values(a, "elapsed_time"@) == values(b, "elapsed_time"@),
        values(a, "cpu_time"@) == values(b, "cpu_time"@),
        values(a, "gflops"@) == values(b, "gflops"@),
    ensures
        forall|i: int| 0 <= i < 3 ==> #[trigger] imbalances(a)[i] == imbalances(b)[i],
        values(a, "ipc"@) == values(b, "ipc"@) && values(a, "memory_bound"@) == values(
            b,
            "memory_bound"@,
        ) ==> imbalances(a) == imbalances(b),
{
    let (x, y) = (imbalances(a), imbalances(b));
    assert forall|i: int| 0 <= i < 3 implies #[trigger] x[i] == y[i] by {
        assert(i == 0 || i == 1 || i == 2);
    }
    if values(a, "ipc"@) == values(b, "ipc"@) && values(a, "memory_bound"@) == values(
        b,
        "memory_bound"@,
    ) {
        assert(x[3] == y[3] && x[4] == y[4]);
        assert(x =~= y);
    }
}

proof fn lemma_same_kept_values(a: Seq<RankRows>, b: Seq<RankRows>, key: Seq<char>)
    requires
        are_tables(a),
        are_tables(b),
        kept_of(a) == kept_of(b),
        !is_derived(key),
    ensures
        values(a, key) == values(b, key),
{
    lemma_kept_values(a, key);
    lemma_kept_values(b, key);
}

/// What the ranks say of derived metrics never reaches the job: ranks that differ in
/// nothing else give the same job, with the same warning, but for the imbalances of IPC
/// and of memory bound, which are of the ranks' own values. Where the ranks agree on those
/// two, the whole snapshot is the same.
pub proof fn law_ratios_never_reach_the_job(a: Seq<RankRows>, b: Seq<RankRows>)
    requires
        are_tables(a),
        are_tables(b),
        kept_of(a) == kept_of(b),
    ensures
        a.len() == b.len(),
        job_base(a) == job_base(b),
        times_fit(a, headings(a)) == times_fit(b, headings(b)),
        world_size(a) == world_size(b),
        forall|i: int| 0 <= i < 3 ==> #[trigger] imbalances(a)[i] == imbalances(b)[i],
        values(a, "ipc"@) == values(b, "ipc"@) && values(a, "memory_bound"@) == values(
            b,
            "memory_bound"@,
        ) ==> aggregated(a) == aggregated(b),
{
    assert(kept_of(a).len() == a.len() && kept_of(b).len() == b.len());
    assert(job_base(a) == job_base(b) && times_fit(a, headings(a)) == times_fit(b, headings(b)))
        by {
        lemma_kept_all_headings(a);
        lemma_kept_all_headings(b);
        lemma_kept_job_rows(a, headings(a));
        lemma_kept_job_rows(b, headings(b));
        lemma_kept_times(a, headings(a));
        lemma_kept_times(b, headings(b));
    }
    lemma_sources();
    lemma_same_kept_values(a, b, "elapsed_time"@);
    lemma_same_kept_values(a, b, "cpu_time"@);
    lemma_same_kept_values(a, b, "gflops"@);
    lemma_same_kept_values(a, b, "mpi_world_size"@);
    lemma_same_imbalances(a, b);
}

/// The lengths of the keys of imbalances.
proof fn lemma_imbalance_lengths()
    ensures
        "nranks"@.len() == 6,
        "elapsed_time_imbalance_pct"@.len() == 26,
        "cpu_time_imbalance_pct"@.len() == 22,
        "cpu_time_imbalance_pct"@ != "branch_mispredict_rate"@,
        "gflops_imbalance_pct"@.len() == 20,
        "ipc_imbalance_pct"@.len() == 17,
        "memory_bound_imbalance_pct"@.len() == 26,
{
    reveal_strlit("nranks");
    reveal_strlit("elapsed_time_imbalance_pct");
    reveal_strlit("cpu_time_imbalance_pct");
    reveal_strlit("branch_mispredict_rate");
    reveal_strlit("gflops_imbalance_pct");
    reveal_strlit("ipc_imbalance_pct");
    reveal_strlit("memory_bound_imbalance_pct");
    assert("cpu_time_imbalance_pct"@[0] != "branch_mispredict_rate"@[0]);
}

/// No imbalance, nor the number of ranks, has the key of a derived metric.
proof fn lemma_own_keys(ranks: Seq<RankRows>, key: Seq<char>)
    requires
        is_derived(key),
    ensures
        key != "nranks"@,
        numeric_of(rows(imbalances(ranks)), key) is None,
{
    let v = imbalances(ranks);
    crate::derive::lemma_keys();
    lemma_imbalance_lengths();
    assert(v.len() == 5);
    assert forall|k: int| 0 <= k < v.len() implies (#[trigger] v[k] matches Some(m) ==> m.key
        != key) by {
        assert(k == 0 || k == 1 || k == 2 || k == 3 || k == 4);
    }
    crate::metric::lemma_no_rows(v, key);
}

/// Each derived metric of the job is derived from the job's own counts.
pub proof fn law_job_ratios_are_of_the_job(ranks: Seq<RankRows>, key: Seq<char>)
    requires
        is_derived(key),
    ensures
        numeric_of(aggregated(ranks), key) == numeric_of(derived(job_base(ranks)), key),
        numeric_of(aggregated(ranks), key) is Some <==> has_inputs(job_base(ranks), key),
{
    let first = seq![int_metric("nranks"@, "MPI ranks"@, ranks.len() as i64)];
    let base = job_base(ranks);
    let more = rows(imbalances(ranks));
    lemma_own_keys(ranks, key);
    lemma_headings(ranks);
    lemma_job_rows(ranks, headings(ranks), key);
    assert(numeric_of(first, key) is None) by {
        reveal_with_fuel(numeric_of, 2);
    }
    law_numeric_keeps(first, job_rows(ranks, headings(ranks)), key);
    law_numeric_keeps(base, derived(base), key);
    law_numeric_keeps(base + derived(base), more, key);
    law_derived_where_possible(base, key);
}

proof fn lemma_rows_ascend(items: Seq<Json>)
    ensures
        ascending(rows_in(items)),
    decreases items.len(),
{
    if items.len() > 0 {
        lemma_rows_ascend(items.drop_last());
        if let Some((key, m)) = row_in(items.last()) {
            lemma_inserted(rows_in(items.drop_last()), key, m);
        }
    }
}

/// What the files of ranks hold is in the order of the keys, each once.
pub proof fn law_ranks_are_tables(files: Seq<FileModel>)
    ensures
        are_tables(ranks_in(files)),
    decreases files.len(),
{
    if files.len() > 0 {
        law_ranks_are_tables(files.drop_last());
        if let Some(j) = json_parsed(files.last().text->0) {
            if let Some(m) = member(j, "metrics"@) {
                if let Some(items) = items_in(m) {
                    lemma_rows_ascend(items);
                }
            }
        }
        let (old, new) = (ranks_in(files.drop_last()), ranks_in(files));
        assert forall|i: int| 0 <= i < new.len() implies ascending(#[trigger] new[i]) by {
            if i < old.len() {
                assert(new[i] == old[i]);
            }
        }
    }
}

} // verus!
