//! Cross-rank aggregation of per-rank snapshots.
//!
//! In per-rank mode each rank counts only its own process on its own node and writes
//! `snap.<rank>.json`. This reduces those into one job-level snapshot:
//!   - counts, throughput and volume are summed;
//!   - wall time is the maximum: the job's wall is the slowest rank;
//!   - percentages are averaged;
//!   - derived ratios are computed anew from the sums, as for a single process.
//!
//! It also adds the imbalance across ranks of the headline metrics.

use crate::bounds::{lemma_shortfall, nonnegative, shortfall};
use crate::decimal::{dec, decimal, shortest_parts};
use crate::derive::derived;
use crate::double::{
    apply_sign, at_most, greater_of, greatest, greatest_of, less, of_int, one_unit, quotient,
    signed, to_count, to_integer, total, total_of, units_of, Double, INF_MAG,
};
use crate::json::{
    get, get_text, items_in, json_of, json_parsed, lemma_read_finite, listing_fits,
    listing_is_read, listing_json, listing_text, member, member_text, members_fit, members_json,
    number, number_fits, number_read, parse, scalar_json, Json, Members,
};
use crate::metric::{
    int_metric, is_span, metrics_of, number_of, numeric_of, percent_metric, row, rows, span_of,
    Duration, Metric, MetricModel, MetricValue, Rows, Snapshot, ValueModel,
};
use crate::report::{
    display_text, has_plain_keys, json_document, law_snapshot_is_json, row_members,
    snapshot_listing, unit_text, value_member,
};
use crate::table::{
    ascending, found, inserted, lemma_found, lemma_inserted, lemma_viewed_found,
    lemma_viewed_inserted, viewed, Table,
};
use crate::text::{begins, chars_of, ends, ends_with, is, owned, same, starts_with};
use vstd::prelude::*;

verus! {

// ------------------------------------------------------------------ one rank

/// One metric of one rank.
pub struct RankMetric {
    pub value: Double,
    pub unit: String,
    pub label: String,
}

/// What a [`RankMetric`] is.
pub struct RankModel {
    pub value: Double,
    pub unit: Seq<char>,
    pub label: Seq<char>,
}

impl View for RankMetric {
    type V = RankModel;

    open spec fn view(&self) -> RankModel {
        RankModel { value: self.value, unit: self.unit@, label: self.label@ }
    }
}

/// The metrics of one rank, by their keys.
pub type RankMap = Table<RankMetric>;

/// What the metrics of one rank are.
pub type RankRows = Seq<(Seq<char>, RankModel)>;

/// What the ranks are.
pub open spec fn ranks_of(v: Seq<RankMap>) -> Seq<RankRows> {
    v.map_values(|t: RankMap| viewed(t@))
}

/// The row that an element of a rank's `metrics` is. One without a key, or whose value
/// is no finite number, is none.
pub open spec fn row_in(j: Json) -> Option<(Seq<char>, RankModel)> {
    match (member_text(j, "key"@), member(j, "value"@)) {
        (Some(key), Some(Json::Number { value, .. })) => if value.is_finite() {
            Some(
                (
                    key,
                    RankModel {
                        value,
                        unit: match member_text(j, "unit"@) {
                            Some(u) => u,
                            None => ""@,
                        },
                        label: match member_text(j, "label"@) {
                            Some(l) => l,
                            None => key,
                        },
                    },
                ),
            )
        } else {
            None
        },
        _ => None,
    }
}

/// The rows of elements; the last of a key counts.
pub open spec fn rows_in(items: Seq<Json>) -> RankRows
    decreases items.len(),
{
    if items.len() == 0 {
        Seq::empty()
    } else {
        let before = rows_in(items.drop_last());
        match row_in(items.last()) {
            Some((key, m)) => inserted(before, key, m),
            None => before,
        }
    }
}

/// The metrics of a parsed rank snapshot, none where it has no list of them.
pub open spec fn rank_in(j: Json) -> Option<RankRows> {
    match member(j, "metrics"@) {
        Some(m) => match items_in(m) {
            Some(items) => Some(rows_in(items)),
            None => None,
        },
        None => None,
    }
}

/// The metrics of the text of a rank snapshot, none where it is truncated.
pub open spec fn rank_of(text: Seq<char>) -> Option<RankRows> {
    match json_parsed(text) {
        Some(j) => rank_in(j),
        None => None,
    }
}

pub open spec fn rank_rows(r: Option<RankMap>) -> Option<RankRows> {
    match r {
        Some(t) => Some(viewed(t@)),
        None => None,
    }
}

fn read_row(v: &serde_json::Value) -> (r: Option<(String, RankMetric)>)
    ensures
        match r {
            Some((k, m)) => row_in(json_of(*v)) == Some((k@, m@)),
            None => row_in(json_of(*v)) is None,
        },
{
    let key: &str = match get_text(v, "key") {
        Some(k) => k,
        None => {
            return None;
        },
    };
    let value: Double = match get(v, "value") {
        Some(m) => match number(m) {
            Some(x) => {
                if x.finite() {
                    x
                } else {
                    return None;
                }
            },
            None => {
                return None;
            },
        },
        None => {
            return None;
        },
    };
    let unit: String = match get_text(v, "unit") {
        Some(u) => u.to_string(),
        None => "".to_string(),
    };
    let label: String = match get_text(v, "label") {
        Some(l) => l.to_string(),
        None => key.to_string(),
    };
    Some((key.to_string(), RankMetric { value, unit, label }))
}

/// The metrics of a rank snapshot that has been parsed.
pub fn read_rank(doc: &serde_json::Value) -> (r: Option<RankMap>)
    ensures
        rank_rows(r) == rank_in(json_of(*doc)),
{
    let list: &serde_json::Value = match get(doc, "metrics") {
        Some(m) => m,
        None => {
            return None;
        },
    };
    let items: &Vec<serde_json::Value> = match list.as_array() {
        Some(a) => a,
        None => {
            return None;
        },
    };
    let ghost all = items_in(json_of(*list))->0;
    let mut out: RankMap = Table::new();
    let mut i: usize = 0;
    assert(all.take(0) =~= Seq::empty());
    assert(viewed(out@) =~= rows_in(all.take(0)));
    while i < items.len()
        invariant
            i <= items.len(),
            items@.len() == all.len(),
            forall|k: int| 0 <= k < items@.len() ==> json_of(#[trigger] items@[k]) == all[k],
            viewed(out@) == rows_in(all.take(i as int)),
        decreases items.len() - i,
    {
        proof {
            let next = all.take(i + 1);
            assert(next.drop_last() =~= all.take(i as int));
            assert(next.last() == json_of(items@[i as int]));
        }
        match read_row(&items[i]) {
            Some((k, m)) => {
                proof {
                    lemma_viewed_inserted(out@, k@, m);
                }
                out.insert(k, m);
            },
            None => {},
        }
        i += 1;
    }
    assert(all.take(i as int) =~= all);
    Some(out)
}

/// The metrics of the text of a rank snapshot.
pub fn parse_rank(text: &str) -> (r: Option<RankMap>)
    ensures
        rank_rows(r) == rank_of(text@),
        listing_is_read(text@),
{
    match parse(text) {
        Some(doc) => read_rank(&doc),
        None => None,
    }
}

// ------------------------------------------------------------------ typed values

/// `String::leak`: the text, for the rest of the program.
#[verifier::external_body]
fn leak_string(s: String) -> (r: &'static str)
    ensures
        r@ == s@,
{
    s.leak()
}

/// The text, for the rest of the program.
pub fn leak(s: &str) -> (r: &'static str)
    ensures
        r@ == s@,
{
    leak_string(s.to_string())
}

/// Whether a number is whole and small enough to be counted exactly.
pub open spec fn is_counted(x: Double) -> bool {
    x.is_finite() && units_of(x.mag()) % one_unit() == 0 && less(
        signed(false, x.mag()),
        of_int(9000000000000000000),
    )
}

/// The value that a number with a unit is.
pub open spec fn typed_value(value: Double, unit: Seq<char>) -> ValueModel {
    let above = greater_of(value, of_int(0));
    if unit == "s"@ {
        ValueModel::Duration(span_of(above))
    } else if unit == "%"@ {
        ValueModel::Percent(value)
    } else if unit == "bytes"@ {
        ValueModel::Bytes(to_count(above))
    } else if unit == ""@ && is_counted(value) {
        ValueModel::Int { value: to_integer(value), unit: ""@ }
    } else {
        ValueModel::Float { value, unit }
    }
}

/// Whether a number of seconds can be counted; of any other unit, every number can.
pub open spec fn has_type(value: Double, unit: Seq<char>) -> bool {
    unit == "s"@ ==> is_span(greater_of(value, of_int(0)))
}

/// Reconstructs a typed value from a number and its unit, so that a report formats it
/// like a freshly collected metric.
pub fn typed(value: Double, unit: &str) -> (r: MetricValue)
    requires
        has_type(value, unit@),
    ensures
        r@ == typed_value(value, unit@),
{
    let above: Double = value.max(Double::from_u64(0));
    if same(unit, "s") {
        MetricValue::Duration(Duration::from_secs(above))
    } else if same(unit, "%") {
        MetricValue::Percent(value)
    } else if same(unit, "bytes") {
        MetricValue::Bytes(above.to_u64())
    } else if same(unit, "") {
        let abs: Double = apply_sign(false, value.magnitude());
        if value.finite() && value.is_whole() && abs.lt(Double::from_u64(9000000000000000000)) {
            MetricValue::Int { value: value.to_i64(), unit: "" }
        } else {
            MetricValue::Float { value, unit: "" }
        }
    } else {
        MetricValue::Float { value, unit: leak(unit) }
    }
}

// ------------------------------------------------------------------ reduction

/// The derived metrics: left out of the reduction, and computed anew from the sums.
pub open spec fn is_derived(key: Seq<char>) -> bool {
    key == "branch_mispredict_rate"@ || key == "cache_miss_rate"@ || key == "cpi"@ || key
        == "cpu_freq_ghz"@ || key == "dram_bandwidth_gbs"@ || key == "dram_bound_pct"@ || key
        == "dram_dpki"@ || key == "dtlb_miss_rate"@ || key == "dtlb_mpki"@ || key == "ipc"@ || key
        == "itlb_mpki"@ || key == "llc_mpki"@ || key == "memory_bound"@ || key
        == "memory_bound_est"@ || key == "numa_remote_pct"@
}

/// The metrics of which the largest represents the job: its wall is the slowest rank,
/// its threads those of the busiest, and its size is the same on every rank.
pub open spec fn is_maxed(key: Seq<char>) -> bool {
    key == "elapsed_time"@ || key == "max_threads"@ || key == "mpi_world_size"@
}

/// The unit and the label that a metric has in a report.
pub struct Heading {
    pub unit: String,
    pub label: String,
}

/// What a [`Heading`] is.
pub struct HeadingModel {
    pub unit: Seq<char>,
    pub label: Seq<char>,
}

impl View for Heading {
    type V = HeadingModel;

    open spec fn view(&self) -> HeadingModel {
        HeadingModel { unit: self.unit@, label: self.label@ }
    }
}

/// The metrics by their keys, each with the unit and the label of its first sighting.
pub type Headings = Seq<(Seq<char>, HeadingModel)>;

/// The headings with those of the rows whose keys are not there yet.
pub open spec fn with_rows(h: Headings, rows: RankRows) -> Headings
    decreases rows.len(),
{
    if rows.len() == 0 {
        h
    } else {
        let before = with_rows(h, rows.drop_last());
        let (key, m) = rows.last();
        if found(before, key) is Some {
            before
        } else {
            inserted(before, key, HeadingModel { unit: m.unit, label: m.label })
        }
    }
}

/// The headings of all ranks.
pub open spec fn headings(ranks: Seq<RankRows>) -> Headings
    decreases ranks.len(),
{
    if ranks.len() == 0 {
        Seq::empty()
    } else {
        with_rows(headings(ranks.drop_last()), ranks.last())
    }
}

/// The values of a metric, of the ranks that have it.
pub open spec fn values(ranks: Seq<RankRows>, key: Seq<char>) -> Seq<Double>
    decreases ranks.len(),
{
    if ranks.len() == 0 {
        Seq::empty()
    } else {
        let before = values(ranks.drop_last(), key);
        match found(ranks.last(), key) {
            Some(m) => before.push(m.value),
            None => before,
        }
    }
}

/// The lowest finite number.
pub open spec fn lowest() -> Double {
    signed(true, (INF_MAG - 1) as nat)
}

/// The job's value of a metric.
pub open spec fn reduced(key: Seq<char>, unit: Seq<char>, vals: Seq<Double>) -> Double {
    if is_maxed(key) {
        greatest(lowest(), vals)
    } else if unit == "%"@ {
        quotient(total(vals), of_int(vals.len() as int))
    } else {
        total(vals)
    }
}

/// The job's row of a metric.
pub open spec fn job_row(ranks: Seq<RankRows>, key: Seq<char>, h: HeadingModel) -> Option<
    MetricModel,
> {
    let vals = values(ranks, key);
    if is_derived(key) || vals.len() == 0 {
        None
    } else {
        Some(
            MetricModel {
                key,
                label: h.label,
                value: typed_value(reduced(key, h.unit, vals), h.unit),
            },
        )
    }
}

/// The job's rows of metrics.
pub open spec fn job_rows(ranks: Seq<RankRows>, h: Headings) -> Seq<MetricModel>
    decreases h.len(),
{
    if h.len() == 0 {
        Seq::empty()
    } else {
        job_rows(ranks, h.drop_last()) + row(job_row(ranks, h.last().0, h.last().1))
    }
}

/// The number of ranks, and the job's metrics.
pub open spec fn job_base(ranks: Seq<RankRows>) -> Seq<MetricModel> {
    seq![int_metric("nranks"@, "MPI ranks"@, ranks.len() as i64)] + job_rows(
        ranks,
        headings(ranks),
    )
}

/// How far the average over all ranks falls short of the largest value.
pub open spec fn imbalance(vals: Seq<Double>, nranks: nat) -> Double {
    let most = greatest(lowest(), vals);
    let avg = quotient(total(vals), of_int(nranks as int));
    greater_of(shortfall(most, avg), of_int(0))
}

/// The imbalance of a metric, where two ranks have it and the largest is above zero.
pub open spec fn imbalance_row(
    ranks: Seq<RankRows>,
    source: Seq<char>,
    key: Seq<char>,
    label: Seq<char>,
) -> Option<MetricModel> {
    let vals = values(ranks, source);
    if vals.len() >= 2 && less(of_int(0), greatest(lowest(), vals)) {
        Some(percent_metric(key, label, imbalance(vals, ranks.len())))
    } else {
        None
    }
}

/// The imbalances of the headline metrics.
pub open spec fn imbalances(ranks: Seq<RankRows>) -> Seq<Option<MetricModel>> {
    seq![
        imbalance_row(
            ranks,
            "elapsed_time"@,
            "elapsed_time_imbalance_pct"@,
            "Wall-time imbalance (across ranks)"@,
        ),
        imbalance_row(
            ranks,
            "cpu_time"@,
            "cpu_time_imbalance_pct"@,
            "CPU-time imbalance (across ranks)"@,
        ),
        imbalance_row(
            ranks,
            "gflops"@,
            "gflops_imbalance_pct"@,
            "FP-throughput imbalance (across ranks)"@,
        ),
        imbalance_row(ranks, "ipc"@, "ipc_imbalance_pct"@, "IPC imbalance (across ranks)"@),
        imbalance_row(
            ranks,
            "memory_bound"@,
            "memory_bound_imbalance_pct"@,
            "Memory-bound imbalance (across ranks)"@,
        ),
    ]
}

/// The job-level snapshot of ranks.
pub open spec fn aggregated(ranks: Seq<RankRows>) -> Seq<MetricModel> {
    job_base(ranks) + derived(job_base(ranks)) + rows(imbalances(ranks))
}

/// Whether every time that the job reports can be counted.
pub open spec fn times_fit(ranks: Seq<RankRows>, h: Headings) -> bool {
    forall|i: int|
        0 <= i < h.len() && job_row(ranks, (#[trigger] h[i]).0, h[i].1) is Some ==> has_type(
            reduced(h[i].0, h[i].1.unit, values(ranks, h[i].0)),
            h[i].1.unit,
        )
}

fn derived_key(key: &str) -> (r: bool)
    ensures
        r == is_derived(key@),
{
    let v: Vec<char> = chars_of(key);
    let k: &[char] = v.as_slice();
    is(k, "branch_mispredict_rate") || is(k, "cache_miss_rate") || is(k, "cpi") || is(
        k,
        "cpu_freq_ghz",
    ) || is(k, "dram_bandwidth_gbs") || is(k, "dram_bound_pct") || is(k, "dram_dpki") || is(
        k,
        "dtlb_miss_rate",
    ) || is(k, "dtlb_mpki") || is(k, "ipc") || is(k, "itlb_mpki") || is(k, "llc_mpki") || is(
        k,
        "memory_bound",
    ) || is(k, "memory_bound_est") || is(k, "numa_remote_pct")
}

fn maxed_key(key: &str) -> (r: bool)
    ensures
        r == is_maxed(key@),
{
    same(key, "elapsed_time") || same(key, "max_threads") || same(key, "mpi_world_size")
}

fn values_for(ranks: &Vec<RankMap>, key: &str) -> (r: Vec<Double>)
    ensures
        r@ == values(ranks_of(ranks@), key@),
{
    let ghost all = ranks_of(ranks@);
    let mut out: Vec<Double> = Vec::new();
    let mut i: usize = 0;
    assert(all.take(0) =~= Seq::empty());
    while i < ranks.len()
        invariant
            i <= ranks.len(),
            all == ranks_of(ranks@),
            out@ == values(all.take(i as int), key@),
        decreases ranks.len() - i,
    {
        proof {
            let next = all.take(i + 1);
            assert(next.drop_last() =~= all.take(i as int));
            assert(next.last() == viewed(ranks@[i as int]@));
            lemma_viewed_found(ranks@[i as int]@, key@);
        }
        match ranks[i].get(key) {
            Some(m) => out.push(m.value),
            None => {},
        }
        i += 1;
    }
    assert(all.take(i as int) =~= all);
    out
}

fn add_headings(h: Table<Heading>, rank: &RankMap) -> (r: Table<Heading>)
    ensures
        viewed(r@) == with_rows(viewed(h@), viewed(rank@)),
{
    let ghost start = viewed(h@);
    let ghost all = viewed(rank@);
    let mut out: Table<Heading> = h;
    let mut i: usize = 0;
    assert(all.take(0) =~= Seq::empty());
    while i < rank.len()
        invariant
            i <= rank@.len(),
            all == viewed(rank@),
            viewed(out@) == with_rows(start, all.take(i as int)),
        decreases rank@.len() - i,
    {
        let key: &String = rank.key(i);
        let m: &RankMetric = rank.value(i);
        proof {
            let next = all.take(i + 1);
            assert(next.drop_last() =~= all.take(i as int));
            assert(next.last() == (key@, m@));
            lemma_viewed_found(out@, key@);
        }
        if !out.contains(key.as_str()) {
            let heading: Heading = Heading { unit: m.unit.clone(), label: m.label.clone() };
            proof {
                lemma_viewed_inserted(out@, key@, heading);
            }
            out.insert(key.clone(), heading);
        }
        i += 1;
    }
    assert(all.take(i as int) =~= all);
    out
}

fn all_headings(ranks: &Vec<RankMap>) -> (r: Table<Heading>)
    ensures
        viewed(r@) == headings(ranks_of(ranks@)),
{
    let ghost all = ranks_of(ranks@);
    let mut out: Table<Heading> = Table::new();
    let mut i: usize = 0;
    assert(all.take(0) =~= Seq::empty());
    assert(viewed(out@) =~= headings(all.take(0)));
    while i < ranks.len()
        invariant
            i <= ranks.len(),
            all == ranks_of(ranks@),
            viewed(out@) == headings(all.take(i as int)),
        decreases ranks.len() - i,
    {
        proof {
            let next = all.take(i + 1);
            assert(next.drop_last() =~= all.take(i as int));
            assert(next.last() == viewed(ranks@[i as int]@));
        }
        out = add_headings(out, &ranks[i]);
        i += 1;
    }
    assert(all.take(i as int) =~= all);
    out
}

fn lowest_of() -> (r: Double)
    ensures
        r == lowest(),
{
    apply_sign(true, INF_MAG - 1)
}

fn reduce_values(key: &str, unit: &str, vals: &Vec<Double>) -> (r: Double)
    ensures
        r == reduced(key@, unit@, vals@),
{
    if maxed_key(key) {
        greatest_of(lowest_of(), vals)
    } else if same(unit, "%") {
        total_of(vals).over(Double::from_u64(vals.len() as u64))
    } else {
        total_of(vals)
    }
}

/// The job's number of a metric, where it has one.
fn job_value(ranks: &Vec<RankMap>, key: &str, unit: &str) -> (r: Option<Double>)
    ensures
        r == if is_derived(key@) || values(ranks_of(ranks@), key@).len() == 0 {
            None
        } else {
            Some(reduced(key@, unit@, values(ranks_of(ranks@), key@)))
        },
{
    if derived_key(key) {
        return None;
    }
    let vals: Vec<Double> = values_for(ranks, key);
    if vals.len() == 0 {
        None
    } else {
        Some(reduce_values(key, unit, &vals))
    }
}

/// Whether every time that the job reports can be counted.
pub fn can_reduce(ranks: &Vec<RankMap>) -> (r: bool)
    ensures
        r == times_fit(ranks_of(ranks@), headings(ranks_of(ranks@))),
{
    let keys: Table<Heading> = all_headings(ranks);
    let ghost all = ranks_of(ranks@);
    let ghost h = viewed(keys@);
    let mut i: usize = 0;
    while i < keys.len()
        invariant
            i <= keys@.len(),
            all == ranks_of(ranks@),
            h == viewed(keys@),
            h == headings(all),
            forall|k: int|
                0 <= k < i && job_row(all, (#[trigger] h[k]).0, h[k].1) is Some ==> has_type(
                    reduced(h[k].0, h[k].1.unit, values(all, h[k].0)),
                    h[k].1.unit,
                ),
        decreases keys@.len() - i,
    {
        let key: &String = keys.key(i);
        let heading: &Heading = keys.value(i);
        assert(h[i as int] == (key@, heading@));
        let unit: &str = heading.unit.as_str();
        match job_value(ranks, key.as_str(), unit) {
            Some(x) => {
                let span: Option<Duration> = Duration::checked_from_secs(
                    x.max(Double::from_u64(0)),
                );
                if same(unit, "s") && span.is_none() {
                    assert(job_row(all, h[i as int].0, h[i as int].1) is Some);
                    assert(!has_type(
                        reduced(h[i as int].0, h[i as int].1.unit, values(all, h[i as int].0)),
                        h[i as int].1.unit,
                    ));
                    return false;
                }
            },
            None => {},
        }
        i += 1;
    }
    true
}

fn imbalance_of(
    ranks: &Vec<RankMap>,
    source: &str,
    key: &'static str,
    label: &str,
) -> (r: Option<Metric>)
    ensures
        crate::metric::model_of(r) == imbalance_row(
            ranks_of(ranks@),
            source@,
            key@,
            label@,
        ),
{
    let vals: Vec<Double> = values_for(ranks, source);
    if vals.len() < 2 {
        return None;
    }
    let most: Double = greatest_of(lowest_of(), &vals);
    if Double::from_u64(0).lt(most) {
        // over all ranks: one that has no value still counts
        let avg: Double = total_of(&vals).over(Double::from_u64(ranks.len() as u64));
        let p: Double = most.minus(avg).over(most).times(Double::from_u64(100)).max(
            Double::from_u64(0),
        );
        Some(Metric::percent(key, label, p))
    } else {
        None
    }
}

/// The number of ranks, and the job's metrics.
fn base(ranks: &Vec<RankMap>) -> (r: Snapshot)
    requires
        times_fit(ranks_of(ranks@), headings(ranks_of(ranks@))),
    ensures
        r@ == job_base(ranks_of(ranks@)),
{
    let ghost all = ranks_of(ranks@);
    let keys: Table<Heading> = all_headings(ranks);
    let ghost h = viewed(keys@);
    let mut agg: Snapshot = Snapshot::default();
    agg.push(Metric::count("nranks", "MPI ranks", ranks.len() as i64));
    let ghost first = agg@;
    let mut i: usize = 0;
    assert(first =~= seq![int_metric("nranks"@, "MPI ranks"@, ranks.len() as i64)]);
    assert(h.take(0) =~= Seq::empty());
    assert(agg@ =~= first + job_rows(all, h.take(0)));
    while i < keys.len()
        invariant
            i <= keys@.len(),
            all == ranks_of(ranks@),
            h == viewed(keys@),
            times_fit(all, h),
            agg@ == first + job_rows(all, h.take(i as int)),
        decreases keys@.len() - i,
    {
        let key: &String = keys.key(i);
        let heading: &Heading = keys.value(i);
        proof {
            let next = h.take(i + 1);
            assert(next.drop_last() =~= h.take(i as int));
            assert(next.last() == (key@, heading@));
            assert(h[i as int] == (key@, heading@));
        }
        let ghost before = agg@;
        let ghost want = job_row(all, key@, heading@);
        match job_value(ranks, key.as_str(), heading.unit.as_str()) {
            Some(x) => {
                let value: MetricValue = typed(x, heading.unit.as_str());
                let m: Metric = Metric {
                    key: leak(key.as_str()),
                    label: heading.label.clone(),
                    value,
                };
                assert(Some(m@) == want);
                agg.push(m);
            },
            None => {},
        }
        assert(agg@ =~= before + row(want));
        assert(agg@ =~= first + (job_rows(all, h.take(i as int)) + row(want)));
        i += 1;
    }
    assert(h.take(i as int) =~= h);
    agg
}

fn imbalance_list(ranks: &Vec<RankMap>) -> (r: Vec<Metric>)
    ensures
        metrics_of(r@) == rows(imbalances(ranks_of(ranks@))),
{
    let ghost want = imbalances(ranks_of(ranks@));
    let mut out: Rows = Rows::new();
    out.offer(
        imbalance_of(
            ranks,
            "elapsed_time",
            "elapsed_time_imbalance_pct",
            "Wall-time imbalance (across ranks)",
        ),
    );
    assert(out.offered@ =~= want.take(1));
    out.offer(
        imbalance_of(
            ranks,
            "cpu_time",
            "cpu_time_imbalance_pct",
            "CPU-time imbalance (across ranks)",
        ),
    );
    assert(out.offered@ =~= want.take(2));
    out.offer(
        imbalance_of(
            ranks,
            "gflops",
            "gflops_imbalance_pct",
            "FP-throughput imbalance (across ranks)",
        ),
    );
    assert(out.offered@ =~= want.take(3));
    out.offer(imbalance_of(ranks, "ipc", "ipc_imbalance_pct", "IPC imbalance (across ranks)"));
    assert(out.offered@ =~= want.take(4));
    out.offer(
        imbalance_of(
            ranks,
            "memory_bound",
            "memory_bound_imbalance_pct",
            "Memory-bound imbalance (across ranks)",
        ),
    );
    assert(out.offered@ =~= want);
    out.list
}

/// Reduces ranks to one job-level snapshot.
pub fn reduce(ranks: &Vec<RankMap>) -> (r: Snapshot)
    requires
        times_fit(ranks_of(ranks@), headings(ranks_of(ranks@))),
    ensures
        r@ == aggregated(ranks_of(ranks@)),
{
    let mut agg: Snapshot = base(ranks);
    crate::derive::derive(&mut agg);
    agg.extend(imbalance_list(ranks));
    agg
}

// ------------------------------------------------------------------ a results directory

/// A file of a results directory: its name, and its text where it could be read.
pub struct RankFile {
    pub name: String,
    pub text: Option<String>,
}

/// What a [`RankFile`] is.
pub struct FileModel {
    pub name: Seq<char>,
    pub text: Option<Seq<char>>,
}

impl View for RankFile {
    type V = FileModel;

    open spec fn view(&self) -> FileModel {
        FileModel {
            name: self.name@,
            text: match self.text {
                Some(t) => Some(t@),
                None => None,
            },
        }
    }
}

pub open spec fn files_of(v: Seq<RankFile>) -> Seq<FileModel> {
    v.map_values(|f: RankFile| f@)
}

/// Whether a file holds a rank's snapshot: `snap.<rank>.json`, but not the aggregate
/// `snap.json` itself.
pub open spec fn is_rank_name(name: Seq<char>) -> bool {
    begins(name, "snap."@) && ends(name, ".json"@) && name != "snap.json"@
}

/// The metrics of a file, where it is a rank's readable snapshot. A rank killed in the
/// middle of a run leaves a truncated file, which is skipped.
pub open spec fn file_rank(f: FileModel) -> Option<RankRows> {
    match f.text {
        Some(t) => if is_rank_name(f.name) {
            rank_of(t)
        } else {
            None
        },
        None => None,
    }
}

/// The ranks that files hold.
pub open spec fn ranks_in(files: Seq<FileModel>) -> Seq<RankRows>
    decreases files.len(),
{
    if files.len() == 0 {
        Seq::empty()
    } else {
        let before = ranks_in(files.drop_last());
        match file_rank(files.last()) {
            Some(r) => before.push(r),
            None => before,
        }
    }
}

/// Whether the ranks' files, where they are written listings, are read as these.
pub open spec fn listings_are_read(files: Seq<FileModel>) -> bool {
    forall|i: int|
        0 <= i < files.len() && (#[trigger] files[i]).text is Some && is_rank_name(files[i].name)
            ==> listing_is_read(files[i].text->0)
}

/// Whether a file name is that of a rank's snapshot.
pub fn is_rank_file(name: &str) -> (r: bool)
    ensures
        r == is_rank_name(name@),
{
    let v: Vec<char> = chars_of(name);
    let s: &[char] = v.as_slice();
    let total: bool = is(s, "snap.json");
    starts_with(s, "snap.") && ends_with(s, ".json") && !total
}

/// The ranks that the files of a results directory hold.
pub fn read_ranks(files: &Vec<RankFile>) -> (r: Vec<RankMap>)
    ensures
        ranks_of(r@) == ranks_in(files_of(files@)),
        listings_are_read(files_of(files@)),
{
    let ghost all = files_of(files@);
    let mut out: Vec<RankMap> = Vec::new();
    let mut i: usize = 0;
    assert(all.take(0) =~= Seq::empty());
    assert(ranks_of(out@) =~= ranks_in(all.take(0)));
    while i < files.len()
        invariant
            i <= files.len(),
            all == files_of(files@),
            ranks_of(out@) == ranks_in(all.take(i as int)),
            listings_are_read(all.take(i as int)),
        decreases files.len() - i,
    {
        proof {
            let next = all.take(i + 1);
            assert(next.drop_last() =~= all.take(i as int));
            assert(next.last() == files@[i as int]@);
            assert forall|k: int| 0 <= k < i implies #[trigger] next[k] == all.take(
                i as int,
            )[k] by {}
        }
        match &files[i].text {
            Some(t) => {
                if is_rank_file(files[i].name.as_str()) {
                    match parse_rank(t.as_str()) {
                        Some(rank) => {
                            let ghost before = ranks_of(out@);
                            let ghost new = viewed(rank@);
                            out.push(rank);
                            assert(ranks_of(out@) =~= before.push(new));
                        },
                        None => {},
                    }
                }
            },
            None => {},
        }
        i += 1;
    }
    assert(all.take(i as int) =~= all);
    out
}

/// The largest of the whole parts of numbers.
pub open spec fn largest(vals: Seq<Double>) -> Option<i64>
    decreases vals.len(),
{
    if vals.len() == 0 {
        None
    } else {
        let x = to_integer(vals.last());
        match largest(vals.drop_last()) {
            Some(m) => Some(
                if x >= m {
                    x
                } else {
                    m
                },
            ),
            None => Some(x),
        }
    }
}

/// How many ranks the job had, as far as any rank says.
pub open spec fn world_size(ranks: Seq<RankRows>) -> Option<i64> {
    largest(values(ranks, "mpi_world_size"@))
}

/// How many ranks the job had.
pub fn expected_ranks(ranks: &Vec<RankMap>) -> (r: Option<i64>)
    ensures
        r == world_size(ranks_of(ranks@)),
{
    let vals: Vec<Double> = values_for(ranks, "mpi_world_size");
    let mut best: Option<i64> = None;
    let mut i: usize = 0;
    assert(vals@.take(0) =~= Seq::empty());
    while i < vals.len()
        invariant
            i <= vals.len(),
            best == largest(vals@.take(i as int)),
        decreases vals.len() - i,
    {
        assert(vals@.take(i + 1).drop_last() =~= vals@.take(i as int));
        let x: i64 = vals[i].to_i64();
        best = match best {
            Some(m) => Some(
                if x >= m {
                    x
                } else {
                    m
                },
            ),
            None => Some(x),
        };
        i += 1;
    }
    assert(vals@.take(i as int) =~= vals@);
    best
}

/// The number of ranks that a job is said to have had; a negative one is read as the
/// count of the same bits.
pub open spec fn rank_count(expected: i64) -> int {
    if expected >= 0 {
        expected as int
    } else {
        expected + 0x1_0000_0000_0000_0000
    }
}

/// The warning that some of `count` ranks did not report.
pub open spec fn short_text(found: int, count: int) -> Seq<char> {
    "uaps: WARNING: aggregated "@ + dec(found as nat) + " of "@ + dec(count as nat)
        + " ranks — "@ + dec((count - found) as nat)
        + " never reported (crashed, or could not reach the launch-node collector). \
           The job-level metrics below reflect only the "@
        + dec(found as nat) + " ranks that completed."@
}

/// The warning, where fewer ranks were found than the job is known to have had.
pub open spec fn short_note(found: nat, expected: Option<i64>) -> Option<Seq<char>> {
    match expected {
        Some(e) => if rank_count(e) > found {
            Some(short_text(found as int, rank_count(e)))
        } else {
            None
        },
        None => None,
    }
}

/// Warning when only `found` of `expected` ranks reported back: the rest crashed or were
/// killed before finishing, or could not reach the launch node's collector. None when
/// every rank reported, or the world size is unknown, so that a complete run is never
/// flagged.
pub fn short_count_warning(found: usize, expected: Option<i64>) -> (r: Option<String>)
    ensures
        owned(r) == short_note(found as nat, expected),
{
    let e: i64 = match expected {
        Some(e) => e,
        None => {
            return None;
        },
    };
    let count: u64 = if e >= 0 {
        e as u64
    } else {
        (e as i128 + 0x1_0000_0000_0000_0000) as u64
    };
    if count <= found as u64 {
        return None;
    }
    let mut out: String = "uaps: WARNING: aggregated ".to_string();
    out.append(decimal(found as u64).as_str());
    out.append(" of ");
    out.append(decimal(count).as_str());
    out.append(" ranks — ");
    out.append(decimal(count - found as u64).as_str());
    out.append(
        " never reported (crashed, or could not reach the launch-node collector). \
           The job-level metrics below reflect only the ",
    );
    out.append(decimal(found as u64).as_str());
    out.append(" ranks that completed.");
    Some(out)
}

/// Why there is no job-level snapshot.
#[derive(Clone, Copy, Debug, PartialEq, Eq, Structural)]
pub enum AggregateError {
    /// No file holds a readable rank snapshot.
    NoRanks,
    /// The job's total of a time is past counting.
    TooLong,
}

/// A job-level snapshot, the number of ranks behind it, and a warning where the job had
/// more.
pub struct Aggregate {
    pub snapshot: Snapshot,
    pub nranks: usize,
    pub warning: Option<String>,
}

/// Reduces the rank snapshots of a results directory to one job-level snapshot.
pub fn aggregate(files: &Vec<RankFile>) -> (r: Result<Aggregate, AggregateError>)
    ensures
        ({
            let ranks = ranks_in(files_of(files@));
            match r {
                Ok(a) => {
                    &&& ranks.len() > 0
                    &&& times_fit(ranks, headings(ranks))
                    &&& a.snapshot@ == aggregated(ranks)
                    &&& a.nranks == ranks.len()
                    &&& owned(a.warning) == short_note(ranks.len(), world_size(ranks))
                },
                Err(AggregateError::NoRanks) => ranks.len() == 0,
                Err(AggregateError::TooLong) => ranks.len() > 0 && !times_fit(
                    ranks,
                    headings(ranks),
                ),
            }
        }),
        listings_are_read(files_of(files@)),
{
    let ranks: Vec<RankMap> = read_ranks(files);
    assert(ranks_of(ranks@).len() == ranks@.len());
    if ranks.len() == 0 {
        return Err(AggregateError::NoRanks);
    }
    if !can_reduce(&ranks) {
        return Err(AggregateError::TooLong);
    }
    let warning: Option<String> = short_count_warning(ranks.len(), expected_ranks(&ranks));
    Ok(Aggregate { snapshot: reduce(&ranks), nranks: ranks.len(), warning })
}

// ------------------------------------------------------------------ laws

/// A job is flagged only when ranks are missing, and then always.
pub proof fn law_complete_runs_are_not_flagged(found: nat, expected: i64)
    requires
        expected >= 0,
    ensures
        short_note(found, None) is None,
        short_note(found, Some(expected)) is Some <==> found < expected,
{
}

/// A file that is no rank's readable snapshot changes nothing.
pub proof fn law_unreadable_ranks_are_skipped(files: Seq<FileModel>, f: FileModel)
    requires
        f.text is None || !is_rank_name(f.name) || rank_of(f.text->0) is None,
    ensures
        ranks_in(files.push(f)) == ranks_in(files),
{
    assert(files.push(f).drop_last() =~= files);
}

/// What a rank's snapshot is read as: its metrics, without those whose value is not
/// finite; the last of a key counts.
pub open spec fn rows_read(metrics: Seq<MetricModel>) -> RankRows
    decreases metrics.len(),
{
    if metrics.len() == 0 {
        Seq::empty()
    } else {
        let before = rows_read(metrics.drop_last());
        let m = metrics.last();
        let x = number_of(m.value);
        if x.is_finite() {
            let (digits, places) = shortest_parts(x);
            inserted(
                before,
                m.key,
                RankModel {
                    value: number_read(x.neg(), digits, places),
                    unit: unit_text(m.value),
                    label: m.label,
                },
            )
        } else {
            before
        }
    }
}

/// Whether each finite value is read: none is so large that its digits times the power of
/// ten are infinite.
pub open spec fn values_fit(metrics: Seq<MetricModel>) -> bool {
    forall|i: int|
        0 <= i < metrics.len() ==> ({
            let x = number_of((#[trigger] metrics[i]).value);
            x.is_finite() ==> number_fits(shortest_parts(x).0, shortest_parts(x).1)
        })
}

/// What the members of a row hold.
proof fn lemma_row_members(m: MetricModel)
    ensures
        ({
            let j = members_json(row_members(m));
            &&& j.contains_key("key"@) && j["key"@] == Json::Text(m.key)
            &&& j.contains_key("label"@) && j["label"@] == Json::Text(m.label)
            &&& j.contains_key("value"@) && j["value"@] == scalar_json(value_member(m.value))
            &&& j.contains_key("unit"@) && j["unit"@] == Json::Text(unit_text(m.value))
            &&& j.contains_key("display"@) && j["display"@] == Json::Text(display_text(m.value))
        }),
{
    reveal_strlit("key");
    reveal_strlit("label");
    reveal_strlit("value");
    reveal_strlit("unit");
    reveal_strlit("display");
    reveal_with_fuel(members_json, 6);
    assert("key"@[0] != "label"@[0] && "key"@[0] != "value"@[0] && "key"@[0] != "unit"@[0]
        && "key"@[0] != "display"@[0]);
    assert("label"@[0] != "value"@[0] && "label"@[0] != "unit"@[0] && "label"@[0] != "display"@[0]);
    assert("value"@[0] != "unit"@[0] && "value"@[0] != "display"@[0]);
    assert("unit"@[0] != "display"@[0]);
}

proof fn lemma_row_read(m: MetricModel)
    requires
        ({
            let x = number_of(m.value);
            x.is_finite() ==> number_fits(shortest_parts(x).0, shortest_parts(x).1)
        }),
    ensures
        row_in(Json::Object(members_json(row_members(m)))) == ({
            let x = number_of(m.value);
            let (digits, places) = shortest_parts(x);
            if x.is_finite() {
                Some(
                    (
                        m.key,
                        RankModel {
                            value: number_read(x.neg(), digits, places),
                            unit: unit_text(m.value),
                            label: m.label,
                        },
                    ),
                )
            } else {
                None
            }
        }),
        members_fit(row_members(m)),
{
    lemma_row_members(m);
    let x = number_of(m.value);
    if x.is_finite() {
        lemma_read_finite(x.neg(), shortest_parts(x).0, shortest_parts(x).1);
    }
}

proof fn lemma_rows_read(metrics: Seq<MetricModel>)
    requires
        values_fit(metrics),
    ensures
        rows_in(
            metrics.map_values(|m: MetricModel| Json::Object(members_json(row_members(m)))),
        ) == rows_read(metrics),
    decreases metrics.len(),
{
    let items = metrics.map_values(|m: MetricModel| Json::Object(members_json(row_members(m))));
    if metrics.len() > 0 {
        let before = metrics.drop_last();
        assert forall|i: int| 0 <= i < before.len() implies ({
            let x = number_of((#[trigger] before[i]).value);
            x.is_finite() ==> number_fits(shortest_parts(x).0, shortest_parts(x).1)
        }) by {
            assert(before[i] == metrics[i]);
        }
        lemma_rows_read(before);
        assert(items.drop_last() =~= before.map_values(
            |m: MetricModel| Json::Object(members_json(row_members(m))),
        ));
        assert(metrics[metrics.len() - 1] == metrics.last());
        lemma_row_read(metrics.last());
    }
}

/// A written snapshot is read back: each metric whose value is finite comes back under
/// its key, with its unit, its label and the number that its digits are read as, whatever
/// stands ahead of the metrics.
pub proof fn law_snapshot_reads_back(head: Members, metrics: Seq<MetricModel>)
    requires
        members_fit(head),
        values_fit(metrics),
        listing_is_read(listing_text(snapshot_listing(head, metrics))),
    ensures
        rank_of(listing_text(snapshot_listing(head, metrics))) == Some(rows_read(metrics)),
{
    let l = snapshot_listing(head, metrics);
    assert forall|i: int| 0 <= i < l.rows.len() implies members_fit(#[trigger] l.rows[i]) by {
        assert(l.rows[i] == row_members(metrics[i]));
        lemma_row_read(metrics[i]);
    }
    assert(listing_fits(l));
    let items = l.rows.map_values(|r: Members| Json::Object(members_json(r)));
    assert(items =~= metrics.map_values(
        |m: MetricModel| Json::Object(members_json(row_members(m))),
    ));
    lemma_rows_read(metrics);
}

/// A rendered snapshot, parsed, has a row for each metric, in their order, with its key,
/// label, unit and display, and with the number that the digits of its value are read as,
/// or null where the value is not finite.
pub proof fn law_rendered_snapshots_are_parsed(metrics: Seq<MetricModel>)
    requires
        has_plain_keys(metrics),
        values_fit(metrics),
        listing_is_read(json_document(metrics)),
    ensures
        json_parsed(json_document(metrics)) matches Some(doc) && member(doc, "metrics"@) matches Some(
            list,
        ) && items_in(list) matches Some(items) && items.len() == metrics.len() && forall|i: int|
            0 <= i < items.len() ==> {
                let m = metrics[i];
                let x = number_of(m.value);
                &&& member_text(#[trigger] items[i], "key"@) == Some(m.key)
                &&& member_text(items[i], "label"@) == Some(m.label)
                &&& member_text(items[i], "unit"@) == Some(unit_text(m.value))
                &&& member_text(items[i], "display"@) == Some(display_text(m.value))
                &&& if x.is_finite() {
                    member(items[i], "value"@) matches Some(Json::Number { value, .. }) && value
                        == number_read(x.neg(), shortest_parts(x).0, shortest_parts(x).1)
                } else {
                    member(items[i], "value"@) == Some(Json::Null)
                }
            },
{
    let l = snapshot_listing(Seq::empty(), metrics);
    law_snapshot_is_json(Seq::empty(), metrics);
    assert forall|i: int| 0 <= i < l.rows.len() implies members_fit(#[trigger] l.rows[i]) by {
        assert(l.rows[i] == row_members(metrics[i]));
        lemma_row_read(metrics[i]);
    }
    assert(listing_fits(l));
    let items = l.rows.map_values(|r: Members| Json::Object(members_json(r)));
    assert(items_in(member(listing_json(l), "metrics"@)->0) == Some(items));
    assert forall|i: int| 0 <= i < items.len() implies {
        let m = metrics[i];
        let x = number_of(m.value);
        &&& member_text(#[trigger] items[i], "key"@) == Some(m.key)
        &&& member_text(items[i], "label"@) == Some(m.label)
        &&& member_text(items[i], "unit"@) == Some(unit_text(m.value))
        &&& member_text(items[i], "display"@) == Some(display_text(m.value))
        &&& if x.is_finite() {
            member(items[i], "value"@) matches Some(Json::Number { value, .. }) && value
                == number_read(x.neg(), shortest_parts(x).0, shortest_parts(x).1)
        } else {
            member(items[i], "value"@) == Some(Json::Null)
        }
    } by {
        assert(l.rows[i] == row_members(metrics[i]));
        lemma_row_members(metrics[i]);
    }
}

/// The files of a job's ranks give the ranks' metrics, rank by rank: a job is aggregated
/// from what its ranks wrote.
pub proof fn law_every_rank_comes_back(
    files: Seq<FileModel>,
    heads: Seq<Members>,
    snapshots: Seq<Seq<MetricModel>>,
)
    requires
        heads.len() == files.len(),
        snapshots.len() == files.len(),
        forall|i: int|
            0 <= i < files.len() ==> is_rank_name((#[trigger] files[i]).name) && files[i].text
                == Some(listing_text(snapshot_listing(heads[i], snapshots[i]))) && members_fit(
                heads[i],
            ) && values_fit(snapshots[i]),
        listings_are_read(files),
    ensures
        ranks_in(files) == snapshots.map_values(|m: Seq<MetricModel>| rows_read(m)),
    decreases files.len(),
{
    let want = snapshots.map_values(|m: Seq<MetricModel>| rows_read(m));
    if files.len() > 0 {
        let last = files.len() - 1;
        let (f, h, s) = (files.drop_last(), heads.drop_last(), snapshots.drop_last());
        assert forall|i: int| 0 <= i < f.len() implies is_rank_name((#[trigger] f[i]).name)
            && f[i].text == Some(listing_text(snapshot_listing(h[i], s[i]))) && members_fit(h[i])
            && values_fit(s[i]) && listing_is_read(f[i].text->0) by {
            assert(f[i] == files[i]);
        }
        law_every_rank_comes_back(f, h, s);
        assert(files[last] == files.last());
        law_snapshot_reads_back(heads[last], snapshots[last]);
        assert(want =~= s.map_values(|m: Seq<MetricModel>| rows_read(m)).push(
            rows_read(snapshots[last]),
        ));
    } else {
        assert(want =~= ranks_in(files));
    }
}

proof fn lemma_with_rows(h: Headings, rows: RankRows)
    requires
        ascending(h),
    ensures
        ascending(with_rows(h, rows)),
        forall|k: Seq<char>|
            found(h, k) is Some ==> #[trigger] found(with_rows(h, rows), k) == found(h, k),
    decreases rows.len(),
{
    if rows.len() > 0 {
        lemma_with_rows(h, rows.drop_last());
        let before = with_rows(h, rows.drop_last());
        let (key, m) = rows.last();
        lemma_inserted(before, key, HeadingModel { unit: m.unit, label: m.label });
        assert forall|k: Seq<char>| found(h, k) is Some implies #[trigger] found(
            with_rows(h, rows),
            k,
        ) == found(h, k) by {
            assert(found(before, k) == found(h, k));
        }
    }
}

/// A heading is an earlier one, or that of a row.
proof fn lemma_heading_from(h: Headings, rows: RankRows, key: Seq<char>) -> (j: int)
    requires
        ascending(h),
        found(h, key) is None,
        found(with_rows(h, rows), key) is Some,
    ensures
        0 <= j < rows.len(),
        rows[j].0 == key,
    decreases rows.len(),
{
    let head = rows.drop_last();
    let before = with_rows(h, head);
    lemma_with_rows(h, head);
    let (last, m) = rows.last();
    if found(before, key) is Some {
        let j = lemma_heading_from(h, head, key);
        assert(head[j] == rows[j]);
        j
    } else {
        lemma_inserted(before, last, HeadingModel { unit: m.unit, label: m.label });
        assert(last == key);
        rows.len() - 1
    }
}

/// Every rank's metrics are in the order of their keys.
pub open spec fn are_tables(ranks: Seq<RankRows>) -> bool {
    forall|i: int| 0 <= i < ranks.len() ==> ascending(#[trigger] ranks[i])
}

/// A metric that has a heading has a value.
proof fn lemma_heading_has_values(ranks: Seq<RankRows>, key: Seq<char>)
    requires
        are_tables(ranks),
        found(headings(ranks), key) is Some,
    ensures
        values(ranks, key).len() > 0,
    decreases ranks.len(),
{
    if ranks.len() > 0 {
        let head = ranks.drop_last();
        assert forall|i: int| 0 <= i < head.len() implies ascending(#[trigger] head[i]) by {
            assert(head[i] == ranks[i]);
        }
        lemma_headings(head);
        if found(headings(head), key) is Some {
            lemma_heading_has_values(head, key);
        } else {
            let j = lemma_heading_from(headings(head), ranks.last(), key);
            assert(ascending(ranks[ranks.len() - 1]));
            lemma_found(ranks.last(), j);
        }
    } else {
        assert(found(headings(ranks), key) is None);
    }
}

/// A metric is named as the first rank that has it names it.
pub proof fn law_first_sighting_names(ranks: Seq<RankRows>, more: RankRows, key: Seq<char>)
    requires
        found(headings(ranks), key) is Some,
    ensures
        found(headings(ranks.push(more)), key) == found(headings(ranks), key),
{
    assert(ranks.push(more).drop_last() =~= ranks);
    lemma_headings(ranks);
    lemma_with_rows(headings(ranks), more);
}

pub proof fn lemma_headings(ranks: Seq<RankRows>)
    ensures
        ascending(headings(ranks)),
    decreases ranks.len(),
{
    if ranks.len() > 0 {
        lemma_headings(ranks.drop_last());
        lemma_with_rows(headings(ranks.drop_last()), ranks.last());
    }
}

/// The row of a key among the job's rows.
pub proof fn lemma_job_rows(ranks: Seq<RankRows>, h: Headings, key: Seq<char>)
    requires
        ascending(h),
    ensures
        numeric_of(job_rows(ranks, h), key) == match found(h, key) {
            Some(heading) => match job_row(ranks, key, heading) {
                Some(m) => Some(number_of(m.value)),
                None => None,
            },
            None => None,
        },
    decreases h.len(),
{
    if h.len() == 0 {
        assert(found(h, key) is None);
    } else {
        let head = h.drop_last();
        let (last, heading) = h.last();
        let new = row(job_row(ranks, last, heading));
        assert forall|i: int, j: int| 0 <= i < j < head.len() implies crate::text::text_less(
            #[trigger] head[i].0,
            #[trigger] head[j].0,
        ) by {
            assert(head[i] == h[i] && head[j] == h[j]);
        }
        lemma_job_rows(ranks, head, key);
        crate::metric::law_numeric_keeps(job_rows(ranks, head), new, key);
        assert(numeric_of(new, key) == match job_row(ranks, last, heading) {
            Some(m) => if m.key == key {
                Some(number_of(m.value))
            } else {
                None
            },
            None => None,
        }) by {
            reveal_with_fuel(numeric_of, 2);
        }
        lemma_found_last(h, key);
    }
}

/// Looking a key up in rows, and in the rows but the last.
pub proof fn lemma_found_last<V>(h: Seq<(Seq<char>, V)>, key: Seq<char>)
    requires
        ascending(h),
        h.len() > 0,
    ensures
        h.last().0 == key ==> found(h, key) == Some(h.last().1) && found(h.drop_last(), key) is None,
        h.last().0 != key ==> found(h, key) == found(h.drop_last(), key),
{
    let head = h.drop_last();
    let n = h.len() - 1;
    assert forall|i: int, j: int| 0 <= i < j < head.len() implies crate::text::text_less(
        #[trigger] head[i].0,
        #[trigger] head[j].0,
    ) by {
        assert(head[i] == h[i] && head[j] == h[j]);
    }
    crate::table::lemma_place(h, key);
    crate::table::lemma_place(head, key);
    let p = crate::table::place(head, key);
    let q = crate::table::place(h, key);
    if h.last().0 == key {
        lemma_found(h, n);
        if p < head.len() && head[p].0 == key {
            assert(h[p].0 == key);
            lemma_found(h, p);
        }
    } else {
        if p < head.len() && head[p].0 == key {
            assert(h[p] == head[p]);
            lemma_found(h, p);
        }
        if q < h.len() && h[q].0 == key {
            assert(head[q] == h[q]);
            lemma_found(head, q);
        }
    }
}

/// Each metric of the job is the reduction of the ranks' values: a sum, the largest where
/// that represents the job, the mean of percentages. `derived` metrics are not reduced.
pub proof fn law_metrics_are_reduced(ranks: Seq<RankRows>, key: Seq<char>, h: HeadingModel)
    requires
        found(headings(ranks), key) == Some(h),
        key != "nranks"@,
        !is_derived(key),
        are_tables(ranks),
    ensures
        numeric_of(aggregated(ranks), key) == Some(
            number_of(typed_value(reduced(key, h.unit, values(ranks, key)), h.unit)),
        ),
{
    let first = seq![int_metric("nranks"@, "MPI ranks"@, ranks.len() as i64)];
    let r = job_rows(ranks, headings(ranks));
    lemma_headings(ranks);
    lemma_heading_has_values(ranks, key);
    lemma_job_rows(ranks, headings(ranks), key);
    assert(numeric_of(first, key) is None) by {
        reveal_with_fuel(numeric_of, 2);
    }
    let base = job_base(ranks);
    crate::metric::law_numeric_keeps(first, r, key);
    crate::metric::law_numeric_keeps(base, derived(base), key);
    crate::metric::law_numeric_keeps(base + derived(base), rows(imbalances(ranks)), key);
}

/// The number of ranks comes first, whatever the ranks say.
pub proof fn law_rank_count_comes_first(ranks: Seq<RankRows>)
    ensures
        aggregated(ranks).len() > 0,
        aggregated(ranks)[0] == int_metric("nranks"@, "MPI ranks"@, ranks.len() as i64),
        numeric_of(aggregated(ranks), "nranks"@) == Some(of_int((ranks.len() as i64) as int)),
{
}

/// IPC and CPI of the job are those of the summed counts, not means of the ranks'.
pub proof fn law_ratios_come_from_sums(ranks: Seq<RankRows>)
    ensures
        numeric_of(aggregated(ranks), "ipc"@) == crate::derive::ratio(
            numeric_of(job_base(ranks), "hw_instructions"@),
            numeric_of(job_base(ranks), "hw_cpu_cycles"@),
        ),
        numeric_of(aggregated(ranks), "cpi"@) == crate::derive::ratio(
            numeric_of(job_base(ranks), "hw_cpu_cycles"@),
            numeric_of(job_base(ranks), "hw_instructions"@),
        ),
{
    let base = job_base(ranks);
    lemma_headings(ranks);
    lemma_no_ratio(ranks, "ipc"@);
    lemma_no_ratio(ranks, "cpi"@);
    crate::derive::law_ipc_and_cpi(base);
    let all = base + derived(base);
    let more = rows(imbalances(ranks));
    crate::metric::law_numeric_keeps(all, more, "ipc"@);
    crate::metric::law_numeric_keeps(all, more, "cpi"@);
    lemma_imbalance_keys(ranks, "ipc"@);
    lemma_imbalance_keys(ranks, "cpi"@);
}

proof fn lemma_no_ratio(ranks: Seq<RankRows>, key: Seq<char>)
    requires
        key == "ipc"@ || key == "cpi"@,
    ensures
        numeric_of(job_base(ranks), key) is None,
{
    let first = seq![int_metric("nranks"@, "MPI ranks"@, ranks.len() as i64)];
    let r = job_rows(ranks, headings(ranks));
    lemma_headings(ranks);
    lemma_job_rows(ranks, headings(ranks), key);
    reveal_strlit("ipc");
    reveal_strlit("cpi");
    reveal_strlit("nranks");
    assert(numeric_of(first, key) is None) by {
        reveal_with_fuel(numeric_of, 2);
    }
    crate::metric::law_numeric_keeps(first, r, key);
}

proof fn lemma_imbalance_lengths()
    ensures
        "ipc"@.len() == 3,
        "cpi"@.len() == 3,
        "elapsed_time_imbalance_pct"@.len() > 3,
        "cpu_time_imbalance_pct"@.len() > 3,
        "gflops_imbalance_pct"@.len() > 3,
        "ipc_imbalance_pct"@.len() > 3,
        "memory_bound_imbalance_pct"@.len() > 3,
{
    reveal_strlit("ipc");
    reveal_strlit("cpi");
    reveal_strlit("elapsed_time_imbalance_pct");
    reveal_strlit("cpu_time_imbalance_pct");
    reveal_strlit("gflops_imbalance_pct");
    reveal_strlit("ipc_imbalance_pct");
    reveal_strlit("memory_bound_imbalance_pct");
}

/// No imbalance is reported under the key of a ratio.
proof fn lemma_imbalance_keys(ranks: Seq<RankRows>, key: Seq<char>)
    requires
        key == "ipc"@ || key == "cpi"@,
    ensures
        numeric_of(rows(imbalances(ranks)), key) is None,
{
    let v = imbalances(ranks);
    lemma_imbalance_lengths();
    assert(v.len() == 5);
    assert forall|k: int| 0 <= k < v.len() implies (#[trigger] v[k] matches Some(m) ==> m.key
        != key) by {
        assert(k == 0 || k == 1 || k == 2 || k == 3 || k == 4);
    }
    crate::metric::lemma_no_rows(v, key);
}

/// The metrics whose imbalance across ranks is reported.
pub open spec fn headline(i: int) -> Seq<char> {
    if i == 0 {
        "elapsed_time"@
    } else if i == 1 {
        "cpu_time"@
    } else if i == 2 {
        "gflops"@
    } else if i == 3 {
        "ipc"@
    } else {
        "memory_bound"@
    }
}

pub proof fn lemma_imbalance_names()
    ensures
        "elapsed_time"@ + "_imbalance_pct"@ == "elapsed_time_imbalance_pct"@,
        "cpu_time"@ + "_imbalance_pct"@ == "cpu_time_imbalance_pct"@,
        "gflops"@ + "_imbalance_pct"@ == "gflops_imbalance_pct"@,
        "ipc"@ + "_imbalance_pct"@ == "ipc_imbalance_pct"@,
        "memory_bound"@ + "_imbalance_pct"@ == "memory_bound_imbalance_pct"@,
{
    reveal_strlit("_imbalance_pct");
    reveal_strlit("elapsed_time");
    reveal_strlit("cpu_time");
    reveal_strlit("gflops");
    reveal_strlit("ipc");
    reveal_strlit("memory_bound");
    reveal_strlit("elapsed_time_imbalance_pct");
    reveal_strlit("cpu_time_imbalance_pct");
    reveal_strlit("gflops_imbalance_pct");
    reveal_strlit("ipc_imbalance_pct");
    reveal_strlit("memory_bound_imbalance_pct");
    assert("elapsed_time"@ + "_imbalance_pct"@ =~= "elapsed_time_imbalance_pct"@);
    assert("cpu_time"@ + "_imbalance_pct"@ =~= "cpu_time_imbalance_pct"@);
    assert("gflops"@ + "_imbalance_pct"@ =~= "gflops_imbalance_pct"@);
    assert("ipc"@ + "_imbalance_pct"@ =~= "ipc_imbalance_pct"@);
    assert("memory_bound"@ + "_imbalance_pct"@ =~= "memory_bound_imbalance_pct"@);
}

/// An imbalance is named after the metric that it is of: the metric's key, and
/// `_imbalance_pct` behind it.
pub proof fn law_imbalances_are_named_after_their_metrics(ranks: Seq<RankRows>, i: int)
    requires
        0 <= i < imbalances(ranks).len(),
    ensures
        imbalances(ranks)[i] matches Some(m) ==> m.key == headline(i) + "_imbalance_pct"@
            && m.value == ValueModel::Percent(
            imbalance(values(ranks, headline(i)), ranks.len()),
        ),
{
    lemma_imbalance_names();
    assert(i == 0 || i == 1 || i == 2 || i == 3 || i == 4);
}

/// An imbalance is a percentage between 0 and 100, of values that are not below zero.
pub proof fn law_imbalance_is_a_percentage(vals: Seq<Double>, nranks: nat)
    requires
        vals.len() >= 1,
        0 < nranks <= u64::MAX,
        forall|i: int| 0 <= i < vals.len() ==> (#[trigger] vals[i]).is_finite(),
        forall|i: int| 0 <= i < vals.len() ==> nonnegative(#[trigger] vals[i]),
        less(of_int(0), greatest(lowest(), vals)),
    ensures
        nonnegative(imbalance(vals, nranks)),
        at_most(imbalance(vals, nranks), of_int(100)),
{
    crate::double::lemma_signed(true, (INF_MAG - 1) as nat);
    crate::double::lemma_whole_exact(0);
    crate::bounds::lemma_greatest(lowest(), vals, 0);
    crate::bounds::lemma_total_nonnegative(vals);
    crate::bounds::lemma_mean_nonnegative(total(vals), nranks);
    lemma_shortfall(greatest(lowest(), vals), quotient(total(vals), of_int(nranks as int)));
}

} // verus!
