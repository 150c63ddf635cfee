//! MPI metrics, from the per-rank files that the timing shim writes.
//!
//! The shim writes `rank_<n>.txt` into its output directory when a rank finalizes MPI.
//! The files are read at the end and aggregated across ranks. Without any there is
//! nothing to report.

use crate::aggregate::{files_of, FileModel, RankFile};
use crate::bounds::{nonnegative, shortfall};
use crate::decimal::{fixed, parse_double, parsed, to_fixed};
use crate::double::{
    at_most, greater_of, greatest, greatest_of, less, of_int, product, quotient, sum, total,
    total_of, Double,
};
use crate::metric::{
    float_metric, int_metric, metrics_of, percent_metric, push_metric, Metric, MetricModel,
    MetricValue,
};
use crate::text::{
    begins, chars_of, ends, ends_with, lines, lines_of, parse_i64, same, signed_of, starts_with,
    string_of, strip_prefix, texts, words, words_of,
};
use vstd::prelude::*;

verus! {

// ------------------------------------------------------------------ one rank

/// The time that a rank spent in one MPI function.
pub struct FnStat {
    pub name: String,
    pub secs: Double,
    pub calls: i64,
}

/// What a [`FnStat`] is.
pub struct FnModel {
    pub name: Seq<char>,
    pub secs: Double,
    pub calls: i64,
}

impl View for FnStat {
    type V = FnModel;

    open spec fn view(&self) -> FnModel {
        FnModel { name: self.name@, secs: self.secs, calls: self.calls }
    }
}

pub open spec fn fns_of(v: Seq<FnStat>) -> Seq<FnModel> {
    v.map_values(|f: FnStat| f@)
}

/// What one rank reports: its wall time, its time in MPI, and that by function.
pub struct RankStat {
    pub wall: Double,
    pub mpi_time: Double,
    pub fns: Vec<FnStat>,
}

/// What a [`RankStat`] is.
#[verifier::ext_equal]
pub struct StatModel {
    pub wall: Double,
    pub mpi_time: Double,
    pub fns: Seq<FnModel>,
}

impl View for RankStat {
    type V = StatModel;

    open spec fn view(&self) -> StatModel {
        StatModel { wall: self.wall, mpi_time: self.mpi_time, fns: fns_of(self.fns@) }
    }
}

pub open spec fn stats_of(v: Seq<RankStat>) -> Seq<StatModel> {
    v.map_values(|s: RankStat| s@)
}

/// A number of seconds, 0 where the text is none.
pub open spec fn secs_of(s: Seq<char>) -> Double {
    match parsed(s) {
        Some(x) => x,
        None => of_int(0),
    }
}

/// The function that the words `name seconds calls` tell of.
pub open spec fn fn_of(v: Seq<char>) -> Option<FnModel> {
    let w = words_of(v);
    if w.len() >= 3 {
        Some(
            FnModel {
                name: w[0],
                secs: secs_of(w[1]),
                calls: match signed_of(w[2], i64::MIN as int, i64::MAX as int) {
                    Some(n) => n as i64,
                    None => 0,
                },
            },
        )
    } else {
        None
    }
}

/// A rank with what one more line says.
pub open spec fn with_line(s: StatModel, line: Seq<char>) -> StatModel {
    if begins(line, "wall="@) {
        StatModel { wall: secs_of(line.skip("wall="@.len() as int)), ..s }
    } else if begins(line, "mpi_time="@) {
        StatModel { mpi_time: secs_of(line.skip("mpi_time="@.len() as int)), ..s }
    } else if begins(line, "fn="@) {
        match fn_of(line.skip("fn="@.len() as int)) {
            Some(f) => StatModel { fns: s.fns.push(f), ..s },
            None => s,
        }
    } else {
        s
    }
}

/// What lines say of a rank.
pub open spec fn stat_in(lines: Seq<Seq<char>>) -> StatModel
    decreases lines.len(),
{
    if lines.len() == 0 {
        StatModel { wall: of_int(0), mpi_time: of_int(0), fns: Seq::empty() }
    } else {
        with_line(stat_in(lines.drop_last()), lines.last())
    }
}

fn secs(s: &[char]) -> (r: Double)
    ensures
        r == secs_of(s@),
{
    match parse_double(s) {
        Some(x) => x,
        None => Double::from_u64(0),
    }
}

fn read_fn(v: &[char]) -> (r: Option<FnStat>)
    ensures
        match r {
            Some(f) => fn_of(v@) == Some(f@),
            None => fn_of(v@) is None,
        },
{
    let w: Vec<&[char]> = words(v);
    assert(texts(w@).len() == w@.len());
    if w.len() < 3 {
        return None;
    }
    assert(texts(w@)[0] == w@[0]@ && texts(w@)[1] == w@[1]@ && texts(w@)[2] == w@[2]@);
    let calls: i64 = match parse_i64(w[2]) {
        Some(n) => n,
        None => 0,
    };
    Some(FnStat { name: string_of(w[0]), secs: secs(w[1]), calls })
}

/// What the text of a rank's file says: lines of `wall=`, `mpi_time=` and
/// `fn=<name> <seconds> <calls>`.
pub fn parse_stat(text: &str) -> (r: RankStat)
    ensures
        r@ == stat_in(lines_of(text@)),
{
    let v: Vec<char> = chars_of(text);
    let l: Vec<&[char]> = lines(v.as_slice());
    let ghost all = texts(l@);
    let mut out: RankStat = RankStat {
        wall: Double::from_u64(0),
        mpi_time: Double::from_u64(0),
        fns: Vec::new(),
    };
    let mut i: usize = 0;
    assert(all.take(0) =~= Seq::empty());
    assert(out@ =~= stat_in(all.take(0)));
    while i < l.len()
        invariant
            i <= l.len(),
            all == texts(l@),
            out@ == stat_in(all.take(i as int)),
        decreases l.len() - i,
    {
        proof {
            let next = all.take(i + 1);
            assert(next.drop_last() =~= all.take(i as int));
            assert(next.last() == l@[i as int]@);
        }
        let line: &[char] = l[i];
        if let Some(rest) = strip_prefix(line, "wall=") {
            out.wall = secs(rest);
        } else if let Some(rest) = strip_prefix(line, "mpi_time=") {
            out.mpi_time = secs(rest);
        } else if let Some(rest) = strip_prefix(line, "fn=") {
            match read_fn(rest) {
                Some(f) => {
                    let ghost before = fns_of(out.fns@);
                    let ghost new = f@;
                    out.fns.push(f);
                    assert(fns_of(out.fns@) =~= before.push(new));
                },
                None => {},
            }
        }
        i += 1;
    }
    assert(all.take(i as int) =~= all);
    out
}

/// Whether a file is one that the shim writes.
pub open spec fn is_shim_name(name: Seq<char>) -> bool {
    begins(name, "rank_"@) && ends(name, ".txt"@)
}

/// The ranks that files tell of.
pub open spec fn stats_in(files: Seq<FileModel>) -> Seq<StatModel>
    decreases files.len(),
{
    if files.len() == 0 {
        Seq::empty()
    } else {
        let before = stats_in(files.drop_last());
        match files.last().text {
            Some(t) => if is_shim_name(files.last().name) {
                before.push(stat_in(lines_of(t)))
            } else {
                before
            },
            None => before,
        }
    }
}

/// Whether a file name is one that the shim gives.
pub fn is_shim_file(name: &str) -> (r: bool)
    ensures
        r == is_shim_name(name@),
{
    let v: Vec<char> = chars_of(name);
    starts_with(v.as_slice(), "rank_") && ends_with(v.as_slice(), ".txt")
}

// ------------------------------------------------------------------ across ranks

/// The total time of each function, in the order in which they are first seen.
pub type FnTotals = Seq<(Seq<char>, Double)>;

/// The totals with one more time of a function.
pub open spec fn with_time(t: FnTotals, name: Seq<char>, secs: Double) -> FnTotals
    decreases t.len(),
{
    if t.len() == 0 {
        seq![(name, secs)]
    } else if t[0].0 == name {
        seq![(name, sum(t[0].1, secs))] + t.skip(1)
    } else {
        seq![t[0]] + with_time(t.skip(1), name, secs)
    }
}

pub open spec fn with_fns(t: FnTotals, fns: Seq<FnModel>) -> FnTotals
    decreases fns.len(),
{
    if fns.len() == 0 {
        t
    } else {
        with_time(with_fns(t, fns.drop_last()), fns.last().name, fns.last().secs)
    }
}

/// The totals over all ranks.
pub open spec fn fn_totals(ranks: Seq<StatModel>) -> FnTotals
    decreases ranks.len(),
{
    if ranks.len() == 0 {
        Seq::empty()
    } else {
        with_fns(fn_totals(ranks.drop_last()), ranks.last().fns)
    }
}

/// How many of the leading totals are not below a time.
pub open spec fn rank_of_time(t: FnTotals, secs: Double) -> int
    decreases t.len(),
{
    if t.len() == 0 || less(t[0].1, secs) {
        0
    } else {
        1 + rank_of_time(t.skip(1), secs)
    }
}

/// The totals from the largest down; of equal ones the earlier comes first.
pub open spec fn ranked(t: FnTotals) -> FnTotals
    decreases t.len(),
{
    if t.len() == 0 {
        Seq::empty()
    } else {
        let before = ranked(t.drop_last());
        before.insert(rank_of_time(before, t.last().1), t.last())
    }
}

pub open spec fn times(t: FnTotals) -> Seq<Double> {
    t.map_values(|e: (Seq<char>, Double)| e.1)
}

pub open spec fn walls(ranks: Seq<StatModel>) -> Seq<Double> {
    ranks.map_values(|s: StatModel| s.wall)
}

pub open spec fn mpi_times(ranks: Seq<StatModel>) -> Seq<Double> {
    ranks.map_values(|s: StatModel| s.mpi_time)
}

/// The mean over `n` ranks.
pub open spec fn mean(v: Seq<Double>, n: nat) -> Double {
    quotient(total(v), of_int(n as int))
}

/// A part of a whole in percent, 0 where there is no whole.
pub open spec fn percent_or_zero(part: Double, whole: Double) -> Double {
    if less(of_int(0), whole) {
        product(quotient(part, whole), of_int(100))
    } else {
        of_int(0)
    }
}

/// How far the average falls short of the busiest rank: the recoverable fraction of its
/// time in MPI.
pub open spec fn mpi_imbalance(most: Double, avg: Double) -> Double {
    if less(of_int(0), most) {
        greater_of(shortfall(most, avg), of_int(0))
    } else {
        of_int(0)
    }
}

pub open spec fn top_key(i: int) -> Seq<char> {
    if i == 0 {
        "mpi_top1"@
    } else if i == 1 {
        "mpi_top2"@
    } else if i == 2 {
        "mpi_top3"@
    } else if i == 3 {
        "mpi_top4"@
    } else {
        "mpi_top5"@
    }
}

/// The label of a function: its name and its share of all time in MPI.
pub open spec fn top_label(name: Seq<char>, pct: Double) -> Seq<char> {
    "  "@ + name + "  ("@ + fixed(pct, 0) + "% of MPI)"@
}

/// The row of the function at a place of the ranking.
pub open spec fn top_row(t: FnTotals, i: int) -> MetricModel {
    float_metric(
        top_key(i),
        top_label(t[i].0, percent_or_zero(t[i].1, total(times(t)))),
        t[i].1,
        "s"@,
    )
}

/// The functions with the most time, at most five.
pub open spec fn top_count(t: FnTotals) -> nat {
    if t.len() < 5 {
        t.len()
    } else {
        5
    }
}

pub open spec fn top_rows(t: FnTotals) -> Seq<MetricModel> {
    Seq::new(top_count(t), |i: int| top_row(t, i))
}

/// The metrics of ranks; none without any.
pub open spec fn mpi_metrics(ranks: Seq<StatModel>) -> Seq<MetricModel> {
    if ranks.len() == 0 {
        Seq::empty()
    } else {
        let n = ranks.len();
        let avg_wall = mean(walls(ranks), n);
        let avg_mpi = mean(mpi_times(ranks), n);
        let most = greatest(of_int(0), mpi_times(ranks));
        seq![
            int_metric("mpi_ranks"@, "MPI ranks"@, n as i64),
            float_metric("mpi_time"@, "MPI time (avg/rank)"@, avg_mpi, "s"@),
            percent_metric("mpi_time_pct"@, "MPI time"@, percent_or_zero(avg_mpi, avg_wall)),
            percent_metric("mpi_imbalance_pct"@, "MPI imbalance"@, mpi_imbalance(most, avg_mpi)),
        ] + top_rows(ranked(fn_totals(ranks)))
    }
}

// ------------------------------------------------------------------ computing it

/// The total time of one function.
struct FnTotal {
    name: String,
    secs: Double,
}

spec fn totals_of(v: Seq<FnTotal>) -> FnTotals {
    v.map_values(|t: FnTotal| (t.name@, t.secs))
}

fn add_time(t: &mut Vec<FnTotal>, name: &String, secs: Double)
    ensures
        totals_of(final(t)@) == with_time(totals_of(old(t)@), name@, secs),
{
    let ghost all = totals_of(t@);
    let mut i: usize = 0;
    assert(all.take(0) + with_time(all.skip(0), name@, secs) =~= with_time(all, name@, secs)) by {
        assert(all.skip(0) =~= all);
    }
    while i < t.len()
        invariant
            i <= t.len(),
            totals_of(t@) == all,
            all == totals_of(old(t)@),
            with_time(all, name@, secs) == all.take(i as int) + with_time(
                all.skip(i as int),
                name@,
                secs,
            ),
        decreases t.len() - i,
    {
        proof {
            assert(all.skip(i as int)[0] == (t@[i as int].name@, t@[i as int].secs));
            assert(all.skip(i as int).skip(1) =~= all.skip(i + 1));
        }
        if same(t[i].name.as_str(), name.as_str()) {
            let now: Double = t[i].secs.plus(secs);
            t.set(i, FnTotal { name: name.clone(), secs: now });
            assert(totals_of(t@) =~= all.take(i as int) + (seq![(name@, now)] + all.skip(i + 1)));
            return;
        }
        proof {
            let rest = with_time(all.skip(i + 1), name@, secs);
            assert(all.take(i as int) + (seq![all[i as int]] + rest) =~= all.take(i + 1) + rest);
        }
        i += 1;
    }
    t.push(FnTotal { name: name.clone(), secs });
    assert(all.take(i as int) =~= all);
    assert(totals_of(t@) =~= all + seq![(name@, secs)]);
}

fn add_fns(t: &mut Vec<FnTotal>, fns: &Vec<FnStat>)
    ensures
        totals_of(final(t)@) == with_fns(totals_of(old(t)@), fns_of(fns@)),
{
    let ghost start = totals_of(t@);
    let ghost all = fns_of(fns@);
    let mut i: usize = 0;
    assert(all.take(0) =~= Seq::empty());
    while i < fns.len()
        invariant
            i <= fns.len(),
            all == fns_of(fns@),
            totals_of(t@) == with_fns(start, all.take(i as int)),
        decreases fns.len() - i,
    {
        proof {
            let next = all.take(i + 1);
            assert(next.drop_last() =~= all.take(i as int));
            assert(next.last() == fns@[i as int]@);
        }
        add_time(t, &fns[i].name, fns[i].secs);
        i += 1;
    }
    assert(all.take(i as int) =~= all);
}

fn all_totals(ranks: &Vec<RankStat>) -> (r: Vec<FnTotal>)
    ensures
        totals_of(r@) == fn_totals(stats_of(ranks@)),
{
    let ghost all = stats_of(ranks@);
    let mut out: Vec<FnTotal> = Vec::new();
    let mut i: usize = 0;
    assert(all.take(0) =~= Seq::empty());
    assert(totals_of(out@) =~= fn_totals(all.take(0)));
    while i < ranks.len()
        invariant
            i <= ranks.len(),
            all == stats_of(ranks@),
            totals_of(out@) == fn_totals(all.take(i as int)),
        decreases ranks.len() - i,
    {
        proof {
            let next = all.take(i + 1);
            assert(next.drop_last() =~= all.take(i as int));
            assert(next.last() == ranks@[i as int]@);
        }
        add_fns(&mut out, &ranks[i].fns);
        i += 1;
    }
    assert(all.take(i as int) =~= all);
    out
}

fn place_of_time(t: &Vec<FnTotal>, secs: Double) -> (r: usize)
    ensures
        r == rank_of_time(totals_of(t@), secs),
        r <= t@.len(),
{
    let ghost all = totals_of(t@);
    let mut i: usize = 0;
    assert(all.skip(0) =~= all);
    while i < t.len()
        invariant
            i <= t.len(),
            all == totals_of(t@),
            rank_of_time(all, secs) == i + rank_of_time(all.skip(i as int), secs),
        decreases t.len() - i,
    {
        proof {
            assert(all.skip(i as int)[0].1 == t@[i as int].secs);
            assert(all.skip(i as int).skip(1) =~= all.skip(i + 1));
        }
        if t[i].secs.lt(secs) {
            return i;
        }
        i += 1;
    }
    i
}

fn rank_totals(t: &Vec<FnTotal>) -> (r: Vec<FnTotal>)
    ensures
        totals_of(r@) == ranked(totals_of(t@)),
{
    let ghost all = totals_of(t@);
    let mut out: Vec<FnTotal> = Vec::new();
    let mut i: usize = 0;
    assert(all.take(0) =~= Seq::empty());
    assert(totals_of(out@) =~= ranked(all.take(0)));
    while i < t.len()
        invariant
            i <= t.len(),
            all == totals_of(t@),
            totals_of(out@) == ranked(all.take(i as int)),
        decreases t.len() - i,
    {
        proof {
            let next = all.take(i + 1);
            assert(next.drop_last() =~= all.take(i as int));
            assert(next.last() == (t@[i as int].name@, t@[i as int].secs));
        }
        let ghost before = totals_of(out@);
        let p: usize = place_of_time(&out, t[i].secs);
        let e: FnTotal = FnTotal { name: t[i].name.clone(), secs: t[i].secs };
        let ghost new = (e.name@, e.secs);
        out.insert(p, e);
        assert(totals_of(out@) =~= before.insert(p as int, new));
        i += 1;
    }
    assert(all.take(i as int) =~= all);
    out
}

fn percentage(part: Double, whole: Double) -> (r: Double)
    ensures
        r == percent_or_zero(part, whole),
{
    if Double::from_u64(0).lt(whole) {
        part.over(whole).times(Double::from_u64(100))
    } else {
        Double::from_u64(0)
    }
}

fn key_of(i: usize) -> (r: &'static str)
    ensures
        r@ == top_key(i as int),
{
    if i == 0 {
        "mpi_top1"
    } else if i == 1 {
        "mpi_top2"
    } else if i == 2 {
        "mpi_top3"
    } else if i == 3 {
        "mpi_top4"
    } else {
        "mpi_top5"
    }
}

fn label_of(name: &str, pct: Double) -> (r: String)
    ensures
        r@ == top_label(name@, pct),
{
    let mut out: String = "  ".to_string();
    out.append(name);
    out.append("  (");
    out.append(to_fixed(pct, 0).as_str());
    out.append("% of MPI)");
    out
}

fn push_tops(out: &mut Vec<Metric>, t: &Vec<FnTotal>)
    ensures
        metrics_of(final(out)@) == metrics_of(old(out)@) + top_rows(totals_of(t@)),
{
    let ghost before = metrics_of(out@);
    let ghost all = totals_of(t@);
    let mut secs: Vec<Double> = Vec::new();
    let mut k: usize = 0;
    while k < t.len()
        invariant
            k <= t.len(),
            all == totals_of(t@),
            secs@ == times(all).take(k as int),
        decreases t.len() - k,
    {
        secs.push(t[k].secs);
        k += 1;
        assert(times(all).take(k as int) =~= times(all).take(k - 1).push(times(all)[k - 1]));
    }
    assert(times(all).take(k as int) =~= times(all));
    let whole: Double = total_of(&secs);
    let mut i: usize = 0;
    assert(before + top_rows(all).take(0) =~= before);
    while i < t.len() && i < 5
        invariant
            i <= t.len(),
            i <= 5,
            all == totals_of(t@),
            whole == total(times(all)),
            metrics_of(out@) == before + top_rows(all).take(i as int),
        decreases t.len() - i,
    {
        let label: String = label_of(t[i].name.as_str(), percentage(t[i].secs, whole));
        let m: Metric = Metric {
            key: key_of(i),
            label,
            value: MetricValue::Float { value: t[i].secs, unit: "s" },
        };
        assert(m@ == top_row(all, i as int));
        push_metric(out, m);
        i += 1;
        assert(top_rows(all).take(i as int) =~= top_rows(all).take(i - 1).push(
            top_row(all, i - 1),
        ));
        assert(metrics_of(out@) =~= before + top_rows(all).take(i as int));
    }
    assert(top_rows(all).take(i as int) =~= top_rows(all));
}

pub struct MpiCollector {
    /// Where the shim's files are.
    pub outdir: String,
}

impl MpiCollector {
    pub fn new(outdir: String) -> (r: MpiCollector)
        ensures
            r.outdir == outdir,
    {
        MpiCollector { outdir }
    }

    pub fn name(&self) -> (r: &'static str)
        ensures
            r@ == "mpi"@,
    {
        "mpi"
    }

    /// The ranks that the files of the directory tell of.
    pub fn read_ranks(&self, files: &Vec<RankFile>) -> (r: Vec<RankStat>)
        ensures
            stats_of(r@) == stats_in(files_of(files@)),
    {
        let ghost all = files_of(files@);
        let mut out: Vec<RankStat> = Vec::new();
        let mut i: usize = 0;
        assert(all.take(0) =~= Seq::empty());
        assert(stats_of(out@) =~= stats_in(all.take(0)));
        while i < files.len()
            invariant
                i <= files.len(),
                all == files_of(files@),
                stats_of(out@) == stats_in(all.take(i as int)),
            decreases files.len() - i,
        {
            proof {
                let next = all.take(i + 1);
                assert(next.drop_last() =~= all.take(i as int));
                assert(next.last() == files@[i as int]@);
            }
            match &files[i].text {
                Some(t) => {
                    if is_shim_file(files[i].name.as_str()) {
                        let s: RankStat = parse_stat(t.as_str());
                        let ghost before = stats_of(out@);
                        let ghost new = s@;
                        out.push(s);
                        assert(stats_of(out@) =~= before.push(new));
                    }
                },
                None => {},
            }
            i += 1;
        }
        assert(all.take(i as int) =~= all);
        out
    }

    /// The metrics of ranks.
    pub fn metrics(&self, ranks: &Vec<RankStat>) -> (r: Vec<Metric>)
        ensures
            metrics_of(r@) == mpi_metrics(stats_of(ranks@)),
    {
        let ghost all = stats_of(ranks@);
        let mut out: Vec<Metric> = Vec::new();
        assert(metrics_of(out@) =~= Seq::empty());
        if ranks.len() == 0 {
            return out;
        }
        let mut wall: Vec<Double> = Vec::new();
        let mut mpi: Vec<Double> = Vec::new();
        let mut i: usize = 0;
        while i < ranks.len()
            invariant
                i <= ranks.len(),
                all == stats_of(ranks@),
                wall@ == walls(all).take(i as int),
                mpi@ == mpi_times(all).take(i as int),
            decreases ranks.len() - i,
        {
            wall.push(ranks[i].wall);
            mpi.push(ranks[i].mpi_time);
            i += 1;
            assert(walls(all).take(i as int) =~= walls(all).take(i - 1).push(walls(all)[i - 1]));
            assert(mpi_times(all).take(i as int) =~= mpi_times(all).take(i - 1).push(
                mpi_times(all)[i - 1],
            ));
        }
        assert(walls(all).take(i as int) =~= walls(all));
        assert(mpi_times(all).take(i as int) =~= mpi_times(all));
        let n: Double = Double::from_u64(ranks.len() as u64);
        let avg_wall: Double = total_of(&wall).over(n);
        let avg_mpi: Double = total_of(&mpi).over(n);
        let most: Double = greatest_of(Double::from_u64(0), &mpi);
        let imbalance: Double = if Double::from_u64(0).lt(most) {
            most.minus(avg_mpi).over(most).times(Double::from_u64(100)).max(Double::from_u64(0))
        } else {
            Double::from_u64(0)
        };
        let pct: Double = percentage(avg_mpi, avg_wall);
        push_metric(&mut out, Metric::count("mpi_ranks", "MPI ranks", ranks.len() as i64));
        push_metric(&mut out, Metric::float("mpi_time", "MPI time (avg/rank)", avg_mpi, "s"));
        push_metric(&mut out, Metric::percent("mpi_time_pct", "MPI time", pct));
        push_metric(&mut out, Metric::percent("mpi_imbalance_pct", "MPI imbalance", imbalance));
        let ghost first = metrics_of(out@);
        assert(first =~= seq![
            int_metric("mpi_ranks"@, "MPI ranks"@, all.len() as i64),
            float_metric("mpi_time"@, "MPI time (avg/rank)"@, avg_mpi, "s"@),
            percent_metric("mpi_time_pct"@, "MPI time"@, pct),
            percent_metric("mpi_imbalance_pct"@, "MPI imbalance"@, imbalance),
        ]);
        let top: Vec<FnTotal> = rank_totals(&all_totals(ranks));
        push_tops(&mut out, &top);
        out
    }

    /// The metrics, and a note where there is nothing to report.
    pub fn finish(&self, files: &Vec<RankFile>) -> (r: (Vec<Metric>, Option<&'static str>))
        ensures
            metrics_of(r.0@) == mpi_metrics(stats_in(files_of(files@))),
            match r.1 {
                Some(note) => stats_in(files_of(files@)).len() == 0 && note@
                    == "uaps: --mpi set but no per-rank data was produced (did LD_PRELOAD reach the ranks? for some launchers use `mpirun -x LD_PRELOAD`)"@,
                None => stats_in(files_of(files@)).len() > 0,
            },
    {
        let ranks: Vec<RankStat> = self.read_ranks(files);
        assert(stats_of(ranks@).len() == ranks@.len());
        let note: Option<&'static str> = if ranks.len() == 0 {
            Some(
                "uaps: --mpi set but no per-rank data was produced (did LD_PRELOAD reach the ranks? for some launchers use `mpirun -x LD_PRELOAD`)",
            )
        } else {
            None
        };
        (self.metrics(&ranks), note)
    }
}

// ------------------------------------------------------------------ laws

/// No total is a not-a-number.
pub open spec fn are_numbers(t: FnTotals) -> bool {
    forall|i: int| 0 <= i < t.len() ==> !(#[trigger] t[i]).1.is_nan()
}

/// No total is above an earlier one.
pub open spec fn descends(t: FnTotals) -> bool {
    forall|i: int, j: int|
        0 <= i < j < t.len() ==> at_most((#[trigger] t[j]).1, (#[trigger] t[i]).1)
}

proof fn lemma_rank_of_time(t: FnTotals, secs: Double)
    ensures
        0 <= rank_of_time(t, secs) <= t.len(),
        forall|i: int| 0 <= i < rank_of_time(t, secs) ==> !less((#[trigger] t[i]).1, secs),
        rank_of_time(t, secs) < t.len() ==> less(t[rank_of_time(t, secs)].1, secs),
    decreases t.len(),
{
    if t.len() > 0 && !less(t[0].1, secs) {
        lemma_rank_of_time(t.skip(1), secs);
        assert forall|i: int| 0 <= i < rank_of_time(t, secs) implies !less(
            (#[trigger] t[i]).1,
            secs,
        ) by {
            if i > 0 {
                assert(t[i] == t.skip(1)[i - 1]);
            }
        }
    }
}

/// The ranking holds the same functions with the same times, from the largest down.
pub proof fn law_ranking_descends(t: FnTotals)
    requires
        are_numbers(t),
    ensures
        descends(ranked(t)),
        are_numbers(ranked(t)),
        ranked(t).to_multiset() == t.to_multiset(),
        ranked(t).len() == t.len(),
    decreases t.len(),
{
    if t.len() > 0 {
        let head = t.drop_last();
        let e = t.last();
        assert forall|i: int| 0 <= i < head.len() implies !(#[trigger] head[i]).1.is_nan() by {
            assert(head[i] == t[i]);
        }
        assert(!t[t.len() - 1].1.is_nan());
        law_ranking_descends(head);
        let before = ranked(head);
        let p = rank_of_time(before, e.1);
        lemma_rank_of_time(before, e.1);
        let after = before.insert(p, e);
        assert forall|i: int| 0 <= i < after.len() implies !(#[trigger] after[i]).1.is_nan() by {
            if i < p {
                assert(after[i] == before[i]);
            } else if i > p {
                assert(after[i] == before[i - 1]);
            }
        }
        assert forall|i: int, j: int| 0 <= i < j < after.len() implies at_most(
            (#[trigger] after[j]).1,
            (#[trigger] after[i]).1,
        ) by {
            if i < p {
                assert(after[i] == before[i]);
            }
            if j < p {
                assert(after[j] == before[j]);
            }
            if i > p {
                assert(after[i] == before[i - 1]);
            }
            if j > p {
                assert(after[j] == before[j - 1]);
                assert(before[p].1.num() < e.1.num());
                if i == p && j - 1 > p {
                    assert(at_most(before[j - 1].1, before[p].1));
                }
            }
        }
        vstd::seq_lib::to_multiset_insert(before, p, e);
        assert(t =~= head.push(e));
        assert(t.to_multiset() =~= head.to_multiset().insert(e)) by {
            broadcast use vstd::seq_lib::group_to_multiset_ensures;

        }
        assert(after.to_multiset() =~= t.to_multiset());
    } else {
        assert(ranked(t) =~= t);
    }
}

/// The imbalance is a percentage between 0 and 100, of times that are not below zero.
pub proof fn law_mpi_imbalance_is_a_percentage(v: Seq<Double>, n: nat)
    requires
        0 < n <= u64::MAX,
        forall|i: int| 0 <= i < v.len() ==> (#[trigger] v[i]).is_finite(),
        forall|i: int| 0 <= i < v.len() ==> nonnegative(#[trigger] v[i]),
    ensures
        nonnegative(mpi_imbalance(greatest(of_int(0), v), mean(v, n))),
        at_most(mpi_imbalance(greatest(of_int(0), v), mean(v, n)), of_int(100)),
{
    let most = greatest(of_int(0), v);
    crate::double::lemma_whole_exact(0);
    crate::double::lemma_whole_exact(100);
    assert(0 * crate::double::one_unit() <= 100 * crate::double::one_unit());
    crate::bounds::lemma_nonnegative(of_int(0));
    if less(of_int(0), most) {
        if v.len() > 0 {
            crate::bounds::lemma_greatest(of_int(0), v, 0);
        }
        crate::bounds::lemma_total_nonnegative(v);
        crate::bounds::lemma_mean_nonnegative(total(v), n);
        crate::bounds::lemma_shortfall(most, mean(v, n));
    }
}

} // verus!
