//! Insight engine: interprets derived metrics into ranked, human-readable findings:
//! the "your application is X bound" headline plus advice. Rules fire only when the
//! relevant metrics exist, so a report degrades to fewer insights rather than wrong
//! ones.

use crate::bounds::{lemma_counts_increase, lemma_mean_nonnegative};
use crate::decimal::{fixed, to_fixed};
use crate::double::{at_most, less, of_int, product, quotient, sum, Double};
use crate::metric::{numeric_of, MetricModel, Snapshot};
use vstd::prelude::*;

verus! {

/// A single finding. The first element of [`insights`]'s result is the headline
/// bottleneck.
#[derive(Debug, Clone)]
pub struct Insight {
    pub headline: String,
    pub detail: String,
}

/// What an [`Insight`] is.
pub struct InsightModel {
    pub headline: Seq<char>,
    pub detail: Seq<char>,
}

impl View for Insight {
    type V = InsightModel;

    open spec fn view(&self) -> InsightModel {
        InsightModel { headline: self.headline@, detail: self.detail@ }
    }
}

/// What a list of findings is.
pub open spec fn insights_of(v: Seq<Insight>) -> Seq<InsightModel> {
    v.map_values(|x: Insight| x@)
}

/// Bytes in a MiB.
pub const MIB: u64 = 1048576;

/// A finding where it holds.
pub open spec fn one(x: Option<InsightModel>) -> Seq<InsightModel> {
    match x {
        Some(x) => seq![x],
        None => Seq::empty(),
    }
}

/// A finding on a number that reaches a limit.
pub open spec fn reached(
    x: Option<Double>,
    limit: int,
    headline: Seq<char>,
    advice: Seq<char>,
) -> Option<InsightModel> {
    match x {
        Some(p) => if at_most(of_int(limit), p) {
            Some(InsightModel { headline, detail: fixed(p, 1) + advice })
        } else {
            None
        },
        None => None,
    }
}

/// A number, or zero where it is not known.
pub open spec fn or_zero(x: Option<Double>) -> Double {
    match x {
        Some(x) => x,
        None => of_int(0),
    }
}

/// CPU idle most of the wall time while moving real disk bytes.
pub open spec fn io_bound(cpu_time: Option<Double>, elapsed: Double, disk: Double) -> Option<
    InsightModel,
> {
    match cpu_time {
        Some(ct) => if less(of_int(0), elapsed) && less(
            quotient(ct, elapsed),
            quotient(of_int(1), of_int(2)),
        ) && less(of_int(16 * MIB), disk) {
            Some(
                InsightModel {
                    headline: "I/O-bound"@,
                    detail: "CPU busy only "@ + fixed(
                        product(quotient(ct, elapsed), of_int(100)),
                        0,
                    ) + "% of wall time while moving "@ + fixed(
                        quotient(disk, of_int(MIB as int)),
                        0,
                    )
                        + " MiB of disk I/O. Overlap I/O with compute, batch requests, or buffer more aggressively."@,
                },
            )
        } else {
            None
        },
        None => None,
    }
}

/// Memory bound, on the measured DRAM-fill rate where there is one, else on
/// last-level-cache misses.
pub open spec fn memory_finding(dram_dpki: Option<Double>, mpki: Option<Double>) -> Option<
    InsightModel,
> {
    if dram_dpki is Some {
        reached(
            dram_dpki,
            5,
            "Memory-bound"@,
            " DRAM fills per 1K instructions (measured). Improve data locality (cache blocking), shrink the working set, or prefetch."@,
        )
    } else {
        reached(
            mpki,
            5,
            "Memory-bound"@,
            " LLC misses per 1K instructions. Improve data locality (cache blocking), check NUMA placement, shrink the working set."@,
        )
    }
}

/// Little cache pressure, but about one core in use for a while; not under MPI, where
/// the process described is the launcher.
pub open spec fn single_threaded(
    cores: Option<Double>,
    mpki: Option<Double>,
    mpi_pct: Option<Double>,
    elapsed: Double,
) -> Option<InsightModel> {
    match (cores, mpki) {
        (Some(c), Some(m)) => if mpi_pct is None && less(c, quotient(of_int(3), of_int(2))) && less(
            m,
            of_int(5),
        ) && less(quotient(of_int(1), of_int(2)), elapsed) {
            Some(
                InsightModel {
                    headline: "Mostly single-threaded"@,
                    detail: "Averaged "@ + fixed(c, 1)
                        + " cores. If the work is parallelizable, threading could reduce wall-clock time substantially."@,
                },
            )
        } else {
            None
        },
        _ => None,
    }
}

/// High IPC with low cache pressure.
pub open spec fn compute_bound(ipc: Option<Double>, mpki: Option<Double>) -> Option<InsightModel> {
    match (ipc, mpki) {
        (Some(i), Some(m)) => if at_most(quotient(of_int(3), of_int(2)), i) && less(m, of_int(1)) {
            Some(
                InsightModel {
                    headline: "Compute-bound"@,
                    detail: "High IPC ("@ + fixed(i, 2)
                        + ") with low cache pressure — cores are well used. Look at vectorization (SIMD) and algorithmic improvements next."@,
                },
            )
        } else {
            None
        },
        _ => None,
    }
}

/// Much of the time goes to MPI.
pub open spec fn mpi_finding(s: Seq<MetricModel>) -> Option<InsightModel> {
    reached(
        numeric_of(s, "mpi_time_pct"@),
        15,
        "MPI-bound"@,
        "% of time spent in MPI. Reduce communication/wait: balance work across ranks, overlap comm with compute, or aggregate messages."@,
    )
}

/// One thread is much busier than the others.
pub open spec fn thread_finding(s: Seq<MetricModel>) -> Option<InsightModel> {
    reached(
        numeric_of(s, "thread_imbalance_pct"@),
        20,
        "Thread imbalance"@,
        "% gap between the busiest thread and the average worker. Rebalance work (dynamic/guided OpenMP scheduling) or split hot threads."@,
    )
}

/// Many fills come from another node.
pub open spec fn numa_finding(s: Seq<MetricModel>) -> Option<InsightModel> {
    reached(
        numeric_of(s, "numa_remote_pct"@),
        15,
        "NUMA remote access"@,
        "% of demand fills came from a remote NUMA node. Pin threads and memory to the same node (numactl/first-touch allocation)."@,
    )
}

/// Many slots wait for instructions.
pub open spec fn frontend_finding(s: Seq<MetricModel>) -> Option<InsightModel> {
    reached(
        numeric_of(s, "topdown_frontend_pct"@),
        25,
        "Frontend-bound"@,
        "% of pipeline slots stalled on instruction supply. Reduce code footprint / I-cache pressure; check for excessive branching or large unrolled hot paths."@,
    )
}

/// Many branches are mispredicted.
pub open spec fn branch_finding(s: Seq<MetricModel>) -> Option<InsightModel> {
    reached(
        numeric_of(s, "branch_mispredict_rate"@),
        3,
        "Branch misprediction"@,
        "% of branches mispredicted. Make hot branches more predictable or restructure them to be branchless."@,
    )
}

/// The bottlenecks of a snapshot, most significant first.
pub open spec fn bottlenecks(s: Seq<MetricModel>) -> Seq<InsightModel> {
    let elapsed = or_zero(numeric_of(s, "elapsed_time"@));
    let disk = sum(or_zero(numeric_of(s, "disk_read"@)), or_zero(numeric_of(s, "disk_write"@)));
    let mpki = numeric_of(s, "llc_mpki"@);
    let mpi_pct = numeric_of(s, "mpi_time_pct"@);
    one(mpi_finding(s)) + one(thread_finding(s)) + one(
        io_bound(numeric_of(s, "cpu_time"@), elapsed, disk),
    ) + one(memory_finding(numeric_of(s, "dram_dpki"@), mpki)) + one(numa_finding(s)) + one(
        frontend_finding(s),
    ) + one(branch_finding(s)) + one(
        single_threaded(numeric_of(s, "cpu_cores_used"@), mpki, mpi_pct, elapsed),
    )
}

/// The findings of a snapshot, most significant first. That it is healthy and
/// compute-bound is said only where nothing else is.
pub open spec fn findings(s: Seq<MetricModel>) -> Seq<InsightModel> {
    if bottlenecks(s).len() == 0 {
        one(compute_bound(numeric_of(s, "ipc"@), numeric_of(s, "llc_mpki"@)))
    } else {
        bottlenecks(s)
    }
}

/// What a finding is, where it holds.
pub open spec fn finding_of(x: Option<Insight>) -> Option<InsightModel> {
    match x {
        Some(x) => Some(x@),
        None => None,
    }
}

fn offer(out: &mut Vec<Insight>, x: Option<Insight>)
    ensures
        insights_of(final(out)@) == insights_of(old(out)@) + one(finding_of(x)),
{
    let ghost before = out@;
    match x {
        Some(x) => {
            out.push(x);
            assert(insights_of(out@) =~= insights_of(before) + seq![x@]);
        },
        None => {
            assert(insights_of(out@) =~= insights_of(before) + Seq::empty());
        },
    }
}

fn reaches(x: Option<Double>, limit: u64, headline: &str, advice: &str) -> (r: Option<Insight>)
    ensures
        finding_of(r) == reached(x, limit as int, headline@, advice@),
{
    match x {
        Some(p) => {
            if Double::from_u64(limit).le(p) {
                let mut detail: String = to_fixed(p, 1);
                detail.append(advice);
                Some(Insight { headline: headline.to_string(), detail })
            } else {
                None
            }
        },
        None => None,
    }
}

fn zero_unless(x: Option<Double>) -> (r: Double)
    ensures
        r == or_zero(x),
{
    match x {
        Some(x) => x,
        None => Double::from_u64(0),
    }
}

fn half(n: u64) -> (r: Double)
    ensures
        r == quotient(of_int(n as int), of_int(2)),
{
    Double::from_u64(n).over(Double::from_u64(2))
}

fn find_io_bound(cpu_time: Option<Double>, elapsed: Double, disk: Double) -> (r: Option<Insight>)
    ensures
        finding_of(r) == io_bound(cpu_time, elapsed, disk),
{
    match cpu_time {
        Some(ct) => {
            if Double::from_u64(0).lt(elapsed) && ct.over(elapsed).lt(half(1)) && Double::from_u64(
                16 * MIB,
            ).lt(disk) {
                let mut detail: String = "CPU busy only ".to_string();
                detail.append(
                    to_fixed(ct.over(elapsed).times(Double::from_u64(100)), 0).as_str(),
                );
                detail.append("% of wall time while moving ");
                detail.append(to_fixed(disk.over(Double::from_u64(MIB)), 0).as_str());
                detail.append(
                    " MiB of disk I/O. Overlap I/O with compute, batch requests, or buffer more aggressively.",
                );
                Some(Insight { headline: "I/O-bound".to_string(), detail })
            } else {
                None
            }
        },
        None => None,
    }
}

fn find_memory_bound(dram_dpki: Option<Double>, mpki: Option<Double>) -> (r: Option<Insight>)
    ensures
        finding_of(r) == memory_finding(dram_dpki, mpki),
{
    if dram_dpki.is_some() {
        reaches(
            dram_dpki,
            5,
            "Memory-bound",
            " DRAM fills per 1K instructions (measured). Improve data locality (cache blocking), shrink the working set, or prefetch.",
        )
    } else {
        reaches(
            mpki,
            5,
            "Memory-bound",
            " LLC misses per 1K instructions. Improve data locality (cache blocking), check NUMA placement, shrink the working set.",
        )
    }
}

fn find_single_threaded(
    cores: Option<Double>,
    mpki: Option<Double>,
    mpi_pct: Option<Double>,
    elapsed: Double,
) -> (r: Option<Insight>)
    ensures
        finding_of(r) == single_threaded(cores, mpki, mpi_pct, elapsed),
{
    match (cores, mpki) {
        (Some(c), Some(m)) => {
            if mpi_pct.is_none() && c.lt(half(3)) && m.lt(Double::from_u64(5)) && half(1).lt(
                elapsed,
            ) {
                let mut detail: String = "Averaged ".to_string();
                detail.append(to_fixed(c, 1).as_str());
                detail.append(
                    " cores. If the work is parallelizable, threading could reduce wall-clock time substantially.",
                );
                Some(Insight { headline: "Mostly single-threaded".to_string(), detail })
            } else {
                None
            }
        },
        _ => None,
    }
}

fn find_compute_bound(ipc: Option<Double>, mpki: Option<Double>) -> (r: Option<Insight>)
    ensures
        finding_of(r) == compute_bound(ipc, mpki),
{
    match (ipc, mpki) {
        (Some(i), Some(m)) => {
            if half(3).le(i) && m.lt(Double::from_u64(1)) {
                let mut detail: String = "High IPC (".to_string();
                detail.append(to_fixed(i, 2).as_str());
                detail.append(
                    ") with low cache pressure — cores are well used. Look at vectorization (SIMD) and algorithmic improvements next.",
                );
                Some(Insight { headline: "Compute-bound".to_string(), detail })
            } else {
                None
            }
        },
        _ => None,
    }
}

/// Rank findings for a snapshot, most significant first.
pub fn insights(snapshot: &Snapshot) -> (r: Vec<Insight>)
    ensures
        insights_of(r@) == findings(snapshot@),
{
    let mut out: Vec<Insight> = Vec::new();
    let mpki: Option<Double> = snapshot.numeric("llc_mpki");
    let mpi_pct: Option<Double> = snapshot.numeric("mpi_time_pct");
    let elapsed: Double = zero_unless(snapshot.numeric("elapsed_time"));
    let disk: Double = zero_unless(snapshot.numeric("disk_read")).plus(
        zero_unless(snapshot.numeric("disk_write")),
    );

    // MPI communication bound: highest priority when present.
    let mpi: Option<Insight> = reaches(
        mpi_pct,
        15,
        "MPI-bound",
        "% of time spent in MPI. Reduce communication/wait: balance work across ranks, overlap comm with compute, or aggregate messages.",
    );
    let ghost first = one(finding_of(mpi));
    offer(&mut out, mpi);
    assert(insights_of(Seq::<Insight>::empty()) + first =~= first);
    // Thread imbalance: only meaningful when multithreaded.
    offer(
        &mut out,
        reaches(
            snapshot.numeric("thread_imbalance_pct"),
            20,
            "Thread imbalance",
            "% gap between the busiest thread and the average worker. Rebalance work (dynamic/guided OpenMP scheduling) or split hot threads.",
        ),
    );
    // I/O is looked at before memory: an I/O workload's kernel page-copies inflate
    // cache-miss counts, but a CPU-idle process is genuinely I/O-bound.
    offer(&mut out, find_io_bound(snapshot.numeric("cpu_time"), elapsed, disk));
    offer(&mut out, find_memory_bound(snapshot.numeric("dram_dpki"), mpki));
    offer(
        &mut out,
        reaches(
            snapshot.numeric("numa_remote_pct"),
            15,
            "NUMA remote access",
            "% of demand fills came from a remote NUMA node. Pin threads and memory to the same node (numactl/first-touch allocation).",
        ),
    );
    offer(
        &mut out,
        reaches(
            snapshot.numeric("topdown_frontend_pct"),
            25,
            "Frontend-bound",
            "% of pipeline slots stalled on instruction supply. Reduce code footprint / I-cache pressure; check for excessive branching or large unrolled hot paths.",
        ),
    );
    offer(
        &mut out,
        reaches(
            snapshot.numeric("branch_mispredict_rate"),
            3,
            "Branch misprediction",
            "% of branches mispredicted. Make hot branches more predictable or restructure them to be branchless.",
        ),
    );
    offer(
        &mut out,
        find_single_threaded(snapshot.numeric("cpu_cores_used"), mpki, mpi_pct, elapsed),
    );
    assert(insights_of(out@) == bottlenecks(snapshot@));
    if out.len() == 0 {
        let compute: Option<Insight> = find_compute_bound(snapshot.numeric("ipc"), mpki);
        let ghost last = one(finding_of(compute));
        assert(insights_of(out@) + last =~= last);
        offer(&mut out, compute);
    }
    out
}

// ------------------------------------------------------------------ laws

/// Time in MPI is the headline wherever it reaches its limit.
pub proof fn law_mpi_comes_first(s: Seq<MetricModel>, p: Double)
    requires
        numeric_of(s, "mpi_time_pct"@) == Some(p),
        at_most(of_int(15), p),
    ensures
        findings(s).len() > 0,
        findings(s)[0].headline == "MPI-bound"@,
{
}

/// That a run is compute-bound is said alone.
pub proof fn law_compute_bound_alone(s: Seq<MetricModel>, i: int)
    requires
        0 <= i < findings(s).len(),
        findings(s)[i].headline == "Compute-bound"@,
    ensures
        findings(s).len() == 1,
{
    reveal_strlit("Compute-bound");
    reveal_strlit("MPI-bound");
    reveal_strlit("Thread imbalance");
    reveal_strlit("I/O-bound");
    reveal_strlit("Memory-bound");
    reveal_strlit("NUMA remote access");
    reveal_strlit("Frontend-bound");
    reveal_strlit("Branch misprediction");
    reveal_strlit("Mostly single-threaded");
    let other = findings(s)[i].headline;
    if bottlenecks(s).len() > 0 {
        assert(other == "MPI-bound"@ || other == "Thread imbalance"@ || other == "I/O-bound"@
            || other == "Memory-bound"@ || other == "NUMA remote access"@ || other
            == "Frontend-bound"@ || other == "Branch misprediction"@ || other
            == "Mostly single-threaded"@);
        assert("Compute-bound"@[0] == 'C');
        assert(other[0] != 'C');
    }
}

/// A snapshot without metrics gives no findings.
pub proof fn law_nothing_found_in_nothing(s: Seq<MetricModel>)
    requires
        s.len() == 0,
    ensures
        findings(s).len() == 0,
{
}

// ------------------------------------------------------------------ when each is said

/// A finding with this headline is among `xs`, and its detail starts with `start`.
pub open spec fn among(xs: Seq<InsightModel>, headline: Seq<char>, start: Seq<char>) -> bool {
    exists|i: int|
        0 <= i < xs.len() && (#[trigger] xs[i]).headline == headline && start.is_prefix_of(
            xs[i].detail,
        )
}

/// A snapshot is said to be so: a finding of it has this headline.
pub open spec fn said(s: Seq<MetricModel>, headline: Seq<char>) -> bool {
    among(findings(s), headline, Seq::empty())
}

spec fn is_told(x: Option<InsightModel>, headline: Seq<char>, start: Seq<char>) -> bool {
    x matches Some(x) && x.headline == headline && start.is_prefix_of(x.detail)
}

proof fn lemma_among_one(x: Option<InsightModel>, headline: Seq<char>, start: Seq<char>)
    ensures
        among(one(x), headline, start) == is_told(x, headline, start),
{
    if is_told(x, headline, start) {
        assert(one(x)[0].headline == headline);
    }
}

proof fn lemma_among_either(
    a: Seq<InsightModel>,
    b: Seq<InsightModel>,
    headline: Seq<char>,
    start: Seq<char>,
)
    ensures
        among(a + b, headline, start) == (among(a, headline, start) || among(b, headline, start)),
{
    if among(a, headline, start) {
        let i = choose|i: int|
            0 <= i < a.len() && (#[trigger] a[i]).headline == headline && start.is_prefix_of(
                a[i].detail,
            );
        assert((a + b)[i].headline == headline);
    }
    if among(b, headline, start) {
        let i = choose|i: int|
            0 <= i < b.len() && (#[trigger] b[i]).headline == headline && start.is_prefix_of(
                b[i].detail,
            );
        assert((a + b)[a.len() + i].headline == headline);
    }
    if among(a + b, headline, start) {
        let i = choose|i: int|
            0 <= i < (a + b).len() && (#[trigger] (a + b)[i]).headline == headline
                && start.is_prefix_of((a + b)[i].detail);
        if i < a.len() {
            assert(a[i].headline == headline);
        } else {
            assert(b[i - a.len()].headline == headline);
        }
    }
}

proof fn lemma_headlines()
    ensures
        "MPI-bound"@.subrange(0, 2) == seq!['M', 'P'],
        "Thread imbalance"@.subrange(0, 2) == seq!['T', 'h'],
        "I/O-bound"@.subrange(0, 2) == seq!['I', '/'],
        "Memory-bound"@.subrange(0, 2) == seq!['M', 'e'],
        "NUMA remote access"@.subrange(0, 2) == seq!['N', 'U'],
        "Frontend-bound"@.subrange(0, 2) == seq!['F', 'r'],
        "Branch misprediction"@.subrange(0, 2) == seq!['B', 'r'],
        "Mostly single-threaded"@.subrange(0, 2) == seq!['M', 'o'],
        "Compute-bound"@.subrange(0, 2) == seq!['C', 'o'],
{
    reveal_strlit("MPI-bound");
    reveal_strlit("Thread imbalance");
    reveal_strlit("I/O-bound");
    reveal_strlit("Memory-bound");
    reveal_strlit("NUMA remote access");
    reveal_strlit("Frontend-bound");
    reveal_strlit("Branch misprediction");
    reveal_strlit("Mostly single-threaded");
    reveal_strlit("Compute-bound");
}

/// No two headlines are the same.
proof fn lemma_headlines_differ()
    ensures
        "MPI-bound"@ != "Thread imbalance"@,
        "MPI-bound"@ != "I/O-bound"@,
        "MPI-bound"@ != "Memory-bound"@,
        "MPI-bound"@ != "NUMA remote access"@,
        "MPI-bound"@ != "Frontend-bound"@,
        "MPI-bound"@ != "Branch misprediction"@,
        "MPI-bound"@ != "Mostly single-threaded"@,
        "MPI-bound"@ != "Compute-bound"@,
        "Thread imbalance"@ != "I/O-bound"@,
        "Thread imbalance"@ != "Memory-bound"@,
        "Thread imbalance"@ != "NUMA remote access"@,
        "Thread imbalance"@ != "Frontend-bound"@,
        "Thread imbalance"@ != "Branch misprediction"@,
        "Thread imbalance"@ != "Mostly single-threaded"@,
        "Thread imbalance"@ != "Compute-bound"@,
        "I/O-bound"@ != "Memory-bound"@,
        "I/O-bound"@ != "NUMA remote access"@,
        "I/O-bound"@ != "Frontend-bound"@,
        "I/O-bound"@ != "Branch misprediction"@,
        "I/O-bound"@ != "Mostly single-threaded"@,
        "I/O-bound"@ != "Compute-bound"@,
        "Memory-bound"@ != "NUMA remote access"@,
        "Memory-bound"@ != "Frontend-bound"@,
        "Memory-bound"@ != "Branch misprediction"@,
        "Memory-bound"@ != "Mostly single-threaded"@,
        "Memory-bound"@ != "Compute-bound"@,
        "NUMA remote access"@ != "Frontend-bound"@,
        "NUMA remote access"@ != "Branch misprediction"@,
        "NUMA remote access"@ != "Mostly single-threaded"@,
        "NUMA remote access"@ != "Compute-bound"@,
        "Frontend-bound"@ != "Branch misprediction"@,
        "Frontend-bound"@ != "Mostly single-threaded"@,
        "Frontend-bound"@ != "Compute-bound"@,
        "Branch misprediction"@ != "Mostly single-threaded"@,
        "Branch misprediction"@ != "Compute-bound"@,
        "Mostly single-threaded"@ != "Compute-bound"@,
{
    lemma_headlines();
    assert(seq!['M', 'P'][1] == 'P' && seq!['M', 'e'][1] == 'e' && seq!['M', 'o'][1] == 'o');
    assert(seq!['M', 'P'][0] == 'M' && seq!['M', 'e'][0] == 'M' && seq!['M', 'o'][0] == 'M');
    assert(seq!['T', 'h'][0] == 'T' && seq!['I', '/'][0] == 'I' && seq!['N', 'U'][0] == 'N');
    assert(seq!['F', 'r'][0] == 'F' && seq!['B', 'r'][0] == 'B' && seq!['C', 'o'][0] == 'C');
}

/// The bottleneck in one of the eight places, most significant first.
spec fn place(s: Seq<MetricModel>, k: int) -> Option<InsightModel> {
    let elapsed = or_zero(numeric_of(s, "elapsed_time"@));
    let disk = sum(or_zero(numeric_of(s, "disk_read"@)), or_zero(numeric_of(s, "disk_write"@)));
    let mpki = numeric_of(s, "llc_mpki"@);
    let mpi_pct = numeric_of(s, "mpi_time_pct"@);
    if k == 0 {
        mpi_finding(s)
    } else if k == 1 {
        thread_finding(s)
    } else if k == 2 {
        io_bound(numeric_of(s, "cpu_time"@), elapsed, disk)
    } else if k == 3 {
        memory_finding(numeric_of(s, "dram_dpki"@), mpki)
    } else if k == 4 {
        numa_finding(s)
    } else if k == 5 {
        frontend_finding(s)
    } else if k == 6 {
        branch_finding(s)
    } else {
        single_threaded(numeric_of(s, "cpu_cores_used"@), mpki, mpi_pct, elapsed)
    }
}

/// The headline in each place.
spec fn headline_of(k: int) -> Seq<char> {
    if k == 0 {
        "MPI-bound"@
    } else if k == 1 {
        "Thread imbalance"@
    } else if k == 2 {
        "I/O-bound"@
    } else if k == 3 {
        "Memory-bound"@
    } else if k == 4 {
        "NUMA remote access"@
    } else if k == 5 {
        "Frontend-bound"@
    } else if k == 6 {
        "Branch misprediction"@
    } else {
        "Mostly single-threaded"@
    }
}

/// A headline is said where the finding in its place is.
proof fn lemma_said(s: Seq<MetricModel>, k: int, start: Seq<char>)
    requires
        0 <= k < 8,
    ensures
        among(findings(s), headline_of(k), start) == is_told(place(s, k), headline_of(k), start),
{
    lemma_headlines_differ();
    let h = headline_of(k);
    lemma_among_eight(
        place(s, 0),
        place(s, 1),
        place(s, 2),
        place(s, 3),
        place(s, 4),
        place(s, 5),
        place(s, 6),
        place(s, 7),
        h,
        start,
    );
    assert(k == 0 || k == 1 || k == 2 || k == 3 || k == 4 || k == 5 || k == 6 || k == 7);
    assert forall|j: int| 0 <= j < 8 && is_told(#[trigger] place(s, j), h, start) implies j
        == k by {
        assert(j == 0 || j == 1 || j == 2 || j == 3 || j == 4 || j == 5 || j == 6 || j == 7);
        assert(place(s, j).unwrap().headline == headline_of(j));
    }
    assert(among(bottlenecks(s), h, start) == is_told(place(s, k), h, start));
    if bottlenecks(s).len() == 0 {
        let c = compute_bound(numeric_of(s, "ipc"@), numeric_of(s, "llc_mpki"@));
        lemma_among_one(c, h, start);
    }
}

proof fn lemma_among_eight(
    a: Option<InsightModel>,
    b: Option<InsightModel>,
    c: Option<InsightModel>,
    d: Option<InsightModel>,
    e: Option<InsightModel>,
    f: Option<InsightModel>,
    g: Option<InsightModel>,
    h: Option<InsightModel>,
    headline: Seq<char>,
    start: Seq<char>,
)
    ensures
        among(
            one(a) + one(b) + one(c) + one(d) + one(e) + one(f) + one(g) + one(h),
            headline,
            start,
        ) == (is_told(a, headline, start) || is_told(b, headline, start) || is_told(
            c,
            headline,
            start,
        ) || is_told(d, headline, start) || is_told(e, headline, start) || is_told(
            f,
            headline,
            start,
        ) || is_told(g, headline, start) || is_told(h, headline, start)),
{
    lemma_among_one(a, headline, start);
    lemma_among_one(b, headline, start);
    lemma_among_one(c, headline, start);
    lemma_among_one(d, headline, start);
    lemma_among_one(e, headline, start);
    lemma_among_one(f, headline, start);
    lemma_among_one(g, headline, start);
    lemma_among_one(h, headline, start);
    lemma_among_either(one(a), one(b), headline, start);
    lemma_among_either(one(a) + one(b), one(c), headline, start);
    lemma_among_either(one(a) + one(b) + one(c), one(d), headline, start);
    lemma_among_either(one(a) + one(b) + one(c) + one(d), one(e), headline, start);
    lemma_among_either(one(a) + one(b) + one(c) + one(d) + one(e), one(f), headline, start);
    lemma_among_either(
        one(a) + one(b) + one(c) + one(d) + one(e) + one(f),
        one(g),
        headline,
        start,
    );
    lemma_among_either(
        one(a) + one(b) + one(c) + one(d) + one(e) + one(f) + one(g),
        one(h),
        headline,
        start,
    );
}

/// A percentage of time in MPI is the matter from 15 on, one of imbalance between threads from
/// 20 on, one of remote fills from 15 on, one of slots lost in the frontend from 25 on, and one
/// of mispredicted branches from 3 on; never where it is not known. The number is told first,
/// to one decimal.
pub proof fn law_limits_decide(s: Seq<MetricModel>)
    ensures
        match numeric_of(s, "mpi_time_pct"@) {
            Some(p) => said(s, "MPI-bound"@) == at_most(of_int(15), p) && (said(s, "MPI-bound"@)
                ==> among(findings(s), "MPI-bound"@, fixed(p, 1))),
            None => !said(s, "MPI-bound"@),
        },
        match numeric_of(s, "thread_imbalance_pct"@) {
            Some(p) => said(s, "Thread imbalance"@) == at_most(of_int(20), p) && (said(
                s,
                "Thread imbalance"@,
            ) ==> among(findings(s), "Thread imbalance"@, fixed(p, 1))),
            None => !said(s, "Thread imbalance"@),
        },
        match numeric_of(s, "numa_remote_pct"@) {
            Some(p) => said(s, "NUMA remote access"@) == at_most(of_int(15), p) && (said(
                s,
                "NUMA remote access"@,
            ) ==> among(findings(s), "NUMA remote access"@, fixed(p, 1))),
            None => !said(s, "NUMA remote access"@),
        },
        match numeric_of(s, "topdown_frontend_pct"@) {
            Some(p) => said(s, "Frontend-bound"@) == at_most(of_int(25), p) && (said(
                s,
                "Frontend-bound"@,
            ) ==> among(findings(s), "Frontend-bound"@, fixed(p, 1))),
            None => !said(s, "Frontend-bound"@),
        },
        match numeric_of(s, "branch_mispredict_rate"@) {
            Some(p) => said(s, "Branch misprediction"@) == at_most(of_int(3), p) && (said(
                s,
                "Branch misprediction"@,
            ) ==> among(findings(s), "Branch misprediction"@, fixed(p, 1))),
            None => !said(s, "Branch misprediction"@),
        },
{
    lemma_told(s, 0, numeric_of(s, "mpi_time_pct"@));
    lemma_told(s, 1, numeric_of(s, "thread_imbalance_pct"@));
    lemma_told(s, 4, numeric_of(s, "numa_remote_pct"@));
    lemma_told(s, 5, numeric_of(s, "topdown_frontend_pct"@));
    lemma_told(s, 6, numeric_of(s, "branch_mispredict_rate"@));
}

/// A headline with its number.
proof fn lemma_told(s: Seq<MetricModel>, k: int, x: Option<Double>)
    requires
        0 <= k < 8,
    ensures
        said(s, headline_of(k)) == (place(s, k) matches Some(f) && f.headline == headline_of(k)),
        match (x, place(s, k)) {
            (Some(p), Some(f)) => f.headline == headline_of(k) && fixed(p, 1).is_prefix_of(f.detail)
                ==> among(findings(s), headline_of(k), fixed(p, 1)),
            _ => true,
        },
        k == 0 || k == 1 || 4 <= k <= 6 ==> (place(s, k) matches Some(f) ==> f.headline
            == headline_of(k)),
{
    lemma_said(s, k, Seq::empty());
    assert(Seq::<char>::empty().is_prefix_of(place(s, k).unwrap().detail)) by {
        assert(place(s, k).unwrap().detail.subrange(0, 0) =~= Seq::<char>::empty());
    }
    match x {
        Some(p) => lemma_said(s, k, fixed(p, 1)),
        None => {},
    }
}

/// A run is memory-bound from 5 fills from memory per thousand instructions on; where those are
/// not measured, from 5 last-level misses on. Whichever number decides is told first.
pub proof fn law_memory_bound_where_fills_are_many(s: Seq<MetricModel>)
    ensures
        match (numeric_of(s, "dram_dpki"@), numeric_of(s, "llc_mpki"@)) {
            (Some(d), _) => said(s, "Memory-bound"@) == at_most(of_int(5), d) && (said(
                s,
                "Memory-bound"@,
            ) ==> among(findings(s), "Memory-bound"@, fixed(d, 1))),
            (None, Some(m)) => said(s, "Memory-bound"@) == at_most(of_int(5), m) && (said(
                s,
                "Memory-bound"@,
            ) ==> among(findings(s), "Memory-bound"@, fixed(m, 1))),
            (None, None) => !said(s, "Memory-bound"@),
        },
{
    lemma_told(s, 3, numeric_of(s, "dram_dpki"@));
    lemma_told(s, 3, numeric_of(s, "llc_mpki"@));
}

/// A run is I/O-bound where its CPU time is known and under half of a positive elapsed time, and
/// what it read from and wrote to disk comes to over 16 MiB.
pub proof fn law_io_bound_where_idle_on_disk(s: Seq<MetricModel>)
    ensures
        said(s, "I/O-bound"@) == match (numeric_of(s, "cpu_time"@), numeric_of(s, "elapsed_time"@)) {
            (Some(c), Some(t)) => less(of_int(0), t) && less(
                quotient(c, t),
                quotient(of_int(1), of_int(2)),
            ) && less(
                of_int(16777216),
                match (numeric_of(s, "disk_read"@), numeric_of(s, "disk_write"@)) {
                    (Some(r), Some(w)) => sum(r, w),
                    (Some(r), None) => sum(r, of_int(0)),
                    (None, Some(w)) => sum(of_int(0), w),
                    (None, None) => sum(of_int(0), of_int(0)),
                },
            ),
            _ => false,
        },
{
    lemma_told(s, 2, None);
    assert(!less(of_int(0), of_int(0)));
}

/// A run is mostly single-threaded exactly where fewer than one and a half cores were busy, for
/// over half a second, with fewer than 5 last-level misses per thousand instructions, and nothing
/// was measured of MPI.
pub proof fn law_single_threaded_where_few_cores_are_busy(s: Seq<MetricModel>)
    ensures
        said(s, "Mostly single-threaded"@) == match (
            numeric_of(s, "cpu_cores_used"@),
            numeric_of(s, "llc_mpki"@),
            numeric_of(s, "elapsed_time"@),
            numeric_of(s, "mpi_time_pct"@),
        ) {
            (Some(c), Some(m), Some(t), None) => less(c, quotient(of_int(3), of_int(2))) && less(
                m,
                of_int(5),
            ) && less(quotient(of_int(1), of_int(2)), t),
            _ => false,
        },
{
    lemma_told(s, 7, None);
    lemma_half_positive();
}

/// That a run is compute-bound is said exactly where nothing else is, at one and a half
/// instructions per cycle or more and under one last-level miss per thousand.
pub proof fn law_compute_bound_where_cores_are_busy(s: Seq<MetricModel>)
    ensures
        said(s, "Compute-bound"@) == (!said(s, "MPI-bound"@) && !said(s, "Thread imbalance"@)
            && !said(s, "I/O-bound"@) && !said(s, "Memory-bound"@) && !said(
            s,
            "NUMA remote access"@,
        ) && !said(s, "Frontend-bound"@) && !said(s, "Branch misprediction"@) && !said(
            s,
            "Mostly single-threaded"@,
        ) && match (numeric_of(s, "ipc"@), numeric_of(s, "llc_mpki"@)) {
            (Some(i), Some(m)) => at_most(quotient(of_int(3), of_int(2)), i) && less(m, of_int(1)),
            _ => false,
        }),
{
    lemma_busy(s);
    lemma_quiet(s);
    lemma_place_said(s, 0);
    lemma_place_said(s, 1);
    lemma_place_said(s, 2);
    lemma_place_said(s, 3);
    lemma_place_said(s, 4);
    lemma_place_said(s, 5);
    lemma_place_said(s, 6);
    lemma_place_said(s, 7);
}

/// A headline is said exactly where the finding in its place is.
proof fn lemma_place_said(s: Seq<MetricModel>, k: int)
    requires
        0 <= k < 8,
    ensures
        said(s, headline_of(k)) == (place(s, k) is Some),
{
    lemma_told(s, k, None);
}

/// No bottleneck is found where none of the eight is.
proof fn lemma_quiet(s: Seq<MetricModel>)
    ensures
        bottlenecks(s).len() == 0 <==> place(s, 0) is None && place(s, 1) is None && place(
            s,
            2,
        ) is None && place(s, 3) is None && place(s, 4) is None && place(s, 5) is None && place(
            s,
            6,
        ) is None && place(s, 7) is None,
{
    assert(bottlenecks(s) == one(place(s, 0)) + one(place(s, 1)) + one(place(s, 2)) + one(
        place(s, 3),
    ) + one(place(s, 4)) + one(place(s, 5)) + one(place(s, 6)) + one(place(s, 7)));
}

proof fn lemma_busy(s: Seq<MetricModel>)
    ensures
        said(s, "Compute-bound"@) == (bottlenecks(s).len() == 0 && compute_bound(
            numeric_of(s, "ipc"@),
            numeric_of(s, "llc_mpki"@),
        ) is Some),
{
    let h = "Compute-bound"@;
    let c = compute_bound(numeric_of(s, "ipc"@), numeric_of(s, "llc_mpki"@));
    lemma_among_one(c, h, Seq::empty());
    assert(c is Some ==> Seq::<char>::empty().is_prefix_of(c.unwrap().detail)) by {
        assert(c.unwrap().detail.subrange(0, 0) =~= Seq::<char>::empty());
    }
    if bottlenecks(s).len() > 0 && said(s, h) {
        let i = choose|i: int|
            0 <= i < findings(s).len() && (#[trigger] findings(s)[i]).headline == h && Seq::<
                char,
            >::empty().is_prefix_of(findings(s)[i].detail);
        lemma_bottlenecks_ranked(s);
        lemma_headlines_differ();
        assert(rank(bottlenecks(s)[i].headline) <= 8);
    }
}

/// How much a headline matters: the smaller, the more.
pub open spec fn rank(headline: Seq<char>) -> int {
    if headline == "MPI-bound"@ {
        1
    } else if headline == "Thread imbalance"@ {
        2
    } else if headline == "I/O-bound"@ {
        3
    } else if headline == "Memory-bound"@ {
        4
    } else if headline == "NUMA remote access"@ {
        5
    } else if headline == "Frontend-bound"@ {
        6
    } else if headline == "Branch misprediction"@ {
        7
    } else if headline == "Mostly single-threaded"@ {
        8
    } else if headline == "Compute-bound"@ {
        9
    } else {
        0
    }
}

spec fn is_ranked(xs: Seq<InsightModel>, low: int, high: int) -> bool {
    &&& forall|i: int| 0 <= i < xs.len() ==> low < rank((#[trigger] xs[i]).headline) <= high
    &&& forall|i: int, j: int|
        0 <= i < j < xs.len() ==> rank((#[trigger] xs[i]).headline) < rank(
            (#[trigger] xs[j]).headline,
        )
}

proof fn lemma_one_more(xs: Seq<InsightModel>, s: Seq<MetricModel>, k: int)
    requires
        0 <= k < 8,
        is_ranked(xs, 0, k),
    ensures
        is_ranked(xs + one(place(s, k)), 0, k + 1),
{
    lemma_headlines_differ();
    assert(k == 0 || k == 1 || k == 2 || k == 3 || k == 4 || k == 5 || k == 6 || k == 7);
    let more = xs + one(place(s, k));
    assert(place(s, k) matches Some(f) ==> rank(f.headline) == k + 1);
    assert forall|i: int| 0 <= i < more.len() implies 0 < rank((#[trigger] more[i]).headline) <= k
        + 1 by {
        if i < xs.len() {
            assert(more[i] == xs[i]);
        }
    }
    assert forall|i: int, j: int| 0 <= i < j < more.len() implies rank(
        (#[trigger] more[i]).headline,
    ) < rank((#[trigger] more[j]).headline) by {
        assert(more[i] == xs[i]);
        if j < xs.len() {
            assert(more[j] == xs[j]);
        }
    }
}

/// Findings come in the order of how much they matter, each at most once.
pub proof fn law_findings_are_ranked(s: Seq<MetricModel>)
    ensures
        forall|i: int|
            0 <= i < findings(s).len() ==> 1 <= rank((#[trigger] findings(s)[i]).headline) <= 9,
        forall|i: int, j: int|
            0 <= i < j < findings(s).len() ==> rank((#[trigger] findings(s)[i]).headline) < rank(
                (#[trigger] findings(s)[j]).headline,
            ),
{
    lemma_headlines_differ();
    lemma_bottlenecks_ranked(s);
}

proof fn lemma_bottlenecks_ranked(s: Seq<MetricModel>)
    ensures
        is_ranked(bottlenecks(s), 0, 8),
{
    let a = Seq::<InsightModel>::empty();
    let a1 = one(place(s, 0));
    let a2 = a1 + one(place(s, 1));
    let a3 = a2 + one(place(s, 2));
    let a4 = a3 + one(place(s, 3));
    let a5 = a4 + one(place(s, 4));
    let a6 = a5 + one(place(s, 5));
    let a7 = a6 + one(place(s, 6));
    lemma_one_more(a, s, 0);
    assert(a + a1 =~= a1);
    lemma_one_more(a1, s, 1);
    lemma_one_more(a2, s, 2);
    lemma_one_more(a3, s, 3);
    lemma_one_more(a4, s, 4);
    lemma_one_more(a5, s, 5);
    lemma_one_more(a6, s, 6);
    lemma_one_more(a7, s, 7);
    assert(bottlenecks(s) == a7 + one(place(s, 7)));
}

proof fn lemma_half_positive()
    ensures
        !less(quotient(of_int(1), of_int(2)), of_int(0)),
{
    lemma_counts_increase(1, 1);
    lemma_mean_nonnegative(of_int(1), 2);
}

/// What a finding tells: how busy the CPU was, to a percent, and how many MiB moved; how many
/// cores were busy, to a tenth; how many instructions a cycle retired, to a hundredth.
pub proof fn law_findings_tell_their_numbers(s: Seq<MetricModel>)
    ensures
        ({
            let disk = sum(
                or_zero(numeric_of(s, "disk_read"@)),
                or_zero(numeric_of(s, "disk_write"@)),
            );
            &&& said(s, "I/O-bound"@) ==> match (
                numeric_of(s, "cpu_time"@),
                numeric_of(s, "elapsed_time"@),
            ) {
                (Some(c), Some(t)) => among(
                    findings(s),
                    "I/O-bound"@,
                    "CPU busy only "@ + fixed(product(quotient(c, t), of_int(100)), 0)
                        + "% of wall time while moving "@ + fixed(
                        quotient(disk, of_int(1048576)),
                        0,
                    ),
                ),
                _ => false,
            }
            &&& said(s, "Mostly single-threaded"@) ==> (numeric_of(s, "cpu_cores_used"@) matches
                Some(c) && among(
                findings(s),
                "Mostly single-threaded"@,
                "Averaged "@ + fixed(c, 1),
            ))
        }),
{
    law_io_bound_where_idle_on_disk(s);
    law_single_threaded_where_few_cores_are_busy(s);
    let disk = sum(or_zero(numeric_of(s, "disk_read"@)), or_zero(numeric_of(s, "disk_write"@)));
    if said(s, "I/O-bound"@) {
        let (c, t) = (numeric_of(s, "cpu_time"@)->0, numeric_of(s, "elapsed_time"@)->0);
        let start = "CPU busy only "@ + fixed(product(quotient(c, t), of_int(100)), 0)
            + "% of wall time while moving "@ + fixed(quotient(disk, of_int(1048576)), 0);
        lemma_told(s, 2, None);
        let d = place(s, 2)->0.detail;
        assert(d.subrange(0, start.len() as int) =~= start);
        lemma_said(s, 2, start);
    }
    if said(s, "Mostly single-threaded"@) {
        let c = numeric_of(s, "cpu_cores_used"@)->0;
        let start = "Averaged "@ + fixed(c, 1);
        lemma_told(s, 7, None);
        let d = place(s, 7)->0.detail;
        assert(d.subrange(0, start.len() as int) =~= start);
        lemma_said(s, 7, start);
    }
}

/// A run that is compute-bound is told its instructions per cycle, to a hundredth.
pub proof fn law_compute_bound_tells_the_ipc(s: Seq<MetricModel>)
    requires
        said(s, "Compute-bound"@),
    ensures
        numeric_of(s, "ipc"@) matches Some(i) && among(
            findings(s),
            "Compute-bound"@,
            "High IPC ("@ + fixed(i, 2) + ")"@,
        ),
{
    lemma_busy(s);
    let i = numeric_of(s, "ipc"@)->0;
    let c = compute_bound(numeric_of(s, "ipc"@), numeric_of(s, "llc_mpki"@));
    let start = "High IPC ("@ + fixed(i, 2) + ")"@;
    reveal_strlit(")");
    reveal_strlit(
        ") with low cache pressure — cores are well used. Look at vectorization (SIMD) and algorithmic improvements next.",
    );
    let d = c->0.detail;
    assert(d.subrange(0, start.len() as int) =~= start);
    lemma_among_one(c, "Compute-bound"@, start);
}

} // verus!
