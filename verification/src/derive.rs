//! Derivation engine: turns raw collected metrics into stable derived metrics,
//! independent of how the raw data was gathered.
//!
//! This is the layer that makes the profiler portable: backends emit raw,
//! vendor-specific counts; the derived metrics are computed here from whatever raw
//! inputs are present. Each derived metric is emitted only when its inputs exist and
//! its denominator is above zero, so partial data still yields a partial but correct
//! report.
//!
//! CPI, IPC, miss rates, MPKI and the branch-mispredict rate come directly from
//! measured counts. The memory-bound percentage is an estimate: it models stalls from
//! DRAM fills, or from last-level-cache misses where fills were not measured.

use crate::arithmetic::{
    law_nothing_stays, law_over_itself, law_products_grow, law_products_of_whole_numbers,
    law_quotients_grow, law_quotients_shrink,
};
use crate::bounds::{lemma_nonnegative, lemma_product_commutes, nonnegative};
use crate::double::{
    at_most, clamped, lemma_signed, lemma_units_order, lemma_units_zero, lemma_whole_exact, less,
    of_int, one_unit, product, quotient, Double, INF_MAG,
};
use crate::metric::{
    float_row, law_numeric_keeps, lemma_no_rows, lemma_numeric_rows, number_of, numeric_of,
    percent_metric, percent_row, rows, Metric, MetricModel, Rows, Snapshot, ValueModel,
};
use vstd::arithmetic::power2::lemma_pow2_pos;
use vstd::prelude::*;

verus! {

/// Approximate cycles lost per last-level-cache miss that reaches DRAM.
pub const LLC_MISS_PENALTY_CYCLES: u64 = 130;

/// Approximate cycles a demand DRAM fill stalls the pipeline.
pub const DRAM_FILL_PENALTY_CYCLES: u64 = 300;

/// Minimum demand fills before fill-source ratios are trustworthy (avoids dividing a
/// tiny number by a tiny number for non-memory workloads).
pub const MIN_FILLS_FOR_RATIO: u64 = 10000;

/// `part / whole`, where both are known and the whole is above zero.
pub open spec fn ratio(part: Option<Double>, whole: Option<Double>) -> Option<Double> {
    match (part, whole) {
        (Some(p), Some(w)) => if less(of_int(0), w) {
            Some(quotient(p, w))
        } else {
            None
        },
        _ => None,
    }
}

/// `part / whole`, where both are known and the whole is enough to trust the ratio.
pub open spec fn fill_ratio(part: Option<Double>, whole: Option<Double>) -> Option<Double> {
    match (part, whole) {
        (Some(p), Some(w)) => if at_most(of_int(MIN_FILLS_FOR_RATIO as int), w) {
            Some(quotient(p, w))
        } else {
            None
        },
        _ => None,
    }
}

/// A number times a whole one.
pub open spec fn times(x: Option<Double>, k: int) -> Option<Double> {
    match x {
        Some(x) => Some(product(x, of_int(k))),
        None => None,
    }
}

/// A number over a whole one.
pub open spec fn over(x: Option<Double>, k: int) -> Option<Double> {
    match x {
        Some(x) => Some(quotient(x, of_int(k))),
        None => None,
    }
}

/// The percentage of cycles lost to events that cost `penalty` cycles each.
pub open spec fn stall_percent(events: Double, penalty: int, cycles: Double) -> Double {
    clamped(
        product(quotient(product(events, of_int(penalty)), cycles), of_int(100)),
        of_int(0),
        of_int(100),
    )
}

/// Memory bound: from measured DRAM fills where there are any, else estimated from
/// last-level-cache misses.
pub open spec fn memory_bound(
    cycles: Option<Double>,
    fills_dram: Option<Double>,
    cache_misses: Option<Double>,
) -> Option<MetricModel> {
    match (cycles, fills_dram) {
        (Some(c), Some(dram)) => if less(of_int(0), c) {
            Some(
                percent_metric(
                    "memory_bound"@,
                    "Memory bound"@,
                    stall_percent(dram, DRAM_FILL_PENALTY_CYCLES as int, c),
                ),
            )
        } else {
            None
        },
        _ => match (cycles, cache_misses) {
            (Some(c), Some(miss)) => if less(of_int(0), c) {
                Some(
                    percent_metric(
                        "memory_bound_est"@,
                        "Memory bound (est.)"@,
                        stall_percent(miss, LLC_MISS_PENALTY_CYCLES as int, c),
                    ),
                )
            } else {
                None
            },
            _ => None,
        },
    }
}

/// The metrics that can be derived from a snapshot, in order; none where an input is
/// missing.
pub open spec fn candidates(s: Seq<MetricModel>) -> Seq<Option<MetricModel>> {
    let insns = numeric_of(s, "hw_instructions"@);
    let cycles = numeric_of(s, "hw_cpu_cycles"@);
    let cache_refs = numeric_of(s, "hw_cache_references"@);
    let cache_miss = numeric_of(s, "hw_cache_misses"@);
    let branches = numeric_of(s, "hw_branch_instructions"@);
    let branch_miss = numeric_of(s, "hw_branch_misses"@);
    let fills_all = numeric_of(s, "mem_fills_all"@);
    let fills_dram = numeric_of(s, "mem_fills_dram"@);
    let fills_remote = numeric_of(s, "mem_fills_remote"@);
    let elapsed = numeric_of(s, "elapsed_time"@);
    let cpu_time = numeric_of(s, "cpu_time"@);
    let dtlb_acc = numeric_of(s, "dtlb_accesses"@);
    let dtlb_miss = numeric_of(s, "dtlb_misses"@);
    let itlb_miss = numeric_of(s, "itlb_misses"@);
    let kilo = "per 1000 instructions"@;
    let rate = times(ratio(dtlb_miss, dtlb_acc), 100);
    let mpki = times(ratio(dtlb_miss, insns), 1000);
    let impki = times(ratio(itlb_miss, insns), 1000);
    let bandwidth = over(ratio(times(fills_dram, 64), elapsed), 1000000000);
    let clock = over(ratio(cycles, cpu_time), 1000000000);
    let misses = times(ratio(cache_miss, cache_refs), 100);
    let llc = times(ratio(cache_miss, insns), 1000);
    let mispredicted = times(ratio(branch_miss, branches), 100);
    let dpki = times(ratio(fills_dram, insns), 1000);
    let bound = times(fill_ratio(fills_dram, fills_all), 100);
    let remote = times(fill_ratio(fills_remote, fills_all), 100);
    seq![
        percent_row("dtlb_miss_rate"@, "dTLB miss rate"@, rate),
        float_row("dtlb_mpki"@, "data-TLB misses"@, mpki, kilo),
        float_row("itlb_mpki"@, "instruction-TLB misses"@, impki, kilo),
        float_row("dram_bandwidth_gbs"@, "DRAM bandwidth"@, bandwidth, "GB/s"@),
        float_row("cpu_freq_ghz"@, "Avg CPU frequency"@, clock, "GHz"@),
        float_row("cpi"@, "CPI (cycles/instruction)"@, ratio(cycles, insns), ""@),
        float_row("ipc"@, "IPC (instructions/cycle)"@, ratio(insns, cycles), ""@),
        percent_row("cache_miss_rate"@, "Cache miss rate"@, misses),
        float_row("llc_mpki"@, "last-level cache misses"@, llc, kilo),
        percent_row("branch_mispredict_rate"@, "Branch mispredict rate"@, mispredicted),
        float_row("dram_dpki"@, "DRAM fills"@, dpki, kilo),
        percent_row("dram_bound_pct"@, "DRAM-bound (of demand fills)"@, bound),
        percent_row("numa_remote_pct"@, "NUMA remote access"@, remote),
        memory_bound(cycles, fills_dram, cache_miss),
    ]
}

/// The derived metrics of a snapshot, in order.
pub open spec fn derived(s: Seq<MetricModel>) -> Seq<MetricModel> {
    rows(candidates(s))
}

fn ratio_of(part: Option<Double>, whole: Option<Double>) -> (r: Option<Double>)
    ensures
        r == ratio(part, whole),
{
    match (part, whole) {
        (Some(p), Some(w)) => if Double::from_u64(0).lt(w) {
            Some(p.over(w))
        } else {
            None
        },
        _ => None,
    }
}

fn fill_ratio_of(part: Option<Double>, whole: Option<Double>) -> (r: Option<Double>)
    ensures
        r == fill_ratio(part, whole),
{
    match (part, whole) {
        (Some(p), Some(w)) => if Double::from_u64(MIN_FILLS_FOR_RATIO).le(w) {
            Some(p.over(w))
        } else {
            None
        },
        _ => None,
    }
}

fn multiplied(x: Option<Double>, k: u64) -> (r: Option<Double>)
    ensures
        r == times(x, k as int),
{
    match x {
        Some(x) => Some(x.times(Double::from_u64(k))),
        None => None,
    }
}

fn divided(x: Option<Double>, k: u64) -> (r: Option<Double>)
    ensures
        r == over(x, k as int),
{
    match x {
        Some(x) => Some(x.over(Double::from_u64(k))),
        None => None,
    }
}

fn stalled(events: Double, penalty: u64, cycles: Double) -> (r: Double)
    ensures
        r == stall_percent(events, penalty as int, cycles),
{
    events.times(Double::from_u64(penalty)).over(cycles).times(Double::from_u64(100)).clamp(
        Double::from_u64(0),
        Double::from_u64(100),
    )
}

fn memory(
    cycles: Option<Double>,
    fills_dram: Option<Double>,
    cache_miss: Option<Double>,
) -> (r: Option<Metric>)
    ensures
        match r {
            Some(m) => memory_bound(cycles, fills_dram, cache_miss) == Some(m@),
            None => memory_bound(cycles, fills_dram, cache_miss) is None,
        },
{
    match (cycles, fills_dram) {
        (Some(c), Some(dram)) => {
            if Double::from_u64(0).lt(c) {
                let mb: Double = stalled(dram, DRAM_FILL_PENALTY_CYCLES, c);
                Some(Metric::percent("memory_bound", "Memory bound", mb))
            } else {
                None
            }
        },
        _ => match (cycles, cache_miss) {
            (Some(c), Some(miss)) => {
                if Double::from_u64(0).lt(c) {
                    let est: Double = stalled(miss, LLC_MISS_PENALTY_CYCLES, c);
                    Some(Metric::percent("memory_bound_est", "Memory bound (est.)", est))
                } else {
                    None
                }
            },
            _ => None,
        },
    }
}

/// Append derived metrics to `snapshot`, in place.
pub fn derive(snapshot: &mut Snapshot)
    ensures
        final(snapshot)@ == old(snapshot)@ + derived(old(snapshot)@),
{
    let insns: Option<Double> = snapshot.numeric("hw_instructions");
    let cycles: Option<Double> = snapshot.numeric("hw_cpu_cycles");
    let cache_refs: Option<Double> = snapshot.numeric("hw_cache_references");
    let cache_miss: Option<Double> = snapshot.numeric("hw_cache_misses");
    let branches: Option<Double> = snapshot.numeric("hw_branch_instructions");
    let branch_miss: Option<Double> = snapshot.numeric("hw_branch_misses");
    // Measured demand-fill data sources.
    let fills_all: Option<Double> = snapshot.numeric("mem_fills_all");
    let fills_dram: Option<Double> = snapshot.numeric("mem_fills_dram");
    let fills_remote: Option<Double> = snapshot.numeric("mem_fills_remote");
    let elapsed: Option<Double> = snapshot.numeric("elapsed_time");
    let cpu_time: Option<Double> = snapshot.numeric("cpu_time");
    let dtlb_acc: Option<Double> = snapshot.numeric("dtlb_accesses");
    let dtlb_miss: Option<Double> = snapshot.numeric("dtlb_misses");
    let itlb_miss: Option<Double> = snapshot.numeric("itlb_misses");
    let kilo: &'static str = "per 1000 instructions";

    let mut out: Rows = Rows::new();

    // TLB misses: page-walk pressure the cache and DRAM metrics don't capture.
    let rate: Option<Double> = multiplied(ratio_of(dtlb_miss, dtlb_acc), 100);
    out.percent("dtlb_miss_rate", "dTLB miss rate", rate);
    let mpki: Option<Double> = multiplied(ratio_of(dtlb_miss, insns), 1000);
    out.float("dtlb_mpki", "data-TLB misses", mpki, kilo);
    let impki: Option<Double> = multiplied(ratio_of(itlb_miss, insns), 1000);
    out.float("itlb_mpki", "instruction-TLB misses", impki, kilo);

    // Achieved DRAM bandwidth: demand DRAM fills of one cache line each.
    let bandwidth: Option<Double> = divided(
        ratio_of(multiplied(fills_dram, 64), elapsed),
        1000000000,
    );
    out.float("dram_bandwidth_gbs", "DRAM bandwidth", bandwidth, "GB/s");
    // Average core clock. Reveals throttling, an AVX-frequency offset, turbo.
    let clock: Option<Double> = divided(ratio_of(cycles, cpu_time), 1000000000);
    out.float("cpu_freq_ghz", "Avg CPU frequency", clock, "GHz");

    out.float("cpi", "CPI (cycles/instruction)", ratio_of(cycles, insns), "");
    out.float("ipc", "IPC (instructions/cycle)", ratio_of(insns, cycles), "");
    let misses: Option<Double> = multiplied(ratio_of(cache_miss, cache_refs), 100);
    out.percent("cache_miss_rate", "Cache miss rate", misses);
    let llc: Option<Double> = multiplied(ratio_of(cache_miss, insns), 1000);
    out.float("llc_mpki", "last-level cache misses", llc, kilo);
    let mispredicted: Option<Double> = multiplied(ratio_of(branch_miss, branches), 100);
    out.percent("branch_mispredict_rate", "Branch mispredict rate", mispredicted);

    // Measured memory hierarchy (demand-fill data sources).
    let dpki: Option<Double> = multiplied(ratio_of(fills_dram, insns), 1000);
    out.float("dram_dpki", "DRAM fills", dpki, kilo);
    let bound: Option<Double> = multiplied(fill_ratio_of(fills_dram, fills_all), 100);
    out.percent("dram_bound_pct", "DRAM-bound (of demand fills)", bound);
    let remote: Option<Double> = multiplied(fill_ratio_of(fills_remote, fills_all), 100);
    out.percent("numa_remote_pct", "NUMA remote access", remote);

    // Memory bound: measured DRAM fills where there are any, else all LLC misses.
    out.offer(memory(cycles, fills_dram, cache_miss));

    assert(out.offered@ =~= candidates(snapshot@));
    snapshot.extend(out.list);
}


// ------------------------------------------------------------------ laws

/// Without a raw counter there is nothing to derive.
pub proof fn law_nothing_from_nothing(s: Seq<MetricModel>)
    requires
        numeric_of(s, "hw_instructions"@) is None,
        numeric_of(s, "hw_cpu_cycles"@) is None,
        numeric_of(s, "hw_cache_references"@) is None,
        numeric_of(s, "hw_branch_instructions"@) is None,
        numeric_of(s, "mem_fills_dram"@) is None,
        numeric_of(s, "mem_fills_all"@) is None,
        numeric_of(s, "dtlb_accesses"@) is None,
    ensures
        derived(s) == Seq::<MetricModel>::empty(),
{
    crate::metric::lemma_rows_none(candidates(s));
}

/// The inputs of a derived metric: what is divided, and by what. None for a key that is
/// not derived.
pub open spec fn inputs_of(key: Seq<char>) -> Option<(Seq<char>, Seq<char>)> {
    if key == "dtlb_miss_rate"@ {
        Some(("dtlb_misses"@, "dtlb_accesses"@))
    } else if key == "dtlb_mpki"@ {
        Some(("dtlb_misses"@, "hw_instructions"@))
    } else if key == "itlb_mpki"@ {
        Some(("itlb_misses"@, "hw_instructions"@))
    } else if key == "dram_bandwidth_gbs"@ {
        Some(("mem_fills_dram"@, "elapsed_time"@))
    } else if key == "cpu_freq_ghz"@ {
        Some(("hw_cpu_cycles"@, "cpu_time"@))
    } else if key == "cpi"@ {
        Some(("hw_cpu_cycles"@, "hw_instructions"@))
    } else if key == "ipc"@ {
        Some(("hw_instructions"@, "hw_cpu_cycles"@))
    } else if key == "cache_miss_rate"@ {
        Some(("hw_cache_misses"@, "hw_cache_references"@))
    } else if key == "llc_mpki"@ {
        Some(("hw_cache_misses"@, "hw_instructions"@))
    } else if key == "branch_mispredict_rate"@ {
        Some(("hw_branch_misses"@, "hw_branch_instructions"@))
    } else if key == "dram_dpki"@ {
        Some(("mem_fills_dram"@, "hw_instructions"@))
    } else if key == "dram_bound_pct"@ {
        Some(("mem_fills_dram"@, "mem_fills_all"@))
    } else if key == "numa_remote_pct"@ {
        Some(("mem_fills_remote"@, "mem_fills_all"@))
    } else if key == "memory_bound"@ {
        Some(("mem_fills_dram"@, "hw_cpu_cycles"@))
    } else if key == "memory_bound_est"@ {
        Some(("hw_cache_misses"@, "hw_cpu_cycles"@))
    } else {
        None
    }
}

/// Whether a number can be divided by: it is above zero or, for a ratio of fills, enough
/// to trust the ratio.
pub open spec fn divides(key: Seq<char>, whole: Double) -> bool {
    if key == "dram_bound_pct"@ || key == "numa_remote_pct"@ {
        at_most(of_int(MIN_FILLS_FOR_RATIO as int), whole)
    } else {
        less(of_int(0), whole)
    }
}

/// Whether a metric can be derived: its inputs are known, and its denominator is one. The
/// estimate of memory bound gives way to the measured fills.
pub open spec fn has_inputs(s: Seq<MetricModel>, key: Seq<char>) -> bool {
    match inputs_of(key) {
        Some((part, whole)) => {
            &&& numeric_of(s, part) is Some
            &&& numeric_of(s, whole) matches Some(w) && divides(key, w)
            &&& key == "memory_bound_est"@ ==> numeric_of(s, "mem_fills_dram"@) is None
        },
        None => false,
    }
}

/// Where a derived metric stands among the candidates.
spec fn place_of_key(key: Seq<char>) -> int {
    if key == "dtlb_miss_rate"@ {
        0
    } else if key == "dtlb_mpki"@ {
        1
    } else if key == "itlb_mpki"@ {
        2
    } else if key == "dram_bandwidth_gbs"@ {
        3
    } else if key == "cpu_freq_ghz"@ {
        4
    } else if key == "cpi"@ {
        5
    } else if key == "ipc"@ {
        6
    } else if key == "cache_miss_rate"@ {
        7
    } else if key == "llc_mpki"@ {
        8
    } else if key == "branch_mispredict_rate"@ {
        9
    } else if key == "dram_dpki"@ {
        10
    } else if key == "dram_bound_pct"@ {
        11
    } else if key == "numa_remote_pct"@ {
        12
    } else if key == "memory_bound"@ || key == "memory_bound_est"@ {
        13
    } else {
        -1
    }
}

pub proof fn lemma_keys()
    ensures
        "cpi"@.len() == 3 && "ipc"@.len() == 3 && "cpi"@ != "ipc"@,
        "cache_miss_rate"@.len() == 15,
        "branch_mispredict_rate"@.len() == 22,
        "dram_bandwidth_gbs"@.len() == 18,
        "memory_bound"@.len() == 12 && "memory_bound_est"@.len() == 16,
        "dtlb_miss_rate"@.len() == 14,
        "dtlb_mpki"@.len() == 9 && "itlb_mpki"@.len() == 9 && "dtlb_mpki"@ != "itlb_mpki"@,
        "cpu_freq_ghz"@.len() == 12 && "cpu_freq_ghz"@ != "memory_bound"@,
        "llc_mpki"@.len() == 8,
        "dram_dpki"@.len() == 9 && "dram_dpki"@ != "dtlb_mpki"@ && "dram_dpki"@ != "itlb_mpki"@,
        "dram_bound_pct"@.len() == 14 && "dram_bound_pct"@ != "dtlb_miss_rate"@,
        "numa_remote_pct"@.len() == 15 && "numa_remote_pct"@ != "cache_miss_rate"@,
{
    reveal_strlit("cpi");
    reveal_strlit("ipc");
    reveal_strlit("cache_miss_rate");
    reveal_strlit("branch_mispredict_rate");
    reveal_strlit("dram_bandwidth_gbs");
    reveal_strlit("memory_bound");
    reveal_strlit("memory_bound_est");
    reveal_strlit("dtlb_miss_rate");
    reveal_strlit("dtlb_mpki");
    reveal_strlit("itlb_mpki");
    reveal_strlit("cpu_freq_ghz");
    reveal_strlit("llc_mpki");
    reveal_strlit("dram_dpki");
    reveal_strlit("dram_bound_pct");
    reveal_strlit("numa_remote_pct");
    assert("cpi"@[0] != "ipc"@[0]);
    assert("dtlb_mpki"@[0] != "itlb_mpki"@[0]);
    assert("dram_dpki"@[1] != "dtlb_mpki"@[1]);
    assert("dram_dpki"@[0] != "itlb_mpki"@[0]);
    assert("dram_bound_pct"@[1] != "dtlb_miss_rate"@[1]);
    assert("cpu_freq_ghz"@[0] != "memory_bound"@[0]);
    assert("numa_remote_pct"@[0] != "cache_miss_rate"@[0]);
}

/// A candidate has the key of its place, and can be derived.
#[verifier::rlimit(40)]
proof fn lemma_candidate(s: Seq<MetricModel>, j: int)
    requires
        0 <= j < 14,
        candidates(s)[j] is Some,
    ensures
        place_of_key(candidates(s)[j]->0.key) == j,
        has_inputs(s, candidates(s)[j]->0.key),
{
    lemma_keys();
    if j <= 6 {
        assert(j == 0 || j == 1 || j == 2 || j == 3 || j == 4 || j == 5 || j == 6);
    } else {
        assert(j == 7 || j == 8 || j == 9 || j == 10 || j == 11 || j == 12 || j == 13);
    }
}

/// What can be derived is a candidate.
#[verifier::rlimit(40)]
proof fn lemma_derivable(s: Seq<MetricModel>, key: Seq<char>)
    requires
        has_inputs(s, key),
    ensures
        0 <= place_of_key(key) < 14,
        candidates(s)[place_of_key(key)] matches Some(m) && m.key == key,
{
    lemma_keys();
    let j = place_of_key(key);
    assert(0 <= j < 14);
    let v = candidates(s);
    if j == 0 {
        assert(v[0] is Some);
    } else if j == 1 {
        assert(v[1] is Some);
    } else if j == 2 {
        assert(v[2] is Some);
    } else if j == 3 {
        assert(v[3] is Some);
    } else if j == 4 {
        assert(v[4] is Some);
    } else if j == 5 {
        assert(v[5] is Some);
    } else if j == 6 {
        assert(v[6] is Some);
    } else if j == 7 {
        assert(v[7] is Some);
    } else if j == 8 {
        assert(v[8] is Some);
    } else if j == 9 {
        assert(v[9] is Some);
    } else if j == 10 {
        assert(v[10] is Some);
    } else if j == 11 {
        assert(v[11] is Some);
    } else if j == 12 {
        assert(v[12] is Some);
    } else {
        assert(v[13] is Some);
    }
}

/// A derived metric is emitted only when its inputs exist and it can be divided by its
/// denominator, and no other metric is.
pub proof fn law_inputs_exist(s: Seq<MetricModel>, i: int)
    requires
        0 <= i < derived(s).len(),
    ensures
        has_inputs(s, derived(s)[i].key),
{
    let j = crate::metric::lemma_rows_from(candidates(s), i);
    lemma_candidate(s, j);
}

/// Every metric is derived whose inputs exist and whose denominator can be divided by.
#[verifier::rlimit(40)]
pub proof fn law_derived_where_possible(s: Seq<MetricModel>, key: Seq<char>)
    ensures
        numeric_of(derived(s), key) is Some <==> has_inputs(s, key),
{
    let v = candidates(s);
    assert(v.len() == 14);
    assert forall|k: int| 0 <= k < v.len() implies (#[trigger] v[k] matches Some(m)
        ==> place_of_key(m.key) == k && has_inputs(s, m.key)) by {
        if v[k] is Some {
            lemma_candidate(s, k);
        }
    }
    if has_inputs(s, key) {
        lemma_derivable(s, key);
        crate::metric::lemma_numeric_rows(v, key, place_of_key(key));
    } else {
        crate::metric::lemma_no_rows(v, key);
    }
}

/// IPC is instructions over cycles and CPI is cycles over instructions, of the
/// snapshot's own counts.
pub proof fn law_ipc_and_cpi(s: Seq<MetricModel>)
    requires
        numeric_of(s, "ipc"@) is None,
        numeric_of(s, "cpi"@) is None,
    ensures
        numeric_of(s + derived(s), "ipc"@) == ratio(
            numeric_of(s, "hw_instructions"@),
            numeric_of(s, "hw_cpu_cycles"@),
        ),
        numeric_of(s + derived(s), "cpi"@) == ratio(
            numeric_of(s, "hw_cpu_cycles"@),
            numeric_of(s, "hw_instructions"@),
        ),
{
    lemma_keys();
    let v = candidates(s);
    crate::metric::law_numeric_keeps(s, derived(s), "ipc"@);
    crate::metric::law_numeric_keeps(s, derived(s), "cpi"@);
    assert(v.len() == 14);
    crate::metric::lemma_numeric_rows(v, "cpi"@, 5);
    crate::metric::lemma_numeric_rows(v, "ipc"@, 6);
}

/// The memory-bound percentage is between 0 and 100, of counts that are numbers.
pub proof fn law_memory_bound_is_a_percentage(events: Double, penalty: int, cycles: Double)
    requires
        !product(quotient(product(events, of_int(penalty)), cycles), of_int(100)).is_nan(),
    ensures
        at_most(of_int(0), stall_percent(events, penalty, cycles)),
        at_most(stall_percent(events, penalty, cycles), of_int(100)),
{
    crate::double::lemma_held(
        product(quotient(product(events, of_int(penalty)), cycles), of_int(100)),
        100,
    );
}

// ------------------------------------------------------------------ what is derived

/// So many parts per `k` of a whole; none where either is unknown or the whole is not above
/// zero.
pub open spec fn per(k: int, part: Option<Double>, whole: Option<Double>) -> Option<Double> {
    match (part, whole) {
        (Some(p), Some(w)) => if less(of_int(0), w) {
            Some(product(quotient(p, w), of_int(k)))
        } else {
            None
        },
        _ => None,
    }
}

/// What the key reads of a snapshot that did not have it, once derived.
proof fn lemma_derived_at(s: Seq<MetricModel>, key: Seq<char>)
    requires
        0 <= place_of_key(key) < 13,
        numeric_of(s, key) is None,
    ensures
        numeric_of(s + derived(s), key) == match candidates(s)[place_of_key(key)] {
            Some(m) => Some(number_of(m.value)),
            None => None,
        },
{
    let v = candidates(s);
    assert(v.len() == 14);
    assert forall|k: int| 0 <= k < v.len() implies (#[trigger] v[k] matches Some(m)
        ==> place_of_key(m.key) == k) by {
        if v[k] is Some {
            lemma_candidate(s, k);
        }
    }
    let j = place_of_key(key);
    if v[j] is Some {
        lemma_key_at(s, j, key);
    }
    law_numeric_keeps(s, derived(s), key);
    lemma_numeric_rows(v, key, j);
}

/// A place before the last has one key.
proof fn lemma_key_at(s: Seq<MetricModel>, j: int, key: Seq<char>)
    requires
        0 <= j < 13,
        place_of_key(key) == j,
        candidates(s)[j] is Some,
    ensures
        candidates(s)[j]->0.key == key,
{
    lemma_keys();
    if j <= 6 {
        assert(j == 0 || j == 1 || j == 2 || j == 3 || j == 4 || j == 5 || j == 6);
    } else {
        assert(j == 7 || j == 8 || j == 9 || j == 10 || j == 11 || j == 12);
    }
}

/// The rates are percentages: of the data-TLB's accesses that missed, of the cache references
/// that missed, and of the branches that were mispredicted.
pub proof fn law_rates_are_percentages(s: Seq<MetricModel>)
    requires
        numeric_of(s, "dtlb_miss_rate"@) is None,
        numeric_of(s, "cache_miss_rate"@) is None,
        numeric_of(s, "branch_mispredict_rate"@) is None,
    ensures
        numeric_of(s + derived(s), "dtlb_miss_rate"@) == per(
            100,
            numeric_of(s, "dtlb_misses"@),
            numeric_of(s, "dtlb_accesses"@),
        ),
        numeric_of(s + derived(s), "cache_miss_rate"@) == per(
            100,
            numeric_of(s, "hw_cache_misses"@),
            numeric_of(s, "hw_cache_references"@),
        ),
        numeric_of(s + derived(s), "branch_mispredict_rate"@) == per(
            100,
            numeric_of(s, "hw_branch_misses"@),
            numeric_of(s, "hw_branch_instructions"@),
        ),
{
    lemma_keys();
    lemma_derived_at(s, "dtlb_miss_rate"@);
    lemma_derived_at(s, "cache_miss_rate"@);
    lemma_derived_at(s, "branch_mispredict_rate"@);
}

/// Misses and fills are told per thousand instructions.
pub proof fn law_misses_are_per_thousand_instructions(s: Seq<MetricModel>)
    requires
        numeric_of(s, "dtlb_mpki"@) is None,
        numeric_of(s, "itlb_mpki"@) is None,
        numeric_of(s, "llc_mpki"@) is None,
        numeric_of(s, "dram_dpki"@) is None,
    ensures
        numeric_of(s + derived(s), "dtlb_mpki"@) == per(
            1000,
            numeric_of(s, "dtlb_misses"@),
            numeric_of(s, "hw_instructions"@),
        ),
        numeric_of(s + derived(s), "itlb_mpki"@) == per(
            1000,
            numeric_of(s, "itlb_misses"@),
            numeric_of(s, "hw_instructions"@),
        ),
        numeric_of(s + derived(s), "llc_mpki"@) == per(
            1000,
            numeric_of(s, "hw_cache_misses"@),
            numeric_of(s, "hw_instructions"@),
        ),
        numeric_of(s + derived(s), "dram_dpki"@) == per(
            1000,
            numeric_of(s, "mem_fills_dram"@),
            numeric_of(s, "hw_instructions"@),
        ),
{
    lemma_keys();
    lemma_derived_at(s, "dtlb_mpki"@);
    lemma_derived_at(s, "itlb_mpki"@);
    lemma_derived_at(s, "llc_mpki"@);
    lemma_derived_at(s, "dram_dpki"@);
}

/// The sources of fills are percentages of all fills, told from ten thousand fills on.
pub proof fn law_fill_sources_are_percentages_of_all_fills(s: Seq<MetricModel>)
    requires
        numeric_of(s, "dram_bound_pct"@) is None,
        numeric_of(s, "numa_remote_pct"@) is None,
    ensures
        numeric_of(s + derived(s), "dram_bound_pct"@) == match (
            numeric_of(s, "mem_fills_dram"@),
            numeric_of(s, "mem_fills_all"@),
        ) {
            (Some(d), Some(w)) => if at_most(of_int(10000), w) {
                Some(product(quotient(d, w), of_int(100)))
            } else {
                None
            },
            _ => None,
        },
        numeric_of(s + derived(s), "numa_remote_pct"@) == match (
            numeric_of(s, "mem_fills_remote"@),
            numeric_of(s, "mem_fills_all"@),
        ) {
            (Some(r), Some(w)) => if at_most(of_int(10000), w) {
                Some(product(quotient(r, w), of_int(100)))
            } else {
                None
            },
            _ => None,
        },
{
    lemma_keys();
    lemma_derived_at(s, "dram_bound_pct"@);
    lemma_derived_at(s, "numa_remote_pct"@);
}

/// Bandwidth is a line of 64 bytes per fill from memory, over the elapsed seconds; frequency is
/// cycles over CPU seconds; both in units of a thousand million.
pub proof fn law_bandwidth_and_frequency_are_per_second(s: Seq<MetricModel>)
    requires
        numeric_of(s, "dram_bandwidth_gbs"@) is None,
        numeric_of(s, "cpu_freq_ghz"@) is None,
    ensures
        numeric_of(s + derived(s), "dram_bandwidth_gbs"@) == match (
            numeric_of(s, "mem_fills_dram"@),
            numeric_of(s, "elapsed_time"@),
        ) {
            (Some(d), Some(t)) => if less(of_int(0), t) {
                Some(quotient(quotient(product(d, of_int(64)), t), of_int(1000000000)))
            } else {
                None
            },
            _ => None,
        },
        numeric_of(s + derived(s), "cpu_freq_ghz"@) == match (
            numeric_of(s, "hw_cpu_cycles"@),
            numeric_of(s, "cpu_time"@),
        ) {
            (Some(c), Some(t)) => if less(of_int(0), t) {
                Some(quotient(quotient(c, t), of_int(1000000000)))
            } else {
                None
            },
            _ => None,
        },
{
    lemma_keys();
    lemma_derived_at(s, "dram_bandwidth_gbs"@);
    lemma_derived_at(s, "cpu_freq_ghz"@);
}

/// Where everything counted is a miss, the rate is 100.
pub proof fn law_all_of_a_whole_is_everything(k: nat, x: Double)
    requires
        k < 9007199254740992,
        x.is_finite(),
        less(of_int(0), x),
    ensures
        per(k as int, Some(x), Some(x)) == Some(of_int(k as int)),
{
    lemma_nonnegative(x);
    lemma_whole_exact(0);
    lemma_units_zero();
    law_over_itself(x);
    law_products_of_whole_numbers(1, k);
}

/// A percentage held: what it is between 0 and 100, and the nearer of the two outside.
pub open spec fn is_held(v: Double, x: Double) -> bool {
    &&& at_most(of_int(0), x) && at_most(x, of_int(100)) ==> v == x
    &&& less(x, of_int(0)) ==> v == of_int(0)
    &&& less(of_int(100), x) ==> v == of_int(100)
}

/// What the place of memory bound reads.
proof fn lemma_memory_at(s: Seq<MetricModel>, key: Seq<char>)
    requires
        key == "memory_bound"@ || key == "memory_bound_est"@,
        numeric_of(s, key) is None,
    ensures
        numeric_of(s + derived(s), key) == match candidates(s)[13] {
            Some(m) => if m.key == key {
                Some(number_of(m.value))
            } else {
                None
            },
            None => None,
        },
{
    lemma_keys();
    let v = candidates(s);
    assert(v.len() == 14);
    assert forall|k: int| 0 <= k < v.len() implies (#[trigger] v[k] matches Some(m)
        ==> place_of_key(m.key) == k) by {
        if v[k] is Some {
            lemma_candidate(s, k);
        }
    }
    assert(place_of_key(key) == 13);
    law_numeric_keeps(s, derived(s), key);
    if v[13] is None || v[13]->0.key == key {
        lemma_numeric_rows(v, key, 13);
    } else {
        lemma_no_rows(v, key);
    }
}

/// Of `c` cycles, each fill from memory costs 300: memory bound is the percentage of the cycles
/// lost to `d` fills, held between 0 and 100.
pub proof fn law_memory_bound_is_the_share_of_cycles_lost(
    s: Seq<MetricModel>,
    c: Double,
    d: Double,
)
    requires
        numeric_of(s, "hw_cpu_cycles"@) == Some(c),
        less(of_int(0), c),
        numeric_of(s, "mem_fills_dram"@) == Some(d),
        numeric_of(s, "memory_bound"@) is None,
    ensures
        numeric_of(s + derived(s), "memory_bound"@) matches Some(v) && is_held(
            v,
            product(quotient(product(d, of_int(300)), c), of_int(100)),
        ),
        d.num() == 0 ==> (numeric_of(s + derived(s), "memory_bound"@) matches Some(v) && v.num()
            == 0),
{
    lemma_memory_at(s, "memory_bound"@);
    lemma_positive(100);
    lemma_whole_exact(0);
    assert(0 * one_unit() == 0) by (nonlinear_arith);
    if d.num() == 0 {
        lemma_no_stall(d, 300, c);
    }
}

/// Where fills are not measured, memory bound is estimated: each last-level miss costs 130
/// cycles. Where they are, there is no estimate.
pub proof fn law_memory_bound_is_estimated_from_misses(s: Seq<MetricModel>, c: Double, m: Double)
    requires
        numeric_of(s, "hw_cpu_cycles"@) == Some(c),
        less(of_int(0), c),
        numeric_of(s, "hw_cache_misses"@) == Some(m),
        numeric_of(s, "memory_bound_est"@) is None,
    ensures
        numeric_of(s, "mem_fills_dram"@) is None ==> (numeric_of(
            s + derived(s),
            "memory_bound_est"@,
        ) matches Some(v) && is_held(
            v,
            product(quotient(product(m, of_int(130)), c), of_int(100)),
        )),
        numeric_of(s, "mem_fills_dram"@) is None && m.num() == 0 ==> (numeric_of(
            s + derived(s),
            "memory_bound_est"@,
        ) matches Some(v) && v.num() == 0),
        numeric_of(s, "mem_fills_dram"@) is Some ==> numeric_of(
            s + derived(s),
            "memory_bound_est"@,
        ) is None,
{
    lemma_keys();
    lemma_memory_at(s, "memory_bound_est"@);
    lemma_positive(100);
    lemma_whole_exact(0);
    assert(0 * one_unit() == 0) by (nonlinear_arith);
    if m.num() == 0 {
        lemma_no_stall(m, 130, c);
    }
}

/// Without events nothing is lost.
proof fn lemma_no_stall(events: Double, penalty: nat, cycles: Double)
    requires
        events.num() == 0,
        0 < penalty < 9007199254740992,
        less(of_int(0), cycles),
    ensures
        stall_percent(events, penalty as int, cycles).num() == 0,
{
    lemma_positive(penalty);
    lemma_positive(100);
    lemma_whole_exact(0);
    let lost = product(events, of_int(penalty as int));
    law_nothing_stays(events, of_int(penalty as int));
    if cycles.is_finite() {
        law_nothing_stays(lost, cycles);
    } else {
        lemma_units_zero();
        lemma_units_order(0, lost.mag());
        lemma_signed(lost.neg() != cycles.neg(), 0);
    }
    law_nothing_stays(quotient(lost, cycles), of_int(100));
    assert(0 * one_unit() == 0) by (nonlinear_arith);
}

proof fn lemma_positive(n: nat)
    requires
        0 < n < 9007199254740992,
    ensures
        of_int(n as int).is_finite(),
        of_int(n as int).num() > 0,
{
    lemma_whole_exact(n as int);
    lemma_pow2_pos(1074);
    assert(n * one_unit() > 0) by (nonlinear_arith)
        requires
            n > 0,
            one_unit() > 0,
    ;
}

/// What a derived metric is of its part and its whole.
spec fn shape(key: Seq<char>, p: Double, w: Double) -> Double {
    if key == "dram_bandwidth_gbs"@ {
        quotient(quotient(product(p, of_int(64)), w), of_int(1000000000))
    } else if key == "cpu_freq_ghz"@ {
        quotient(quotient(p, w), of_int(1000000000))
    } else if key == "cpi"@ || key == "ipc"@ {
        quotient(p, w)
    } else if key == "memory_bound"@ {
        stall_percent(p, 300, w)
    } else if key == "memory_bound_est"@ {
        stall_percent(p, 130, w)
    } else if key == "dtlb_miss_rate"@ || key == "cache_miss_rate"@ || key
        == "branch_mispredict_rate"@ || key == "dram_bound_pct"@ || key == "numa_remote_pct"@ {
        product(quotient(p, w), of_int(100))
    } else {
        product(quotient(p, w), of_int(1000))
    }
}

proof fn lemma_shape(
    s: Seq<MetricModel>,
    key: Seq<char>,
    part: Seq<char>,
    whole: Seq<char>,
    p: Double,
    w: Double,
)
    requires
        inputs_of(key) == Some((part, whole)),
        has_inputs(s, key),
        numeric_of(s, part) == Some(p),
        numeric_of(s, whole) == Some(w),
    ensures
        numeric_of(derived(s), key) == Some(shape(key, p, w)),
{
    lemma_keys();
    let v = candidates(s);
    assert(v.len() == 14);
    lemma_derivable(s, key);
    assert forall|k: int| 0 <= k < v.len() implies (#[trigger] v[k] matches Some(m)
        ==> place_of_key(m.key) == k) by {
        if v[k] is Some {
            lemma_candidate(s, k);
        }
    }
    let j = place_of_key(key);
    lemma_numeric_rows(v, key, j);
    if j <= 6 {
        lemma_shape_low(s, key, part, whole, p, w);
    } else {
        lemma_shape_high(s, key, part, whole, p, w);
    }
}

#[verifier::rlimit(40)]
proof fn lemma_shape_low(
    s: Seq<MetricModel>,
    key: Seq<char>,
    part: Seq<char>,
    whole: Seq<char>,
    p: Double,
    w: Double,
)
    requires
        inputs_of(key) == Some((part, whole)),
        has_inputs(s, key),
        numeric_of(s, part) == Some(p),
        numeric_of(s, whole) == Some(w),
        place_of_key(key) <= 6,
    ensures
        number_of(candidates(s)[place_of_key(key)]->0.value) == shape(key, p, w),
{
    lemma_keys();
    let j = place_of_key(key);
    assert(j == 0 || j == 1 || j == 2 || j == 3 || j == 4 || j == 5 || j == 6);
}

#[verifier::rlimit(40)]
proof fn lemma_shape_high(
    s: Seq<MetricModel>,
    key: Seq<char>,
    part: Seq<char>,
    whole: Seq<char>,
    p: Double,
    w: Double,
)
    requires
        inputs_of(key) == Some((part, whole)),
        has_inputs(s, key),
        numeric_of(s, part) == Some(p),
        numeric_of(s, whole) == Some(w),
        place_of_key(key) > 6,
    ensures
        number_of(candidates(s)[place_of_key(key)]->0.value) == shape(key, p, w),
{
    lemma_keys();
    let j = place_of_key(key);
    assert(j == 7 || j == 8 || j == 9 || j == 10 || j == 11 || j == 12 || j == 13);
}

/// A whole that can be divided by is above zero.
proof fn lemma_divides(key: Seq<char>, w: Double)
    requires
        divides(key, w),
    ensures
        !w.is_nan(),
        w.num() > 0,
{
    lemma_whole_exact(0);
    lemma_positive(10000);
}

/// More of a part over the same whole: what is derived does not fall.
#[verifier::rlimit(40)]
pub proof fn law_derived_grow_with_their_part(
    s: Seq<MetricModel>,
    t: Seq<MetricModel>,
    key: Seq<char>,
    part: Seq<char>,
    whole: Seq<char>,
    p: Double,
    q: Double,
    w: Double,
)
    requires
        inputs_of(key) == Some((part, whole)),
        has_inputs(s, key),
        has_inputs(t, key),
        numeric_of(s, part) == Some(p),
        numeric_of(t, part) == Some(q),
        numeric_of(s, whole) == Some(w),
        numeric_of(t, whole) == Some(w),
        nonnegative(p),
        at_most(p, q),
        w.is_finite(),
    ensures
        numeric_of(derived(s), key) matches Some(x) && numeric_of(derived(t), key) matches Some(y)
            && at_most(x, y),
{
    lemma_shape(s, key, part, whole, p, w);
    lemma_shape(t, key, part, whole, q, w);
    lemma_divides(key, w);
    lemma_positive(64);
    lemma_positive(100);
    lemma_positive(130);
    lemma_positive(300);
    lemma_positive(1000);
    lemma_positive(1000000000);
    law_quotients_grow(p, q, w);
    let (a, b) = (quotient(p, w), quotient(q, w));
    law_products_grow(a, b, of_int(100));
    law_products_grow(a, b, of_int(1000));
    law_quotients_grow(a, b, of_int(1000000000));
    law_products_grow(p, q, of_int(64));
    let (a, b) = (product(p, of_int(64)), product(q, of_int(64)));
    law_quotients_grow(a, b, w);
    law_quotients_grow(quotient(a, w), quotient(b, w), of_int(1000000000));
    lemma_stalls_grow(p, q, 300, w);
    lemma_stalls_grow(p, q, 130, w);
}

proof fn lemma_stalls_grow(p: Double, q: Double, penalty: nat, w: Double)
    requires
        nonnegative(p),
        at_most(p, q),
        w.is_finite(),
        w.num() > 0,
        0 < penalty < 9007199254740992,
    ensures
        at_most(stall_percent(p, penalty as int, w), stall_percent(q, penalty as int, w)),
{
    lemma_positive(penalty);
    lemma_positive(100);
    lemma_whole_exact(0);
    let k = of_int(penalty as int);
    law_products_grow(p, q, k);
    law_quotients_grow(product(p, k), product(q, k), w);
    law_products_grow(
        quotient(product(p, k), w),
        quotient(product(q, k), w),
        of_int(100),
    );
}

/// The same part over a larger whole: what is derived does not grow.
#[verifier::rlimit(40)]
pub proof fn law_derived_shrink_with_their_whole(
    s: Seq<MetricModel>,
    t: Seq<MetricModel>,
    key: Seq<char>,
    part: Seq<char>,
    whole: Seq<char>,
    p: Double,
    w: Double,
    x: Double,
)
    requires
        inputs_of(key) == Some((part, whole)),
        has_inputs(s, key),
        has_inputs(t, key),
        numeric_of(s, part) == Some(p),
        numeric_of(t, part) == Some(p),
        numeric_of(s, whole) == Some(w),
        numeric_of(t, whole) == Some(x),
        nonnegative(p),
        product(p, of_int(300)).is_finite(),
        at_most(w, x),
        x.is_finite(),
    ensures
        numeric_of(derived(s), key) matches Some(a) && numeric_of(derived(t), key) matches Some(b)
            && at_most(b, a),
{
    lemma_shape(s, key, part, whole, p, w);
    lemma_shape(t, key, part, whole, p, x);
    lemma_divides(key, w);
    lemma_positive(64);
    lemma_positive(100);
    lemma_positive(1000);
    lemma_positive(1000000000);
    lemma_smaller_factor(p, 64);
    lemma_smaller_factor(p, 130);
    lemma_smaller_factor(p, 300);
    lemma_finite_factor(p);
    law_quotients_shrink(p, w, x);
    let (a, b) = (quotient(p, x), quotient(p, w));
    law_products_grow(a, b, of_int(100));
    law_products_grow(a, b, of_int(1000));
    law_quotients_grow(a, b, of_int(1000000000));
    let y = product(p, of_int(64));
    law_quotients_shrink(y, w, x);
    law_quotients_grow(quotient(y, x), quotient(y, w), of_int(1000000000));
    lemma_stalls_shrink(p, 300, w, x);
    lemma_stalls_shrink(p, 130, w, x);
}

proof fn lemma_stalls_shrink(p: Double, penalty: nat, w: Double, x: Double)
    requires
        nonnegative(product(p, of_int(penalty as int))),
        product(p, of_int(penalty as int)).is_finite(),
        w.num() > 0,
        at_most(w, x),
        x.is_finite(),
    ensures
        at_most(stall_percent(p, penalty as int, x), stall_percent(p, penalty as int, w)),
{
    lemma_positive(100);
    lemma_whole_exact(0);
    let y = product(p, of_int(penalty as int));
    law_quotients_shrink(y, w, x);
    law_products_grow(quotient(y, x), quotient(y, w), of_int(100));
}

/// A factor of at most 300 gives a finite number where 300 does.
proof fn lemma_smaller_factor(p: Double, n: nat)
    requires
        nonnegative(p),
        product(p, of_int(300)).is_finite(),
        0 < n <= 300,
    ensures
        product(p, of_int(n as int)).is_finite(),
        nonnegative(product(p, of_int(n as int))),
{
    lemma_positive(n);
    lemma_positive(300);
    lemma_finite_factor(p);
    lemma_whole_exact(n as int);
    lemma_whole_exact(300);
    assert(n * one_unit() <= 300 * one_unit()) by (nonlinear_arith)
        requires
            n <= 300,
    ;
    let (a, b) = (of_int(n as int), of_int(300));
    assert(at_most(a, b));
    lemma_nonnegative(a);
    if p.num() == 0 {
        law_nothing_stays(p, a);
        lemma_nonnegative(product(p, a));
    } else {
        lemma_nonnegative(p);
        law_products_grow(a, b, p);
        lemma_product_commutes(a, p);
        lemma_product_commutes(b, p);
        lemma_below_finite(product(p, a), product(p, b));
    }
}

proof fn lemma_below_finite(a: Double, b: Double)
    requires
        nonnegative(a),
        at_most(a, b),
        b.is_finite(),
    ensures
        a.is_finite(),
{
    lemma_nonnegative(a);
    lemma_nonnegative(b);
    lemma_units_zero();
    lemma_units_order(a.mag(), b.mag());
    lemma_units_order(b.mag(), a.mag());
    lemma_units_order(0, b.mag());
}

/// A number whose multiple is finite is finite.
proof fn lemma_finite_factor(p: Double)
    requires
        product(p, of_int(300)).is_finite(),
    ensures
        p.is_finite(),
{
    lemma_positive(300);
    lemma_signed(p.neg(), INF_MAG as nat);
}

/// Rates and shares are percentages. The others are numbers: misses per thousand instructions,
/// bandwidth in GB/s, frequency in GHz, and ratios of cycles and instructions without a unit.
#[verifier::rlimit(40)]
pub proof fn law_derived_metrics_have_their_units(s: Seq<MetricModel>, i: int)
    requires
        0 <= i < derived(s).len(),
    ensures
        ({
            let m = derived(s)[i];
            let unit = match m.value {
                ValueModel::Float { unit, .. } => unit,
                ValueModel::Percent(_) => "%"@,
                _ => "?"@,
            };
            &&& m.key == "dtlb_miss_rate"@ || m.key == "cache_miss_rate"@ || m.key
                == "branch_mispredict_rate"@ || m.key == "dram_bound_pct"@ || m.key
                == "numa_remote_pct"@ || m.key == "memory_bound"@ || m.key == "memory_bound_est"@
                ==> m.value is Percent
            &&& m.key == "dtlb_mpki"@ || m.key == "itlb_mpki"@ || m.key == "llc_mpki"@ || m.key
                == "dram_dpki"@ ==> m.value is Float && unit == "per 1000 instructions"@
            &&& m.key == "dram_bandwidth_gbs"@ ==> m.value is Float && unit == "GB/s"@
            &&& m.key == "cpu_freq_ghz"@ ==> m.value is Float && unit == "GHz"@
            &&& m.key == "cpi"@ || m.key == "ipc"@ ==> m.value is Float && unit == ""@
        }),
{
    let j = crate::metric::lemma_rows_from(candidates(s), i);
    lemma_candidate(s, j);
    lemma_keys();
    if j <= 6 {
        assert(j == 0 || j == 1 || j == 2 || j == 3 || j == 4 || j == 5 || j == 6);
    } else {
        assert(j == 7 || j == 8 || j == 9 || j == 10 || j == 11 || j == 12 || j == 13);
    }
}

} // verus!
