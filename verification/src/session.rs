//! A profiling session: what is noticed while the target runs, and the snapshot that the
//! collectors' metrics make.

use crate::aggregate::{aggregate, Aggregate, AggregateError, RankFile};
use crate::aggregate::{
    aggregated, files_of, headings, law_snapshot_reads_back, listings_are_read, rank_of, ranks_in,
    rows_read, short_note, times_fit, values_fit, world_size,
};
use crate::decimal::{dec_int, decimal_signed, fixed, to_fixed};
use crate::derive::derived;
use crate::double::{less, of_int, product, quotient, Double};
use crate::env::{
    mpi_world_size_from_env, rank_from_env, rank_in_env, size_in_env, spins_forever, threads_bound,
    var, Environment,
};
use crate::insights::or_zero;
use crate::json::{listing_is_read, listing_text, member_line, members_text, Members, Scalar};
use crate::launch::{escape_word, escaped_word, law_quoted_words_are_json};
use crate::metric::{
    int_metric, metrics_of, model_of, numeric_of, row, Metric, MetricModel, Snapshot,
};
use crate::mpi::{mpi_metrics, stats_in, MpiCollector, RankStat};
use crate::omp::{spin_masks, spin_masks_imbalance};
use crate::report::{
    has_plain_keys, json_document, json_rows, json_text, law_snapshot_is_json,
    lemma_needs_no_escape, render_json, snapshot_listing,
};
use crate::text::{
    begins, chars_of, join, joined, owned, replace_once, replaced_once, strings, text_of,
};
use vstd::prelude::*;

verus! {

// ------------------------------------------------------------------ while the target runs

/// What has been noticed of the target. A device or an OpenMP runtime, once seen, is not
/// looked for again.
pub struct Watch {
    pub gpu: Option<&'static str>,
    pub omp_loaded: bool,
}

/// What a [`Watch`] is.
pub struct WatchModel {
    pub gpu: Option<Seq<char>>,
    pub omp_loaded: bool,
}

impl View for Watch {
    type V = WatchModel;

    open spec fn view(&self) -> WatchModel {
        WatchModel { gpu: text_of(self.gpu), omp_loaded: self.omp_loaded }
    }
}

/// What has been noticed after one more look.
pub open spec fn noticed(w: WatchModel, gpu: Option<Seq<char>>, omp: bool) -> WatchModel {
    WatchModel {
        gpu: match w.gpu {
            Some(v) => Some(v),
            None => gpu,
        },
        omp_loaded: w.omp_loaded || omp,
    }
}

impl Watch {
    pub fn new() -> (r: Watch)
        ensures
            r@ == (WatchModel { gpu: None, omp_loaded: false }),
    {
        Watch { gpu: None, omp_loaded: false }
    }

    /// Whether there is still anything to look for: a device, and a runtime.
    pub fn looks_for(&self) -> (r: (bool, bool))
        ensures
            r == (self@.gpu is None, !self@.omp_loaded),
    {
        (self.gpu.is_none(), !self.omp_loaded)
    }

    /// Takes in what one more look shows.
    pub fn notice(&mut self, gpu: Option<&'static str>, omp: bool)
        ensures
            final(self)@ == noticed(old(self)@, text_of(gpu), omp),
    {
        if self.gpu.is_none() {
            self.gpu = gpu;
        }
        if omp {
            self.omp_loaded = true;
        }
    }
}

// ------------------------------------------------------------------ the snapshot

/// The metrics of all collectors, in their order.
pub open spec fn all_metrics(v: Seq<Vec<Metric>>) -> Seq<MetricModel>
    decreases v.len(),
{
    if v.len() == 0 {
        Seq::empty()
    } else {
        all_metrics(v.drop_last()) + metrics_of(v.last()@)
    }
}

/// The flag that a device does the computing; the vendor is in its label. The counters
/// are the CPU's alone.
pub open spec fn gpu_metric(vendor: Seq<char>) -> MetricModel {
    int_metric("gpu_offload"@, "GPU offload detected ("@ + vendor + ")"@, 1)
}

pub open spec fn gpu_row(gpu: Option<Seq<char>>) -> Option<MetricModel> {
    match gpu {
        Some(v) => Some(gpu_metric(v)),
        None => None,
    }
}

/// Whether more than one thread ran.
pub open spec fn is_multithreaded(s: Seq<MetricModel>) -> bool {
    match numeric_of(s, "max_threads"@) {
        Some(t) => less(of_int(1), t),
        None => false,
    }
}

/// The flag that idle OpenMP threads may look busy.
pub open spec fn spin_row(
    s: Seq<MetricModel>,
    omp_loaded: bool,
    vars: Seq<(Seq<char>, Seq<char>)>,
) -> Option<MetricModel> {
    if is_multithreaded(s) && spin_masks(
        omp_loaded,
        var(vars, "OMP_WAIT_POLICY"@),
        threads_bound(vars),
        spins_forever(vars),
    ) {
        Some(
            int_metric(
                "omp_spin_wait"@,
                "OpenMP active-spin (imbalance may be under-reported)"@,
                1,
            ),
        )
    } else {
        None
    }
}

/// The snapshot of a run: the collectors' metrics, what is derived from them, and the
/// flags.
pub open spec fn session(
    collected: Seq<MetricModel>,
    w: WatchModel,
    vars: Seq<(Seq<char>, Seq<char>)>,
) -> Seq<MetricModel> {
    let s = collected + derived(collected) + row(gpu_row(w.gpu));
    s + row(spin_row(s, w.omp_loaded, vars))
}

fn put(snapshot: &mut Snapshot, m: Option<Metric>)
    ensures
        final(snapshot)@ == old(snapshot)@ + row(model_of(m)),
{
    crate::metric::push_row(&mut snapshot.metrics, m);
}

/// Flags a run whose thread imbalance may be masked: multithreaded, under OpenMP, with a
/// wait policy that spins.
pub fn push_omp_spin_flag(snapshot: &mut Snapshot, omp_loaded: bool, env: &Environment)
    ensures
        final(snapshot)@ == old(snapshot)@ + row(spin_row(old(snapshot)@, omp_loaded, env@)),
{
    let policy: Option<&str> = match env.get("OMP_WAIT_POLICY") {
        Some(p) => Some(p.as_str()),
        None => None,
    };
    let multithreaded: bool = match snapshot.numeric("max_threads") {
        Some(t) => Double::from_u64(1).lt(t),
        None => false,
    };
    let flag: Option<Metric> = if multithreaded && spin_masks_imbalance(
        omp_loaded,
        policy,
        env.omp_bound(),
        env.forces_spin(),
    ) {
        Some(
            Metric::count(
                "omp_spin_wait",
                "OpenMP active-spin (imbalance may be under-reported)",
                1,
            ),
        )
    } else {
        None
    };
    put(snapshot, flag);
}

/// The snapshot of a run, from each collector's metrics in their order.
pub fn assemble(lists: Vec<Vec<Metric>>, watch: &Watch, env: &Environment) -> (r: Snapshot)
    ensures
        r@ == session(all_metrics(lists@), watch@, env@),
{
    let ghost all = lists@;
    let mut rest: Vec<Vec<Metric>> = lists;
    let mut snapshot: Snapshot = Snapshot::default();
    let n: usize = rest.len();
    let mut i: usize = 0;
    assert(all.take(0) =~= Seq::empty());
    while i < n
        invariant
            i <= n,
            n == all.len(),
            rest@ == all.skip(i as int),
            snapshot@ == all_metrics(all.take(i as int)),
        decreases n - i,
    {
        proof {
            let next = all.take(i + 1);
            assert(next.drop_last() =~= all.take(i as int));
            assert(next.last() == all[i as int]);
            assert(all.skip(i as int).remove(0) =~= all.skip(i + 1));
            assert(rest@[0] == all[i as int]);
        }
        let list: Vec<Metric> = rest.remove(0);
        snapshot.extend(list);
        i += 1;
    }
    assert(all.take(i as int) =~= all);
    crate::derive::derive(&mut snapshot);
    let flag: Option<Metric> = match watch.gpu {
        Some(vendor) => {
            let mut label: String = "GPU offload detected (".to_string();
            label.append(vendor);
            label.append(")");
            Some(Metric::count("gpu_offload", label.as_str(), 1))
        },
        None => None,
    };
    put(&mut snapshot, flag);
    push_omp_spin_flag(&mut snapshot, watch.omp_loaded, env);
    snapshot
}

// ------------------------------------------------------------------ an idle parent

/// A decimal fraction: `n` tenths, or hundredths.
pub open spec fn fraction(n: int, d: int) -> Double {
    quotient(of_int(n), of_int(d))
}

/// Whether a process did almost no work over a time that is long enough to judge, with
/// neither a device nor waiting for I/O to explain it.
pub open spec fn looks_idle(
    cpu: Double,
    instructions: Double,
    elapsed: Double,
    gpu: bool,
    io_wait: Double,
) -> bool {
    &&& !gpu
    &&& !less(elapsed, fraction(1, 10))
    &&& !less(product(fraction(3, 10), elapsed), io_wait)
    &&& less(quotient(cpu, elapsed), fraction(1, 100))
    &&& less(instructions, of_int(50000000))
}

pub open spec fn idle_text(cpu: Double, elapsed: Double) -> Seq<char> {
    "uaps: NOTE: measured near-zero CPU work ("@ + fixed(cpu, 3) + "s CPU over "@ + fixed(
        elapsed,
        2,
    )
        + "s wall) — if the launched command WRAPS its real work (a shell, numactl/taskset, or env wrapper that forks instead of exec'ing), uaps counted the idle parent and missed the child; have each rank exec its app. (If it is genuinely idle / I-O- or sleep-bound, ignore.)"@
}

/// The note on a process that looks like a wrapper which forked its real work away.
pub open spec fn wrapper_note(
    cpu_time: Option<Double>,
    instructions: Option<Double>,
    elapsed: Option<Double>,
    gpu: bool,
    io_wait: Option<Double>,
) -> Option<Seq<char>> {
    match elapsed {
        Some(e) => if looks_idle(or_zero(cpu_time), or_zero(instructions), e, gpu, or_zero(io_wait)) {
            Some(idle_text(or_zero(cpu_time), e))
        } else {
            None
        },
        None => None,
    }
}

fn zero_or(x: Option<Double>) -> (r: Double)
    ensures
        r == or_zero(x),
{
    match x {
        Some(x) => x,
        None => Double::from_u64(0),
    }
}

/// Heads-up when the measured process did almost no CPU work over a non-trivial wall
/// time: the signature of a launch wrapper that forks its real command instead of
/// replacing itself with it. None when the work looks real, the run is too short to
/// judge, or a device or I/O explains the idle CPU.
pub fn wrapper_warning(
    cpu_time: Option<Double>,
    instructions: Option<Double>,
    elapsed: Option<Double>,
    gpu: bool,
    io_wait: Option<Double>,
) -> (r: Option<String>)
    ensures
        owned(r) == wrapper_note(cpu_time, instructions, elapsed, gpu, io_wait),
{
    if gpu {
        return None;  // the device already explains it
    }
    let elapsed: Double = match elapsed {
        Some(e) => e,
        None => {
            return None;
        },
    };
    let tenth: Double = Double::from_u64(1).over(Double::from_u64(10));
    if elapsed.lt(tenth) {
        return None;  // too short to tell a wrapper from startup
    }
    // A process that waits for I/O is idle because it is blocked.
    let patience: Double = Double::from_u64(3).over(Double::from_u64(10)).times(elapsed);
    if patience.lt(zero_or(io_wait)) {
        return None;
    }
    // Many retired instructions prove real work.
    let cpu: Double = zero_or(cpu_time);
    let least: Double = Double::from_u64(1).over(Double::from_u64(100));
    if cpu.over(elapsed).lt(least) && zero_or(instructions).lt(Double::from_u64(50000000)) {
        let mut out: String = "uaps: NOTE: measured near-zero CPU work (".to_string();
        out.append(to_fixed(cpu, 3).as_str());
        out.append("s CPU over ");
        out.append(to_fixed(elapsed, 2).as_str());
        out.append(
            "s wall) — if the launched command WRAPS its real work (a shell, numactl/taskset, or env wrapper that forks instead of exec'ing), uaps counted the idle parent and missed the child; have each rank exec its app. (If it is genuinely idle / I-O- or sleep-bound, ignore.)",
        );
        Some(out)
    } else {
        None
    }
}

/// The note on a snapshot.
pub open spec fn snapshot_note(s: Seq<MetricModel>, gpu: bool) -> Option<Seq<char>> {
    wrapper_note(
        numeric_of(s, "cpu_time"@),
        numeric_of(s, "hw_instructions"@),
        numeric_of(s, "elapsed_time"@),
        gpu,
        numeric_of(s, "io_wait"@),
    )
}

/// The note on a snapshot, where its process looks like a wrapper.
pub fn idle_note(snapshot: &Snapshot, gpu: bool) -> (r: Option<String>)
    ensures
        owned(r) == snapshot_note(snapshot@, gpu),
{
    wrapper_warning(
        snapshot.numeric("cpu_time"),
        snapshot.numeric("hw_instructions"),
        snapshot.numeric("elapsed_time"),
        gpu,
        snapshot.numeric("io_wait"),
    )
}

// ------------------------------------------------------------------ one rank

/// The fields that say on which node a snapshot was taken.
pub open spec fn node_header(host: Seq<char>, arch: Seq<char>) -> Seq<char> {
    "{\n  \"host\": \""@ + escaped_word(host) + "\", \"arch\": \""@ + escaped_word(arch) + "\",\n"@
}

/// A document with the fields of its node behind its opening brace.
pub open spec fn tagged(json: Seq<char>, host: Seq<char>, arch: Seq<char>) -> Seq<char> {
    replaced_once(json, "{\n"@, node_header(host, arch))
}

/// Inserts top-level `host` and `arch` fields into a rank's snapshot, ahead of its
/// metrics, so that the document stays well-formed and readers that look for the metrics
/// alone are unaffected.
pub fn tag_node(json: String, host: &str, arch: &str) -> (r: String)
    ensures
        r@ == tagged(json@, host@, arch@),
{
    let mut header: String = "{\n  \"host\": \"".to_string();
    header.append(escape_word(host).as_str());
    header.append("\", \"arch\": \"");
    header.append(escape_word(arch).as_str());
    header.append("\",\n");
    let v: Vec<char> = chars_of(json.as_str());
    replace_once(v.as_slice(), "{\n", header.as_str())
}

/// What a rank leaves behind: its snapshot under a name, a note, and its command where it
/// is the first.
pub struct RankReport {
    pub name: String,
    pub json: String,
    pub note: Option<String>,
    pub cmdline: Option<String>,
}

/// The rank that the environment gives, 0 where it gives none.
pub open spec fn own_rank(vars: Seq<(Seq<char>, Seq<char>)>) -> int {
    match rank_in_env(vars) {
        Some(r) => r,
        None => 0,
    }
}

pub open spec fn size_row(vars: Seq<(Seq<char>, Seq<char>)>) -> Option<MetricModel> {
    match size_in_env(vars) {
        Some(n) => Some(int_metric("mpi_world_size"@, "MPI world size"@, n as i64)),
        None => None,
    }
}

/// The name of a rank's snapshot file.
pub open spec fn rank_file_name(rank: int) -> Seq<char> {
    "snap."@ + dec_int(rank) + ".json"@
}

/// The name of a rank's snapshot file.
pub fn snap_name(rank: i64) -> (r: String)
    ensures
        r@ == rank_file_name(rank as int),
{
    let mut out: String = "snap.".to_string();
    out.append(decimal_signed(rank).as_str());
    out.append(".json");
    out
}

/// What a rank leaves behind: its snapshot with the job's size, tagged with its node. The
/// first rank, which stands for all, adds the note on an idle parent, and its command.
pub fn rank_report(
    snapshot: Snapshot,
    env: &Environment,
    host: &str,
    arch: &str,
    command: &Vec<String>,
) -> (r: RankReport)
    ensures
        r.name@ == rank_file_name(own_rank(env@)),
        r.json@ == tagged(json_document(snapshot@ + row(size_row(env@))), host@, arch@),
        owned(r.note) == if own_rank(env@) == 0 {
            snapshot_note(snapshot@, numeric_of(snapshot@, "gpu_offload"@) is Some)
        } else {
            None
        },
        owned(r.cmdline) == if own_rank(env@) == 0 {
            Some(joined(strings(command@), "\n"@))
        } else {
            None
        },
{
    let mut s: Snapshot = snapshot;
    let rank: i64 = match rank_from_env(env) {
        Some(r) => r,
        None => 0,
    };
    assert(rank as int == own_rank(env@));
    let note: Option<String> = if rank == 0 {
        let gpu: bool = s.numeric("gpu_offload").is_some();
        idle_note(&s, gpu)
    } else {
        None
    };
    let size: Option<Metric> = match mpi_world_size_from_env(env) {
        Some(n) => Some(Metric::count("mpi_world_size", "MPI world size", n)),
        None => None,
    };
    assert(model_of(size) == size_row(env@));
    put(&mut s, size);
    let json: String = tag_node(render_json(&s), host, arch);
    let cmdline: Option<String> = if rank == 0 {
        Some(join(command, "\n"))
    } else {
        None
    };
    RankReport { name: snap_name(rank), json, note, cmdline }
}

/// The warning of the first rank that vendor counters will be missing.
pub fn missing_data_warning(rank: i64, data_available: bool) -> (r: Option<&'static str>)
    ensures
        match r {
            Some(w) => rank == 0 && !data_available && w@
                == "uaps: WARNING: pmu-events DB not found next to the binary — vendor HW counters (FP/roofline/top-down) will be ABSENT. Stage the pmu-events tree alongside the uaps binary, or set UAPS_PMU_EVENTS=<…/pmu-events/arch>."@,
            None => rank != 0 || data_available,
        },
{
    if rank == 0 && !data_available {
        Some(
            "uaps: WARNING: pmu-events DB not found next to the binary — vendor HW counters (FP/roofline/top-down) will be ABSENT. Stage the pmu-events tree alongside the uaps binary, or set UAPS_PMU_EVENTS=<…/pmu-events/arch>.",
        )
    } else {
        None
    }
}

// ------------------------------------------------------------------ the job

/// The job-level snapshot of a results directory: the ranks' snapshots reduced, and the
/// MPI timing that the shim left there.
pub fn job_report(files: &Vec<RankFile>) -> (r: Result<Aggregate, AggregateError>)
    ensures
        ({
            let ranks = ranks_in(files_of(files@));
            match r {
                Ok(a) => {
                    &&& ranks.len() > 0
                    &&& times_fit(ranks, headings(ranks))
                    &&& a.snapshot@ == aggregated(ranks) + mpi_metrics(stats_in(files_of(files@)))
                    &&& a.nranks == ranks.len()
                    &&& owned(a.warning) == short_note(ranks.len(), world_size(ranks))
                },
                Err(AggregateError::NoRanks) => ranks.len() == 0,
                Err(AggregateError::TooLong) => ranks.len() > 0 && !times_fit(
                    ranks,
                    headings(ranks),
                ),
            }
        }),
        listings_are_read(files_of(files@)),
{
    match aggregate(files) {
        Ok(a) => {
            let Aggregate { snapshot, nranks, warning } = a;
            let mut s: Snapshot = snapshot;
            let mpi: MpiCollector = MpiCollector::new(String::new());
            let ranks: Vec<RankStat> = mpi.read_ranks(files);
            s.extend(mpi.metrics(&ranks));
            Ok(Aggregate { snapshot: s, nranks, warning })
        },
        Err(e) => Err(e),
    }
}

// ------------------------------------------------------------------ laws

/// What has been noticed stays noticed.
pub proof fn law_notices_stay(w: WatchModel, gpu: Option<Seq<char>>, omp: bool)
    ensures
        w.gpu is Some ==> noticed(w, gpu, omp).gpu == w.gpu,
        w.omp_loaded ==> noticed(w, gpu, omp).omp_loaded,
{
}

/// Tagging a rendered snapshot puts the node's fields ahead of the metrics, and leaves
/// those as they are.
pub proof fn law_tag_keeps_the_metrics(s: Seq<MetricModel>, host: Seq<char>, arch: Seq<char>)
    ensures
        tagged(json_document(s), host, arch) == node_header(host, arch) + ("  \"metrics\": [\n"@
            + json_rows(s) + "  ]\n}\n"@),
{
    reveal_strlit("{\n");
    reveal_strlit("{\n  \"metrics\": [\n");
    reveal_strlit("  \"metrics\": [\n");
    let doc = json_document(s);
    let first = "{\n  \"metrics\": [\n"@;
    assert(first =~= "{\n"@ + "  \"metrics\": [\n"@);
    assert(doc =~= "{\n"@ + ("  \"metrics\": [\n"@ + json_rows(s) + "  ]\n}\n"@));
    assert(begins(doc, "{\n"@)) by {
        assert(doc.take(2) =~= "{\n"@);
    }
    assert(doc.skip(2) =~= "  \"metrics\": [\n"@ + json_rows(s) + "  ]\n}\n"@);
}

/// The members that name the node of a rank.
pub open spec fn node_members(host: Seq<char>, arch: Seq<char>) -> Members {
    seq![("host"@, Scalar::Text(host)), ("arch"@, Scalar::Text(arch))]
}

/// Whether a text holds no control characters.
pub open spec fn is_printed(s: Seq<char>) -> bool {
    forall|i: int| 0 <= i < s.len() ==> (#[trigger] s[i] as int) >= 0x20
}

proof fn lemma_node_members(host: Seq<char>, arch: Seq<char>)
    requires
        is_printed(host),
        is_printed(arch),
    ensures
        node_header(host, arch) == "{\n  "@ + members_text(node_members(host, arch)) + ",\n"@,
{
    let f = node_members(host, arch);
    let t = f.map_values(|f: (Seq<char>, Scalar)| member_line(f));
    reveal_with_fuel(joined, 2);
    assert(t.drop_last() =~= seq![t[0]]);
    assert(joined(t, ", "@) == t[0] + ", "@ + t[1]);
    law_quoted_words_are_json(host);
    law_quoted_words_are_json(arch);
    reveal_strlit("host");
    reveal_strlit("arch");
    reveal_strlit(": ");
    reveal_strlit(", ");
    reveal_strlit("{\n  ");
    reveal_strlit(",\n");
    reveal_strlit("{\n  \"host\": \"");
    reveal_strlit("\", \"arch\": \"");
    reveal_strlit("\",\n");
    lemma_needs_no_escape("host"@);
    lemma_needs_no_escape("arch"@);
    let q = seq!['"'];
    let (a, b) = (json_text("host"@) + ": "@, json_text("arch"@) + ": "@);
    assert("{\n  \"host\": \""@ =~= "{\n  "@ + a + q);
    assert("\", \"arch\": \""@ =~= q + ", "@ + b + q);
    assert("\",\n"@ =~= q + ",\n"@);
    let (h, r) = (escaped_word(host), escaped_word(arch));
    assert(("{\n  "@ + a + q) + h + (q + ", "@ + b + q) + r + (q + ",\n"@) =~= "{\n  "@ + ((a + (
    q + h + q)) + ", "@ + (b + (q + r + q))) + ",\n"@);
}

/// What a rank leaves behind is well-formed JSON, and is read back: each metric whose
/// value is finite comes back under its key, with its unit, its label and the number that
/// its digits are read as.
pub proof fn law_rank_report_reads_back(s: Seq<MetricModel>, host: Seq<char>, arch: Seq<char>)
    requires
        is_printed(host),
        is_printed(arch),
        has_plain_keys(s),
        values_fit(s),
        listing_is_read(tagged(json_document(s), host, arch)),
    ensures
        tagged(json_document(s), host, arch) == listing_text(
            snapshot_listing(node_members(host, arch), s),
        ),
        rank_of(tagged(json_document(s), host, arch)) == Some(rows_read(s)),
{
    let head = node_members(host, arch);
    law_tag_keeps_the_metrics(s, host, arch);
    law_snapshot_is_json(head, s);
    lemma_node_members(host, arch);
    reveal_strlit(",\n");
    reveal_strlit(",\n  ");
    reveal_strlit("  \"metrics\": [\n");
    reveal_strlit("\"metrics\": [\n");
    let front = "{\n  "@ + members_text(head);
    assert(",\n"@ + "  \"metrics\": [\n"@ =~= ",\n  "@ + "\"metrics\": [\n"@);
    let (rows, end) = (json_rows(s), "  ]\n}\n"@);
    assert((front + ",\n"@) + ("  \"metrics\": [\n"@ + rows + end) =~= front + (",\n"@
        + "  \"metrics\": [\n"@) + rows + end);
    assert(front + (",\n  "@ + "\"metrics\": [\n"@) + rows + end =~= front + ",\n  "@
        + "\"metrics\": [\n"@ + rows + end);
    law_snapshot_reads_back(head, s);
}

/// A rank's file is one that the aggregation reads, whatever the rank.
pub proof fn law_rank_files_are_aggregated(rank: int)
    ensures
        crate::aggregate::is_rank_name(rank_file_name(rank)),
{
    reveal_strlit("snap.");
    reveal_strlit(".json");
    reveal_strlit("snap.json");
    reveal_strlit("-");
    let name = rank_file_name(rank);
    let n = dec_int(rank);
    lemma_numeral_is_not_empty(rank);
    assert(name.take(5) =~= "snap."@);
    assert(name.skip(name.len() - 5) =~= ".json"@);
    assert(name.len() > 9);
}

/// A device, a short run, waiting for I/O, a busy CPU and many instructions each rule out
/// the note.
pub proof fn law_real_work_is_not_flagged(
    cpu: Option<Double>,
    instructions: Option<Double>,
    elapsed: Double,
    gpu: bool,
    io_wait: Option<Double>,
)
    requires
        gpu || less(elapsed, fraction(1, 10)) || less(
            product(fraction(3, 10), elapsed),
            or_zero(io_wait),
        ) || !less(quotient(or_zero(cpu), elapsed), fraction(1, 100)) || !less(
            or_zero(instructions),
            of_int(50000000),
        ),
    ensures
        wrapper_note(cpu, instructions, Some(elapsed), gpu, io_wait) is None,
{
}

proof fn lemma_numeral_is_not_empty(rank: int)
    ensures
        dec_int(rank).len() > 0,
{
    reveal_strlit("-");
}

} // verus!
