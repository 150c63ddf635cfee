//! Generic hardware counters.
//!
//! Counts portable PMU events (instructions, cycles, cache, branches) across every
//! thread of the target via per-thread hardware groups. Ratio pairs are in the same
//! group, so IPC/CPI, the cache-miss rate and the branch-mispredict rate are exact even
//! under PMU multiplexing. Where counters are unavailable there are no metrics.

use crate::double::{to_integer, Double};
use crate::metric::{int_metric, metrics_of, push_row, row, Metric, MetricModel};
use crate::pmu::{threads_of, totals, EventCfg, ThreadGroups, TYPE_HARDWARE};
use vstd::prelude::*;

verus! {

/// The counters of a collector: key and label of each, in the order of the totals.
pub struct Output {
    pub key: &'static str,
    pub label: &'static str,
}

/// What a list of outputs is.
pub open spec fn outputs_of(v: Seq<Output>) -> Seq<(Seq<char>, Seq<char>)> {
    v.map_values(|o: Output| (o.key@, o.label@))
}

/// The metric of a counter, where it was counted.
pub open spec fn counter_metric(
    out: (Seq<char>, Seq<char>),
    sums: Seq<Option<Double>>,
    i: int,
) -> Option<MetricModel> {
    if i < sums.len() {
        match sums[i] {
            Some(v) => Some(int_metric(out.0, out.1, to_integer(v))),
            None => None,
        }
    } else {
        None
    }
}

/// The metrics of the counters that were counted.
pub open spec fn counter_metrics(
    outputs: Seq<(Seq<char>, Seq<char>)>,
    sums: Seq<Option<Double>>,
) -> Seq<MetricModel>
    decreases outputs.len(),
{
    if outputs.len() == 0 {
        Seq::empty()
    } else {
        counter_metrics(outputs.drop_last(), sums) + row(
            counter_metric(outputs.last(), sums, outputs.len() - 1),
        )
    }
}

/// The metrics of the counters that were counted.
pub fn count_metrics(outputs: &Vec<Output>, sums: &Vec<Option<Double>>) -> (r: Vec<Metric>)
    ensures
        metrics_of(r@) == counter_metrics(outputs_of(outputs@), sums@),
{
    let ghost all = outputs_of(outputs@);
    let mut out: Vec<Metric> = Vec::new();
    let mut i: usize = 0;
    assert(all.take(0) =~= Seq::empty());
    assert(metrics_of(out@) =~= Seq::empty());
    while i < outputs.len()
        invariant
            i <= outputs.len(),
            all == outputs_of(outputs@),
            metrics_of(out@) == counter_metrics(all.take(i as int), sums@),
        decreases outputs.len() - i,
    {
        let o: &Output = &outputs[i];
        proof {
            let next = all.take(i + 1);
            assert(next.drop_last() =~= all.take(i as int));
            assert(next.last() == (o.key@, o.label@));
        }
        let m: Option<Metric> = if i < sums.len() {
            match sums[i] {
                Some(v) => Some(Metric::count(o.key, o.label, v.to_i64())),
                None => None,
            }
        } else {
            None
        };
        push_row(&mut out, m);
        i += 1;
    }
    assert(all.take(i as int) =~= all);
    out
}

/// The hardware counters.
pub open spec fn hardware_outputs() -> Seq<(Seq<char>, Seq<char>)> {
    seq![
        ("hw_instructions"@, "Instructions"@),
        ("hw_cpu_cycles"@, "CPU cycles"@),
        ("hw_cache_references"@, "Cache references"@),
        ("hw_cache_misses"@, "Cache misses (LLC)"@),
        ("hw_branch_instructions"@, "Branch instructions"@),
        ("hw_branch_misses"@, "Branch misses"@),
    ]
}

fn hw_outputs() -> (r: Vec<Output>)
    ensures
        outputs_of(r@) == hardware_outputs(),
{
    let v: Vec<Output> = vec![
        Output { key: "hw_instructions", label: "Instructions" },
        Output { key: "hw_cpu_cycles", label: "CPU cycles" },
        Output { key: "hw_cache_references", label: "Cache references" },
        Output { key: "hw_cache_misses", label: "Cache misses (LLC)" },
        Output { key: "hw_branch_instructions", label: "Branch instructions" },
        Output { key: "hw_branch_misses", label: "Branch misses" },
    ];
    assert(outputs_of(v@) =~= hardware_outputs());
    v
}

/// A hardware event by its number in the kernel's ABI.
pub open spec fn hw_event(config: u64) -> EventCfg {
    EventCfg { etype: TYPE_HARDWARE, config }
}

fn hw(config: u64) -> (r: EventCfg)
    ensures
        r == hw_event(config),
{
    EventCfg { etype: TYPE_HARDWARE, config }
}

/// The number of a counter's event in the kernel's ABI.
pub open spec fn hardware_number(key: Seq<char>) -> u64 {
    if key == "hw_cpu_cycles"@ {
        0
    } else if key == "hw_instructions"@ {
        1
    } else if key == "hw_cache_references"@ {
        2
    } else if key == "hw_cache_misses"@ {
        3
    } else if key == "hw_branch_instructions"@ {
        4
    } else {
        5
    }
}

proof fn lemma_hardware_keys()
    ensures
        "hw_instructions"@.len() == 15,
        "hw_cpu_cycles"@.len() == 13,
        "hw_cache_references"@.len() == 19,
        "hw_cache_misses"@.len() == 15,
        "hw_branch_instructions"@.len() == 22,
        "hw_branch_misses"@.len() == 16,
        "hw_instructions"@ != "hw_cache_misses"@,
{
    reveal_strlit("hw_instructions");
    reveal_strlit("hw_cpu_cycles");
    reveal_strlit("hw_cache_references");
    reveal_strlit("hw_cache_misses");
    reveal_strlit("hw_branch_instructions");
    reveal_strlit("hw_branch_misses");
    assert("hw_instructions"@[3] != "hw_cache_misses"@[3]);
}

pub struct PerfCollector {
    pub groups: ThreadGroups,
}

impl PerfCollector {
    pub open spec fn wf(&self) -> bool {
        self.groups.wf()
    }

    /// Instructions, cycles, cache references and misses in one group; branches and
    /// their misses in another.
    pub fn new() -> (r: PerfCollector)
        ensures
            r.wf(),
            r.groups.groups@.len() == 2,
            r.groups.groups@[0]@ == seq![hw_event(1), hw_event(0), hw_event(2), hw_event(3)],
            r.groups.groups@[1]@ == seq![hw_event(4), hw_event(5)],
            forall|i: int|
                0 <= i < 6 ==> (r.groups.groups@[0]@ + r.groups.groups@[1]@)[i] == hw_event(
                    hardware_number((#[trigger] hardware_outputs()[i]).0),
                ),
            r.groups.threads@.len() == 0,
            r.groups.seen@.len() == 0,
    {
        let a: Vec<EventCfg> = vec![hw(1), hw(0), hw(2), hw(3)];
        let b: Vec<EventCfg> = vec![hw(4), hw(5)];
        assert(a@ =~= seq![hw_event(1), hw_event(0), hw_event(2), hw_event(3)]);
        assert(b@ =~= seq![hw_event(4), hw_event(5)]);
        proof {
            lemma_hardware_keys();
            assert forall|i: int| 0 <= i < 6 implies (a@ + b@)[i] == hw_event(
                hardware_number((#[trigger] hardware_outputs()[i]).0),
            ) by {
                assert(i == 0 || i == 1 || i == 2 || i == 3 || i == 4 || i == 5);
            }
        }
        let groups: Vec<Vec<EventCfg>> = vec![a, b];
        PerfCollector { groups: ThreadGroups::new(groups) }
    }

    pub fn name(&self) -> (r: &'static str)
        ensures
            r@ == "perf"@,
    {
        "perf"
    }

    pub fn finish(&self) -> (r: Vec<Metric>)
        requires
            self.wf(),
        ensures
            metrics_of(r@) == counter_metrics(
                hardware_outputs(),
                totals(
                    self.groups.groups@,
                    threads_of(self.groups.threads@),
                    self.groups.groups@.len(),
                ),
            ),
    {
        let sums: Vec<Option<Double>> = self.groups.read_sums();
        count_metrics(&hw_outputs(), &sums)
    }

    /// What to tell the user where no counter could be read.
    pub fn note(metrics: &Vec<Metric>) -> (r: Option<&'static str>)
        ensures
            match r {
                Some(s) => metrics@.len() == 0 && s@
                    == "uaps: no hardware counters available (check /proc/sys/kernel/perf_event_paranoid); reporting OS metrics only"@,
                None => metrics@.len() > 0,
            },
    {
        if metrics.len() == 0 {
            Some(
                "uaps: no hardware counters available (check /proc/sys/kernel/perf_event_paranoid); reporting OS metrics only",
            )
        } else {
            None
        }
    }
}

} // verus!
