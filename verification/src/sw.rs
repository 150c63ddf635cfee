//! Kernel software counters.
//!
//! Context switches, CPU migrations and page faults: scheduling and OS pressure that
//! the hardware PMU does not show. Software events always schedule and need no special
//! privilege, so this works even where the hardware counters are unavailable.

use crate::double::Double;
use crate::metric::{metrics_of, Metric};
use crate::perf::{count_metrics, counter_metrics, outputs_of, Output};
use crate::pmu::{threads_of, totals, EventCfg, ThreadGroups, TYPE_SOFTWARE};
use vstd::prelude::*;

verus! {

/// The software counters.
pub open spec fn software_outputs() -> Seq<(Seq<char>, Seq<char>)> {
    seq![
        ("ctx_switches"@, "Context switches"@),
        ("cpu_migrations"@, "CPU migrations"@),
        ("page_faults"@, "Page faults"@),
        ("page_faults_maj"@, "Major page faults"@),
    ]
}

fn sw_outputs() -> (r: Vec<Output>)
    ensures
        outputs_of(r@) == software_outputs(),
{
    let v: Vec<Output> = vec![
        Output { key: "ctx_switches", label: "Context switches" },
        Output { key: "cpu_migrations", label: "CPU migrations" },
        Output { key: "page_faults", label: "Page faults" },
        Output { key: "page_faults_maj", label: "Major page faults" },
    ];
    assert(outputs_of(v@) =~= software_outputs());
    v
}

/// A software event by its number in the kernel's ABI.
pub open spec fn sw_event(config: u64) -> EventCfg {
    EventCfg { etype: TYPE_SOFTWARE, config }
}

fn sw(config: u64) -> (r: EventCfg)
    ensures
        r == sw_event(config),
{
    EventCfg { etype: TYPE_SOFTWARE, config }
}

/// The number of a counter's event in the kernel's ABI.
pub open spec fn software_number(key: Seq<char>) -> u64 {
    if key == "page_faults"@ {
        2
    } else if key == "ctx_switches"@ {
        3
    } else if key == "cpu_migrations"@ {
        4
    } else {
        6
    }
}

proof fn lemma_software_keys()
    ensures
        "ctx_switches"@.len() == 12,
        "cpu_migrations"@.len() == 14,
        "page_faults"@.len() == 11,
        "page_faults_maj"@.len() == 15,
{
    reveal_strlit("ctx_switches");
    reveal_strlit("cpu_migrations");
    reveal_strlit("page_faults");
    reveal_strlit("page_faults_maj");
}

pub struct SwCollector {
    pub groups: ThreadGroups,
}

impl SwCollector {
    pub open spec fn wf(&self) -> bool {
        self.groups.wf()
    }

    /// Software events don't compete for counters, so one group holds all four.
    pub fn new() -> (r: SwCollector)
        ensures
            r.wf(),
            r.groups.groups@.len() == 1,
            r.groups.groups@[0]@ == seq![sw_event(3), sw_event(4), sw_event(2), sw_event(6)],
            forall|i: int|
                0 <= i < 4 ==> r.groups.groups@[0]@[i] == sw_event(
                    software_number((#[trigger] software_outputs()[i]).0),
                ),
            r.groups.threads@.len() == 0,
            r.groups.seen@.len() == 0,
    {
        let a: Vec<EventCfg> = vec![sw(3), sw(4), sw(2), sw(6)];
        assert(a@ =~= seq![sw_event(3), sw_event(4), sw_event(2), sw_event(6)]);
        proof {
            lemma_software_keys();
            assert forall|i: int| 0 <= i < 4 implies a@[i] == sw_event(
                software_number((#[trigger] software_outputs()[i]).0),
            ) by {
                assert(i == 0 || i == 1 || i == 2 || i == 3);
            }
        }
        let groups: Vec<Vec<EventCfg>> = vec![a];
        SwCollector { groups: ThreadGroups::new(groups) }
    }

    pub fn name(&self) -> (r: &'static str)
        ensures
            r@ == "sw"@,
    {
        "sw"
    }

    pub fn finish(&self) -> (r: Vec<Metric>)
        requires
            self.wf(),
        ensures
            metrics_of(r@) == counter_metrics(
                software_outputs(),
                totals(
                    self.groups.groups@,
                    threads_of(self.groups.threads@),
                    self.groups.groups@.len(),
                ),
            ),
    {
        let sums: Vec<Option<Double>> = self.groups.read_sums();
        count_metrics(&sw_outputs(), &sums)
    }
}

} // verus!
