//! Level-1 top-down (pipeline-slot) analysis for AMD Zen 5.
//!
//! The five events of the first level are one hardware group: a group is scheduled all
//! or nothing, so its members share the same active window and their ratios are exact
//! even when the PMU is multiplexed. The split of the backend into memory and core is a
//! second, best-effort group, because all seven events cannot be counted at once.
//!
//! Slots are eight to a cycle. Frontend, backend, SMT contention and retiring are counted;
//! bad speculation is what is left of the slots.

use crate::bounds::{
    lemma_nonnegative, lemma_product_commutes, lemma_rest, lemma_scaled, nonnegative,
};
use crate::cpu::Vendor;
use crate::double::{
    at_most, clamped, difference, greater_of, lemma_held, lemma_signed, lemma_units_order,
    lemma_units_zero, lemma_whole_exact, less, of_int, one_unit, product, quotient, sum, Double,
};
use crate::metric::{
    metrics_of, percent_metric, percent_row, rows, Metric, MetricModel, Rows, ValueModel,
};
use crate::pmu::{copied, group_read, read_values, take_in, unseen, values_of, EventCfg, TYPE_RAW};
use crate::shares::{is_share, lemma_share};
use vstd::prelude::*;

verus! {

/// Cycles that the core was not halted.
pub const CFG_CYCLES: u64 = 0x0076;

/// Slots without an operation from the frontend.
pub const CFG_FRONTEND: u64 = 0x1_0000_01A0;

/// Slots stalled by the backend.
pub const CFG_BACKEND: u64 = 0x1_0000_1EA0;

/// Slots that went to the other thread of the core.
pub const CFG_SMT: u64 = 0x1_0000_60A0;

/// Retired operations.
pub const CFG_RETIRED: u64 = 0x00C1;

/// Cycles in which retirement waits for an operation that is not complete.
pub const CFG_NOT_COMPLETE: u64 = 0x02D6;

/// Of those, cycles in which it waits for a load.
pub const CFG_LOAD_NOT_COMPLETE: u64 = 0xA2D6;

pub open spec fn raw(config: u64) -> EventCfg {
    EventCfg { etype: TYPE_RAW, config }
}

/// The events of the first level; the first leads the group.
pub open spec fn main_group() -> Seq<EventCfg> {
    seq![
        raw(CFG_CYCLES),
        raw(CFG_FRONTEND),
        raw(CFG_BACKEND),
        raw(CFG_SMT),
        raw(CFG_RETIRED),
    ]
}

/// The events of the backend split.
pub open spec fn split_group() -> Seq<EventCfg> {
    seq![raw(CFG_NOT_COMPLETE), raw(CFG_LOAD_NOT_COMPLETE)]
}

fn raw_event(config: u64) -> (r: EventCfg)
    ensures
        r == raw(config),
{
    EventCfg { etype: TYPE_RAW, config }
}

pub fn main_events() -> (r: Vec<EventCfg>)
    ensures
        r@ == main_group(),
{
    let r: Vec<EventCfg> = vec![
        raw_event(CFG_CYCLES),
        raw_event(CFG_FRONTEND),
        raw_event(CFG_BACKEND),
        raw_event(CFG_SMT),
        raw_event(CFG_RETIRED),
    ];
    assert(r@ =~= main_group());
    r
}

pub fn split_events() -> (r: Vec<EventCfg>)
    ensures
        r@ == split_group(),
{
    let r: Vec<EventCfg> = vec![raw_event(CFG_NOT_COMPLETE), raw_event(CFG_LOAD_NOT_COMPLETE)];
    assert(r@ =~= split_group());
    r
}

// ------------------------------------------------------------------ group state

/// The two groups of one scope.
pub struct TopGroup {
    /// Last successful reads. Counters are cumulative, so the newest supersedes; a thread
    /// that exits keeps its last.
    pub main: Option<Vec<Double>>,
    pub split: Option<Vec<Double>>,
    /// Whether the split group opened.
    pub split_open: bool,
    /// Set once a read of the group fails: it is not read again.
    pub main_dead: bool,
    pub split_dead: bool,
}

/// What a [`TopGroup`] is.
#[verifier::ext_equal]
pub struct TopModel {
    pub main: Option<Seq<Double>>,
    pub split: Option<Seq<Double>>,
    pub split_open: bool,
    pub main_dead: bool,
    pub split_dead: bool,
}

impl View for TopGroup {
    type V = TopModel;

    open spec fn view(&self) -> TopModel {
        TopModel {
            main: values_of(self.main),
            split: values_of(self.split),
            split_open: self.split_open,
            main_dead: self.main_dead,
            split_dead: self.split_dead,
        }
    }
}

pub open spec fn groups_of(v: Seq<TopGroup>) -> Seq<TopModel> {
    v.map_values(|g: TopGroup| g@)
}

/// A scope on which the main group was just opened.
pub open spec fn fresh(split_open: bool) -> TopModel {
    TopModel { main: None, split: None, split_open, main_dead: false, split_dead: false }
}

/// Every read has a value for each event.
pub open spec fn whole(g: TopModel) -> bool {
    &&& g.main matches Some(v) ==> v.len() == 5
    &&& g.split matches Some(v) ==> v.len() == 2
}

/// Whether a group is kept: one that died before it was ever read has nothing to say.
pub open spec fn kept(g: TopModel) -> bool {
    !(g.main_dead && g.main is None)
}

pub open spec fn all_kept(v: Seq<TopModel>) -> Seq<TopModel>
    decreases v.len(),
{
    if v.len() == 0 {
        Seq::empty()
    } else if kept(v.last()) {
        all_kept(v.drop_last()).push(v.last())
    } else {
        all_kept(v.drop_last())
    }
}

/// The words read of the two groups of one scope, none where a read failed.
pub struct TopRead {
    pub main: Option<Vec<u64>>,
    pub split: Option<Vec<u64>>,
}

/// What a [`TopRead`] is.
#[verifier::ext_equal]
pub struct TopWords {
    pub main: Option<Seq<u64>>,
    pub split: Option<Seq<u64>>,
}

pub open spec fn words_in(r: Option<Vec<u64>>) -> Option<Seq<u64>> {
    match r {
        Some(w) => Some(w@),
        None => None,
    }
}

impl View for TopRead {
    type V = TopWords;

    open spec fn view(&self) -> TopWords {
        TopWords { main: words_in(self.main), split: words_in(self.split) }
    }
}

pub open spec fn reads_of(v: Seq<TopRead>) -> Seq<TopWords> {
    v.map_values(|r: TopRead| r@)
}

/// The values of `n` events that words give.
pub open spec fn values_in(words: Option<Seq<u64>>, n: nat) -> Option<Seq<Double>> {
    match words {
        Some(w) => match group_read(w, n) {
            Some(r) => Some(r.vals),
            None => None,
        },
        None => None,
    }
}

/// The groups of one scope after a poll: a group that is alive takes its new values, or
/// dies with those it has.
pub open spec fn polled_top(g: TopModel, r: TopWords) -> TopModel {
    let main = values_in(r.main, 5);
    let split = values_in(r.split, 2);
    let split_live = g.split_open && !g.split_dead;
    TopModel {
        main: if !g.main_dead && main is Some {
            main
        } else {
            g.main
        },
        main_dead: g.main_dead || main is None,
        split: if split_live && split is Some {
            split
        } else {
            g.split
        },
        split_dead: g.split_dead || (split_live && split is None),
        split_open: g.split_open,
    }
}

pub open spec fn all_polled(groups: Seq<TopModel>, reads: Seq<TopWords>) -> Seq<TopModel> {
    Seq::new(groups.len(), |i: int| polled_top(groups[i], reads[i]))
}

fn read_group(words: &Option<Vec<u64>>, n: usize) -> (r: Option<Vec<Double>>)
    ensures
        values_of(r) == values_in(words_in(*words), n as nat),
        r matches Some(v) ==> v@.len() == n,
{
    match words {
        Some(w) => match read_values(w, n) {
            Some(r) => Some(r.vals),
            None => None,
        },
        None => None,
    }
}

fn copy_values(v: &Option<Vec<Double>>) -> (r: Option<Vec<Double>>)
    ensures
        values_of(r) == values_of(*v),
{
    match v {
        Some(v) => Some(copied(v)),
        None => None,
    }
}

impl TopGroup {
    fn copy(&self) -> (r: TopGroup)
        ensures
            r@ == self@,
    {
        TopGroup {
            main: copy_values(&self.main),
            split: copy_values(&self.split),
            split_open: self.split_open,
            main_dead: self.main_dead,
            split_dead: self.split_dead,
        }
    }

    /// The groups after a poll.
    fn poll(&self, r: &TopRead) -> (g: TopGroup)
        ensures
            g@ == polled_top(self@, r@),
            whole(self@) ==> whole(g@),
    {
        let split_live: bool = self.split_open && !self.split_dead;
        let main: Option<Vec<Double>> = read_group(&r.main, 5);
        let split: Option<Vec<Double>> = read_group(&r.split, 2);
        TopGroup {
            main_dead: self.main_dead || main.is_none(),
            split_dead: self.split_dead || (split_live && split.is_none()),
            split_open: self.split_open,
            main: if !self.main_dead && main.is_some() {
                main
            } else {
                copy_values(&self.main)
            },
            split: if split_live && split.is_some() {
                split
            } else {
                copy_values(&self.split)
            },
        }
    }
}

// ------------------------------------------------------------------ sums

/// The counts of all scopes: those of the first level, and those of the scopes whose
/// split group was read as well.
#[derive(Clone, Copy, Debug)]
pub struct TopSums {
    pub cycles: Double,
    pub frontend: Double,
    pub backend: Double,
    pub smt: Double,
    pub retired: Double,
    pub not_complete: Double,
    pub load_not_complete: Double,
    pub cycles_split: Double,
    pub backend_split: Double,
    pub threads: u64,
    pub split_threads: u64,
}

pub open spec fn no_sums() -> TopSums {
    TopSums {
        cycles: of_int(0),
        frontend: of_int(0),
        backend: of_int(0),
        smt: of_int(0),
        retired: of_int(0),
        not_complete: of_int(0),
        load_not_complete: of_int(0),
        cycles_split: of_int(0),
        backend_split: of_int(0),
        threads: 0,
        split_threads: 0,
    }
}

/// The counts with those of one more scope. The split and the backend slots that it
/// divides come from the same scopes.
pub open spec fn counted(s: TopSums, g: TopModel) -> TopSums {
    match (g.main, g.split) {
        (None, _) => s,
        (Some(v), None) => TopSums {
            cycles: sum(s.cycles, v[0]),
            frontend: sum(s.frontend, v[1]),
            backend: sum(s.backend, v[2]),
            smt: sum(s.smt, v[3]),
            retired: sum(s.retired, v[4]),
            threads: (s.threads + 1) as u64,
            ..s
        },
        (Some(v), Some(w)) => TopSums {
            cycles: sum(s.cycles, v[0]),
            frontend: sum(s.frontend, v[1]),
            backend: sum(s.backend, v[2]),
            smt: sum(s.smt, v[3]),
            retired: sum(s.retired, v[4]),
            threads: (s.threads + 1) as u64,
            not_complete: sum(s.not_complete, w[0]),
            load_not_complete: sum(s.load_not_complete, w[1]),
            cycles_split: sum(s.cycles_split, v[0]),
            backend_split: sum(s.backend_split, v[2]),
            split_threads: (s.split_threads + 1) as u64,
        },
    }
}

pub open spec fn sums_over(v: Seq<TopModel>) -> TopSums
    decreases v.len(),
{
    if v.len() == 0 {
        no_sums()
    } else {
        counted(sums_over(v.drop_last()), v.last())
    }
}

// ------------------------------------------------------------------ metrics

/// A share in percent, held between 0 and 100.
pub open spec fn percent_of(x: Double, slots: Double) -> Double {
    clamped(product(quotient(x, slots), of_int(100)), of_int(0), of_int(100))
}

pub open spec fn slots_of_cycles(cycles: Double) -> Double {
    product(of_int(8), cycles)
}

/// The fraction of backend stalls that wait for memory.
pub open spec fn memory_fraction(s: TopSums) -> Double {
    clamped(quotient(s.load_not_complete, s.not_complete), of_int(0), of_int(1))
}

/// Whether the split says enough: it was counted, on most of the threads.
pub open spec fn has_split(s: TopSums) -> bool {
    less(of_int(0), s.not_complete) && less(of_int(0), slots_of_cycles(s.cycles_split))
        && s.split_threads * 2 >= s.threads
}

/// The slots that nothing else accounts for.
pub open spec fn bad_slots(s: TopSums) -> Double {
    let slots = slots_of_cycles(s.cycles);
    greater_of(
        difference(
            difference(difference(difference(slots, s.frontend), s.backend), s.smt),
            s.retired,
        ),
        of_int(0),
    )
}

/// A part of the backend-bound slots, in percent of all slots.
pub open spec fn split_part(s: TopSums, part: Double) -> Option<Double> {
    if has_split(s) {
        Some(product(percent_of(s.backend_split, slots_of_cycles(s.cycles_split)), part))
    } else {
        None
    }
}

pub open spec fn top_rows(s: TopSums) -> Seq<Option<MetricModel>> {
    let slots = slots_of_cycles(s.cycles);
    let mem = memory_fraction(s);
    let core = difference(of_int(1), mem);
    seq![
        Some(percent_metric("topdown_retiring_pct"@, "Retiring"@, percent_of(s.retired, slots))),
        Some(
            percent_metric(
                "topdown_frontend_pct"@,
                "Frontend bound"@,
                percent_of(s.frontend, slots),
            ),
        ),
        Some(
            percent_metric("topdown_backend_pct"@, "Backend bound"@, percent_of(s.backend, slots)),
        ),
        Some(percent_metric("topdown_smt_pct"@, "SMT contention"@, percent_of(s.smt, slots))),
        percent_row("topdown_backend_mem_pct"@, "  ↳ memory bound"@, split_part(s, mem)),
        percent_row("topdown_backend_core_pct"@, "  ↳ core bound"@, split_part(s, core)),
        Some(
            percent_metric(
                "topdown_badspec_pct"@,
                "Bad speculation"@,
                percent_of(bad_slots(s), slots),
            ),
        ),
    ]
}

/// What the counts say; nothing where nothing was counted.
pub open spec fn top_metrics(s: TopSums) -> Seq<MetricModel> {
    if s.threads == 0 || at_most(slots_of_cycles(s.cycles), of_int(0)) {
        Seq::empty()
    } else {
        rows(top_rows(s))
    }
}

fn zero() -> (r: Double)
    ensures
        r == of_int(0),
{
    Double::from_u64(0)
}

fn percent(x: Double, slots: Double) -> (r: Double)
    ensures
        r == percent_of(x, slots),
{
    x.over(slots).times(Double::from_u64(100)).clamp(zero(), Double::from_u64(100))
}

impl TopSums {
    fn none() -> (r: TopSums)
        ensures
            r == no_sums(),
    {
        TopSums {
            cycles: zero(),
            frontend: zero(),
            backend: zero(),
            smt: zero(),
            retired: zero(),
            not_complete: zero(),
            load_not_complete: zero(),
            cycles_split: zero(),
            backend_split: zero(),
            threads: 0,
            split_threads: 0,
        }
    }

    fn count(&mut self, g: &TopGroup)
        requires
            whole(g@),
            old(self).threads < u64::MAX,
            old(self).split_threads <= old(self).threads,
        ensures
            *final(self) == counted(*old(self), g@),
            final(self).split_threads <= final(self).threads <= old(self).threads + 1,
    {
        match &g.main {
            Some(v) => {
                self.cycles = self.cycles.plus(v[0]);
                self.frontend = self.frontend.plus(v[1]);
                self.backend = self.backend.plus(v[2]);
                self.smt = self.smt.plus(v[3]);
                self.retired = self.retired.plus(v[4]);
                self.threads = self.threads + 1;
                match &g.split {
                    Some(w) => {
                        self.not_complete = self.not_complete.plus(w[0]);
                        self.load_not_complete = self.load_not_complete.plus(w[1]);
                        self.cycles_split = self.cycles_split.plus(v[0]);
                        self.backend_split = self.backend_split.plus(v[2]);
                        self.split_threads = self.split_threads + 1;
                    },
                    None => {},
                }
            },
            None => {},
        }
    }

    fn memory(&self) -> (r: Double)
        ensures
            r == memory_fraction(*self),
    {
        self.load_not_complete.over(self.not_complete).clamp(zero(), Double::from_u64(1))
    }

    /// A part of the backend-bound slots. The part and the percentage that it is of are
    /// of the same threads, and are shown only where those are most of all.
    fn split(&self, part: Double) -> (r: Option<Double>)
        requires
            self.split_threads <= self.threads,
        ensures
            r == split_part(*self, part),
    {
        let slots: Double = Double::from_u64(8).times(self.cycles_split);
        if zero().lt(self.not_complete) && zero().lt(slots) && self.split_threads >= self.threads
            - self.split_threads {
            Some(percent(self.backend_split, slots).times(part))
        } else {
            None
        }
    }

    /// The remainder absorbs the skew between the counters; it is never below zero.
    fn left(&self) -> (r: Double)
        ensures
            r == bad_slots(*self),
    {
        let slots: Double = Double::from_u64(8).times(self.cycles);
        slots.minus(self.frontend).minus(self.backend).minus(self.smt).minus(self.retired).max(
            zero(),
        )
    }

    fn listed(&self, slots: Double) -> (r: Vec<Metric>)
        requires
            self.split_threads <= self.threads,
            slots == slots_of_cycles(self.cycles),
        ensures
            metrics_of(r@) == rows(top_rows(*self)),
    {
        let retiring: Double = percent(self.retired, slots);
        let frontend: Double = percent(self.frontend, slots);
        let backend: Double = percent(self.backend, slots);
        let smt: Double = percent(self.smt, slots);
        let left: Double = percent(self.left(), slots);
        let mem: Double = self.memory();
        let core: Double = Double::from_u64(1).minus(mem);
        let mem_part: Option<Double> = self.split(mem);
        let core_part: Option<Double> = self.split(core);
        let mut out: Rows = Rows::new();
        out.percent("topdown_retiring_pct", "Retiring", Some(retiring));
        out.percent("topdown_frontend_pct", "Frontend bound", Some(frontend));
        out.percent("topdown_backend_pct", "Backend bound", Some(backend));
        out.percent("topdown_smt_pct", "SMT contention", Some(smt));
        out.percent("topdown_backend_mem_pct", "  ↳ memory bound", mem_part);
        out.percent("topdown_backend_core_pct", "  ↳ core bound", core_part);
        out.percent("topdown_badspec_pct", "Bad speculation", Some(left));
        assert(out.offered@ =~= top_rows(*self));
        out.list
    }

    /// The metrics of the counts.
    pub fn metrics(&self) -> (r: Vec<Metric>)
        requires
            self.split_threads <= self.threads,
        ensures
            metrics_of(r@) == top_metrics(*self),
    {
        let slots: Double = Double::from_u64(8).times(self.cycles);
        if self.threads == 0 || slots.le(zero()) {
            let none: Vec<Metric> = Vec::new();
            assert(metrics_of(none@) =~= Seq::empty());
            return none;
        }
        self.listed(slots)
    }
}

// ------------------------------------------------------------------ the collector

pub struct TopdownCollector {
    pub supported: bool,
    /// The scopes already opened: threads by id and start time, CPUs by number and 0.
    pub seen: Vec<(i64, u64)>,
    pub groups: Vec<TopGroup>,
}

impl TopdownCollector {
    pub open spec fn wf(&self) -> bool {
        forall|i: int| 0 <= i < self.groups@.len() ==> whole(#[trigger] self.groups@[i]@)
    }

    /// The collector for a CPU: the event encodings are those of AMD's family 0x1A.
    pub fn new(vendor: Vendor, family: u32) -> (r: TopdownCollector)
        ensures
            r.wf(),
            r.supported == (vendor == Vendor::Amd && family == 0x1A),
            r.seen@.len() == 0,
            r.groups@.len() == 0,
    {
        let amd: bool = match vendor {
            Vendor::Amd => true,
            _ => false,
        };
        TopdownCollector {
            supported: amd && family == 0x1A,
            seen: Vec::new(),
            groups: Vec::new(),
        }
    }

    pub fn name(&self) -> (r: &'static str)
        ensures
            r@ == "topdown"@,
    {
        "topdown"
    }

    /// Takes in the scopes that exist now, and returns those on which the groups are
    /// still to be opened.
    pub fn discover(&mut self, scopes: &Vec<(i64, u64)>) -> (r: Vec<(i64, u64)>)
        requires
            old(self).wf(),
        ensures
            final(self).wf(),
            r@ == unseen(old(self).seen@, scopes@),
            final(self).seen@ == old(self).seen@ + r@,
            final(self).groups == old(self).groups,
            final(self).supported == old(self).supported,
    {
        take_in(&mut self.seen, scopes)
    }

    /// Adds a scope on which the main group opened.
    pub fn attach(&mut self, split_open: bool)
        requires
            old(self).wf(),
        ensures
            final(self).wf(),
            groups_of(final(self).groups@) == groups_of(old(self).groups@).push(fresh(split_open)),
            final(self).seen == old(self).seen,
            final(self).supported == old(self).supported,
    {
        let ghost before = groups_of(self.groups@);
        let g: TopGroup = TopGroup {
            main: None,
            split: None,
            split_open,
            main_dead: false,
            split_dead: false,
        };
        self.groups.push(g);
        assert(groups_of(self.groups@) =~= before.push(fresh(split_open)));
    }

    /// Drops the groups that died before they were ever read, and says of each group
    /// whether it was kept.
    pub fn prune(&mut self) -> (r: Vec<bool>)
        requires
            old(self).wf(),
        ensures
            final(self).wf(),
            groups_of(final(self).groups@) == all_kept(groups_of(old(self).groups@)),
            r@ == groups_of(old(self).groups@).map_values(|g: TopModel| kept(g)),
            final(self).seen == old(self).seen,
            final(self).supported == old(self).supported,
    {
        let ghost all = groups_of(self.groups@);
        let mut left: Vec<TopGroup> = Vec::new();
        let mut flags: Vec<bool> = Vec::new();
        let mut i: usize = 0;
        assert(all.take(0) =~= Seq::empty());
        assert(groups_of(left@) =~= all_kept(all.take(0)));
        while i < self.groups.len()
            invariant
                i <= self.groups.len(),
                self == old(self),
                self.wf(),
                all == groups_of(self.groups@),
                groups_of(left@) == all_kept(all.take(i as int)),
                flags@ == all.take(i as int).map_values(|g: TopModel| kept(g)),
                forall|k: int| 0 <= k < left@.len() ==> whole(#[trigger] left@[k]@),
            decreases self.groups.len() - i,
        {
            proof {
                let next = all.take(i + 1);
                assert(next.drop_last() =~= all.take(i as int));
                assert(next.last() == self.groups@[i as int]@);
                assert(next.map_values(|g: TopModel| kept(g)) =~= all.take(i as int).map_values(
                    |g: TopModel| kept(g),
                ).push(kept(next.last())));
            }
            let keep: bool = !(self.groups[i].main_dead && self.groups[i].main.is_none());
            flags.push(keep);
            if keep {
                let ghost had = groups_of(left@);
                let g: TopGroup = self.groups[i].copy();
                assert(whole(self.groups@[i as int]@));
                left.push(g);
                assert(groups_of(left@) =~= had.push(g@));
            }
            i += 1;
        }
        assert(all.take(i as int) =~= all);
        self.groups = left;
        flags
    }

    /// Takes in a read of each group.
    pub fn poll(&mut self, reads: &Vec<TopRead>)
        requires
            old(self).wf(),
            reads@.len() == old(self).groups@.len(),
        ensures
            final(self).wf(),
            groups_of(final(self).groups@) == all_polled(
                groups_of(old(self).groups@),
                reads_of(reads@),
            ),
            final(self).seen == old(self).seen,
            final(self).supported == old(self).supported,
    {
        let ghost all = groups_of(self.groups@);
        let ghost words = reads_of(reads@);
        let mut i: usize = 0;
        while i < self.groups.len()
            invariant
                i <= self.groups.len(),
                self.groups@.len() == all.len(),
                reads@.len() == all.len(),
                words == reads_of(reads@),
                self.wf(),
                forall|k: int|
                    0 <= k < i ==> #[trigger] groups_of(self.groups@)[k] == polled_top(
                        all[k],
                        words[k],
                    ),
                forall|k: int|
                    i <= k < all.len() ==> #[trigger] groups_of(self.groups@)[k] == all[k],
                self.seen == old(self).seen,
                self.supported == old(self).supported,
            decreases self.groups.len() - i,
        {
            let ghost before = groups_of(self.groups@);
            let g: TopGroup = self.groups[i].poll(&reads[i]);
            assert(before[i as int] == self.groups@[i as int]@);
            assert(whole(self.groups@[i as int]@));
            assert(words[i as int] == reads@[i as int]@);
            self.groups.set(i, g);
            assert(groups_of(self.groups@) =~= before.update(i as int, g@));
            i += 1;
        }
        assert(groups_of(self.groups@) =~= all_polled(all, words));
    }

    pub fn finish(&self) -> (r: Vec<Metric>)
        requires
            self.wf(),
        ensures
            metrics_of(r@) == top_metrics(sums_over(groups_of(self.groups@))),
    {
        let ghost all = groups_of(self.groups@);
        let mut s: TopSums = TopSums::none();
        let mut i: usize = 0;
        assert(all.take(0) =~= Seq::empty());
        while i < self.groups.len()
            invariant
                i <= self.groups.len(),
                self.wf(),
                all == groups_of(self.groups@),
                s == sums_over(all.take(i as int)),
                s.split_threads <= s.threads <= i,
            decreases self.groups.len() - i,
        {
            proof {
                let next = all.take(i + 1);
                assert(next.drop_last() =~= all.take(i as int));
                assert(next.last() == self.groups@[i as int]@);
            }
            s.count(&self.groups[i]);
            i += 1;
        }
        assert(all.take(i as int) =~= all);
        s.metrics()
    }
}

// ------------------------------------------------------------------ laws

/// A thread that has exited keeps what was last read of it.
pub proof fn law_last_read_is_kept(g: TopModel, r: TopWords)
    requires
        g.main is Some,
    ensures
        polled_top(g, r).main is Some,
        values_in(r.main, 5) is None ==> polled_top(g, r).main == g.main && polled_top(
            g,
            r,
        ).main_dead,
        kept(polled_top(g, r)),
        g.main_dead ==> polled_top(g, r).main == g.main,
{
}

proof fn lemma_percent(x: Double, slots: Double)
    requires
        !x.is_nan(),
        !x.is_inf(),
        slots.is_finite(),
        less(of_int(0), slots),
    ensures
        nonnegative(percent_of(x, slots)),
        at_most(percent_of(x, slots), of_int(100)),
        percent_of(x, slots).is_finite(),
{
    lemma_whole_exact(0);
    lemma_whole_exact(100);
    lemma_units_zero();
    lemma_units_order(0, slots.mag());
    lemma_units_order(0, of_int(100).mag());
    vstd::arithmetic::power2::lemma_pow2_pos(1074);
    assert(100 * one_unit() > 0);
    let q = quotient(x, slots);
    let n = crate::double::units_of(x.mag()) * one_unit();
    let d = crate::double::units_of(slots.mag());
    crate::double::lemma_round_range(n, d);
    lemma_signed(x.neg() != slots.neg(), crate::double::round_mag(n, d));
    assert(!q.is_nan());
    let p = product(q, of_int(100));
    let m = crate::double::units_of(q.mag()) * crate::double::units_of(of_int(100).mag());
    crate::double::lemma_round_range(m, one_unit());
    lemma_signed(q.neg() != of_int(100).neg(), crate::double::round_mag(m, one_unit()));
    lemma_signed(q.neg() != of_int(100).neg(), crate::double::INF_MAG as nat);
    assert(!p.is_nan());
    lemma_held(p, 100);
    let c = percent_of(x, slots);
    if c.is_inf() {
        lemma_units_order(of_int(100).mag(), c.mag());
    }
}

/// Taking something away leaves no more than there was.
proof fn lemma_taken(a: Double, b: Double, top: Double)
    requires
        at_most(a, top),
        nonnegative(top),
        top.is_finite(),
        nonnegative(b),
        b.is_finite(),
    ensures
        at_most(difference(a, b), top),
{
    lemma_units_zero();
    lemma_nonnegative(b);
    lemma_nonnegative(top);
    lemma_signed(!b.neg(), b.mag());
    let n = crate::double::negated(b);
    let s = a.num() + n.num();
    if a.is_finite() {
        if s < 0 {
            crate::double::lemma_round_range((-s) as nat, 1);
            lemma_signed(true, crate::double::round_mag((-s) as nat, 1));
        } else if s > 0 {
            crate::double::lemma_round_monotone(s as nat, 1, a.num() as nat, 1);
            crate::double::lemma_round_exact(a.mag());
            let m = crate::double::round_mag(s as nat, 1);
            lemma_units_order(m, a.mag());
            lemma_signed(false, m);
        } else {
            lemma_signed(a.neg() && n.neg(), 0);
        }
    } else {
        lemma_units_order(top.mag(), a.mag());
    }
}

/// Counts, as counters give them: numbers that are not below zero.
pub open spec fn counts(s: TopSums) -> bool {
    &&& is_count(s.frontend) && is_count(s.backend) && is_count(s.smt) && is_count(s.retired)
    &&& is_count(s.load_not_complete) && is_count(s.not_complete) && is_count(s.backend_split)
    &&& is_count(slots_of_cycles(s.cycles)) && is_count(slots_of_cycles(s.cycles_split))
}

pub open spec fn is_count(x: Double) -> bool {
    x.is_finite() && nonnegative(x)
}

/// What is left of the slots is at most all of them.
proof fn lemma_bad_slots(s: TopSums)
    requires
        counts(s),
    ensures
        bad_slots(s).is_finite(),
{
    let slots = slots_of_cycles(s.cycles);
    let a = difference(slots, s.frontend);
    let b = difference(a, s.backend);
    let c = difference(b, s.smt);
    let d = difference(c, s.retired);
    lemma_taken(slots, s.frontend, slots);
    lemma_taken(a, s.backend, slots);
    lemma_taken(b, s.smt, slots);
    lemma_taken(c, s.retired, slots);
    lemma_whole_exact(0);
    lemma_nonnegative(slots);
    let x = bad_slots(s);
    if x.is_inf() {
        lemma_units_order(slots.mag(), x.mag());
        lemma_units_zero();
        lemma_units_order(0, x.mag());
    }
}

/// Every row is a percentage between 0 and 100.
pub proof fn law_rows_are_percentages(s: TopSums, i: int)
    requires
        counts(s),
        0 <= i < top_metrics(s).len(),
    ensures
        top_metrics(s)[i].value matches ValueModel::Percent(p) && nonnegative(p) && at_most(
            p,
            of_int(100),
        ),
{
    let v = top_rows(s);
    let slots = slots_of_cycles(s.cycles);
    let j = crate::metric::lemma_rows_from(v, i);
    lemma_whole_exact(0);
    assert(less(of_int(0), slots));
    lemma_percent(s.retired, slots);
    lemma_percent(s.frontend, slots);
    lemma_percent(s.backend, slots);
    lemma_percent(s.smt, slots);
    lemma_bad_slots(s);
    lemma_percent(bad_slots(s), slots);
    assert(v.len() == 7);
    if has_split(s) {
        lemma_split(s);
    }
    assert(j == 0 || j == 1 || j == 2 || j == 3 || j == 4 || j == 5 || j == 6);
}

proof fn lemma_split(s: TopSums)
    requires
        counts(s),
        has_split(s),
    ensures
        ({
            let backend = percent_of(s.backend_split, slots_of_cycles(s.cycles_split));
            let mem = memory_fraction(s);
            let core = difference(of_int(1), mem);
            &&& nonnegative(product(backend, mem)) && at_most(product(backend, mem), of_int(100))
            &&& nonnegative(product(backend, core)) && at_most(product(backend, core), of_int(100))
        }),
{
    let slots = slots_of_cycles(s.cycles_split);
    let backend = percent_of(s.backend_split, slots);
    let mem = memory_fraction(s);
    let core = difference(of_int(1), mem);
    lemma_percent(s.backend_split, slots);
    lemma_whole_exact(0);
    lemma_whole_exact(1);
    lemma_units_zero();
    lemma_units_order(0, s.not_complete.mag());
    vstd::arithmetic::power2::lemma_pow2_pos(1074);
    let q = quotient(s.load_not_complete, s.not_complete);
    let n = crate::double::units_of(s.load_not_complete.mag()) * one_unit();
    let d = crate::double::units_of(s.not_complete.mag());
    crate::double::lemma_round_range(n, d);
    lemma_signed(
        s.load_not_complete.neg() != s.not_complete.neg(),
        crate::double::round_mag(n, d),
    );
    assert(!q.is_nan());
    lemma_held(q, 1);
    assert(1 * one_unit() == one_unit());
    if mem.is_inf() {
        lemma_units_order(of_int(1).mag(), mem.mag());
    }
    lemma_scaled(mem, backend);
    lemma_product_commutes(mem, backend);
    lemma_rest(of_int(1), mem);
    if core.is_inf() {
        lemma_units_order(of_int(1).mag(), core.mag());
    }
    lemma_scaled(core, backend);
    lemma_product_commutes(core, backend);
}

/// Whether `x` is at most `steps` of 2^53 of `whole` away from `exact`.
spec fn is_near(x: int, exact: int, whole: int, steps: int) -> bool {
    &&& (x - exact) * 9007199254740992 <= steps * whole
    &&& (exact - x) * 9007199254740992 <= steps * whole
}

/// Taking a part away from what is nearly a rest leaves nearly what is left of it.
proof fn lemma_left_over(a: Double, part: Double, whole: Double, exact: int, steps: int)
    requires
        is_count(part),
        whole.is_finite(),
        whole.num() > 0,
        a.is_finite(),
        a.num() <= whole.num(),
        0 <= steps <= 4,
        part.num() <= exact <= whole.num(),
        is_near(a.num(), exact, whole.num(), steps),
    ensures
        difference(a, part).is_finite(),
        difference(a, part).num() <= whole.num(),
        is_near(difference(a, part).num(), exact - part.num(), whole.num(), steps + 1),
{
    let w = whole.num();
    lemma_units_zero();
    lemma_nonnegative(part);
    lemma_nonnegative(whole);
    lemma_signed(!part.neg(), part.mag());
    let n = crate::double::negated(part);
    assert(n.num() == -part.num());
    let s = a.num() + n.num();
    assert(steps * w <= 4 * w) by (nonlinear_arith)
        requires
            steps <= 4,
            w > 0,
    ;
    assert((steps + 1) * w == steps * w + w) by (nonlinear_arith);
    assert(-w <= s <= w);
    if s == 0 {
        lemma_signed(a.neg() && n.neg(), 0);
    } else {
        let m: nat = if s < 0 {
            (-s) as nat
        } else {
            s as nat
        };
        crate::double::lemma_round_monotone(m, 1, w as nat, 1);
        crate::double::lemma_round_exact(whole.mag());
        lemma_signed(s < 0, crate::double::round_mag(m, 1));
        crate::double::lemma_steps_error(m);
        lemma_units_order(crate::double::round_mag(m, 1), whole.mag());
    }
}

/// The slots that the four counted causes leave over.
pub open spec fn left_over(s: TopSums) -> int {
    slots_of_cycles(s.cycles).num() - s.frontend.num() - s.backend.num() - s.smt.num()
        - s.retired.num()
}

proof fn lemma_bad_slots_near(s: TopSums)
    requires
        counts(s),
        slots_of_cycles(s.cycles).num() > 0,
        left_over(s) >= 0,
    ensures
        is_count(bad_slots(s)),
        bad_slots(s).num() <= slots_of_cycles(s.cycles).num(),
        is_near(bad_slots(s).num(), left_over(s), slots_of_cycles(s.cycles).num(), 4),
{
    let slots = slots_of_cycles(s.cycles);
    let w = slots.num();
    lemma_nonnegative(s.frontend);
    lemma_nonnegative(s.backend);
    lemma_nonnegative(s.smt);
    lemma_nonnegative(s.retired);
    let a = difference(slots, s.frontend);
    let b = difference(a, s.backend);
    let c = difference(b, s.smt);
    let d = difference(c, s.retired);
    let e = w - s.frontend.num();
    lemma_left_over(slots, s.frontend, slots, w, 0);
    lemma_left_over(a, s.backend, slots, e, 1);
    lemma_left_over(b, s.smt, slots, e - s.backend.num(), 2);
    lemma_left_over(c, s.retired, slots, e - s.backend.num() - s.smt.num(), 3);
    lemma_whole_exact(0);
    lemma_nonnegative(bad_slots(s));
    assert(0 * one_unit() == 0);
    assert(is_near(d.num(), left_over(s), w, 4));
    if d.num() <= 0 {
        assert(bad_slots(s).num() == 0);
    } else {
        assert(bad_slots(s) == d);
    }
}

/// A share of something near is nearly the share.
proof fn lemma_near_share(p: int, x: int, exact: int, whole: int)
    requires
        is_share(p, x, whole, 301),
        is_near(x, exact, whole, 4),
    ensures
        is_share(p, exact, whole, 701),
{
    let u = one_unit() as int;
    let uw = u * whole;
    let (ux, ue) = (u * x, u * exact);
    assert((ux - ue) * 9007199254740992 <= 4 * uw) by (nonlinear_arith)
        requires
            ux == u * x,
            ue == u * exact,
            uw == u * whole,
            (x - exact) * 9007199254740992 <= 4 * whole,
            u >= 0,
    ;
    assert((ue - ux) * 9007199254740992 <= 4 * uw) by (nonlinear_arith)
        requires
            ux == u * x,
            ue == u * exact,
            uw == u * whole,
            (exact - x) * 9007199254740992 <= 4 * whole,
            u >= 0,
    ;
    assert(100 * u * x == 100 * ux && 100 * u * exact == 100 * ue) by (nonlinear_arith)
        requires
            ux == u * x,
            ue == u * exact,
    ;
    assert(301 * u * whole == 301 * uw && 701 * u * whole == 701 * uw) by (nonlinear_arith)
        requires
            uw == u * whole,
    ;
}

/// Five shares of a whole that its parts add up to are together nearly 100.
proof fn lemma_shares_add_up(p: Seq<int>, x: Seq<int>, whole: int)
    requires
        p.len() == 5,
        x.len() == 5,
        whole > 0,
        x[0] + x[1] + x[2] + x[3] + x[4] == whole,
        forall|i: int| 0 <= i < 5 ==> is_share(#[trigger] p[i], x[i], whole, 701),
        forall|i: int| 0 <= i < 4 ==> is_share(#[trigger] p[i], x[i], whole, 301),
    ensures
        ({
            let all = p[0] + p[1] + p[2] + p[3] + p[4];
            let u = one_unit();
            &&& (all - 100 * u) * 4398046511104 <= u
            &&& (100 * u - all) * 4398046511104 <= u
        }),
{
    let u = one_unit() as int;
    let all = p[0] + p[1] + p[2] + p[3] + p[4];
    assert(all * whole == p[0] * whole + p[1] * whole + p[2] * whole + p[3] * whole + p[4] * whole)
        by (nonlinear_arith)
        requires
            all == p[0] + p[1] + p[2] + p[3] + p[4],
    ;
    let h = 100 * u;
    assert(h * whole == h * x[0] + h * x[1] + h * x[2] + h * x[3] + h * x[4]) by (nonlinear_arith)
        requires
            x[0] + x[1] + x[2] + x[3] + x[4] == whole,
    ;
    let uw = u * whole;
    assert(301 * u * whole == 301 * uw && 701 * u * whole == 701 * uw) by (nonlinear_arith)
        requires
            uw == u * whole,
    ;
    assert(is_share(p[0], x[0], whole, 301));
    assert(is_share(p[1], x[1], whole, 301));
    assert(is_share(p[2], x[2], whole, 301));
    assert(is_share(p[3], x[3], whole, 301));
    assert(is_share(p[4], x[4], whole, 701));
    let e = all * whole - h * whole;
    assert(e * 9007199254740992 <= 1905 * uw && -e * 9007199254740992 <= 1905 * uw);
    assert((all - h) * 9007199254740992 <= 1905 * u) by (nonlinear_arith)
        requires
            e == all * whole - h * whole,
            uw == u * whole,
            e * 9007199254740992 <= 1905 * uw,
            whole > 0,
    {
        assert(e * 9007199254740992 == ((all - h) * 9007199254740992) * whole);
        assert(1905 * uw == (1905 * u) * whole);
    }
    assert((h - all) * 9007199254740992 <= 1905 * u) by (nonlinear_arith)
        requires
            e == all * whole - h * whole,
            uw == u * whole,
            -e * 9007199254740992 <= 1905 * uw,
            whole > 0,
    {
        assert(-e * 9007199254740992 == ((h - all) * 9007199254740992) * whole);
        assert(1905 * uw == (1905 * u) * whole);
    }
}

/// The shares of the first level: retiring, frontend, backend, SMT and bad speculation.
pub open spec fn first_level(s: TopSums) -> Seq<Double> {
    let slots = slots_of_cycles(s.cycles);
    seq![
        percent_of(s.retired, slots),
        percent_of(s.frontend, slots),
        percent_of(s.backend, slots),
        percent_of(s.smt, slots),
        percent_of(bad_slots(s), slots),
    ]
}

/// The slots that the shares of the first level are of.
pub open spec fn first_level_slots(s: TopSums) -> Seq<int> {
    seq![s.retired.num(), s.frontend.num(), s.backend.num(), s.smt.num(), left_over(s)]
}

/// One counted cause and its share.
proof fn lemma_counted_share(x: Double, slots: Double)
    requires
        is_count(x),
        slots.is_finite(),
        slots.num() > 0,
        x.num() <= slots.num(),
    ensures
        percent_of(x, slots).is_finite(),
        0 <= percent_of(x, slots).num() <= 100 * one_unit(),
        is_share(percent_of(x, slots).num(), x.num(), slots.num(), 301),
        is_share(percent_of(x, slots).num(), x.num(), slots.num(), 701),
{
    let (u, w) = (one_unit(), slots.num());
    lemma_share(x, slots);
    assert(301 * u * w <= 701 * u * w) by (nonlinear_arith)
        requires
            u >= 0,
            w > 0,
    ;
}

proof fn lemma_first_level(s: TopSums)
    requires
        counts(s),
        slots_of_cycles(s.cycles).num() > 0,
        left_over(s) >= 0,
    ensures
        forall|i: int|
            0 <= i < 5 ==> (#[trigger] first_level(s)[i]).is_finite() && 0 <= first_level(
                s,
            )[i].num() <= 100 * one_unit() && is_share(
                first_level(s)[i].num(),
                first_level_slots(s)[i],
                slots_of_cycles(s.cycles).num(),
                701,
            ) && (i < 4 ==> is_share(
                first_level(s)[i].num(),
                first_level_slots(s)[i],
                slots_of_cycles(s.cycles).num(),
                301,
            )),
{
    let slots = slots_of_cycles(s.cycles);
    let p = first_level(s);
    lemma_nonnegative(s.retired);
    lemma_nonnegative(s.frontend);
    lemma_nonnegative(s.backend);
    lemma_nonnegative(s.smt);
    lemma_counted_share(s.retired, slots);
    lemma_counted_share(s.frontend, slots);
    lemma_counted_share(s.backend, slots);
    lemma_counted_share(s.smt, slots);
    lemma_bad_slots_near(s);
    lemma_counted_share(bad_slots(s), slots);
    lemma_near_share(p[4].num(), bad_slots(s).num(), left_over(s), slots.num());
    assert forall|i: int| 0 <= i < 5 implies (#[trigger] p[i]).is_finite() && 0 <= p[i].num()
        <= 100 * one_unit() && is_share(p[i].num(), first_level_slots(s)[i], slots.num(), 701)
        && (i < 4 ==> is_share(p[i].num(), first_level_slots(s)[i], slots.num(), 301)) by {
        assert(i == 0 || i == 1 || i == 2 || i == 3 || i == 4);
    }
}

/// The rows that hold the shares of the first level.
proof fn lemma_first_level_rows(s: TopSums)
    ensures
        forall|i: int|
            0 <= i < 4 ==> (#[trigger] top_rows(s)[i]) is Some && top_rows(s)[i]->0.value
                == ValueModel::Percent(first_level(s)[i]),
        top_rows(s)[6] is Some && top_rows(s)[6]->0.value == ValueModel::Percent(
            first_level(s)[4],
        ),
        top_rows(s)[4] is Some == top_rows(s)[5] is Some,
{
    let v = top_rows(s);
    assert forall|i: int| 0 <= i < 4 implies (#[trigger] v[i]) is Some && v[i]->0.value
        == ValueModel::Percent(first_level(s)[i]) by {
        assert(i == 0 || i == 1 || i == 2 || i == 3);
    }
}

/// The first level partitions the slots. Where the counted causes do not exceed the slots,
/// each share is 100 times its slots over all slots, to within 701 parts of 2^53, and the
/// five are together 100, to within 2^-42. The two parts of the backend come together.
pub proof fn law_first_level_partitions_the_slots(s: TopSums)
    requires
        counts(s),
        slots_of_cycles(s.cycles).num() > 0,
        left_over(s) >= 0,
    ensures
        ({
            let p = first_level(s);
            let all = p[0].num() + p[1].num() + p[2].num() + p[3].num() + p[4].num();
            &&& forall|i: int|
                0 <= i < 5 ==> (#[trigger] p[i]).is_finite() && 0 <= p[i].num() <= 100
                    * one_unit() && is_share(
                    p[i].num(),
                    first_level_slots(s)[i],
                    slots_of_cycles(s.cycles).num(),
                    701,
                )
            &&& (all - 100 * one_unit()) * 4398046511104 <= one_unit()
            &&& (100 * one_unit() - all) * 4398046511104 <= one_unit()
        }),
        forall|i: int|
            0 <= i < 4 ==> (#[trigger] top_rows(s)[i]) is Some && top_rows(s)[i]->0.value
                == ValueModel::Percent(first_level(s)[i]),
        top_rows(s)[6] is Some && top_rows(s)[6]->0.value == ValueModel::Percent(
            first_level(s)[4],
        ),
        top_rows(s)[4] is Some == top_rows(s)[5] is Some,
{
    let w = slots_of_cycles(s.cycles).num();
    let p = first_level(s);
    let x = first_level_slots(s);
    let q = Seq::new(5, |i: int| p[i].num());
    lemma_first_level(s);
    lemma_first_level_rows(s);
    assert forall|i: int| 0 <= i < 5 implies is_share(#[trigger] q[i], x[i], w, 701) && (i < 4
        ==> is_share(q[i], x[i], w, 301)) by {
        assert(q[i] == p[i].num());
    }
    lemma_shares_add_up(q, x, w);
}

/// A read of a live group replaces the one before, whole; the split is read where it was opened.
/// A group that died before it was ever read is dropped, and no other.
pub proof fn law_a_read_is_taken_whole(g: TopModel, r: TopWords)
    ensures
        !g.main_dead && values_in(r.main, 5) is Some ==> polled_top(g, r).main == values_in(
            r.main,
            5,
        ) && !polled_top(g, r).main_dead,
        g.split_open && !g.split_dead && values_in(r.split, 2) is Some ==> polled_top(g, r).split
            == values_in(r.split, 2) && !polled_top(g, r).split_dead,
        g.split_open && !g.split_dead && values_in(r.split, 2) is None ==> polled_top(g, r).split
            == g.split && polled_top(g, r).split_dead,
        !g.split_open ==> polled_top(g, r).split == g.split,
        !kept(polled_top(g, r)) <==> polled_top(g, r).main_dead && polled_top(g, r).main is None,
        kept(fresh(g.split_open)),
{
}

/// Of the groups those are kept that have something to say, in their order.
pub proof fn law_groups_are_kept_in_order(v: Seq<TopModel>, g: TopModel)
    ensures
        all_kept(v.push(g)) == if g.main_dead && g.main is None {
            all_kept(v)
        } else {
            all_kept(v).push(g)
        },
        all_kept(Seq::empty()).len() == 0,
{
    assert(v.push(g).drop_last() =~= v);
}

} // verus!
