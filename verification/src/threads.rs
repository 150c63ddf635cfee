//! Thread imbalance from per-thread CPU time.
//!
//! Samples each thread's accumulated CPU time and, at the end, measures how unevenly
//! work was spread across the threads that did meaningful work. This applies to any
//! threading model without instrumenting the runtime. It is a heuristic: it reflects
//! whole-run balance, and threads doing less than a tenth of the busiest thread's work
//! are taken for coordinators and left out.

use crate::bounds::nonnegative;
use crate::double::{
    at_most, difference, greatest, greatest_of, less, of_int, one_unit, product, quotient, total,
    total_of, Double,
};
use crate::metric::{int_metric, metrics_of, percent_metric, push_metric, Metric, MetricModel};
use crate::text::{after_last, chars_of, parse_u64, rsplit, texts, unsigned_of, words, words_of};
use vstd::prelude::*;

verus! {

/// User and system time, in clock ticks, of a `stat` line: words 12 and 13 after the
/// last `)`. None where the line is malformed or the sum is past counting.
pub open spec fn cpu_ticks_of(stat: Seq<char>) -> Option<u64> {
    match after_last(stat, ')') {
        Some(rest) => {
            let f = words_of(rest);
            if f.len() > 12 {
                match (
                    unsigned_of(f[11], 10, u64::MAX as nat),
                    unsigned_of(f[12], 10, u64::MAX as nat),
                ) {
                    (Some(u), Some(s)) => if u + s <= u64::MAX {
                        Some((u + s) as u64)
                    } else {
                        None
                    },
                    _ => None,
                }
            } else {
                None
            }
        },
        None => None,
    }
}

/// The ticks of a second: those that the system says, 100 where it says none.
pub open spec fn ticks_per_second(clk_tck: i64) -> int {
    if clk_tck > 0 {
        clk_tck as int
    } else {
        100
    }
}

/// A second has the ticks that the system says, and a hundred where it says none.
pub proof fn law_a_second_has_a_hundred_ticks_unless_said(clk_tck: i64)
    ensures
        clk_tck > 0 ==> ticks_per_second(clk_tck) == clk_tck,
        clk_tck <= 0 ==> ticks_per_second(clk_tck) == 100,
{
}

/// User and system time of a `stat` line.
pub fn cpu_ticks(stat: &str) -> (r: Option<u64>)
    ensures
        r == cpu_ticks_of(stat@),
{
    let v: Vec<char> = chars_of(stat);
    match rsplit(v.as_slice(), ')') {
        None => None,
        Some(rest) => {
            let f: Vec<&[char]> = words(rest);
            assert(texts(f@).len() == f@.len());
            if f.len() > 12 {
                assert(texts(f@)[11] == f@[11]@ && texts(f@)[12] == f@[12]@);
                match (parse_u64(f[11]), parse_u64(f[12])) {
                    (Some(u), Some(s)) => u.checked_add(s),
                    _ => None,
                }
            } else {
                None
            }
        },
    }
}

/// The ticks of each thread, the thread's set to the given ones; a thread not seen
/// before comes last.
pub open spec fn recorded(last: Seq<(i32, u64)>, tid: i32, ticks: u64) -> Seq<(i32, u64)>
    decreases last.len(),
{
    if last.len() == 0 {
        seq![(tid, ticks)]
    } else if last[0].0 == tid {
        seq![(tid, ticks)] + last.skip(1)
    } else {
        seq![last[0]] + recorded(last.skip(1), tid, ticks)
    }
}

/// CPU seconds of the threads that have any.
pub open spec fn busy_seconds(last: Seq<(i32, u64)>, clk_tck: u64) -> Seq<Double>
    decreases last.len(),
{
    if last.len() == 0 {
        Seq::empty()
    } else {
        let before = busy_seconds(last.drop_last(), clk_tck);
        let s = quotient(of_int(last.last().1 as int), of_int(clk_tck as int));
        if less(of_int(0), s) {
            before.push(s)
        } else {
            before
        }
    }
}

/// The threads that did at least a tenth of the most.
pub open spec fn workers(cpu: Seq<Double>, max: Double) -> Seq<Double>
    decreases cpu.len(),
{
    if cpu.len() == 0 {
        Seq::empty()
    } else {
        let before = workers(cpu.drop_last(), max);
        if at_most(product(quotient(of_int(1), of_int(10)), max), cpu.last()) {
            before.push(cpu.last())
        } else {
            before
        }
    }
}

/// How far the mean is below the most, in percent of the most.
pub open spec fn gap_percent(max: Double, mean: Double) -> Double {
    if less(of_int(0), max) {
        product(quotient(difference(max, mean), max), of_int(100))
    } else {
        of_int(0)
    }
}

/// The metrics of the threads' times; none where fewer than two threads ran.
pub open spec fn thread_metrics(last: Seq<(i32, u64)>, clk_tck: u64) -> Seq<MetricModel> {
    let cpu = busy_seconds(last, clk_tck);
    if cpu.len() < 2 {
        Seq::empty()
    } else {
        let max = greatest(of_int(0), cpu);
        let active = workers(cpu, max);
        let mean = quotient(total(active), of_int(active.len() as int));
        seq![
            int_metric("active_threads"@, "Active worker threads"@, active.len() as i64),
            percent_metric("thread_imbalance_pct"@, "Thread imbalance"@, gap_percent(max, mean)),
        ]
    }
}

pub struct ThreadCollector {
    pub clk_tck: u64,
    /// The most recent ticks of each thread.
    pub last: Vec<(i32, u64)>,
}

impl ThreadCollector {
    /// The collector for a clock of `clk_tck` ticks per second, 100 where that is unknown.
    pub fn new(clk_tck: i64) -> (r: ThreadCollector)
        ensures
            r.clk_tck == if clk_tck > 0 {
                clk_tck as u64
            } else {
                100
            },
            r.clk_tck == ticks_per_second(clk_tck),
            r.last@.len() == 0,
    {
        ThreadCollector {
            clk_tck: if clk_tck > 0 {
                clk_tck as u64
            } else {
                100
            },
            last: Vec::new(),
        }
    }

    pub fn name(&self) -> (r: &'static str)
        ensures
            r@ == "threads"@,
    {
        "threads"
    }

    fn record(&mut self, tid: i32, ticks: u64)
        ensures
            final(self).last@ == recorded(old(self).last@, tid, ticks),
            final(self).clk_tck == old(self).clk_tck,
    {
        let ghost all = self.last@;
        let mut i: usize = 0;
        assert(all.take(0) + recorded(all.skip(0), tid, ticks) =~= recorded(all, tid, ticks)) by {
            assert(all.skip(0) =~= all);
        }
        while i < self.last.len()
            invariant
                i <= self.last.len(),
                self.last@ == all,
                all == old(self).last@,
                self.clk_tck == old(self).clk_tck,
                recorded(all, tid, ticks) == all.take(i as int) + recorded(
                    all.skip(i as int),
                    tid,
                    ticks,
                ),
            decreases self.last.len() - i,
        {
            proof {
                assert(all.skip(i as int)[0] == all[i as int]);
                assert(all.skip(i as int).skip(1) =~= all.skip(i + 1));
            }
            if self.last[i].0 == tid {
                self.last.set(i, (tid, ticks));
                assert(self.last@ =~= all.take(i as int) + (seq![(tid, ticks)] + all.skip(i + 1)));
                return;
            }
            proof {
                let rest = recorded(all.skip(i + 1), tid, ticks);
                assert(all.take(i as int) + (seq![all[i as int]] + rest) =~= all.take(i + 1)
                    + rest);
            }
            i += 1;
        }
        self.last.push((tid, ticks));
        assert(all.take(i as int) =~= all);
        assert(self.last@ =~= all + seq![(tid, ticks)]);
    }

    /// Takes in one thread's `stat` line; a malformed one changes nothing.
    pub fn sample(&mut self, tid: i32, stat: &str)
        ensures
            final(self).last@ == match cpu_ticks_of(stat@) {
                Some(ticks) => recorded(old(self).last@, tid, ticks),
                None => old(self).last@,
            },
            final(self).clk_tck == old(self).clk_tck,
    {
        match cpu_ticks(stat) {
            Some(ticks) => self.record(tid, ticks),
            None => {},
        }
    }

    fn busy(&self) -> (r: Vec<Double>)
        ensures
            r@ == busy_seconds(self.last@, self.clk_tck),
    {
        let mut out: Vec<Double> = Vec::new();
        let mut i: usize = 0;
        assert(self.last@.take(0) =~= Seq::empty());
        while i < self.last.len()
            invariant
                i <= self.last.len(),
                out@ == busy_seconds(self.last@.take(i as int), self.clk_tck),
            decreases self.last.len() - i,
        {
            proof {
                let next = self.last@.take(i + 1);
                assert(next.drop_last() =~= self.last@.take(i as int));
                assert(next.last() == self.last@[i as int]);
            }
            let s: Double = Double::from_u64(self.last[i].1).over(Double::from_u64(self.clk_tck));
            if Double::from_u64(0).lt(s) {
                out.push(s);
            }
            i += 1;
        }
        assert(self.last@.take(i as int) =~= self.last@);
        out
    }

    pub fn finish(&self) -> (r: Vec<Metric>)
        ensures
            metrics_of(r@) == thread_metrics(self.last@, self.clk_tck),
    {
        let mut out: Vec<Metric> = Vec::new();
        assert(metrics_of(out@) =~= Seq::empty());
        let cpu: Vec<Double> = self.busy();
        if cpu.len() < 2 {
            return out;  // not a meaningfully threaded run
        }
        let max: Double = greatest_of(Double::from_u64(0), &cpu);
        let floor: Double = Double::from_u64(1).over(Double::from_u64(10)).times(max);
        let mut active: Vec<Double> = Vec::new();
        let mut i: usize = 0;
        assert(cpu@.take(0) =~= Seq::empty());
        while i < cpu.len()
            invariant
                i <= cpu.len(),
                floor == product(quotient(of_int(1), of_int(10)), max),
                active@ == workers(cpu@.take(i as int), max),
            decreases cpu.len() - i,
        {
            proof {
                let next = cpu@.take(i + 1);
                assert(next.drop_last() =~= cpu@.take(i as int));
            }
            if floor.le(cpu[i]) {
                active.push(cpu[i]);
            }
            i += 1;
        }
        assert(cpu@.take(i as int) =~= cpu@);
        let mean: Double = total_of(&active).over(Double::from_u64(active.len() as u64));
        let imbalance: Double = if Double::from_u64(0).lt(max) {
            max.minus(mean).over(max).times(Double::from_u64(100))
        } else {
            Double::from_u64(0)
        };
        push_metric(
            &mut out,
            Metric::count("active_threads", "Active worker threads", active.len() as i64),
        );
        push_metric(&mut out, Metric::percent("thread_imbalance_pct", "Thread imbalance", imbalance));
        assert(metrics_of(out@) =~= thread_metrics(self.last@, self.clk_tck));
        out
    }
}

/// A thread is known by its last sample alone.
pub proof fn law_last_sample_counts(last: Seq<(i32, u64)>, tid: i32, a: u64, b: u64)
    ensures
        recorded(recorded(last, tid, a), tid, b) == recorded(last, tid, b),
    decreases last.len(),
{
    if last.len() == 0 {
        assert(seq![(tid, a)].skip(1) =~= Seq::empty());
        assert(seq![(tid, b)] + Seq::<(i32, u64)>::empty() =~= seq![(tid, b)]);
    } else if last[0].0 == tid {
        let r = seq![(tid, a)] + last.skip(1);
        assert(r.skip(1) =~= last.skip(1));
    } else {
        law_last_sample_counts(last.skip(1), tid, a, b);
        let r = recorded(last, tid, a);
        assert(r[0] == last[0]);
        assert(r.skip(1) =~= recorded(last.skip(1), tid, a));
    }
}

/// The imbalance is at most 100 percent: the busiest thread did something.
pub proof fn law_imbalance_is_bounded(max: Double, active: Seq<Double>)
    requires
        max.is_finite(),
        forall|i: int| 0 <= i < active.len() ==> nonnegative(#[trigger] active[i]),
        0 < active.len() <= u64::MAX,
    ensures
        at_most(
            gap_percent(max, quotient(total(active), of_int(active.len() as int))),
            of_int(100),
        ),
{
    let mean = quotient(total(active), of_int(active.len() as int));
    crate::bounds::lemma_total_nonnegative(active);
    crate::bounds::lemma_mean_nonnegative(total(active), active.len());
    crate::double::lemma_whole_exact(0);
    crate::double::lemma_whole_exact(100);
    if less(of_int(0), max) {
        crate::bounds::lemma_shortfall(max, mean);
    } else {
        assert(0 * one_unit() <= 100 * one_unit());
    }
}

} // verus!
