//! Wall-clock elapsed time.

use crate::metric::{metrics_of, since, Duration, Metric, MetricModel, MetricValue, ValueModel};
use vstd::prelude::*;

verus! {

/// Measures wall-clock elapsed time between `start` and `finish`, on readings of a
/// monotonic clock.
///
/// The simplest possible collector: it needs no privileges and works on any platform,
/// so it doubles as a smoke test for the collector harness.
pub struct ElapsedCollector {
    pub started: Option<Duration>,
}

/// The time since `started`, none where nothing was started.
pub open spec fn elapsed_since(started: Option<Duration>, now: Duration) -> Duration {
    match started {
        Some(s) => since(now, s),
        None => Duration { secs: 0, nanos: 0 },
    }
}

/// The time since `started`.
pub fn time_since(started: Option<Duration>, now: Duration) -> (r: Duration)
    requires
        now.wf(),
        started matches Some(s) ==> s.wf(),
    ensures
        r == elapsed_since(started, now),
        r.wf(),
{
    match started {
        Some(s) => now.since(s),
        None => Duration { secs: 0, nanos: 0 },
    }
}

/// The metric of an elapsed time.
pub open spec fn elapsed_metric(d: Duration) -> MetricModel {
    MetricModel {
        key: "elapsed_time"@,
        label: "Elapsed time"@,
        value: ValueModel::Duration(d),
    }
}

impl ElapsedCollector {
    pub open spec fn wf(&self) -> bool {
        self.started matches Some(s) ==> s.wf()
    }

    pub fn new() -> (r: ElapsedCollector)
        ensures
            r.started is None,
            r.wf(),
    {
        ElapsedCollector { started: None }
    }

    pub fn name(&self) -> (r: &'static str)
        ensures
            r@ == "elapsed"@,
    {
        "elapsed"
    }

    pub fn start(&mut self, now: Duration)
        requires
            now.wf(),
        ensures
            final(self).started == Some(now),
            final(self).wf(),
    {
        self.started = Some(now);
    }

    pub fn finish(&self, now: Duration) -> (r: Vec<Metric>)
        requires
            self.wf(),
            now.wf(),
        ensures
            metrics_of(r@) == seq![elapsed_metric(elapsed_since(self.started, now))],
    {
        let mut out: Vec<Metric> = Vec::new();
        let m: Metric = Metric {
            key: "elapsed_time",
            label: "Elapsed time".to_string(),
            value: MetricValue::Duration(time_since(self.started, now)),
        };
        out.push(m);
        assert(metrics_of(out@) =~= seq![m@]);
        out
    }
}

} // verus!
