//! Placeholder collectors.
//!
//! The `/proc` and counter backends exist on Linux alone. Elsewhere these keep the
//! program working with the collectors that run anywhere: they start, and report nothing.

use crate::collector::Target;
use crate::metric::Metric;
use vstd::prelude::*;

verus! {

/// Placeholder for the `/proc` collector.
#[derive(Debug, Clone, Copy)]
pub struct ProcCollector;

impl ProcCollector {
    pub fn new() -> (r: ProcCollector)
        ensures
            r == ProcCollector,
    {
        ProcCollector
    }

    pub fn name(&self) -> (r: &'static str)
        ensures
            r@ == "proc"@,
    {
        "proc"
    }

    pub fn start(&mut self, _target: &Target)
        ensures
            *final(self) == *old(self),
    {
    }

    pub fn finish(&mut self) -> (r: Vec<Metric>)
        ensures
            r@.len() == 0,
            *final(self) == *old(self),
    {
        Vec::new()
    }
}

/// Placeholder for the hardware counters.
#[derive(Debug, Clone, Copy)]
pub struct PerfCollector;

impl PerfCollector {
    pub fn new() -> (r: PerfCollector)
        ensures
            r == PerfCollector,
    {
        PerfCollector
    }

    pub fn name(&self) -> (r: &'static str)
        ensures
            r@ == "perf"@,
    {
        "perf"
    }

    pub fn start(&mut self, _target: &Target)
        ensures
            *final(self) == *old(self),
    {
    }

    pub fn finish(&mut self) -> (r: Vec<Metric>)
        ensures
            r@.len() == 0,
            *final(self) == *old(self),
    {
        Vec::new()
    }
}

/// Placeholder for the per-thread collector.
#[derive(Debug, Clone, Copy)]
pub struct ThreadCollector;

impl ThreadCollector {
    pub fn new() -> (r: ThreadCollector)
        ensures
            r == ThreadCollector,
    {
        ThreadCollector
    }

    pub fn name(&self) -> (r: &'static str)
        ensures
            r@ == "threads"@,
    {
        "threads"
    }

    pub fn start(&mut self, _target: &Target)
        ensures
            *final(self) == *old(self),
    {
    }

    pub fn finish(&mut self) -> (r: Vec<Metric>)
        ensures
            r@.len() == 0,
            *final(self) == *old(self),
    {
        Vec::new()
    }
}

/// Placeholder for the vendor event collector.
#[derive(Debug, Clone, Copy)]
pub struct RawPmuCollector;

impl RawPmuCollector {
    pub fn new() -> (r: RawPmuCollector)
        ensures
            r == RawPmuCollector,
    {
        RawPmuCollector
    }

    pub fn name(&self) -> (r: &'static str)
        ensures
            r@ == "raw_pmu"@,
    {
        "raw_pmu"
    }

    pub fn start(&mut self, _target: &Target)
        ensures
            *final(self) == *old(self),
    {
    }

    pub fn finish(&mut self) -> (r: Vec<Metric>)
        ensures
            r@.len() == 0,
            *final(self) == *old(self),
    {
        Vec::new()
    }
}

/// Placeholder for the top-down collector.
#[derive(Debug, Clone, Copy)]
pub struct TopdownCollector;

impl TopdownCollector {
    pub fn new() -> (r: TopdownCollector)
        ensures
            r == TopdownCollector,
    {
        TopdownCollector
    }

    pub fn name(&self) -> (r: &'static str)
        ensures
            r@ == "topdown"@,
    {
        "topdown"
    }

    pub fn start(&mut self, _target: &Target)
        ensures
            *final(self) == *old(self),
    {
    }

    pub fn finish(&mut self) -> (r: Vec<Metric>)
        ensures
            r@.len() == 0,
            *final(self) == *old(self),
    {
        Vec::new()
    }
}

/// Placeholder for the kernel software-event collector.
#[derive(Debug, Clone, Copy)]
pub struct SwCollector;

impl SwCollector {
    pub fn new() -> (r: SwCollector)
        ensures
            r == SwCollector,
    {
        SwCollector
    }

    pub fn name(&self) -> (r: &'static str)
        ensures
            r@ == "sw"@,
    {
        "sw"
    }

    pub fn start(&mut self, _target: &Target)
        ensures
            *final(self) == *old(self),
    {
    }

    pub fn finish(&mut self) -> (r: Vec<Metric>)
        ensures
            r@.len() == 0,
            *final(self) == *old(self),
    {
        Vec::new()
    }
}

} // verus!
