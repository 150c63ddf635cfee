//! Universal Application Performance Snapshot.
//!
//! `uaps` launches a program, samples it from the outside while it runs, and reports one
//! page of what bounds it: CPU, memory, I/O, threads, MPI. This library is what it decides
//! and computes; reading files, opening counters and launching programs is left to the
//! program around it.
//!
//! - Numbers: [`natural`] and [`double`] are arithmetic, [`bounds`] what it keeps within
//!   limits, [`decimal`] how numbers are written and read.
//! - Text: [`text`], [`table`], [`json`], [`pattern`].
//! - The model: [`metric`], what [`derive`](mod@derive) computes from it, what [`insights`]
//!   concludes, and how [`report`] renders it.
//! - Events: [`pmudb`] finds and encodes them, [`formula`] and [`evaluate`] compute the
//!   metrics that a CPU vendor defines over them.
//! - Collectors: [`elapsed`], [`proc`], [`threads`], [`perf`], [`raw_pmu`], [`sw`],
//!   [`hwpc`], [`topdown`], [`mpi`], on the counter groups of [`pmu`].
//! - Runs: [`launch`] sets one up, [`session`] makes its snapshot, [`aggregate`] reduces
//!   those of many ranks, [`net`] carries them, [`env`] reads the launcher's environment.
//!
//! What holds of all of these is stated beside them or in modules of its own: [`arithmetic`]
//! of numbers, [`wording`] and [`displays`] of texts, [`language`] of formulas, [`counters`],
//! [`throughput`], [`slots`], [`trees`], [`usage`] and [`balance`] of what is collected,
//! [`machines`], [`launches`] and [`notices`] of runs, [`jobs`] and [`ratios`] of many ranks.

pub mod aggregate;
pub mod arithmetic;
pub mod balance;
pub mod bounds;
pub mod catalogues;
pub mod collector;
pub mod counters;
pub mod cpu;
pub mod decimal;
pub mod derive;
pub mod displays;
pub mod double;
pub mod elapsed;
pub mod env;
pub mod evaluate;
pub mod fallback;
pub mod fields;
pub mod formula;
pub mod gpu;
pub mod hwpc;
pub mod insights;
pub mod jobs;
pub mod json;
pub mod language;
pub mod launch;
pub mod launches;
pub mod machines;
pub mod metric;
pub mod mpi;
pub mod natural;
pub mod net;
pub mod notices;
pub mod omp;
pub mod pattern;
pub mod perf;
pub mod pmu;
pub mod pmudb;
pub mod proc;
pub mod ratios;
pub mod raw_pmu;
pub mod report;
pub mod session;
pub mod shares;
pub mod slots;
pub mod sources;
pub mod sw;
pub mod table;
pub mod text;
pub mod threads;
pub mod throughput;
pub mod topdown;
pub mod trees;
pub mod usage;
pub mod wording;
