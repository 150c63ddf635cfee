use uaps::aggregate::{
    aggregate, is_rank_file, leak, parse_rank, short_count_warning, typed, Aggregate,
    AggregateError, RankFile,
};
use uaps::double::Double;
use uaps::env::{mpi_world_size_from_env, node_host, rank_from_env, Environment};
use uaps::launch::{
    child_args, choose_shim, interval_millis, lacks_output, manifest, mirrored_exit,
    normalize_argv, per_rank_notice, plan, preload, report_command, wide_notice, Candidate,
    RunPlan, RunRequest,
};
use uaps::metric::{Duration, Metric, MetricValue, Snapshot};
use uaps::mpi::{is_shim_file, MpiCollector};
use uaps::net::{
    collector_address, collector_host, decode_header, encode_frame, tries_again, Action, Event,
    Gathering,
};
use uaps::report::{render_json, Format};
use uaps::session::{
    assemble, idle_note, job_report, missing_data_warning, rank_report, snap_name, tag_node,
    wrapper_warning, Watch,
};

fn d(x: f64) -> Double {
    Double::from_bits(x.to_bits())
}

fn f(x: Double) -> f64 {
    f64::from_bits(x.bits)
}

fn env(vars: &[(&str, &str)]) -> Environment {
    Environment { vars: vars.iter().map(|(k, v)| (k.to_string(), v.to_string())).collect() }
}

fn strings(v: &[&str]) -> Vec<String> {
    v.iter().map(|s| s.to_string()).collect()
}

fn file(name: &str, text: &str) -> RankFile {
    RankFile { name: name.to_string(), text: Some(text.to_string()) }
}

fn write_rank(rank: usize, rows: &[(&str, f64, &str)]) -> RankFile {
    let body: Vec<String> = rows
        .iter()
        .map(|(k, v, u)| {
            format!(
                "    {{\"key\": \"{k}\", \"label\": \"{k}\", \"value\": {v}, \"unit\": \"{u}\", \"display\": \"x\"}}"
            )
        })
        .collect();
    let json = format!("{{\n  \"metrics\": [\n{}\n  ]\n}}\n", body.join(",\n"));
    RankFile { name: format!("snap.{rank}.json"), text: Some(json) }
}

fn get(s: &Snapshot, key: &str) -> f64 {
    match s.numeric(key) {
        Some(x) => f(x),
        None => panic!("missing metric {key}"),
    }
}

fn done(r: Result<Aggregate, AggregateError>) -> Aggregate {
    match r {
        Ok(a) => a,
        Err(e) => panic!("{e:?}"),
    }
}

#[test]
fn reduces_sum_max_mean_and_recomputes_ratios() {
    // rank 0: ipc would be 1.0 (100/100); rank 1: 3.0 (300/100).
    let files = vec![
        write_rank(0, &[
            ("hw_instructions", 100.0, ""), ("hw_cpu_cycles", 100.0, ""),
            ("gflops", 10.0, "GFLOP/s"), ("elapsed_time", 2.0, "s"), ("cpu_time", 2.0, "s"),
            ("vectorization_pct", 40.0, "%"),
        ]),
        write_rank(1, &[
            ("hw_instructions", 300.0, ""), ("hw_cpu_cycles", 100.0, ""),
            ("gflops", 30.0, "GFLOP/s"), ("elapsed_time", 4.0, "s"), ("cpu_time", 4.0, "s"),
            ("vectorization_pct", 60.0, "%"),
        ]),
    ];

    let a = done(aggregate(&files));
    let (agg, n) = (a.snapshot, a.nranks);
    assert_eq!(n, 2);
    assert_eq!(get(&agg, "nranks"), 2.0);
    // sums:
    assert!((get(&agg, "gflops") - 40.0).abs() < 1e-9, "gflops sum");
    assert!((get(&agg, "hw_instructions") - 400.0).abs() < 1e-9);
    assert!((get(&agg, "cpu_time") - 6.0).abs() < 1e-9, "cpu_time sum");
    // maximum of the wall times:
    assert!((get(&agg, "elapsed_time") - 4.0).abs() < 1e-9, "elapsed max");
    // mean of percentages:
    assert!((get(&agg, "vectorization_pct") - 50.0).abs() < 1e-9, "vec mean");
    // ratios of the summed counts
    assert!((get(&agg, "ipc") - 2.0).abs() < 1e-9, "ipc from summed raws");
    assert!((get(&agg, "cpi") - 0.5).abs() < 1e-9, "cpi from summed raws (not mean)");
    // gflops [10,30]: (30-20)/30 = 33.33%
    assert!((get(&agg, "gflops_imbalance_pct") - 100.0 / 3.0).abs() < 1e-6, "gflops imb");
    // cpu_time [2,4]: (4-3)/4 = 25%
    assert!((get(&agg, "cpu_time_imbalance_pct") - 25.0).abs() < 1e-9, "cpu_time imb");
}

#[test]
fn skips_truncated_rank_files_without_aborting() {
    let files = vec![
        write_rank(0, &[("gflops", 12.0, "GFLOP/s"), ("elapsed_time", 1.0, "s")]),
        // a rank killed in the middle of writing leaves a truncated file:
        file("snap.1.json", "{\"metrics\": [ {\"key\": \"gfl"),
        // and a stray file must be ignored:
        file("rank_2.txt", "rank=2\n"),
    ];
    let a = done(aggregate(&files));
    assert_eq!(a.nranks, 1, "only the one good rank counted");
    assert!((get(&a.snapshot, "gflops") - 12.0).abs() < 1e-9);
}

#[test]
fn empty_dir_is_an_error_not_a_panic() {
    assert!(aggregate(&vec![]).is_err());
    assert!(matches!(aggregate(&vec![]), Err(AggregateError::NoRanks)));
}

#[test]
fn short_aggregate_surfaces_world_size_for_undercount_detection() {
    // The job had 4 ranks, but only 2 snapshots are here.
    let files = vec![
        write_rank(0, &[("gflops", 5.0, "GFLOP/s"), ("mpi_world_size", 4.0, "")]),
        write_rank(1, &[("gflops", 5.0, "GFLOP/s"), ("mpi_world_size", 4.0, "")]),
    ];
    let a = done(aggregate(&files));
    assert_eq!(a.nranks, 2, "only 2 of the job's ranks reported back");
    assert_eq!(get(&a.snapshot, "nranks"), 2.0);
    assert_eq!(get(&a.snapshot, "mpi_world_size"), 4.0, "world size maxed, not summed (would be 8)");
    assert!(a.warning.unwrap().contains("aggregated 2 of 4 ranks"));
}

#[test]
fn short_count_warning_fires_only_when_ranks_are_missing() {
    // complete run, or unknown world size: no warning
    assert!(short_count_warning(4, Some(4)).is_none());
    assert!(short_count_warning(8, None).is_none());
    assert!(short_count_warning(5, Some(4)).is_none()); // never negative
    // short run: an actionable warning naming the gap
    let w = short_count_warning(2, Some(4)).expect("should warn");
    assert!(w.contains("aggregated 2 of 4 ranks"), "{w}");
    assert!(w.contains("never reported"), "{w}");
    assert_eq!(
        w,
        "uaps: WARNING: aggregated 2 of 4 ranks — 2 never reported (crashed, or could not \
         reach the launch-node collector). The job-level metrics below reflect only the 2 \
         ranks that completed."
    );
    assert!(short_count_warning(2, Some(-1)).unwrap().contains("of 18446744073709551615 ranks"));
}

#[test]
fn a_time_past_counting_is_an_error() {
    let files = vec![
        write_rank(0, &[("cpu_time", 1e19, "s")]),
        write_rank(1, &[("cpu_time", 1e19, "s")]),
    ];
    assert!(matches!(aggregate(&files), Err(AggregateError::TooLong)));
    let below = vec![write_rank(0, &[("cpu_time", -5.0, "s")])];
    assert_eq!(get(&done(aggregate(&below)).snapshot, "cpu_time"), 0.0);
}

#[test]
fn rank_rows_are_read() {
    let text = r#"{"host": "n1", "metrics": [
        {"key": "a", "label": "A", "value": 1.5, "unit": "x"},
        {"key": "b", "value": 2},
        {"key": "c", "value": null},
        {"label": "no key", "value": 1},
        {"key": "a", "label": "again", "value": 3}
    ]}"#;
    let m = parse_rank(text).unwrap();
    assert_eq!(m.len(), 2);
    let a = m.get("a").unwrap();
    assert_eq!((f(a.value), a.unit.as_str(), a.label.as_str()), (3.0, "", "again"));
    let b = m.get("b").unwrap();
    assert_eq!((f(b.value), b.unit.as_str(), b.label.as_str()), (2.0, "", "b"));
    assert!(parse_rank("[]").is_none());
    assert!(parse_rank("{\"metrics\": 3}").is_none());
    assert!(parse_rank("{").is_none());
    assert!(is_rank_file("snap.0.json") && !is_rank_file("snap.json"));
    assert!(!is_rank_file("snap.0.txt") && !is_rank_file("rank_0.txt"));
}

#[test]
fn values_get_their_types_back() {
    assert!(matches!(typed(d(1.5), "s"), MetricValue::Duration(t) if t == Duration::from_millis(1500)));
    assert!(matches!(typed(d(-1.0), "bytes"), MetricValue::Bytes(0)));
    assert!(matches!(typed(d(7.0), "bytes"), MetricValue::Bytes(7)));
    assert!(matches!(typed(d(3.0), ""), MetricValue::Int { value: 3, unit: "" }));
    assert!(matches!(typed(d(3.5), ""), MetricValue::Float { unit: "", .. }));
    assert!(matches!(typed(d(9e18), ""), MetricValue::Float { unit: "", .. }));
    assert!(matches!(typed(d(5.0), "%"), MetricValue::Percent(p) if f(p) == 5.0));
    assert!(matches!(typed(d(5.0), "GHz"), MetricValue::Float { unit: "GHz", .. }));
    let kept: &'static str = leak(&String::from("kept"));
    assert_eq!(kept, "kept");
}

#[test]
fn a_snapshot_comes_back_from_its_rank_file() {
    let mut s = Snapshot::default();
    s.push(Metric::float("gflops", "FP throughput", d(1.25), "GFLOP/s"));
    s.push(Metric::count("hw_instructions", "Instr \"x\"", 12345));
    s.push(Metric::bytes("disk_read", "Disk read", 4096));
    s.push(Metric {
        key: "elapsed_time",
        label: "Elapsed time".into(),
        value: MetricValue::Duration(Duration::from_millis(2500)),
    });
    let e = env(&[("PMI_RANK", "3"), ("PMI_SIZE", "8")]);
    let r = rank_report(s, &e, "node\"1", "amdzen5", &strings(&["./app", "-x"]));
    assert_eq!(r.name, "snap.3.json");
    assert!(r.note.is_none() && r.cmdline.is_none());
    let v: serde_json::Value = serde_json::from_str(&r.json).unwrap();
    assert_eq!(v["host"], "node\"1");
    assert_eq!(v["arch"], "amdzen5");
    let m = parse_rank(&r.json).unwrap();
    assert_eq!(f(m.get("gflops").unwrap().value), 1.25);
    assert_eq!(m.get("hw_instructions").unwrap().label, "Instr \"x\"");
    assert_eq!(m.get("disk_read").unwrap().unit, "bytes");
    assert_eq!(f(m.get("elapsed_time").unwrap().value), 2.5);
    assert_eq!(f(m.get("mpi_world_size").unwrap().value), 8.0);
}

#[test]
fn wrapper_warning_flags_idle_parent_but_not_real_work() {
    let w = |cpu: Option<f64>, ins: Option<f64>, el: Option<f64>, gpu: bool, io: Option<f64>| {
        wrapper_warning(cpu.map(d), ins.map(d), el.map(d), gpu, io.map(d))
    };
    // forking wrapper: 0.002s CPU over 5s wall, no instructions, no I/O wait
    let t = w(Some(0.002), Some(0.0), Some(5.0), false, None).expect("should warn");
    assert!(t.contains("near-zero CPU work") && t.contains("exec"), "{t}");
    assert!(t.contains("(0.002s CPU over 5.00s wall)"), "{t}");
    // a real compute app: busy CPU
    assert!(w(Some(4.8), Some(9e10), Some(5.0), false, None).is_none());
    // no counters, but the CPU genuinely busy
    assert!(w(Some(4.8), None, Some(5.0), false, None).is_none());
    // many retired instructions veto the note
    assert!(w(Some(0.01), Some(8e9), Some(5.0), false, None).is_none());
    // a device explains the idle CPU
    assert!(w(Some(0.002), Some(0.0), Some(5.0), true, None).is_none());
    // blocked in I/O
    assert!(w(Some(0.002), Some(0.0), Some(5.0), false, Some(4.5)).is_none());
    // too short to judge
    assert!(w(Some(0.0), Some(0.0), Some(0.05), false, None).is_none());
    assert!(w(Some(0.0), Some(0.0), None, false, None).is_none());
}

#[test]
fn a_session_is_assembled() {
    let mut watch = Watch::new();
    assert_eq!(watch.looks_for(), (true, true));
    watch.notice(None, true);
    watch.notice(Some("AMD ROCm"), false);
    watch.notice(Some("NVIDIA"), false);
    assert_eq!(watch.looks_for(), (false, false));
    let lists = vec![
        vec![Metric::count("hw_instructions", "", 200), Metric::count("hw_cpu_cycles", "", 100)],
        vec![Metric::count("max_threads", "", 4)],
    ];
    let e = env(&[("OMP_WAIT_POLICY", " ACTIVE ")]);
    let s = assemble(lists, &watch, &e);
    let keys: Vec<&str> = s.metrics.iter().map(|m| m.key).collect();
    assert_eq!(
        keys,
        vec!["hw_instructions", "hw_cpu_cycles", "max_threads", "cpi", "ipc", "gpu_offload", "omp_spin_wait"]
    );
    assert_eq!(s.metrics[5].label, "GPU offload detected (AMD ROCm)");
    let quiet = assemble(vec![vec![Metric::count("max_threads", "", 1)]], &Watch::new(), &e);
    assert_eq!(quiet.metrics.len(), 1);
}

#[test]
fn spin_settings_are_read_from_the_environment() {
    let flagged = |vars: &[(&str, &str)]| {
        let mut w = Watch::new();
        w.notice(None, true);
        let s = assemble(vec![vec![Metric::count("max_threads", "", 2)]], &w, &env(vars));
        s.numeric("omp_spin_wait").is_some()
    };
    assert!(!flagged(&[]));
    assert!(flagged(&[("OMP_PROC_BIND", "close")]));
    assert!(!flagged(&[("OMP_PROC_BIND", " False ")]));
    assert!(!flagged(&[("OMP_PROC_BIND", "disabled")]));
    assert!(flagged(&[("OMP_PLACES", "cores")]));
    assert!(flagged(&[("GOMP_CPU_AFFINITY", "0-3")]));
    assert!(!flagged(&[("OMP_PLACES", "  ")]));
    assert!(flagged(&[("KMP_BLOCKTIME", "INFINITE")]));
    assert!(!flagged(&[("KMP_BLOCKTIME", "200")]));
    assert!(flagged(&[("GOMP_SPINCOUNT", " infinite ")]));
    assert!(!flagged(&[("GOMP_SPINCOUNT", "30000")]));
    assert!(!flagged(&[("OMP_PLACES", "cores"), ("OMP_WAIT_POLICY", "passive")]));
}

#[test]
fn the_first_rank_leaves_its_command_and_note() {
    let mut s = Snapshot::default();
    s.push(Metric::float("cpu_time", "", d(0.001), "s"));
    s.push(Metric::float("elapsed_time", "", d(5.0), "s"));
    assert!(idle_note(&s, false).is_some());
    let r = rank_report(s, &env(&[]), "n", "a", &strings(&["./app", "x y"]));
    assert_eq!(r.name, "snap.0.json");
    assert_eq!(r.cmdline.as_deref(), Some("./app\nx y"));
    assert!(r.note.is_some());
    assert!(missing_data_warning(0, false).is_some());
    assert!(missing_data_warning(0, true).is_none());
    assert!(missing_data_warning(1, false).is_none());
    assert_eq!(snap_name(-2), "snap.-2.json");
}

#[test]
fn tags_go_ahead_of_the_metrics() {
    let json = render_json(&Snapshot::default());
    let tagged = tag_node(json.clone(), "a\\b", "x");
    assert_eq!(tagged, format!("{{\n  \"host\": \"a\\\\b\", \"arch\": \"x\",\n{}", &json[2..]));
    assert_eq!(tag_node("[]".to_string(), "h", "a"), "[]");
}

#[test]
fn ranks_and_sizes_are_read_from_the_environment() {
    assert_eq!(rank_from_env(&env(&[])), None);
    assert_eq!(rank_from_env(&env(&[("SLURM_PROCID", " 7 ")])), Some(7));
    assert_eq!(rank_from_env(&env(&[("SLURM_PROCID", "7"), ("PMI_RANK", "2")])), Some(2));
    assert_eq!(rank_from_env(&env(&[("PMI_RANK", "x"), ("ALPS_APP_PE", "5")])), Some(5));
    assert_eq!(mpi_world_size_from_env(&env(&[("PMI_SIZE", "0"), ("SLURM_NTASKS", "16")])), Some(16));
    assert_eq!(mpi_world_size_from_env(&env(&[("PMI_SIZE", "-3")])), None);
    assert_eq!(node_host(Some("node7\n"), &env(&[("HOSTNAME", "h")])), "node7");
    assert_eq!(node_host(Some(" \n"), &env(&[("HOSTNAME", "h")])), "h");
    assert_eq!(node_host(None, &env(&[])), "unknown");
}

#[test]
fn the_shorthand_is_written_out() {
    let full = |v: &[&str]| normalize_argv(strings(v));
    assert_eq!(full(&["uaps", "./app", "-n"]), strings(&["uaps", "run", "--", "./app", "-n"]));
    assert_eq!(full(&["uaps", "run", "--", "./app"]), strings(&["uaps", "run", "--", "./app"]));
    assert_eq!(full(&["uaps", "--help"]), strings(&["uaps", "--help"]));
    assert_eq!(full(&["uaps", "report", "d"]), strings(&["uaps", "report", "d"]));
    assert_eq!(full(&["uaps"]), strings(&["uaps"]));
    assert_eq!(interval_millis(0), 1);
    assert_eq!(interval_millis(20), 20);
}

fn request(launcher: &str, mpi: bool, system_wide: bool, dir: Option<&str>) -> RunRequest {
    RunRequest { launcher: launcher.into(), mpi, system_wide, rank_dir: dir.map(|s| s.into()) }
}

#[test]
fn runs_are_planned() {
    let none = env(&[]);
    let rank = env(&[("PMI_RANK", "0")]);
    let dir = env(&[("UAPS_RANK_DIR", "/d")]);
    assert!(matches!(
        plan(&request("app", false, false, None), &none),
        RunPlan::Measure { mpi: false, system_wide: false }
    ));
    assert!(matches!(
        plan(&request("app", true, false, None), &none),
        RunPlan::Measure { mpi: true, system_wide: true }
    ));
    assert!(matches!(
        plan(&request("mpirun", false, true, None), &none),
        RunPlan::Measure { mpi: true, system_wide: true }
    ));
    match plan(&request("srun", false, false, None), &none) {
        RunPlan::Refuse { message } => {
            assert!(message.contains("srun … uaps ./app       (each rank"));
            assert!(message.ends_with("Or `uaps run -a -- srun …` for a node-level (launcher-node) snapshot."));
        }
        _ => panic!("a launcher is refused"),
    }
    assert!(matches!(
        plan(&request("app", false, false, None), &rank),
        RunPlan::PerRank { dir: None, announce: true }
    ));
    assert!(matches!(
        plan(&request("mpirun", false, false, None), &rank),
        RunPlan::Refuse { .. }
    ));
    assert!(matches!(
        plan(&request("app", false, false, None), &dir),
        RunPlan::PerRank { dir: Some(d), announce: false } if d == "/d"
    ));
    assert!(matches!(
        plan(&request("mpirun", false, false, Some("/x")), &dir),
        RunPlan::PerRank { dir: Some(d), .. } if d == "/x"
    ));
    assert!(per_rank_notice("/d").contains("collection into /d — aggregate with: uaps report /d"));
    assert!(wide_notice(true).contains("[MPI: measuring all ranks on the node] — needs"));
    assert!(!wide_notice(false).contains("MPI"));
}

#[test]
fn children_are_told_of_the_shim() {
    let args = strings(&["-n", "4", "./app"]);
    assert_eq!(child_args("srun", true, args.clone()), args);
    assert_eq!(child_args("mpirun", false, args.clone()), args);
    assert_eq!(
        child_args("mpirun", true, args),
        strings(&["-x", "LD_PRELOAD", "-x", "UAPS_MPI_OUTDIR", "-n", "4", "./app"])
    );
    assert_eq!(preload(&env(&[]), "s.so"), "s.so");
    assert_eq!(preload(&env(&[("LD_PRELOAD", "")]), "s.so"), "s.so");
    assert_eq!(preload(&env(&[("LD_PRELOAD", "a.so")]), "s.so"), "a.so:s.so");
    let c = |p: &str, e: bool| Candidate { path: p.to_string(), exists: e };
    assert_eq!(choose_shim(&vec![c("", true), c("a", false), c("b", true), c("c", true)]).as_deref(), Some("b"));
    assert_eq!(choose_shim(&vec![c("a", false)]), None);
}

#[test]
fn the_end_of_the_target_is_mirrored() {
    assert_eq!(mirrored_exit(Some(0), None), None);
    assert_eq!(mirrored_exit(Some(3), None), Some(3));
    assert_eq!(mirrored_exit(None, Some(9)), Some(137));
    assert_eq!(mirrored_exit(None, None), None);
    assert!(lacks_output(Format::Html, false));
    assert!(!lacks_output(Format::Html, true));
    assert!(!lacks_output(Format::Json, false));
    assert_eq!(manifest(&strings(&["a", "b\"c\\"])), "{\"command\": [\"a\", \"b\\\"c\\\\\"]}\n");
    assert_eq!(manifest(&vec![]), "{\"command\": []}\n");
    assert_eq!(report_command(Some("./app\nx y\n"), "d"), strings(&["./app", "x y"]));
    assert_eq!(report_command(None, "d"), strings(&["d"]));
}

const RANK: &str = "rank=0\nwall=10.0\nmpi_time=2.0\nfn=MPI_Send 0.5 100\nfn=MPI_Recv 1.5 7\nfn=bad\n";

#[test]
fn mpi_times_are_aggregated() {
    let c = MpiCollector::new("/out".to_string());
    assert_eq!(c.name(), "mpi");
    let second = "wall=10\nmpi_time=4\nfn=MPI_Recv 1 1\nfn=MPI_Bcast 3 x\nmpi_time=oops\nmpi_time=4\n";
    let files = vec![file("rank_0.txt", RANK), file("rank_1.txt", second), file("other", RANK)];
    let ranks = c.read_ranks(&files);
    assert_eq!(ranks.len(), 2);
    assert_eq!(ranks[0].fns.len(), 2);
    assert_eq!((ranks[0].fns[0].name.as_str(), ranks[0].fns[0].calls), ("MPI_Send", 100));
    let (out, note) = c.finish(&files);
    assert!(note.is_none());
    let read = |key: &str| out.iter().find(|m| m.key == key).map(|m| f(m.value.as_f64()));
    assert_eq!(read("mpi_ranks"), Some(2.0));
    assert_eq!(read("mpi_time"), Some(3.0));
    assert_eq!(read("mpi_time_pct"), Some(30.0));
    assert_eq!(read("mpi_imbalance_pct"), Some(25.0));
    assert_eq!(read("mpi_top1"), Some(3.0));
    assert_eq!(read("mpi_top2"), Some(2.5));
    assert_eq!(read("mpi_top3"), Some(0.5));
    assert_eq!(read("mpi_top4"), None);
    let labels: Vec<&str> = out.iter().map(|m| m.label.as_str()).collect();
    assert_eq!(labels[4], "  MPI_Bcast  (50% of MPI)");
    assert_eq!(labels[5], "  MPI_Recv  (42% of MPI)");
    let (none, note) = c.finish(&vec![]);
    assert!(none.is_empty() && note.unwrap().contains("no per-rank data"));
    assert!(is_shim_file("rank_12.txt") && !is_shim_file("rank_12.json"));
}

#[test]
fn equal_times_keep_their_order_and_five_are_shown() {
    let text = "wall=1\nmpi_time=1\nfn=a 1 1\nfn=b 2 1\nfn=c 1 1\nfn=d 2 1\nfn=e 0 1\nfn=f 1 1\n";
    let c = MpiCollector::new(String::new());
    let (out, _) = c.finish(&vec![file("rank_0.txt", text)]);
    let names: Vec<String> =
        out[4..].iter().map(|m| m.label.trim().split(' ').next().unwrap().to_string()).collect();
    assert_eq!(names, strings(&["b", "d", "a", "c", "f"]));
}

#[test]
fn a_job_report_has_ranks_and_mpi() {
    let files = vec![
        write_rank(0, &[("elapsed_time", 1.0, "s")]),
        file("rank_0.txt", RANK),
        file("snap.json", "{}"),
    ];
    let a = done(job_report(&files));
    assert_eq!(a.nranks, 1);
    assert!(a.warning.is_none());
    assert_eq!(get(&a.snapshot, "nranks"), 1.0);
    assert_eq!(get(&a.snapshot, "mpi_time_pct"), 20.0);
    assert!(job_report(&vec![file("rank_0.txt", RANK)]).is_err());
}

#[test]
fn frames_read_back() {
    for (rank, body) in [(0i64, vec![1u8]), (70000, vec![7; 300]), (4294967295, vec![0; 65536])] {
        let frame = encode_frame(rank, &body);
        let header: Vec<u8> = frame[..8].to_vec();
        assert_eq!(decode_header(&header), Some((rank as u32, body.len() as u32)));
        assert_eq!(&frame[8..], &body[..]);
    }
    assert_eq!(encode_frame(258, &vec![9, 9]), vec![2, 1, 0, 0, 2, 0, 0, 0, 9, 9]);
    assert_eq!(decode_header(&vec![0; 8]), None);
    assert_eq!(decode_header(&vec![0, 0, 0, 0, 1, 0, 0, 4]), None);
    assert_eq!(decode_header(&vec![5, 0, 0, 0, 0, 0, 0, 4]), Some((5, 67108864)));
    assert!(tries_again(39) && !tries_again(40));
}

#[test]
fn ranks_are_gathered_until_the_job_is_over() {
    let mut g = Gathering::new();
    assert_eq!(g.step(Event::Quiet { stopped: false, now: 0 }), Action::Pause);
    assert_eq!(g.step(Event::Connected { taken: true }), Action::Accept);
    assert_eq!(g.step(Event::Connected { taken: false }), Action::Accept);
    assert_eq!(g.step(Event::Quiet { stopped: true, now: 1000 }), Action::Pause);
    assert_eq!(g.drain_until, Some(750001000));
    assert_eq!(g.step(Event::Connected { taken: true }), Action::Accept);
    assert_eq!(g.drain_until, None);
    assert_eq!(g.step(Event::Quiet { stopped: true, now: 2000 }), Action::Pause);
    assert_eq!(g.step(Event::Quiet { stopped: true, now: 750001999 }), Action::Pause);
    assert_eq!(g.step(Event::Quiet { stopped: true, now: 750002000 }), Action::Stop);
    assert_eq!(g.received, 2);
    assert_eq!(g.step(Event::Failed), Action::Stop);
    assert_eq!(collector_host(&env(&[("UAPS_COLLECT_HOST", "h")]), Some("k\n")), "h");
    assert_eq!(collector_host(&env(&[]), Some("k\n")), "k");
    assert_eq!(collector_host(&env(&[]), None), "");
    assert_eq!(collector_address("h", 80, true), "h:80");
    assert_eq!(collector_address("h", 80, false), "127.0.0.1:80");
    assert_eq!(collector_address("", 80, true), "127.0.0.1:80");
}

fn read_value(x: f64) -> f64 {
    let mut s = Snapshot::default();
    s.push(Metric::float("v", "v", d(x), ""));
    f(parse_rank(&render_json(&s)).unwrap().get("v").unwrap().value)
}

#[test]
fn numbers_are_read_as_their_digits_over_a_power_of_ten() {
    let mut state: u64 = 0x9E37_79B9_7F4A_7C15;
    let mut seen = 0;
    while seen < 60 {
        state = state.wrapping_mul(6364136223846793005).wrapping_add(1442695040888963407);
        let x = f64::from_bits(state ^ (state >> 29));
        if !x.is_finite() || x.abs() >= 1e19 || (x != 0.0 && x.abs() < 1e-30) {
            continue;
        }
        seen += 1;
        let text = format!("{}", x.abs());
        let (whole, frac) = match text.split_once('.') {
            Some((w, t)) => (w.to_string(), t.to_string()),
            None => (text.clone(), String::new()),
        };
        let digits: u64 = format!("{whole}{frac}").parse().unwrap();
        let size = if frac.is_empty() {
            digits as f64
        } else {
            digits as f64 / format!("1e{}", frac.len()).parse::<f64>().unwrap()
        };
        let want = if x.is_sign_negative() { -size } else { size };
        assert_eq!(read_value(x).to_bits(), want.to_bits(), "{text}");
    }
    assert_eq!(read_value(-0.0).to_bits(), (-0.0f64).to_bits());
}

#[test]
fn short_numbers_are_read_exactly() {
    for x in [0.1, -2.5, 1234567.875, 1e-22, 4.35, 9007199254740991.0, 1.5e18, -42.0, 0.0] {
        assert_eq!(read_value(x).to_bits(), f64::to_bits(x), "{x}");
    }
}

#[test]
fn values_that_are_not_finite_are_left_out_when_read() {
    let mut s = Snapshot::default();
    s.push(Metric::float("bad", "Bad", d(f64::NAN), "x"));
    s.push(Metric::float("good", "Go\u{1}od \t\u{e9}", d(3.5), "u\"\\"));
    s.push(Metric::float("good", "Again", d(4.5), "v"));
    let m = parse_rank(&render_json(&s)).unwrap();
    assert!(m.get("bad").is_none());
    assert_eq!(f(m.get("good").unwrap().value), 4.5);
    assert_eq!(m.get("good").unwrap().label, "Again");
    assert_eq!(m.get("good").unwrap().unit, "v");
    s.metrics.pop();
    let m = parse_rank(&render_json(&s)).unwrap();
    assert_eq!(m.get("good").unwrap().label, "Go\u{1}od \t\u{e9}");
    assert_eq!(m.get("good").unwrap().unit, "u\"\\");
}

#[test]
fn a_job_is_aggregated_from_what_its_ranks_wrote() {
    let mut files = Vec::new();
    for rank in 0..3 {
        let mut s = Snapshot::default();
        s.push(Metric::count("hw_instructions", "Instructions", 1000 + rank));
        s.push(Metric::float("elapsed_time", "Elapsed", d(1.5 + rank as f64), "s"));
        let r = rank.to_string();
        let e = env(&[("PMI_RANK", r.as_str()), ("PMI_SIZE", "3")]);
        let out = rank_report(s, &e, "n\"0", "zen5", &strings(&["./app"]));
        files.push(file(&out.name, &out.json));
    }
    let a = match job_report(&files) {
        Ok(a) => a,
        Err(_) => panic!("no job"),
    };
    assert_eq!(a.nranks, 3);
    assert!(a.warning.is_none());
    assert_eq!(get(&a.snapshot, "hw_instructions"), 3003.0);
    assert_eq!(get(&a.snapshot, "elapsed_time"), 3.5);
}

#[test]
fn quoted_words_are_json_strings() {
    let words = strings(&["a b", "c\"d", "e\\f", "\u{e9}'"]);
    let v: serde_json::Value = serde_json::from_str(&manifest(&words)).unwrap();
    let got: Vec<&str> = v["command"].as_array().unwrap().iter().map(|w| w.as_str().unwrap()).collect();
    assert_eq!(got, ["a b", "c\"d", "e\\f", "\u{e9}'"]);
}

#[test]
fn ratios_of_the_ranks_do_not_reach_the_job() {
    let job = |cpi: Option<f64>, llc: f64| {
        let files: Vec<RankFile> = (0..2)
            .map(|r| {
                let mut rows = vec![
                    ("hw_cpu_cycles", 100.0, ""),
                    ("hw_instructions", 50.0 + 10.0 * r as f64, ""),
                    ("ipc", 0.5, ""),
                    ("llc_mpki", llc, "x"),
                ];
                if let Some(c) = cpi {
                    rows.push(("cpi", c, ""));
                }
                write_rank(r, &rows)
            })
            .collect();
        render_json(&done(aggregate(&files)).snapshot)
    };
    assert_eq!(job(Some(7.0), 1.0), job(None, 99.0));
    assert!(job(None, 1.0).contains("\"cpi\""));
    assert!(!job(None, 1.0).contains("llc_mpki"));
}

#[test]
fn large_and_tiny_numbers_are_read() {
    // first digits that fit in 64 bits, times the power of ten of the rest
    assert_eq!(read_value(1e20), 10000000000000000000u64 as f64 * 1e1);
    assert_eq!(read_value(1.5e300), 15000000000000000000u64 as f64 * 1e281);
    assert_eq!(read_value(-123456789012345680000000.0), -(12345678901234569000u64 as f64 * 1e4));
    assert_eq!(read_value(2f64.powi(1019)), 5617791046444737000u64 as f64 * 1e288);
    // more decimals than a power of ten has
    assert_eq!(read_value(5e-324), 5.0 / 1e308 / 1e16);
    assert_eq!(read_value(1.25e-310), 125.0 / 1e308 / 1e4);
}

#[test]
fn imbalances_are_named_after_their_metrics() {
    let files: Vec<RankFile> = [2.0, 4.0]
        .iter()
        .enumerate()
        .map(|(r, &x)| {
            write_rank(r, &[
                ("elapsed_time", x, "s"), ("cpu_time", x, "s"), ("gflops", x, "GFLOP/s"),
                ("ipc", x, ""), ("memory_bound", x, "%"),
            ])
        })
        .collect();
    let s = done(aggregate(&files)).snapshot;
    for key in ["elapsed_time", "cpu_time", "gflops", "ipc", "memory_bound"] {
        // (4 - 3) / 4
        assert_eq!(get(&s, &format!("{key}_imbalance_pct")), 25.0, "{key}");
    }
}
