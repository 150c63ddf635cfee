use uaps::derive::derive as derive_metrics;
use uaps::double::Double;
use uaps::insights::insights;
use uaps::metric::{Duration, Metric, MetricValue, Snapshot};
use uaps::report::{
    format_bytes, format_duration, format_value, json_number, json_str, render_json, unit_of,
};

fn d(x: f64) -> Double {
    Double::from_bits(x.to_bits())
}

fn f(x: Double) -> f64 {
    f64::from_bits(x.bits)
}

fn num(s: &Snapshot, key: &str) -> Option<f64> {
    s.numeric(key).map(f)
}

fn raw(key: &'static str, value: i64) -> Metric {
    Metric { key, label: key.into(), value: MetricValue::Int { value, unit: "" } }
}

fn float_row(key: &'static str, value: f64) -> Metric {
    Metric { key, label: key.into(), value: MetricValue::Float { value: d(value), unit: "" } }
}

#[test]
fn derives_cpi_ipc_and_rates() {
    let mut s = Snapshot::default();
    s.push(raw("hw_instructions", 2_000_000));
    s.push(raw("hw_cpu_cycles", 1_000_000));
    s.push(raw("hw_cache_references", 1000));
    s.push(raw("hw_cache_misses", 250));
    derive_metrics(&mut s);

    assert!((num(&s, "ipc").unwrap() - 2.0).abs() < 1e-9);
    assert!((num(&s, "cpi").unwrap() - 0.5).abs() < 1e-9);
    assert!((num(&s, "cache_miss_rate").unwrap() - 25.0).abs() < 1e-9);
}

#[test]
fn skips_derived_metrics_without_inputs() {
    // Only OS metrics present: no counters, so no derived counter metrics.
    let mut s = Snapshot::default();
    s.push(Metric { key: "peak_rss", label: "rss".into(), value: MetricValue::Bytes(1024) });
    derive_metrics(&mut s);
    assert!(num(&s, "cpi").is_none());
    assert!(num(&s, "ipc").is_none());
    assert_eq!(s.metrics.len(), 1);
}

#[test]
fn memory_bound_estimate_is_clamped() {
    let mut s = Snapshot::default();
    s.push(raw("hw_cpu_cycles", 1_000_000));
    s.push(raw("hw_cache_misses", 1_000_000)); // absurdly high: clamps to 100%
    derive_metrics(&mut s);
    assert_eq!(num(&s, "memory_bound_est").unwrap(), 100.0);
}

#[test]
fn derives_every_formula() {
    let mut s = Snapshot::default();
    s.push(raw("hw_instructions", 4_000_000));
    s.push(raw("hw_cpu_cycles", 2_000_000));
    s.push(raw("hw_cache_misses", 8_000));
    s.push(raw("hw_branch_instructions", 100_000));
    s.push(raw("hw_branch_misses", 500));
    s.push(raw("mem_fills_all", 100_000));
    s.push(raw("mem_fills_dram", 1_000));
    s.push(raw("mem_fills_remote", 250));
    s.push(raw("dtlb_accesses", 1_000));
    s.push(raw("dtlb_misses", 10));
    s.push(raw("itlb_misses", 4));
    s.push(float_row("elapsed_time", 0.5));
    s.push(float_row("cpu_time", 0.001));
    derive_metrics(&mut s);
    assert_eq!(num(&s, "ipc"), Some(2.0));
    assert_eq!(num(&s, "cpi"), Some(0.5));
    assert_eq!(num(&s, "llc_mpki"), Some(8_000.0 / 4_000_000.0 * 1000.0));
    assert_eq!(num(&s, "branch_mispredict_rate"), Some(500.0 / 100_000.0 * 100.0));
    assert_eq!(num(&s, "dtlb_miss_rate"), Some(10.0 / 1000.0 * 100.0));
    assert_eq!(num(&s, "dtlb_mpki"), Some(10.0 / 4_000_000.0 * 1000.0));
    assert_eq!(num(&s, "itlb_mpki"), Some(4.0 / 4_000_000.0 * 1000.0));
    assert_eq!(num(&s, "dram_bandwidth_gbs"), Some(1_000.0 * 64.0 / 0.5 / 1e9));
    assert_eq!(num(&s, "cpu_freq_ghz"), Some(2_000_000.0 / 0.001 / 1e9));
    assert_eq!(num(&s, "dram_dpki"), Some(1_000.0 / 4_000_000.0 * 1000.0));
    assert_eq!(num(&s, "dram_bound_pct"), Some(1_000.0 / 100_000.0 * 100.0));
    assert_eq!(num(&s, "numa_remote_pct"), Some(250.0 / 100_000.0 * 100.0));
    let bound = num(&s, "memory_bound").unwrap();
    assert!(bound > 0.0 && bound <= 100.0);
    assert!(num(&s, "memory_bound_est").is_none());
    assert!(num(&s, "cache_miss_rate").is_none());
}

#[test]
fn what_is_appended_does_not_change_what_a_key_reads() {
    let mut s = Snapshot::default();
    s.push(raw("a", 1));
    s.push(raw("a", 2));
    s.extend(vec![raw("b", 3), raw("a", 4)]);
    assert_eq!(num(&s, "a"), Some(1.0));
    assert_eq!(num(&s, "b"), Some(3.0));
    assert_eq!(num(&s, "c"), None);
}

#[test]
fn values_have_a_numeric_view() {
    assert_eq!(f(MetricValue::Duration(Duration::from_millis(1500)).as_f64()), 1.5);
    assert_eq!(f(MetricValue::Float { value: d(2.25), unit: "x" }.as_f64()), 2.25);
    assert_eq!(f(MetricValue::Int { value: -3, unit: "" }.as_f64()), -3.0);
    assert_eq!(f(MetricValue::Percent(d(12.5)).as_f64()), 12.5);
    assert_eq!(f(MetricValue::Bytes(1 << 40).as_f64()), (1u64 << 40) as f64);
}

fn sample() -> Snapshot {
    let mut s = Snapshot::default();
    s.push(Metric {
        key: "elapsed_time",
        label: "Elapsed time".into(),
        value: MetricValue::Duration(Duration::from_millis(1500)),
    });
    s.push(Metric {
        key: "llc_mpki",
        label: "LLC misses / 1K instr".into(),
        value: MetricValue::Float { value: d(20.0), unit: "MPKI" },
    });
    s
}

#[test]
fn json_is_wellformed_ish() {
    let out = render_json(&sample());
    assert!(out.trim_start().starts_with('{'));
    assert!(out.contains("\"key\": \"elapsed_time\""));
    assert!(out.contains("\"value\": 1.5"));
    assert!(out.contains("\"display\": \"1.500 s\""));
}

#[test]
fn json_is_read_by_a_parser() {
    let mut s = sample();
    s.push(Metric {
        key: "odd",
        label: "a \"quoted\" \\ label\n\twith \u{1} and ↳".into(),
        value: MetricValue::Percent(d(f64::NAN)),
    });
    let v: serde_json::Value = serde_json::from_str(&render_json(&s)).unwrap();
    let rows = v["metrics"].as_array().unwrap();
    assert_eq!(rows.len(), 3);
    assert_eq!(rows[0]["key"], "elapsed_time");
    assert_eq!(rows[0]["value"].as_f64(), Some(1.5));
    assert_eq!(rows[0]["unit"], "s");
    assert_eq!(rows[1]["display"], "20.00 MPKI");
    assert_eq!(rows[2]["label"], "a \"quoted\" \\ label\n\twith \u{1} and ↳");
    assert!(rows[2]["value"].is_null());
    let empty: serde_json::Value = serde_json::from_str(&render_json(&Snapshot::default())).unwrap();
    assert_eq!(empty["metrics"].as_array().unwrap().len(), 0);
}

#[test]
fn formats_bytes_with_scale() {
    assert_eq!(format_bytes(512), "512 B");
    assert_eq!(format_bytes(2 * 1024 * 1024), "2.0 MiB");
}

#[test]
fn formats_each_kind_of_value() {
    assert_eq!(format_bytes(1023), "1023 B");
    assert_eq!(format_bytes(1024), "1.0 KiB");
    assert_eq!(format_bytes(1536), "1.5 KiB");
    assert_eq!(format_bytes(5 << 30), "5.0 GiB");
    assert_eq!(format_bytes(u64::MAX), "16777216.0 TiB");
    assert_eq!(format_duration(Duration::from_millis(250)), "250.0 ms");
    assert_eq!(format_duration(Duration::new(61, 5000000)), "61.005 s");
    assert_eq!(format_value(&MetricValue::Int { value: -7, unit: "" }), "-7");
    assert_eq!(format_value(&MetricValue::Int { value: 7, unit: "x" }), "7 x");
    assert_eq!(format_value(&MetricValue::Percent(d(12.34))), "12.3%");
    assert_eq!(unit_of(&MetricValue::Percent(d(1.0))), "%");
    assert_eq!(unit_of(&MetricValue::Bytes(1)), "bytes");
    assert_eq!(json_number(&MetricValue::Percent(d(f64::INFINITY))), "null");
    assert_eq!(json_number(&MetricValue::Percent(d(0.1))), "0.1");
    assert_eq!(json_str("a\"b\\c\n"), "\"a\\\"b\\\\c\\n\"");
}

#[test]
fn nothing_is_concluded_from_nothing() {
    let found = insights(&Snapshot::default());
    assert!(found.is_empty());
}

fn found(rows: &[(&'static str, f64)]) -> Vec<(String, String)> {
    let mut s = Snapshot::default();
    for (k, v) in rows {
        s.push(float_row(k, *v));
    }
    insights(&s).into_iter().map(|i| (i.headline, i.detail)).collect()
}

#[test]
fn each_finding_has_its_threshold() {
    let head = |rows: &[(&'static str, f64)]| -> Vec<String> {
        found(rows).into_iter().map(|i| i.0).collect()
    };
    assert_eq!(head(&[("mpi_time_pct", 15.0)]), vec!["MPI-bound"]);
    assert!(head(&[("mpi_time_pct", 14.9)]).is_empty());
    assert_eq!(head(&[("thread_imbalance_pct", 20.0)]), vec!["Thread imbalance"]);
    let io = [("cpu_time", 1.0), ("elapsed_time", 4.0), ("disk_read", 16777217.0)];
    assert_eq!(head(&io), vec!["I/O-bound"]);
    assert!(head(&[("cpu_time", 2.0), ("elapsed_time", 4.0), ("disk_read", 16777217.0)]).is_empty());
    assert_eq!(head(&[("dram_dpki", 5.0)]), vec!["Memory-bound"]);
    assert_eq!(head(&[("llc_mpki", 5.0)]), vec!["Memory-bound"]);
    // the measured rate counts, where there is one
    assert!(head(&[("dram_dpki", 1.0), ("llc_mpki", 50.0)]).is_empty());
    assert_eq!(head(&[("numa_remote_pct", 15.0)]), vec!["NUMA remote access"]);
    assert_eq!(head(&[("topdown_frontend_pct", 25.0)]), vec!["Frontend-bound"]);
    assert_eq!(head(&[("branch_mispredict_rate", 3.0)]), vec!["Branch misprediction"]);
    let one = [("cpu_cores_used", 1.0), ("llc_mpki", 2.0), ("elapsed_time", 1.0)];
    assert_eq!(head(&one), vec!["Mostly single-threaded"]);
    assert_eq!(head(&[("ipc", 1.5), ("llc_mpki", 0.5)]), vec!["Compute-bound"]);
}

#[test]
fn findings_are_ranked_and_explained() {
    let all = found(&[("branch_mispredict_rate", 4.25), ("llc_mpki", 7.0), ("mpi_time_pct", 33.0)]);
    let heads: Vec<&str> = all.iter().map(|i| i.0.as_str()).collect();
    assert_eq!(heads, vec!["MPI-bound", "Memory-bound", "Branch misprediction"]);
    assert!(all[0].1.starts_with("33.0% of time spent in MPI. Reduce communication/wait: balance work"));
    assert!(all[2].1.starts_with("4.2% of branches mispredicted."));
    // a healthy run is said to be so only when nothing else is found
    let busy = found(&[("ipc", 2.0), ("llc_mpki", 0.1), ("branch_mispredict_rate", 9.0)]);
    assert_eq!(busy.len(), 1);
    let io = found(&[("cpu_time", 1.0), ("elapsed_time", 4.0), ("disk_write", 33554432.0)]);
    assert!(io[0].1.starts_with("CPU busy only 25% of wall time while moving 32 MiB of disk I/O."));
}

#[test]
fn metrics_are_derived_exactly_where_they_can_be() {
    let mut s = Snapshot::default();
    s.push(raw("dtlb_misses", 5));
    s.push(raw("dtlb_accesses", 0)); // no denominator
    s.push(raw("mem_fills_dram", 10));
    s.push(raw("mem_fills_all", 9_999)); // too few to trust
    s.push(raw("mem_fills_remote", 3));
    derive_metrics(&mut s);
    assert_eq!(s.metrics.len(), 5);
    let mut t = Snapshot::default();
    t.push(raw("mem_fills_dram", 10));
    t.push(raw("mem_fills_all", 10_000));
    t.push(raw("hw_cpu_cycles", 100_000));
    t.push(raw("hw_cache_misses", 1));
    derive_metrics(&mut t);
    let keys: Vec<&str> = t.metrics[4..].iter().map(|m| m.key).collect();
    assert_eq!(keys, ["dram_bound_pct", "memory_bound"]);
}
