use uaps::double::Double;
use uaps::evaluate::{Counts, Host};
use uaps::formula::tokenize;
use uaps::hwpc::{eval_metric, event_present, references, validate_canon, HwpcCollector};
use uaps::launch::resolve_events;
use uaps::pmudb::{
    cpu_format, detect, detect_model_dir, encode, kernel_event, layout_fits, load, parse_format,
    resolve_config_in, resolve_event, EventDef, PmuDb, PmuUnit, Sysfs,
};
use uaps::raw_pmu::{policy, RawPmuCollector};
use uaps::cpu::{detect_cpuid, Vendor};
use uaps::metric::{Duration, Metric, MetricValue};
use uaps::table::Table;

fn d(x: f64) -> Double {
    Double::from_bits(x.to_bits())
}

fn f(x: Double) -> f64 {
    f64::from_bits(x.bits)
}

fn host() -> Host {
    Host { smt_on: true, cpus: 16 }
}

/// A database whose only content is the named test formulas.
fn db_with(metrics: &[(&str, &str)]) -> PmuDb {
    let mut t: Table<String> = Table::new();
    for (k, v) in metrics {
        t.insert(k.to_string(), v.to_string());
    }
    PmuDb { model_dir: "test".into(), events: Table::new(), metrics: t }
}

fn counts(rows: &[(&str, f64)]) -> Counts {
    let mut t: Table<Double> = Table::new();
    for (k, v) in rows {
        t.insert(k.to_string(), d(*v));
    }
    Counts::Measured(t)
}

fn eval(db: &PmuDb, name: &str, rows: &[(&str, f64)]) -> Option<f64> {
    eval_metric(db, host(), name, &counts(rows)).map(f)
}

/// Events and a metric of an AMD model.
fn amd() -> PmuDb {
    let file = r#"[
      {"EventName": "fp_ret_sse_avx_ops.all", "EventCode": "0x03", "UMask": "0x0f"},
      {"EventName": "ls_dmnd_fills_from_sys.all", "EventCode": "0x43", "UMask": "0xff"},
      {"EventName": "ls_dmnd_fills_from_sys.dram_io_all", "EventCode": "0x43", "UMask": "0x48"},
      {"EventName": "ls_dmnd_fills_from_sys.far_all", "EventCode": "0x43", "UMask": "0x50"},
      {"EventName": "Ex_Ret_Ops", "EventCode": "0xc1"},
      {"EventName": "ls_not_halted_cyc", "EventCode": "0x76"},
      {"MetricName": "total_dispatch_slots", "MetricExpr": "8 * ls_not_halted_cyc"},
      {"MetricName": "Retiring", "MetricExpr": "d_ratio(ex_ret_ops, total_dispatch_slots)"}
    ]"#;
    load(&vec![], &vec![file.to_string()])
}

fn sysfs() -> Sysfs {
    Sysfs {
        units: vec![PmuUnit {
            name: "cpu".into(),
            events: vec![("slots".into(), "event=0x00,umask=0x4\n".into())],
            formats: vec![
                ("event".into(), "config:0-7,32-35\n".into()),
                ("umask".into(), "config:8-15\n".into()),
                ("cmask".into(), "config:24-31\n".into()),
                ("ldlat".into(), "config1:0-15\n".into()),
            ],
            kind: Some("4\n".into()),
        }],
    }
}

#[test]
fn encoder_matches_known_amd_fp_event() {
    let db = amd();
    let fmt = cpu_format(&sysfs(), "cpu");
    let ev = db.events.get("fp_ret_sse_avx_ops.all").expect("event present in JSON");
    assert!(layout_fits(ev, &fmt));
    let cfg = encode(ev, &fmt).expect("encodes");
    assert_eq!(cfg, 0x0f03, "encoder must reproduce the known config");
}

#[test]
fn raw_pmu_policy_resolves() {
    let db = amd();
    let expect = [
        ("fp_ret_sse_avx_ops.all", 0x0f03u64),
        ("ls_dmnd_fills_from_sys.all", 0xff43),
        ("ls_dmnd_fills_from_sys.dram_io_all", 0x4843),
        ("ls_dmnd_fills_from_sys.far_all", 0x5043),
    ];
    for (name, cfg) in expect {
        let (got, ty) = resolve_config_in(&db, &sysfs(), name).expect("resolves");
        assert_eq!(got, cfg, "{name} resolved to 0x{got:x}, expected 0x{cfg:x}");
        assert_eq!(ty, 4);
    }
    let named: Vec<&str> = policy(Vendor::Amd).iter().map(|e| e.1).collect();
    assert_eq!(named, expect.iter().map(|e| e.0).collect::<Vec<&str>>());
}

#[test]
fn wide_event_codes_are_split_over_the_layout() {
    let file = r#"[{"EventName": "a", "EventCode": "0x1a0", "UMask": "0x1e", "Cmask": "2"},
                   {"EventName": "b", "EventCode": "1", "Inv": "1"}]"#;
    let db = load(&vec![], &vec![file.to_string(), "not json".to_string()]);
    let fmt = cpu_format(&sysfs(), "cpu");
    assert_eq!(encode(db.events.get("a").unwrap(), &fmt), Some(0x1_0200_1EA0));
    // a field without a layout is a gap
    assert_eq!(encode(db.events.get("b").unwrap(), &fmt), None);
    assert_eq!(resolve_config_in(&db, &sysfs(), "b"), None);
}

#[test]
fn formats_are_read() {
    assert_eq!(
        parse_format("config:0-7,32-35"),
        Some(("config".to_string(), vec![(0, 7), (32, 35)]))
    );
    assert_eq!(parse_format("config1:5"), Some(("config1".to_string(), vec![(5, 5)])));
    assert_eq!(parse_format("config"), None);
    assert_eq!(parse_format("config:a-b"), None);
    let fmt = cpu_format(&sysfs(), "cpu");
    assert!(fmt.contains("event") && !fmt.contains("ldlat"));
    assert_eq!(cpu_format(&sysfs(), "other").len(), 0);
}

#[test]
fn the_database_wins_over_kernel_aliases() {
    let db = amd();
    let sys = sysfs();
    let alias = kernel_event(&sys, "slots").unwrap();
    assert_eq!(alias.unit, "cpu");
    assert_eq!(alias.fields, vec![("event".to_string(), 0), ("umask".to_string(), 4)]);
    assert!(resolve_event(&db, &sys, "slots").is_some());
    assert!(resolve_event(&db, &sys, "nothing").is_none());
    assert!(event_present(&db, "slots") && event_present(&db, "ex_ret_ops"));
    assert!(!event_present(&db, "nothing"));
}

#[test]
fn templates_supply_what_an_entry_leaves_out() {
    let std = r#"[{"EventName": "LL_CACHE_MISS_RD", "EventCode": "0x37"},
                  {"EventName": "FP_SCALE_OPS_SPEC", "EventCode": "0x80C0", "UMask": "1"}]"#;
    let own = r#"[{"ArchStdEvent": "LL_CACHE_MISS_RD"},
                  {"ArchStdEvent": "FP_SCALE_OPS_SPEC", "UMask": "2", "Unit": "armv8_pmuv3_0"},
                  {"ArchStdEvent": "UNKNOWN"}]"#;
    let db = load(&vec![std.to_string()], &vec![own.to_string()]);
    let a = db.events.get("ll_cache_miss_rd").unwrap();
    assert_eq!((a.fields.clone(), a.unit.as_str()), (vec![("event".to_string(), 0x37)], "cpu"));
    let b = db.events.get("fp_scale_ops_spec").unwrap();
    assert_eq!(b.fields, vec![("event".to_string(), 0x80C0), ("umask".to_string(), 2)]);
    assert_eq!(b.unit, "armv8_pmuv3_0");
    assert_eq!(db.events.len(), 2);
}

#[test]
fn evaluator_resolves_amd_topdown_retiring() {
    let r = eval(&amd(), "retiring", &[("ex_ret_ops", 2000.0), ("ls_not_halted_cyc", 1000.0)])
        .expect("retiring resolves");
    // 2000 / (8 * 1000) = 0.25
    assert!((r - 0.25).abs() < 1e-9, "got {r}");
}

#[test]
fn evaluator_ternary_and_comparison() {
    let db = db_with(&[("m", "(a > b) ? 10 : 20")]);
    assert_eq!(eval(&db, "m", &[("a", 3.0), ("b", 2.0)]), Some(10.0));
    assert_eq!(eval(&db, "m", &[("a", 1.0), ("b", 2.0)]), Some(20.0));
}

#[test]
fn evaluator_if_function() {
    let db = db_with(&[("m", "if(c, 5, 7)")]);
    assert_eq!(eval(&db, "m", &[("c", 0.0)]), Some(7.0));
    assert_eq!(eval(&db, "m", &[("c", 1.0)]), Some(5.0));
}

#[test]
fn evaluator_escaped_hyphen_event() {
    let db = db_with(&[("m", "topdown\\-retiring / 4")]);
    assert_eq!(eval(&db, "m", &[("topdown-retiring", 8.0)]), Some(2.0));
}

#[test]
fn evaluator_system_constant_smt() {
    let db = db_with(&[("m", "#smt_on")]);
    let v = eval(&db, "m", &[]).expect("smt_on resolves");
    assert!(v == 0.0 || v == 1.0, "got {v}");
    // An unknown constant is an honest gap, not a fabricated number.
    let db2 = db_with(&[("m", "#bogus_constant")]);
    assert_eq!(eval(&db2, "m", &[]), None);
}

#[test]
fn unsupported_at_modifier_is_a_gap() {
    let db = db_with(&[("m", "cpu@event\\=0x3c@ / 2")]);
    assert_eq!(eval_metric(&db, host(), "m", &Counts::Every(d(100.0))), None);
}

#[test]
fn evaluator_arithmetic_and_gaps() {
    let db = db_with(&[
        ("sum", "1 + 2 * 3 - 4 / 8"),
        ("neg", "-(2 - 5) * 1e1"),
        ("choice", "5 if a else 6"),
        ("zero", "a / 0"),
        ("both", "min(a, b) + max(a, b)"),
        ("chain", "sum + neg"),
        ("loop", "loop + 1"),
        ("cpus", "#num_cpus * #core_wide + #num_cpus_online"),
        ("bad", "1 +"),
        ("call", "sqrt(4)"),
        ("rel", "(a <= b) + (a >= b) + (a == b) + (a != b)"),
    ]);
    let rows = [("a", 3.0), ("b", 4.0)];
    assert_eq!(eval(&db, "sum", &rows), Some(6.5));
    assert_eq!(eval(&db, "SUM", &rows), Some(6.5));
    assert_eq!(eval(&db, "neg", &rows), Some(30.0));
    assert_eq!(eval(&db, "choice", &rows), Some(5.0));
    assert_eq!(eval(&db, "choice", &[("a", 0.0)]), Some(6.0));
    assert_eq!(eval(&db, "zero", &rows), Some(0.0));
    assert_eq!(eval(&db, "both", &rows), Some(7.0));
    assert_eq!(eval(&db, "chain", &rows), Some(36.5));
    assert_eq!(eval(&db, "loop", &rows), None);
    assert_eq!(eval(&db, "cpus", &rows), Some(16.0));
    assert_eq!(eval(&db, "bad", &rows), None);
    assert_eq!(eval(&db, "call", &rows), None);
    assert_eq!(eval(&db, "rel", &rows), Some(2.0));
    assert_eq!(eval(&db, "both", &[("a", 1.0)]), None);
    assert_eq!(eval(&db, "missing", &rows), None);
    assert_eq!(references(&db, host(), "both"), Some(vec!["a".to_string(), "b".to_string()]));
    assert_eq!(references(&db, host(), "call"), None);
    assert_eq!(tokenize("1 + a.b").unwrap().len(), 3);
    assert!(tokenize("a $ b").is_none());
}

#[test]
fn each_metric_is_resolved_or_a_gap() {
    let db = amd();
    let st = validate_canon(&db, host());
    assert_eq!(st.len(), 4);
    assert_eq!(st[0].key, "topdown_retiring_pct");
    assert!(st[0].resolved);
    assert_eq!(st[0].metric.as_deref(), Some("retiring"));
    assert_eq!(st[0].note, "2 events");
    assert!(!st[1].resolved && st[1].metric.is_none());
    assert_eq!(st[1].note, "no candidate metric in model");
    let odd = db_with(&[("retiring", "sqrt(1)"), ("frontend_bound", "missing_event / 2")]);
    let st = validate_canon(&odd, host());
    assert_eq!(st[0].note, "formula uses an unsupported construct");
    assert_eq!(st[1].note, "missing event: missing_event");
}

#[test]
fn chosen_metrics_are_counted_together() {
    let c = HwpcCollector::new(Some(amd()), &sysfs(), host());
    assert!(c.active());
    assert_eq!(c.name(), "hwpc(pmu-events)");
    assert_eq!(c.groups_ev, vec![vec!["ex_ret_ops".to_string(), "ls_not_halted_cyc".to_string()]]);
    let out = c.metrics(&vec![Some(d(2000.0)), Some(d(1000.0))]);
    assert_eq!(out.len(), 1);
    assert_eq!(out[0].key, "topdown_retiring_pct");
    assert!(matches!(out[0].value, MetricValue::Percent(p) if f(p) == 25.0));
    assert!(c.metrics(&vec![Some(d(2000.0)), None]).is_empty());
    assert!(!HwpcCollector::new(None, &sysfs(), host()).active());
    assert!(!HwpcCollector::new(Some(db_with(&[])), &sysfs(), host()).active());
}

#[test]
fn events_are_listed_or_gaps() {
    let db = amd();
    let names = vec!["ls_dmnd_fills_from_sys.all".to_string(), "nothing".to_string()];
    assert_eq!(
        resolve_events(Some(&db), &sysfs(), &names),
        vec!["ls_dmnd_fills_from_sys.all=0xff43:4", "nothing=GAP"]
    );
    assert_eq!(resolve_events(None, &sysfs(), &names)[0], "ls_dmnd_fills_from_sys.all=GAP");
}

fn read(out: &Vec<Metric>, key: &str) -> Option<f64> {
    out.iter().find(|m| m.key == key).map(|m| f(m.value.as_f64()))
}

#[test]
fn vendor_counts_become_metrics() {
    let db = amd();
    let mut c = RawPmuCollector::new(Vendor::Amd, Some(&db), &sysfs());
    assert_eq!(c.roles, vec!["fp", "fills_all", "fills_dram", "fills_remote"]);
    c.start(Duration::new(1, 0));
    assert!(c.finish(Duration::new(3, 0)).is_empty());
    let out = c.metrics(&vec![Some(d(4e9)), Some(d(100.0)), None, Some(d(7.9))], d(2.0));
    assert_eq!(read(&out, "gflops"), Some(2.0));
    assert_eq!(read(&out, "mem_fills_all"), Some(100.0));
    assert_eq!(read(&out, "mem_fills_dram"), None);
    assert_eq!(read(&out, "mem_fills_remote"), Some(7.0));
    let late = c.metrics(&vec![Some(d(4e9)), None, None, None], d(0.0));
    assert!(late.is_empty());

    let intel = RawPmuCollector {
        vendor: Vendor::Intel,
        roles: vec!["fp_scalar", "fp_128", "fp_256", "fp_512"],
        groups: c.groups,
        started: None,
    };
    let out = intel.metrics(&vec![Some(d(1e9)), Some(d(1e9)), None, Some(d(1e9))], d(1.0));
    assert_eq!(read(&out, "gflops"), Some(11.0));
    assert_eq!(read(&out, "vectorization_pct"), Some(10e9 / 11e9 * 100.0));
    assert!(intel.metrics(&vec![Some(d(0.0)), None, None, None], d(1.0)).is_empty());

    let none = RawPmuCollector::new(Vendor::Other, Some(&db), &sysfs());
    assert!(none.roles.is_empty());
    assert!(policy(Vendor::Other).is_empty());
    assert_eq!(policy(Vendor::Arm).len(), 3);
}

#[test]
fn models_resolve_all_four_metrics_or_are_gaps() {
    let intel = r#"[
      {"EventName": "A", "EventCode": "1"}, {"EventName": "B", "EventCode": "2"},
      {"MetricName": "tma_retiring", "MetricExpr": "topdown\\-retiring / slots"},
      {"MetricName": "tma_frontend_bound", "MetricExpr": "a / (a + b)"},
      {"MetricName": "tma_backend_bound", "MetricExpr": "b / (a + b) if #smt_on else 0"},
      {"MetricName": "tma_bad_speculation",
       "MetricExpr": "max(1 - (tma_frontend_bound + tma_backend_bound), 0)"}
    ]"#;
    let db = load(&vec![], &vec![intel.to_string()]);
    let st = validate_canon(&db, host());
    assert!(st.iter().all(|s| s.resolved && s.metric.is_some()));
    let gap = load(&vec![], &vec![r#"[{"EventName": "A", "EventCode": "1"}]"#.to_string()]);
    assert!(validate_canon(&gap, host()).iter().all(|s| !s.resolved));
}

#[test]
fn references_side_by_side_are_not_deep() {
    let many = vec!["k"; 70].join(" + ");
    let db = db_with(&[("k", "1"), ("m", many.as_str())]);
    assert_eq!(eval(&db, "m", &[]), Some(70.0));
}

#[test]
fn deep_nesting_is_a_gap() {
    let names: Vec<String> = (0..65).map(|i| format!("n{i}")).collect();
    let mut rows: Vec<(&str, &str)> = Vec::new();
    for i in 0..64 {
        rows.push((names[i].as_str(), names[i + 1].as_str()));
    }
    rows.push((names[64].as_str(), "1"));
    let db = db_with(&rows);
    // n1 and those within it are 64 formulas, one inside the other; n0 is one more
    assert_eq!(eval(&db, "n1", &[]), Some(1.0));
    assert_eq!(eval(&db, "n0", &[]), None);
}

#[test]
fn an_unknown_cpu_has_no_data() {
    let info = "vendor_id\t: AuthenticAMD\ncpu family\t: 26\nmodel\t\t: 2\nstepping\t: 1\n";
    let id = detect_cpuid(info).unwrap();
    let map = "Family-model,Version,Filename,EventType\nAuthenticAMD-26-.*,v1,amdzen5,core\nAuthenticAMD-26-2,v1,amdzen5b,core\n";
    let dirs = |v: &[&str]| -> Vec<String> { v.iter().map(|s| s.to_string()).collect() };
    let both = dirs(&["amdzen5b", "amdzen5"]);
    assert_eq!(detect_model_dir(Some(&id), Some(map), &both).unwrap(), "amdzen5");
    let one = dirs(&["amdzen5b"]);
    assert_eq!(detect_model_dir(Some(&id), Some(map), &one).unwrap(), "amdzen5b");
    assert!(detect_model_dir(Some(&id), Some(map), &dirs(&[])).is_none());
    assert!(detect_model_dir(Some(&id), Some("x,y,z\n"), &both).is_none());
    assert!(detect_model_dir(Some(&id), None, &both).is_none());
    assert!(detect_model_dir(None, Some(map), &both).is_none());
    let files = dirs(&["[{\"MetricName\": \"M\", \"MetricExpr\": \"1 + 1\"}]"]);
    assert!(detect(None, &dirs(&[]), &files).is_none());
    let db = detect(Some("amdzen5".to_string()), &dirs(&[]), &files).unwrap();
    assert_eq!(db.model_dir, "amdzen5");
    assert_eq!(eval(&db, "m", &[]), Some(2.0));
}

#[test]
fn an_encoded_config_gives_its_fields_back() {
    let mut fmt: Table<Vec<(u8, u8)>> = Table::new();
    fmt = fmt.with("event".to_string(), vec![(0, 7), (32, 35)]);
    fmt = fmt.with("umask".to_string(), vec![(8, 15)]);
    fmt = fmt.with("edge".to_string(), vec![(18, 18)]);
    let ev = |names: &[(&str, u64)]| EventDef {
        fields: names.iter().map(|(n, v)| (n.to_string(), *v)).collect(),
        unit: "cpu".to_string(),
    };
    let a = ev(&[("event", 0x1a0), ("umask", 0x60), ("edge", 1)]);
    assert!(layout_fits(&a, &fmt));
    let c = encode(&a, &fmt).unwrap();
    assert_eq!(c, 0x1_0004_60a0);
    assert_eq!((c & 0xff) | ((c >> 32 & 0xf) << 8), 0x1a0);
    assert_eq!(c >> 8 & 0xff, 0x60);
    assert_eq!(c >> 18 & 1, 1);
    assert_eq!(c & !0xf_0004_ffff, 0);
    // the order of the fields does not matter
    let b = ev(&[("edge", 1), ("event", 0x1a0), ("umask", 0x60)]);
    assert_eq!(encode(&b, &fmt), Some(c));
    assert_eq!(encode(&ev(&[("inv", 1)]), &fmt), None);
}
