use uaps::cpu::Vendor;
use uaps::collector::Target;
use uaps::double::Double;
use uaps::elapsed::ElapsedCollector;
use uaps::fallback;
use uaps::metric::{Duration, Metric, MetricValue};
use uaps::perf::PerfCollector;
use uaps::pmu::CountScope;
use uaps::proc::{
    node_busy_ticks, node_disk_bytes, node_used_mem_bytes, parse_kb_line, read_sample, BlockDevice,
    NodeReading, ProcCollector,
};
use uaps::sw::SwCollector;
use uaps::threads::{cpu_ticks, ThreadCollector};
use uaps::topdown::{main_events, split_events, TopRead, TopdownCollector};

fn f(x: Double) -> f64 {
    f64::from_bits(x.bits)
}

fn read(out: &Vec<Metric>, key: &str) -> Option<f64> {
    out.iter().find(|m| m.key == key).map(|m| f(m.value.as_f64()))
}

const STAT: &str = "77 (a (b) c) S 1 77 77 0 -1 0 0 0 0 0 150 50 0 0 20 0 4 0 1000 0 0";
const STATUS: &str = "Name:\tc\nVmRSS:\t    2048 kB\nThreads:\t4\n";
const IO: &str = "rchar: 11\nwchar: 22\nsyscr: 1\nread_bytes: 33\nwrite_bytes: 44\n";

#[test]
fn parses_kb_lines() {
    assert_eq!(parse_kb_line("   2048 kB"), 2048 * 1024);
    assert_eq!(parse_kb_line("0 kB"), 0);
}

#[test]
fn odd_kb_lines_are_zero() {
    assert_eq!(parse_kb_line(""), 0);
    assert_eq!(parse_kb_line("many kB"), 0);
    assert_eq!(parse_kb_line("18446744073709551615 kB"), 0);
    assert_eq!(parse_kb_line("18014398509481983"), 18446744073709550592);
}

#[test]
fn a_sample_is_read() {
    let s = read_sample(STAT, Some(STATUS), Some(IO)).unwrap();
    assert_eq!(s.cpu_ticks, 200);
    assert_eq!(s.rss_bytes, 2048 * 1024);
    assert_eq!(s.threads, 4);
    assert_eq!((s.disk_read, s.disk_write), (33, 44));
    assert_eq!((s.io_rchar, s.io_wchar), (11, 22));
    assert_eq!(s.state, Some('S'));
    let bare = read_sample(STAT, None, None).unwrap();
    assert_eq!((bare.rss_bytes, bare.disk_read), (0, 0));
    assert!(read_sample("", None, None).is_none());
    assert!(read_sample("1 (c) R 1 2", None, None).is_none());
}

#[test]
fn samples_self() {
    let mut c = ProcCollector::new(100, 8);
    assert_eq!(c.name(), "proc");
    let scope = CountScope { wide: false };
    c.start(Duration::new(10, 0), None, read_sample(STAT, Some(STATUS), Some(IO)));
    c.sample(None, read_sample(STAT, Some(STATUS), Some(IO)));
    let now = Duration::new(12, 0);
    assert!(c.can_finish(now, &scope));
    let metrics = c.finish(now, &scope, Some("1\n"));
    assert!(metrics.iter().any(|m| m.key == "peak_rss"));
    assert!(metrics.iter().any(|m| m.key == "max_threads"));
    assert_eq!(read(&metrics, "cpu_time"), Some(2.0));
    assert_eq!(read(&metrics, "cpu_cores_used"), Some(1.0));
    assert_eq!(read(&metrics, "cpu_core_pct"), Some(12.5));
    assert_eq!(read(&metrics, "peak_rss"), Some(2048.0 * 1024.0));
    assert_eq!(read(&metrics, "io_read"), Some(11.0));
    assert_eq!(read(&metrics, "io_wait"), None);
    assert_eq!(read(&metrics, "smt_active"), Some(1.0));
    assert_eq!(read(&metrics, "system_wide"), Some(0.0));
}

#[test]
fn peaks_and_io_wait_are_kept() {
    let mut c = ProcCollector::new(0, 0);
    assert_eq!((c.clk_tck, c.ncpu), (100, 1));
    let scope = CountScope { wide: false };
    let blocked = STAT.replace(") S", ") D");
    c.start(Duration::new(0, 0), None, read_sample(&blocked, Some("VmRSS: 900 kB"), None));
    c.sample(None, read_sample(STAT, Some("VmRSS: 100 kB"), None));
    c.sample(None, read_sample(STAT, Some("VmRSS: 200 kB"), None));
    c.sample(None, read_sample(STAT, Some("VmRSS: 300 kB"), None));
    c.sample(None, None); // the process is gone
    assert_eq!((c.samples, c.blocked), (4, 1));
    let out = c.finish(Duration::new(2, 0), &scope, None);
    assert_eq!(read(&out, "peak_rss"), Some(900.0 * 1024.0));
    assert_eq!(read(&out, "io_wait"), Some(0.5));
    assert_eq!(read(&out, "io_wait_samples"), Some(4.0));
    assert_eq!(read(&out, "smt_active"), Some(0.0));
    let never = ProcCollector::new(100, 1);
    assert!(never.finish(Duration::new(1, 0), &scope, None).is_empty());
}

#[test]
fn the_node_is_measured_as_a_whole() {
    let mut c = ProcCollector::new(100, 4);
    let scope = CountScope { wide: true };
    let first = NodeReading { busy: Some(1000), mem: Some(50), disk: Some((10, 20)) };
    c.start(Duration::new(0, 0), Some(first), read_sample(STAT, Some(STATUS), Some(IO)));
    let later = NodeReading { busy: Some(1400), mem: Some(70), disk: None };
    c.sample(Some(later), None);
    let last = NodeReading { busy: None, mem: Some(60), disk: Some((15, 45)) };
    c.sample(Some(last), None);
    let out = c.finish(Duration::new(2, 0), &scope, Some("0"));
    assert_eq!(read(&out, "cpu_time"), Some(4.0));
    assert_eq!(read(&out, "cpu_cores_used"), Some(2.0));
    assert_eq!(read(&out, "cpu_core_pct"), Some(50.0));
    assert_eq!(read(&out, "peak_rss"), Some(70.0));
    assert_eq!(read(&out, "disk_read"), Some(5.0));
    assert_eq!(read(&out, "disk_write"), Some(25.0));
    assert_eq!(read(&out, "io_read"), None);
    assert_eq!(read(&out, "system_wide"), Some(1.0));
    assert!(out.iter().any(|m| m.label == "Node memory used (peak)"));
}

#[test]
fn node_files_are_read() {
    assert_eq!(node_busy_ticks("cpu  10 20 30 400 50 6 7 8\ncpu0 1 2 3\n"), Some(81));
    assert_eq!(node_busy_ticks("cpu0 10 20 30 400 50\n"), None);
    assert_eq!(node_busy_ticks("cpu 1 2 3 4\n"), None);
    assert_eq!(node_busy_ticks(""), None);
    assert_eq!(node_busy_ticks("cpu 18446744073709551615 1 0 0 0\n"), None);
    let mem = "MemTotal:  1000 kB\nMemFree: 1 kB\nMemAvailable: 400 kB\nMemTotal: 5 kB\n";
    assert_eq!(node_used_mem_bytes(mem), Some(600 * 1024));
    assert_eq!(node_used_mem_bytes("MemAvailable: 9 kB\nMemTotal: 3 kB"), Some(0));
    assert_eq!(node_used_mem_bytes("MemTotal: 3 kB"), None);
    let dev = |name: &str, stat: Option<&str>| BlockDevice {
        name: name.to_string(),
        stat: stat.map(|s| s.to_string()),
    };
    let disks = vec![
        dev("sda", Some("1 0 10 0 2 0 20 0 0 0 0\n")),
        dev("nvme0n1", Some("1 0 5 0 2 0 7\n")),
        dev("loop0", Some("1 0 999 0 2 0 999\n")),
        dev("dm-0", Some("1 0 999 0 2 0 999\n")),
        dev("sdb", None),
        dev("sdc", Some("1 2 3")),
    ];
    assert_eq!(node_disk_bytes(&disks), Some((15 * 512, 27 * 512)));
    assert_eq!(node_disk_bytes(&vec![dev("ram0", Some("1 0 1 0 0 0 1"))]), None);
    let huge = "0 0 18446744073709551615 0 0 0 1";
    assert_eq!(node_disk_bytes(&vec![dev("sda", Some(huge)), dev("sdb", Some(huge))]), None);
}

fn stat_of(ticks: u64) -> String {
    format!("5 (w) R 1 5 5 0 -1 0 0 0 0 0 {ticks} 0 0 0 20 0 1 0 1 0 0")
}

#[test]
fn thread_imbalance_is_of_the_workers() {
    let mut c = ThreadCollector::new(100);
    assert_eq!(c.name(), "threads");
    c.sample(1, &stat_of(100));
    c.sample(2, &stat_of(10));
    assert_eq!(c.finish().len(), 2);
    c.sample(1, &stat_of(400));
    c.sample(2, &stat_of(200));
    c.sample(3, &stat_of(30)); // a coordinator: under a tenth
    c.sample(4, &stat_of(0));
    c.sample(5, "malformed");
    let out = c.finish();
    assert_eq!(read(&out, "active_threads"), Some(2.0));
    assert_eq!(read(&out, "thread_imbalance_pct"), Some(25.0));
    let mut one = ThreadCollector::new(-1);
    one.sample(1, &stat_of(100));
    assert_eq!(one.clk_tck, 100);
    assert!(one.finish().is_empty());
    assert_eq!(cpu_ticks("no"), None);
    assert_eq!(cpu_ticks("1 (c) R 1 2"), None);
}

#[test]
fn elapsed_time_is_measured() {
    let mut c = ElapsedCollector::new();
    assert_eq!(c.name(), "elapsed");
    assert_eq!(read(&c.finish(Duration::new(5, 0)), "elapsed_time"), Some(0.0));
    c.start(Duration::new(5, 0));
    let out = c.finish(Duration::new(6, 500000000));
    assert_eq!(read(&out, "elapsed_time"), Some(1.5));
    assert!(matches!(out[0].value, MetricValue::Duration(_)));
}

#[test]
fn generic_and_software_counters_are_listed() {
    let mut p = PerfCollector::new();
    assert_eq!(p.name(), "perf");
    assert!(p.finish().is_empty());
    assert!(PerfCollector::note(&p.finish()).is_some());
    let n = p.groups.groups.len();
    p.groups.attach(&vec![true; n]);
    let reads: Vec<Option<Vec<u64>>> = p
        .groups
        .groups
        .iter()
        .map(|g| {
            let mut w = vec![g.len() as u64, 10, 5];
            for k in 0..g.len() {
                w.push(100 + k as u64);
            }
            Some(w)
        })
        .collect();
    p.groups.poll(&vec![reads]);
    let out = p.finish();
    assert!(out.iter().any(|m| m.key == "hw_instructions"));
    assert!(out.iter().all(|m| f(m.value.as_f64()) >= 200.0));
    assert!(PerfCollector::note(&out).is_none());

    let mut s = SwCollector::new();
    assert_eq!(s.name(), "sw");
    s.groups.attach(&vec![true]);
    s.groups.poll(&vec![vec![Some(vec![4, 1, 1, 9, 8, 7, 6])]]);
    let out = s.finish();
    assert_eq!(read(&out, "ctx_switches"), Some(9.0));
    assert_eq!(read(&out, "cpu_migrations"), Some(8.0));
    assert_eq!(read(&out, "page_faults"), Some(7.0));
    assert_eq!(read(&out, "page_faults_maj"), Some(6.0));
}

#[test]
fn topdown_slots_are_shared_out() {
    assert_eq!(main_events().len(), 5);
    assert_eq!(split_events()[1].config, 0xA2D6);
    assert_eq!(main_events()[1].config, (1 << 32) | 0x01A0);
    assert!(!TopdownCollector::new(Vendor::Amd, 0x19).supported);
    assert!(!TopdownCollector::new(Vendor::Intel, 0x1A).supported);
    let mut c = TopdownCollector::new(Vendor::Amd, 0x1A);
    assert!(c.supported);
    assert_eq!(c.discover(&vec![(1, 5), (2, 5)]), vec![(1, 5), (2, 5)]);
    c.attach(true);
    c.attach(false);
    assert!(c.finish().is_empty());
    let words = |v: Vec<u64>| {
        let mut w = vec![v.len() as u64, 100, 100];
        w.extend(v);
        Some(w)
    };
    c.poll(&vec![
        TopRead { main: words(vec![100, 80, 200, 40, 320]), split: words(vec![50, 20]) },
        TopRead { main: words(vec![100, 80, 200, 40, 320]), split: None },
    ]);
    let out = c.finish();
    assert_eq!(read(&out, "topdown_frontend_pct"), Some(10.0));
    assert_eq!(read(&out, "topdown_backend_pct"), Some(25.0));
    assert_eq!(read(&out, "topdown_smt_pct"), Some(5.0));
    assert_eq!(read(&out, "topdown_retiring_pct"), Some(40.0));
    assert_eq!(read(&out, "topdown_badspec_pct"), Some(20.0));
    assert_eq!(read(&out, "topdown_backend_mem_pct"), Some(25.0 * 0.4));
    assert_eq!(read(&out, "topdown_backend_core_pct"), Some(25.0 * (1.0 - 0.4)));
    assert!(out.iter().any(|m| m.label == "  ↳ memory bound"));
}

#[test]
fn topdown_groups_die_and_are_pruned() {
    let mut c = TopdownCollector::new(Vendor::Amd, 0x1A);
    c.attach(false);
    c.attach(false);
    let alive = || Some(vec![5, 100, 100, 10, 1, 1, 1, 1]);
    c.poll(&vec![
        TopRead { main: None, split: None },
        TopRead { main: alive(), split: None },
    ]);
    assert!(c.groups[0].main_dead && !c.groups[1].main_dead);
    assert_eq!(c.prune(), vec![false, true]);
    assert_eq!(c.groups.len(), 1);
    // the thread exits: its last read still counts, and it is not pruned
    c.poll(&vec![TopRead { main: None, split: None }]);
    assert!(c.groups[0].main_dead);
    assert_eq!(c.prune(), vec![true]);
    let out = c.finish();
    assert_eq!(read(&out, "topdown_frontend_pct"), Some(1.25));
    assert_eq!(read(&out, "topdown_backend_mem_pct"), None);
}

#[test]
fn stubs_implement_collector_and_yield_nothing() {
    let target = Target { pid: 1 };
    let mut a = fallback::ProcCollector::new();
    a.start(&target);
    assert!(a.finish().is_empty());
    let mut b = fallback::PerfCollector::new();
    b.start(&target);
    assert!(b.finish().is_empty());
    let mut c = fallback::ThreadCollector::new();
    c.start(&target);
    assert!(c.finish().is_empty());
    let mut d = fallback::RawPmuCollector::new();
    d.start(&target);
    assert!(d.finish().is_empty());
    let mut e = fallback::TopdownCollector::new();
    e.start(&target);
    assert!(e.finish().is_empty());
    let mut g = fallback::SwCollector::new();
    g.start(&target);
    assert!(g.finish().is_empty());
    assert_eq!((a.name(), g.name()), ("proc", "sw"));
}

#[test]
fn the_first_level_adds_up_to_all_slots() {
    let mut c = TopdownCollector::new(Vendor::Amd, 0x1A);
    c.attach(false);
    c.poll(&vec![TopRead {
        main: Some(vec![5, 100, 100, 1_000_003, 1_234_567, 2_345_678, 345_679, 1_456_789]),
        split: None,
    }]);
    let out = c.finish();
    let keys = ["retiring", "frontend", "backend", "smt", "badspec"];
    let all: f64 = keys.iter().map(|k| read(&out, &format!("topdown_{k}_pct")).unwrap()).sum();
    assert!((all - 100.0).abs() < 1e-12, "{all}");
    let retiring = 100.0 * 1_456_789.0 / (8.0 * 1_000_003.0);
    assert!((read(&out, "topdown_retiring_pct").unwrap() - retiring).abs() < 1e-13);
    assert!(read(&out, "topdown_backend_mem_pct").is_none());
    assert!(read(&out, "topdown_backend_core_pct").is_none());
}

#[test]
fn a_run_of_samples_is_reported() {
    let mut c = ProcCollector::new(100, 8);
    let scope = CountScope::default();
    c.start(Duration::new(0, 0), None, None); // not readable yet
    c.sample(None, read_sample(STAT, Some("VmRSS: 5 kB"), Some(IO)));
    c.sample(None, None);
    c.sample(None, read_sample(STAT, Some("VmRSS: 3 kB"), Some("read_bytes: 7\n")));
    let out = c.finish(Duration::new(1, 0), &scope, None);
    let keys: Vec<&str> = out.iter().map(|m| m.key).collect();
    assert_eq!(keys, [
        "cpu_time", "cpu_cores_used", "cpu_core_pct", "peak_rss", "max_threads", "disk_read",
        "disk_write", "io_read", "io_write", "smt_active", "system_wide",
    ]);
    assert_eq!(read(&out, "peak_rss"), Some(5.0 * 1024.0));
    assert_eq!(read(&out, "max_threads"), Some(4.0));
    assert_eq!(read(&out, "disk_read"), Some(7.0));
    assert_eq!(read(&out, "io_read"), Some(0.0));
}
