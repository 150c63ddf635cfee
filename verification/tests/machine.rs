use uaps::cpu::{detect, detect_cpuid, model_dirs, num_cpus_online, smt_on, Vendor};
use uaps::double::Double;
use uaps::gpu::{classify_fd, detect as detect_gpu, vendor_from_maps, FdHit};
use uaps::omp::{runtime_loaded, spin_masks_imbalance};
use uaps::pattern::found_in;
use uaps::pmu::{
    online_cpus, parse_starttime, raise_fd_limit, read_values, set_system_wide, system_wide,
    CountScope, EventCfg, ThreadGroups, TYPE_RAW,
};

fn f(x: Double) -> f64 {
    f64::from_bits(x.bits)
}

#[test]
fn nvidia_unambiguous_but_kfd_and_render_need_corroboration() {
    assert!(matches!(classify_fd("/dev/nvidia0"), Some(FdHit::Compute("NVIDIA"))));
    assert!(matches!(classify_fd("/dev/nvidiactl"), Some(FdHit::Compute("NVIDIA"))));
    assert!(matches!(classify_fd("/dev/kfd"), Some(FdHit::DeviceNode)));
    assert!(matches!(classify_fd("/dev/dri/renderD128"), Some(FdHit::DeviceNode)));
    // ordinary files are not GPU use
    assert!(classify_fd("/home/u/app.dat").is_none());
    assert!(classify_fd("/dev/dri/card0").is_none()); // primary node, not a render node
}

#[test]
fn device_node_needs_a_compute_runtime_to_name_a_vendor() {
    assert_eq!(vendor_from_maps("...libamdhip64.so.6..."), Some("AMD ROCm"));
    assert_eq!(vendor_from_maps("...libcudart.so.12..."), Some("NVIDIA"));
    assert_eq!(vendor_from_maps("...libze_loader.so.1..."), Some("Intel oneAPI"));
    assert_eq!(vendor_from_maps("...libmpi.so.40 libucp.so.0 libc.so.6..."), None);
    assert_eq!(vendor_from_maps("...libGLX_mesa.so.0 libglapi.so.0..."), None);
}

#[test]
fn a_runtime_alone_is_no_offload() {
    let cuda = "7f00 r-xp libcudart.so.12";
    let none: Vec<String> = vec!["/dev/null".into(), "socket:[1]".into()];
    let node: Vec<String> = vec!["/dev/null".into(), "/dev/kfd".into()];
    let card: Vec<String> = vec!["/dev/kfd".into(), "/dev/nvidia0".into()];
    assert_eq!(detect_gpu(&none, cuda), None);
    assert_eq!(detect_gpu(&node, "libc.so.6"), None);
    assert_eq!(detect_gpu(&node, "libamdhip64.so.6"), Some("AMD ROCm"));
    assert_eq!(detect_gpu(&card, "libc.so.6"), Some("NVIDIA"));
}

#[test]
fn flags_active_or_bound_default_but_not_passive_or_unbound() {
    // not an OpenMP run: never flagged
    assert!(!spin_masks_imbalance(false, None, true, false));
    assert!(!spin_masks_imbalance(false, Some("active"), true, true));
    // passive: idle threads sleep, whatever the binding or blocktime
    assert!(!spin_masks_imbalance(true, Some("passive"), true, true));
    assert!(!spin_masks_imbalance(true, Some("PASSIVE"), true, false));
    assert!(!spin_masks_imbalance(true, Some(" passive "), true, false));
    // explicit active: always spins
    assert!(spin_masks_imbalance(true, Some("active"), false, false));
    // unset: spins for ever only when threads are bound, or the runtime is told to
    assert!(spin_masks_imbalance(true, None, true, false));
    assert!(spin_masks_imbalance(true, None, false, true));
    assert!(!spin_masks_imbalance(true, None, false, false));
}

#[test]
fn openmp_runtimes_are_recognised() {
    assert!(runtime_loaded("... /usr/lib/libgomp.so.1 ..."));
    assert!(runtime_loaded("libomp.so.5"));
    assert!(runtime_loaded("libiomp5.so"));
    assert!(!runtime_loaded("libc.so.6 libpthread.so.0"));
}

#[test]
fn parses_starttime_field_22_with_parens_in_comm() {
    // The command name contains a space and parentheses; splitting after the final `)`
    // must land on the start time.
    let line = "848646 (my proc) R 848637 848646 848637 0 -1 4194304 93 0 0 0 \
                0 0 0 0 20 0 1 0 12481606 8642560 478 18446744073709551615 0 0";
    assert_eq!(parse_starttime(line), 12481606);
    // A recycled thread id yields a different start time.
    let line2 = "848646 (my proc) R 848637 848646 848637 0 -1 4194304 93 0 0 0 \
                 0 0 0 0 20 0 1 0 99999999 8642560 478 18446744073709551615 0 0";
    assert_eq!(parse_starttime(line2), 99999999);
}

#[test]
fn malformed_starttime_is_zero_not_panic() {
    assert_eq!(parse_starttime(""), 0);
    assert_eq!(parse_starttime("no close paren 1 2 3"), 0);
    assert_eq!(parse_starttime("1 (c) R 1 2"), 0); // too few fields
}

#[test]
fn scope_is_the_process_until_told() {
    let mut scope = CountScope::default();
    assert!(!system_wide(&scope));
    set_system_wide(&mut scope, true);
    assert!(system_wide(&scope));
    set_system_wide(&mut scope, false);
    assert!(!system_wide(&scope));
}

#[test]
fn descriptor_limit_is_raised_to_the_hard_one() {
    assert_eq!(raise_fd_limit(1024, 4096), Some(4096));
    assert_eq!(raise_fd_limit(4096, 4096), None);
}

#[test]
fn lists_of_cpus_are_read() {
    assert_eq!(online_cpus(Some("0-3,8,10-11\n"), 4), vec![0, 1, 2, 3, 8, 10, 11]);
    assert_eq!(online_cpus(None, 2), vec![0, 1]);
    assert_eq!(num_cpus_online(Some("0-3,8\n")), Some(5));
    assert_eq!(num_cpus_online(None), Some(1));
    assert!(smt_on(Some("0,64\n")));
    assert!(smt_on(Some("0-1\n")));
    assert!(!smt_on(Some("0\n")));
    assert!(!smt_on(None));
}

#[test]
fn grouped_reads_are_scaled() {
    let r = read_values(&vec![2, 100, 50, 10, 30], 2).unwrap();
    assert_eq!(r.vals.iter().map(|x| f(*x)).collect::<Vec<f64>>(), vec![20.0, 60.0]);
    assert_eq!(f(r.coverage), 0.5);
    assert!(read_values(&vec![2, 100, 50, 10], 2).is_none()); // torn
    assert!(read_values(&vec![2, 100, 0, 10, 30], 2).is_none()); // never ran
    assert!(read_values(&vec![3, 100, 50, 10, 30], 2).is_none()); // another group
}

#[test]
fn exited_threads_still_count() {
    let ev = EventCfg { etype: TYPE_RAW, config: 1 };
    let mut g = ThreadGroups::new(vec![vec![ev]]);
    assert!(g.configured());
    assert_eq!(g.discover(&vec![(1, 10), (2, 20), (1, 10)]), vec![(1, 10), (2, 20)]);
    g.attach(&vec![true]);
    g.attach(&vec![true]);
    g.poll(&vec![vec![Some(vec![1, 5, 5, 100])], vec![Some(vec![1, 5, 5, 7])]]);
    // the first thread exits, its id is recycled
    assert_eq!(g.discover(&vec![(1, 99), (2, 20)]), vec![(1, 99)]);
    g.attach(&vec![true]);
    g.poll(&vec![vec![None], vec![Some(vec![1, 9, 9, 8])], vec![Some(vec![1, 2, 2, 1000])]]);
    let sums = g.read_sums();
    assert_eq!(sums.len(), 1);
    assert_eq!(f(sums[0].unwrap()), 1108.0);
}

#[test]
fn unread_groups_are_gaps() {
    let ev = EventCfg { etype: TYPE_RAW, config: 1 };
    let mut g = ThreadGroups::new(vec![vec![ev, ev], vec![ev]]);
    g.attach(&vec![false, true]);
    g.poll(&vec![vec![None, Some(vec![1, 4, 2, 6])]]);
    let sums = g.read_sums();
    assert!(sums[0].is_none() && sums[1].is_none());
    assert_eq!(f(sums[2].unwrap()), 12.0);
    assert!(!ThreadGroups::new(vec![vec![]]).configured());
}

#[test]
fn vendors_and_models_are_detected() {
    let amd = "processor\t: 0\nvendor_id\t: AuthenticAMD\ncpu family\t: 26\nmodel\t\t: 2\nstepping\t: 1\n";
    let info = detect(amd);
    assert!(matches!(info.vendor, Vendor::Amd));
    assert_eq!((info.family, info.model), (26, 2));
    let id = detect_cpuid(amd).unwrap();
    assert_eq!(id.arch, "x86");
    assert_eq!(id.keys, vec!["AuthenticAMD-26-2-1", "AuthenticAMD-26-2"]);
    let arm = "processor\t: 0\nCPU implementer\t: 0x41\nCPU architecture: 8\nCPU variant\t: 0x0\nCPU part\t: 0xd4f\nCPU revision\t: 0\n";
    assert!(matches!(detect(arm).vendor, Vendor::Arm));
    let id = detect_cpuid(arm).unwrap();
    assert_eq!(id.arch, "arm64");
    assert_eq!(id.keys, vec!["0x00000000410fd4f0"]);
    assert!(detect_cpuid("nothing here").is_none());
    assert!(matches!(detect("").vendor, Vendor::Other));
}

#[test]
fn only_the_first_processor_block_is_read() {
    let two = "vendor_id : AuthenticAMD\ncpu family : 26\nmodel : 68\n\nvendor_id : AuthenticAMD\ncpu family : 25\nmodel : 33\n";
    let info = detect(two);
    assert!(matches!(info.vendor, Vendor::Amd));
    assert_eq!((info.family, info.model), (26, 68));
    // blank lines ahead of the vendor end nothing
    let late = "\n \nmodel : 5\n\nvendor_id : GenuineIntel\ncpu family : 6\n\nmodel : 9\n";
    let info = detect(late);
    assert!(matches!(info.vendor, Vendor::Intel));
    assert_eq!((info.family, info.model), (6, 5));
}

#[test]
fn detects_this_host_model() {
    let intel = "vendor_id\t: GenuineIntel\ncpu family\t: 6\nmodel\t\t: 143\nstepping\t: 8\n";
    let map = "Family-model,Version,Filename,EventType\n\
               GenuineIntel-6-(8F|90),v1.1,sapphirerapids,core\n\
               GenuineIntel-6-5[56]-[[:xdigit:]],v1,skylakex,core\n\
               AuthenticAMD-26-[[:xdigit:]]+,v1,amdzen5,core\n";
    let id = detect_cpuid(intel).unwrap();
    assert_eq!(model_dirs(&id, map), vec!["sapphirerapids"]);
    let amd = "vendor_id\t: AuthenticAMD\ncpu family\t: 26\nmodel\t\t: 2\n";
    assert_eq!(model_dirs(&detect_cpuid(amd).unwrap(), map), vec!["amdzen5"]);
    let other = "vendor_id\t: GenuineIntel\ncpu family\t: 6\nmodel\t\t: 1\n";
    assert!(model_dirs(&detect_cpuid(other).unwrap(), map).is_empty());
}

#[test]
fn patterns_are_matched() {
    assert!(found_in("^(?:a[0-9]+)$", "a42"));
    assert!(!found_in("^(?:a[0-9]+)$", "a42b"));
    assert!(!found_in("(", "("));
}
