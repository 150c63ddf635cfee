//! What a run is told besides its numbers: flags, notes, and what its surroundings say.

use crate::derive::derived;
use crate::double::{less, of_int, product, quotient, Double};
use crate::env::{
    first_number, host_name, is_set, is_word, rank_in_env, rank_names, size_in_env, size_names,
    spins_forever, threads_bound, var, var_number,
};
use crate::gpu::{is_device_node, is_nvidia, offload_vendor, runtime_vendor};
use crate::metric::{law_numeric_keeps, lemma_numeric_row, numeric_of, row, MetricModel};
use crate::omp::{same_word, spin_masks};
use crate::session::{gpu_row, own_rank, session, size_row, snapshot_note, spin_row, WatchModel};
use crate::text::{begins, occurs, trimmed};
use crate::decimal::fixed;
use vstd::prelude::*;

verus! {

// ------------------------------------------------------------------ notes

/// A number that is known to be above another.
pub open spec fn exceeds(x: Option<Double>, y: Double) -> bool {
    less(
        y,
        match x {
            Some(x) => x,
            None => of_int(0),
        },
    )
}

/// A number that is below another, taken for nothing where it is not known.
pub open spec fn falls_below(x: Option<Double>, y: Double) -> bool {
    less(
        match x {
            Some(x) => x,
            None => of_int(0),
        },
        y,
    )
}

/// A run is noted as idle exactly where it took a tenth of a second or more, without a device,
/// was not known to wait for I/O for over three tenths of that, used the CPU for less than a
/// hundredth of it, and retired fewer than fifty million instructions.
pub proof fn law_a_note_is_given_exactly_to_idle_runs(s: Seq<MetricModel>, gpu: bool, t: Double)
    requires
        numeric_of(s, "elapsed_time"@) == Some(t),
        !t.is_nan(),
    ensures
        snapshot_note(s, gpu) is Some <==> {
            &&& !gpu
            &&& !less(t, quotient(of_int(1), of_int(10)))
            &&& !exceeds(
                numeric_of(s, "io_wait"@),
                product(quotient(of_int(3), of_int(10)), t),
            )
            &&& less(
                quotient(
                    match numeric_of(s, "cpu_time"@) {
                        Some(c) => c,
                        None => of_int(0),
                    },
                    t,
                ),
                quotient(of_int(1), of_int(100)),
            )
            &&& falls_below(numeric_of(s, "hw_instructions"@), of_int(50000000))
        },
{
}

/// A run whose time is not known is not noted.
pub proof fn law_no_note_without_a_time(s: Seq<MetricModel>, gpu: bool)
    requires
        numeric_of(s, "elapsed_time"@) is None,
    ensures
        snapshot_note(s, gpu) is None,
{
}

// ------------------------------------------------------------------ flags

proof fn lemma_flag_keys()
    ensures
        "gpu_offload"@.len() == 11,
        "omp_spin_wait"@.len() == 13,
        "max_threads"@.len() == 11,
        "max_threads"@ != "gpu_offload"@,
{
    reveal_strlit("gpu_offload");
    reveal_strlit("omp_spin_wait");
    reveal_strlit("max_threads");
    assert("max_threads"@[0] != "gpu_offload"@[0]);
}

/// A snapshot keeps what was collected and what is derived from it; the flags come besides.
pub proof fn law_a_snapshot_keeps_what_was_collected(
    collected: Seq<MetricModel>,
    w: WatchModel,
    vars: Seq<(Seq<char>, Seq<char>)>,
    key: Seq<char>,
)
    ensures
        numeric_of(collected, key) is Some ==> numeric_of(session(collected, w, vars), key)
            == numeric_of(collected, key),
        numeric_of(collected, key) is None && numeric_of(derived(collected), key) is Some
            ==> numeric_of(session(collected, w, vars), key) == numeric_of(
            derived(collected),
            key,
        ),
        numeric_of(collected, key) is None && numeric_of(derived(collected), key) is None && key
            != "gpu_offload"@ && key != "omp_spin_wait"@ ==> numeric_of(
            session(collected, w, vars),
            key,
        ) is None,
{
    let a = collected + derived(collected);
    let b = a + row(gpu_row(w.gpu));
    law_numeric_keeps(collected, derived(collected), key);
    law_numeric_keeps(a, row(gpu_row(w.gpu)), key);
    law_numeric_keeps(b, row(spin_row(b, w.omp_loaded, vars)), key);
    lemma_numeric_row(gpu_row(w.gpu), key);
    lemma_numeric_row(spin_row(b, w.omp_loaded, vars), key);
}

/// A device that does the computing is flagged exactly where one was noticed.
pub proof fn law_a_device_is_flagged_where_noticed(
    collected: Seq<MetricModel>,
    w: WatchModel,
    vars: Seq<(Seq<char>, Seq<char>)>,
)
    requires
        numeric_of(collected, "gpu_offload"@) is None,
        numeric_of(derived(collected), "gpu_offload"@) is None,
    ensures
        numeric_of(session(collected, w, vars), "gpu_offload"@) == if w.gpu is Some {
            Some(of_int(1))
        } else {
            None
        },
{
    let key = "gpu_offload"@;
    let a = collected + derived(collected);
    let b = a + row(gpu_row(w.gpu));
    lemma_flag_keys();
    law_numeric_keeps(collected, derived(collected), key);
    law_numeric_keeps(a, row(gpu_row(w.gpu)), key);
    law_numeric_keeps(b, row(spin_row(b, w.omp_loaded, vars)), key);
    lemma_numeric_row(gpu_row(w.gpu), key);
    lemma_numeric_row(spin_row(b, w.omp_loaded, vars), key);
}

/// Spinning is flagged exactly where more than one thread ran, an OpenMP runtime was loaded, and
/// idle threads spin: not under the passive policy, always under the active one, and otherwise
/// where threads are bound or the runtime is told to spin for ever.
pub proof fn law_spinning_is_flagged_where_it_may_hide_imbalance(
    collected: Seq<MetricModel>,
    w: WatchModel,
    vars: Seq<(Seq<char>, Seq<char>)>,
)
    requires
        numeric_of(collected, "omp_spin_wait"@) is None,
        numeric_of(derived(collected), "omp_spin_wait"@) is None,
        numeric_of(collected, "max_threads"@) is Some,
    ensures
        ({
            let policy = var(vars, "OMP_WAIT_POLICY"@);
            let says = |word: Seq<char>| policy matches Some(p) && same_word(trimmed(p), word);
            numeric_of(session(collected, w, vars), "omp_spin_wait"@) == if less(
                of_int(1),
                numeric_of(collected, "max_threads"@)->0,
            ) && w.omp_loaded && !says("passive"@) && (says("active"@) || threads_bound(vars)
                || spins_forever(vars)) {
                Some(of_int(1))
            } else {
                None
            }
        }),
{
    let key = "omp_spin_wait"@;
    let a = collected + derived(collected);
    let b = a + row(gpu_row(w.gpu));
    lemma_flag_keys();
    law_numeric_keeps(collected, derived(collected), key);
    law_numeric_keeps(a, row(gpu_row(w.gpu)), key);
    law_numeric_keeps(b, row(spin_row(b, w.omp_loaded, vars)), key);
    lemma_numeric_row(gpu_row(w.gpu), key);
    lemma_numeric_row(spin_row(b, w.omp_loaded, vars), key);
    let t = "max_threads"@;
    law_numeric_keeps(collected, derived(collected), t);
    law_numeric_keeps(a, row(gpu_row(w.gpu)), t);
}

/// No imbalance is hidden without a runtime, nor where idle threads sleep.
pub proof fn law_passive_threads_do_not_spin(
    loaded: bool,
    policy: Option<Seq<char>>,
    bound: bool,
    forced: bool,
)
    ensures
        !loaded ==> !spin_masks(loaded, policy, bound, forced),
        policy matches Some(p) && same_word(trimmed(p), "passive"@) ==> !spin_masks(
            loaded,
            policy,
            bound,
            forced,
        ),
        loaded && policy is None ==> spin_masks(loaded, policy, bound, forced) == (bound
            || forced),
        loaded && (policy matches Some(p) && same_word(trimmed(p), "active"@)) ==> spin_masks(
            loaded,
            policy,
            bound,
            forced,
        ),
{
    match policy {
        Some(p) => {
            if same_word(trimmed(p), "active"@) && same_word(trimmed(p), "passive"@) {
                reveal_strlit("active");
                reveal_strlit("passive");
                let f = |c: char| crate::text::ascii_lower(c);
                assert("active"@.map_values(f).len() == 6);
                assert("passive"@.map_values(f).len() == 7);
            }
        },
        None => {},
    }
}

// ------------------------------------------------------------------ devices

/// An open NVIDIA device is proof by itself. A device node of another kind needs a mapped
/// runtime besides, whose vendor is the one that is told.
pub proof fn law_devices_tell_the_vendor(targets: Seq<Seq<char>>, maps: Seq<char>, i: int)
    requires
        0 <= i < targets.len(),
    ensures
        occurs(targets[i], "/dev/nvidia"@) ==> offload_vendor(targets, maps) == Some("NVIDIA"@),
        (forall|k: int| 0 <= k < targets.len() ==> !occurs(#[trigger] targets[k], "/dev/nvidia"@))
            && (occurs(targets[i], "/dev/kfd"@) || occurs(targets[i], "/dev/dri/renderD"@))
            ==> offload_vendor(targets, maps) == runtime_vendor(maps),
{
    if occurs(targets[i], "/dev/nvidia"@) {
        assert(is_nvidia(targets[i]));
    } else if occurs(targets[i], "/dev/kfd"@) || occurs(targets[i], "/dev/dri/renderD"@) {
        assert(is_device_node(targets[i]));
    }
    assert((forall|k: int| 0 <= k < targets.len() ==> !occurs(#[trigger] targets[k], "/dev/nvidia"@))
        ==> forall|k: int| 0 <= k < targets.len() ==> !is_nvidia(#[trigger] targets[k]));
}

/// Where one kind of runtime alone is mapped, it names the vendor; where none is, none is named.
pub proof fn law_a_runtime_names_its_vendor(maps: Seq<char>)
    ensures
        ({
            let nvidia = occurs(maps, "libcuda"@) || occurs(maps, "libcudart"@) || occurs(
                maps,
                "libnvidia"@,
            );
            let amd = occurs(maps, "libamdhip64"@) || occurs(maps, "libhsa-runtime"@) || occurs(
                maps,
                "libamdocl"@,
            );
            let intel = occurs(maps, "libze_loader"@) || occurs(maps, "libze_intel"@) || occurs(
                maps,
                "libigdrcl"@,
            );
            let opencl = occurs(maps, "libOpenCL"@);
            &&& nvidia ==> runtime_vendor(maps) == Some("NVIDIA"@)
            &&& amd && !nvidia ==> runtime_vendor(maps) == Some("AMD ROCm"@)
            &&& intel && !nvidia && !amd ==> runtime_vendor(maps) == Some("Intel oneAPI"@)
            &&& opencl && !nvidia && !amd && !intel ==> runtime_vendor(maps) == Some("OpenCL"@)
            &&& runtime_vendor(maps) is None <==> !nvidia && !amd && !intel && !opencl
        }),
{
}

// ------------------------------------------------------------------ the environment

/// The first of a name is its value.
pub proof fn law_the_first_of_a_name_counts(
    vars: Seq<(Seq<char>, Seq<char>)>,
    name: Seq<char>,
    i: int,
)
    ensures
        0 <= i < vars.len() && vars[i].0 == name && (forall|k: int|
            0 <= k < i ==> (#[trigger] vars[k]).0 != name) ==> var(vars, name) == Some(vars[i].1),
        (forall|k: int| 0 <= k < vars.len() ==> (#[trigger] vars[k]).0 != name) ==> var(
            vars,
            name,
        ) is None,
    decreases vars.len(),
{
    if vars.len() > 0 {
        let rest = vars.skip(1);
        law_the_first_of_a_name_counts(rest, name, i - 1);
        assert forall|k: int| 0 <= k < rest.len() implies #[trigger] rest[k] == vars[k + 1] by {}
        assert((forall|k: int| 0 <= k < vars.len() ==> (#[trigger] vars[k]).0 != name)
            ==> vars[0].0 != name);
        if 0 < i < vars.len() {
            assert(rest[i - 1] == vars[i]);
            assert((forall|k: int| 0 <= k < i ==> (#[trigger] vars[k]).0 != name) ==> vars[0].0
                != name);
        }
    }
}

/// The first variable that holds a number large enough gives it.
proof fn lemma_first_number(
    vars: Seq<(Seq<char>, Seq<char>)>,
    names: Seq<Seq<char>>,
    least: int,
    i: int,
    n: int,
)
    requires
        0 <= i < names.len(),
        var_number(vars, names[i]) == Some(n),
        n >= least,
        forall|k: int|
            0 <= k < i ==> !(var_number(vars, #[trigger] names[k]) matches Some(m) && m >= least),
    ensures
        first_number(vars, names, least) == Some(n),
    decreases names.len(),
{
    if i > 0 {
        let rest = names.skip(1);
        assert(rest[i - 1] == names[i]);
        assert(var_number(vars, names[0]) == var_number(vars, names[0]));
        assert forall|k: int| 0 <= k < i - 1 implies !(var_number(vars, #[trigger] rest[k]) matches
            Some(m) && m >= least) by {
            assert(rest[k] == names[k + 1]);
        }
        lemma_first_number(vars, rest, least, i - 1, n);
    }
}

proof fn lemma_no_number(vars: Seq<(Seq<char>, Seq<char>)>, names: Seq<Seq<char>>, least: int)
    requires
        forall|k: int|
            0 <= k < names.len() ==> !(var_number(vars, #[trigger] names[k]) matches Some(m) && m
                >= least),
    ensures
        first_number(vars, names, least) is None,
    decreases names.len(),
{
    if names.len() > 0 {
        let rest = names.skip(1);
        assert forall|k: int| 0 <= k < rest.len() implies !(var_number(vars, #[trigger] rest[k])
            matches Some(m) && m >= least) by {
            assert(rest[k] == names[k + 1]);
        }
        assert(!(var_number(vars, names[0]) matches Some(m) && m >= least));
        lemma_no_number(vars, rest, least);
    }
}

/// Every launcher is known by the variable in which it tells a rank its number; without any of
/// them there is no rank, and the own rank is taken for 0.
pub proof fn law_every_launcher_tells_the_rank(vars: Seq<(Seq<char>, Seq<char>)>)
    ensures
        ({
            let open = var_number(vars, "OMPI_COMM_WORLD_RANK"@);
            let pmi = var_number(vars, "PMI_RANK"@);
            let pmix = var_number(vars, "PMIX_RANK"@);
            let mv = var_number(vars, "MV2_COMM_WORLD_RANK"@);
            let slurm = var_number(vars, "SLURM_PROCID"@);
            let pals = var_number(vars, "PALS_RANKID"@);
            let alps = var_number(vars, "ALPS_APP_PE"@);
            let first = if open is Some {
                open
            } else if pmi is Some {
                pmi
            } else if pmix is Some {
                pmix
            } else if mv is Some {
                mv
            } else if slurm is Some {
                slurm
            } else if pals is Some {
                pals
            } else {
                alps
            };
            &&& rank_in_env(vars) == first
            &&& own_rank(vars) == match first {
                Some(r) => r,
                None => 0,
            }
        }),
{
    let v = rank_names();
    let low = i64::MIN as int;
    assert(v.len() == 7);
    assert(forall|k: int| 0 <= k < 7 ==> (var_number(vars, #[trigger] v[k]) matches Some(m) ==> m
        >= low)) by {
        assert forall|k: int| 0 <= k < 7 implies (var_number(vars, #[trigger] v[k]) matches Some(m)
            ==> m >= low) by {
            lemma_number_fits(vars, v[k]);
        }
    }
    if var_number(vars, v[0]) is Some {
        lemma_first_number(vars, v, low, 0, var_number(vars, v[0])->0);
    } else if var_number(vars, v[1]) is Some {
        lemma_first_number(vars, v, low, 1, var_number(vars, v[1])->0);
    } else if var_number(vars, v[2]) is Some {
        lemma_first_number(vars, v, low, 2, var_number(vars, v[2])->0);
    } else if var_number(vars, v[3]) is Some {
        lemma_first_number(vars, v, low, 3, var_number(vars, v[3])->0);
    } else if var_number(vars, v[4]) is Some {
        lemma_first_number(vars, v, low, 4, var_number(vars, v[4])->0);
    } else if var_number(vars, v[5]) is Some {
        lemma_first_number(vars, v, low, 5, var_number(vars, v[5])->0);
    } else if var_number(vars, v[6]) is Some {
        lemma_first_number(vars, v, low, 6, var_number(vars, v[6])->0);
    } else {
        assert forall|k: int| 0 <= k < v.len() implies !(var_number(vars, #[trigger] v[k]) matches
            Some(m) && m >= low) by {
            assert(k == 0 || k == 1 || k == 2 || k == 3 || k == 4 || k == 5 || k == 6);
        }
        lemma_no_number(vars, v, low);
    }
}

proof fn lemma_number_fits(vars: Seq<(Seq<char>, Seq<char>)>, name: Seq<char>)
    ensures
        var_number(vars, name) matches Some(m) ==> i64::MIN <= m <= i64::MAX,
{
}

/// The size of a job is the first number of at least 1 that a launcher tells; it is reported
/// where there is one.
pub proof fn law_every_launcher_tells_the_size(vars: Seq<(Seq<char>, Seq<char>)>)
    ensures
        ({
            let told = |name: Seq<char>|
                match var_number(vars, name) {
                    Some(n) => if n >= 1 {
                        Some(n)
                    } else {
                        None
                    },
                    None => None,
                };
            let first = if told("OMPI_COMM_WORLD_SIZE"@) is Some {
                told("OMPI_COMM_WORLD_SIZE"@)
            } else if told("PMI_SIZE"@) is Some {
                told("PMI_SIZE"@)
            } else if told("MV2_COMM_WORLD_SIZE"@) is Some {
                told("MV2_COMM_WORLD_SIZE"@)
            } else if told("SLURM_NTASKS"@) is Some {
                told("SLURM_NTASKS"@)
            } else if told("SLURM_NPROCS"@) is Some {
                told("SLURM_NPROCS"@)
            } else {
                told("PALS_NRANKS"@)
            };
            &&& size_in_env(vars) == first
            &&& (size_row(vars) is Some) == (first is Some)
        }),
{
    let v = size_names();
    assert(v.len() == 6);
    let told = |name: Seq<char>|
        match var_number(vars, name) {
            Some(n) => if n >= 1 {
                Some(n)
            } else {
                None
            },
            None => None,
        };
    if told(v[0]) is Some {
        lemma_first_number(vars, v, 1, 0, var_number(vars, v[0])->0);
    } else if told(v[1]) is Some {
        lemma_first_number(vars, v, 1, 1, var_number(vars, v[1])->0);
    } else if told(v[2]) is Some {
        lemma_first_number(vars, v, 1, 2, var_number(vars, v[2])->0);
    } else if told(v[3]) is Some {
        lemma_first_number(vars, v, 1, 3, var_number(vars, v[3])->0);
    } else if told(v[4]) is Some {
        lemma_first_number(vars, v, 1, 4, var_number(vars, v[4])->0);
    } else if told(v[5]) is Some {
        lemma_first_number(vars, v, 1, 5, var_number(vars, v[5])->0);
    } else {
        assert forall|k: int| 0 <= k < v.len() implies !(var_number(vars, #[trigger] v[k]) matches
            Some(m) && m >= 1) by {
            assert(k == 0 || k == 1 || k == 2 || k == 3 || k == 4 || k == 5);
        }
        lemma_no_number(vars, v, 1);
    }
}

/// Threads are bound by places or by an affinity list, and by a binding that does not say no.
pub proof fn law_binding_is_asked_for(vars: Seq<(Seq<char>, Seq<char>)>)
    ensures
        is_set(vars, "OMP_PLACES"@) ==> threads_bound(vars),
        is_set(vars, "GOMP_CPU_AFFINITY"@) ==> threads_bound(vars),
        !is_set(vars, "OMP_PLACES"@) && !is_set(vars, "GOMP_CPU_AFFINITY"@) ==> threads_bound(vars)
            == (is_set(vars, "OMP_PROC_BIND"@) && !is_word(vars, "OMP_PROC_BIND"@, "false"@)
            && !is_word(vars, "OMP_PROC_BIND"@, "disabled"@)),
        is_word(vars, "KMP_BLOCKTIME"@, "infinite"@) ==> spins_forever(vars),
        is_word(vars, "GOMP_SPINCOUNT"@, "infinite"@) ==> spins_forever(vars),
        spins_forever(vars) ==> is_word(vars, "KMP_BLOCKTIME"@, "infinite"@) || is_word(
            vars,
            "GOMP_SPINCOUNT"@,
            "infinite"@,
        ),
{
}

/// A node has the kernel's name, white space around it aside; else the environment's; else it
/// is unknown.
pub proof fn law_the_kernel_names_the_node(kernel: Seq<char>, env: Seq<char>)
    ensures
        trimmed(kernel).len() > 0 ==> host_name(Some(kernel), Some(env)) == trimmed(kernel)
            && host_name(Some(kernel), None) == trimmed(kernel),
        trimmed(kernel).len() == 0 ==> host_name(Some(kernel), Some(env)) == env && host_name(
            Some(kernel),
            None,
        ) == "unknown"@,
        host_name(None, Some(env)) == env,
        host_name(None, None) == "unknown"@,
{
}

/// The note says how much CPU time there was, to a thousandth of a second, over how much time,
/// to a hundredth.
pub proof fn law_a_note_says_how_idle(s: Seq<MetricModel>, gpu: bool, t: Double, c: Double)
    requires
        numeric_of(s, "elapsed_time"@) == Some(t),
        numeric_of(s, "cpu_time"@) == Some(c),
    ensures
        snapshot_note(s, gpu) matches Some(text) ==> begins(
            text,
            "uaps: NOTE: measured near-zero CPU work ("@ + fixed(c, 3) + "s CPU over "@ + fixed(
                t,
                2,
            ),
        ),
{
    let start = "uaps: NOTE: measured near-zero CPU work ("@ + fixed(c, 3) + "s CPU over "@ + fixed(
        t,
        2,
    );
    match snapshot_note(s, gpu) {
        Some(text) => {
            assert(text.take(start.len() as int) =~= start);
        },
        None => {},
    }
}

} // verus!
