//! How a run is launched, and how its ranks report.

use crate::env::{rank_in_env, var};
use crate::launch::{
    child_argv, exit_of, first_there, full_argv, is_launcher, is_openmpi, plan_of, preloaded,
    recorded_command, Candidate, PlanModel, RequestModel,
};
use crate::net::{address, collector_name, frame, header_of, stepped, Action, Event, Gathering};
use crate::decimal::dec;
use crate::text::{begins, lines_of, trimmed};
use vstd::prelude::*;

verus! {

// ------------------------------------------------------------------ the command line

/// A first word that is no flag and no subcommand is a program: it is run, with the words behind
/// it as they are. Any other command line stays as it is.
pub proof fn law_a_program_is_run(args: Seq<Seq<char>>)
    ensures
        args.len() >= 2 && !begins(args[1], "-"@) && args[1] != "run"@ && args[1] != "attach"@
            && args[1] != "resolve-events"@ && args[1] != "report"@ && args[1] != "help"@
            ==> full_argv(args).len() == args.len() + 2 && full_argv(args)[0] == args[0]
            && full_argv(args)[1] == "run"@ && full_argv(args)[2] == "--"@ && full_argv(args).skip(
            3,
        ) == args.skip(1),
        args.len() < 2 ==> full_argv(args) == args,
        args.len() >= 2 && (begins(args[1], "-"@) || args[1] == "run"@ || args[1] == "attach"@
            || args[1] == "resolve-events"@ || args[1] == "report"@ || args[1] == "help"@)
            ==> full_argv(args) == args,
{
    if args.len() >= 2 {
        let full = seq![args[0], "run"@, "--"@] + args.skip(1);
        assert(full.skip(3) =~= args.skip(1));
    }
}

/// The programs that launch ranks, and those of them that must be told what to forward.
pub proof fn law_launchers_are_known_by_name(name: Seq<char>)
    ensures
        is_openmpi(name) <==> name == "mpirun"@ || name == "mpiexec"@ || name == "orterun"@,
        is_launcher(name) <==> name == "mpirun"@ || name == "mpiexec"@ || name == "orterun"@
            || name == "srun"@ || name == "aprun"@ || name == "prun"@ || name == "jsrun"@,
{
}

/// A results directory, or a rank in the environment of a program that is no launcher, has each
/// rank counted by itself; the first rank says so. The directory asked for on the command line
/// comes before the environment's.
pub proof fn law_ranks_are_counted_by_themselves(
    req: RequestModel,
    vars: Seq<(Seq<char>, Seq<char>)>,
)
    ensures
        ({
            let dir = if req.rank_dir is Some {
                req.rank_dir
            } else {
                var(vars, "UAPS_RANK_DIR"@)
            };
            let rank = rank_in_env(vars);
            (dir is Some || (rank is Some && !is_launcher(req.launcher))) <==> plan_of(req, vars)
                == (PlanModel::PerRank { dir, announce: rank == Some(0int) })
        }),
{
}

/// A launcher without a results directory is refused unless the whole node is asked for, and
/// then it is measured with the shim. A program that is no launcher, outside any, is measured as
/// asked; the shim takes the whole node with it.
pub proof fn law_a_run_is_measured_as_asked(req: RequestModel, vars: Seq<(Seq<char>, Seq<char>)>)
    requires
        req.rank_dir is None,
        var(vars, "UAPS_RANK_DIR"@) is None,
    ensures
        is_launcher(req.launcher) && !req.system_wide ==> plan_of(req, vars) is Refuse,
        is_launcher(req.launcher) && req.system_wide ==> plan_of(req, vars)
            == (PlanModel::Measure { mpi: true, system_wide: true }),
        !is_launcher(req.launcher) && rank_in_env(vars) is None && req.mpi ==> plan_of(req, vars)
            == (PlanModel::Measure { mpi: true, system_wide: true }),
        !is_launcher(req.launcher) && rank_in_env(vars) is None && !req.mpi ==> plan_of(req, vars)
            == (PlanModel::Measure { mpi: false, system_wide: req.system_wide }),
{
}

/// The program's own arguments come last and as they are; what is forwarded comes before them,
/// for launchers that forward nothing by themselves, and only with the shim.
pub proof fn law_arguments_are_kept(launcher: Seq<char>, mpi: bool, args: Seq<Seq<char>>)
    ensures
        ({
            let told = mpi && (launcher == "mpirun"@ || launcher == "mpiexec"@ || launcher
                == "orterun"@);
            let out = child_argv(launcher, mpi, args);
            &&& !told ==> out == args
            &&& told ==> out.len() == args.len() + 4 && out.skip(4) == args && out[0] == "-x"@
                && out[1] == "LD_PRELOAD"@ && out[2] == "-x"@ && out[3] == "UAPS_MPI_OUTDIR"@
        }),
{
    let out = child_argv(launcher, mpi, args);
    if mpi && is_openmpi(launcher) {
        assert(out.skip(4) =~= args);
    }
}

/// What was preloaded before stays, ahead of the shim.
pub proof fn law_the_shim_is_preloaded_last(before: Seq<char>, shim: Seq<char>)
    ensures
        before.len() == 0 ==> preloaded(before, shim) == shim,
        before.len() > 0 ==> preloaded(before, shim) == before + seq![':'] + shim,
{
    reveal_strlit(":");
    assert(":"@ =~= seq![':']);
}

/// The shim is taken from the first place that is named and is there; from none where none is.
pub proof fn law_the_first_place_is_taken(v: Seq<Candidate>, i: int)
    ensures
        0 <= i < v.len() && v[i].path@.len() > 0 && v[i].exists && (forall|k: int|
            0 <= k < i ==> (#[trigger] v[k]).path@.len() == 0 || !v[k].exists) ==> first_there(v)
            == Some(v[i].path@),
        (forall|k: int|
            0 <= k < v.len() ==> (#[trigger] v[k]).path@.len() == 0 || !v[k].exists) ==> first_there(
            v,
        ) is None,
    decreases v.len(),
{
    if v.len() > 0 {
        let rest = v.skip(1);
        law_the_first_place_is_taken(rest, i - 1);
        assert forall|k: int| 0 <= k < rest.len() implies #[trigger] rest[k] == v[k + 1] by {}
        assert((forall|k: int|
            0 <= k < v.len() ==> (#[trigger] v[k]).path@.len() == 0 || !v[k].exists)
            ==> v[0].path@.len() == 0 || !v[0].exists);
        if 0 < i < v.len() {
            assert(rest[i - 1] == v[i]);
            assert((forall|k: int|
                0 <= k < i ==> (#[trigger] v[k]).path@.len() == 0 || !v[k].exists)
                ==> v[0].path@.len() == 0 || !v[0].exists);
        }
    }
}

/// A job's command is what its first rank recorded, else the name of its directory.
pub proof fn law_the_command_is_the_recorded_one(line: Seq<char>, dir: Seq<char>)
    ensures
        recorded_command(Some(line), dir) == lines_of(line),
        recorded_command(None, dir) == seq![dir],
{
}

// ------------------------------------------------------------------ the wire

/// Numbers go over the wire with their lowest byte first: the rank, the length, the body.
pub proof fn law_the_lowest_byte_goes_first(rank: u32, body: Seq<u8>)
    requires
        body.len() <= u32::MAX,
    ensures
        ({
            let f = frame(rank, body);
            &&& f.len() == 8 + body.len()
            &&& rank == f[0] + 256 * f[1] + 65536 * f[2] + 16777216 * f[3]
            &&& body.len() == f[4] + 256 * f[5] + 65536 * f[6] + 16777216 * f[7]
            &&& f.skip(8) == body
        }),
{
    let f = frame(rank, body);
    let n = body.len() as u32;
    assert(f.skip(8) =~= body);
    assert(rank == rank % 256 + 256 * (rank / 256 % 256) + 65536 * (rank / 65536 % 256) + 16777216
        * (rank / 16777216 % 256)) by (bit_vector);
    assert(n == n % 256 + 256 * (n / 256 % 256) + 65536 * (n / 65536 % 256) + 16777216 * (n
        / 16777216 % 256)) by (bit_vector);
}

/// A header is taken in where it announces a body of at least one byte and at most 64 MiB.
pub proof fn law_a_header_announces_a_body(h: Seq<u8>)
    requires
        h.len() == 8,
    ensures
        ({
            let rank = h[0] + 256 * h[1] + 65536 * h[2] + 16777216 * h[3];
            let len = h[4] + 256 * h[5] + 65536 * h[6] + 16777216 * h[7];
            header_of(h) == if 1 <= len <= 67108864 {
                Some((rank as u32, len as u32))
            } else {
                None
            }
        }),
{
    let b = h.skip(4);
    assert(b[0] == h[4] && b[1] == h[5] && b[2] == h[6] && b[3] == h[7]);
}

/// Ranks are given the host's address where its name resolves, else loopback.
pub proof fn law_ranks_are_given_an_address(host: Seq<char>, port: u16, resolves: bool)
    ensures
        host.len() > 0 && resolves ==> address(host, port, resolves) == host + ":"@ + dec(
            port as nat,
        ),
        host.len() == 0 || !resolves ==> address(host, port, resolves) == "127.0.0.1"@ + ":"@ + dec(
            port as nat,
        ),
{
}

/// The name that is set comes before the kernel's.
pub proof fn law_the_set_name_comes_first(set: Seq<char>, kernel: Seq<char>)
    ensures
        collector_name(Some(set), Some(kernel)) == set,
        collector_name(Some(set), None) == set,
        collector_name(None, Some(kernel)) == trimmed(kernel),
        collector_name(None, None) == Seq::<char>::empty(),
{
}

/// Collection goes on while ranks connect, and begins the wait anew with each; a snapshot that
/// is taken in counts. Without connections it pauses: as it is while the job runs, and once the
/// job is over for three quarters of a second, after which it stops. A listener that fails ends
/// it.
pub proof fn law_collection_ends_when_quiet(g: Gathering, taken: bool, now: u64)
    requires
        g.received < u64::MAX,
        now <= u64::MAX - 750000000,
    ensures
        stepped(g, Event::Connected { taken }) == (
            Gathering {
                received: (g.received + if taken {
                    1int
                } else {
                    0
                }) as u64,
                drain_until: None,
            },
            Action::Accept,
        ),
        stepped(g, Event::Quiet { stopped: false, now }) == (g, Action::Pause),
        g.drain_until is None ==> stepped(g, Event::Quiet { stopped: true, now }) == (
            Gathering { received: g.received, drain_until: Some((now + 750000000) as u64) },
            Action::Pause,
        ),
        g.drain_until matches Some(t) ==> stepped(g, Event::Quiet { stopped: true, now }) == (
            g,
            if now >= t {
                Action::Stop
            } else {
                Action::Pause
            },
        ),
        stepped(g, Event::Failed) == (g, Action::Stop),
{
}

/// The exit code of a target that failed is passed on; a target that a signal ended exits as a
/// shell has it, with 128 and the signal; one that succeeded has none.
pub proof fn law_the_exit_code_is_passed_on(code: i32, signal: Option<i32>, s: i32)
    ensures
        code != 0 ==> exit_of(Some(code), signal) == Some(code as int),
        exit_of(Some(0), signal) is None,
        exit_of(None, Some(s)) == Some(128 + s),
        exit_of(None, None) is None,
{
}

} // verus!
