//! How a run is set up: what the command line asks for, and what is launched.

use crate::decimal::{dec, decimal, hexadecimal, numeral};
use crate::env::{as_int, rank_from_env, rank_in_env, var, Environment};
use crate::hwpc::DbModel;
use crate::pmudb::{resolve_config_in, resolved, PmuDb, Sysfs, UnitModel};
use crate::report::{escaped, json_text, Format};
use crate::text::{
    begins, chars_of, is, join, joined, lines, lines_of, owned, replace, replaced, same,
    starts_with, string_of, strings, text_of, texts,
};
use vstd::prelude::*;

verus! {

// ------------------------------------------------------------------ the command line

pub open spec fn is_subcommand(s: Seq<char>) -> bool {
    s == "run"@ || s == "attach"@ || s == "resolve-events"@ || s == "report"@ || s == "help"@
}

/// The command line with the shorthand `uaps ./app …` written out as
/// `uaps run -- ./app …`. Only a first word that is neither a subcommand nor a flag is
/// taken for a program.
pub open spec fn full_argv(args: Seq<Seq<char>>) -> Seq<Seq<char>> {
    if args.len() >= 2 && !begins(args[1], "-"@) && !is_subcommand(args[1]) {
        seq![args[0], "run"@, "--"@] + args.skip(1)
    } else {
        args
    }
}

/// The command line with its shorthand written out.
pub fn normalize_argv(args: Vec<String>) -> (r: Vec<String>)
    ensures
        strings(r@) == full_argv(strings(args@)),
{
    assert(strings(args@).len() == args@.len());
    if args.len() < 2 {
        return args;
    }
    assert(strings(args@)[1] == args@[1]@);
    let v: Vec<char> = chars_of(args[1].as_str());
    let a: &[char] = v.as_slice();
    let flag: bool = starts_with(a, "-");
    let sub: bool = is(a, "run") || is(a, "attach") || is(a, "resolve-events") || is(a, "report")
        || is(a, "help");
    if flag || sub {
        return args;
    }
    let mut out: Vec<String> = vec![args[0].clone(), "run".to_string(), "--".to_string()];
    let ghost head = seq![strings(args@)[0], "run"@, "--"@];
    assert(strings(out@) =~= head);
    let mut i: usize = 1;
    assert(strings(args@).take(1).skip(1) =~= Seq::empty());
    assert(strings(out@) =~= head + strings(args@).take(1).skip(1));
    while i < args.len()
        invariant
            1 <= i <= args.len(),
            strings(out@) == head + strings(args@).take(i as int).skip(1),
        decreases args.len() - i,
    {
        let ghost before = strings(out@);
        let s: String = args[i].clone();
        let ghost new = s@;
        out.push(s);
        assert(strings(out@) =~= before.push(new));
        i += 1;
        assert(strings(args@).take(i as int).skip(1) =~= strings(args@).take(i - 1).skip(1).push(
            new,
        ));
        assert(strings(out@) =~= head + strings(args@).take(i as int).skip(1));
    }
    assert(strings(args@).take(i as int) =~= strings(args@));
    out
}

/// The time between samples in milliseconds, at least one.
pub fn interval_millis(asked: u64) -> (r: u64)
    ensures
        r == if asked == 0 {
            1
        } else {
            asked
        },
{
    if asked == 0 {
        1
    } else {
        asked
    }
}

// ------------------------------------------------------------------ what to do

/// Programs that launch MPI ranks.
pub open spec fn is_launcher(name: Seq<char>) -> bool {
    is_openmpi(name) || name == "srun"@ || name == "aprun"@ || name == "prun"@ || name == "jsrun"@
}

/// Launchers that do not forward the environment to the ranks.
pub open spec fn is_openmpi(name: Seq<char>) -> bool {
    name == "mpirun"@ || name == "mpiexec"@ || name == "orterun"@
}

/// What a run asks for.
pub struct RunRequest {
    /// The file name of the program to launch.
    pub launcher: String,
    pub mpi: bool,
    pub system_wide: bool,
    pub rank_dir: Option<String>,
}

/// What a [`RunRequest`] is.
pub struct RequestModel {
    pub launcher: Seq<char>,
    pub mpi: bool,
    pub system_wide: bool,
    pub rank_dir: Option<Seq<char>>,
}

impl View for RunRequest {
    type V = RequestModel;

    open spec fn view(&self) -> RequestModel {
        RequestModel {
            launcher: self.launcher@,
            mpi: self.mpi,
            system_wide: self.system_wide,
            rank_dir: owned(self.rank_dir),
        }
    }
}

/// What a run does.
pub enum RunPlan {
    /// Count this process alone and write its snapshot into a results directory: the one
    /// given, or the default. The first rank announces it.
    PerRank { dir: Option<String>, announce: bool },
    /// A launcher is not wrapped.
    Refuse { message: String },
    /// Count the process, or with `system_wide` the node; with `mpi` the shim is
    /// preloaded.
    Measure { mpi: bool, system_wide: bool },
}

/// What a [`RunPlan`] is.
pub enum PlanModel {
    PerRank { dir: Option<Seq<char>>, announce: bool },
    Refuse { message: Seq<char> },
    Measure { mpi: bool, system_wide: bool },
}

impl View for RunPlan {
    type V = PlanModel;

    open spec fn view(&self) -> PlanModel {
        match *self {
            RunPlan::PerRank { dir, announce } => PlanModel::PerRank { dir: owned(dir), announce },
            RunPlan::Refuse { message } => PlanModel::Refuse { message: message@ },
            RunPlan::Measure { mpi, system_wide } => PlanModel::Measure { mpi, system_wide },
        }
    }
}

/// The results directory that is asked for, on the command line or in the environment.
pub open spec fn wanted_dir(
    req: RequestModel,
    vars: Seq<(Seq<char>, Seq<char>)>,
) -> Option<Seq<char>> {
    match req.rank_dir {
        Some(d) => Some(d),
        None => var(vars, "UAPS_RANK_DIR"@),
    }
}

/// Why a launcher is not wrapped, and what to do instead.
pub open spec fn refusal(launcher: Seq<char>) -> Seq<char> {
    "uaps profiles MPI per-rank like Intel APS — place it INSIDE the launcher:\n  "@ + launcher
        + " … uaps ./app       (each rank writes ./uaps_result/)\n  uaps report uaps_result        (aggregate, like aps-report)\nOr `uaps run -a -- "@
        + launcher + " …` for a node-level (launcher-node) snapshot."@
}

/// What a run does. Inside a launcher, known by a results directory or by a rank in the
/// environment, each rank is counted by itself; a launcher is measured node-wide or not
/// at all.
pub open spec fn plan_of(req: RequestModel, vars: Seq<(Seq<char>, Seq<char>)>) -> PlanModel {
    let launcher = is_launcher(req.launcher);
    let rank = rank_in_env(vars);
    if wanted_dir(req, vars) is Some || (!launcher && rank is Some) {
        PlanModel::PerRank { dir: wanted_dir(req, vars), announce: rank == Some(0int) }
    } else if launcher && !req.system_wide {
        PlanModel::Refuse { message: refusal(req.launcher) }
    } else {
        let mpi = req.mpi || (launcher && req.system_wide);
        PlanModel::Measure { mpi, system_wide: req.system_wide || mpi }
    }
}

fn openmpi(name: &str) -> (r: bool)
    ensures
        r == is_openmpi(name@),
{
    same(name, "mpirun") || same(name, "mpiexec") || same(name, "orterun")
}

fn launches(name: &str) -> (r: bool)
    ensures
        r == is_launcher(name@),
{
    openmpi(name) || same(name, "srun") || same(name, "aprun") || same(name, "prun") || same(
        name,
        "jsrun",
    )
}

fn refuse(launcher: &str) -> (r: String)
    ensures
        r@ == refusal(launcher@),
{
    let mut out: String =
        "uaps profiles MPI per-rank like Intel APS — place it INSIDE the launcher:\n  ".to_string();
    out.append(launcher);
    out.append(
        " … uaps ./app       (each rank writes ./uaps_result/)\n  uaps report uaps_result        (aggregate, like aps-report)\nOr `uaps run -a -- ",
    );
    out.append(launcher);
    out.append(" …` for a node-level (launcher-node) snapshot.");
    out
}

/// What a run does.
pub fn plan(req: &RunRequest, env: &Environment) -> (r: RunPlan)
    ensures
        r@ == plan_of(req@, env@),
{
    let launcher: bool = launches(req.launcher.as_str());
    let rank: Option<i64> = rank_from_env(env);
    let dir: Option<String> = match &req.rank_dir {
        Some(d) => Some(d.clone()),
        None => match env.get("UAPS_RANK_DIR") {
            Some(d) => Some(d.clone()),
            None => None,
        },
    };
    assert(owned(dir) == wanted_dir(req@, env@));
    assert(as_int(rank) == rank_in_env(env@));
    if dir.is_some() || (!launcher && rank.is_some()) {
        let announce: bool = match rank {
            Some(n) => n == 0,
            None => false,
        };
        return RunPlan::PerRank { dir, announce };
    }
    if launcher && !req.system_wide {
        return RunPlan::Refuse { message: refuse(req.launcher.as_str()) };
    }
    let mpi: bool = req.mpi || (launcher && req.system_wide);
    RunPlan::Measure { mpi, system_wide: req.system_wide || mpi }
}

/// What is said when node-level counting starts.
pub open spec fn wide_text(mpi: bool) -> Seq<char> {
    "uaps: node-level (system-wide) HW counting"@ + (if mpi {
        " [MPI: measuring all ranks on the node]"@
    } else {
        ""@
    }) + " — needs perf_event_paranoid <= 0"@
}

pub fn wide_notice(mpi: bool) -> (r: String)
    ensures
        r@ == wide_text(mpi),
{
    let mut out: String = "uaps: node-level (system-wide) HW counting".to_string();
    if mpi {
        out.append(" [MPI: measuring all ranks on the node]");
    } else {
        out.append("");
    }
    out.append(" — needs perf_event_paranoid <= 0");
    out
}

/// What the first rank says of a per-rank collection.
pub open spec fn per_rank_text(dir: Seq<char>) -> Seq<char> {
    "uaps: per-rank (APS-style) collection into "@ + dir + " — aggregate with: uaps report "@
        + dir
}

pub fn per_rank_notice(dir: &str) -> (r: String)
    ensures
        r@ == per_rank_text(dir@),
{
    let mut out: String = "uaps: per-rank (APS-style) collection into ".to_string();
    out.append(dir);
    out.append(" — aggregate with: uaps report ");
    out.append(dir);
    out
}

/// What a launcher must be told so that the shim reaches every rank.
pub open spec fn forwarding() -> Seq<Seq<char>> {
    seq!["-x"@, "LD_PRELOAD"@, "-x"@, "UAPS_MPI_OUTDIR"@]
}

/// The arguments of the launched program, where the shim is preloaded behind those that
/// forward it.
pub open spec fn child_argv(
    launcher: Seq<char>,
    mpi: bool,
    args: Seq<Seq<char>>,
) -> Seq<Seq<char>> {
    if mpi && is_openmpi(launcher) {
        forwarding() + args
    } else {
        args
    }
}

/// The arguments of the launched program.
pub fn child_args(launcher: &str, mpi: bool, args: Vec<String>) -> (r: Vec<String>)
    ensures
        strings(r@) == child_argv(launcher@, mpi, strings(args@)),
{
    if !(mpi && openmpi(launcher)) {
        return args;
    }
    let mut more: Vec<String> = args;
    let mut out: Vec<String> = vec![
        "-x".to_string(),
        "LD_PRELOAD".to_string(),
        "-x".to_string(),
        "UAPS_MPI_OUTDIR".to_string(),
    ];
    assert(strings(out@) =~= forwarding());
    let ghost (a, b) = (out@, more@);
    out.append(&mut more);
    assert(strings(a + b) =~= strings(a) + strings(b));
    out
}

/// The preload list with the shim at its end.
pub open spec fn preloaded(before: Seq<char>, shim: Seq<char>) -> Seq<char> {
    if before.len() == 0 {
        shim
    } else {
        before + ":"@ + shim
    }
}

/// The value of `LD_PRELOAD` with the shim at its end.
pub fn preload(env: &Environment, shim: &str) -> (r: String)
    ensures
        r@ == preloaded(
            match var(env@, "LD_PRELOAD"@) {
                Some(v) => v,
                None => Seq::empty(),
            },
            shim@,
        ),
{
    let mut out: String = match env.get("LD_PRELOAD") {
        Some(v) => v.clone(),
        None => String::new(),
    };
    let v: Vec<char> = chars_of(out.as_str());
    if v.len() > 0 {
        out.append(":");
    } else {
        assert(out@ =~= Seq::empty());
        return shim.to_string();
    }
    out.append(shim);
    out
}

/// Where the shim may be, and whether it is there.
pub struct Candidate {
    pub path: String,
    pub exists: bool,
}

/// The first place that is named and is there.
pub open spec fn first_there(v: Seq<Candidate>) -> Option<Seq<char>>
    decreases v.len(),
{
    if v.len() == 0 {
        None
    } else if v[0].path@.len() > 0 && v[0].exists {
        Some(v[0].path@)
    } else {
        first_there(v.skip(1))
    }
}

/// The shim to preload, of the places in the order in which they count.
pub fn choose_shim(v: &Vec<Candidate>) -> (r: Option<String>)
    ensures
        owned(r) == first_there(v@),
{
    let mut i: usize = 0;
    assert(v@.skip(0) =~= v@);
    while i < v.len()
        invariant
            i <= v.len(),
            first_there(v@) == first_there(v@.skip(i as int)),
        decreases v.len() - i,
    {
        proof {
            assert(v@.skip(i as int)[0] == v@[i as int]);
            assert(v@.skip(i as int).skip(1) =~= v@.skip(i + 1));
        }
        let path: Vec<char> = chars_of(v[i].path.as_str());
        if path.len() > 0 && v[i].exists {
            return Some(v[i].path.clone());
        }
        i += 1;
    }
    None
}

// ------------------------------------------------------------------ the end of a run

/// The exit code that mirrors the target's.
pub open spec fn exit_of(code: Option<i32>, signal: Option<i32>) -> Option<int> {
    match (code, signal) {
        (Some(c), _) => if c == 0 {
            None
        } else {
            Some(c as int)
        },
        (None, Some(s)) => Some(128 + s),
        (None, None) => None,
    }
}

/// The exit code that mirrors the target's: its own, or 128 and the signal that ended it,
/// as a shell has it. None where the target succeeded.
pub fn mirrored_exit(code: Option<i32>, signal: Option<i32>) -> (r: Option<i32>)
    requires
        signal matches Some(s) ==> s <= i32::MAX - 128,
    ensures
        r == match (code, signal) {
            (Some(c), _) => if c == 0 {
                None
            } else {
                Some(c)
            },
            (None, Some(s)) => Some((128 + s) as i32),
            (None, None) => None,
        },
        match r {
            Some(c) => exit_of(code, signal) == Some(c as int),
            None => exit_of(code, signal) is None,
        },
{
    match code {
        Some(c) => if c == 0 {
            None
        } else {
            Some(c)
        },
        None => match signal {
            Some(s) => Some(128 + s),
            None => None,
        },
    }
}

/// Whether a report of this format has nowhere to go: an HTML report needs a directory.
pub fn lacks_output(format: Format, has_output: bool) -> (r: bool)
    ensures
        r == (format is Html && !has_output),
{
    match format {
        Format::Html => !has_output,
        _ => false,
    }
}

/// A word of a command, quoted.
pub open spec fn quoted(s: Seq<char>) -> Seq<char> {
    "\""@ + escaped_word(s) + "\""@
}

/// A text with its backslashes and quotes escaped.
pub open spec fn escaped_word(s: Seq<char>) -> Seq<char> {
    replaced(replaced(s, "\\"@, "\\\\"@), "\""@, "\\\""@)
}

pub fn escape_word(s: &str) -> (r: String)
    ensures
        r@ == escaped_word(s@),
{
    proof {
        reveal_strlit("\\");
        reveal_strlit("\"");
    }
    let v: Vec<char> = chars_of(s);
    let once: String = replace(v.as_slice(), "\\", "\\\\");
    let w: Vec<char> = chars_of(once.as_str());
    replace(w.as_slice(), "\"", "\\\"")
}

/// The manifest that carries the command of a run.
pub open spec fn manifest_text(command: Seq<Seq<char>>) -> Seq<char> {
    "{\"command\": ["@ + joined(command.map_values(|s: Seq<char>| quoted(s)), ", "@) + "]}\n"@
}

/// The manifest that carries the command of a run.
pub fn manifest(command: &Vec<String>) -> (r: String)
    ensures
        r@ == manifest_text(strings(command@)),
{
    let ghost want = strings(command@).map_values(|s: Seq<char>| quoted(s));
    let mut words: Vec<String> = Vec::new();
    let mut i: usize = 0;
    assert(strings(words@) =~= want.take(0));
    while i < command.len()
        invariant
            i <= command.len(),
            want == strings(command@).map_values(|s: Seq<char>| quoted(s)),
            strings(words@) == want.take(i as int),
        decreases command.len() - i,
    {
        let mut w: String = "\"".to_string();
        w.append(escape_word(command[i].as_str()).as_str());
        w.append("\"");
        let ghost before = strings(words@);
        let ghost new = w@;
        assert(new == want[i as int]);
        words.push(w);
        assert(strings(words@) =~= before.push(new));
        i += 1;
        assert(want.take(i as int) =~= want.take(i - 1).push(want[i - 1]));
    }
    assert(want.take(i as int) =~= want);
    let mut out: String = "{\"command\": [".to_string();
    out.append(join(&words, ", ").as_str());
    out.append("]}\n");
    out
}

/// The command of a job: the lines that its first rank recorded, or the name of its
/// results directory.
pub open spec fn recorded_command(cmdline: Option<Seq<char>>, dir: Seq<char>) -> Seq<Seq<char>> {
    match cmdline {
        Some(s) => lines_of(s),
        None => seq![dir],
    }
}

/// The command of a job.
pub fn report_command(cmdline: Option<&str>, dir: &str) -> (r: Vec<String>)
    ensures
        strings(r@) == recorded_command(text_of(cmdline), dir@),
{
    let mut out: Vec<String> = Vec::new();
    match cmdline {
        Some(s) => {
            let v: Vec<char> = chars_of(s);
            let l: Vec<&[char]> = lines(v.as_slice());
            let ghost all = texts(l@);
            let mut i: usize = 0;
            assert(strings(out@) =~= all.take(0));
            while i < l.len()
                invariant
                    i <= l.len(),
                    all == texts(l@),
                    strings(out@) == all.take(i as int),
                decreases l.len() - i,
            {
                let ghost before = strings(out@);
                let line: String = string_of(l[i]);
                let ghost new = line@;
                out.push(line);
                assert(strings(out@) =~= before.push(new));
                i += 1;
                assert(all.take(i as int) =~= all.take(i - 1).push(all[i - 1]));
            }
            assert(all.take(i as int) =~= all);
        },
        None => {
            out.push(dir.to_string());
            assert(strings(out@) =~= seq![dir@]);
        },
    }
    out
}

// ------------------------------------------------------------------ events by name

/// What is said of an event: how it is counted, or that it is a gap.
pub open spec fn event_text(name: Seq<char>, found: Option<(u64, u32)>) -> Seq<char> {
    match found {
        Some((config, ty)) => name + "=0x"@ + numeral(config as nat, 16, false) + ":"@ + dec(
            ty as nat,
        ),
        None => name + "=GAP"@,
    }
}

fn event_line(name: &str, found: Option<(u64, u32)>) -> (r: String)
    ensures
        r@ == event_text(name@, found),
{
    let mut out: String = name.to_string();
    match found {
        Some((config, ty)) => {
            out.append("=0x");
            out.append(hexadecimal(config, false).as_str());
            out.append(":");
            out.append(decimal(ty as u64).as_str());
        },
        None => {
            out.append("=GAP");
        },
    }
    out
}

/// How an event is counted, where there is a database to look in.
pub open spec fn looked_up(
    db: Option<DbModel>,
    sys: Seq<UnitModel>,
    name: Seq<char>,
) -> Option<(u64, u32)> {
    match db {
        Some(d) => resolved(d.events, sys, name),
        None => None,
    }
}

pub open spec fn db_of(db: Option<&PmuDb>) -> Option<DbModel> {
    match db {
        Some(d) => Some(d@),
        None => None,
    }
}

/// A line for each event: its raw configuration and type, or that it is a gap.
pub fn resolve_events(db: Option<&PmuDb>, sys: &Sysfs, names: &Vec<String>) -> (r: Vec<String>)
    ensures
        strings(r@) == strings(names@).map_values(
            |n: Seq<char>| event_text(n, looked_up(db_of(db), sys@, n)),
        ),
{
    let ghost want = strings(names@).map_values(
        |n: Seq<char>| event_text(n, looked_up(db_of(db), sys@, n)),
    );
    let mut out: Vec<String> = Vec::new();
    let mut i: usize = 0;
    assert(strings(out@) =~= want.take(0));
    while i < names.len()
        invariant
            i <= names.len(),
            want == strings(names@).map_values(
                |n: Seq<char>| event_text(n, looked_up(db_of(db), sys@, n)),
            ),
            strings(out@) == want.take(i as int),
        decreases names.len() - i,
    {
        let name: &str = names[i].as_str();
        let found: Option<(u64, u32)> = match db {
            Some(d) => resolve_config_in(d, sys, name),
            None => None,
        };
        let ghost before = strings(out@);
        let line: String = event_line(name, found);
        let ghost new = line@;
        assert(new == want[i as int]);
        out.push(line);
        assert(strings(out@) =~= before.push(new));
        i += 1;
        assert(want.take(i as int) =~= want.take(i - 1).push(want[i - 1]));
    }
    assert(want.take(i as int) =~= want);
    out
}

// ------------------------------------------------------------------ laws

/// Writing the shorthand out twice is writing it out once.
pub proof fn law_argv_is_stable(args: Seq<Seq<char>>)
    ensures
        full_argv(full_argv(args)) == full_argv(args),
{
    let full = full_argv(args);
    if full != args {
        assert(full[1] == "run"@);
    }
}

/// A launcher is never wrapped: it is measured only node-wide, with the shim preloaded.
pub proof fn law_launchers_are_not_wrapped(req: RequestModel, vars: Seq<(Seq<char>, Seq<char>)>)
    requires
        is_launcher(req.launcher),
    ensures
        plan_of(req, vars) matches PlanModel::Measure { mpi, system_wide } ==> mpi && system_wide
            && req.system_wide,
{
}

/// Whenever the shim is preloaded the whole node is counted.
pub proof fn law_shim_counts_the_node(req: RequestModel, vars: Seq<(Seq<char>, Seq<char>)>)
    ensures
        plan_of(req, vars) matches PlanModel::Measure { mpi, system_wide } ==> (mpi
            ==> system_wide),
{
}

/// Replacing a character goes from the first character on.
proof fn lemma_replaced_first(x: char, rest: Seq<char>, c: char, to: Seq<char>)
    ensures
        replaced(seq![x] + rest, seq![c], to) == (if x == c {
            to
        } else {
            seq![x]
        }) + replaced(rest, seq![c], to),
{
    let s = seq![x] + rest;
    assert(s.skip(1) =~= rest);
    if x == c {
        assert(s.take(1) =~= seq![c]);
    } else {
        assert(s.take(1)[0] == x);
    }
}

/// A quoted word without control characters is the JSON string of the word.
pub proof fn law_quoted_words_are_json(s: Seq<char>)
    requires
        forall|i: int| 0 <= i < s.len() ==> (#[trigger] s[i] as int) >= 0x20,
    ensures
        escaped_word(s) == escaped(s),
        quoted(s) == json_text(s),
    decreases s.len(),
{
    reveal_strlit("\\");
    reveal_strlit("\\\\");
    reveal_strlit("\"");
    reveal_strlit("\\\"");
    assert("\\"@ =~= seq!['\\']);
    assert("\\\\"@ =~= seq!['\\'] + seq!['\\']);
    assert("\""@ =~= seq!['"']);
    let (bs, q) = (seq!['\\'], seq!['"']);
    if s.len() > 0 {
        let x = s[0];
        let rest = s.skip(1);
        assert forall|i: int| 0 <= i < rest.len() implies (#[trigger] rest[i] as int) >= 0x20 by {
            assert(rest[i] == s[i + 1]);
        }
        law_quoted_words_are_json(rest);
        assert(s =~= seq![x] + rest);
        lemma_replaced_first(x, rest, '\\', "\\\\"@);
        let r = replaced(rest, bs, "\\\\"@);
        lemma_replaced_first(x, r, '"', "\\\""@);
        if x == '\\' {
            assert("\\\\"@ + r =~= bs + (bs + r));
            lemma_replaced_first('\\', bs + r, '"', "\\\""@);
            assert(bs + (bs + escaped(rest)) =~= "\\\\"@ + escaped(rest));
        }
        assert((x as int) >= 0x20);
    }
}

} // verus!
