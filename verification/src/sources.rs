//! What the system's files say, line by line and word by word.

use crate::aggregate::FileModel;
use crate::elapsed::elapsed_since;
use crate::metric::{metrics_of, since, Duration, Metric};
use crate::mpi::{stat_in, stats_in};
use crate::pmu::starttime_of;
use crate::proc::{
    field_in, kb_bytes, node_begun, node_sampled, number_in, number_or_zero, rss_in, sample_of,
    sampled, NodeReading, ProcCollector, ProcSample,
};
use crate::session::all_metrics;
use crate::text::{after_last, begins, ends, lemma_place_is, lines_of, signed_of, trimmed, words_of};
use crate::threads::cpu_ticks_of;
use vstd::prelude::*;

verus! {

// ------------------------------------------------------------------ a process

/// In a `stat` line the words behind the last bracket are known by their places: the first is
/// the state, the twelfth and the thirteenth are user and system time, the eighteenth the
/// threads, and the twentieth when the task was started.
pub proof fn law_a_stat_line_is_read_by_place(
    stat: Seq<char>,
    f: Seq<Seq<char>>,
    status: Seq<Seq<char>>,
    io: Seq<Seq<char>>,
    user: nat,
    system: nat,
)
    requires
        after_last(stat, ')') is Some,
        f == words_of(after_last(stat, ')')->0),
        f.len() > 12,
        number_in(f[11]) == Some(user),
        number_in(f[12]) == Some(system),
        user + system <= u64::MAX,
    ensures
        cpu_ticks_of(stat) == Some((user + system) as u64),
        f.len() < 18 ==> sample_of(stat, status, io) is None,
        f.len() >= 18 ==> (sample_of(stat, status, io) matches Some(p) && p.cpu_ticks == user
            + system && p.state == Some(f[0][0]) && p.threads == match signed_of(
            f[17],
            i64::MIN as int,
            i64::MAX as int,
        ) {
            Some(n) => n,
            None => 0,
        }),
        f.len() > 19 ==> starttime_of(stat) == match number_in(f[19]) {
            Some(n) => n,
            None => 0,
        },
        f.len() <= 19 ==> starttime_of(stat) == 0,
{
}

/// A line without a bracket tells nothing.
pub proof fn law_a_line_without_a_name_is_not_read(
    stat: Seq<char>,
    status: Seq<Seq<char>>,
    io: Seq<Seq<char>>,
)
    requires
        after_last(stat, ')') is None,
    ensures
        cpu_ticks_of(stat) is None,
        sample_of(stat, status, io) is None,
        starttime_of(stat) == 0,
{
}

/// Resident memory and the volumes of I/O come from the fields of their names.
pub proof fn law_a_sample_takes_each_field_by_name(
    stat: Seq<char>,
    status: Seq<Seq<char>>,
    io: Seq<Seq<char>>,
)
    ensures
        sample_of(stat, status, io) matches Some(p) ==> p.rss_bytes == rss_in(status) as u64
            && p.disk_read == field_in(io, "read_bytes"@) as u64 && p.disk_write == field_in(
            io,
            "write_bytes"@,
        ) as u64 && p.io_rchar == field_in(io, "rchar"@) as u64 && p.io_wchar == field_in(
            io,
            "wchar"@,
        ) as u64,
{
}

/// A field is what the last line of its name says; other lines do not count.
pub proof fn law_the_last_line_of_a_name_counts(
    lines: Seq<Seq<char>>,
    name: Seq<char>,
    v: Seq<char>,
    key: Seq<char>,
)
    requires
        !name.contains(':'),
    ensures
        field_in(lines.push(name + seq![':'] + v), name) == number_or_zero(trimmed(v)),
        key != name ==> field_in(lines.push(name + seq![':'] + v), key) == field_in(lines, key),
        field_in(Seq::empty(), key) == 0,
{
    let line = name + seq![':'] + v;
    let n = name.len() as int;
    assert forall|j: int| 0 <= j < n implies line[j] != ':' by {
        assert(line[j] == name[j]);
        assert(name.contains(name[j]));
    }
    assert(line[n] == ':');
    lemma_place_is(line, ':', n);
    assert(line.take(n) =~= name);
    assert(line.skip(n + 1) =~= v);
    assert(lines.push(line).drop_last() =~= lines);
}

/// Resident memory is what the last `VmRSS:` line says, in kB.
pub proof fn law_resident_memory_is_its_last_line(lines: Seq<Seq<char>>, v: Seq<char>, other: Seq<char>)
    requires
        !begins(other, "VmRSS:"@),
    ensures
        rss_in(lines.push("VmRSS:"@ + v)) == kb_bytes(v),
        rss_in(lines.push(other)) == rss_in(lines),
        rss_in(Seq::empty()) == 0,
{
    let line = "VmRSS:"@ + v;
    let n = "VmRSS:"@.len() as int;
    assert(line.take(n) =~= "VmRSS:"@);
    assert(line.skip(n) =~= v);
    assert(lines.push(line).drop_last() =~= lines);
    assert(lines.push(other).drop_last() =~= lines);
}

// ------------------------------------------------------------------ the node

/// A node is measured from its start: the first reading is where it stands, later ones move on
/// from there, one that fails changes nothing, and the peak is the most that was ever in use.
pub proof fn law_a_node_is_measured_from_its_start(
    c: ProcCollector,
    first: NodeReading,
    n: NodeReading,
    busy: u64,
    disk: (u64, u64),
    mem: u64,
)
    ensures
        ({
            let b = node_begun(c, first);
            &&& b.node_base == b.node_last && b.node_disk_base == b.node_disk_last
            &&& first.busy == Some(busy) ==> b.node_base == busy
            &&& first.disk == Some(disk) ==> b.node_disk_base == disk
        }),
        ({
            let d = node_sampled(c, n);
            &&& d.node_base == c.node_base && d.node_disk_base == c.node_disk_base
            &&& n.busy == Some(busy) ==> d.node_last == busy
            &&& n.busy is None ==> d.node_last == c.node_last
            &&& n.disk == Some(disk) ==> d.node_disk_last == disk
            &&& n.disk is None ==> d.node_disk_last == c.node_disk_last
            &&& d.node_peak_mem >= c.node_peak_mem
            &&& n.mem == Some(mem) ==> d.node_peak_mem >= mem && (d.node_peak_mem == mem
                || d.node_peak_mem == c.node_peak_mem)
            &&& n.mem is None ==> d.node_peak_mem == c.node_peak_mem
            &&& d.last == c.last && d.samples == c.samples && d.blocked == c.blocked
        }),
{
}

/// A sample counts as one, and as blocked where the process slept without being woken; a sample
/// that failed counts for nothing.
pub proof fn law_samples_are_counted(c: ProcCollector, p: ProcSample)
    requires
        c.samples < u64::MAX,
        c.blocked < u64::MAX,
    ensures
        sampled(c, Some(p)).samples == c.samples + 1,
        p.state == Some('D') ==> sampled(c, Some(p)).blocked == c.blocked + 1,
        p.state != Some('D') ==> sampled(c, Some(p)).blocked == c.blocked,
        sampled(c, Some(p)).last == Some(p),
        sampled(c, None) == c,
{
}

/// Without a start there is no time; with one, it is the time since.
pub proof fn law_time_runs_from_the_start(started: Duration, now: Duration)
    ensures
        elapsed_since(None, now) == (Duration { secs: 0, nanos: 0 }),
        elapsed_since(Some(started), now) == since(now, started),
{
}

// ------------------------------------------------------------------ many files

/// Every file of the shim, `rank_….txt`, tells of one rank; any other file of none.
pub proof fn law_every_shim_file_is_a_rank(files: Seq<FileModel>, f: FileModel)
    ensures
        ({
            let is_one = f.text is Some && begins(f.name, "rank_"@) && ends(f.name, ".txt"@);
            &&& is_one ==> stats_in(files.push(f)) == stats_in(files).push(
                stat_in(lines_of(f.text->0)),
            )
            &&& !is_one ==> stats_in(files.push(f)) == stats_in(files)
            &&& stats_in(Seq::empty()).len() == 0
        }),
{
    assert(files.push(f).drop_last() =~= files);
}

/// The collectors' metrics come one collector after the other.
pub proof fn law_collectors_come_in_order(v: Seq<Vec<Metric>>, m: Vec<Metric>)
    ensures
        all_metrics(v.push(m)) == all_metrics(v) + metrics_of(m@),
        all_metrics(Seq::empty()).len() == 0,
{
    assert(v.push(m).drop_last() =~= v);
}

} // verus!
