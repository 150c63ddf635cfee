//! What a run used: CPU time by the clock, memory and disk by what the node counts.

use crate::arithmetic::{
    law_over_itself, law_over_one, law_products_of_whole_numbers, law_quotients_of_whole_numbers,
};
use crate::double::{lemma_count_positive, less, of_int, Double};
use crate::jobs::{law_whole_seconds_are_spans, lemma_half};
use crate::metric::{lemma_numeric_rows, numeric_of, seconds, span_of};
use crate::proc::{
    all_sectors, busy_ticks_of, disk_bytes_of, is_pseudo, kb_bytes, lemma_proc_keys, memory_in,
    number_in, numbers, proc_metrics, proc_rows, sectors_of, sum_of, used_memory_of, DeviceModel,
    ProcCollector, ProcSample,
};
use crate::text::{begins, lines_of, words_of};
use crate::throughput::lemma_whole_positive;
use vstd::prelude::*;

verus! {

// ------------------------------------------------------------------ CPU time

/// The rows of a collector by their keys.
#[verifier::rlimit(40)]
proof fn lemma_rows_by_key(
    c: ProcCollector,
    last: ProcSample,
    wall: Double,
    wide: bool,
    smt: bool,
    key: Seq<char>,
    j: int,
)
    requires
        0 <= j < 13,
        proc_rows(c, last, wall, wide, smt)[j] matches Some(m) ==> m.key == key,
        key == "cpu_time"@ && j == 0 || key == "cpu_cores_used"@ && j == 1 || key
            == "cpu_core_pct"@ && j == 2 || key == "disk_read"@ && j == 5 || key == "disk_write"@
            && j == 6 || key == "io_wait"@ && j == 9 || key == "smt_active"@ && j == 11,
    ensures
        numeric_of(crate::metric::rows(proc_rows(c, last, wall, wide, smt)), key)
            == match proc_rows(c, last, wall, wide, smt)[j] {
            Some(m) => Some(crate::metric::number_of(m.value)),
            None => None,
        },
{
    lemma_proc_keys();
    reveal_strlit("smt_active");
    reveal_strlit("disk_write");
    assert("smt_active"@[0] != "disk_write"@[0]);
    let v = proc_rows(c, last, wall, wide, smt);
    assert(v.len() == 13);
    assert forall|k: int| 0 <= k < v.len() && k != j implies (#[trigger] v[k] matches Some(m)
        ==> m.key != key) by {
        if k <= 6 {
            assert(k == 0 || k == 1 || k == 2 || k == 3 || k == 4 || k == 5 || k == 6);
        } else {
            assert(k == 7 || k == 8 || k == 9 || k == 10 || k == 11 || k == 12);
        }
    }
    lemma_numeric_rows(v, key, j);
}

/// The ticks that count: the process's own, or what the whole node was busy since the start.
pub open spec fn ticks_used(c: ProcCollector, last: ProcSample, wide: bool) -> int {
    if wide {
        if c.node_last >= c.node_base {
            c.node_last - c.node_base
        } else {
            0
        }
    } else {
        last.cpu_ticks as int
    }
}

/// CPU time is ticks over ticks per second; the cores in use are CPU time over wall time, and
/// none without any wall time; utilization is the cores in use in percent of the cores there
/// are.
#[verifier::rlimit(40)]
pub proof fn law_cpu_time_is_ticks_by_the_clock(
    c: ProcCollector,
    last: ProcSample,
    wall: nat,
    wide: bool,
    smt: bool,
    secs: nat,
    cores: nat,
    times: nat,
)
    requires
        c.last == Some(last),
        0 < c.clk_tck < 9007199254740992,
        ticks_used(c, last, wide) == secs * c.clk_tck,
        secs * c.clk_tck < 9007199254740992,
        secs < 9007199254740992,
        0 < wall < 9007199254740992,
        secs == cores * wall,
        cores < 90071992547409,
        0 < c.ncpu < 9007199254740992,
        cores == times * c.ncpu,
        times < 90071992547409,
    ensures
        ({
            let m = proc_metrics(c, of_int(wall as int), wide, smt);
            &&& numeric_of(m, "cpu_time"@) == Some(of_int(secs as int))
            &&& numeric_of(m, "cpu_cores_used"@) == Some(of_int(cores as int))
            &&& numeric_of(m, "cpu_core_pct"@) == Some(of_int((times * 100) as int))
        }),
{
    let w = of_int(wall as int);
    lemma_rows_by_key(c, last, w, wide, smt, "cpu_time"@, 0);
    lemma_rows_by_key(c, last, w, wide, smt, "cpu_cores_used"@, 1);
    lemma_rows_by_key(c, last, w, wide, smt, "cpu_core_pct"@, 2);
    law_quotients_of_whole_numbers(secs, c.clk_tck as nat);
    law_quotients_of_whole_numbers(cores, wall);
    lemma_whole_positive(wall);
    law_quotients_of_whole_numbers(times, c.ncpu as nat);
    law_products_of_whole_numbers(times, 100);
}

/// Half of the cores in use is half of the utilization.
pub proof fn law_half_of_the_cores_is_half_used(
    c: ProcCollector,
    last: ProcSample,
    wall: nat,
    wide: bool,
    smt: bool,
    cores: nat,
)
    requires
        c.last == Some(last),
        0 < c.clk_tck < 9007199254740992,
        ticks_used(c, last, wide) == cores * wall * c.clk_tck,
        cores * wall * c.clk_tck < 9007199254740992,
        cores * wall < 9007199254740992,
        0 < wall < 9007199254740992,
        0 < cores < 4503599627370496,
        c.ncpu == 2 * cores,
    ensures
        numeric_of(proc_metrics(c, of_int(wall as int), wide, smt), "cpu_core_pct"@) == Some(
            of_int(50),
        ),
{
    let w = of_int(wall as int);
    lemma_rows_by_key(c, last, w, wide, smt, "cpu_core_pct"@, 2);
    law_quotients_of_whole_numbers(cores * wall, c.clk_tck as nat);
    law_quotients_of_whole_numbers(cores, wall);
    lemma_whole_positive(wall);
    lemma_half(cores, 50);
}

/// Without wall time no core was in use.
pub proof fn law_no_cores_without_time(
    c: ProcCollector,
    last: ProcSample,
    wall: Double,
    wide: bool,
    smt: bool,
)
    requires
        c.last == Some(last),
        !less(of_int(0), wall),
    ensures
        numeric_of(proc_metrics(c, wall, wide, smt), "cpu_cores_used"@) == Some(of_int(0)),
{
    lemma_rows_by_key(c, last, wall, wide, smt, "cpu_cores_used"@, 1);
}

/// Disk volumes are the process's own, or what the whole node moved since the start; whether
/// siblings share cores is told as 1 or 0.
#[verifier::rlimit(40)]
pub proof fn law_volumes_are_of_the_scope(
    c: ProcCollector,
    last: ProcSample,
    wall: Double,
    smt: bool,
)
    requires
        c.last == Some(last),
        c.node_disk_last.0 >= c.node_disk_base.0,
        c.node_disk_last.1 >= c.node_disk_base.1,
    ensures
        ({
            let node = proc_metrics(c, wall, true, smt);
            let own = proc_metrics(c, wall, false, smt);
            &&& numeric_of(own, "disk_read"@) == Some(of_int(last.disk_read as int))
            &&& numeric_of(own, "disk_write"@) == Some(of_int(last.disk_write as int))
            &&& numeric_of(node, "disk_read"@) == Some(
                of_int(c.node_disk_last.0 - c.node_disk_base.0),
            )
            &&& numeric_of(node, "disk_write"@) == Some(
                of_int(c.node_disk_last.1 - c.node_disk_base.1),
            )
            &&& numeric_of(own, "smt_active"@) == Some(
                of_int(
                    if smt {
                        1
                    } else {
                        0
                    },
                ),
            )
        }),
{
    lemma_volumes(c, last, wall, false, smt);
    lemma_volumes(c, last, wall, true, smt);
    lemma_siblings(c, last, wall, smt);
}

#[verifier::rlimit(40)]
proof fn lemma_volumes(c: ProcCollector, last: ProcSample, wall: Double, wide: bool, smt: bool)
    requires
        c.last == Some(last),
    ensures
        ({
            let m = proc_metrics(c, wall, wide, smt);
            let (base, end) = (c.node_disk_base, c.node_disk_last);
            &&& !wide ==> numeric_of(m, "disk_read"@) == Some(of_int(last.disk_read as int))
                && numeric_of(m, "disk_write"@) == Some(of_int(last.disk_write as int))
            &&& wide && end.0 >= base.0 ==> numeric_of(m, "disk_read"@) == Some(
                of_int(end.0 - base.0),
            )
            &&& wide && end.1 >= base.1 ==> numeric_of(m, "disk_write"@) == Some(
                of_int(end.1 - base.1),
            )
        }),
{
    lemma_rows_by_key(c, last, wall, wide, smt, "disk_read"@, 5);
    lemma_rows_by_key(c, last, wall, wide, smt, "disk_write"@, 6);
}

proof fn lemma_siblings(c: ProcCollector, last: ProcSample, wall: Double, smt: bool)
    requires
        c.last == Some(last),
    ensures
        numeric_of(proc_metrics(c, wall, false, smt), "smt_active"@) == Some(
            of_int(
                if smt {
                    1
                } else {
                    0
                },
            ),
        ),
{
    lemma_rows_by_key(c, last, wall, false, smt, "smt_active"@, 11);
}

/// A process that was blocked in every sample waited the whole time.
pub proof fn law_always_blocked_is_the_whole_time(
    c: ProcCollector,
    last: ProcSample,
    wall: Double,
    smt: bool,
)
    requires
        c.last == Some(last),
        c.blocked == c.samples,
        c.samples > 0,
        !wall.is_nan(),
    ensures
        numeric_of(proc_metrics(c, wall, false, smt), "io_wait"@) == Some(seconds(span_of(wall))),
{
    lemma_rows_by_key(c, last, wall, false, smt, "io_wait"@, 9);
    let n = of_int(c.samples as int);
    lemma_count_positive(c.samples as nat);
    law_over_itself(n);
    law_over_one(wall);
    crate::bounds::lemma_product_commutes(of_int(1), wall);
}

/// A process that was blocked in half of the samples waited half of the time.
pub proof fn law_half_blocked_is_half_the_time(
    c: ProcCollector,
    last: ProcSample,
    smt: bool,
    n: nat,
)
    requires
        c.last == Some(last),
        c.samples == 2 * c.blocked,
        0 < c.samples < 9007199254740992,
        2 * n < 9007199254740992,
    ensures
        numeric_of(proc_metrics(c, of_int((2 * n) as int), false, smt), "io_wait"@) == Some(
            of_int(n as int),
        ),
{
    lemma_rows_by_key(c, last, of_int((2 * n) as int), false, smt, "io_wait"@, 9);
    lemma_half(c.blocked as nat, n);
    law_whole_seconds_are_spans(n);
}

// ------------------------------------------------------------------ the node

/// The sum of numbers from a place on.
proof fn lemma_sum_parts(v: Seq<u64>, k: int)
    requires
        0 <= k <= v.len(),
    ensures
        sum_of(v) == sum_of(v.take(k)) + sum_of(v.skip(k)),
    decreases v.len(),
{
    if k == v.len() {
        assert(v.take(k) =~= v);
        assert(v.skip(k) =~= Seq::empty());
    } else {
        let head = v.drop_last();
        lemma_sum_parts(head, k);
        assert(head.take(k) =~= v.take(k));
        assert(v.skip(k).drop_last() =~= head.skip(k));
        assert(v.skip(k).last() == v.last());
    }
}

/// The node is busy in user, nice and system time and in all that comes after the first five
/// numbers of the `cpu` line; not in idle time, nor while it waits for I/O.
pub proof fn law_idle_and_wait_are_not_busy(stat: Seq<char>, v: Seq<u64>)
    requires
        lines_of(stat).len() > 0,
        words_of(lines_of(stat)[0]).len() > 0,
        words_of(lines_of(stat)[0])[0] == "cpu"@,
        v == numbers(words_of(lines_of(stat)[0]).skip(1)),
        v.len() >= 5,
        sum_of(v) <= u64::MAX,
    ensures
        busy_ticks_of(stat) == Some((v[0] + v[1] + v[2] + sum_of(v.skip(5))) as u64),
{
    lemma_sum_parts(v, 5);
    let t = v.take(5);
    assert(t.drop_last() =~= v.take(4));
    assert(v.take(4).drop_last() =~= v.take(3));
    assert(v.take(3).drop_last() =~= v.take(2));
    assert(v.take(2).drop_last() =~= v.take(1));
    assert(v.take(1).drop_last() =~= v.take(0));
    assert(sum_of(v.take(0)) == 0);
    assert(sum_of(v.take(1)) == v[0]);
    assert(sum_of(v.take(2)) == v[0] + v[1]);
    assert(sum_of(v.take(3)) == v[0] + v[1] + v[2]);
    assert(sum_of(v.take(4)) == v[0] + v[1] + v[2] + v[3]);
    assert(sum_of(t) == v[0] + v[1] + v[2] + v[3] + v[4]);
}

/// A value in kB is so many times 1024 bytes, where they can be counted.
pub proof fn law_a_kilobyte_is_1024_bytes(rest: Seq<char>, n: nat)
    requires
        words_of(rest).len() > 0,
        number_in(words_of(rest)[0]) == Some(n),
        n < 18014398509481984,
    ensures
        kb_bytes(rest) == 1024 * n,
{
}

/// The memory in use is what there is less what is available, whichever line comes first.
pub proof fn law_memory_in_use_is_not_available(
    meminfo: Seq<char>,
    a: Seq<char>,
    b: Seq<char>,
)
    requires
        lines_of(meminfo) == seq![a, b] || lines_of(meminfo) == seq![b, a],
        begins(a, "MemTotal:"@),
        begins(b, "MemAvailable:"@),
    ensures
        ({
            let (t, f) = (
                kb_bytes(a.skip("MemTotal:"@.len() as int)),
                kb_bytes(b.skip("MemAvailable:"@.len() as int)),
            );
            used_memory_of(meminfo) == Some(
                if t >= f {
                    (t - f) as nat
                } else {
                    0
                },
            )
        }),
{
    reveal_strlit("MemTotal:");
    reveal_strlit("MemAvailable:");
    assert("MemTotal:"@[3] == 'T' && "MemAvailable:"@[3] == 'A');
    assert(a.take("MemTotal:"@.len() as int)[3] == a[3]);
    assert(b.take("MemAvailable:"@.len() as int)[3] == b[3]);
    assert(!begins(b, "MemTotal:"@)) by {
        if begins(b, "MemTotal:"@) {
            assert(b[3] == b.take("MemTotal:"@.len() as int)[3]);
        }
    }
    assert(seq![a, b].skip(1) =~= seq![b]);
    assert(seq![b, a].skip(1) =~= seq![a]);
    assert(seq![a].skip(1) =~= Seq::empty());
    assert(seq![b].skip(1) =~= Seq::empty());
    reveal_with_fuel(memory_in, 3);
}

/// A disk more adds the sectors that it read and wrote, at 512 bytes each.
pub proof fn law_disks_add_up(
    v: Seq<DeviceModel>,
    d: DeviceModel,
    read: nat,
    written: nat,
    r: u64,
    w: u64,
)
    requires
        all_sectors(v) == Some((read, written)),
        sectors_of(d) == Some((r, w)),
        512 * (read + r) <= u64::MAX,
        512 * (written + w) <= u64::MAX,
    ensures
        disk_bytes_of(v.push(d)) == Some(
            ((512 * (read + r)) as u64, (512 * (written + w)) as u64),
        ),
{
    assert(v.push(d).drop_last() =~= v);
}

/// A pseudo device counts for nothing.
pub proof fn law_pseudo_devices_do_not_count(v: Seq<DeviceModel>, d: DeviceModel)
    requires
        begins(d.name, "loop"@) || begins(d.name, "ram"@) || begins(d.name, "zram"@) || begins(
            d.name,
            "sr"@,
        ) || begins(d.name, "fd"@) || begins(d.name, "dm-"@),
    ensures
        disk_bytes_of(v.push(d)) == disk_bytes_of(v),
{
    assert(v.push(d).drop_last() =~= v);
}

/// Of a disk's numbers the third is the sectors read, and the seventh those written.
pub proof fn law_sectors_are_the_third_and_the_seventh(d: DeviceModel, f: Seq<u64>)
    requires
        d.stat is Some,
        f == numbers(words_of(d.stat->0)),
        !is_pseudo(d.name),
    ensures
        f.len() >= 7 ==> sectors_of(d) == Some((f[2], f[6])),
        f.len() < 7 ==> sectors_of(d) is None,
{
}

/// The devices that are not disks of their own, by the beginnings of their names.
pub proof fn law_pseudo_devices_are_known_by_name(name: Seq<char>)
    ensures
        is_pseudo(name) <==> begins(name, "loop"@) || begins(name, "ram"@) || begins(name, "zram"@)
            || begins(name, "sr"@) || begins(name, "fd"@) || begins(name, "dm-"@),
{
}

} // verus!
