//! `/proc` sampling: the unprivileged baseline.
//!
//! Works on any Linux without special capabilities. The process is sampled while it
//! runs; because `/proc/<pid>` vanishes once the process exits, the last sample and the
//! running peaks are kept for the end.

use crate::bounds::{
    lemma_counts_increase, lemma_fraction, lemma_nonnegative, lemma_scaled, nonnegative,
};
use crate::double::{
    at_most, lemma_count_positive, lemma_units_order, lemma_units_zero, less, of_int, product,
    quotient, Double,
};
use crate::elapsed::{elapsed_since, time_since};
use crate::metric::{
    bytes_metric, float_metric, int_metric, is_span, lemma_no_rows, lemma_numeric_rows,
    metrics_of, number_of, numeric_of, percent_metric, rows, seconds, span_of, Duration, Metric,
    MetricModel, MetricValue, Rows, ValueModel,
};
use crate::pmu::CountScope;
use crate::text::{
    after_last, begins, chars_of, halves, is, lines, lines_of, parse_i64, parse_u64, rsplit,
    signed_of, split_once, starts_with, strip_prefix, texts, trim, trimmed, unsigned_of, words,
    words_of,
};
use vstd::prelude::*;

verus! {

// ------------------------------------------------------------------ numbers in text

/// The number that a text writes in decimal, where it is one of 64 bits.
pub open spec fn number_in(s: Seq<char>) -> Option<nat> {
    unsigned_of(s, 10, u64::MAX as nat)
}

/// The number that a text writes, 0 where it is none.
pub open spec fn number_or_zero(s: Seq<char>) -> nat {
    match number_in(s) {
        Some(n) => n,
        None => 0,
    }
}

/// The bytes of a value such as `   1234 kB`; 0 where it starts with no number, or with
/// one of too many bytes to count.
pub open spec fn kb_bytes(rest: Seq<char>) -> nat {
    let w = words_of(rest);
    if w.len() > 0 && number_or_zero(w[0]) * 1024 <= u64::MAX {
        number_or_zero(w[0]) * 1024
    } else {
        0
    }
}

/// The numbers among words.
pub open spec fn numbers(words: Seq<Seq<char>>) -> Seq<u64>
    decreases words.len(),
{
    if words.len() == 0 {
        Seq::empty()
    } else {
        let before = numbers(words.drop_last());
        match number_in(words.last()) {
            Some(n) => before.push(n as u64),
            None => before,
        }
    }
}

/// The sum of numbers.
pub open spec fn sum_of(v: Seq<u64>) -> nat
    decreases v.len(),
{
    if v.len() == 0 {
        0
    } else {
        sum_of(v.drop_last()) + v.last() as nat
    }
}

/// Each number is at most the sum, and so are any two together.
proof fn lemma_sum(v: Seq<u64>, i: int, j: int)
    requires
        0 <= i < v.len(),
        0 <= j < v.len(),
    ensures
        v[i] <= sum_of(v),
        i != j ==> v[i] + v[j] <= sum_of(v),
    decreases v.len(),
{
    let head = v.drop_last();
    if i < head.len() && j < head.len() {
        lemma_sum(head, i, j);
    } else if i < head.len() {
        lemma_sum(head, i, i);
    } else if j < head.len() {
        lemma_sum(head, j, j);
    }
}

proof fn lemma_sum_grows(v: Seq<u64>, i: int)
    requires
        0 <= i <= v.len(),
    ensures
        sum_of(v.take(i)) <= sum_of(v),
    decreases v.len() - i,
{
    if i < v.len() {
        assert(v.take(i + 1).drop_last() =~= v.take(i));
        lemma_sum_grows(v, i + 1);
    } else {
        assert(v.take(i) =~= v);
    }
}

fn number(s: &[char]) -> (r: u64)
    ensures
        r == number_or_zero(s@),
{
    match parse_u64(s) {
        Some(n) => n,
        None => 0,
    }
}

fn kb_line(rest: &[char]) -> (r: u64)
    ensures
        r == kb_bytes(rest@),
{
    let w: Vec<&[char]> = words(rest);
    assert(texts(w@).len() == w@.len());
    if w.len() == 0 {
        return 0;
    }
    assert(texts(w@)[0] == w@[0]@);
    let kb: u64 = number(w[0]);
    if kb <= u64::MAX / 1024 {
        kb * 1024
    } else {
        0
    }
}

/// Parses a `/proc/<pid>/status` value line like `   1234 kB` into bytes.
pub fn parse_kb_line(rest: &str) -> (r: u64)
    ensures
        r == kb_bytes(rest@),
{
    let v: Vec<char> = chars_of(rest);
    kb_line(v.as_slice())
}

/// The numbers among words, from a place on.
fn numbers_among(v: &Vec<&[char]>, from: usize) -> (r: Vec<u64>)
    requires
        from <= v.len(),
    ensures
        r@ == numbers(texts(v@).skip(from as int)),
{
    let ghost all = texts(v@).skip(from as int);
    let mut out: Vec<u64> = Vec::new();
    let mut i: usize = from;
    assert(all.take(0) =~= Seq::empty());
    while i < v.len()
        invariant
            from <= i <= v.len(),
            all == texts(v@).skip(from as int),
            out@ == numbers(all.take(i - from)),
        decreases v.len() - i,
    {
        proof {
            let next = all.take(i + 1 - from);
            assert(next.drop_last() =~= all.take(i - from));
            assert(next.last() == v@[i as int]@);
        }
        match parse_u64(v[i]) {
            Some(n) => out.push(n),
            None => {},
        }
        i += 1;
    }
    assert(all.take(i - from) =~= all);
    out
}

fn total_ticks(v: &Vec<u64>) -> (r: Option<u64>)
    ensures
        match r {
            Some(t) => t == sum_of(v@),
            None => sum_of(v@) > u64::MAX,
        },
{
    let mut t: u64 = 0;
    let mut i: usize = 0;
    while i < v.len()
        invariant
            i <= v.len(),
            t == sum_of(v@.take(i as int)),
        decreases v.len() - i,
    {
        proof {
            assert(v@.take(i + 1).drop_last() =~= v@.take(i as int));
            lemma_sum_grows(v@, i + 1);
        }
        match t.checked_add(v[i]) {
            Some(s) => {
                t = s;
            },
            None => {
                return None;
            },
        }
        i += 1;
    }
    assert(v@.take(i as int) =~= v@);
    Some(t)
}

// ------------------------------------------------------------------ the node

/// Ticks that the whole node was not idle: the numbers of the aggregate `cpu` line, less
/// those of idle and of I/O wait.
pub open spec fn busy_ticks_of(stat: Seq<char>) -> Option<u64> {
    let l = lines_of(stat);
    if l.len() == 0 {
        None
    } else {
        let w = words_of(l[0]);
        let v = numbers(w.skip(1));
        if w.len() > 0 && w[0] == "cpu"@ && v.len() >= 5 && sum_of(v) <= u64::MAX {
            Some((sum_of(v) - v[3] - v[4]) as u64)
        } else {
            None
        }
    }
}

/// Total non-idle CPU ticks across the whole node, from the text of `/proc/stat`; none
/// where it can't be parsed, or where the ticks are past counting.
pub fn node_busy_ticks(stat: &str) -> (r: Option<u64>)
    ensures
        r == busy_ticks_of(stat@),
{
    let text: Vec<char> = chars_of(stat);
    let l: Vec<&[char]> = lines(text.as_slice());
    assert(texts(l@).len() == l@.len());
    if l.len() == 0 {
        return None;
    }
    assert(texts(l@)[0] == l@[0]@);
    let w: Vec<&[char]> = words(l[0]);
    assert(texts(w@).len() == w@.len());
    if w.len() == 0 {
        return None;
    }
    assert(texts(w@)[0] == w@[0]@);
    let aggregate: bool = is(w[0], "cpu");
    if !aggregate {
        return None;
    }
    let vals: Vec<u64> = numbers_among(&w, 1);
    if vals.len() < 5 {
        return None;
    }
    match total_ticks(&vals) {
        Some(total) => {
            proof {
                lemma_sum(vals@, 3, 4);
            }
            Some(total - (vals[3] + vals[4]))
        },
        None => None,
    }
}

/// The total and the available memory that lines of `/proc/meminfo` give, after those
/// already known. Once both are known no further line counts.
pub open spec fn memory_in(lines: Seq<Seq<char>>, total: Option<nat>, avail: Option<nat>) -> (
    Option<nat>,
    Option<nat>,
)
    decreases lines.len(),
{
    if lines.len() == 0 || (total is Some && avail is Some) {
        (total, avail)
    } else if begins(lines[0], "MemTotal:"@) {
        memory_in(
            lines.skip(1),
            Some(kb_bytes(lines[0].skip("MemTotal:"@.len() as int))),
            avail,
        )
    } else if begins(lines[0], "MemAvailable:"@) {
        memory_in(
            lines.skip(1),
            total,
            Some(kb_bytes(lines[0].skip("MemAvailable:"@.len() as int))),
        )
    } else {
        memory_in(lines.skip(1), total, avail)
    }
}

/// Memory in use: what is there less what is available.
pub open spec fn used_memory_of(meminfo: Seq<char>) -> Option<nat> {
    match memory_in(lines_of(meminfo), None, None) {
        (Some(total), Some(avail)) => Some(
            if total >= avail {
                (total - avail) as nat
            } else {
                0
            },
        ),
        _ => None,
    }
}

/// The same for what may be known as for what is a number.
pub open spec fn known(x: Option<u64>) -> Option<nat> {
    match x {
        Some(v) => Some(v as nat),
        None => None,
    }
}

/// Node memory in use in bytes, from the text of `/proc/meminfo`; none where either
/// field is missing.
pub fn node_used_mem_bytes(meminfo: &str) -> (r: Option<u64>)
    ensures
        known(r) == used_memory_of(meminfo@),
{
    let text: Vec<char> = chars_of(meminfo);
    let l: Vec<&[char]> = lines(text.as_slice());
    let ghost all = texts(l@);
    let mut total: Option<u64> = None;
    let mut avail: Option<u64> = None;
    let mut i: usize = 0;
    assert(all.skip(0) =~= all);
    while i < l.len() && (total.is_none() || avail.is_none())
        invariant
            i <= l.len(),
            all == texts(l@),
            memory_in(all, None, None) == memory_in(all.skip(i as int), known(total), known(avail)),
        ensures
            memory_in(all, None, None) == (known(total), known(avail)),
        decreases l.len() - i,
    {
        proof {
            assert(all.skip(i as int)[0] == l@[i as int]@);
            assert(all.skip(i as int).skip(1) =~= all.skip(i + 1));
        }
        match strip_prefix(l[i], "MemTotal:") {
            Some(rest) => {
                total = Some(kb_line(rest));
            },
            None => {
                match strip_prefix(l[i], "MemAvailable:") {
                    Some(rest) => {
                        avail = Some(kb_line(rest));
                    },
                    None => {},
                }
            },
        }
        i += 1;
    }
    match (total, avail) {
        (Some(t), Some(a)) => Some(
            if t >= a {
                t - a
            } else {
                0
            },
        ),
        _ => None,
    }
}

/// A block device: its name, and its `stat` file where that could be read.
pub struct BlockDevice {
    pub name: String,
    pub stat: Option<String>,
}

/// What a [`BlockDevice`] is.
pub struct DeviceModel {
    pub name: Seq<char>,
    pub stat: Option<Seq<char>>,
}

impl View for BlockDevice {
    type V = DeviceModel;

    open spec fn view(&self) -> DeviceModel {
        DeviceModel {
            name: self.name@,
            stat: match self.stat {
                Some(s) => Some(s@),
                None => None,
            },
        }
    }
}

pub open spec fn devices_of(v: Seq<BlockDevice>) -> Seq<DeviceModel> {
    v.map_values(|d: BlockDevice| d@)
}

/// Pseudo devices, whose I/O is that of another or of none.
pub open spec fn is_pseudo(name: Seq<char>) -> bool {
    begins(name, "loop"@) || begins(name, "ram"@) || begins(name, "zram"@) || begins(name, "sr"@)
        || begins(name, "fd"@) || begins(name, "dm-"@)
}

/// The sectors that a device has read and written.
pub open spec fn sectors_of(d: DeviceModel) -> Option<(u64, u64)> {
    match d.stat {
        Some(s) => {
            let f = numbers(words_of(s));
            if !is_pseudo(d.name) && f.len() >= 7 {
                Some((f[2], f[6]))
            } else {
                None
            }
        },
        None => None,
    }
}

/// The sectors that devices have read and written; none where no device could be read.
pub open spec fn all_sectors(v: Seq<DeviceModel>) -> Option<(nat, nat)>
    decreases v.len(),
{
    if v.len() == 0 {
        None
    } else {
        let before = all_sectors(v.drop_last());
        match (before, sectors_of(v.last())) {
            (_, None) => before,
            (None, Some((r, w))) => Some((r as nat, w as nat)),
            (Some((rd, wr)), Some((r, w))) => Some((rd + r as nat, wr + w as nat)),
        }
    }
}

/// Bytes read and written, at 512 to a sector, where they can be counted.
pub open spec fn disk_bytes_of(v: Seq<DeviceModel>) -> Option<(u64, u64)> {
    match all_sectors(v) {
        Some((rd, wr)) => if rd * 512 <= u64::MAX && wr * 512 <= u64::MAX {
            Some(((rd * 512) as u64, (wr * 512) as u64))
        } else {
            None
        },
        None => None,
    }
}

fn pseudo(name: &str) -> (r: bool)
    ensures
        r == is_pseudo(name@),
{
    let v: Vec<char> = chars_of(name);
    let s: &[char] = v.as_slice();
    starts_with(s, "loop") || starts_with(s, "ram") || starts_with(s, "zram") || starts_with(
        s,
        "sr",
    ) || starts_with(s, "fd") || starts_with(s, "dm-")
}

fn sectors(d: &BlockDevice) -> (r: Option<(u64, u64)>)
    ensures
        r == sectors_of(d@),
{
    match &d.stat {
        None => None,
        Some(s) => {
            if pseudo(d.name.as_str()) {
                return None;
            }
            let text: Vec<char> = chars_of(s.as_str());
            let w: Vec<&[char]> = words(text.as_slice());
            assert(texts(w@).skip(0) =~= texts(w@));
            let f: Vec<u64> = numbers_among(&w, 0);
            if f.len() >= 7 {
                Some((f[2], f[6]))
            } else {
                None
            }
        },
    }
}

/// Node-wide block I/O, bytes read and written, over whole-disk devices; none where no
/// device is readable, or where the bytes are past counting.
pub fn node_disk_bytes(devices: &Vec<BlockDevice>) -> (r: Option<(u64, u64)>)
    ensures
        r == disk_bytes_of(devices_of(devices@)),
{
    let ghost all = devices_of(devices@);
    let mut rd: u128 = 0;
    let mut wr: u128 = 0;
    let mut any: bool = false;
    let mut i: usize = 0;
    assert(all.take(0) =~= Seq::empty());
    while i < devices.len()
        invariant
            i <= devices.len(),
            all == devices_of(devices@),
            any == (all_sectors(all.take(i as int)) is Some),
            any ==> all_sectors(all.take(i as int)) == Some((rd as nat, wr as nat)),
            !any ==> rd == 0 && wr == 0,
            rd <= i * 0xFFFF_FFFF_FFFF_FFFF,
            wr <= i * 0xFFFF_FFFF_FFFF_FFFF,
        decreases devices.len() - i,
    {
        proof {
            let next = all.take(i + 1);
            assert(next.drop_last() =~= all.take(i as int));
            assert(next.last() == devices@[i as int]@);
            assert(i * 0xFFFF_FFFF_FFFF_FFFF <= 0xFFFF_FFFF_FFFF_FFFF * 0xFFFF_FFFF_FFFF_FFFF);
        }
        match sectors(&devices[i]) {
            Some((r, w)) => {
                rd = rd + r as u128;
                wr = wr + w as u128;
                any = true;
            },
            None => {},
        }
        i += 1;
    }
    assert(all.take(i as int) =~= all);
    if any && rd <= 0xFFFF_FFFF_FFFF_FFFF / 512 && wr <= 0xFFFF_FFFF_FFFF_FFFF / 512 {
        Some((rd as u64 * 512, wr as u64 * 512))
    } else {
        None
    }
}

// ------------------------------------------------------------------ the process

/// One read of the per-process `/proc` files.
#[derive(Clone, Copy, Debug)]
pub struct ProcSample {
    /// User and system time, in clock ticks.
    pub cpu_ticks: u64,
    pub rss_bytes: u64,
    pub threads: i64,
    /// Bytes of block-layer I/O.
    pub disk_read: u64,
    pub disk_write: u64,
    /// Logical bytes through read and write calls.
    pub io_rchar: u64,
    pub io_wchar: u64,
    /// The first character of the process state, that of the thread-group leader. `D` is
    /// uninterruptible sleep: blocked on I/O.
    pub state: Option<char>,
}

/// The resident bytes of the last `VmRSS:` line.
pub open spec fn rss_in(lines: Seq<Seq<char>>) -> nat
    decreases lines.len(),
{
    if lines.len() == 0 {
        0
    } else if begins(lines.last(), "VmRSS:"@) {
        kb_bytes(lines.last().skip("VmRSS:"@.len() as int))
    } else {
        rss_in(lines.drop_last())
    }
}

/// The number on the last `key: number` line; 0 where there is none, or no number on it.
pub open spec fn field_in(lines: Seq<Seq<char>>, key: Seq<char>) -> nat
    decreases lines.len(),
{
    if lines.len() == 0 {
        0
    } else {
        match halves(lines.last(), ':') {
            Some((k, v)) => if k == key {
                number_or_zero(trimmed(v))
            } else {
                field_in(lines.drop_last(), key)
            },
            None => field_in(lines.drop_last(), key),
        }
    }
}

/// The lines of a file, none where it could not be read.
pub open spec fn lines_read(file: Option<&str>) -> Seq<Seq<char>> {
    match file {
        Some(s) => lines_of(s@),
        None => Seq::empty(),
    }
}

/// The sample that a process's `stat`, `status` and `io` give. Without a readable `stat`
/// there is none; the others are best-effort.
pub open spec fn sample_of(stat: Seq<char>, status: Seq<Seq<char>>, io: Seq<Seq<char>>) -> Option<
    ProcSample,
> {
    match after_last(stat, ')') {
        None => None,
        Some(rest) => {
            let f = words_of(rest);
            if f.len() < 18 {
                None
            } else {
                match (number_in(f[11]), number_in(f[12])) {
                    (Some(u), Some(s)) => if u + s <= u64::MAX {
                        Some(
                            ProcSample {
                                cpu_ticks: (u + s) as u64,
                                rss_bytes: rss_in(status) as u64,
                                threads: match signed_of(f[17], i64::MIN as int, i64::MAX as int) {
                                    Some(n) => n as i64,
                                    None => 0,
                                },
                                disk_read: field_in(io, "read_bytes"@) as u64,
                                disk_write: field_in(io, "write_bytes"@) as u64,
                                io_rchar: field_in(io, "rchar"@) as u64,
                                io_wchar: field_in(io, "wchar"@) as u64,
                                state: Some(f[0][0]),
                            },
                        )
                    } else {
                        None
                    },
                    _ => None,
                }
            }
        },
    }
}

fn rss(file: Option<&str>) -> (r: u64)
    ensures
        r == rss_in(lines_read(file)),
{
    match file {
        None => 0,
        Some(s) => {
            let text: Vec<char> = chars_of(s);
            let l: Vec<&[char]> = lines(text.as_slice());
            let ghost all = texts(l@);
            let mut n: usize = l.len();
            assert(all.take(n as int) =~= all);
            while n > 0
                invariant
                    n <= l.len(),
                    all == texts(l@),
                    all == lines_read(file),
                    rss_in(all) == rss_in(all.take(n as int)),
                decreases n,
            {
                proof {
                    assert(all.take(n as int).drop_last() =~= all.take(n - 1));
                    assert(all.take(n as int).last() == l@[n - 1]@);
                }
                n -= 1;
                match strip_prefix(l[n], "VmRSS:") {
                    Some(rest) => {
                        return kb_line(rest);
                    },
                    None => {},
                }
            }
            0
        },
    }
}

fn field(file: Option<&str>, key: &str) -> (r: u64)
    ensures
        r == field_in(lines_read(file), key@),
{
    match file {
        None => 0,
        Some(s) => {
            let text: Vec<char> = chars_of(s);
            let l: Vec<&[char]> = lines(text.as_slice());
            let ghost all = texts(l@);
            let mut n: usize = l.len();
            assert(all.take(n as int) =~= all);
            while n > 0
                invariant
                    n <= l.len(),
                    all == texts(l@),
                    all == lines_read(file),
                    field_in(all, key@) == field_in(all.take(n as int), key@),
                decreases n,
            {
                proof {
                    assert(all.take(n as int).drop_last() =~= all.take(n - 1));
                    assert(all.take(n as int).last() == l@[n - 1]@);
                }
                n -= 1;
                match split_once(l[n], ':') {
                    Some((k, v)) => {
                        if is(k, key) {
                            return number(trim(v));
                        }
                    },
                    None => {},
                }
            }
            0
        },
    }
}

/// One sample, from the texts of `/proc/<pid>/stat`, `status` and `io`. The command name
/// in `stat` may contain spaces and parentheses, so its fields are counted from the
/// final `)`.
pub fn read_sample(stat: &str, status: Option<&str>, io: Option<&str>) -> (r: Option<ProcSample>)
    ensures
        r == sample_of(stat@, lines_read(status), lines_read(io)),
{
    let text: Vec<char> = chars_of(stat);
    match rsplit(text.as_slice(), ')') {
        None => None,
        Some(rest) => {
            let f: Vec<&[char]> = words(rest);
            assert(texts(f@).len() == f@.len());
            if f.len() < 18 {
                return None;
            }
            proof {
                assert(texts(f@)[0] == f@[0]@ && texts(f@)[11] == f@[11]@);
                assert(texts(f@)[12] == f@[12]@ && texts(f@)[17] == f@[17]@);
                assert(f@[0]@.len() > 0);
            }
            let ticks: Option<u64> = match (parse_u64(f[11]), parse_u64(f[12])) {
                (Some(u), Some(s)) => u.checked_add(s),
                _ => None,
            };
            match ticks {
                None => None,
                Some(cpu_ticks) => {
                    let threads: i64 = match parse_i64(f[17]) {
                        Some(n) => n,
                        None => 0,
                    };
                    Some(
                        ProcSample {
                            cpu_ticks,
                            rss_bytes: rss(status),
                            threads,
                            disk_read: field(io, "read_bytes"),
                            disk_write: field(io, "write_bytes"),
                            io_rchar: field(io, "rchar"),
                            io_wchar: field(io, "wchar"),
                            state: Some(f[0][0]),
                        },
                    )
                },
            }
        },
    }
}

// ------------------------------------------------------------------ the collector

/// What the whole node shows at one time, each where it could be read.
#[derive(Clone, Copy, Debug)]
pub struct NodeReading {
    pub busy: Option<u64>,
    pub mem: Option<u64>,
    pub disk: Option<(u64, u64)>,
}

#[derive(Clone, Copy, Debug)]
pub struct ProcCollector {
    pub started: Option<Duration>,
    pub clk_tck: u64,
    pub ncpu: u64,
    /// Most recent successful sample.
    pub last: Option<ProcSample>,
    pub peak_rss: u64,
    pub max_threads: i64,
    /// Node-wide busy ticks at the start and at the latest sample.
    pub node_base: u64,
    pub node_last: u64,
    /// Peak node memory in use.
    pub node_peak_mem: u64,
    /// Node-wide block I/O at the start and at the latest sample.
    pub node_disk_base: (u64, u64),
    pub node_disk_last: (u64, u64),
    /// Samples taken, and those in which the process was blocked on I/O.
    pub samples: u64,
    pub blocked: u64,
}

pub open spec fn or_else<T>(x: Option<T>, y: T) -> T {
    match x {
        Some(v) => v,
        None => y,
    }
}

/// The larger of two numbers.
pub open spec fn larger(a: int, b: int) -> int {
    if a >= b {
        a
    } else {
        b
    }
}

/// The difference of two numbers, none below zero.
pub open spec fn beyond(a: u64, b: u64) -> u64 {
    if a >= b {
        (a - b) as u64
    } else {
        0
    }
}

/// The collector after a sample, where one could be taken.
pub open spec fn sampled(c: ProcCollector, s: Option<ProcSample>) -> ProcCollector {
    match s {
        Some(p) => ProcCollector {
            peak_rss: larger(c.peak_rss as int, p.rss_bytes as int) as u64,
            max_threads: larger(c.max_threads as int, p.threads as int) as i64,
            samples: (c.samples + 1) as u64,
            blocked: if p.state == Some('D') {
                (c.blocked + 1) as u64
            } else {
                c.blocked
            },
            last: Some(p),
            ..c
        },
        None => c,
    }
}

/// The collector with what the node shows at the start.
pub open spec fn node_begun(c: ProcCollector, n: NodeReading) -> ProcCollector {
    ProcCollector {
        node_base: or_else(n.busy, 0),
        node_last: or_else(n.busy, 0),
        node_peak_mem: larger(c.node_peak_mem as int, or_else(n.mem, 0) as int) as u64,
        node_disk_base: or_else(n.disk, (0, 0)),
        node_disk_last: or_else(n.disk, (0, 0)),
        ..c
    }
}

/// The collector with what the node shows at a later time.
pub open spec fn node_sampled(c: ProcCollector, n: NodeReading) -> ProcCollector {
    ProcCollector {
        node_last: or_else(n.busy, c.node_last),
        node_peak_mem: larger(c.node_peak_mem as int, or_else(n.mem, 0) as int) as u64,
        node_disk_last: or_else(n.disk, c.node_disk_last),
        ..c
    }
}

/// A share of one number in another, of a time.
pub open spec fn share(part: u64, whole: u64, time: Double) -> Double {
    product(quotient(of_int(part as int), of_int(whole as int)), time)
}

/// CPU seconds: the node's in node-level counting, the process's own otherwise.
pub open spec fn cpu_seconds(c: ProcCollector, last: ProcSample, wide: bool) -> Double {
    quotient(
        of_int(
            if wide {
                beyond(c.node_last, c.node_base) as int
            } else {
                last.cpu_ticks as int
            },
        ),
        of_int(c.clk_tck as int),
    )
}

/// How many cores were in use, on average over the wall time.
pub open spec fn cores_used(cpu: Double, wall: Double) -> Double {
    if less(of_int(0), wall) {
        quotient(cpu, wall)
    } else {
        of_int(0)
    }
}

/// A metric that is there only for a process.
pub open spec fn unless_wide(wide: bool, m: MetricModel) -> Option<MetricModel> {
    if wide {
        None
    } else {
        Some(m)
    }
}

/// Whether time blocked on I/O is reported.
pub open spec fn has_wait(c: ProcCollector, wide: bool) -> bool {
    !wide && c.samples > 0 && c.blocked > 0
}

/// Whether the node's `smt/active` file says that siblings share cores.
pub open spec fn smt_active(file: Option<&str>) -> bool {
    match file {
        Some(s) => trimmed(s@) == "1"@,
        None => false,
    }
}

fn smt_is_active(file: Option<&str>) -> (r: bool)
    ensures
        r == smt_active(file),
{
    match file {
        Some(s) => {
            let v: Vec<char> = chars_of(s);
            is(trim(v.as_slice()), "1")
        },
        None => false,
    }
}

pub open spec fn flag(on: bool) -> i64 {
    if on {
        1
    } else {
        0
    }
}

/// The metrics of a collector whose last sample is `last`, over a wall time.
pub open spec fn proc_rows(
    c: ProcCollector,
    last: ProcSample,
    wall: Double,
    wide: bool,
    smt: bool,
) -> Seq<Option<MetricModel>> {
    let cpu = cpu_seconds(c, last, wide);
    let cores = cores_used(cpu, wall);
    let pct = product(quotient(cores, of_int(c.ncpu as int)), of_int(100));
    let memory = if wide {
        bytes_metric("peak_rss"@, "Node memory used (peak)"@, c.node_peak_mem)
    } else {
        bytes_metric("peak_rss"@, "Memory footprint (peak RSS)"@, c.peak_rss)
    };
    let read = if wide {
        beyond(c.node_disk_last.0, c.node_disk_base.0)
    } else {
        last.disk_read
    };
    let write = if wide {
        beyond(c.node_disk_last.1, c.node_disk_base.1)
    } else {
        last.disk_write
    };
    let wait = MetricModel {
        key: "io_wait"@,
        label: "I/O wait (sampled est.)"@,
        value: ValueModel::Duration(span_of(share(c.blocked, c.samples, wall))),
    };
    let taken = int_metric("io_wait_samples"@, "I/O-wait samples"@, c.samples as i64);
    seq![
        Some(float_metric("cpu_time"@, "CPU time"@, cpu, "s"@)),
        Some(float_metric("cpu_cores_used"@, "CPU utilization"@, cores, "cores"@)),
        Some(percent_metric("cpu_core_pct"@, "Physical core utilization"@, pct)),
        Some(memory),
        Some(int_metric("max_threads"@, "Threads (peak)"@, c.max_threads)),
        Some(bytes_metric("disk_read"@, "Disk read"@, read)),
        Some(bytes_metric("disk_write"@, "Disk write"@, write)),
        unless_wide(wide, bytes_metric("io_read"@, "I/O read (logical)"@, last.io_rchar)),
        unless_wide(wide, bytes_metric("io_write"@, "I/O write (logical)"@, last.io_wchar)),
        if has_wait(c, wide) {
            Some(wait)
        } else {
            None
        },
        if has_wait(c, wide) {
            Some(taken)
        } else {
            None
        },
        Some(int_metric("smt_active"@, "SMT active"@, flag(smt))),
        Some(int_metric("system_wide"@, "System-wide"@, flag(wide))),
    ]
}

/// What the collector reports; nothing where no sample could be taken.
pub open spec fn proc_metrics(c: ProcCollector, wall: Double, wide: bool, smt: bool) -> Seq<
    MetricModel,
> {
    match c.last {
        Some(last) => rows(proc_rows(c, last, wall, wide, smt)),
        None => Seq::empty(),
    }
}

fn difference_of(a: u64, b: u64) -> (r: u64)
    ensures
        r == beyond(a, b),
{
    if a >= b {
        a - b
    } else {
        0
    }
}

fn max_u64(a: u64, b: u64) -> (r: u64)
    ensures
        r == larger(a as int, b as int),
{
    if a >= b {
        a
    } else {
        b
    }
}

impl ProcCollector {
    /// No more samples were blocked than were taken.
    pub open spec fn wf(&self) -> bool {
        &&& self.blocked <= self.samples
        &&& self.started matches Some(s) ==> s.wf()
    }

    /// The collector on a clock of `clk_tck` ticks per second and a node of `ncpu` CPUs;
    /// 100 and 1 where they are unknown.
    pub fn new(clk_tck: i64, ncpu: i64) -> (r: ProcCollector)
        ensures
            r.wf(),
            r.clk_tck == crate::threads::ticks_per_second(clk_tck),
            r == (ProcCollector {
                started: None,
                clk_tck: if clk_tck > 0 {
                    clk_tck as u64
                } else {
                    100
                },
                ncpu: if ncpu > 0 {
                    ncpu as u64
                } else {
                    1
                },
                last: None,
                peak_rss: 0,
                max_threads: 0,
                node_base: 0,
                node_last: 0,
                node_peak_mem: 0,
                node_disk_base: (0, 0),
                node_disk_last: (0, 0),
                samples: 0,
                blocked: 0,
            }),
    {
        ProcCollector {
            started: None,
            clk_tck: if clk_tck > 0 {
                clk_tck as u64
            } else {
                100
            },
            ncpu: if ncpu > 0 {
                ncpu as u64
            } else {
                1
            },
            last: None,
            peak_rss: 0,
            max_threads: 0,
            node_base: 0,
            node_last: 0,
            node_peak_mem: 0,
            node_disk_base: (0, 0),
            node_disk_last: (0, 0),
            samples: 0,
            blocked: 0,
        }
    }

    pub fn name(&self) -> (r: &'static str)
        ensures
            r@ == "proc"@,
    {
        "proc"
    }

    fn take(&mut self, s: Option<ProcSample>)
        requires
            old(self).wf(),
            old(self).samples < u64::MAX,
        ensures
            final(self).wf(),
            *final(self) == sampled(*old(self), s),
    {
        match s {
            Some(p) => {
                self.peak_rss = max_u64(self.peak_rss, p.rss_bytes);
                if p.threads > self.max_threads {
                    self.max_threads = p.threads;
                }
                self.samples = self.samples + 1;
                let blocked: bool = match p.state {
                    Some(c) => c == 'D',
                    None => false,
                };
                if blocked {
                    self.blocked = self.blocked + 1;
                }
                self.last = Some(p);
            },
            None => {},
        }
    }

    /// Begins, with what the node shows in node-level counting, and with a first sample
    /// so that very short runs still report.
    pub fn start(&mut self, now: Duration, node: Option<NodeReading>, s: Option<ProcSample>)
        requires
            old(self).wf(),
            now.wf(),
            old(self).samples < u64::MAX,
        ensures
            final(self).wf(),
            *final(self) == sampled(
                match node {
                    Some(n) => node_begun(
                        ProcCollector { started: Some(now), ..*old(self) },
                        n,
                    ),
                    None => ProcCollector { started: Some(now), ..*old(self) },
                },
                s,
            ),
    {
        self.started = Some(now);
        match node {
            Some(n) => {
                let busy: u64 = n.busy.unwrap_or(0);
                self.node_base = busy;
                self.node_last = busy;
                self.node_peak_mem = max_u64(self.node_peak_mem, n.mem.unwrap_or(0));
                let disk: (u64, u64) = n.disk.unwrap_or((0, 0));
                self.node_disk_base = disk;
                self.node_disk_last = disk;
            },
            None => {},
        }
        self.take(s);
    }

    /// Takes in what the node shows in node-level counting, and a sample of the process.
    pub fn sample(&mut self, node: Option<NodeReading>, s: Option<ProcSample>)
        requires
            old(self).wf(),
            old(self).samples < u64::MAX,
        ensures
            final(self).wf(),
            *final(self) == sampled(
                match node {
                    Some(n) => node_sampled(*old(self), n),
                    None => *old(self),
                },
                s,
            ),
    {
        match node {
            Some(n) => {
                self.node_last = n.busy.unwrap_or(self.node_last);
                self.node_peak_mem = max_u64(self.node_peak_mem, n.mem.unwrap_or(0));
                self.node_disk_last = n.disk.unwrap_or(self.node_disk_last);
            },
            None => {},
        }
        self.take(s);
    }

    fn wait_secs(&self, wall: Double) -> (r: Double)
        ensures
            r == share(self.blocked, self.samples, wall),
    {
        Double::from_u64(self.blocked).over(Double::from_u64(self.samples)).times(wall)
    }

    /// Whether the time blocked on I/O, if it is to be reported, is a span of time.
    pub open spec fn waits(&self, now: Duration, wide: bool) -> bool {
        self.last is Some && has_wait(*self, wide) ==> is_span(
            share(self.blocked, self.samples, seconds(elapsed_since(self.started, now))),
        )
    }

    /// Whether [`ProcCollector::finish`] can report.
    pub fn can_finish(&self, now: Duration, scope: &CountScope) -> (r: bool)
        requires
            self.wf(),
            now.wf(),
        ensures
            r == self.waits(now, scope.wide),
    {
        if self.last.is_some() && !scope.wide && self.samples > 0 && self.blocked > 0 {
            let wall: Double = time_since(self.started, now).as_secs();
            Duration::checked_from_secs(self.wait_secs(wall)).is_some()
        } else {
            true
        }
    }

    /// The metrics, over the time since the start. `smt` is the text of the node's
    /// `smt/active` file.
    pub fn finish(&self, now: Duration, scope: &CountScope, smt: Option<&str>) -> (r: Vec<Metric>)
        requires
            self.wf(),
            now.wf(),
            self.waits(now, scope.wide),
        ensures
            metrics_of(r@) == proc_metrics(
                *self,
                seconds(elapsed_since(self.started, now)),
                scope.wide,
                smt_active(smt),
            ),
    {
        let last: ProcSample = match self.last {
            Some(s) => s,
            None => {
                // never managed to read the process: nothing to report
                let none: Vec<Metric> = Vec::new();
                assert(metrics_of(none@) =~= Seq::empty());
                return none;
            },
        };
        let wall: Double = time_since(self.started, now).as_secs();
        let wide: bool = scope.wide;
        let ticks: u64 = if wide {
            difference_of(self.node_last, self.node_base)
        } else {
            last.cpu_ticks
        };
        let cpu: Double = Double::from_u64(ticks).over(Double::from_u64(self.clk_tck));
        let cores: Double = if Double::from_u64(0).lt(wall) {
            cpu.over(wall)
        } else {
            Double::from_u64(0)
        };
        let pct: Double = cores.over(Double::from_u64(self.ncpu)).times(Double::from_u64(100));
        let read: u64 = if wide {
            difference_of(self.node_disk_last.0, self.node_disk_base.0)
        } else {
            last.disk_read
        };
        let write: u64 = if wide {
            difference_of(self.node_disk_last.1, self.node_disk_base.1)
        } else {
            last.disk_write
        };

        let mut out: Rows = Rows::new();
        out.offer(Some(Metric::float("cpu_time", "CPU time", cpu, "s")));
        out.offer(Some(Metric::float("cpu_cores_used", "CPU utilization", cores, "cores")));
        out.offer(Some(Metric::percent("cpu_core_pct", "Physical core utilization", pct)));
        if wide {
            let m: u64 = self.node_peak_mem;
            out.offer(Some(Metric::bytes("peak_rss", "Node memory used (peak)", m)));
        } else {
            let m: u64 = self.peak_rss;
            out.offer(Some(Metric::bytes("peak_rss", "Memory footprint (peak RSS)", m)));
        }
        out.offer(Some(Metric::count("max_threads", "Threads (peak)", self.max_threads)));
        out.offer(Some(Metric::bytes("disk_read", "Disk read", read)));
        out.offer(Some(Metric::bytes("disk_write", "Disk write", write)));
        // Logical I/O is inherently per-process: a node-level snapshot omits it.
        if wide {
            out.offer(None);
            out.offer(None);
        } else {
            out.offer(Some(Metric::bytes("io_read", "I/O read (logical)", last.io_rchar)));
            out.offer(Some(Metric::bytes("io_write", "I/O write (logical)", last.io_wchar)));
        }
        // The fraction of samples in which the process was blocked, of the wall time, and
        // the number of samples behind that estimate.
        if !wide && self.samples > 0 && self.blocked > 0 {
            let wait: Duration = Duration::from_secs(self.wait_secs(wall));
            out.offer(
                Some(
                    Metric {
                        key: "io_wait",
                        label: "I/O wait (sampled est.)".to_string(),
                        value: MetricValue::Duration(wait),
                    },
                ),
            );
            let n: i64 = self.samples as i64;
            out.offer(Some(Metric::count("io_wait_samples", "I/O-wait samples", n)));
        } else {
            out.offer(None);
            out.offer(None);
        }
        let smt_flag: i64 = if smt_is_active(smt) {
            1
        } else {
            0
        };
        out.offer(Some(Metric::count("smt_active", "SMT active", smt_flag)));
        let wide_flag: i64 = if wide {
            1
        } else {
            0
        };
        out.offer(Some(Metric::count("system_wide", "System-wide", wide_flag)));
        assert(out.offered@ =~= proc_rows(*self, last, wall, wide, smt_flag == 1));
        out.list
    }
}

// ------------------------------------------------------------------ laws

/// The collector after a number of samples of the process.
pub open spec fn after_samples(c: ProcCollector, v: Seq<ProcSample>) -> ProcCollector
    decreases v.len(),
{
    if v.len() == 0 {
        c
    } else {
        sampled(after_samples(c, v.drop_last()), Some(v.last()))
    }
}

/// The peaks cover every sample, and the last sample is kept though the process is gone.
pub proof fn law_peaks_cover_every_sample(c: ProcCollector, v: Seq<ProcSample>, i: int)
    requires
        0 <= i < v.len(),
    ensures
        after_samples(c, v).peak_rss >= v[i].rss_bytes,
        after_samples(c, v).max_threads >= v[i].threads,
        after_samples(c, v).peak_rss >= c.peak_rss,
        after_samples(c, v).max_threads >= c.max_threads,
        after_samples(c, v).last == Some(v.last()),
    decreases v.len(),
{
    let head = v.drop_last();
    if i < head.len() {
        law_peaks_cover_every_sample(c, head, i);
        assert(head[i] == v[i]);
    } else if head.len() > 0 {
        law_peaks_cover_every_sample(c, head, 0);
    } else {
        assert(after_samples(c, head) == c);
    }
}

/// A share of a time is at most the time.
pub proof fn law_wait_is_within_the_wall_time(c: ProcCollector, wall: Double)
    requires
        c.wf(),
        c.samples > 0,
        wall.is_finite(),
        nonnegative(wall),
    ensures
        nonnegative(share(c.blocked, c.samples, wall)),
        at_most(share(c.blocked, c.samples, wall), wall),
{
    lemma_counts_increase(c.blocked as nat, c.samples as nat);
    lemma_counts_increase(c.samples as nat, c.samples as nat);
    lemma_count_positive(c.samples as nat);
    lemma_units_zero();
    let whole = of_int(c.samples as int);
    lemma_nonnegative(whole);
    lemma_units_order(0, whole.mag());
    let q = quotient(of_int(c.blocked as int), whole);
    lemma_fraction(of_int(c.blocked as int), whole);
    lemma_scaled(q, wall);
}

pub proof fn lemma_proc_keys()
    ensures
        "cpu_time"@.len() == 8 && "peak_rss"@.len() == 8 && "cpu_time"@ != "peak_rss"@,
        "io_write"@.len() == 8 && "io_write"@ != "peak_rss"@ && "io_write"@ != "cpu_time"@,
        "cpu_cores_used"@.len() == 14,
        "cpu_core_pct"@.len() == 12,
        "max_threads"@.len() == 11 && "system_wide"@.len() == 11,
        "system_wide"@ != "max_threads"@,
        "disk_read"@.len() == 9,
        "disk_write"@.len() == 10 && "smt_active"@.len() == 10,
        "io_read"@.len() == 7 && "io_wait"@.len() == 7 && "io_read"@ != "io_wait"@,
        "io_wait_samples"@.len() == 15,
{
    reveal_strlit("cpu_time");
    reveal_strlit("peak_rss");
    reveal_strlit("io_write");
    reveal_strlit("cpu_cores_used");
    reveal_strlit("cpu_core_pct");
    reveal_strlit("max_threads");
    reveal_strlit("system_wide");
    reveal_strlit("disk_read");
    reveal_strlit("disk_write");
    reveal_strlit("smt_active");
    reveal_strlit("io_read");
    reveal_strlit("io_wait");
    reveal_strlit("io_wait_samples");
    assert("cpu_time"@[0] != "peak_rss"@[0]);
    assert("io_write"@[0] != "peak_rss"@[0]);
    assert("io_write"@[0] != "cpu_time"@[0]);
    assert("system_wide"@[0] != "max_threads"@[0]);
    assert("io_read"@[3] != "io_wait"@[3]);
}

/// A node-level snapshot reports the node's memory and says so, and nothing that is
/// known of the launched process alone; a process snapshot reports the process's own.
pub proof fn law_scope_decides_what_is_reported(
    c: ProcCollector,
    last: ProcSample,
    wall: Double,
    smt: bool,
)
    requires
        c.last == Some(last),
    ensures
        ({
            let node = proc_metrics(c, wall, true, smt);
            let own = proc_metrics(c, wall, false, smt);
            &&& numeric_of(node, "peak_rss"@) == Some(of_int(c.node_peak_mem as int))
            &&& numeric_of(own, "peak_rss"@) == Some(of_int(c.peak_rss as int))
            &&& numeric_of(node, "system_wide"@) == Some(of_int(1))
            &&& numeric_of(own, "system_wide"@) == Some(of_int(0))
            &&& numeric_of(node, "io_read"@) is None
            &&& numeric_of(node, "io_write"@) is None
            &&& numeric_of(node, "io_wait"@) is None
            &&& numeric_of(own, "io_read"@) == Some(of_int(last.io_rchar as int))
            &&& numeric_of(own, "io_write"@) == Some(of_int(last.io_wchar as int))
            &&& (numeric_of(own, "io_wait"@) is Some) == (c.samples > 0 && c.blocked > 0)
        }),
{
    lemma_proc_keys();
    let node = proc_rows(c, last, wall, true, smt);
    let own = proc_rows(c, last, wall, false, smt);
    assert(node.len() == 13 && own.len() == 13);
    lemma_numeric_rows(node, "peak_rss"@, 3);
    lemma_numeric_rows(own, "peak_rss"@, 3);
    lemma_numeric_rows(node, "system_wide"@, 12);
    lemma_numeric_rows(own, "system_wide"@, 12);
    lemma_numeric_rows(node, "io_read"@, 7);
    lemma_numeric_rows(node, "io_write"@, 8);
    lemma_numeric_rows(node, "io_wait"@, 9);
    lemma_numeric_rows(own, "io_read"@, 7);
    lemma_numeric_rows(own, "io_write"@, 8);
    lemma_numeric_rows(own, "io_wait"@, 9);
}

/// The samples that could be taken.
pub open spec fn taken(tries: Seq<Option<ProcSample>>) -> Seq<ProcSample>
    decreases tries.len(),
{
    if tries.len() == 0 {
        Seq::empty()
    } else {
        match tries.last() {
            Some(p) => taken(tries.drop_last()).push(p),
            None => taken(tries.drop_last()),
        }
    }
}

/// The collector of a process after a number of tries to sample it, the first of which is
/// made at the start.
pub open spec fn after_tries(c: ProcCollector, tries: Seq<Option<ProcSample>>) -> ProcCollector
    decreases tries.len(),
{
    if tries.len() == 0 {
        c
    } else {
        sampled(after_tries(c, tries.drop_last()), tries.last())
    }
}

/// How many samples found the process blocked on I/O.
pub open spec fn blocked_in(v: Seq<ProcSample>) -> nat
    decreases v.len(),
{
    if v.len() == 0 {
        0
    } else {
        blocked_in(v.drop_last()) + if v.last().state == Some('D') {
            1nat
        } else {
            0
        }
    }
}

/// Whether a collector has sampled nothing yet.
pub open spec fn is_unused(c: ProcCollector) -> bool {
    c.last is None && c.peak_rss == 0 && c.max_threads == 0 && c.samples == 0 && c.blocked == 0
}

/// Whether a number is the largest of the samples' memory.
pub open spec fn is_peak_rss(v: Seq<ProcSample>, peak: u64) -> bool {
    &&& forall|i: int| 0 <= i < v.len() ==> (#[trigger] v[i]).rss_bytes <= peak
    &&& exists|i: int| 0 <= i < v.len() && (#[trigger] v[i]).rss_bytes == peak
}

/// Whether a number is the largest of the samples' thread counts, or 0 where none of them
/// is above it.
pub open spec fn is_peak_threads(v: Seq<ProcSample>, peak: i64) -> bool {
    &&& forall|i: int| 0 <= i < v.len() ==> (#[trigger] v[i]).threads <= peak
    &&& peak == 0 || exists|i: int| 0 <= i < v.len() && (#[trigger] v[i]).threads == peak
    &&& peak >= 0
}

/// A failed try changes nothing.
proof fn lemma_tries(c: ProcCollector, tries: Seq<Option<ProcSample>>)
    ensures
        after_tries(c, tries) == after_samples(c, taken(tries)),
        taken(tries).len() <= tries.len(),
    decreases tries.len(),
{
    if tries.len() > 0 {
        lemma_tries(c, tries.drop_last());
        if let Some(p) = tries.last() {
            assert(taken(tries).drop_last() =~= taken(tries.drop_last()));
        }
    }
}

proof fn lemma_run(c: ProcCollector, v: Seq<ProcSample>)
    requires
        is_unused(c),
        v.len() < u64::MAX,
    ensures
        ({
            let e = after_samples(c, v);
            &&& v.len() > 0 ==> e.last == Some(v.last()) && is_peak_rss(v, e.peak_rss)
            &&& is_peak_threads(v, e.max_threads)
            &&& e.samples == v.len()
            &&& e.blocked == blocked_in(v) <= v.len()
        }),
    decreases v.len(),
{
    if v.len() > 0 {
        let head = v.drop_last();
        let n = v.len() - 1;
        lemma_run(c, head);
        let b = after_samples(c, head);
        let e = after_samples(c, v);
        assert(v[n] == v.last());
        assert(head.len() == 0 ==> b == c);
        assert forall|i: int| 0 <= i < v.len() implies (#[trigger] v[i]).rss_bytes <= e.peak_rss
            && v[i].threads <= e.max_threads by {
            if i < n {
                assert(head[i] == v[i]);
            }
        }
        if v.last().rss_bytes >= b.peak_rss {
            assert(v[n].rss_bytes == e.peak_rss);
        } else {
            let i = choose|i: int| 0 <= i < head.len() && (#[trigger] head[i]).rss_bytes
                == b.peak_rss;
            assert(v[i] == head[i]);
        }
        if v.last().threads > b.max_threads {
            assert(v[n].threads == e.max_threads);
        } else if b.max_threads != 0 {
            let i = choose|i: int| 0 <= i < head.len() && (#[trigger] head[i]).threads
                == b.max_threads;
            assert(v[i] == head[i]);
        }
    }
}

/// Some sample found the process blocked exactly where their number is not 0.
proof fn lemma_blocked(v: Seq<ProcSample>)
    ensures
        blocked_in(v) > 0 <==> exists|i: int|
            0 <= i < v.len() && (#[trigger] v[i]).state == Some('D'),
    decreases v.len(),
{
    if v.len() > 0 {
        let head = v.drop_last();
        let n = v.len() - 1;
        lemma_blocked(head);
        assert(v[n] == v.last());
        if blocked_in(v) > 0 && v.last().state != Some('D') {
            let i = choose|i: int| 0 <= i < head.len() && (#[trigger] head[i]).state == Some('D');
            assert(v[i] == head[i]);
        }
        if exists|i: int| 0 <= i < v.len() && (#[trigger] v[i]).state == Some('D') {
            let i = choose|i: int| 0 <= i < v.len() && (#[trigger] v[i]).state == Some('D');
            if i < n {
                assert(head[i] == v[i]);
            }
        }
    }
}

/// The keys that are reported of a process; the last two where it was seen blocked.
pub open spec fn is_reported(key: Seq<char>, blocked: bool) -> bool {
    ||| key == "cpu_time"@ || key == "cpu_cores_used"@ || key == "cpu_core_pct"@
    ||| key == "peak_rss"@ || key == "max_threads"@ || key == "disk_read"@ || key == "disk_write"@
    ||| key == "io_read"@ || key == "io_write"@ || key == "smt_active"@ || key == "system_wide"@
    ||| blocked && (key == "io_wait"@ || key == "io_wait_samples"@)
}

/// Where the row of a key stands.
spec fn row_place(key: Seq<char>) -> int {
    if key == "cpu_time"@ {
        0
    } else if key == "cpu_cores_used"@ {
        1
    } else if key == "cpu_core_pct"@ {
        2
    } else if key == "peak_rss"@ {
        3
    } else if key == "max_threads"@ {
        4
    } else if key == "disk_read"@ {
        5
    } else if key == "disk_write"@ {
        6
    } else if key == "io_read"@ {
        7
    } else if key == "io_write"@ {
        8
    } else if key == "io_wait"@ {
        9
    } else if key == "io_wait_samples"@ {
        10
    } else if key == "smt_active"@ {
        11
    } else if key == "system_wide"@ {
        12
    } else {
        -1
    }
}

/// A row stands in the place of its key.
proof fn lemma_row_places(c: ProcCollector, last: ProcSample, wall: Double, smt: bool)
    ensures
        forall|k: int|
            0 <= k < 13 ==> (#[trigger] proc_rows(c, last, wall, false, smt)[k] matches Some(m)
                ==> row_place(m.key) == k),
        forall|k: int|
            0 <= k < 13 && (has_wait(c, false) || (k != 9 && k != 10)) ==> #[trigger] proc_rows(
                c,
                last,
                wall,
                false,
                smt,
            )[k] is Some,
{
    lemma_proc_keys();
    reveal_strlit("smt_active");
    reveal_strlit("disk_write");
    assert("smt_active"@[0] != "disk_write"@[0]);
    let v = proc_rows(c, last, wall, false, smt);
    assert forall|k: int| 0 <= k < 13 implies (#[trigger] v[k] matches Some(m) ==> row_place(m.key)
        == k) && (has_wait(c, false) || (k != 9 && k != 10) ==> v[k] is Some) by {
        if k <= 6 {
            assert(k == 0 || k == 1 || k == 2 || k == 3 || k == 4 || k == 5 || k == 6);
        } else {
            assert(k == 7 || k == 8 || k == 9 || k == 10 || k == 11 || k == 12);
        }
    }
}

proof fn lemma_key_places()
    ensures
        forall|a: Seq<char>, b: Seq<char>|
            #![trigger row_place(a), row_place(b)]
            row_place(a) >= 0 && row_place(a) == row_place(b) ==> a == b,
{
}

/// Which keys are reported of a process, whatever was sampled.
proof fn lemma_reported(c: ProcCollector, last: ProcSample, wall: Double, smt: bool, key: Seq<char>)
    requires
        c.last == Some(last),
    ensures
        numeric_of(proc_metrics(c, wall, false, smt), key) is Some <==> is_reported(
            key,
            has_wait(c, false),
        ),
        row_place(key) >= 0 ==> numeric_of(proc_metrics(c, wall, false, smt), key)
            == match proc_rows(c, last, wall, false, smt)[row_place(key)] {
            Some(m) => Some(number_of(m.value)),
            None => None,
        },
{
    let v = proc_rows(c, last, wall, false, smt);
    let p = row_place(key);
    assert(v.len() == 13);
    lemma_row_places(c, last, wall, smt);
    lemma_key_places();
    assert(is_reported(key, true) == (p >= 0));
    assert(is_reported(key, false) ==> p >= 0 && p != 9 && p != 10) by {
        lemma_proc_keys();
    }
    if p >= 0 {
        if let Some(m) = v[p] {
            assert(row_place(m.key) == p);
        }
        assert forall|k: int| 0 <= k < v.len() && k != p implies (#[trigger] v[k] matches Some(m)
            ==> m.key != key) by {
            if let Some(m) = v[k] {
                assert(row_place(m.key) == k);
            }
        }
        lemma_numeric_rows(v, key, p);
    } else {
        lemma_no_rows(v, key);
    }
}

/// A process that could be read at least once is reported, with the same keys whatever was
/// read. The peaks are the largest over all reads, and the volumes those of the last read.
/// Time blocked on I/O is reported exactly where some read found the process blocked, and
/// then with the number of reads. A read that failed counts for nothing.
pub proof fn law_a_run_is_reported(
    c: ProcCollector,
    tries: Seq<Option<ProcSample>>,
    wall: Double,
    smt: bool,
)
    requires
        is_unused(c),
        tries.len() < u64::MAX,
        taken(tries).len() > 0,
    ensures
        ({
            let e = after_tries(c, tries);
            let v = taken(tries);
            let m = proc_metrics(e, wall, false, smt);
            let blocked = exists|i: int|
                0 <= i < v.len() && (#[trigger] v[i]).state == Some('D');
            &&& forall|key: Seq<char>| #[trigger]
                numeric_of(m, key) is Some <==> is_reported(key, blocked)
            &&& is_peak_rss(v, e.peak_rss)
            &&& is_peak_threads(v, e.max_threads)
            &&& numeric_of(m, "peak_rss"@) == Some(of_int(e.peak_rss as int))
            &&& numeric_of(m, "max_threads"@) == Some(of_int(e.max_threads as int))
            &&& numeric_of(m, "disk_read"@) == Some(of_int(v.last().disk_read as int))
            &&& numeric_of(m, "disk_write"@) == Some(of_int(v.last().disk_write as int))
            &&& numeric_of(m, "io_read"@) == Some(of_int(v.last().io_rchar as int))
            &&& numeric_of(m, "io_write"@) == Some(of_int(v.last().io_wchar as int))
            &&& blocked ==> numeric_of(m, "io_wait_samples"@) == Some(
                of_int((v.len() as i64) as int),
            )
        }),
{
    let e = after_tries(c, tries);
    let v = taken(tries);
    let last = v.last();
    lemma_tries(c, tries);
    lemma_run(c, v);
    lemma_blocked(v);
    lemma_proc_keys();
    let m = proc_metrics(e, wall, false, smt);
    let blocked = exists|i: int| 0 <= i < v.len() && (#[trigger] v[i]).state == Some('D');
    assert(has_wait(e, false) == blocked);
    assert forall|key: Seq<char>| #[trigger]
        numeric_of(m, key) is Some <==> is_reported(key, blocked) by {
        lemma_reported(e, last, wall, smt, key);
    }
    lemma_reported(e, last, wall, smt, "peak_rss"@);
    lemma_reported(e, last, wall, smt, "max_threads"@);
    lemma_reported(e, last, wall, smt, "disk_read"@);
    lemma_reported(e, last, wall, smt, "disk_write"@);
    lemma_reported(e, last, wall, smt, "io_read"@);
    lemma_reported(e, last, wall, smt, "io_write"@);
    lemma_reported(e, last, wall, smt, "io_wait_samples"@);
}

} // verus!
