//! Per-thread counter groups.
//!
//! Counting a multithreaded process with inherited, independent events is unreliable
//! under PMU multiplexing. Events are opened instead as hardware groups, which are
//! scheduled all-or-nothing so that their internal ratios are exact, on each thread
//! (or, system-wide, on each CPU), and summed across them.
//!
//! Keep each group at no more than 5 events: a group only counts if all its members
//! fit in the core's counters at once, and one counter may be unavailable. Events
//! whose ratio must be exact belong in the same group.
//!
//! Counters do not follow `fork`, so a wrapped launch measures the near-idle wrapper;
//! system-wide counting sees every process of the node.
//!
//! What is kept here is the state of the groups: which scopes were opened, and what
//! each group last read. Opening the counters and reading their files is the caller's.

use crate::double::{at_most, clamped, of_int, product, quotient, sum, to_count, Double};
use crate::text::{
    after_last, chars_of, halves, parse_i32, parse_u64, pieces, rsplit, signed_of, split,
    split_once, texts, trim, trimmed, unsigned_of, words, words_of,
};
use vstd::prelude::*;

verus! {

/// perf_event ABI event types (stable kernel constants).
pub const TYPE_HARDWARE: u32 = 0;

/// Kernel counters: context switches, faults.
pub const TYPE_SOFTWARE: u32 = 1;

/// The portable cache and TLB encoding.
pub const TYPE_HW_CACHE: u32 = 3;

/// A CPU-specific raw encoding.
pub const TYPE_RAW: u32 = 4;

/// What is counted. Off (the default): the threads of the target process. On: every
/// process of the node, one group set per online CPU.
#[derive(Clone, Copy, Debug, PartialEq, Eq, Structural)]
pub struct CountScope {
    pub wide: bool,
}

impl Default for CountScope {
    /// Counting is of the target process until node-level counting is selected.
    fn default() -> (r: CountScope)
        ensures
            !r.wide,
    {
        CountScope { wide: false }
    }
}

/// Selects node-level counting.
pub fn set_system_wide(scope: &mut CountScope, on: bool)
    ensures
        final(scope).wide == on,
{
    scope.wide = on;
}

/// Whether counting is node-level.
pub fn system_wide(scope: &CountScope) -> (r: bool)
    ensures
        r == scope.wide,
{
    scope.wide
}

/// The open-file limit to set: the hard limit, where the soft one is below it.
/// System-wide counting opens several thousand files on a many-core node.
pub fn raise_fd_limit(soft: u64, hard: u64) -> (r: Option<u64>)
    ensures
        r == if soft < hard {
            Some(hard)
        } else {
            None
        },
{
    if soft < hard {
        Some(hard)
    } else {
        None
    }
}

/// One event: its perf type and config (a hardware enum value or a raw encoding).
#[derive(Clone, Copy, Debug, PartialEq, Eq, Structural)]
pub struct EventCfg {
    pub etype: u32,
    pub config: u64,
}

// ------------------------------------------------------------------ online CPUs

/// The whole numbers from `a` to `b`.
pub open spec fn range_of(a: int, b: int) -> Seq<i32>
    decreases b - a + 1,
{
    if a > b {
        Seq::empty()
    } else {
        range_of(a, b - 1).push(b as i32)
    }
}

/// The CPUs of one item of a CPU list: a number, or two with `-` between them. An item
/// that is neither has none.
pub open spec fn cpus_in(item: Seq<char>) -> Seq<i32> {
    match halves(item, '-') {
        Some((a, b)) => match (cpu_number(a), cpu_number(b)) {
            (Some(a), Some(b)) => range_of(a, b),
            _ => Seq::empty(),
        },
        None => match cpu_number(item) {
            Some(a) => seq![a as i32],
            None => Seq::empty(),
        },
    }
}

pub open spec fn cpu_number(s: Seq<char>) -> Option<int> {
    signed_of(s, i32::MIN as int, i32::MAX as int)
}

/// The CPUs of the items of a CPU list.
pub open spec fn listed_cpus(items: Seq<Seq<char>>) -> Seq<i32>
    decreases items.len(),
{
    if items.len() == 0 {
        Seq::empty()
    } else {
        listed_cpus(items.drop_last()) + cpus_in(items.last())
    }
}

/// The online CPUs: those that the kernel lists (`0-31`, `0,2-4`), else 0 up to the
/// number of processors.
pub open spec fn online(list: Option<Seq<char>>, nproc: i32) -> Seq<i32> {
    let listed = match list {
        Some(s) => listed_cpus(pieces(trimmed(s), ',')),
        None => Seq::empty(),
    };
    if listed.len() > 0 {
        listed
    } else {
        range_of(
            0,
            if nproc > 1 {
                nproc - 1
            } else {
                0
            },
        )
    }
}

fn push_range(out: &mut Vec<i32>, a: i32, b: i32)
    ensures
        final(out)@ == old(out)@ + range_of(a as int, b as int),
{
    let mut i: i64 = a as i64;
    proof {
        assert(out@ + range_of(a as int, a - 1) =~= out@);
        if a > b {
            assert(out@ + range_of(a as int, b as int) =~= out@);
        }
    }
    let ghost before = out@;
    while i <= b as i64
        invariant
            a <= i,
            a <= b ==> i <= b + 1,
            a > b ==> i == a,
            out@ == before + range_of(a as int, i - 1),
        decreases b - i + 1,
    {
        out.push(i as i32);
        proof {
            assert((before + range_of(a as int, i - 1)).push(i as i32) =~= before + range_of(
                a as int,
                i as int,
            ));
        }
        i += 1;
    }
}

/// Online CPU ids from the text of `/sys/devices/system/cpu/online`, where there is one.
pub fn online_cpus(list: Option<&str>, nproc: i32) -> (r: Vec<i32>)
    ensures
        r@ == online(
            match list {
                Some(s) => Some(s@),
                None => None,
            },
            nproc,
        ),
{
    let mut out: Vec<i32> = Vec::new();
    match list {
        Some(s) => {
            let v: Vec<char> = chars_of(s);
            let items: Vec<&[char]> = split(trim(v.as_slice()), ',');
            let ghost all = texts(items@);
            let mut i: usize = 0;
            assert(all.take(0) =~= Seq::empty());
            while i < items.len()
                invariant
                    i <= items.len(),
                    all == texts(items@),
                    out@ == listed_cpus(all.take(i as int)),
                decreases items.len() - i,
            {
                let item: &[char] = items[i];
                proof {
                    let next = all.take(i + 1);
                    assert(next.drop_last() =~= all.take(i as int));
                    assert(next.last() == item@);
                    assert(out@ + Seq::<i32>::empty() =~= out@);
                }
                match split_once(item, '-') {
                    Some((a, b)) => {
                        match (parse_i32(a), parse_i32(b)) {
                            (Some(a), Some(b)) => push_range(&mut out, a, b),
                            _ => {},
                        }
                    },
                    None => {
                        match parse_i32(item) {
                            Some(a) => {
                                let ghost before = out@;
                                out.push(a);
                                assert(out@ =~= before + seq![a]);
                            },
                            None => {},
                        }
                    },
                }
                i += 1;
            }
            assert(all.take(i as int) =~= all);
        },
        None => {},
    }
    if out.len() > 0 {
        return out;
    }
    let top: i32 = if nproc > 1 {
        nproc - 1
    } else {
        0
    };
    assert(out@ + range_of(0, top as int) =~= range_of(0, top as int));
    push_range(&mut out, 0, top);
    out
}

// ------------------------------------------------------------------ thread identity

/// Field 22 (`starttime`) of a `/proc/<pid>/task/<tid>/stat` line: the 20th word after
/// the last `)`, since the command name before it may hold spaces and brackets. 0 where
/// the line is malformed.
pub open spec fn starttime_of(stat: Seq<char>) -> u64 {
    match after_last(stat, ')') {
        Some(rest) => {
            let fields = words_of(rest);
            if fields.len() > 19 {
                match unsigned_of(fields[19], 10, u64::MAX as nat) {
                    Some(n) => n as u64,
                    None => 0,
                }
            } else {
                0
            }
        },
        None => 0,
    }
}

/// With the thread id, the start time tells a thread from one that had its id before.
pub fn parse_starttime(stat: &str) -> (r: u64)
    ensures
        r == starttime_of(stat@),
{
    let v: Vec<char> = chars_of(stat);
    match rsplit(v.as_slice(), ')') {
        None => 0,
        Some(rest) => {
            let fields: Vec<&[char]> = words(rest);
            assert(texts(fields@).len() == fields@.len());
            if fields.len() > 19 {
                assert(texts(fields@)[19] == fields@[19]@);
                match parse_u64(fields[19]) {
                    Some(n) => n,
                    None => 0,
                }
            } else {
                0
            }
        },
    }
}

// ------------------------------------------------------------------ grouped reads

/// A scaled grouped read plus its multiplexing coverage.
pub struct GroupRead {
    pub vals: Vec<Double>,
    /// The fraction of the window, from 0 to 1, that the group was scheduled.
    pub coverage: Double,
}

/// What a [`GroupRead`] is.
#[verifier::ext_equal]
pub struct ReadModel {
    pub vals: Seq<Double>,
    pub coverage: Double,
}

impl View for GroupRead {
    type V = ReadModel;

    open spec fn view(&self) -> ReadModel {
        ReadModel { vals: self.vals@, coverage: self.coverage }
    }
}

/// What the words of a grouped read say of `n` events: the number of events, the time
/// enabled, the time running, and the counts. None where the record is torn or the
/// group never ran; otherwise the counts scaled by the share of time that it ran.
pub open spec fn group_read(words: Seq<u64>, n: nat) -> Option<ReadModel> {
    if words.len() != n + 3 || to_count(of_int(words[0] as int)) != n || words[1] == 0 || words[2]
        == 0 {
        None
    } else {
        let enabled = of_int(words[1] as int);
        let running = of_int(words[2] as int);
        let scale = quotient(enabled, running);
        Some(
            ReadModel {
                vals: Seq::new(n, |k: int| product(of_int(words[k + 3] as int), scale)),
                coverage: clamped(quotient(running, enabled), of_int(0), of_int(1)),
            },
        )
    }
}

/// What a read is, where it succeeded.
pub open spec fn read_of(r: Option<GroupRead>) -> Option<ReadModel> {
    match r {
        Some(r) => Some(r@),
        None => None,
    }
}

/// Reads `n` grouped values, scaled for multiplexing, from the words of the leader's
/// file.
pub fn read_values(words: &Vec<u64>, n: usize) -> (r: Option<GroupRead>)
    ensures
        read_of(r) == group_read(words@, n as nat),
{
    if words.len() < 3 || words.len() - 3 != n {
        return None;
    }
    // A count other than `n` means that a part of the record is still to be read.
    if Double::from_u64(words[0]).to_u64() != n as u64 || words[1] == 0 || words[2] == 0 {
        return None;
    }
    let enabled: Double = Double::from_u64(words[1]);
    let running: Double = Double::from_u64(words[2]);
    let scale: Double = enabled.over(running);
    let mut vals: Vec<Double> = Vec::new();
    let ghost want = Seq::new(n as nat, |k: int| product(of_int(words@[k + 3] as int), scale));
    let mut k: usize = 0;
    while k < n
        invariant
            k <= n,
            words.len() == n + 3,
            want == Seq::new(n as nat, |k: int| product(of_int(words@[k + 3] as int), scale)),
            vals@ == want.take(k as int),
        decreases n - k,
    {
        vals.push(Double::from_u64(words[k + 3]).times(scale));
        k += 1;
        assert(want.take(k as int) =~= want.take(k - 1).push(want[k - 1]));
    }
    assert(want.take(n as int) =~= want);
    let coverage: Double = running.over(enabled).clamp(Double::from_u64(0), Double::from_u64(1));
    Some(GroupRead { vals, coverage })
}

// ------------------------------------------------------------------ group state

/// One opened group.
pub struct GroupState {
    /// Last successful scaled read. Counters are cumulative, so the newest read
    /// supersedes the previous one; a thread that has since exited keeps it.
    pub last: Option<Vec<Double>>,
    /// Coverage of the last successful read, for diagnostics.
    pub coverage: Double,
    /// Set once a read fails after one that succeeded: the thread is gone.
    pub dead: bool,
}

/// What a [`GroupState`] is.
#[verifier::ext_equal]
pub struct GroupModel {
    pub last: Option<Seq<Double>>,
    pub coverage: Double,
    pub dead: bool,
}

pub open spec fn values_of(v: Option<Vec<Double>>) -> Option<Seq<Double>> {
    match v {
        Some(v) => Some(v@),
        None => None,
    }
}

impl View for GroupState {
    type V = GroupModel;

    open spec fn view(&self) -> GroupModel {
        GroupModel { last: values_of(self.last), coverage: self.coverage, dead: self.dead }
    }
}

/// A group that was just opened.
pub open spec fn fresh_group() -> GroupModel {
    GroupModel { last: None, coverage: of_int(0), dead: false }
}

/// The group after a poll. A successful read replaces the last one. A failed read marks
/// the group dead if it was read before; if it never was, it may not have been
/// scheduled yet, and is tried again.
pub open spec fn polled(g: GroupModel, r: Option<ReadModel>) -> GroupModel {
    if g.dead {
        g
    } else {
        match r {
            Some(r) => GroupModel { last: Some(r.vals), coverage: r.coverage, dead: false },
            None => GroupModel { dead: g.last is Some, ..g },
        }
    }
}

pub open spec fn slot_of(s: Option<GroupState>) -> Option<GroupModel> {
    match s {
        Some(g) => Some(g@),
        None => None,
    }
}

/// What the groups of one scope are.
pub open spec fn slots_of(v: Seq<Option<GroupState>>) -> Seq<Option<GroupModel>> {
    v.map_values(|s: Option<GroupState>| slot_of(s))
}

/// The total of event `j` of group `gi` over the scopes, each by its last read; none
/// where no scope was ever read.
pub open spec fn event_total(threads: Seq<Seq<Option<GroupModel>>>, gi: int, j: int) -> Option<
    Double,
>
    decreases threads.len(),
{
    if threads.len() == 0 {
        None
    } else {
        let before = event_total(threads.drop_last(), gi, j);
        match threads.last()[gi] {
            Some(g) => match g.last {
                Some(vals) => Some(
                    sum(
                        match before {
                            Some(x) => x,
                            None => of_int(0),
                        },
                        vals[j],
                    ),
                ),
                None => before,
            },
            None => before,
        }
    }
}

/// The totals of all events, group after group.
pub open spec fn totals(groups: Seq<Vec<EventCfg>>, threads: Seq<Seq<Option<GroupModel>>>, n: nat) -> Seq<
    Option<Double>,
>
    decreases n,
{
    if n == 0 {
        Seq::empty()
    } else {
        totals(groups, threads, (n - 1) as nat) + Seq::new(
            groups[n - 1]@.len(),
            |j: int| event_total(threads, n - 1, j),
        )
    }
}

/// The scopes that were not seen before, each once.
pub open spec fn unseen(seen: Seq<(i64, u64)>, scopes: Seq<(i64, u64)>) -> Seq<(i64, u64)>
    decreases scopes.len(),
{
    if scopes.len() == 0 {
        Seq::empty()
    } else {
        let before = unseen(seen, scopes.drop_last());
        if seen.contains(scopes.last()) || before.contains(scopes.last()) {
            before
        } else {
            before.push(scopes.last())
        }
    }
}

fn has_seen(seen: &Vec<(i64, u64)>, scope: (i64, u64)) -> (r: bool)
    ensures
        r == seen@.contains(scope),
{
    let mut i: usize = 0;
    while i < seen.len()
        invariant
            i <= seen.len(),
            forall|k: int| 0 <= k < i ==> seen@[k] != scope,
        decreases seen.len() - i,
    {
        if seen[i].0 == scope.0 && seen[i].1 == scope.1 {
            assert(seen@[i as int] == scope);
            return true;
        }
        i += 1;
    }
    false
}

/// Takes in scopes, and returns those that were not seen before.
pub(crate) fn take_in(seen: &mut Vec<(i64, u64)>, scopes: &Vec<(i64, u64)>) -> (r: Vec<(i64, u64)>)
    ensures
        r@ == unseen(old(seen)@, scopes@),
        final(seen)@ == old(seen)@ + r@,
{
    let mut new: Vec<(i64, u64)> = Vec::new();
    let mut i: usize = 0;
    assert(scopes@.take(0) =~= Seq::empty());
    while i < scopes.len()
        invariant
            i <= scopes.len(),
            new@ == unseen(seen@, scopes@.take(i as int)),
            seen@ == old(seen)@,
        decreases scopes.len() - i,
    {
        let scope: (i64, u64) = scopes[i];
        proof {
            let next = scopes@.take(i + 1);
            assert(next.drop_last() =~= scopes@.take(i as int));
            assert(next.last() == scope);
        }
        if !has_seen(seen, scope) && !has_seen(&new, scope) {
            new.push(scope);
        }
        i += 1;
    }
    assert(scopes@.take(i as int) =~= scopes@);
    let mut k: usize = 0;
    while k < new.len()
        invariant
            k <= new.len(),
            seen@ == old(seen)@ + new@.take(k as int),
        decreases new.len() - k,
    {
        seen.push(new[k]);
        k += 1;
        assert(new@.take(k as int) =~= new@.take(k - 1).push(new@[k - 1]));
        assert(seen@ =~= old(seen)@ + new@.take(k as int));
    }
    assert(new@.take(k as int) =~= new@);
    new
}

/// A set of counter groups replicated across every thread of a target, or every CPU.
pub struct ThreadGroups {
    pub groups: Vec<Vec<EventCfg>>,
    /// The scopes already opened. Threads are known by their id and start time, so a
    /// recycled id is a fresh thread; CPUs by their number and 0.
    pub seen: Vec<(i64, u64)>,
    /// Per scope: one group per entry of `groups`, none where it failed to open.
    pub threads: Vec<Vec<Option<GroupState>>>,
}

/// What the groups of all scopes are.
pub open spec fn threads_of(v: Seq<Vec<Option<GroupState>>>) -> Seq<Seq<Option<GroupModel>>> {
    v.map_values(|t: Vec<Option<GroupState>>| slots_of(t@))
}

/// Every read of a group has as many values as the group has events.
pub open spec fn fits(groups: Seq<Vec<EventCfg>>, thread: Seq<Option<GroupModel>>) -> bool {
    &&& thread.len() == groups.len()
    &&& forall|gi: int|
        0 <= gi < thread.len() ==> (#[trigger] thread[gi] matches Some(g) ==> (
        g.last matches Some(vals) ==> vals.len() == groups[gi]@.len()))
}

/// The groups of one scope after a poll.
pub open spec fn polled_thread(
    groups: Seq<Vec<EventCfg>>,
    thread: Seq<Option<GroupModel>>,
    reads: Seq<Option<Seq<u64>>>,
) -> Seq<Option<GroupModel>> {
    Seq::new(
        thread.len(),
        |gi: int|
            match thread[gi] {
                Some(g) => Some(
                    polled(
                        g,
                        match reads[gi] {
                            Some(words) => group_read(words, groups[gi]@.len()),
                            None => None,
                        },
                    ),
                ),
                None => None,
            },
    )
}

/// What was read of the groups of one scope, none where a read failed.
pub open spec fn words_of_reads(v: Seq<Option<Vec<u64>>>) -> Seq<Option<Seq<u64>>> {
    v.map_values(
        |r: Option<Vec<u64>>|
            match r {
                Some(w) => Some(w@),
                None => None,
            },
    )
}

pub(crate) fn copied(v: &Vec<Double>) -> (r: Vec<Double>)
    ensures
        r@ == v@,
{
    let mut out: Vec<Double> = Vec::new();
    let mut i: usize = 0;
    while i < v.len()
        invariant
            i <= v.len(),
            out@ == v@.take(i as int),
        decreases v.len() - i,
    {
        out.push(v[i]);
        i += 1;
    }
    assert(v@.take(i as int) =~= v@);
    out
}

impl GroupState {
    fn copy(&self) -> (r: GroupState)
        ensures
            r@ == self@,
    {
        let last: Option<Vec<Double>> = match &self.last {
            Some(v) => Some(copied(v)),
            None => None,
        };
        GroupState { last, coverage: self.coverage, dead: self.dead }
    }

    /// The group after a poll.
    pub fn poll(&self, r: Option<GroupRead>) -> (g: GroupState)
        ensures
            g@ == polled(self@, read_of(r)),
    {
        if self.dead {
            return self.copy();
        }
        match r {
            Some(r) => GroupState { last: Some(r.vals), coverage: r.coverage, dead: false },
            None => {
                let mut g: GroupState = self.copy();
                g.dead = g.last.is_some();
                g
            },
        }
    }
}

impl ThreadGroups {
    pub open spec fn wf(&self) -> bool {
        forall|t: int|
            0 <= t < self.threads@.len() ==> fits(
                self.groups@,
                slots_of(#[trigger] self.threads@[t]@),
            )
    }

    pub fn new(groups: Vec<Vec<EventCfg>>) -> (r: ThreadGroups)
        ensures
            r.wf(),
            r.groups == groups,
            r.seen@.len() == 0,
            r.threads@.len() == 0,
    {
        ThreadGroups { groups, seen: Vec::new(), threads: Vec::new() }
    }

    /// True if any events are configured at all.
    pub fn configured(&self) -> (r: bool)
        ensures
            r == exists|i: int|
                0 <= i < self.groups@.len() && (#[trigger] self.groups@[i])@.len() > 0,
    {
        let mut i: usize = 0;
        while i < self.groups.len()
            invariant
                i <= self.groups.len(),
                forall|k: int| 0 <= k < i ==> (#[trigger] self.groups@[k])@.len() == 0,
            decreases self.groups.len() - i,
        {
            if self.groups[i].len() > 0 {
                assert(self.groups@[i as int]@.len() > 0);
                return true;
            }
            i += 1;
        }
        false
    }

    /// Takes in the scopes that exist now, and returns those on which the groups are
    /// still to be opened.
    pub fn discover(&mut self, scopes: &Vec<(i64, u64)>) -> (r: Vec<(i64, u64)>)
        requires
            old(self).wf(),
        ensures
            r@ == unseen(old(self).seen@, scopes@),
            final(self).seen@ == old(self).seen@ + r@,
            final(self).groups == old(self).groups,
            final(self).threads == old(self).threads,
            final(self).wf(),
    {
        take_in(&mut self.seen, scopes)
    }

    /// Adds the groups of one scope; `opened` says which of them opened.
    pub fn attach(&mut self, opened: &Vec<bool>)
        requires
            old(self).wf(),
            opened@.len() == old(self).groups@.len(),
        ensures
            final(self).wf(),
            final(self).groups == old(self).groups,
            final(self).seen == old(self).seen,
            threads_of(final(self).threads@) == threads_of(old(self).threads@).push(
                Seq::new(
                    opened@.len(),
                    |gi: int|
                        if opened@[gi] {
                            Some(fresh_group())
                        } else {
                            None
                        },
                ),
            ),
    {
        let mut thread: Vec<Option<GroupState>> = Vec::new();
        let ghost want = Seq::new(
            opened@.len(),
            |gi: int|
                if opened@[gi] {
                    Some(fresh_group())
                } else {
                    None
                },
        );
        let mut i: usize = 0;
        while i < opened.len()
            invariant
                i <= opened.len(),
                thread@.len() == i,
                want.len() == opened@.len(),
                forall|k: int|
                    0 <= k < want.len() ==> #[trigger] want[k] == if opened@[k] {
                        Some(fresh_group())
                    } else {
                        None
                    },
                forall|k: int| 0 <= k < i ==> slot_of(#[trigger] thread@[k]) == want[k],
            decreases opened.len() - i,
        {
            if opened[i] {
                let g: GroupState = GroupState {
                    last: None,
                    coverage: Double::from_u64(0),
                    dead: false,
                };
                assert(g@ == fresh_group());
                thread.push(Some(g));
            } else {
                thread.push(None);
            }
            i += 1;
        }
        assert(slots_of(thread@) =~= want);
        let ghost before = self.threads@;
        self.threads.push(thread);
        assert(threads_of(self.threads@) =~= threads_of(before).push(want));
        proof {
            assert forall|t: int| 0 <= t < self.threads@.len() implies fits(
                self.groups@,
                slots_of(#[trigger] self.threads@[t]@),
            ) by {
                if t < before.len() {
                    assert(self.threads@[t] == before[t]);
                }
            }
        }
    }

    fn poll_thread(&self, t: usize, reads: &Vec<Option<Vec<u64>>>) -> (r: Vec<Option<GroupState>>)
        requires
            self.wf(),
            t < self.threads@.len(),
            reads@.len() == self.groups@.len(),
        ensures
            slots_of(r@) == polled_thread(
                self.groups@,
                slots_of(self.threads@[t as int]@),
                words_of_reads(reads@),
            ),
            fits(self.groups@, slots_of(r@)),
    {
        let thread: &Vec<Option<GroupState>> = &self.threads[t];
        let mut out: Vec<Option<GroupState>> = Vec::new();
        let ghost want = polled_thread(self.groups@, slots_of(thread@), words_of_reads(reads@));
        let mut gi: usize = 0;
        assert(fits(self.groups@, slots_of(self.threads@[t as int]@)));
        while gi < thread.len()
            invariant
                gi <= thread.len(),
                thread@ == self.threads@[t as int]@,
                fits(self.groups@, slots_of(thread@)),
                reads@.len() == self.groups@.len(),
                want == polled_thread(self.groups@, slots_of(thread@), words_of_reads(reads@)),
                out@.len() == gi,
                forall|k: int| 0 <= k < gi ==> slot_of(#[trigger] out@[k]) == want[k],
            decreases thread.len() - gi,
        {
            assert(slots_of(thread@)[gi as int] == slot_of(thread@[gi as int]));
            assert(words_of_reads(reads@)[gi as int] == match reads@[gi as int] {
                Some(w) => Some(w@),
                None => None,
            });
            match &thread[gi] {
                None => {
                    out.push(None);
                },
                Some(g) => {
                    let read: Option<GroupRead> = match &reads[gi] {
                        Some(words) => read_values(words, self.groups[gi].len()),
                        None => None,
                    };
                    out.push(Some(g.poll(read)));
                },
            }
            gi += 1;
        }
        assert(slots_of(out@) =~= want);
        proof {
            assert forall|k: int| 0 <= k < want.len() implies (#[trigger] want[k] matches Some(g)
                ==> (g.last matches Some(vals) ==> vals.len() == self.groups@[k]@.len())) by {
                assert(slots_of(thread@)[k] matches Some(g) ==> (g.last matches Some(vals)
                    ==> vals.len() == self.groups@[k]@.len()));
            }
        }
        out
    }

    /// Refreshes each live group's last read. `reads` holds, for each group of each
    /// scope, the words that were read from it, none where the read failed.
    pub fn poll(&mut self, reads: &Vec<Vec<Option<Vec<u64>>>>)
        requires
            old(self).wf(),
            reads@.len() == old(self).threads@.len(),
            forall|t: int|
                0 <= t < reads@.len() ==> (#[trigger] reads@[t])@.len() == old(
                    self,
                ).groups@.len(),
        ensures
            final(self).wf(),
            final(self).groups == old(self).groups,
            final(self).seen == old(self).seen,
            threads_of(final(self).threads@) == Seq::new(
                old(self).threads@.len(),
                |t: int|
                    polled_thread(
                        old(self).groups@,
                        slots_of(old(self).threads@[t]@),
                        words_of_reads(reads@[t]@),
                    ),
            ),
    {
        let mut out: Vec<Vec<Option<GroupState>>> = Vec::new();
        let mut t: usize = 0;
        while t < self.threads.len()
            invariant
                t <= self.threads.len(),
                self == old(self),
                self.wf(),
                reads@.len() == self.threads@.len(),
                forall|t: int|
                    0 <= t < reads@.len() ==> (#[trigger] reads@[t])@.len() == self.groups@.len(),
                out@.len() == t,
                forall|k: int|
                    0 <= k < t ==> slots_of(#[trigger] out@[k]@) == polled_thread(
                        self.groups@,
                        slots_of(self.threads@[k]@),
                        words_of_reads(reads@[k]@),
                    ) && fits(self.groups@, slots_of(out@[k]@)),
            decreases self.threads.len() - t,
        {
            let thread: Vec<Option<GroupState>> = self.poll_thread(t, &reads[t]);
            out.push(thread);
            t += 1;
        }
        let ghost want = Seq::new(
            old(self).threads@.len(),
            |t: int|
                polled_thread(
                    old(self).groups@,
                    slots_of(old(self).threads@[t]@),
                    words_of_reads(reads@[t]@),
                ),
        );
        assert(threads_of(out@) =~= want);
        self.threads = out;
    }

    fn total(&self, gi: usize, j: usize) -> (r: Option<Double>)
        requires
            self.wf(),
            gi < self.groups@.len(),
            j < self.groups@[gi as int]@.len(),
        ensures
            r == event_total(threads_of(self.threads@), gi as int, j as int),
    {
        let mut acc: Option<Double> = None;
        let mut t: usize = 0;
        let ghost all = threads_of(self.threads@);
        assert(all.take(0) =~= Seq::empty());
        while t < self.threads.len()
            invariant
                t <= self.threads.len(),
                self.wf(),
                all == threads_of(self.threads@),
                gi < self.groups@.len(),
                j < self.groups@[gi as int]@.len(),
                acc == event_total(all.take(t as int), gi as int, j as int),
            decreases self.threads.len() - t,
        {
            let thread: &Vec<Option<GroupState>> = &self.threads[t];
            proof {
                let next = all.take(t + 1);
                assert(next.drop_last() =~= all.take(t as int));
                assert(next.last() == slots_of(thread@));
                assert(fits(self.groups@, slots_of(self.threads@[t as int]@)));
                assert(slots_of(thread@)[gi as int] == slot_of(thread@[gi as int]));
            }
            match &thread[gi] {
                None => {},
                Some(g) => {
                    match &g.last {
                        None => {},
                        Some(vals) => {
                            let so_far: Double = match acc {
                                Some(x) => x,
                                None => Double::from_u64(0),
                            };
                            acc = Some(so_far.plus(vals[j]));
                        },
                    }
                },
            }
            t += 1;
        }
        assert(all.take(t as int) =~= all);
        acc
    }

    /// Per-event totals summed across all scopes, flattened across groups. Each group
    /// counts with its most recent successful read, so threads that have already exited
    /// still count. `None` for any event that no scope ever read.
    pub fn read_sums(&self) -> (r: Vec<Option<Double>>)
        requires
            self.wf(),
        ensures
            r@ == totals(self.groups@, threads_of(self.threads@), self.groups@.len()),
    {
        let mut out: Vec<Option<Double>> = Vec::new();
        let ghost all = threads_of(self.threads@);
        let mut gi: usize = 0;
        while gi < self.groups.len()
            invariant
                gi <= self.groups.len(),
                self.wf(),
                all == threads_of(self.threads@),
                out@ == totals(self.groups@, all, gi as nat),
            decreases self.groups.len() - gi,
        {
            let n: usize = self.groups[gi].len();
            let ghost before = out@;
            let ghost more = Seq::new(n as nat, |j: int| event_total(all, gi as int, j));
            let mut j: usize = 0;
            assert(before + more.take(0) =~= before);
            while j < n
                invariant
                    j <= n,
                    gi < self.groups.len(),
                    n == self.groups@[gi as int]@.len(),
                    self.wf(),
                    all == threads_of(self.threads@),
                    more == Seq::new(n as nat, |j: int| event_total(all, gi as int, j)),
                    out@ == before + more.take(j as int),
                decreases n - j,
            {
                out.push(self.total(gi, j));
                j += 1;
                assert(more.take(j as int) =~= more.take(j - 1).push(more[j - 1]));
                assert(out@ =~= before + more.take(j as int));
            }
            assert(more.take(n as int) =~= more);
            gi += 1;
        }
        out
    }
}

// ------------------------------------------------------------------ laws

/// A thread that exits keeps its last read: a failed read changes no value, and a group
/// found dead never changes again.
pub proof fn law_exited_threads_still_count(g: GroupModel, r: Option<ReadModel>)
    ensures
        polled(g, None).last == g.last,
        g.dead ==> polled(g, r) == g,
        g.last is Some ==> polled(g, None).dead,
        g.last is None && !g.dead ==> polled(g, None) == g,
{
}

/// A scope is opened once: what was discovered is not discovered again.
pub proof fn law_scopes_open_once(seen: Seq<(i64, u64)>, scopes: Seq<(i64, u64)>)
    ensures
        unseen(seen + unseen(seen, scopes), scopes) == Seq::<(i64, u64)>::empty(),
{
    assert(scopes.take(scopes.len() as int) =~= scopes);
    lemma_all_seen(seen + unseen(seen, scopes), seen, scopes, scopes);
}

proof fn lemma_unseen_covers(seen: Seq<(i64, u64)>, scopes: Seq<(i64, u64)>, i: int)
    requires
        0 <= i < scopes.len(),
    ensures
        seen.contains(scopes[i]) || unseen(seen, scopes).contains(scopes[i]),
    decreases scopes.len(),
{
    let before = unseen(seen, scopes.drop_last());
    if i < scopes.len() - 1 {
        lemma_unseen_covers(seen, scopes.drop_last(), i);
        if before.contains(scopes[i]) {
            let k = choose|k: int| 0 <= k < before.len() && before[k] == scopes[i];
            assert(unseen(seen, scopes)[k] == scopes[i]);
        }
    } else if !(seen.contains(scopes.last()) || before.contains(scopes.last())) {
        assert(unseen(seen, scopes)[before.len() as int] == scopes.last());
    }
}

proof fn lemma_all_seen(
    known: Seq<(i64, u64)>,
    seen: Seq<(i64, u64)>,
    whole: Seq<(i64, u64)>,
    part: Seq<(i64, u64)>,
)
    requires
        known == seen + unseen(seen, whole),
        part.len() <= whole.len(),
        part == whole.take(part.len() as int),
    ensures
        unseen(known, part) == Seq::<(i64, u64)>::empty(),
    decreases part.len(),
{
    if part.len() > 0 {
        let n = part.len() - 1;
        assert(part.drop_last() =~= whole.take(n));
        lemma_all_seen(known, seen, whole, part.drop_last());
        lemma_unseen_covers(seen, whole, n);
        let x = whole[n];
        let new = unseen(seen, whole);
        if seen.contains(x) {
            let k = choose|k: int| 0 <= k < seen.len() && seen[k] == x;
            assert(known[k] == x);
        } else {
            let k = choose|k: int| 0 <= k < new.len() && new[k] == x;
            assert(known[seen.len() + k] == x);
        }
    }
}

/// The coverage of a read is between 0 and 1.
pub proof fn law_coverage_is_a_fraction(words: Seq<u64>, n: nat)
    requires
        group_read(words, n) is Some,
    ensures
        at_most(of_int(0), group_read(words, n)->0.coverage),
        at_most(group_read(words, n)->0.coverage, of_int(1)),
{
    let enabled = of_int(words[1] as int);
    let running = of_int(words[2] as int);
    crate::double::lemma_count_positive(words[1] as nat);
    crate::double::lemma_count_positive(words[2] as nat);
    crate::double::lemma_held(quotient(running, enabled), 1);
}

/// A read of a live group replaces the one before; the group stays alive.
pub proof fn law_a_read_replaces_the_last(g: GroupModel, r: ReadModel)
    requires
        !g.dead,
    ensures
        polled(g, Some(r)).last == Some(r.vals),
        polled(g, Some(r)).coverage == r.coverage,
        !polled(g, Some(r)).dead,
        polled(fresh_group(), Some(r)).last == Some(r.vals),
        fresh_group().last is None,
{
}

/// What is discovered is every scope that was not seen, and nothing else, each once.
pub proof fn law_new_scopes_are_discovered(
    seen: Seq<(i64, u64)>,
    scopes: Seq<(i64, u64)>,
    x: (i64, u64),
)
    ensures
        unseen(seen, scopes).contains(x) <==> scopes.contains(x) && !seen.contains(x),
        unseen(seen, scopes).no_duplicates(),
    decreases scopes.len(),
{
    if scopes.len() > 0 {
        let head = scopes.drop_last();
        let last = scopes.last();
        let before = unseen(seen, head);
        law_new_scopes_are_discovered(seen, head, x);
        law_new_scopes_are_discovered(seen, head, last);
        let now = unseen(seen, scopes);
        if scopes.contains(x) {
            let i = choose|i: int| 0 <= i < scopes.len() && scopes[i] == x;
            if i < head.len() {
                assert(head[i] == x);
            }
        }
        if head.contains(x) {
            let i = choose|i: int| 0 <= i < head.len() && head[i] == x;
            assert(scopes[i] == x);
        }
        assert(scopes[scopes.len() - 1] == last);
        if !(seen.contains(last) || before.contains(last)) {
            assert(now == before.push(last));
            assert(now[before.len() as int] == last);
            if before.contains(x) {
                let i = choose|i: int| 0 <= i < before.len() && before[i] == x;
                assert(now[i] == x);
            }
            if now.contains(x) && x != last {
                let i = choose|i: int| 0 <= i < now.len() && now[i] == x;
                assert(before[i] == x);
            }
            assert forall|i: int, j: int|
                0 <= i < now.len() && 0 <= j < now.len() && i != j implies now[i] != now[j] by {
                if i < before.len() && j < before.len() {
                    assert(before[i] != before[j]);
                } else if i < before.len() {
                    assert(before.contains(before[i]));
                } else if j < before.len() {
                    assert(before.contains(before[j]));
                }
            }
        }
    }
}

} // verus!
