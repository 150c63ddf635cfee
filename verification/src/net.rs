//! A per-rank rendezvous over a stream, for jobs without a shared filesystem.
//!
//! The launching node listens; each rank connects and sends its snapshot in one frame:
//! the rank and the length as 32-bit little-endian numbers, and the bytes. A rank that
//! cannot connect does not report, and the count of ranks flags it.

use crate::decimal::{dec, decimal};
use crate::env::{var, Environment};
use crate::text::{chars_of, string_of, text_of, trim, trimmed};
use vstd::prelude::*;

verus! {

/// The largest snapshot that is taken in: 64 MiB.
pub const MAX_BODY: u32 = 67108864;

/// How often a rank tries to connect.
pub const CONNECT_TRIES: u32 = 40;

/// Nanoseconds without a connection, after the job has ended, that end the collection.
pub const DRAIN_NANOS: u64 = 750000000;

// ------------------------------------------------------------------ frames

/// The bytes of a number, the lowest first.
pub open spec fn bytes_of(n: u32) -> Seq<u8> {
    seq![
        (n % 256) as u8,
        (n / 256 % 256) as u8,
        (n / 65536 % 256) as u8,
        (n / 16777216 % 256) as u8,
    ]
}

/// The number that four bytes give, the lowest first.
pub open spec fn number_in(b: Seq<u8>) -> u32 {
    (b[0] + 256 * b[1] + 65536 * b[2] + 16777216 * b[3]) as u32
}

/// The frame of a rank's snapshot.
pub open spec fn frame(rank: u32, body: Seq<u8>) -> Seq<u8> {
    bytes_of(rank) + bytes_of(body.len() as u32) + body
}

fn push_number(out: &mut Vec<u8>, n: u32)
    ensures
        final(out)@ == old(out)@ + bytes_of(n),
{
    let ghost before = out@;
    out.push((n % 256) as u8);
    out.push((n / 256 % 256) as u8);
    out.push((n / 65536 % 256) as u8);
    out.push((n / 16777216 % 256) as u8);
    assert(out@ =~= before + bytes_of(n));
}

/// The frame of a rank's snapshot. A rank or a length beyond 32 bits is cut to its lowest
/// 32 bits.
pub fn encode_frame(rank: i64, body: &Vec<u8>) -> (r: Vec<u8>)
    ensures
        r@ == frame(rank as u32, body@),
{
    let mut out: Vec<u8> = Vec::new();
    push_number(&mut out, rank as u32);
    push_number(&mut out, body.len() as u32);
    let ghost head = out@;
    let mut i: usize = 0;
    assert(body@.take(0) =~= Seq::empty());
    while i < body.len()
        invariant
            i <= body.len(),
            out@ == head + body@.take(i as int),
        decreases body.len() - i,
    {
        out.push(body[i]);
        i += 1;
        assert(body@.take(i as int) =~= body@.take(i - 1).push(body@[i - 1]));
        assert(out@ =~= head + body@.take(i as int));
    }
    assert(body@.take(i as int) =~= body@);
    assert(head =~= bytes_of(rank as u32) + bytes_of(body@.len() as u32));
    out
}

/// The rank and the length that a header gives; none where the length is 0 or too large.
pub open spec fn header_of(h: Seq<u8>) -> Option<(u32, u32)> {
    let len = number_in(h.skip(4));
    if len == 0 || len > MAX_BODY {
        None
    } else {
        Some((number_in(h), len))
    }
}

fn number_at(h: &Vec<u8>, at: usize) -> (r: u32)
    requires
        at <= 4,
        h@.len() == 8,
    ensures
        r == number_in(h@.skip(at as int)),
{
    h[at] as u32 + 256 * (h[at + 1] as u32) + 65536 * (h[at + 2] as u32) + 16777216 * (h[at
        + 3] as u32)
}

/// The rank and the length that a header of eight bytes gives.
pub fn decode_header(h: &Vec<u8>) -> (r: Option<(u32, u32)>)
    requires
        h@.len() == 8,
    ensures
        r == header_of(h@),
{
    assert(h@.skip(0) =~= h@);
    let rank: u32 = number_at(h, 0);
    let len: u32 = number_at(h, 4);
    if len == 0 || len > MAX_BODY {
        None
    } else {
        Some((rank, len))
    }
}

// ------------------------------------------------------------------ connecting

/// Whether a rank that failed to connect `tried` times tries again.
pub fn tries_again(tried: u32) -> (r: bool)
    ensures
        r == (tried < CONNECT_TRIES),
        r <==> tried < 40,
{
    tried < CONNECT_TRIES
}

/// The name under which ranks reach the launching node: the one that is set, else the
/// kernel's.
pub open spec fn collector_name(
    set: Option<Seq<char>>,
    kernel: Option<Seq<char>>,
) -> Seq<char> {
    match set {
        Some(h) => h,
        None => match kernel {
            Some(k) => trimmed(k),
            None => Seq::empty(),
        },
    }
}

/// The name under which ranks reach the launching node, from `UAPS_COLLECT_HOST` and the
/// text of the kernel's `hostname` file.
pub fn collector_host(env: &Environment, kernel: Option<&str>) -> (r: String)
    ensures
        r@ == collector_name(var(env@, "UAPS_COLLECT_HOST"@), text_of(kernel)),
{
    match env.get("UAPS_COLLECT_HOST") {
        Some(h) => h.clone(),
        None => match kernel {
            Some(k) => {
                let v: Vec<char> = chars_of(k);
                string_of(trim(v.as_slice()))
            },
            None => {
                let none: String = String::new();
                assert(none@ =~= Seq::empty());
                none
            },
        },
    }
}

/// The address that ranks are given: the host's where its name resolves, else loopback.
pub open spec fn address(host: Seq<char>, port: u16, resolves: bool) -> Seq<char> {
    (if host.len() > 0 && resolves {
        host
    } else {
        "127.0.0.1"@
    }) + ":"@ + dec(port as nat)
}

/// The address that ranks are given.
pub fn collector_address(host: &str, port: u16, resolves: bool) -> (r: String)
    ensures
        r@ == address(host@, port, resolves),
{
    let v: Vec<char> = chars_of(host);
    let mut out: String = if v.len() > 0 && resolves {
        host.to_string()
    } else {
        "127.0.0.1".to_string()
    };
    out.append(":");
    out.append(decimal(port as u64).as_str());
    out
}

// ------------------------------------------------------------------ collecting

/// What happens while ranks are collected.
#[derive(Clone, Copy, Debug, PartialEq, Eq, Structural)]
pub enum Event {
    /// A rank connected; whether its snapshot was taken in.
    Connected { taken: bool },
    /// No rank is waiting, at a time in nanoseconds; whether the job has ended.
    Quiet { stopped: bool, now: u64 },
    /// The listener failed.
    Failed,
}

/// What is done next.
#[derive(Clone, Copy, Debug, PartialEq, Eq, Structural)]
pub enum Action {
    /// Look for a rank at once.
    Accept,
    /// Look again after a pause.
    Pause,
    /// The collection is over.
    Stop,
}

/// The collection of ranks: how many were taken in, and when the wait for stragglers
/// ends.
#[derive(Clone, Copy, Debug, PartialEq, Eq, Structural)]
pub struct Gathering {
    pub received: u64,
    pub drain_until: Option<u64>,
}

/// When the wait for stragglers ends, if it has begun.
pub open spec fn deadline(g: Gathering, now: u64) -> u64 {
    match g.drain_until {
        Some(t) => t,
        None => (now + DRAIN_NANOS) as u64,
    }
}

/// One step of the collection. Activity begins the wait for stragglers anew.
pub open spec fn stepped(g: Gathering, e: Event) -> (Gathering, Action) {
    match e {
        Event::Connected { taken } => (
            Gathering {
                received: if taken {
                    (g.received + 1) as u64
                } else {
                    g.received
                },
                drain_until: None,
            },
            Action::Accept,
        ),
        Event::Quiet { stopped, now } => if !stopped {
            (g, Action::Pause)
        } else {
            (
                Gathering { drain_until: Some(deadline(g, now)), ..g },
                if now >= deadline(g, now) {
                    Action::Stop
                } else {
                    Action::Pause
                },
            )
        },
        Event::Failed => (g, Action::Stop),
    }
}

impl Gathering {
    pub fn new() -> (r: Gathering)
        ensures
            r == (Gathering { received: 0, drain_until: None }),
    {
        Gathering { received: 0, drain_until: None }
    }

    /// One step of the collection.
    pub fn step(&mut self, e: Event) -> (r: Action)
        requires
            old(self).received < u64::MAX,
            e matches Event::Quiet { now, .. } ==> now <= u64::MAX - DRAIN_NANOS,
        ensures
            (*final(self), r) == stepped(*old(self), e),
    {
        match e {
            Event::Connected { taken } => {
                if taken {
                    self.received = self.received + 1;
                }
                self.drain_until = None;
                Action::Accept
            },
            Event::Quiet { stopped, now } => {
                if !stopped {
                    return Action::Pause;
                }
                let until: u64 = match self.drain_until {
                    Some(t) => t,
                    None => now + DRAIN_NANOS,
                };
                self.drain_until = Some(until);
                if now >= until {
                    Action::Stop
                } else {
                    Action::Pause
                }
            },
            Event::Failed => Action::Stop,
        }
    }
}

// ------------------------------------------------------------------ laws

proof fn lemma_number(n: u32)
    ensures
        number_in(bytes_of(n)) == n,
{
    let b = bytes_of(n);
    assert(b[0] == n % 256 && b[1] == n / 256 % 256);
    assert(b[2] == n / 65536 % 256 && b[3] == n / 16777216 % 256);
    assert(n == n % 256 + 256 * (n / 256 % 256) + 65536 * (n / 65536 % 256) + 16777216 * (n
        / 16777216 % 256)) by (bit_vector);
}

/// The header of a frame gives back the rank and the length, and the body follows it,
/// for every snapshot that is taken in.
pub proof fn law_frame_reads_back(rank: u32, body: Seq<u8>)
    requires
        0 < body.len() <= MAX_BODY,
    ensures
        frame(rank, body).len() == body.len() + 8,
        header_of(frame(rank, body).take(8)) == Some((rank, body.len() as u32)),
        frame(rank, body).skip(8) == body,
{
    let f = frame(rank, body);
    let h = f.take(8);
    let n = body.len() as u32;
    lemma_number(rank);
    lemma_number(n);
    assert(h.skip(4) =~= bytes_of(n));
    assert(h[0] == bytes_of(rank)[0] && h[1] == bytes_of(rank)[1]);
    assert(h[2] == bytes_of(rank)[2] && h[3] == bytes_of(rank)[3]);
    assert(f.skip(8) =~= body);
}

/// The collection does not stop while the job runs, nor before the wait for stragglers
/// is over, unless the listener fails.
pub proof fn law_stragglers_are_waited_for(g: Gathering, e: Event)
    requires
        e matches Event::Quiet { now, .. } ==> now <= u64::MAX - DRAIN_NANOS,
    ensures
        stepped(g, e).1 is Stop ==> e is Failed || (e matches Event::Quiet { stopped, now }
            && stopped && g.drain_until is Some && now >= g.drain_until->0),
        stepped(g, e).0.received >= g.received || g.received == u64::MAX,
{
}

} // verus!
