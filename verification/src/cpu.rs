//! CPU identification: which vendor's events to count, and which model's data to load.

use crate::decimal::{dec, decimal, fill, filled, hexadecimal, numeral};
use crate::pattern::{found_in, has_match, is_pattern};
use crate::text::{
    begins, chars_of, contains, halves, is, lines, lines_of, occurs, parse_hex, parse_u32,
    parse_u64, pieces, replace, replaced, split, split_once, string_of, strings, strip_prefix,
    texts, trim, trimmed, unsigned_of,
};
use vstd::prelude::*;

verus! {

#[derive(Debug, Clone, Copy, PartialEq, Eq, Structural)]
pub enum Vendor {
    Amd,
    Intel,
    Arm,
    Other,
}

#[derive(Debug, Clone, Copy, PartialEq, Eq, Structural)]
pub struct CpuInfo {
    pub vendor: Vendor,
    pub family: u32,
    pub model: u32,
}

// ------------------------------------------------------------------ vendor, family, model

/// The number in a field, 0 where it holds none.
pub open spec fn number_or_zero(s: Seq<char>) -> u32 {
    match unsigned_of(trimmed(s), 10, u32::MAX as nat) {
        Some(n) => n as u32,
        None => 0,
    }
}

pub open spec fn vendor_named(s: Seq<char>) -> Vendor {
    if trimmed(s) == "AuthenticAMD"@ {
        Vendor::Amd
    } else if trimmed(s) == "GenuineIntel"@ {
        Vendor::Intel
    } else {
        Vendor::Other
    }
}

/// What the lines of `/proc/cpuinfo` add to `info`. A blank line, or one without a key,
/// ends the first processor's block, once the vendor is known.
pub open spec fn identified(lines: Seq<Seq<char>>, info: CpuInfo) -> CpuInfo
    decreases lines.len(),
{
    if lines.len() == 0 {
        info
    } else {
        let rest = lines.skip(1);
        match halves(lines[0], ':') {
            None => if trimmed(lines[0]).len() == 0 && info.vendor != Vendor::Other {
                info
            } else {
                identified(rest, info)
            },
            Some((k, val)) => {
                let key = trimmed(k);
                if key == "vendor_id"@ {
                    identified(rest, CpuInfo { vendor: vendor_named(val), ..info })
                } else if key == "cpu family"@ {
                    identified(rest, CpuInfo { family: number_or_zero(val), ..info })
                } else if key == "model"@ {
                    identified(rest, CpuInfo { model: number_or_zero(val), ..info })
                } else if key == "CPU implementer"@ && info.vendor == Vendor::Other {
                    identified(rest, CpuInfo { vendor: Vendor::Arm, ..info })
                } else if key == ""@ && info.vendor != Vendor::Other {
                    info
                } else {
                    identified(rest, info)
                }
            },
        }
    }
}

fn read_number(s: &[char]) -> (r: u32)
    ensures
        r == number_or_zero(s@),
{
    match parse_u32(trim(s)) {
        Some(n) => n,
        None => 0,
    }
}

/// Read vendor, family and model from the text of `/proc/cpuinfo` (first processor
/// block; all cores are identical on the machines that are measured).
pub fn detect(cpuinfo: &str) -> (r: CpuInfo)
    ensures
        r == identified(
            lines_of(cpuinfo@),
            CpuInfo { vendor: Vendor::Other, family: 0, model: 0 },
        ),
{
    let v: Vec<char> = chars_of(cpuinfo);
    let all: Vec<&[char]> = lines(v.as_slice());
    let ghost start = CpuInfo { vendor: Vendor::Other, family: 0, model: 0 };
    let ghost lines = texts(all@);
    let mut info: CpuInfo = CpuInfo { vendor: Vendor::Other, family: 0, model: 0 };
    let mut i: usize = 0;
    assert(lines.skip(0) =~= lines);
    while i < all.len()
        invariant
            i <= all.len(),
            lines == texts(all@),
            lines == lines_of(cpuinfo@),
            start == (CpuInfo { vendor: Vendor::Other, family: 0, model: 0 }),
            identified(lines, start) == identified(lines.skip(i as int), info),
        decreases all.len() - i,
    {
        let line: &[char] = all[i];
        assert(lines.skip(i as int)[0] == line@);
        assert(lines.skip(i as int).skip(1) =~= lines.skip(i + 1));
        match split_once(line, ':') {
            None => {
                if trim(line).len() == 0 && info.vendor != Vendor::Other {
                    return info;
                }
            },
            Some((k, val)) => {
                let key: &[char] = trim(k);
                if is(key, "vendor_id") {
                    let name: &[char] = trim(val);
                    info.vendor = if is(name, "AuthenticAMD") {
                        Vendor::Amd
                    } else if is(name, "GenuineIntel") {
                        Vendor::Intel
                    } else {
                        Vendor::Other
                    };
                } else if is(key, "cpu family") {
                    info.family = read_number(val);
                } else if is(key, "model") {
                    info.model = read_number(val);
                } else if is(key, "CPU implementer") && info.vendor == Vendor::Other {
                    info.vendor = Vendor::Arm;
                } else if is(key, "") && info.vendor != Vendor::Other {
                    return info;
                }
            },
        }
        i += 1;
    }
    info
}

// ------------------------------------------------------------------ the identifier of a model

/// How perf's tables know a CPU: the architecture's directory, and the strings that a
/// row of its map may match.
pub struct CpuId {
    pub arch: &'static str,
    pub keys: Vec<String>,
}

/// The value of the first line with this key; none where there is no such line, or no
/// value in it.
pub open spec fn field_in(lines: Seq<Seq<char>>, name: Seq<char>) -> Option<Seq<char>>
    decreases lines.len(),
{
    if lines.len() == 0 {
        None
    } else {
        let parts = pieces(lines[0], ':');
        if parts.len() > 0 && trimmed(parts[0]) == name {
            if parts.len() > 1 {
                Some(trimmed(parts[1]))
            } else {
                None
            }
        } else {
            field_in(lines.skip(1), name)
        }
    }
}

/// The text without any `0x` before it.
pub open spec fn without_prefix(s: Seq<char>) -> Seq<char>
    decreases s.len(),
{
    if begins(s, "0x"@) && "0x"@.len() == 2 {
        without_prefix(s.skip(2))
    } else {
        s
    }
}

pub open spec fn hex_field(lines: Seq<Seq<char>>, name: Seq<char>) -> Option<nat> {
    match field_in(lines, name) {
        Some(s) => unsigned_of(without_prefix(s), 16, u64::MAX as nat),
        None => None,
    }
}

pub open spec fn or_none(x: Option<nat>) -> u64 {
    match x {
        Some(n) => n as u64,
        None => 0,
    }
}

pub open spec fn decimal_field(lines: Seq<Seq<char>>, name: Seq<char>, max: nat) -> Option<nat> {
    match field_in(lines, name) {
        Some(s) => unsigned_of(s, 10, max),
        None => None,
    }
}

/// The identification register of an ARM core: implementer, variant, architecture 15,
/// part number and revision.
pub open spec fn midr(imp: u64, var: u64, part: u64, rev: u64) -> u64 {
    (imp << 24u64) | (var << 20u64) | (0xfu64 << 16u64) | (part << 4u64) | rev
}

/// The architecture and the keys of a CPU: `vendor-family-model[-stepping]` with the
/// model and the stepping in hexadecimal, or the ARM identification register.
pub open spec fn cpuid_of(lines: Seq<Seq<char>>) -> Option<(Seq<char>, Seq<Seq<char>>)> {
    match field_in(lines, "vendor_id"@) {
        Some(vendor) => match (
            decimal_field(lines, "cpu family"@, u32::MAX as nat),
            decimal_field(lines, "model"@, u32::MAX as nat),
        ) {
            (Some(fam), Some(model)) => {
                let key = vendor + "-"@ + dec(fam) + "-"@ + numeral(model, 16, true);
                Some(
                    (
                        "x86"@,
                        match decimal_field(lines, "stepping"@, u32::MAX as nat) {
                            Some(step) => seq![key + "-"@ + numeral(step, 16, true), key],
                            None => seq![key],
                        },
                    ),
                )
            },
            _ => None,
        },
        None => match field_in(lines, "CPU implementer"@) {
            Some(imp) => match unsigned_of(without_prefix(trimmed(imp)), 16, u64::MAX as nat) {
                Some(i) => {
                    let id = midr(
                        i as u64,
                        or_none(hex_field(lines, "CPU variant"@)),
                        or_none(hex_field(lines, "CPU part"@)),
                        or_none(decimal_field(lines, "CPU revision"@, u64::MAX as nat)),
                    );
                    Some(
                        ("arm64"@, seq!["0x"@ + filled(numeral(id as nat, 16, false), 16)]),
                    )
                },
                None => None,
            },
            None => None,
        },
    }
}

fn field<'a>(all: &Vec<&'a [char]>, name: &str) -> (r: Option<Vec<char>>)
    ensures
        match r {
            Some(s) => field_in(texts(all@), name@) == Some(s@),
            None => field_in(texts(all@), name@) is None,
        },
{
    let ghost lines = texts(all@);
    let mut i: usize = 0;
    assert(lines.skip(0) =~= lines);
    while i < all.len()
        invariant
            i <= all.len(),
            lines == texts(all@),
            field_in(lines, name@) == field_in(lines.skip(i as int), name@),
        decreases all.len() - i,
    {
        assert(lines.skip(i as int)[0] == all@[i as int]@);
        assert(lines.skip(i as int).skip(1) =~= lines.skip(i + 1));
        let parts: Vec<&[char]> = split(all[i], ':');
        assert(texts(parts@)[0] == parts@[0]@);
        if is(trim(parts[0]), name) {
            if parts.len() > 1 {
                assert(texts(parts@)[1] == parts@[1]@);
                let value: &[char] = trim(parts[1]);
                let mut out: Vec<char> = Vec::new();
                out.extend_from_slice(value);
                assert(out@ =~= value@);
                return Some(out);
            }
            return None;
        }
        i += 1;
    }
    None
}

fn strip_hex<'a>(s: &'a [char]) -> (r: &'a [char])
    ensures
        r@ == without_prefix(s@),
{
    proof {
        reveal_strlit("0x");
    }
    let mut rest: &'a [char] = s;
    loop
        invariant
            "0x"@.len() == 2,
            without_prefix(s@) == without_prefix(rest@),
        decreases rest.len(),
    {
        match strip_prefix(rest, "0x") {
            Some(t) => {
                rest = t;
            },
            None => {
                return rest;
            },
        }
    }
}

fn hex_field_of<'a>(all: &Vec<&'a [char]>, name: &str) -> (r: u64)
    ensures
        r == or_none(hex_field(texts(all@), name@)),
{
    match field(all, name) {
        Some(s) => match parse_hex(strip_hex(s.as_slice())) {
            Some(n) => n,
            None => 0,
        },
        None => 0,
    }
}

fn u32_field_of<'a>(all: &Vec<&'a [char]>, name: &str) -> (r: Option<u32>)
    ensures
        match r {
            Some(n) => decimal_field(texts(all@), name@, u32::MAX as nat) == Some(n as nat),
            None => decimal_field(texts(all@), name@, u32::MAX as nat) is None,
        },
{
    match field(all, name) {
        Some(s) => parse_u32(s.as_slice()),
        None => None,
    }
}

/// Tells from the text of `/proc/cpuinfo` how perf's tables know this CPU. None where
/// the text does not say.
pub fn detect_cpuid(cpuinfo: &str) -> (r: Option<CpuId>)
    ensures
        match r {
            Some(id) => cpuid_of(lines_of(cpuinfo@)) == Some((id.arch@, strings(id.keys@))),
            None => cpuid_of(lines_of(cpuinfo@)) is None,
        },
{
    let v: Vec<char> = chars_of(cpuinfo);
    let all: Vec<&[char]> = lines(v.as_slice());
    match field(&all, "vendor_id") {
        Some(vendor) => {
            match (u32_field_of(&all, "cpu family"), u32_field_of(&all, "model")) {
                (Some(fam), Some(model)) => {
                    let mut key: String = string_of(vendor.as_slice());
                    key.append("-");
                    key.append(decimal(fam as u64).as_str());
                    key.append("-");
                    key.append(hexadecimal(model as u64, true).as_str());
                    let mut keys: Vec<String> = Vec::new();
                    match u32_field_of(&all, "stepping") {
                        Some(step) => {
                            let mut long: String = key.clone();
                            long.append("-");
                            long.append(hexadecimal(step as u64, true).as_str());
                            let ghost want = seq![long@, key@];
                            keys.push(long);
                            keys.push(key);
                            assert(strings(keys@) =~= want);
                        },
                        None => {
                            let ghost want = seq![key@];
                            keys.push(key);
                            assert(strings(keys@) =~= want);
                        },
                    }
                    Some(CpuId { arch: "x86", keys })
                },
                _ => None,
            }
        },
        None => {
            match field(&all, "CPU implementer") {
                None => None,
                Some(imp) => {
                    match parse_hex(strip_hex(trim(imp.as_slice()))) {
                        None => None,
                        Some(i) => {
                            let var: u64 = hex_field_of(&all, "CPU variant");
                            let part: u64 = hex_field_of(&all, "CPU part");
                            let rev: u64 = match field(&all, "CPU revision") {
                                Some(s) => match parse_u64(s.as_slice()) {
                                    Some(n) => n,
                                    None => 0,
                                },
                                None => 0,
                            };
                            let id: u64 = (i << 24u64) | (var << 20u64) | (0xfu64 << 16u64) | (part
                                << 4u64) | rev;
                            let mut key: String = "0x".to_string();
                            key.append(fill(hexadecimal(id, false).as_str(), 16).as_str());
                            let ghost want = seq![key@];
                            let mut keys: Vec<String> = Vec::new();
                            keys.push(key);
                            assert(strings(keys@) =~= want);
                            Some(CpuId { arch: "arm64", keys })
                        },
                    }
                },
            }
        },
    }
}

// ------------------------------------------------------------------ the map of models

/// The pattern of a row: its first column, a POSIX expression for the whole key.
pub open spec fn row_pattern(column: Seq<char>) -> Seq<char> {
    "^(?:"@ + replaced(column, "[[:xdigit:]]"@, "[0-9A-Fa-f]"@) + ")$"@
}

/// Whether one of the keys matches a pattern.
pub open spec fn any_match(pattern: Seq<char>, keys: Seq<Seq<char>>) -> bool {
    is_pattern(pattern) && exists|i: int|
        0 <= i < keys.len() && has_match(pattern, #[trigger] keys[i])
}

/// The model directory of a row that matches; a row has the pattern in its first column
/// and the directory in its third.
pub open spec fn row_model(line: Seq<char>, keys: Seq<Seq<char>>) -> Option<Seq<char>> {
    let cols = pieces(line, ',');
    if cols.len() >= 3 && any_match(row_pattern(cols[0]), keys) {
        Some(cols[2])
    } else {
        None
    }
}

/// The model directories of the rows that match, in order.
pub open spec fn models_in(lines: Seq<Seq<char>>, keys: Seq<Seq<char>>) -> Seq<Seq<char>>
    decreases lines.len(),
{
    if lines.len() == 0 {
        Seq::empty()
    } else {
        let before = models_in(lines.drop_last(), keys);
        match row_model(lines.last(), keys) {
            Some(m) => before.push(m),
            None => before,
        }
    }
}

fn matches_any(pattern: &str, keys: &Vec<String>) -> (r: bool)
    ensures
        r == any_match(pattern@, strings(keys@)),
{
    let mut i: usize = 0;
    while i < keys.len()
        invariant
            i <= keys.len(),
            is_pattern(pattern@) ==> forall|k: int|
                0 <= k < i ==> !has_match(pattern@, #[trigger] strings(keys@)[k]),
        decreases keys.len() - i,
    {
        assert(strings(keys@)[i as int] == keys@[i as int]@);
        if found_in(pattern, keys[i].as_str()) {
            return true;
        }
        i += 1;
    }
    false
}

/// The model directories that `mapfile.csv` gives for a CPU, best first. The first that
/// exists is the one to load; an unknown CPU has none, and no model is guessed.
pub fn model_dirs(cpu: &CpuId, mapfile: &str) -> (r: Vec<String>)
    ensures
        strings(r@) == models_in(lines_of(mapfile@), strings(cpu.keys@)),
{
    let v: Vec<char> = chars_of(mapfile);
    let all: Vec<&[char]> = lines(v.as_slice());
    let ghost rows = texts(all@);
    let mut out: Vec<String> = Vec::new();
    let mut i: usize = 0;
    assert(rows.take(0) =~= Seq::empty());
    assert(strings(out@) =~= Seq::empty());
    while i < all.len()
        invariant
            i <= all.len(),
            rows == texts(all@),
            strings(out@) == models_in(rows.take(i as int), strings(cpu.keys@)),
        decreases all.len() - i,
    {
        proof {
            let next = rows.take(i + 1);
            assert(next.drop_last() =~= rows.take(i as int));
            assert(next.last() == all@[i as int]@);
        }
        let cols: Vec<&[char]> = split(all[i], ',');
        assert(texts(cols@).len() == cols@.len());
        if cols.len() >= 3 {
            assert(texts(cols@)[0] == cols@[0]@ && texts(cols@)[2] == cols@[2]@);
            proof {
                reveal_strlit("[[:xdigit:]]");
            }
            let mut pattern: String = "^(?:".to_string();
            pattern.append(replace(cols[0], "[[:xdigit:]]", "[0-9A-Fa-f]").as_str());
            pattern.append(")$");
            if matches_any(pattern.as_str(), &cpu.keys) {
                let ghost before = strings(out@);
                let dir: String = string_of(cols[2]);
                out.push(dir);
                assert(strings(out@) =~= before.push(dir@));
            }
        }
        i += 1;
    }
    assert(rows.take(i as int) =~= rows);
    out
}

// ------------------------------------------------------------------ host facts

/// Whether a list of siblings names more than one.
pub open spec fn names_several(siblings: Seq<char>) -> bool {
    occurs(siblings, ","@) || occurs(siblings, "-"@)
}

/// Whether cores run more than one thread: the first core's list of siblings names more
/// than one.
pub fn smt_on(siblings: Option<&str>) -> (r: bool)
    ensures
        r == (siblings matches Some(s) && (occurs(s@, ","@) || occurs(s@, "-"@))),
        r == (siblings matches Some(s) && names_several(s@)),
{
    match siblings {
        Some(s) => {
            let v: Vec<char> = chars_of(s);
            contains(v.as_slice(), ",") || contains(v.as_slice(), "-")
        },
        None => false,
    }
}

pub open spec fn cpu_or_zero(s: Seq<char>) -> nat {
    match unsigned_of(trimmed(s), 10, u64::MAX as nat) {
        Some(n) => n,
        None => 0,
    }
}

/// How many CPUs an item of a CPU list has.
pub open spec fn item_cpus(item: Seq<char>) -> nat {
    match halves(item, '-') {
        Some((a, b)) => {
            let (a, b) = (cpu_or_zero(a), cpu_or_zero(b));
            if a <= b {
                (b - a + 1) as nat
            } else {
                1
            }
        },
        None => 1,
    }
}

pub open spec fn total_cpus(items: Seq<Seq<char>>) -> nat
    decreases items.len(),
{
    if items.len() == 0 {
        0
    } else {
        total_cpus(items.drop_last()) + item_cpus(items.last())
    }
}

/// The number of online CPUs, 1 where the kernel does not say.
pub open spec fn cpus_online(list: Option<&str>) -> nat {
    match list {
        Some(s) => total_cpus(pieces(trimmed(s@), ',')),
        None => 1,
    }
}

fn read_cpu(s: &[char]) -> (r: u64)
    ensures
        r == cpu_or_zero(s@),
{
    match parse_u64(trim(s)) {
        Some(n) => n,
        None => 0,
    }
}

proof fn lemma_total_grows(items: Seq<Seq<char>>, n: int)
    requires
        0 <= n <= items.len(),
    ensures
        total_cpus(items.take(n)) <= total_cpus(items),
    decreases items.len(),
{
    if n == items.len() {
        assert(items.take(n) =~= items);
    } else {
        assert(items.drop_last().take(n) =~= items.take(n));
        lemma_total_grows(items.drop_last(), n);
    }
}

/// The number of online CPUs; none where it is past counting.
pub fn num_cpus_online(list: Option<&str>) -> (r: Option<u64>)
    ensures
        match r {
            Some(n) => n == cpus_online(list),
            None => cpus_online(list) > u64::MAX,
        },
{
    match list {
        None => Some(1),
        Some(s) => {
            let v: Vec<char> = chars_of(s);
            let items: Vec<&[char]> = split(trim(v.as_slice()), ',');
            let ghost all = texts(items@);
            let mut total: u64 = 0;
            let mut i: usize = 0;
            assert(all.take(0) =~= Seq::empty());
            while i < items.len()
                invariant
                    i <= items.len(),
                    all == texts(items@),
                    list == Some(s),
                    all == pieces(trimmed(s@), ','),
                    total == total_cpus(all.take(i as int)),
                decreases items.len() - i,
            {
                proof {
                    let next = all.take(i + 1);
                    assert(next.drop_last() =~= all.take(i as int));
                    assert(next.last() == items@[i as int]@);
                    lemma_total_grows(all, i + 1);
                }
                let more: u128 = match split_once(items[i], '-') {
                    Some((a, b)) => {
                        let a: u64 = read_cpu(a);
                        let b: u64 = read_cpu(b);
                        if a <= b {
                            (b - a) as u128 + 1
                        } else {
                            1
                        }
                    },
                    None => 1,
                };
                if total as u128 + more > u64::MAX as u128 {
                    return None;
                }
                total = (total as u128 + more) as u64;
                i += 1;
            }
            assert(all.take(i as int) =~= all);
            Some(total)
        },
    }
}

// ------------------------------------------------------------------ laws

/// Only the first processor's block is read: once it has named the vendor, nothing behind
/// the blank line that ends it counts.
pub proof fn law_only_the_first_block_counts(
    block: Seq<Seq<char>>,
    blank: Seq<char>,
    rest: Seq<Seq<char>>,
    info: CpuInfo,
)
    requires
        halves(blank, ':') is None,
        trimmed(blank).len() == 0,
        identified(block, info).vendor != Vendor::Other,
    ensures
        identified(block.push(blank) + rest, info) == identified(block, info),
    decreases block.len(),
{
    let all = block.push(blank) + rest;
    if block.len() == 0 {
        assert(all[0] == blank);
    } else {
        let tail = block.skip(1);
        assert(all[0] == block[0]);
        assert(all.skip(1) =~= tail.push(blank) + rest);
        match halves(block[0], ':') {
            None => {
                if identified(tail, info) == identified(block, info) {
                    law_only_the_first_block_counts(tail, blank, rest, info);
                }
            },
            Some((k, val)) => {
                let key = trimmed(k);
                let next = if key == "vendor_id"@ {
                    CpuInfo { vendor: vendor_named(val), ..info }
                } else if key == "cpu family"@ {
                    CpuInfo { family: number_or_zero(val), ..info }
                } else if key == "model"@ {
                    CpuInfo { model: number_or_zero(val), ..info }
                } else if key == "CPU implementer"@ && info.vendor == Vendor::Other {
                    CpuInfo { vendor: Vendor::Arm, ..info }
                } else {
                    info
                };
                if identified(tail, next) == identified(block, info) {
                    law_only_the_first_block_counts(tail, blank, rest, next);
                }
            },
        }
    }
}

} // verus!
