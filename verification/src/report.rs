//! Serialization of a [`Snapshot`] to the on-disk JSON contract: one row per metric
//! with its key, label, numeric value, unit and a pre-formatted display string. This
//! is what every downstream tool reads; the human report is rendered from it.

use crate::decimal::{
    dec, dec_int, decimal, decimal_signed, digit_char, filled, fixed, hexadecimal,
    lemma_shortest_parts, numeral, shortest, shortest_parts, to_fixed, to_shortest,
};
use crate::double::{at_most, less, of_int, product, quotient, Double};
use crate::json::{
    listing_text, member_line, members_text, rows_text, scalar_text, Listing, Members, Scalar,
};
use crate::metric::{
    number_of, seconds, Duration, Metric, MetricModel, MetricValue, Snapshot, ValueModel,
};
use crate::text::{digit_of, joined, same};
use vstd::prelude::*;

verus! {

/// Output format selectable on the command line. Text and HTML are produced by the
/// shared renderer; only JSON is emitted here (the contract).
#[derive(Debug, Clone, Copy, PartialEq, Eq, Structural)]
pub enum Format {
    Text,
    Json,
    Html,
}

// ------------------------------------------------------------------ model

/// A character in a JSON string.
pub open spec fn escape(c: char) -> Seq<char> {
    if c == '"' {
        "\\\""@
    } else if c == '\\' {
        "\\\\"@
    } else if c == '\n' {
        "\\n"@
    } else if c == '\t' {
        "\\t"@
    } else if c == '\r' {
        "\\r"@
    } else if (c as int) < 0x20 {
        "\\u"@ + filled(numeral(c as nat, 16, false), 4)
    } else {
        seq![c]
    }
}

/// The characters of a JSON string.
pub open spec fn escaped(s: Seq<char>) -> Seq<char>
    decreases s.len(),
{
    if s.len() == 0 {
        Seq::empty()
    } else {
        escape(s[0]) + escaped(s.skip(1))
    }
}

/// A JSON string.
pub open spec fn json_text(s: Seq<char>) -> Seq<char> {
    seq!['"'] + escaped(s) + seq!['"']
}

/// A JSON number, `null` where the value is not finite.
pub open spec fn json_value(v: ValueModel) -> Seq<char> {
    if number_of(v).is_finite() {
        shortest(number_of(v))
    } else {
        "null"@
    }
}

pub open spec fn unit_text(v: ValueModel) -> Seq<char> {
    match v {
        ValueModel::Duration(_) => "s"@,
        ValueModel::Float { unit, .. } => unit,
        ValueModel::Int { unit, .. } => unit,
        ValueModel::Percent(_) => "%"@,
        ValueModel::Bytes(_) => "bytes"@,
    }
}

/// Milliseconds below one second, seconds from there on.
pub open spec fn duration_text(d: Duration) -> Seq<char> {
    let secs = seconds(d);
    if less(secs, of_int(1)) {
        fixed(product(secs, of_int(1000)), 1) + " ms"@
    } else {
        fixed(secs, 3) + " s"@
    }
}

/// A number in the largest binary unit, up to the fifth, that leaves at least one.
pub open spec fn in_binary_units(value: Double, unit: nat) -> (Double, nat)
    decreases 4 - unit,
{
    if unit < 4 && at_most(of_int(1024), value) {
        in_binary_units(quotient(value, of_int(1024)), unit + 1)
    } else {
        (value, unit)
    }
}

pub open spec fn binary_unit(unit: nat) -> Seq<char> {
    if unit == 0 {
        "B"@
    } else if unit == 1 {
        "KiB"@
    } else if unit == 2 {
        "MiB"@
    } else if unit == 3 {
        "GiB"@
    } else {
        "TiB"@
    }
}

pub open spec fn bytes_text(bytes: u64) -> Seq<char> {
    let (value, unit) = in_binary_units(of_int(bytes as int), 0);
    if unit == 0 {
        dec(bytes as nat) + " B"@
    } else {
        fixed(value, 1) + " "@ + binary_unit(unit)
    }
}

/// A number and its unit, where it has one.
pub open spec fn with_unit(number: Seq<char>, unit: Seq<char>) -> Seq<char> {
    if unit == ""@ {
        number
    } else {
        number + " "@ + unit
    }
}

/// The value as the report displays it.
pub open spec fn display_text(v: ValueModel) -> Seq<char> {
    match v {
        ValueModel::Duration(d) => duration_text(d),
        ValueModel::Float { value, unit } => with_unit(fixed(value, 2), unit),
        ValueModel::Int { value, unit } => with_unit(dec_int(value as int), unit),
        ValueModel::Percent(p) => fixed(p, 1) + "%"@,
        ValueModel::Bytes(b) => bytes_text(b),
    }
}

/// The row of a metric.
pub open spec fn json_row(m: MetricModel) -> Seq<char> {
    "    {\"key\": \""@ + m.key + "\", \"label\": "@ + json_text(m.label) + ", \"value\": "@
        + json_value(m.value) + ", \"unit\": "@ + json_text(unit_text(m.value))
        + ", \"display\": "@ + json_text(display_text(m.value)) + "}"@
}

/// The rows, separated by commas, each on its line.
pub open spec fn json_rows(metrics: Seq<MetricModel>) -> Seq<char>
    decreases metrics.len(),
{
    if metrics.len() == 0 {
        Seq::empty()
    } else {
        json_row(metrics[0]) + (if metrics.len() > 1 {
            ","@
        } else {
            ""@
        }) + "\n"@ + json_rows(metrics.skip(1))
    }
}

/// The JSON document of a snapshot.
pub open spec fn json_document(metrics: Seq<MetricModel>) -> Seq<char> {
    "{\n  \"metrics\": [\n"@ + json_rows(metrics) + "  ]\n}\n"@
}

// ------------------------------------------------------------------ operations

/// Render the snapshot to the JSON contract.
pub fn render_json(snapshot: &Snapshot) -> (r: String)
    ensures
        r@ == json_document(snapshot@),
{
    let mut out: String = "{\n  \"metrics\": [\n".to_string();
    let n: usize = snapshot.metrics.len();
    let mut i: usize = 0;
    proof {
        assert(snapshot@.skip(0) =~= snapshot@);
    }
    while i < n
        invariant
            i <= n,
            n == snapshot.metrics.len(),
            out@ + json_rows(snapshot@.skip(i as int)) == "{\n  \"metrics\": [\n"@ + json_rows(
                snapshot@,
            ),
        decreases n - i,
    {
        let ghost before = out@;
        let ghost rest = snapshot@.skip(i as int);
        proof {
            assert(rest[0] == snapshot.metrics@[i as int]@);
            assert(rest.skip(1) =~= snapshot@.skip(i + 1));
        }
        let row: String = json_line(&snapshot.metrics[i]);
        let comma: &str = if i + 1 < n {
            ","
        } else {
            ""
        };
        out.append(row.as_str());
        out.append(comma);
        out.append("\n");
        proof {
            let left = json_rows(rest.skip(1));
            assert(before + (row@ + comma@ + "\n"@ + left) =~= before + row@ + comma@ + "\n"@
                + left);
        }
        i += 1;
    }
    proof {
        assert(snapshot@.skip(n as int).len() == 0);
        assert(out@ + Seq::<char>::empty() =~= out@);
    }
    out.append("  ]\n}\n");
    out
}

fn json_line(m: &Metric) -> (r: String)
    ensures
        r@ == json_row(m@),
{
    let mut out: String = "    {\"key\": \"".to_string();
    out.append(m.key);
    out.append("\", \"label\": ");
    out.append(json_str(m.label.as_str()).as_str());
    out.append(", \"value\": ");
    out.append(json_number(&m.value).as_str());
    out.append(", \"unit\": ");
    out.append(json_str(unit_of(&m.value)).as_str());
    out.append(", \"display\": ");
    out.append(json_str(format_value(&m.value).as_str()).as_str());
    out.append("}");
    out
}

/// The value as the report displays it.
pub fn format_value(value: &MetricValue) -> (r: String)
    ensures
        r@ == display_text(value@),
{
    match value {
        MetricValue::Duration(d) => format_duration(*d),
        MetricValue::Float { value, unit } => put_unit(to_fixed(*value, 2), unit),
        MetricValue::Int { value, unit } => put_unit(decimal_signed(*value), unit),
        MetricValue::Percent(p) => {
            let mut out: String = to_fixed(*p, 1);
            out.append("%");
            out
        },
        MetricValue::Bytes(b) => format_bytes(*b),
    }
}

fn put_unit(number: String, unit: &str) -> (r: String)
    ensures
        r@ == with_unit(number@, unit@),
{
    if same(unit, "") {
        number
    } else {
        let mut out: String = number;
        out.append(" ");
        out.append(unit);
        out
    }
}

/// The unit of a value.
pub fn unit_of(value: &MetricValue) -> (r: &'static str)
    ensures
        r@ == unit_text(value@),
{
    match value {
        MetricValue::Duration(_) => "s",
        MetricValue::Float { unit, .. } => *unit,
        MetricValue::Int { unit, .. } => *unit,
        MetricValue::Percent(_) => "%",
        MetricValue::Bytes(_) => "bytes",
    }
}

/// A span of time as text.
pub fn format_duration(d: Duration) -> (r: String)
    ensures
        r@ == duration_text(d),
{
    let secs: Double = d.as_secs();
    if secs.lt(Double::from_u64(1)) {
        let mut out: String = to_fixed(secs.times(Double::from_u64(1000)), 1);
        out.append(" ms");
        out
    } else {
        let mut out: String = to_fixed(secs, 3);
        out.append(" s");
        out
    }
}

/// A volume as text, in binary units.
pub fn format_bytes(bytes: u64) -> (r: String)
    ensures
        r@ == bytes_text(bytes),
{
    let mut value: Double = Double::from_u64(bytes);
    let mut unit: usize = 0;
    while unit < 4 && Double::from_u64(1024).le(value)
        invariant
            unit <= 4,
            in_binary_units(of_int(bytes as int), 0) == in_binary_units(value, unit as nat),
        ensures
            unit <= 4,
            in_binary_units(of_int(bytes as int), 0) == (value, unit as nat),
        decreases 4 - unit,
    {
        value = value.over(Double::from_u64(1024));
        unit += 1;
    }
    if unit == 0 {
        let mut out: String = decimal(bytes);
        out.append(" B");
        out
    } else {
        let mut out: String = to_fixed(value, 1);
        out.append(" ");
        out.append(
            if unit == 1 {
                "KiB"
            } else if unit == 2 {
                "MiB"
            } else if unit == 3 {
                "GiB"
            } else {
                "TiB"
            },
        );
        out
    }
}

/// A value as a JSON number.
pub fn json_number(value: &MetricValue) -> (r: String)
    ensures
        r@ == json_value(value@),
{
    let n: Double = value.as_f64();
    if n.finite() {
        to_shortest(n)
    } else {
        "null".to_string()
    }
}

fn push_escaped(out: &mut String, c: char)
    ensures
        final(out)@ == old(out)@ + escape(c),
{
    if c == '"' {
        out.append("\\\"");
    } else if c == '\\' {
        out.append("\\\\");
    } else if c == '\n' {
        out.append("\\n");
    } else if c == '\t' {
        out.append("\\t");
    } else if c == '\r' {
        out.append("\\r");
    } else if (c as u32) < 0x20 {
        let mut code: String = "\\u".to_string();
        let digits: String = hexadecimal((c as u32) as u64, false);
        code.append(crate::decimal::fill(digits.as_str(), 4).as_str());
        out.append(code.as_str());
    } else {
        out.push(c);
        assert(old(out)@.push(c) =~= old(out)@ + seq![c]);
    }
}

/// A JSON string.
pub fn json_str(s: &str) -> (r: String)
    ensures
        r@ == json_text(s@),
{
    let v: Vec<char> = crate::text::chars_of(s);
    let mut out: String = String::new();
    out.push('"');
    let mut i: usize = 0;
    proof {
        assert(v@.skip(0) =~= v@);
        assert(out@ =~= seq!['"']);
    }
    while i < v.len()
        invariant
            i <= v.len(),
            v@ == s@,
            out@ + escaped(v@.skip(i as int)) == seq!['"'] + escaped(s@),
        decreases v.len() - i,
    {
        let ghost before = out@;
        push_escaped(&mut out, v[i]);
        proof {
            let rest = v@.skip(i as int);
            assert(rest.skip(1) =~= v@.skip(i + 1));
            assert(before + (escape(v@[i as int]) + escaped(rest.skip(1))) =~= before + escape(
                v@[i as int],
            ) + escaped(rest.skip(1)));
        }
        i += 1;
    }
    proof {
        assert(v@.skip(i as int).len() == 0);
        assert(out@ + Seq::<char>::empty() =~= out@);
        assert(out@.push('"') =~= out@ + seq!['"']);
    }
    out.push('"');
    out
}

// ------------------------------------------------------------------ laws

/// What the characters between the quotes of a JSON string stand for.
pub open spec fn unescaped(s: Seq<char>) -> Option<Seq<char>>
    decreases s.len(),
{
    if s.len() == 0 {
        Some(Seq::empty())
    } else if s[0] == '"' || (s[0] as int) < 0x20 {
        None
    } else if s[0] != '\\' {
        match unescaped(s.skip(1)) {
            Some(rest) => Some(seq![s[0]] + rest),
            None => None,
        }
    } else if s.len() < 2 {
        None
    } else if s[1] == 'u' {
        if s.len() < 6 {
            None
        } else {
            match (digit_of(s[2], 16), digit_of(s[3], 16), digit_of(s[4], 16), digit_of(s[5], 16)) {
                (Some(a), Some(b), Some(c), Some(d)) => {
                    let code = ((a * 16 + b) * 16 + c) * 16 + d;
                    match unescaped(s.skip(6)) {
                        Some(rest) => if code < 0xD800 || 0xE000 <= code {
                            Some(seq![code as char] + rest)
                        } else {
                            None
                        },
                        None => None,
                    }
                },
                _ => None,
            }
        }
    } else {
        let meant = if s[1] == '"' || s[1] == '\\' || s[1] == '/' {
            Some(s[1])
        } else if s[1] == 'n' {
            Some('\n')
        } else if s[1] == 't' {
            Some('\t')
        } else if s[1] == 'r' {
            Some('\r')
        } else if s[1] == 'b' {
            Some(8 as char)
        } else if s[1] == 'f' {
            Some(12 as char)
        } else {
            None
        };
        match (meant, unescaped(s.skip(2))) {
            (Some(c), Some(rest)) => Some(seq![c] + rest),
            _ => None,
        }
    }
}

proof fn lemma_escape(c: char, rest: Seq<char>)
    requires
        unescaped(rest) is Some,
    ensures
        unescaped(escape(c) + rest) == Some(seq![c] + unescaped(rest)->0),
{
    reveal_strlit("\\\"");
    reveal_strlit("\\\\");
    reveal_strlit("\\n");
    reveal_strlit("\\t");
    reveal_strlit("\\r");
    reveal_strlit("\\u");
    let s = escape(c) + rest;
    if c == '"' || c == '\\' || c == '\n' || c == '\t' || c == '\r' {
        assert(s.skip(2) =~= rest);
    } else if (c as int) < 0x20 {
        let n = c as nat;
        reveal_with_fuel(numeral, 2);
        let h = numeral(n, 16, false);
        if n < 16 {
            assert(h =~= seq![digit_char(n, false)]);
        } else {
            assert(h =~= seq!['1', digit_char((n - 16) as nat, false)]);
        }
        let f = filled(h, 4);
        assert(f.len() == 4);
        assert(escape(c) =~= seq!['\\', 'u', f[0], f[1], f[2], f[3]]);
        assert(s.skip(6) =~= rest);
        assert(s[2] == f[0] && s[3] == f[1] && s[4] == f[2] && s[5] == f[3]);
        assert(f[0] == '0' && f[1] == '0');
    } else {
        assert(s.skip(1) =~= rest);
    }
}

/// A JSON string stands for the text that it was made of.
pub proof fn law_json_string_reads_back(s: Seq<char>)
    ensures
        unescaped(escaped(s)) == Some(s),
    decreases s.len(),
{
    if s.len() == 0 {
        assert(s =~= Seq::empty());
    } else {
        law_json_string_reads_back(s.skip(1));
        lemma_escape(s[0], escaped(s.skip(1)));
        assert(seq![s[0]] + s.skip(1) =~= s);
    }
}

/// The value of a row, where it is finite, reads back as the metric's number.
pub proof fn law_json_number_reads_back(v: ValueModel)
    requires
        number_of(v).is_finite(),
    ensures
        crate::decimal::parsed(json_value(v)) == Some(number_of(v)),
{
    crate::decimal::law_shortest_reads_back(number_of(v));
}

/// Whether a text stands in a JSON string as it is.
pub open spec fn needs_no_escape(s: Seq<char>) -> bool {
    forall|i: int|
        0 <= i < s.len() ==> (#[trigger] s[i]) != '"' && s[i] != '\\' && (s[i] as int) >= 0x20
}

/// The value of a row.
pub open spec fn value_member(v: ValueModel) -> Scalar {
    let x = number_of(v);
    if x.is_finite() {
        Scalar::Number { neg: x.neg(), digits: shortest_parts(x).0, places: shortest_parts(x).1 }
    } else {
        Scalar::Null
    }
}

/// The members of a row.
pub open spec fn row_members(m: MetricModel) -> Members {
    seq![
        ("key"@, Scalar::Text(m.key)),
        ("label"@, Scalar::Text(m.label)),
        ("value"@, value_member(m.value)),
        ("unit"@, Scalar::Text(unit_text(m.value))),
        ("display"@, Scalar::Text(display_text(m.value))),
    ]
}

/// A snapshot as JSON: the members ahead of its metrics, and a row for each of these.
pub open spec fn snapshot_listing(head: Members, metrics: Seq<MetricModel>) -> Listing {
    Listing {
        head,
        name: "metrics"@,
        rows: metrics.map_values(|m: MetricModel| row_members(m)),
    }
}

pub proof fn lemma_needs_no_escape(s: Seq<char>)
    requires
        needs_no_escape(s),
    ensures
        escaped(s) == s,
    decreases s.len(),
{
    if s.len() > 0 {
        assert forall|i: int| 0 <= i < s.skip(1).len() implies (#[trigger] s.skip(1)[i]) != '"'
            && s.skip(1)[i] != '\\' && (s.skip(1)[i] as int) >= 0x20 by {
            assert(s[i + 1] == s.skip(1)[i]);
        }
        assert(s[0] != '"');
        lemma_needs_no_escape(s.skip(1));
        assert(seq![s[0]] + s.skip(1) =~= s);
    }
}

proof fn lemma_value_text(v: ValueModel)
    ensures
        scalar_text(value_member(v)) == json_value(v),
{
    if number_of(v).is_finite() {
        lemma_shortest_parts(number_of(v));
    }
}

proof fn lemma_joined_five(v: Seq<Seq<char>>, sep: Seq<char>)
    requires
        v.len() == 5,
    ensures
        joined(v, sep) == v[0] + sep + v[1] + sep + v[2] + sep + v[3] + sep + v[4],
{
    reveal_with_fuel(joined, 5);
}

/// The keys of the members, quoted.
proof fn lemma_quoted_names()
    ensures
        json_text("key"@) + ": "@ == "\"key\": "@,
        json_text("label"@) + ": "@ == "\"label\": "@,
        json_text("value"@) + ": "@ == "\"value\": "@,
        json_text("unit"@) + ": "@ == "\"unit\": "@,
        json_text("display"@) + ": "@ == "\"display\": "@,
        json_text("metrics"@) + ": [\n"@ == "\"metrics\": [\n"@,
{
    reveal_strlit(": ");
    reveal_strlit(": [\n");
    reveal_strlit("key");
    reveal_strlit("label");
    reveal_strlit("value");
    reveal_strlit("unit");
    reveal_strlit("display");
    reveal_strlit("metrics");
    reveal_strlit("\"key\": ");
    reveal_strlit("\"label\": ");
    reveal_strlit("\"value\": ");
    reveal_strlit("\"unit\": ");
    reveal_strlit("\"display\": ");
    reveal_strlit("\"metrics\": [\n");
    lemma_needs_no_escape("key"@);
    lemma_needs_no_escape("label"@);
    lemma_needs_no_escape("value"@);
    lemma_needs_no_escape("unit"@);
    lemma_needs_no_escape("display"@);
    lemma_needs_no_escape("metrics"@);
    assert(json_text("key"@) + ": "@ =~= "\"key\": "@);
    assert(json_text("label"@) + ": "@ =~= "\"label\": "@);
    assert(json_text("value"@) + ": "@ =~= "\"value\": "@);
    assert(json_text("unit"@) + ": "@ =~= "\"unit\": "@);
    assert(json_text("display"@) + ": "@ =~= "\"display\": "@);
    assert(json_text("metrics"@) + ": [\n"@ =~= "\"metrics\": [\n"@);
}

/// The punctuation between the members.
proof fn lemma_punctuation()
    ensures
        "    {\"key\": \""@ == "    {"@ + "\"key\": "@ + seq!['"'],
        "\", \"label\": "@ == seq!['"'] + ", "@ + "\"label\": "@,
        ", \"value\": "@ == ", "@ + "\"value\": "@,
        ", \"unit\": "@ == ", "@ + "\"unit\": "@,
        ", \"display\": "@ == ", "@ + "\"display\": "@,
{
    reveal_strlit(", ");
    reveal_strlit("    {");
    reveal_strlit("    {\"key\": \"");
    reveal_strlit("\", \"label\": ");
    reveal_strlit(", \"value\": ");
    reveal_strlit(", \"unit\": ");
    reveal_strlit(", \"display\": ");
    reveal_strlit("\"key\": ");
    reveal_strlit("\"label\": ");
    reveal_strlit("\"value\": ");
    reveal_strlit("\"unit\": ");
    reveal_strlit("\"display\": ");
    assert("    {\"key\": \""@ =~= "    {"@ + "\"key\": "@ + seq!['"']);
    assert("\", \"label\": "@ =~= seq!['"'] + ", "@ + "\"label\": "@);
    assert(", \"value\": "@ =~= ", "@ + "\"value\": "@);
    assert(", \"unit\": "@ =~= ", "@ + "\"unit\": "@);
    assert(", \"display\": "@ =~= ", "@ + "\"display\": "@);
}

/// A row put together from the left is one put together from its members.
proof fn lemma_regrouped(
    open: Seq<char>,
    q: Seq<char>,
    sep: Seq<char>,
    close: Seq<char>,
    names: Seq<Seq<char>>,
    held: Seq<Seq<char>>,
)
    requires
        names.len() == 5,
        held.len() == 5,
    ensures
        (open + names[0] + q) + held[0] + (q + sep + names[1]) + held[1] + (sep + names[2])
            + held[2] + (sep + names[3]) + held[3] + (sep + names[4]) + held[4] + close == open + (
        (names[0] + (q + held[0] + q)) + sep + (names[1] + held[1]) + sep + (names[2] + held[2])
            + sep + (names[3] + held[3]) + sep + (names[4] + held[4])) + close,
{
    let a = (open + names[0] + q) + held[0] + (q + sep + names[1]) + held[1];
    let m = (names[0] + (q + held[0] + q)) + sep + (names[1] + held[1]);
    assert(a =~= open + m);
    let m2 = m + sep + (names[2] + held[2]);
    assert(a + (sep + names[2]) + held[2] =~= open + m2);
    let m3 = m2 + sep + (names[3] + held[3]);
    assert((open + m2) + (sep + names[3]) + held[3] =~= open + m3);
    let m4 = m3 + sep + (names[4] + held[4]);
    assert((open + m3) + (sep + names[4]) + held[4] =~= open + m4);
}

proof fn lemma_row_text(m: MetricModel)
    requires
        needs_no_escape(m.key),
    ensures
        json_row(m) == "    {"@ + members_text(row_members(m)) + "}"@,
{
    let f = row_members(m);
    let t = f.map_values(|f: (Seq<char>, Scalar)| member_line(f));
    lemma_joined_five(t, ", "@);
    lemma_quoted_names();
    lemma_value_text(m.value);
    lemma_needs_no_escape(m.key);
    lemma_punctuation();
    lemma_regrouped(
        "    {"@,
        seq!['"'],
        ", "@,
        "}"@,
        seq!["\"key\": "@, "\"label\": "@, "\"value\": "@, "\"unit\": "@, "\"display\": "@],
        seq![
            m.key,
            json_text(m.label),
            json_value(m.value),
            json_text(unit_text(m.value)),
            json_text(display_text(m.value)),
        ],
    );
}

/// Whether the keys stand in a JSON string as they are.
pub open spec fn has_plain_keys(metrics: Seq<MetricModel>) -> bool {
    forall|i: int| 0 <= i < metrics.len() ==> needs_no_escape((#[trigger] metrics[i]).key)
}

proof fn lemma_rows_text(metrics: Seq<MetricModel>)
    requires
        has_plain_keys(metrics),
    ensures
        json_rows(metrics) == rows_text(metrics.map_values(|m: MetricModel| row_members(m))),
    decreases metrics.len(),
{
    let rows = metrics.map_values(|m: MetricModel| row_members(m));
    if metrics.len() > 0 {
        let rest = metrics.skip(1);
        assert forall|i: int| 0 <= i < rest.len() implies needs_no_escape(
            (#[trigger] rest[i]).key,
        ) by {
            assert(rest[i] == metrics[i + 1]);
        }
        lemma_rows_text(rest);
        assert(rows.skip(1) =~= rest.map_values(|m: MetricModel| row_members(m)));
        assert(needs_no_escape(metrics[0].key));
        lemma_row_text(metrics[0]);
    }
}

/// A rendered snapshot is well-formed JSON: the object whose member `metrics` lists the
/// rows. Other members may stand ahead of the metrics.
pub proof fn law_snapshot_is_json(head: Members, metrics: Seq<MetricModel>)
    requires
        has_plain_keys(metrics),
    ensures
        listing_text(snapshot_listing(head, metrics)) == "{\n  "@ + members_text(head) + (
        if head.len() > 0 {
            ",\n  "@
        } else {
            ""@
        }) + "\"metrics\": [\n"@ + json_rows(metrics) + "  ]\n}\n"@,
        listing_text(snapshot_listing(Seq::empty(), metrics)) == json_document(metrics),
{
    lemma_rows_text(metrics);
    lemma_quoted_names();
    let front = "{\n  "@ + members_text(head) + (if head.len() > 0 {
        ",\n  "@
    } else {
        ""@
    });
    let name = json_text("metrics"@);
    assert(front + name + ": [\n"@ =~= front + (name + ": [\n"@));
    reveal_strlit("{\n  ");
    reveal_strlit("");
    reveal_strlit("{\n  \"metrics\": [\n");
    reveal_strlit("\"metrics\": [\n");
    assert(members_text(Seq::empty()) =~= Seq::empty());
    assert("{\n  "@ + Seq::<char>::empty() + ""@ + name + ": [\n"@ =~= "{\n  "@ + (name
        + ": [\n"@));
    assert("{\n  "@ + "\"metrics\": [\n"@ =~= "{\n  \"metrics\": [\n"@);
}

/// The rows of a rendered snapshot say what its metrics are, one row for each, in their
/// order: the key, the label, the unit and the display as strings that stand for them, and
/// the value as a number that reads as the metric's own, or null where it is not finite.
pub proof fn law_rows_say_what_the_metrics_are(metrics: Seq<MetricModel>, i: int)
    requires
        has_plain_keys(metrics),
        0 <= i < metrics.len(),
    ensures
        ({
            let l = snapshot_listing(Seq::empty(), metrics);
            let m = metrics[i];
            let r = l.rows[i];
            &&& json_document(metrics) == listing_text(l)
            &&& l.rows.len() == metrics.len()
            &&& r.len() == 5
            &&& r[0] == ("key"@, Scalar::Text(m.key))
            &&& r[1] == ("label"@, Scalar::Text(m.label))
            &&& r[2].0 == "value"@
            &&& number_of(m.value).is_finite() ==> crate::decimal::parsed(scalar_text(r[2].1))
                == Some(number_of(m.value))
            &&& !number_of(m.value).is_finite() ==> r[2].1 == Scalar::Null
            &&& r[3] == ("unit"@, Scalar::Text(unit_text(m.value)))
            &&& r[4] == ("display"@, Scalar::Text(display_text(m.value)))
            &&& forall|s: Seq<char>| #[trigger] unescaped(escaped(s)) == Some(s)
        }),
{
    let m = metrics[i];
    law_snapshot_is_json(Seq::empty(), metrics);
    lemma_value_text(m.value);
    if number_of(m.value).is_finite() {
        law_json_number_reads_back(m.value);
    }
    assert forall|s: Seq<char>| #[trigger] unescaped(escaped(s)) == Some(s) by {
        law_json_string_reads_back(s);
    }
}

} // verus!
