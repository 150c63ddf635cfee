//! What the catalogues of events and metrics say, and which CPU reads which.

use crate::cpu::{
    any_match, cpuid_of, decimal_field, field_in, hex_field, identified, midr, models_in,
    row_pattern, vendor_named, without_prefix, CpuInfo, Vendor,
};
use crate::decimal::{dec, filled, numeral};
use crate::double::Double;
use crate::evaluate::Host;
use crate::hwpc::{chosen_metric, chosen_metrics, event_cfg, ChosenModel, DbModel};
use crate::json::{member, member_text, Json};
use crate::launch::{event_text, looked_up};
use crate::metric::row;
use crate::pmu::EventCfg;
use crate::pmudb::{
    alias_fields, alias_of, config_layout, config_of, encoded_fields, entry_of, event_of, events_in,
    format_of, kernel_alias, metrics_in, range_in, resolved, template_of, templates, text_named,
    type_of, unit_named, EntryModel, EventModel, UnitModel,
};
use crate::raw_pmu::resolved_roles;
use crate::table::{ascending, found, inserted, lemma_inserted};
use crate::text::{code_of, digit_of, halves, lemma_place_is, lowered, pieces, trimmed, unsigned_of};
use vstd::prelude::*;

verus! {

// ------------------------------------------------------------------ which CPU

/// The first line of a name counts, and of it what stands between the first colon and the next.
pub proof fn law_the_first_field_of_a_name_counts(
    line: Seq<char>,
    rest: Seq<Seq<char>>,
    name: Seq<char>,
)
    ensures
        ({
            let parts = pieces(line, ':');
            let lines = seq![line] + rest;
            &&& parts.len() > 1 && trimmed(parts[0]) == name ==> field_in(lines, name) == Some(
                trimmed(parts[1]),
            )
            &&& parts.len() == 1 && trimmed(parts[0]) == name ==> field_in(lines, name) is None
            &&& parts.len() > 0 && trimmed(parts[0]) != name ==> field_in(lines, name) == field_in(
                rest,
                name,
            )
        }),
        field_in(Seq::empty(), name) is None,
{
    assert((seq![line] + rest).skip(1) =~= rest);
}

/// An x86 CPU is known by vendor, family and model, the last in hexadecimal, and where it has a
/// stepping by that first.
pub proof fn law_x86_keys_are_vendor_family_model(
    lines: Seq<Seq<char>>,
    vendor: Seq<char>,
    family: nat,
    model: nat,
)
    requires
        field_in(lines, "vendor_id"@) == Some(vendor),
        decimal_field(lines, "cpu family"@, u32::MAX as nat) == Some(family),
        decimal_field(lines, "model"@, u32::MAX as nat) == Some(model),
    ensures
        ({
            let key = vendor + "-"@ + dec(family) + "-"@ + numeral(model, 16, true);
            cpuid_of(lines) == Some(
                (
                    "x86"@,
                    match decimal_field(lines, "stepping"@, u32::MAX as nat) {
                        Some(step) => seq![key + "-"@ + numeral(step, 16, true), key],
                        None => seq![key],
                    },
                ),
            )
        }),
{
}

/// An ARM CPU is known by its identification register, in sixteen hexadecimal digits.
pub proof fn law_arm_keys_are_the_register(lines: Seq<Seq<char>>, imp: Seq<char>, id: nat)
    requires
        field_in(lines, "vendor_id"@) is None,
        field_in(lines, "CPU implementer"@) == Some(imp),
        unsigned_of(without_prefix(trimmed(imp)), 16, u64::MAX as nat) == Some(id),
    ensures
        ({
            let known = |x: Option<nat>|
                match x {
                    Some(n) => n as u64,
                    None => 0,
                };
            let register = midr(
                id as u64,
                known(hex_field(lines, "CPU variant"@)),
                known(hex_field(lines, "CPU part"@)),
                known(decimal_field(lines, "CPU revision"@, u64::MAX as nat)),
            );
            cpuid_of(lines) == Some(
                ("arm64"@, seq!["0x"@ + filled(numeral(register as nat, 16, false), 16)]),
            )
        }),
{
}

/// A row of the map gives the model in its third column to a CPU one of whose keys its first
/// column matches.
pub proof fn law_a_row_gives_its_third_column(
    lines: Seq<Seq<char>>,
    line: Seq<char>,
    keys: Seq<Seq<char>>,
)
    ensures
        ({
            let cols = pieces(line, ',');
            models_in(lines.push(line), keys) == if cols.len() >= 3 && any_match(
                row_pattern(cols[0]),
                keys,
            ) {
                models_in(lines, keys).push(cols[2])
            } else {
                models_in(lines, keys)
            }
        }),
        models_in(Seq::empty(), keys).len() == 0,
{
    assert(lines.push(line).drop_last() =~= lines);
}

// ------------------------------------------------------------------ entries

/// The number of a member: written as text in hexadecimal or decimal, or as a number.
pub open spec fn code_at(j: Json, name: Seq<char>) -> Option<u64> {
    match member(j, name) {
        Some(Json::Text(s)) => match code_of(trimmed(s)) {
            Some(n) => Some(n as u64),
            None => None,
        },
        Some(Json::Number { count, .. }) => count,
        _ => None,
    }
}

/// An entry is read by the names of its members.
pub proof fn law_entries_are_read_by_name(j: Json)
    ensures
        entry_of(j).metric_name == member_text(j, "MetricName"@),
        entry_of(j).metric_expr == member_text(j, "MetricExpr"@),
        entry_of(j).std_event == member_text(j, "ArchStdEvent"@),
        entry_of(j).event_name == member_text(j, "EventName"@),
        entry_of(j).named == (member(j, "EventName"@) is Some),
        entry_of(j).codes.len() == 5,
        entry_of(j).codes[0] == code_at(j, "EventCode"@),
        entry_of(j).codes[1] == code_at(j, "UMask"@),
        entry_of(j).codes[2] == code_at(j, "Cmask"@),
        entry_of(j).codes[3] == code_at(j, "Inv"@),
        entry_of(j).codes[4] == code_at(j, "Edge"@),
{
}

/// The codes of an entry are placed in the fields of their names.
pub proof fn law_codes_go_to_their_fields(m: EntryModel, c: Seq<u64>)
    requires
        c.len() == 5,
        m.codes.len() == 5,
        forall|i: int| 0 <= i < 5 ==> #[trigger] m.codes[i] == Some(c[i]),
        forall|i: int| 0 <= i < 5 ==> #[trigger] c[i] != 0,
    ensures
        encoded_fields(m, None, 5) == seq![
            ("event"@, c[0]),
            ("umask"@, c[1]),
            ("cmask"@, c[2]),
            ("inv"@, c[3]),
            ("edge"@, c[4]),
        ],
{
    assert(m.codes[0] == Some(c[0]) && m.codes[1] == Some(c[1]) && m.codes[2] == Some(c[2]));
    assert(m.codes[3] == Some(c[3]) && m.codes[4] == Some(c[4]));
    assert(c[0] != 0 && c[1] != 0 && c[2] != 0 && c[3] != 0 && c[4] != 0);
    reveal_with_fuel(encoded_fields, 6);
    assert(encoded_fields(m, None, 0) =~= Seq::empty());
    assert(encoded_fields(m, None, 1) =~= seq![("event"@, c[0])]);
    assert(encoded_fields(m, None, 2) =~= seq![("event"@, c[0]), ("umask"@, c[1])]);
    assert(encoded_fields(m, None, 3) =~= seq![
        ("event"@, c[0]),
        ("umask"@, c[1]),
        ("cmask"@, c[2]),
    ]);
    assert(encoded_fields(m, None, 4) =~= seq![
        ("event"@, c[0]),
        ("umask"@, c[1]),
        ("cmask"@, c[2]),
        ("inv"@, c[3]),
    ]);
    assert(encoded_fields(m, None, 5) =~= seq![
        ("event"@, c[0]),
        ("umask"@, c[1]),
        ("cmask"@, c[2]),
        ("inv"@, c[3]),
        ("edge"@, c[4]),
    ]);
}

proof fn lemma_metrics_ascend(objects: Seq<Json>)
    ensures
        ascending(metrics_in(objects)),
    decreases objects.len(),
{
    if objects.len() > 0 {
        lemma_metrics_ascend(objects.drop_last());
        let e = entry_of(objects.last());
        match (e.metric_name, e.metric_expr) {
            (Some(name), Some(expr)) => lemma_inserted(
                metrics_in(objects.drop_last()),
                lowered(name),
                expr,
            ),
            _ => {},
        }
    }
}

proof fn lemma_events_ascend(stds: Seq<(Seq<char>, EntryModel)>, objects: Seq<Json>)
    ensures
        ascending(events_in(stds, objects)),
    decreases objects.len(),
{
    if objects.len() > 0 {
        lemma_events_ascend(stds, objects.drop_last());
        let e = entry_of(objects.last());
        match event_of(e, template_of(stds, e)) {
            Some((name, ev)) => lemma_inserted(events_in(stds, objects.drop_last()), name, ev),
            None => {},
        }
    }
}

/// The last formula of a name stands, found in lower case; it leaves those of other names.
pub proof fn law_the_last_formula_of_a_name_stands(
    objects: Seq<Json>,
    j: Json,
    name: Seq<char>,
    expr: Seq<char>,
    other: Seq<char>,
)
    requires
        member_text(j, "MetricName"@) == Some(name),
        member_text(j, "MetricExpr"@) == Some(expr),
    ensures
        found(metrics_in(objects.push(j)), lowered(name)) == Some(expr),
        other != lowered(name) ==> found(metrics_in(objects.push(j)), other) == found(
            metrics_in(objects),
            other,
        ),
{
    assert(objects.push(j).drop_last() =~= objects);
    lemma_metrics_ascend(objects);
    lemma_inserted(metrics_in(objects), lowered(name), expr);
}

/// The last event of a name stands; it leaves those of other names. An object that names no
/// event and follows no template defines none.
pub proof fn law_the_last_event_of_a_name_stands(
    stds: Seq<(Seq<char>, EntryModel)>,
    objects: Seq<Json>,
    j: Json,
    other: Seq<char>,
)
    ensures
        ({
            let e = entry_of(j);
            let base = template_of(stds, e);
            match event_of(e, base) {
                Some((name, ev)) => if e.named || base is Some {
                    found(events_in(stds, objects.push(j)), name) == Some(ev) && (other != name
                        ==> found(events_in(stds, objects.push(j)), other) == found(
                        events_in(stds, objects),
                        other,
                    ))
                } else {
                    events_in(stds, objects.push(j)) == events_in(stds, objects)
                },
                None => events_in(stds, objects.push(j)) == events_in(stds, objects),
            }
        }),
{
    assert(objects.push(j).drop_last() =~= objects);
    lemma_events_ascend(stds, objects);
    let e = entry_of(j);
    match event_of(e, template_of(stds, e)) {
        Some((name, ev)) => lemma_inserted(events_in(stds, objects), name, ev),
        None => {},
    }
}

/// Every named object is a template.
pub proof fn law_named_objects_are_templates(objects: Seq<Json>, j: Json)
    ensures
        templates(objects.push(j)) == match member_text(j, "EventName"@) {
            Some(name) => inserted(templates(objects), name, entry_of(j)),
            None => templates(objects),
        },
{
    assert(objects.push(j).drop_last() =~= objects);
}

// ------------------------------------------------------------------ aliases

/// The first unit of a name, and the first text of a name, count.
pub proof fn law_the_first_unit_of_a_name_counts(sys: Seq<UnitModel>, name: Seq<char>, i: int)
    ensures
        0 <= i < sys.len() && sys[i].name == name && (forall|k: int|
            0 <= k < i ==> (#[trigger] sys[k]).name != name) ==> unit_named(sys, name) == Some(
            sys[i],
        ),
        (forall|k: int| 0 <= k < sys.len() ==> (#[trigger] sys[k]).name != name) ==> unit_named(
            sys,
            name,
        ) is None,
    decreases sys.len(),
{
    if sys.len() > 0 {
        let rest = sys.skip(1);
        law_the_first_unit_of_a_name_counts(rest, name, i - 1);
        assert forall|k: int| 0 <= k < rest.len() implies #[trigger] rest[k] == sys[k + 1] by {}
        assert((forall|k: int| 0 <= k < sys.len() ==> (#[trigger] sys[k]).name != name)
            ==> sys[0].name != name);
        if 0 < i < sys.len() {
            assert(rest[i - 1] == sys[i]);
            assert((forall|k: int| 0 <= k < i ==> (#[trigger] sys[k]).name != name) ==> sys[0].name
                != name);
        }
    }
}

/// An event that only the kernel knows is that of the first unit with such an alias, and is
/// counted on that unit.
pub proof fn law_the_first_alias_counts(
    sys: Seq<UnitModel>,
    name: Seq<char>,
    i: int,
    text: Seq<char>,
    fields: Seq<(Seq<char>, u64)>,
)
    requires
        0 <= i < sys.len(),
        text_named(sys[i].events, name) == Some(text),
        alias_of(text) == Some(fields),
        forall|k: int| 0 <= k < i ==> text_named((#[trigger] sys[k]).events, name) is None,
    ensures
        kernel_alias(sys, name) == Some(EventModel { fields, unit: sys[i].name }),
    decreases sys.len(),
{
    if i > 0 {
        let rest = sys.skip(1);
        assert(rest[i - 1] == sys[i]);
        assert forall|k: int| 0 <= k < i - 1 implies text_named((#[trigger] rest[k]).events, name)
            is None by {
            assert(rest[k] == sys[k + 1]);
        }
        assert(text_named(sys[0].events, name) is None);
        law_the_first_alias_counts(rest, name, i - 1, text, fields);
    }
}

// ------------------------------------------------------------------ what is counted

/// Of a policy the events that resolve are counted, each under its role, in order; the others
/// are gaps.
pub proof fn law_what_resolves_is_counted(
    db: DbModel,
    sys: Seq<UnitModel>,
    policy: Seq<(Seq<char>, Seq<char>)>,
    role: Seq<char>,
    event: Seq<char>,
)
    ensures
        resolved_roles(db, sys, policy.push((role, event))) == match resolved(
            db.events,
            sys,
            event,
        ) {
            Some((config, etype)) => resolved_roles(db, sys, policy).push(
                (role, EventCfg { etype, config }),
            ),
            None => resolved_roles(db, sys, policy),
        },
        resolved_roles(db, sys, Seq::empty()).len() == 0,
        resolved(db.events, sys, event) matches Some((config, etype)) ==> event_cfg(db, sys, event)
            == (EventCfg { etype, config }),
{
    assert(policy.push((role, event)).drop_last() =~= policy);
}

/// Formulas are told one after the other.
pub proof fn law_formulas_are_told_in_order(
    db: DbModel,
    host: Host,
    groups: Seq<Seq<Seq<char>>>,
    sums: Seq<Option<Double>>,
    chosen: Seq<ChosenModel>,
    c: ChosenModel,
)
    ensures
        chosen_metrics(db, host, groups, sums, chosen.push(c)) == chosen_metrics(
            db,
            host,
            groups,
            sums,
            chosen,
        ) + row(chosen_metric(db, host, groups, sums, c)),
        chosen_metrics(db, host, groups, sums, Seq::empty()).len() == 0,
{
    assert(chosen.push(c).drop_last() =~= chosen);
}

/// An event that is looked up is told with its code in hexadecimal and its type, or as a gap;
/// without a database everything is one.
pub proof fn law_events_are_told_with_code_and_type(
    db: DbModel,
    sys: Seq<UnitModel>,
    name: Seq<char>,
    config: u64,
    etype: u32,
)
    ensures
        event_text(name, Some((config, etype))) == name + "=0x"@ + numeral(config as nat, 16, false)
            + ":"@ + dec(etype as nat),
        event_text(name, None) == name + "=GAP"@,
        looked_up(None, sys, name) is None,
        looked_up(Some(db), sys, name) == resolved(db.events, sys, name),
{
}

/// A line of the first processor's block sets what it names: the vendor, the family or the
/// model. An implementer stands for ARM, where no vendor is known; other lines say nothing.
pub proof fn law_a_line_sets_what_it_names(
    line: Seq<char>,
    rest: Seq<Seq<char>>,
    info: CpuInfo,
    k: Seq<char>,
    v: Seq<char>,
)
    requires
        halves(line, ':') == Some((k, v)),
    ensures
        ({
            let lines = seq![line] + rest;
            let key = trimmed(k);
            let n = match unsigned_of(trimmed(v), 10, u32::MAX as nat) {
                Some(n) => n as u32,
                None => 0,
            };
            &&& key == "vendor_id"@ ==> identified(lines, info) == identified(
                rest,
                CpuInfo { vendor: vendor_named(v), ..info },
            )
            &&& key == "cpu family"@ ==> identified(lines, info) == identified(
                rest,
                CpuInfo { family: n, ..info },
            )
            &&& key == "model"@ ==> identified(lines, info) == identified(
                rest,
                CpuInfo { model: n, ..info },
            )
            &&& key == "CPU implementer"@ && info.vendor == Vendor::Other ==> identified(lines, info)
                == identified(rest, CpuInfo { vendor: Vendor::Arm, ..info })
            &&& key != "vendor_id"@ && key != "cpu family"@ && key != "model"@ && key
                != "CPU implementer"@ && key.len() > 0 ==> identified(lines, info) == identified(
                rest,
                info,
            )
        }),
        identified(Seq::empty(), info) == info,
{
    assert((seq![line] + rest).skip(1) =~= rest);
    reveal_strlit("vendor_id");
    reveal_strlit("cpu family");
    reveal_strlit("model");
    reveal_strlit("CPU implementer");
    reveal_strlit("");
    assert("vendor_id"@.len() == 9 && "cpu family"@.len() == 10 && "model"@.len() == 5
        && "CPU implementer"@.len() == 15);
}

proof fn lemma_no_dash(n: nat)
    ensures
        !dec(n).contains('-'),
        dec(n).len() > 0,
{
    crate::decimal::lemma_numeral_digits(n);
    let s = dec(n);
    assert forall|i: int| 0 <= i < s.len() implies s[i] != '-' by {
        assert(digit_of(s[i], 10) is Some);
    }
}

/// A bit range is written as its first and its last bit, or as one bit.
pub proof fn law_a_range_is_its_first_and_last_bit(a: u8, b: u8)
    ensures
        range_in(dec(a as nat) + seq!['-'] + dec(b as nat)) == Some((a, b)),
        range_in(dec(a as nat)) == Some((a, a)),
{
    let (x, y) = (dec(a as nat), dec(b as nat));
    lemma_no_dash(a as nat);
    crate::decimal::lemma_numeral_digits(a as nat);
    crate::decimal::lemma_numeral_digits(b as nat);
    let s = x + seq!['-'] + y;
    let n = x.len() as int;
    assert forall|j: int| 0 <= j < n implies s[j] != '-' && x[j] != '-' by {
        assert(s[j] == x[j]);
        assert(x.contains(x[j]));
    }
    assert(s[n] == '-');
    lemma_place_is(s, '-', n);
    lemma_place_is(x, '-', n);
    assert(s.take(n) =~= x);
    assert(s.skip(n + 1) =~= y);
}

/// An alias lists fields by name and value; one whose value is no number spoils it.
pub proof fn law_an_alias_lists_its_fields(
    items: Seq<Seq<char>>,
    item: Seq<char>,
    before: Seq<(Seq<char>, u64)>,
    k: Seq<char>,
    v: Seq<char>,
)
    requires
        alias_fields(items) == Some(before),
        halves(item, '=') == Some((k, v)),
    ensures
        alias_fields(items.push(item)) == match code_of(trimmed(v)) {
            Some(n) => Some(before.push((trimmed(k), n as u64))),
            None => None,
        },
{
    assert(items.push(item).drop_last() =~= items);
}

/// Fields are laid out where the formats of the `config` register place them; formats of other
/// registers do not count.
pub proof fn law_formats_of_config_lay_out_fields(
    formats: Seq<(Seq<char>, Seq<char>)>,
    name: Seq<char>,
    text: Seq<char>,
    other: Seq<char>,
)
    ensures
        match format_of(trimmed(text)) {
            Some((reg, ranges)) => if reg == "config"@ {
                found(config_layout(formats.push((name, text))), name) == Some(ranges) && (other
                    != name ==> found(config_layout(formats.push((name, text))), other) == found(
                    config_layout(formats),
                    other,
                ))
            } else {
                config_layout(formats.push((name, text))) == config_layout(formats)
            },
            None => config_layout(formats.push((name, text))) == config_layout(formats),
        },
{
    assert(formats.push((name, text)).drop_last() =~= formats);
    lemma_layout_ascends(formats);
    match format_of(trimmed(text)) {
        Some((reg, ranges)) => lemma_inserted(config_layout(formats), name, ranges),
        None => {},
    }
}

proof fn lemma_layout_ascends(formats: Seq<(Seq<char>, Seq<char>)>)
    ensures
        ascending(config_layout(formats)),
    decreases formats.len(),
{
    if formats.len() > 0 {
        lemma_layout_ascends(formats.drop_last());
        match format_of(trimmed(formats.last().1)) {
            Some((reg, ranges)) => lemma_inserted(
                config_layout(formats.drop_last()),
                formats.last().0,
                ranges,
            ),
            None => {},
        }
    }
}

/// An event is counted by its own code, on its own unit.
pub proof fn law_an_event_is_counted_on_its_unit(
    events: Seq<(Seq<char>, EventModel)>,
    sys: Seq<UnitModel>,
    name: Seq<char>,
    ev: EventModel,
)
    requires
        found(events, name) == Some(ev) || (found(events, name) is None && kernel_alias(sys, name)
            == Some(ev)),
    ensures
        resolved(events, sys, name) == match config_of(ev, sys) {
            Some(config) => Some((config, type_of(sys, ev.unit))),
            None => None,
        },
{
}

} // verus!
