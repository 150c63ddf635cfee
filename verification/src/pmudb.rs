//! The event database: perf's `pmu-events` data for one CPU model.
//!
//! Nothing here is hand-coded: event codes and metric formulas come from the
//! `pmu-events` JSON, the bit layout of a config from the kernel's
//! `/sys/devices/<pmu>/format/*` files, and the CPU's model from `mapfile.csv`. If a
//! referenced event is absent, a formula uses a construct outside the language, or a
//! field has no layout, the metric is a gap: a counter is never made up.

use crate::cpu::{model_dirs, models_in, CpuId};
use crate::json::{
    get, get_text, items_in, json_of, json_parsed, member, member_text, parse, text_in, Json,
};
use crate::pmu::TYPE_RAW;
use crate::table::{found, inserted, lemma_viewed_found, lemma_viewed_inserted, viewed, Table};
use crate::text::{
    chars_of, code_of, contains_text, halves, is, lines_of, lower_text, lowered, owned,
    parse_code, parse_u32, parse_u8, pieces, same, split, split_once, string_of, strings, texts,
    trim, trimmed, unsigned_of,
};
use vstd::prelude::*;

verus! {

// ------------------------------------------------------------------ events

/// A perf event definition: the fields that are encoded, and the PMU that counts it.
#[derive(Debug)]
pub struct EventDef {
    /// Name of a sysfs format field, and its value.
    pub fields: Vec<(String, u64)>,
    /// The PMU, such as `cpu`, `cpu_core` or `armv8_pmuv3_0`.
    pub unit: String,
}

/// What an [`EventDef`] is.
#[verifier::ext_equal]
pub struct EventModel {
    pub fields: Seq<(Seq<char>, u64)>,
    pub unit: Seq<char>,
}

/// What a list of fields is.
pub open spec fn fields_of(v: Seq<(String, u64)>) -> Seq<(Seq<char>, u64)> {
    v.map_values(|f: (String, u64)| (f.0@, f.1))
}

impl View for EventDef {
    type V = EventModel;

    open spec fn view(&self) -> EventModel {
        EventModel { fields: fields_of(self.fields@), unit: self.unit@ }
    }
}

/// The data for one CPU model.
pub struct PmuDb {
    pub model_dir: String,
    /// Keyed by the event's name in lower case.
    pub events: Table<EventDef>,
    /// The formula of each metric, keyed by its name in lower case.
    pub metrics: Table<String>,
}

impl EventDef {
    pub fn copy(&self) -> (r: EventDef)
        ensures
            r@ == self@,
    {
        let mut fields: Vec<(String, u64)> = Vec::new();
        let mut i: usize = 0;
        while i < self.fields.len()
            invariant
                i <= self.fields.len(),
                fields_of(fields@) == fields_of(self.fields@).take(i as int),
            decreases self.fields.len() - i,
        {
            let ghost before = fields@;
            let f: &(String, u64) = &self.fields[i];
            fields.push((f.0.clone(), f.1));
            assert(fields_of(fields@) =~= fields_of(before).push((f.0@, f.1)));
            i += 1;
            assert(fields_of(self.fields@).take(i as int) =~= fields_of(self.fields@).take(
                i - 1,
            ).push((f.0@, f.1)));
        }
        assert(fields_of(self.fields@).take(i as int) =~= fields_of(self.fields@));
        EventDef { fields, unit: self.unit.clone() }
    }
}

// ------------------------------------------------------------------ JSON entries

/// A number that JSON writes as one, or as text in hexadecimal or decimal.
pub open spec fn code_in(j: Json) -> Option<u64> {
    match j {
        Json::Text(s) => match code_of(trimmed(s)) {
            Some(n) => Some(n as u64),
            None => None,
        },
        Json::Number { count, .. } => count,
        _ => None,
    }
}

/// A number that JSON writes as one, or as text in hexadecimal or decimal.
pub fn hex_or_dec(v: &serde_json::Value) -> (r: Option<u64>)
    ensures
        r == code_in(json_of(*v)),
{
    match v.as_str() {
        Some(s) => {
            let c: Vec<char> = chars_of(s);
            parse_code(trim(c.as_slice()))
        },
        None => v.as_u64(),
    }
}

/// The JSON name of an encoded field.
pub open spec fn json_name(i: int) -> Seq<char> {
    if i == 0 {
        "EventCode"@
    } else if i == 1 {
        "UMask"@
    } else if i == 2 {
        "Cmask"@
    } else if i == 3 {
        "Inv"@
    } else {
        "Edge"@
    }
}

/// The sysfs name of an encoded field.
pub open spec fn sysfs_name(i: int) -> Seq<char> {
    if i == 0 {
        "event"@
    } else if i == 1 {
        "umask"@
    } else if i == 2 {
        "cmask"@
    } else if i == 3 {
        "inv"@
    } else {
        "edge"@
    }
}

/// What is read of one object of the JSON: a metric, an event, or both.
pub struct Entry {
    pub metric_name: Option<String>,
    pub metric_expr: Option<String>,
    /// The name of the template that the event inherits from.
    pub std_event: Option<String>,
    /// Whether there is an event name at all.
    pub named: bool,
    pub event_name: Option<String>,
    /// The values of the encoded fields: event, umask, cmask, inv, edge.
    pub codes: Vec<Option<u64>>,
    /// Whether there is a unit, and its name where it is text.
    pub unit: Option<Option<String>>,
}

/// What an [`Entry`] is.
#[verifier::ext_equal]
pub struct EntryModel {
    pub metric_name: Option<Seq<char>>,
    pub metric_expr: Option<Seq<char>>,
    pub std_event: Option<Seq<char>>,
    pub named: bool,
    pub event_name: Option<Seq<char>>,
    pub codes: Seq<Option<u64>>,
    pub unit: Option<Option<Seq<char>>>,
}

impl View for Entry {
    type V = EntryModel;

    open spec fn view(&self) -> EntryModel {
        EntryModel {
            metric_name: owned(self.metric_name),
            metric_expr: owned(self.metric_expr),
            std_event: owned(self.std_event),
            named: self.named,
            event_name: owned(self.event_name),
            codes: self.codes@,
            unit: match self.unit {
                Some(u) => Some(owned(u)),
                None => None,
            },
        }
    }
}

/// The number in a member.
pub open spec fn member_code(j: Json, key: Seq<char>) -> Option<u64> {
    match member(j, key) {
        Some(m) => code_in(m),
        None => None,
    }
}

/// What a JSON object says.
pub open spec fn entry_of(j: Json) -> EntryModel {
    EntryModel {
        metric_name: member_text(j, "MetricName"@),
        metric_expr: member_text(j, "MetricExpr"@),
        std_event: member_text(j, "ArchStdEvent"@),
        named: member(j, "EventName"@) is Some,
        event_name: member_text(j, "EventName"@),
        codes: Seq::new(5, |i: int| member_code(j, json_name(i))),
        unit: match member(j, "Unit"@) {
            Some(u) => Some(text_in(u)),
            None => None,
        },
    }
}

fn own(s: Option<&str>) -> (r: Option<String>)
    ensures
        owned(r) == match s {
            Some(s) => Some(s@),
            None => None,
        },
{
    match s {
        Some(s) => Some(s.to_string()),
        None => None,
    }
}

fn get_code(v: &serde_json::Value, key: &str) -> (r: Option<u64>)
    ensures
        r == member_code(json_of(*v), key@),
{
    match get(v, key) {
        Some(m) => hex_or_dec(m),
        None => None,
    }
}

/// Reads what a JSON object says.
pub fn read_entry(v: &serde_json::Value) -> (r: Entry)
    ensures
        r@ == entry_of(json_of(*v)),
{
    let codes: Vec<Option<u64>> = vec![
        get_code(v, "EventCode"),
        get_code(v, "UMask"),
        get_code(v, "Cmask"),
        get_code(v, "Inv"),
        get_code(v, "Edge"),
    ];
    assert(codes@ =~= entry_of(json_of(*v)).codes);
    let unit: Option<Option<String>> = match get(v, "Unit") {
        Some(u) => Some(own(u.as_str())),
        None => None,
    };
    Entry {
        metric_name: own(get_text(v, "MetricName")),
        metric_expr: own(get_text(v, "MetricExpr")),
        std_event: own(get_text(v, "ArchStdEvent")),
        named: get(v, "EventName").is_some(),
        event_name: own(get_text(v, "EventName")),
        codes,
        unit,
    }
}

/// The value of an encoded field: the entry's own, else its template's.
pub open spec fn field_value(m: EntryModel, base: Option<EntryModel>, i: int) -> Option<u64> {
    match m.codes[i] {
        Some(v) => Some(v),
        None => match base {
            Some(b) => b.codes[i],
            None => None,
        },
    }
}

/// The encoded fields up to the `n`th. A field that is zero is left out, but for the
/// event code.
pub open spec fn encoded_fields(m: EntryModel, base: Option<EntryModel>, n: nat) -> Seq<
    (Seq<char>, u64),
>
    decreases n,
{
    if n == 0 {
        Seq::empty()
    } else {
        let before = encoded_fields(m, base, (n - 1) as nat);
        match field_value(m, base, n - 1) {
            Some(v) => if v != 0 || n == 1 {
                before.push((sysfs_name(n - 1), v))
            } else {
                before
            },
            None => before,
        }
    }
}

/// The unit that an entry names; `cpu` where it names none.
pub open spec fn unit_name(u: Option<Seq<char>>) -> Seq<char> {
    match u {
        Some(u) => u,
        None => "cpu"@,
    }
}

/// The event that an entry defines, with what it does not say taken from the template
/// `base`; none where neither names it.
pub open spec fn event_of(m: EntryModel, base: Option<EntryModel>) -> Option<
    (Seq<char>, EventModel),
> {
    let name = match m.event_name {
        Some(n) => Some(n),
        None => match base {
            Some(b) => b.event_name,
            None => None,
        },
    };
    let unit = match m.unit {
        Some(u) => unit_name(u),
        None => match base {
            Some(b) => match b.unit {
                Some(u) => unit_name(u),
                None => "cpu"@,
            },
            None => "cpu"@,
        },
    };
    match name {
        Some(n) => Some(
            (lowered(n), EventModel { fields: encoded_fields(m, base, 5), unit }),
        ),
        None => None,
    }
}

pub open spec fn entry_model(e: Option<&Entry>) -> Option<EntryModel> {
    match e {
        Some(e) => Some(e@),
        None => None,
    }
}

fn unit_or_cpu(u: &Option<String>) -> (r: String)
    ensures
        r@ == unit_name(owned(*u)),
{
    match u {
        Some(u) => u.clone(),
        None => "cpu".to_string(),
    }
}

/// Reads the event that an entry defines.
pub fn parse_event(m: &Entry, base: Option<&Entry>) -> (r: Option<(String, EventDef)>)
    requires
        m.codes@.len() == 5,
        base matches Some(b) ==> b.codes@.len() == 5,
    ensures
        match r {
            Some((name, ev)) => event_of(m@, entry_model(base)) == Some((name@, ev@)),
            None => event_of(m@, entry_model(base)) is None,
        },
{
    let name: &String = match &m.event_name {
        Some(n) => n,
        None => match base {
            Some(b) => match &b.event_name {
                Some(n) => n,
                None => {
                    return None;
                },
            },
            None => {
                return None;
            },
        },
    };
    let mut fields: Vec<(String, u64)> = Vec::new();
    let mut i: usize = 0;
    assert(fields_of(fields@) =~= Seq::empty());
    while i < 5
        invariant
            i <= 5,
            m.codes@.len() == 5,
            base matches Some(b) ==> b.codes@.len() == 5,
            fields_of(fields@) == encoded_fields(m@, entry_model(base), i as nat),
        decreases 5 - i,
    {
        let value: Option<u64> = match m.codes[i] {
            Some(v) => Some(v),
            None => match base {
                Some(b) => b.codes[i],
                None => None,
            },
        };
        match value {
            Some(v) => {
                if v != 0 || i == 0 {
                    let key: &str = match i {
                        0 => "event",
                        1 => "umask",
                        2 => "cmask",
                        3 => "inv",
                        _ => "edge",
                    };
                    let ghost before = fields_of(fields@);
                    fields.push((key.to_string(), v));
                    assert(fields_of(fields@) =~= before.push((key@, v)));
                }
            },
            None => {},
        }
        i += 1;
    }
    let unit: String = match &m.unit {
        Some(u) => unit_or_cpu(u),
        None => match base {
            Some(b) => match &b.unit {
                Some(u) => unit_or_cpu(u),
                None => "cpu".to_string(),
            },
            None => "cpu".to_string(),
        },
    };
    Some((lower_text(name.as_str()), EventDef { fields, unit }))
}

// ------------------------------------------------------------------ loading

/// The objects of the files that hold a JSON array; any other file is passed over.
pub open spec fn objects_in(files: Seq<Seq<char>>) -> Seq<Json>
    decreases files.len(),
{
    if files.len() == 0 {
        Seq::empty()
    } else {
        objects_in(files.drop_last()) + match json_parsed(files.last()) {
            Some(j) => match items_in(j) {
                Some(items) => items,
                None => Seq::empty(),
            },
            None => Seq::empty(),
        }
    }
}

/// The templates: each named event of the objects, the last of a name standing.
pub open spec fn templates(objects: Seq<Json>) -> Seq<(Seq<char>, EntryModel)>
    decreases objects.len(),
{
    if objects.len() == 0 {
        Seq::empty()
    } else {
        let before = templates(objects.drop_last());
        let e = entry_of(objects.last());
        match e.event_name {
            Some(name) => inserted(before, name, e),
            None => before,
        }
    }
}

/// The metrics of the objects, the last of a name standing.
pub open spec fn metrics_in(objects: Seq<Json>) -> Seq<(Seq<char>, Seq<char>)>
    decreases objects.len(),
{
    if objects.len() == 0 {
        Seq::empty()
    } else {
        let before = metrics_in(objects.drop_last());
        let e = entry_of(objects.last());
        match (e.metric_name, e.metric_expr) {
            (Some(name), Some(expr)) => inserted(before, lowered(name), expr),
            _ => before,
        }
    }
}

/// The template that an entry inherits from.
pub open spec fn template_of(
    stds: Seq<(Seq<char>, EntryModel)>,
    e: EntryModel,
) -> Option<EntryModel> {
    match e.std_event {
        Some(name) => found(stds, name),
        None => None,
    }
}

/// The events of the objects, the last of a name standing.
pub open spec fn events_in(stds: Seq<(Seq<char>, EntryModel)>, objects: Seq<Json>) -> Seq<
    (Seq<char>, EventModel),
>
    decreases objects.len(),
{
    if objects.len() == 0 {
        Seq::empty()
    } else {
        let before = events_in(stds, objects.drop_last());
        let e = entry_of(objects.last());
        let base = template_of(stds, e);
        if e.named || base is Some {
            match event_of(e, base) {
                Some((name, ev)) => inserted(before, name, ev),
                None => before,
            }
        } else {
            before
        }
    }
}

/// The entries of the objects.
pub open spec fn entries_of(objects: Seq<Json>) -> Seq<EntryModel> {
    objects.map_values(|j: Json| entry_of(j))
}

/// What a list of entries is.
pub open spec fn entry_models(v: Seq<Entry>) -> Seq<EntryModel> {
    v.map_values(|e: Entry| e@)
}

/// Reads the objects of the files that hold a JSON array.
pub fn read_entries(files: &Vec<String>) -> (r: Vec<Entry>)
    ensures
        entry_models(r@) == entries_of(objects_in(strings(files@))),
        forall|i: int| 0 <= i < r@.len() ==> (#[trigger] r@[i]).codes@.len() == 5,
{
    let mut out: Vec<Entry> = Vec::new();
    let ghost all = strings(files@);
    let mut f: usize = 0;
    assert(all.take(0) =~= Seq::empty());
    assert(entry_models(out@) =~= entries_of(objects_in(all.take(0))));
    while f < files.len()
        invariant
            f <= files.len(),
            all == strings(files@),
            entry_models(out@) == entries_of(objects_in(all.take(f as int))),
            forall|i: int| 0 <= i < out@.len() ==> (#[trigger] out@[i]).codes@.len() == 5,
        decreases files.len() - f,
    {
        let ghost so_far = objects_in(all.take(f as int));
        proof {
            let next = all.take(f + 1);
            assert(next.drop_last() =~= all.take(f as int));
            assert(next.last() == files@[f as int]@);
            assert(so_far + Seq::<Json>::empty() =~= so_far);
        }
        match parse(files[f].as_str()) {
            None => {},
            Some(doc) => {
                match doc.as_array() {
                    None => {},
                    Some(items) => {
                        let ghost objects = items_in(json_of(doc))->0;
                        let mut i: usize = 0;
                        assert(so_far + objects.take(0) =~= so_far);
                        while i < items.len()
                            invariant
                                i <= items.len(),
                                items@.len() == objects.len(),
                                forall|k: int|
                                    0 <= k < items@.len() ==> json_of(#[trigger] items@[k])
                                        == objects[k],
                                entry_models(out@) == entries_of(
                                    so_far + objects.take(i as int),
                                ),
                                forall|i: int|
                                    0 <= i < out@.len() ==> (#[trigger] out@[i]).codes@.len() == 5,
                            decreases items.len() - i,
                        {
                            let ghost before = out@;
                            let e: Entry = read_entry(&items[i]);
                            assert(e@.codes.len() == 5);
                            out.push(e);
                            proof {
                                assert(entry_models(out@) =~= entry_models(before).push(e@));
                                let a = so_far + objects.take(i as int);
                                let b = so_far + objects.take(i + 1);
                                assert(b =~= a.push(objects[i as int]));
                                assert(entries_of(b) =~= entries_of(a).push(
                                    entry_of(objects[i as int]),
                                ));
                            }
                            i += 1;
                        }
                        assert(objects.take(i as int) =~= objects);
                    },
                }
            },
        }
        f += 1;
    }
    assert(all.take(f as int) =~= all);
    out
}


/// Architecture-shared event templates, by name. Each model's entries may inherit from
/// them and override them.
pub fn arch_std_events(files: &Vec<String>) -> (r: Table<Entry>)
    ensures
        viewed(r@) == templates(objects_in(strings(files@))),
        forall|i: int| 0 <= i < r@.len() ==> (#[trigger] r@[i]).1.codes@.len() == 5,
{
    let entries: Vec<Entry> = read_entries(files);
    let ghost objects = objects_in(strings(files@));
    let mut out: Table<Entry> = Table::new();
    assert(objects.take(0) =~= Seq::empty());
    assert(viewed(out@) =~= templates(objects.take(0)));
    let mut i: usize = 0;
    let n: usize = entries.len();
    let mut rest: Vec<Entry> = entries;
    let ghost models = entries_of(objects);
    assert(models.skip(0) =~= models);
    while i < n
        invariant
            i <= n,
            n == objects.len(),
            models == entries_of(objects),
            rest@.len() == n - i,
            entry_models(rest@) == models.skip(i as int),
            viewed(out@) == templates(objects.take(i as int)),
            forall|k: int| 0 <= k < rest@.len() ==> (#[trigger] rest@[k]).codes@.len() == 5,
            forall|k: int| 0 <= k < out@.len() ==> (#[trigger] out@[k]).1.codes@.len() == 5,
        decreases n - i,
    {
        let ghost held = rest@;
        let e: Entry = rest.remove(0);
        proof {
            assert(e@ == entry_models(held)[0]);
            assert(models.skip(i as int)[0] == models[i as int]);
            assert(e@ == entry_of(objects[i as int]));
            let next = objects.take(i + 1);
            assert(next.drop_last() =~= objects.take(i as int));
            assert(entry_models(rest@) =~= models.skip(i + 1)) by {
                assert forall|k: int| 0 <= k < rest@.len() implies entry_models(rest@)[k]
                    == models.skip(i + 1)[k] by {
                    assert(rest@[k] == held[k + 1]);
                    assert(entry_models(held)[k + 1] == models.skip(i as int)[k + 1]);
                }
            }
            assert forall|k: int| 0 <= k < rest@.len() implies (#[trigger] rest@[k]).codes@.len()
                == 5 by {
                assert(rest@[k] == held[k + 1]);
            }
            assert(held[0].codes@.len() == 5);
        }
        let name: Option<String> = match &e.event_name {
            Some(n) => Some(n.clone()),
            None => None,
        };
        match name {
            Some(key) => {
                let ghost rows = out@;
                proof {
                    lemma_viewed_inserted(rows, key@, e);
                    crate::table::lemma_place(rows, key@);
                }
                out.insert(key, e);
                proof {
                    assert forall|k: int| 0 <= k < out@.len() implies (
                    #[trigger] out@[k]).1.codes@.len() == 5 by {
                        let p = crate::table::place(rows, key@);
                        if k < p {
                            assert(out@[k] == rows[k]);
                        } else if k > p {
                            if p < rows.len() && rows[p].0 == key@ {
                                assert(out@[k] == rows[k]);
                            } else {
                                assert(out@[k] == rows[k - 1]);
                            }
                        }
                    }
                }
            },
            None => {},
        }
        i += 1;
    }
    assert(objects.take(i as int) =~= objects);
    out
}

/// Load the event and metric JSON of a model: `std_files` are the texts of the
/// architecture's template files, `files` those of the model's own.
pub fn load(std_files: &Vec<String>, files: &Vec<String>) -> (r: PmuDb)
    ensures
        viewed(r.events@) == events_in(
            templates(objects_in(strings(std_files@))),
            objects_in(strings(files@)),
        ),
        viewed(r.metrics@) == metrics_in(objects_in(strings(files@))),
        r.model_dir@ == ""@,
{
    let stds: Table<Entry> = arch_std_events(std_files);
    let ghost bases = templates(objects_in(strings(std_files@)));
    let entries: Vec<Entry> = read_entries(files);
    let ghost objects = objects_in(strings(files@));
    let mut events: Table<EventDef> = Table::new();
    let mut metrics: Table<String> = Table::new();
    let mut i: usize = 0;
    proof {
        assert(objects.take(0) =~= Seq::empty());
        assert(viewed(events@) =~= events_in(bases, objects.take(0)));
        assert(viewed(metrics@) =~= metrics_in(objects.take(0)));
        assert(entry_models(entries@).len() == entries_of(objects).len());
    }
    while i < entries.len()
        invariant
            i <= entries.len(),
            entries@.len() == objects.len(),
            entry_models(entries@) == entries_of(objects),
            viewed(stds@) == bases,
            forall|k: int| 0 <= k < entries@.len() ==> (#[trigger] entries@[k]).codes@.len() == 5,
            forall|k: int| 0 <= k < stds@.len() ==> (#[trigger] stds@[k]).1.codes@.len() == 5,
            viewed(events@) == events_in(bases, objects.take(i as int)),
            viewed(metrics@) == metrics_in(objects.take(i as int)),
        decreases entries.len() - i,
    {
        let e: &Entry = &entries[i];
        proof {
            assert(entry_models(entries@)[i as int] == e@);
            assert(entries_of(objects)[i as int] == entry_of(objects[i as int]));
            assert(objects.take(i + 1).drop_last() =~= objects.take(i as int));
        }
        match (&e.metric_name, &e.metric_expr) {
            (Some(name), Some(expr)) => {
                let key: String = lower_text(name.as_str());
                let value: String = expr.clone();
                proof {
                    lemma_viewed_inserted(metrics@, key@, value);
                }
                metrics.insert(key, value);
            },
            _ => {},
        }
        let base: Option<&Entry> = match &e.std_event {
            Some(name) => {
                proof {
                    lemma_viewed_found(stds@, name@);
                    crate::table::lemma_place(stds@, name@);
                }
                stds.get(name.as_str())
            },
            None => None,
        };
        if e.named || base.is_some() {
            match parse_event(e, base) {
                Some((name, ev)) => {
                    proof {
                        lemma_viewed_inserted(events@, name@, ev);
                    }
                    events.insert(name, ev);
                },
                None => {},
            }
        }
        i += 1;
    }
    assert(objects.take(i as int) =~= objects);
    PmuDb { model_dir: "".to_string(), events, metrics }
}

/// The first of a CPU's models that has data.
pub open spec fn first_with_data(models: Seq<Seq<char>>, dirs: Seq<Seq<char>>) -> Option<Seq<char>>
    decreases models.len(),
{
    if models.len() == 0 {
        None
    } else if dirs.contains(models[0]) {
        Some(models[0])
    } else {
        first_with_data(models.skip(1), dirs)
    }
}

/// The model whose data is loaded: the first that the map gives for the CPU and that has a
/// directory. None for a CPU that is not known or not in the map: no model is guessed.
pub open spec fn model_named(
    cpu: Option<CpuId>,
    mapfile: Option<Seq<char>>,
    dirs: Seq<Seq<char>>,
) -> Option<Seq<char>> {
    match (cpu, mapfile) {
        (Some(id), Some(map)) => first_with_data(
            models_in(lines_of(map), strings(id.keys@)),
            dirs,
        ),
        _ => None,
    }
}

/// The model whose data is to be loaded: of a CPU, by the text of its architecture's
/// `mapfile.csv`. `dirs` are the models that have a directory.
pub fn detect_model_dir(cpu: Option<&CpuId>, mapfile: Option<&str>, dirs: &Vec<String>) -> (r:
    Option<String>)
    ensures
        owned(r) == model_named(
            match cpu {
                Some(id) => Some(*id),
                None => None,
            },
            match mapfile {
                Some(map) => Some(map@),
                None => None,
            },
            strings(dirs@),
        ),
{
    match (cpu, mapfile) {
        (Some(id), Some(map)) => {
            let models: Vec<String> = model_dirs(id, map);
            let ghost all = strings(models@);
            let mut i: usize = 0;
            assert(all.skip(0) =~= all);
            while i < models.len()
                invariant
                    i <= models.len(),
                    all == strings(models@),
                    all == models_in(lines_of(map@), strings(id.keys@)),
                    cpu == Some(id),
                    mapfile == Some(map),
                    first_with_data(all, strings(dirs@)) == first_with_data(
                        all.skip(i as int),
                        strings(dirs@),
                    ),
                decreases models.len() - i,
            {
                proof {
                    assert(all.skip(i as int)[0] == models@[i as int]@);
                    assert(all.skip(i as int).skip(1) =~= all.skip(i + 1));
                }
                if contains_text(dirs, models[i].as_str()) {
                    return Some(models[i].as_str().to_string());
                }
                i += 1;
            }
            None
        },
        _ => None,
    }
}

/// The loaded data of a model, under the model's name; none where the model is not known.
pub fn detect(model: Option<String>, std_files: &Vec<String>, files: &Vec<String>) -> (r: Option<
    PmuDb,
>)
    ensures
        match (model, r) {
            (Some(name), Some(db)) => {
                &&& viewed(db.events@) == events_in(
                    templates(objects_in(strings(std_files@))),
                    objects_in(strings(files@)),
                )
                &&& viewed(db.metrics@) == metrics_in(objects_in(strings(files@)))
                &&& db.model_dir@ == name@
            },
            (None, None) => true,
            _ => false,
        },
{
    match model {
        Some(name) => {
            let db: PmuDb = load(std_files, files);
            Some(PmuDb { model_dir: name, events: db.events, metrics: db.metrics })
        },
        None => None,
    }
}

// ------------------------------------------------------------------ sysfs layout

/// A bit range of a format: two bit numbers with `-` between them, or one.
pub open spec fn range_in(part: Seq<char>) -> Option<(u8, u8)> {
    match halves(part, '-') {
        Some((a, b)) => match (bit_number(a), bit_number(b)) {
            (Some(a), Some(b)) => Some((a as u8, b as u8)),
            _ => None,
        },
        None => match bit_number(part) {
            Some(a) => Some((a as u8, a as u8)),
            None => None,
        },
    }
}

pub open spec fn bit_number(s: Seq<char>) -> Option<nat> {
    unsigned_of(s, 10, u8::MAX as nat)
}

/// The bit ranges of a format; none where one of them is malformed.
pub open spec fn ranges_in(parts: Seq<Seq<char>>) -> Option<Seq<(u8, u8)>>
    decreases parts.len(),
{
    if parts.len() == 0 {
        Some(Seq::empty())
    } else {
        match (ranges_in(parts.drop_last()), range_in(parts.last())) {
            (Some(before), Some(r)) => Some(before.push(r)),
            _ => None,
        }
    }
}

/// A format: its register, and the bit ranges in it.
pub open spec fn format_of(s: Seq<char>) -> Option<(Seq<char>, Seq<(u8, u8)>)> {
    match halves(trimmed(s), ':') {
        Some((reg, ranges)) => match ranges_in(pieces(ranges, ',')) {
            Some(v) => Some((reg, v)),
            None => None,
        },
        None => None,
    }
}

fn read_range(part: &[char]) -> (r: Option<(u8, u8)>)
    ensures
        r == range_in(part@),
{
    match split_once(part, '-') {
        Some((a, b)) => match (parse_u8(a), parse_u8(b)) {
            (Some(a), Some(b)) => Some((a, b)),
            _ => None,
        },
        None => match parse_u8(part) {
            Some(a) => Some((a, a)),
            None => None,
        },
    }
}

proof fn lemma_bad_range(parts: Seq<Seq<char>>, i: int)
    requires
        0 <= i < parts.len(),
        range_in(parts[i]) is None,
    ensures
        ranges_in(parts) is None,
    decreases parts.len(),
{
    if i < parts.len() - 1 {
        assert(parts.drop_last()[i] == parts[i]);
        lemma_bad_range(parts.drop_last(), i);
    }
}

/// Parse one `/sys/devices/<pmu>/format/<field>` spec, such as `config:0-7,32-35`.
pub fn parse_format(spec: &str) -> (r: Option<(String, Vec<(u8, u8)>)>)
    ensures
        match r {
            Some((reg, ranges)) => format_of(spec@) == Some((reg@, ranges@)),
            None => format_of(spec@) is None,
        },
{
    let v: Vec<char> = chars_of(spec);
    match split_once(trim(v.as_slice()), ':') {
        None => None,
        Some((reg, ranges)) => {
            let parts: Vec<&[char]> = split(ranges, ',');
            let ghost all = texts(parts@);
            let mut out: Vec<(u8, u8)> = Vec::new();
            let mut i: usize = 0;
            assert(all.take(0) =~= Seq::empty());
            while i < parts.len()
                invariant
                    i <= parts.len(),
                    all == texts(parts@),
                    all == pieces(ranges@, ','),
                    halves(trimmed(spec@), ':') == Some((reg@, ranges@)),
                    ranges_in(all.take(i as int)) == Some(out@),
                decreases parts.len() - i,
            {
                proof {
                    let next = all.take(i + 1);
                    assert(next.drop_last() =~= all.take(i as int));
                    assert(next.last() == parts@[i as int]@);
                }
                match read_range(parts[i]) {
                    Some(range) => {
                        out.push(range);
                    },
                    None => {
                        proof {
                            assert(all[i as int] == parts@[i as int]@);
                            lemma_bad_range(all, i as int);
                        }
                        return None;
                    },
                }
                i += 1;
            }
            assert(all.take(i as int) =~= all);
            Some((string_of(reg), out))
        },
    }
}

/// One PMU as the kernel describes it under `/sys/devices/<name>`.
pub struct PmuUnit {
    pub name: String,
    /// The event aliases: name, and text.
    pub events: Vec<(String, String)>,
    /// The formats: field, and text.
    pub formats: Vec<(String, String)>,
    /// The text of the PMU's type.
    pub kind: Option<String>,
}

/// What the kernel says of the PMUs.
pub struct Sysfs {
    pub units: Vec<PmuUnit>,
}

/// What a list of named texts is.
pub open spec fn named_texts(v: Seq<(String, String)>) -> Seq<(Seq<char>, Seq<char>)> {
    v.map_values(|e: (String, String)| (e.0@, e.1@))
}

/// What a [`PmuUnit`] is.
#[verifier::ext_equal]
pub struct UnitModel {
    pub name: Seq<char>,
    pub events: Seq<(Seq<char>, Seq<char>)>,
    pub formats: Seq<(Seq<char>, Seq<char>)>,
    pub kind: Option<Seq<char>>,
}

impl View for PmuUnit {
    type V = UnitModel;

    open spec fn view(&self) -> UnitModel {
        UnitModel {
            name: self.name@,
            events: named_texts(self.events@),
            formats: named_texts(self.formats@),
            kind: owned(self.kind),
        }
    }
}

impl View for Sysfs {
    type V = Seq<UnitModel>;

    open spec fn view(&self) -> Seq<UnitModel> {
        self.units@.map_values(|u: PmuUnit| u@)
    }
}

/// The first PMU of that name.
pub open spec fn unit_named(sys: Seq<UnitModel>, name: Seq<char>) -> Option<UnitModel>
    decreases sys.len(),
{
    if sys.len() == 0 {
        None
    } else if sys[0].name == name {
        Some(sys[0])
    } else {
        unit_named(sys.skip(1), name)
    }
}

/// The layout of the fields that are placed in the `config` register.
pub open spec fn config_layout(formats: Seq<(Seq<char>, Seq<char>)>) -> Seq<
    (Seq<char>, Seq<(u8, u8)>),
>
    decreases formats.len(),
{
    if formats.len() == 0 {
        Seq::empty()
    } else {
        let before = config_layout(formats.drop_last());
        match format_of(trimmed(formats.last().1)) {
            Some((reg, ranges)) => if reg == "config"@ {
                inserted(before, formats.last().0, ranges)
            } else {
                before
            },
            None => before,
        }
    }
}

/// The layout of a PMU; empty where there is no such PMU.
pub open spec fn layout_of(sys: Seq<UnitModel>, pmu: Seq<char>) -> Seq<
    (Seq<char>, Seq<(u8, u8)>),
> {
    match unit_named(sys, pmu) {
        Some(u) => config_layout(u.formats),
        None => Seq::empty(),
    }
}

impl Sysfs {
    fn unit(&self, name: &str) -> (r: Option<&PmuUnit>)
        ensures
            match r {
                Some(u) => unit_named(self@, name@) == Some(u@),
                None => unit_named(self@, name@) is None,
            },
    {
        let mut i: usize = 0;
        assert(self@.skip(0) =~= self@);
        while i < self.units.len()
            invariant
                i <= self.units.len(),
                unit_named(self@, name@) == unit_named(self@.skip(i as int), name@),
            decreases self.units.len() - i,
        {
            assert(self@.skip(i as int)[0] == self.units@[i as int]@);
            assert(self@.skip(i as int).skip(1) =~= self@.skip(i + 1));
            if same(self.units[i].name.as_str(), name) {
                return Some(&self.units[i]);
            }
            i += 1;
        }
        None
    }
}

/// The bit layout of a PMU's config.
pub fn cpu_format(sys: &Sysfs, pmu: &str) -> (r: Table<Vec<(u8, u8)>>)
    ensures
        viewed(r@) == layout_of(sys@, pmu@),
{
    let mut out: Table<Vec<(u8, u8)>> = Table::new();
    assert(viewed(out@) =~= Seq::empty());
    match sys.unit(pmu) {
        None => out,
        Some(u) => {
            let ghost all = named_texts(u.formats@);
            let mut i: usize = 0;
            assert(all.take(0) =~= Seq::empty());
            while i < u.formats.len()
                invariant
                    i <= u.formats.len(),
                    all == named_texts(u.formats@),
                    viewed(out@) == config_layout(all.take(i as int)),
                decreases u.formats.len() - i,
            {
                let f: &(String, String) = &u.formats[i];
                proof {
                    let next = all.take(i + 1);
                    assert(next.drop_last() =~= all.take(i as int));
                    assert(next.last() == (f.0@, f.1@));
                }
                let v: Vec<char> = chars_of(f.1.as_str());
                let body: String = string_of(trim(v.as_slice()));
                match parse_format(body.as_str()) {
                    Some((reg, ranges)) => {
                        if same(reg.as_str(), "config") {
                            let key: String = f.0.clone();
                            proof {
                                lemma_viewed_inserted(out@, key@, ranges);
                            }
                            out.insert(key, ranges);
                        }
                    },
                    None => {},
                }
                i += 1;
            }
            assert(all.take(i as int) =~= all);
            out
        },
    }
}

// ------------------------------------------------------------------ kernel aliases

/// The fields of an event alias (`event=0x3c,umask=0x01`). An item without `=` is passed
/// over; none where a value is no number.
pub open spec fn alias_fields(items: Seq<Seq<char>>) -> Option<Seq<(Seq<char>, u64)>>
    decreases items.len(),
{
    if items.len() == 0 {
        Some(Seq::empty())
    } else {
        match (alias_fields(items.drop_last()), halves(items.last(), '=')) {
            (Some(before), Some((k, v))) => match code_of(trimmed(v)) {
                Some(n) => Some(before.push((trimmed(k), n as u64))),
                None => None,
            },
            (Some(before), None) => Some(before),
            (None, _) => None,
        }
    }
}

/// The event of an alias; none where it has no fields or is malformed.
pub open spec fn alias_of(text: Seq<char>) -> Option<Seq<(Seq<char>, u64)>> {
    match alias_fields(pieces(trimmed(text), ',')) {
        Some(fields) => if fields.len() > 0 {
            Some(fields)
        } else {
            None
        },
        None => None,
    }
}

/// The first text of that name.
pub open spec fn text_named(v: Seq<(Seq<char>, Seq<char>)>, name: Seq<char>) -> Option<Seq<char>>
    decreases v.len(),
{
    if v.len() == 0 {
        None
    } else if v[0].0 == name {
        Some(v[0].1)
    } else {
        text_named(v.skip(1), name)
    }
}

/// The event alias of the first PMU that defines one with this name.
pub open spec fn kernel_alias(sys: Seq<UnitModel>, name: Seq<char>) -> Option<EventModel>
    decreases sys.len(),
{
    if sys.len() == 0 {
        None
    } else {
        match text_named(sys[0].events, name) {
            Some(text) => match alias_of(text) {
                Some(fields) => Some(EventModel { fields, unit: sys[0].name }),
                None => kernel_alias(sys.skip(1), name),
            },
            None => kernel_alias(sys.skip(1), name),
        }
    }
}

proof fn lemma_bad_alias(items: Seq<Seq<char>>, n: int)
    requires
        0 <= n <= items.len(),
        alias_fields(items.take(n)) is None,
    ensures
        alias_fields(items) is None,
    decreases items.len(),
{
    if n < items.len() {
        assert(items.drop_last().take(n) =~= items.take(n));
        lemma_bad_alias(items.drop_last(), n);
    } else {
        assert(items.take(n) =~= items);
    }
}

fn read_alias(text: &str) -> (r: Option<Vec<(String, u64)>>)
    ensures
        match r {
            Some(fields) => alias_of(text@) == Some(fields_of(fields@)),
            None => alias_of(text@) is None,
        },
{
    let v: Vec<char> = chars_of(text);
    let items: Vec<&[char]> = split(trim(v.as_slice()), ',');
    let ghost all = texts(items@);
    let mut out: Vec<(String, u64)> = Vec::new();
    let mut i: usize = 0;
    assert(all.take(0) =~= Seq::empty());
    assert(fields_of(out@) =~= Seq::empty());
    while i < items.len()
        invariant
            i <= items.len(),
            all == texts(items@),
            all == pieces(trimmed(text@), ','),
            alias_fields(all.take(i as int)) == Some(fields_of(out@)),
        decreases items.len() - i,
    {
        proof {
            let next = all.take(i + 1);
            assert(next.drop_last() =~= all.take(i as int));
            assert(next.last() == items@[i as int]@);
        }
        match split_once(items[i], '=') {
            None => {},
            Some((k, v)) => {
                match parse_code(trim(v)) {
                    Some(n) => {
                        let ghost before = fields_of(out@);
                        let key: String = string_of(trim(k));
                        out.push((key, n));
                        assert(fields_of(out@) =~= before.push((key@, n)));
                    },
                    None => {
                        proof {
                            lemma_bad_alias(all, i + 1);
                        }
                        return None;
                    },
                }
            },
        }
        i += 1;
    }
    assert(all.take(i as int) =~= all);
    assert(fields_of(out@).len() == out@.len());
    if out.len() > 0 {
        Some(out)
    } else {
        None
    }
}

fn text_of<'a>(v: &'a Vec<(String, String)>, name: &str) -> (r: Option<&'a String>)
    ensures
        match r {
            Some(t) => text_named(named_texts(v@), name@) == Some(t@),
            None => text_named(named_texts(v@), name@) is None,
        },
{
    let ghost all = named_texts(v@);
    let mut i: usize = 0;
    assert(all.skip(0) =~= all);
    while i < v.len()
        invariant
            i <= v.len(),
            all == named_texts(v@),
            text_named(all, name@) == text_named(all.skip(i as int), name@),
        decreases v.len() - i,
    {
        assert(all.skip(i as int)[0] == (v@[i as int].0@, v@[i as int].1@));
        assert(all.skip(i as int).skip(1) =~= all.skip(i + 1));
        if same(v[i].0.as_str(), name) {
            return Some(&v[i].1);
        }
        i += 1;
    }
    None
}

/// Read a kernel event alias from the first PMU that defines one with this name.
pub fn kernel_event(sys: &Sysfs, name: &str) -> (r: Option<EventDef>)
    ensures
        match r {
            Some(ev) => kernel_alias(sys@, name@) == Some(ev@),
            None => kernel_alias(sys@, name@) is None,
        },
{
    let mut i: usize = 0;
    assert(sys@.skip(0) =~= sys@);
    while i < sys.units.len()
        invariant
            i <= sys.units.len(),
            kernel_alias(sys@, name@) == kernel_alias(sys@.skip(i as int), name@),
        decreases sys.units.len() - i,
    {
        let unit: &PmuUnit = &sys.units[i];
        assert(sys@.skip(i as int)[0] == unit@);
        assert(sys@.skip(i as int).skip(1) =~= sys@.skip(i + 1));
        match text_of(&unit.events, name) {
            Some(text) => {
                match read_alias(text.as_str()) {
                    Some(fields) => {
                        let ev: EventDef = EventDef { fields, unit: unit.name.clone() };
                        assert(ev@ =~= EventModel { fields: fields_of(fields@), unit: unit.name@ });
                        return Some(ev);
                    },
                    None => {},
                }
            },
            None => {},
        }
        i += 1;
    }
    None
}

/// The definition of an event: the database's, else the kernel's alias.
pub open spec fn event_named(
    events: Seq<(Seq<char>, EventModel)>,
    sys: Seq<UnitModel>,
    name: Seq<char>,
) -> Option<EventModel> {
    match found(events, name) {
        Some(ev) => Some(ev),
        None => kernel_alias(sys, name),
    }
}

/// Resolve an event name to its definition. The database wins; otherwise the kernel's
/// event alias of that name, where there is one.
pub fn resolve_event(db: &PmuDb, sys: &Sysfs, name: &str) -> (r: Option<EventDef>)
    ensures
        match r {
            Some(ev) => event_named(viewed(db.events@), sys@, name@) == Some(ev@),
            None => event_named(viewed(db.events@), sys@, name@) is None,
        },
{
    proof {
        lemma_viewed_found(db.events@, name@);
    }
    match db.events.get(name) {
        Some(ev) => Some(ev.copy()),
        None => kernel_event(sys, name),
    }
}


// ------------------------------------------------------------------ encoding

/// The lowest `w` bits.
pub open spec fn low_bits(w: u64) -> u64 {
    if w >= 64 {
        u64::MAX
    } else {
        ((1u64 << w) - 1) as u64
    }
}

/// A value without its lowest `w` bits.
pub open spec fn high_bits(val: u64, w: u64) -> u64 {
    if w >= 64 {
        0
    } else {
        val >> w
    }
}

/// A config with a value placed in bit ranges: its lowest bits in the first range, the
/// next in the second, and so on.
pub open spec fn placed(config: u64, val: u64, ranges: Seq<(u8, u8)>) -> u64
    decreases ranges.len(),
{
    if ranges.len() == 0 {
        config
    } else {
        let (lo, hi) = ranges[0];
        let w = (hi - lo + 1) as u64;
        placed(
            config | ((val & low_bits(w)) << (lo as u64)),
            high_bits(val, w),
            ranges.skip(1),
        )
    }
}

/// Whether the bit ranges are in a 64-bit register.
pub open spec fn in_register(ranges: Seq<(u8, u8)>) -> bool {
    forall|i: int|
        0 <= i < ranges.len() ==> (#[trigger] ranges[i]).0 <= ranges[i].1 && ranges[i].1 < 64
}

/// The config of the fields; none where a field has no layout.
pub open spec fn encoded(fields: Seq<(Seq<char>, u64)>, fmt: Seq<(Seq<char>, Seq<(u8, u8)>)>) -> Option<
    u64,
>
    decreases fields.len(),
{
    if fields.len() == 0 {
        Some(0u64)
    } else {
        match (encoded(fields.drop_last(), fmt), found(fmt, fields.last().0)) {
            (Some(config), Some(ranges)) => Some(placed(config, fields.last().1, ranges)),
            _ => None,
        }
    }
}

/// Whether the layouts of the fields are in a 64-bit register.
pub open spec fn layouts_fit(
    fields: Seq<(Seq<char>, u64)>,
    fmt: Seq<(Seq<char>, Seq<(u8, u8)>)>,
) -> bool {
    forall|i: int|
        0 <= i < fields.len() ==> (found(fmt, (#[trigger] fields[i]).0) matches Some(ranges)
            ==> in_register(ranges))
}

proof fn lemma_missing_layout(
    fields: Seq<(Seq<char>, u64)>,
    fmt: Seq<(Seq<char>, Seq<(u8, u8)>)>,
    i: int,
)
    requires
        0 <= i < fields.len(),
        found(fmt, fields[i].0) is None,
    ensures
        encoded(fields, fmt) is None,
    decreases fields.len(),
{
    if i < fields.len() - 1 {
        assert(fields.drop_last()[i] == fields[i]);
        lemma_missing_layout(fields.drop_last(), fmt, i);
    }
}

fn mask_of(w: u64) -> (r: u64)
    ensures
        r == low_bits(w),
{
    if w >= 64 {
        u64::MAX
    } else {
        assert((1u64 << w) >= 1) by (bit_vector)
            requires
                w < 64,
        ;
        (1u64 << w) - 1
    }
}

fn place_bits(config: u64, val: u64, ranges: &Vec<(u8, u8)>) -> (r: u64)
    requires
        in_register(ranges@),
    ensures
        r == placed(config, val, ranges@),
{
    let mut c: u64 = config;
    let mut v: u64 = val;
    let mut i: usize = 0;
    assert(ranges@.skip(0) =~= ranges@);
    while i < ranges.len()
        invariant
            i <= ranges.len(),
            in_register(ranges@),
            placed(config, val, ranges@) == placed(c, v, ranges@.skip(i as int)),
        decreases ranges.len() - i,
    {
        assert(ranges@.skip(i as int)[0] == ranges@[i as int]);
        assert(ranges@.skip(i as int).skip(1) =~= ranges@.skip(i + 1));
        let (lo, hi) = ranges[i];
        assert(ranges@[i as int].0 <= ranges@[i as int].1);
        let w: u64 = (hi - lo + 1) as u64;
        c = c | ((v & mask_of(w)) << (lo as u64));
        v = if w >= 64 {
            0
        } else {
            v >> w
        };
        i += 1;
    }
    c
}

/// Encode an event into a config with the PMU's bit layout. None is a gap: a field has
/// no layout, and bit positions are not guessed.
pub fn encode(ev: &EventDef, fmt: &Table<Vec<(u8, u8)>>) -> (r: Option<u64>)
    requires
        layouts_fit(ev@.fields, viewed(fmt@)),
    ensures
        r == encoded(ev@.fields, viewed(fmt@)),
{
    let ghost fields = ev@.fields;
    let mut config: u64 = 0;
    let mut i: usize = 0;
    assert(fields.take(0) =~= Seq::empty());
    while i < ev.fields.len()
        invariant
            i <= ev.fields.len(),
            fields == fields_of(ev.fields@),
            layouts_fit(fields, viewed(fmt@)),
            encoded(fields.take(i as int), viewed(fmt@)) == Some(config),
        decreases ev.fields.len() - i,
    {
        let f: &(String, u64) = &ev.fields[i];
        proof {
            assert(fields[i as int] == (f.0@, f.1));
            let next = fields.take(i + 1);
            assert(next.drop_last() =~= fields.take(i as int));
            assert(next.last() == fields[i as int]);
            lemma_viewed_found(fmt@, f.0@);
        }
        match fmt.get(f.0.as_str()) {
            Some(ranges) => {
                assert(in_register(ranges@));
                config = place_bits(config, f.1, ranges);
            },
            None => {
                proof {
                    lemma_missing_layout(fields, viewed(fmt@), i as int);
                }
                return None;
            },
        }
        i += 1;
    }
    assert(fields.take(i as int) =~= fields);
    Some(config)
}

fn ranges_fit(ranges: &Vec<(u8, u8)>) -> (r: bool)
    ensures
        r == in_register(ranges@),
{
    let mut i: usize = 0;
    while i < ranges.len()
        invariant
            i <= ranges.len(),
            forall|k: int|
                0 <= k < i ==> (#[trigger] ranges@[k]).0 <= ranges@[k].1 && ranges@[k].1 < 64,
        decreases ranges.len() - i,
    {
        let (lo, hi) = ranges[i];
        if lo > hi || hi >= 64 {
            assert(!(ranges@[i as int].0 <= ranges@[i as int].1 && ranges@[i as int].1 < 64));
            return false;
        }
        i += 1;
    }
    true
}

/// Whether the layouts that an event uses are in a 64-bit register.
pub fn layout_fits(ev: &EventDef, fmt: &Table<Vec<(u8, u8)>>) -> (r: bool)
    ensures
        r == layouts_fit(ev@.fields, viewed(fmt@)),
{
    let ghost fields = ev@.fields;
    let mut i: usize = 0;
    while i < ev.fields.len()
        invariant
            i <= ev.fields.len(),
            fields == fields_of(ev.fields@),
            forall|k: int|
                0 <= k < i ==> (found(viewed(fmt@), (#[trigger] fields[k]).0) matches Some(ranges)
                    ==> in_register(ranges)),
        decreases ev.fields.len() - i,
    {
        let f: &(String, u64) = &ev.fields[i];
        proof {
            assert(fields[i as int] == (f.0@, f.1));
            lemma_viewed_found(fmt@, f.0@);
        }
        match fmt.get(f.0.as_str()) {
            Some(ranges) => {
                if !ranges_fit(ranges) {
                    return false;
                }
            },
            None => {},
        }
        i += 1;
    }
    true
}

/// The config of an event; none where a field has no layout, or one that is not in a
/// 64-bit register.
pub open spec fn config_of(ev: EventModel, sys: Seq<UnitModel>) -> Option<u64> {
    let fmt = layout_of(sys, ev.unit);
    if layouts_fit(ev.fields, fmt) {
        encoded(ev.fields, fmt)
    } else {
        None
    }
}

/// The config of an event on its PMU.
pub fn event_config(ev: &EventDef, sys: &Sysfs) -> (r: Option<u64>)
    ensures
        r == config_of(ev@, sys@),
{
    let fmt: Table<Vec<(u8, u8)>> = cpu_format(sys, ev.unit.as_str());
    if layout_fits(ev, &fmt) {
        encode(ev, &fmt)
    } else {
        None
    }
}

/// The perf type of a PMU: what the kernel says, else the raw encoding. No name means
/// `cpu`.
pub open spec fn type_of(sys: Seq<UnitModel>, unit: Seq<char>) -> u32 {
    let name = if unit.len() == 0 {
        "cpu"@
    } else {
        unit
    };
    match unit_named(sys, name) {
        Some(u) => match u.kind {
            Some(text) => match unsigned_of(trimmed(text), 10, u32::MAX as nat) {
                Some(n) => n as u32,
                None => TYPE_RAW,
            },
            None => TYPE_RAW,
        },
        None => TYPE_RAW,
    }
}

/// The perf type of a PMU.
pub fn pmu_type(sys: &Sysfs, unit: &str) -> (r: u32)
    ensures
        r == type_of(sys@, unit@),
{
    let v: Vec<char> = chars_of(unit);
    let name: &str = if v.len() == 0 {
        "cpu"
    } else {
        unit
    };
    match sys.unit(name) {
        Some(u) => match &u.kind {
            Some(text) => {
                let t: Vec<char> = chars_of(text.as_str());
                match parse_u32(trim(t.as_slice())) {
                    Some(n) => n,
                    None => TYPE_RAW,
                }
            },
            None => TYPE_RAW,
        },
        None => TYPE_RAW,
    }
}

/// The config and the perf type of an event; none is a gap.
pub open spec fn resolved(
    events: Seq<(Seq<char>, EventModel)>,
    sys: Seq<UnitModel>,
    name: Seq<char>,
) -> Option<(u64, u32)> {
    match event_named(events, sys, name) {
        Some(ev) => match config_of(ev, sys) {
            Some(config) => Some((config, type_of(sys, ev.unit))),
            None => None,
        },
        None => None,
    }
}

/// Resolve an event name to its config and perf type on this host.
pub fn resolve_config_in(db: &PmuDb, sys: &Sysfs, name: &str) -> (r: Option<(u64, u32)>)
    ensures
        r == resolved(viewed(db.events@), sys@, name@),
{
    match resolve_event(db, sys, name) {
        Some(ev) => match event_config(&ev, sys) {
            Some(config) => Some((config, pmu_type(sys, ev.unit.as_str()))),
            None => None,
        },
        None => None,
    }
}

// ------------------------------------------------------------------ laws

/// A value placed in a free bit range reads back from it, cut to the range's width, and
/// every other bit stays as it was.
pub proof fn law_field_reads_back(config: u64, val: u64, lo: u8, hi: u8)
    requires
        lo <= hi < 64,
        config & (low_bits((hi - lo + 1) as u64) << (lo as u64)) == 0,
    ensures
        ({
            let w = (hi - lo + 1) as u64;
            let mask = low_bits(w);
            let r = placed(config, val, seq![(lo, hi)]);
            &&& (r >> (lo as u64)) & mask == val & mask
            &&& r & !(mask << (lo as u64)) == config & !(mask << (lo as u64))
        }),
{
    let w = (hi - lo + 1) as u64;
    let l = lo as u64;
    let ranges = seq![(lo, hi)];
    reveal_with_fuel(placed, 2);
    assert(ranges.skip(1) =~= Seq::empty());
    let m = low_bits(w);
    let r = config | ((val & m) << l);
    assert(placed(config, val, ranges) == r);
    if w >= 64 {
        assert(l == 0);
        assert(config & (0xffff_ffff_ffff_ffffu64 << 0u64) == 0 ==> ((config | ((val
            & 0xffff_ffff_ffff_ffffu64) << 0u64)) >> 0u64) & 0xffff_ffff_ffff_ffffu64 == val
            & 0xffff_ffff_ffff_ffffu64) by (bit_vector);
        assert((config | ((val & 0xffff_ffff_ffff_ffffu64) << 0u64)) & !(
        0xffff_ffff_ffff_ffffu64 << 0u64) == config & !(0xffff_ffff_ffff_ffffu64 << 0u64))
            by (bit_vector);
    } else {
        assert((1u64 << w) >= 1) by (bit_vector)
            requires
                w < 64,
        ;
        assert(((config | ((val & m) << l)) >> l) & m == val & m) by (bit_vector)
            requires
                w < 64,
                w + l <= 64,
                m == ((1u64 << w) - 1) as u64,
                config & (m << l) == 0,
        ;
        assert((config | ((val & m) << l)) & !(m << l) == config & !(m << l)) by (bit_vector);
    }
}

/// An event of the database keeps its encoding whatever aliases the kernel has.
pub proof fn law_database_wins(
    events: Seq<(Seq<char>, EventModel)>,
    sys: Seq<UnitModel>,
    name: Seq<char>,
)
    requires
        found(events, name) is Some,
    ensures
        event_named(events, sys, name) == found(events, name),
{
}

/// A CPU that the map does not list, or whose models have no data, has no model, and so no
/// events and no metrics; a model that is chosen is one of those that the map gives.
pub proof fn law_unknown_cpus_are_a_gap(
    cpu: CpuId,
    map: Seq<char>,
    dirs: Seq<Seq<char>>,
)
    ensures
        model_named(None, Some(map), dirs) is None,
        match model_named(Some(cpu), Some(map), dirs) {
            Some(m) => models_in(lines_of(map), strings(cpu.keys@)).contains(m) && dirs.contains(m),
            None => forall|i: int|
                0 <= i < models_in(lines_of(map), strings(cpu.keys@)).len() ==> !dirs.contains(
                    #[trigger] models_in(lines_of(map), strings(cpu.keys@))[i],
                ),
        },
{
    lemma_first_with_data(models_in(lines_of(map), strings(cpu.keys@)), dirs);
}

proof fn lemma_first_with_data(models: Seq<Seq<char>>, dirs: Seq<Seq<char>>)
    ensures
        match first_with_data(models, dirs) {
            Some(m) => models.contains(m) && dirs.contains(m),
            None => forall|i: int|
                0 <= i < models.len() ==> !dirs.contains(#[trigger] models[i]),
        },
    decreases models.len(),
{
    if models.len() > 0 {
        let rest = models.skip(1);
        lemma_first_with_data(rest, dirs);
        if dirs.contains(models[0]) {
            assert(models.contains(models[0]));
        } else {
            if let Some(m) = first_with_data(rest, dirs) {
                let k = choose|k: int| 0 <= k < rest.len() && rest[k] == m;
                assert(models[k + 1] == m);
            } else {
                assert forall|i: int| 0 <= i < models.len() implies !dirs.contains(
                    #[trigger] models[i],
                ) by {
                    if i > 0 {
                        assert(rest[i - 1] == models[i]);
                    }
                }
            }
        }
    }
}

} // verus!
