//! The data-driven collector: canonical metrics, resolved for a CPU from its event
//! database, counted and evaluated.
//!
//! A metric that the model does not define, whose formula is outside the language, or
//! whose events cannot be encoded is simply absent.

use crate::decimal::{dec, decimal};
use crate::double::{of_int, product, Double};
use crate::evaluate::{evaluate, evaluated, Counts, CountsModel, Env, Host, Scope};
use crate::metric::{metrics_of, percent_metric, push_row, row, Metric, MetricModel};
use crate::pmu::{threads_of, totals, EventCfg, ThreadGroups};
use crate::pmudb::{resolve_config_in, resolved, EventModel, PmuDb, Sysfs, UnitModel};
use crate::table::{found, inserted, lemma_viewed_found, viewed, Table};
use crate::text::{contains_text, owned, same, strings};
use vstd::prelude::*;

verus! {

// ------------------------------------------------------------------ canonical metrics

/// How many canonical metrics there are.
pub const CANON: usize = 4;

/// The most events that one group can hold.
pub const GROUP_MAX: usize = 5;

pub open spec fn canon_key(i: int) -> Seq<char> {
    if i == 0 {
        "topdown_retiring_pct"@
    } else if i == 1 {
        "topdown_frontend_pct"@
    } else if i == 2 {
        "topdown_backend_pct"@
    } else {
        "topdown_badspec_pct"@
    }
}

pub open spec fn canon_label(i: int) -> Seq<char> {
    if i == 0 {
        "Retiring"@
    } else if i == 1 {
        "Frontend bound"@
    } else if i == 2 {
        "Backend bound"@
    } else {
        "Bad speculation"@
    }
}

/// The name that AMD's data gives the metric.
pub open spec fn canon_plain(i: int) -> Seq<char> {
    if i == 0 {
        "retiring"@
    } else if i == 1 {
        "frontend_bound"@
    } else if i == 2 {
        "backend_bound"@
    } else {
        "bad_speculation"@
    }
}

/// The name that Intel's top-down tree gives it.
pub open spec fn canon_tma(i: int) -> Seq<char> {
    if i == 0 {
        "tma_retiring"@
    } else if i == 1 {
        "tma_frontend_bound"@
    } else if i == 2 {
        "tma_backend_bound"@
    } else {
        "tma_bad_speculation"@
    }
}

/// A canonical metric: its key, its label, and its candidate names.
pub struct Canon {
    pub key: &'static str,
    pub label: &'static str,
    pub plain: &'static str,
    pub tma: &'static str,
}

fn canon(i: usize) -> (r: Canon)
    requires
        i < CANON,
    ensures
        r.key@ == canon_key(i as int),
        r.label@ == canon_label(i as int),
        r.plain@ == canon_plain(i as int),
        r.tma@ == canon_tma(i as int),
{
    match i {
        0 => Canon {
            key: "topdown_retiring_pct",
            label: "Retiring",
            plain: "retiring",
            tma: "tma_retiring",
        },
        1 => Canon {
            key: "topdown_frontend_pct",
            label: "Frontend bound",
            plain: "frontend_bound",
            tma: "tma_frontend_bound",
        },
        2 => Canon {
            key: "topdown_backend_pct",
            label: "Backend bound",
            plain: "backend_bound",
            tma: "tma_backend_bound",
        },
        _ => Canon {
            key: "topdown_badspec_pct",
            label: "Bad speculation",
            plain: "bad_speculation",
            tma: "tma_bad_speculation",
        },
    }
}

/// What a [`PmuDb`] is.
pub struct DbModel {
    /// The name of the model whose data it is.
    pub model: Seq<char>,
    pub events: Seq<(Seq<char>, EventModel)>,
    pub metrics: Seq<(Seq<char>, Seq<char>)>,
}

impl View for PmuDb {
    type V = DbModel;

    open spec fn view(&self) -> DbModel {
        DbModel {
            model: self.model_dir@,
            events: viewed(self.events@),
            metrics: viewed(self.metrics@),
        }
    }
}

/// The candidate that a model defines, the plain name first.
pub open spec fn candidate(db: DbModel, i: int) -> Option<Seq<char>> {
    if found(db.metrics, canon_plain(i)) is Some {
        Some(canon_plain(i))
    } else if found(db.metrics, canon_tma(i)) is Some {
        Some(canon_tma(i))
    } else {
        None
    }
}

/// The events that a metric's formula references, each once, in order; none where the
/// formula is outside the language.
pub open spec fn references_of(db: DbModel, host: Host, metric: Seq<char>) -> Option<
    Seq<Seq<char>>,
> {
    match evaluated(
        Env { metrics: db.metrics, host, counts: CountsModel::Every(of_int(1)) },
        metric,
    ) {
        Some((v, asked)) => Some(asked),
        None => None,
    }
}

/// The kernel's aliases for Intel's slots counter and its derived pseudo-events.
pub open spec fn is_kernel_alias(name: Seq<char>) -> bool {
    name == "slots"@ || name == "topdown-retiring"@ || name == "topdown-bad-spec"@ || name
        == "topdown-fe-bound"@ || name == "topdown-be-bound"@ || name == "topdown-heavy-ops"@
        || name == "topdown-br-mispredict"@ || name == "topdown-fetch-lat"@ || name
        == "topdown-mem-bound"@
}

/// Whether an event can be counted on the model: it is in the database, or one of the
/// kernel's aliases.
pub open spec fn is_present(db: DbModel, name: Seq<char>) -> bool {
    found(db.events, name) is Some || is_kernel_alias(name)
}

/// Whether a referenced event can be counted on the target. This is what can be told
/// without the hardware: the kernel's aliases have stable names.
pub fn event_present(db: &PmuDb, name: &str) -> (r: bool)
    ensures
        r == is_present(db@, name@),
{
    proof {
        lemma_viewed_found(db.events@, name@);
    }
    db.events.contains(name) || same(name, "slots") || same(name, "topdown-retiring") || same(
        name,
        "topdown-bad-spec",
    ) || same(name, "topdown-fe-bound") || same(name, "topdown-be-bound") || same(
        name,
        "topdown-heavy-ops",
    ) || same(name, "topdown-br-mispredict") || same(name, "topdown-fetch-lat") || same(
        name,
        "topdown-mem-bound",
    )
}

fn pick_candidate(db: &PmuDb, c: &Canon) -> (r: Option<&'static str>)
    ensures
        match r {
            Some(name) => name@ == if found(db@.metrics, c.plain@) is Some {
                c.plain@
            } else {
                c.tma@
            } && found(db@.metrics, name@) is Some,
            None => found(db@.metrics, c.plain@) is None && found(db@.metrics, c.tma@) is None,
        },
{
    proof {
        lemma_viewed_found(db.metrics@, c.plain@);
        lemma_viewed_found(db.metrics@, c.tma@);
    }
    if db.metrics.contains(c.plain) {
        Some(c.plain)
    } else if db.metrics.contains(c.tma) {
        Some(c.tma)
    } else {
        None
    }
}

/// The value of a metric from measured counts, none where it is a gap.
pub fn eval_metric(db: &PmuDb, host: Host, name: &str, counts: &Counts) -> (r: Option<Double>)
    ensures
        r == match evaluated(Env { metrics: db@.metrics, host, counts: counts@ }, name@) {
            Some((v, asked)) => Some(v),
            None => None,
        },
{
    let scope: Scope = Scope { metrics: &db.metrics, host, counts };
    match evaluate(&scope, name) {
        Some((v, _)) => Some(v),
        None => None,
    }
}

/// The events that a metric's formula references.
pub fn references(db: &PmuDb, host: Host, metric: &str) -> (r: Option<Vec<String>>)
    ensures
        match r {
            Some(v) => references_of(db@, host, metric@) == Some(strings(v@)),
            None => references_of(db@, host, metric@) is None,
        },
{
    let trial: Counts = Counts::Every(Double::from_u64(1));
    let scope: Scope = Scope { metrics: &db.metrics, host, counts: &trial };
    match evaluate(&scope, metric) {
        Some((_, asked)) => Some(asked),
        None => None,
    }
}

// ------------------------------------------------------------------ structural validation

/// Whether a model resolves one canonical metric, and why not.
#[derive(Debug)]
pub struct CanonStatus {
    pub key: &'static str,
    /// The candidate present in this model, if any.
    pub metric: Option<String>,
    pub resolved: bool,
    pub note: String,
}

/// What a [`CanonStatus`] is.
pub struct StatusModel {
    pub key: Seq<char>,
    pub metric: Option<Seq<char>>,
    pub resolved: bool,
    pub note: Seq<char>,
}

impl View for CanonStatus {
    type V = StatusModel;

    open spec fn view(&self) -> StatusModel {
        StatusModel {
            key: self.key@,
            metric: owned(self.metric),
            resolved: self.resolved,
            note: self.note@,
        }
    }
}

/// The first event that is not present.
pub open spec fn first_missing(db: DbModel, refs: Seq<Seq<char>>) -> Option<Seq<char>>
    decreases refs.len(),
{
    if refs.len() == 0 {
        None
    } else if !is_present(db, refs[0]) {
        Some(refs[0])
    } else {
        first_missing(db, refs.skip(1))
    }
}

/// The status of a canonical metric: resolved where the model defines a candidate, its
/// formula is in the language, and every event that it references is present.
pub open spec fn status_of(db: DbModel, host: Host, i: int) -> StatusModel {
    let key = canon_key(i);
    match candidate(db, i) {
        None => StatusModel {
            key,
            metric: None,
            resolved: false,
            note: "no candidate metric in model"@,
        },
        Some(m) => match references_of(db, host, m) {
            None => StatusModel {
                key,
                metric: Some(m),
                resolved: false,
                note: "formula uses an unsupported construct"@,
            },
            Some(refs) => match first_missing(db, refs) {
                Some(e) => StatusModel {
                    key,
                    metric: Some(m),
                    resolved: false,
                    note: "missing event: "@ + e,
                },
                None => StatusModel {
                    key,
                    metric: Some(m),
                    resolved: true,
                    note: dec(refs.len()) + " events"@,
                },
            },
        },
    }
}

fn find_missing(db: &PmuDb, refs: &Vec<String>) -> (r: Option<usize>)
    ensures
        match r {
            Some(i) => i < refs@.len() && first_missing(db@, strings(refs@)) == Some(
                refs@[i as int]@,
            ),
            None => first_missing(db@, strings(refs@)) is None,
        },
{
    let ghost all = strings(refs@);
    let mut i: usize = 0;
    assert(all.skip(0) =~= all);
    while i < refs.len()
        invariant
            i <= refs.len(),
            all == strings(refs@),
            first_missing(db@, all) == first_missing(db@, all.skip(i as int)),
        decreases refs.len() - i,
    {
        assert(all.skip(i as int)[0] == refs@[i as int]@);
        assert(all.skip(i as int).skip(1) =~= all.skip(i + 1));
        if !event_present(db, refs[i].as_str()) {
            return Some(i);
        }
        i += 1;
    }
    None
}

fn check_canon(db: &PmuDb, host: Host, i: usize) -> (r: CanonStatus)
    requires
        i < CANON,
    ensures
        r@ == status_of(db@, host, i as int),
{
    let c: Canon = canon(i);
    match pick_candidate(db, &c) {
        None => CanonStatus {
            key: c.key,
            metric: None,
            resolved: false,
            note: "no candidate metric in model".to_string(),
        },
        Some(name) => {
            match references(db, host, name) {
                None => CanonStatus {
                    key: c.key,
                    metric: Some(name.to_string()),
                    resolved: false,
                    note: "formula uses an unsupported construct".to_string(),
                },
                Some(refs) => {
                    match find_missing(db, &refs) {
                        Some(k) => {
                            let mut note: String = "missing event: ".to_string();
                            note.append(refs[k].as_str());
                            CanonStatus {
                                key: c.key,
                                metric: Some(name.to_string()),
                                resolved: false,
                                note,
                            }
                        },
                        None => {
                            let mut note: String = decimal(refs.len() as u64);
                            note.append(" events");
                            CanonStatus {
                                key: c.key,
                                metric: Some(name.to_string()),
                                resolved: true,
                                note,
                            }
                        },
                    }
                },
            }
        },
    }
}

/// Structural validation of one model's data against the canonical metrics, with no
/// hardware.
pub fn validate_canon(db: &PmuDb, host: Host) -> (r: Vec<CanonStatus>)
    ensures
        r@.len() == CANON,
        forall|i: int| 0 <= i < CANON ==> (#[trigger] r@[i])@ == status_of(db@, host, i),
{
    let mut out: Vec<CanonStatus> = Vec::new();
    let mut i: usize = 0;
    while i < CANON
        invariant
            i <= CANON,
            out@.len() == i,
            forall|k: int| 0 <= k < i ==> (#[trigger] out@[k])@ == status_of(db@, host, k),
        decreases CANON - i,
    {
        out.push(check_canon(db, host, i));
        i += 1;
    }
    out
}

// ------------------------------------------------------------------ packing

/// A canonical metric that was chosen, and the group that holds all its events.
pub struct Chosen {
    pub key: &'static str,
    pub label: &'static str,
    pub metric: String,
    pub group: usize,
}

/// What a [`Chosen`] is.
#[verifier::ext_equal]
pub struct ChosenModel {
    pub key: Seq<char>,
    pub label: Seq<char>,
    pub metric: Seq<char>,
    pub group: nat,
}

impl View for Chosen {
    type V = ChosenModel;

    open spec fn view(&self) -> ChosenModel {
        ChosenModel {
            key: self.key@,
            label: self.label@,
            metric: self.metric@,
            group: self.group as nat,
        }
    }
}

/// A group with the events of a metric added, each once.
pub open spec fn joined_group(g: Seq<Seq<char>>, refs: Seq<Seq<char>>) -> Seq<Seq<char>>
    decreases refs.len(),
{
    if refs.len() == 0 {
        g
    } else {
        let before = joined_group(g, refs.drop_last());
        if before.contains(refs.last()) {
            before
        } else {
            before.push(refs.last())
        }
    }
}

/// The first group that still has room for the events; the number of groups where none
/// has.
pub open spec fn group_with_room(groups: Seq<Seq<Seq<char>>>, refs: Seq<Seq<char>>) -> nat
    decreases groups.len(),
{
    if groups.len() == 0 || joined_group(groups[0], refs).len() <= GROUP_MAX {
        0
    } else {
        1 + group_with_room(groups.skip(1), refs)
    }
}

/// Whether all events can be encoded on this host.
pub open spec fn all_encode(db: DbModel, sys: Seq<UnitModel>, refs: Seq<Seq<char>>) -> bool {
    forall|i: int| 0 <= i < refs.len() ==> resolved(db.events, sys, #[trigger] refs[i]) is Some
}

/// The metrics chosen so far, and the events of the groups.
#[verifier::ext_equal]
pub struct Packing {
    pub chosen: Seq<ChosenModel>,
    pub groups: Seq<Seq<Seq<char>>>,
}

/// The packing with the `i`th canonical metric, where it can be counted: all its events
/// go into one group, so that they are scheduled together.
pub open spec fn packed_one(
    p: Packing,
    db: DbModel,
    sys: Seq<UnitModel>,
    host: Host,
    i: int,
) -> Packing {
    match candidate(db, i) {
        None => p,
        Some(m) => match references_of(db, host, m) {
            None => p,
            Some(refs) => if !all_encode(db, sys, refs) || refs.len() > GROUP_MAX {
                p
            } else {
                let gi = group_with_room(p.groups, refs);
                let g = if gi < p.groups.len() {
                    p.groups[gi as int]
                } else {
                    Seq::empty()
                };
                Packing {
                    chosen: p.chosen.push(
                        ChosenModel {
                            key: canon_key(i),
                            label: canon_label(i),
                            metric: m,
                            group: gi,
                        },
                    ),
                    groups: if gi < p.groups.len() {
                        p.groups.update(gi as int, joined_group(g, refs))
                    } else {
                        p.groups.push(joined_group(g, refs))
                    },
                }
            },
        },
    }
}

/// The packing of the first `n` canonical metrics.
pub open spec fn packed(db: DbModel, sys: Seq<UnitModel>, host: Host, n: nat) -> Packing
    decreases n,
{
    if n == 0 {
        Packing { chosen: Seq::empty(), groups: Seq::empty() }
    } else {
        packed_one(packed(db, sys, host, (n - 1) as nat), db, sys, host, n - 1)
    }
}

/// What a list of groups is.
pub open spec fn group_names(v: Seq<Vec<String>>) -> Seq<Seq<Seq<char>>> {
    v.map_values(|g: Vec<String>| strings(g@))
}

/// What a list of chosen metrics is.
pub open spec fn chosen_of(v: Seq<Chosen>) -> Seq<ChosenModel> {
    v.map_values(|c: Chosen| c@)
}

fn copied_texts(v: &Vec<String>) -> (r: Vec<String>)
    ensures
        strings(r@) == strings(v@),
{
    let mut out: Vec<String> = Vec::new();
    let ghost all = strings(v@);
    let mut i: usize = 0;
    assert(strings(out@) =~= all.take(0));
    while i < v.len()
        invariant
            i <= v.len(),
            all == strings(v@),
            strings(out@) == all.take(i as int),
        decreases v.len() - i,
    {
        let ghost before = out@;
        let s: String = v[i].clone();
        out.push(s);
        assert(strings(out@) =~= strings(before).push(s@));
        i += 1;
        assert(all.take(i as int) =~= all.take(i - 1).push(all[i - 1]));
    }
    assert(all.take(i as int) =~= all);
    out
}

fn join_group(g: &Vec<String>, refs: &Vec<String>) -> (r: Vec<String>)
    ensures
        strings(r@) == joined_group(strings(g@), strings(refs@)),
{
    let mut out: Vec<String> = copied_texts(g);
    let ghost all = strings(refs@);
    let mut i: usize = 0;
    assert(all.take(0) =~= Seq::empty());
    while i < refs.len()
        invariant
            i <= refs.len(),
            all == strings(refs@),
            strings(out@) == joined_group(strings(g@), all.take(i as int)),
        decreases refs.len() - i,
    {
        proof {
            let next = all.take(i + 1);
            assert(next.drop_last() =~= all.take(i as int));
            assert(next.last() == refs@[i as int]@);
        }
        if !contains_text(&out, refs[i].as_str()) {
            let ghost before = out@;
            let s: String = refs[i].clone();
            out.push(s);
            assert(strings(out@) =~= strings(before).push(s@));
        }
        i += 1;
    }
    assert(all.take(i as int) =~= all);
    out
}

fn find_room(groups: &Vec<Vec<String>>, refs: &Vec<String>) -> (r: usize)
    ensures
        r == group_with_room(group_names(groups@), strings(refs@)),
        r <= groups@.len(),
{
    let ghost all = group_names(groups@);
    let ghost names = strings(refs@);
    let mut i: usize = 0;
    assert(all.skip(0) =~= all);
    while i < groups.len()
        invariant
            i <= groups.len(),
            all == group_names(groups@),
            names == strings(refs@),
            group_with_room(all, names) == i + group_with_room(all.skip(i as int), names),
        decreases groups.len() - i,
    {
        assert(all.skip(i as int)[0] == strings(groups@[i as int]@));
        assert(all.skip(i as int).skip(1) =~= all.skip(i + 1));
        let tried: Vec<String> = join_group(&groups[i], refs);
        assert(strings(tried@).len() == tried@.len());
        if tried.len() <= GROUP_MAX {
            return i;
        }
        i += 1;
    }
    i
}

fn encode_all(db: &PmuDb, sys: &Sysfs, refs: &Vec<String>) -> (r: bool)
    ensures
        r == all_encode(db@, sys@, strings(refs@)),
{
    let ghost all = strings(refs@);
    let mut i: usize = 0;
    while i < refs.len()
        invariant
            i <= refs.len(),
            all == strings(refs@),
            forall|k: int| 0 <= k < i ==> resolved(db@.events, sys@, #[trigger] all[k]) is Some,
        decreases refs.len() - i,
    {
        assert(all[i as int] == refs@[i as int]@);
        if resolve_config_in(db, sys, refs[i].as_str()).is_none() {
            return false;
        }
        i += 1;
    }
    true
}

/// The counter groups of a packing.
struct Packer {
    chosen: Vec<Chosen>,
    groups: Vec<Vec<String>>,
}

impl View for Packer {
    type V = Packing;

    closed spec fn view(&self) -> Packing {
        Packing { chosen: chosen_of(self.chosen@), groups: group_names(self.groups@) }
    }
}

fn pack_one(p: Packer, db: &PmuDb, sys: &Sysfs, host: Host, i: usize) -> (r: Packer)
    requires
        i < CANON,
    ensures
        r@ == packed_one(p@, db@, sys@, host, i as int),
{
    let c: Canon = canon(i);
    match pick_candidate(db, &c) {
        None => p,
        Some(name) => {
            match references(db, host, name) {
                None => p,
                Some(refs) => {
                    assert(strings(refs@).len() == refs@.len());
                    if !encode_all(db, sys, &refs) || refs.len() > GROUP_MAX {
                        return p;
                    }
                    let Packer { mut chosen, mut groups } = p;
                    let gi: usize = find_room(&groups, &refs);
                    let ghost before = groups@;
                    if gi < groups.len() {
                        let g: Vec<String> = join_group(&groups[gi], &refs);
                        groups.set(gi, g);
                        assert(group_names(groups@) =~= group_names(before).update(
                            gi as int,
                            strings(g@),
                        ));
                    } else {
                        let empty: Vec<String> = Vec::new();
                        let g: Vec<String> = join_group(&empty, &refs);
                        assert(strings(empty@) =~= Seq::empty());
                        groups.push(g);
                        assert(group_names(groups@) =~= group_names(before).push(strings(g@)));
                    }
                    let ghost had = chosen@;
                    let one: Chosen = Chosen {
                        key: c.key,
                        label: c.label,
                        metric: name.to_string(),
                        group: gi,
                    };
                    chosen.push(one);
                    assert(chosen_of(chosen@) =~= chosen_of(had).push(one@));
                    Packer { chosen, groups }
                },
            }
        },
    }
}

fn pack(db: &PmuDb, sys: &Sysfs, host: Host) -> (r: Packer)
    ensures
        r@ == packed(db@, sys@, host, CANON as nat),
{
    let mut p: Packer = Packer { chosen: Vec::new(), groups: Vec::new() };
    assert(p@ =~= packed(db@, sys@, host, 0)) by {
        assert(chosen_of(p.chosen@) =~= Seq::empty());
        assert(group_names(p.groups@) =~= Seq::empty());
    }
    let mut i: usize = 0;
    while i < CANON
        invariant
            i <= CANON,
            p@ == packed(db@, sys@, host, i as nat),
        decreases CANON - i,
    {
        p = pack_one(p, db, sys, host, i);
        i += 1;
    }
    p
}

// ------------------------------------------------------------------ the collector

/// How an event is counted on this host.
pub open spec fn event_cfg(db: DbModel, sys: Seq<UnitModel>, name: Seq<char>) -> EventCfg {
    match resolved(db.events, sys, name) {
        Some((config, etype)) => EventCfg { etype, config },
        None => EventCfg { etype: 0, config: 0 },
    }
}

/// How the events of a group are counted.
pub open spec fn group_cfgs(db: DbModel, sys: Seq<UnitModel>, g: Seq<Seq<char>>) -> Seq<EventCfg> {
    Seq::new(g.len(), |k: int| event_cfg(db, sys, g[k]))
}

/// How many events stand in the groups before the `gi`th.
pub open spec fn events_before(groups: Seq<Seq<Seq<char>>>, gi: nat) -> nat
    decreases gi,
{
    if gi == 0 {
        0
    } else {
        events_before(groups, (gi - 1) as nat) + groups[gi - 1].len()
    }
}

/// The counts of the first `n` events of a group, which begin at `from` in the totals.
pub open spec fn group_counts(
    names: Seq<Seq<char>>,
    sums: Seq<Option<Double>>,
    from: nat,
    n: nat,
) -> Seq<(Seq<char>, Double)>
    decreases n,
{
    if n == 0 {
        Seq::empty()
    } else {
        let before = group_counts(names, sums, from, (n - 1) as nat);
        if from + n - 1 < sums.len() {
            match sums[from + n - 1] {
                Some(v) => inserted(before, names[n - 1], v),
                None => before,
            }
        } else {
            before
        }
    }
}

/// The metric of a chosen formula, from the counts of its own group; none is a gap.
pub open spec fn chosen_metric(
    db: DbModel,
    host: Host,
    groups: Seq<Seq<Seq<char>>>,
    sums: Seq<Option<Double>>,
    c: ChosenModel,
) -> Option<MetricModel> {
    let names = groups[c.group as int];
    let counts = group_counts(names, sums, events_before(groups, c.group), names.len());
    match evaluated(
        Env { metrics: db.metrics, host, counts: CountsModel::Measured(counts) },
        c.metric,
    ) {
        Some((v, asked)) => Some(percent_metric(c.key, c.label, product(v, of_int(100)))),
        None => None,
    }
}

/// The metrics of the first `n` chosen formulas.
pub open spec fn chosen_metrics(
    db: DbModel,
    host: Host,
    groups: Seq<Seq<Seq<char>>>,
    sums: Seq<Option<Double>>,
    chosen: Seq<ChosenModel>,
) -> Seq<MetricModel>
    decreases chosen.len(),
{
    if chosen.len() == 0 {
        Seq::empty()
    } else {
        chosen_metrics(db, host, groups, sums, chosen.drop_last()) + row(
            chosen_metric(db, host, groups, sums, chosen.last()),
        )
    }
}

/// Resolves the canonical metrics for this CPU, counts exactly the events that their
/// formulas reference, and evaluates them.
pub struct HwpcCollector {
    pub db: Option<PmuDb>,
    pub host: Host,
    pub chosen: Vec<Chosen>,
    /// Event names per group, in the order of the totals.
    pub groups_ev: Vec<Vec<String>>,
    pub groups: ThreadGroups,
}

impl HwpcCollector {
    pub open spec fn wf(&self) -> bool {
        &&& self.groups.wf()
        &&& forall|c: int|
            0 <= c < self.chosen@.len() ==> (#[trigger] self.chosen@[c]).group
                < self.groups_ev@.len()
    }

    fn configs(db: &PmuDb, sys: &Sysfs, g: &Vec<String>) -> (r: Vec<EventCfg>)
        requires
            all_encode(db@, sys@, strings(g@)),
        ensures
            r@ == group_cfgs(db@, sys@, strings(g@)),
    {
        let ghost names = strings(g@);
        let ghost want = group_cfgs(db@, sys@, names);
        let mut out: Vec<EventCfg> = Vec::new();
        let mut i: usize = 0;
        while i < g.len()
            invariant
                i <= g.len(),
                names == strings(g@),
                want == group_cfgs(db@, sys@, names),
                all_encode(db@, sys@, names),
                out@ == want.take(i as int),
            decreases g.len() - i,
        {
            assert(names[i as int] == g@[i as int]@);
            match resolve_config_in(db, sys, g[i].as_str()) {
                Some((config, etype)) => {
                    out.push(EventCfg { etype, config });
                },
                None => {
                    assert(resolved(db@.events, sys@, names[i as int]) is Some);
                },
            }
            i += 1;
            assert(want.take(i as int) =~= want.take(i - 1).push(want[i - 1]));
        }
        assert(want.take(i as int) =~= want);
        out
    }

    /// The collector for a CPU's data on this host; without data it counts nothing.
    pub fn new(db: Option<PmuDb>, sys: &Sysfs, host: Host) -> (r: HwpcCollector)
        ensures
            r.wf(),
            r.db == db,
            r.host == host,
            r.groups.threads@.len() == 0,
            r.groups.seen@.len() == 0,
            match db {
                Some(d) => {
                    let p = packed(d@, sys@, host, CANON as nat);
                    &&& chosen_of(r.chosen@) == p.chosen
                    &&& group_names(r.groups_ev@) == p.groups
                    &&& r.groups.groups@.len() == p.groups.len()
                    &&& forall|g: int|
                        0 <= g < p.groups.len() ==> (#[trigger] r.groups.groups@[g])@ == group_cfgs(
                            d@,
                            sys@,
                            p.groups[g],
                        )
                },
                None => r.chosen@.len() == 0 && r.groups_ev@.len() == 0
                    && r.groups.groups@.len() == 0,
            },
    {
        match db {
            None => HwpcCollector {
                db: None,
                host,
                chosen: Vec::new(),
                groups_ev: Vec::new(),
                groups: ThreadGroups::new(Vec::new()),
            },
            Some(d) => {
                let p: Packer = pack(&d, sys, host);
                let ghost model = p@;
                proof {
                    law_metrics_are_counted_together(d@, sys@, host, CANON as nat);
                }
                let Packer { chosen, groups } = p;
                let mut spec: Vec<Vec<EventCfg>> = Vec::new();
                let mut g: usize = 0;
                while g < groups.len()
                    invariant
                        g <= groups.len(),
                        model.groups == group_names(groups@),
                        sound(model, d@, sys@, host),
                        spec@.len() == g,
                        forall|k: int|
                            0 <= k < g ==> (#[trigger] spec@[k])@ == group_cfgs(
                                d@,
                                sys@,
                                model.groups[k],
                            ),
                    decreases groups.len() - g,
                {
                    assert(model.groups[g as int] == strings(groups@[g as int]@));
                    let cfgs: Vec<EventCfg> = Self::configs(&d, sys, &groups[g]);
                    spec.push(cfgs);
                    g += 1;
                }
                proof {
                    assert forall|c: int| 0 <= c < chosen@.len() implies (
                    #[trigger] chosen@[c]).group < groups@.len() by {
                        assert(model.chosen[c] == chosen@[c]@);
                    }
                }
                HwpcCollector {
                    db: Some(d),
                    host,
                    chosen,
                    groups_ev: groups,
                    groups: ThreadGroups::new(spec),
                }
            },
        }
    }

    pub fn name(&self) -> (r: &'static str)
        ensures
            r@ == "hwpc(pmu-events)"@,
    {
        "hwpc(pmu-events)"
    }

    /// True when at least one metric was resolved, so that the hand-coded top-down
    /// collector is not needed.
    pub fn active(&self) -> (r: bool)
        ensures
            r == (self.chosen@.len() > 0),
    {
        self.chosen.len() > 0
    }

    fn counts(&self, gi: usize, sums: &Vec<Option<Double>>) -> (r: Table<Double>)
        requires
            gi < self.groups_ev@.len(),
        ensures
            r@ == group_counts(
                group_names(self.groups_ev@)[gi as int],
                sums@,
                events_before(group_names(self.groups_ev@), gi as nat),
                self.groups_ev@[gi as int]@.len(),
            ),
    {
        let ghost all = group_names(self.groups_ev@);
        let mut from: usize = 0;
        let mut past: bool = false;
        let mut g: usize = 0;
        while g < gi
            invariant
                g <= gi < self.groups_ev@.len(),
                all == group_names(self.groups_ev@),
                !past ==> from == events_before(all, g as nat),
                past ==> events_before(all, g as nat) > sums@.len(),
                from <= sums@.len(),
            decreases gi - g,
        {
            assert(all[g as int].len() == self.groups_ev@[g as int]@.len());
            let n: usize = self.groups_ev[g].len();
            if !past {
                if n <= sums.len() - from {
                    from += n;
                } else {
                    past = true;
                }
            }
            g += 1;
        }
        let names: &Vec<String> = &self.groups_ev[gi];
        assert(all[gi as int] == strings(names@));
        let ghost start = events_before(all, gi as nat);
        let mut out: Table<Double> = Table::new();
        let mut k: usize = 0;
        while k < names.len()
            invariant
                k <= names.len(),
                all[gi as int] == strings(names@),
                !past ==> from == start,
                past ==> start > sums@.len(),
                from <= sums@.len(),
                out@ == group_counts(all[gi as int], sums@, start, k as nat),
            decreases names.len() - k,
        {
            assert(all[gi as int][k as int] == names@[k as int]@);
            if !past && k < sums.len() - from {
                match sums[from + k] {
                    Some(v) => {
                        out.insert(names[k].clone(), v);
                    },
                    None => {},
                }
            }
            k += 1;
        }
        out
    }

    /// The metrics of the totals that were counted.
    pub fn metrics(&self, sums: &Vec<Option<Double>>) -> (r: Vec<Metric>)
        requires
            self.wf(),
        ensures
            metrics_of(r@) == match self.db {
                Some(d) => chosen_metrics(
                    d@,
                    self.host,
                    group_names(self.groups_ev@),
                    sums@,
                    chosen_of(self.chosen@),
                ),
                None => Seq::empty(),
            },
    {
        let mut out: Vec<Metric> = Vec::new();
        assert(metrics_of(out@) =~= Seq::empty());
        match &self.db {
            None => out,
            Some(d) => {
                let ghost all = chosen_of(self.chosen@);
                let ghost groups = group_names(self.groups_ev@);
                let mut i: usize = 0;
                assert(all.take(0) =~= Seq::empty());
                while i < self.chosen.len()
                    invariant
                        i <= self.chosen.len(),
                        self.wf(),
                        all == chosen_of(self.chosen@),
                        groups == group_names(self.groups_ev@),
                        metrics_of(out@) == chosen_metrics(
                            d@,
                            self.host,
                            groups,
                            sums@,
                            all.take(i as int),
                        ),
                    decreases self.chosen.len() - i,
                {
                    let c: &Chosen = &self.chosen[i];
                    proof {
                        let next = all.take(i + 1);
                        assert(next.drop_last() =~= all.take(i as int));
                        assert(next.last() == c@);
                        assert(groups[c.group as int].len() == self.groups_ev@[c.group as int]@.len());
                    }
                    let counts: Counts = Counts::Measured(self.counts(c.group, sums));
                    match eval_metric(d, self.host, c.metric.as_str(), &counts) {
                        Some(v) => {
                            // top-down formulas are fractions
                            let m: Metric = Metric::percent(
                                c.key,
                                c.label,
                                v.times(Double::from_u64(100)),
                            );
                            push_row(&mut out, Some(m));
                        },
                        None => push_row(&mut out, None),
                    }
                    i += 1;
                }
                assert(all.take(i as int) =~= all);
                out
            },
        }
    }

    /// The metrics of what the groups last read.
    pub fn finish(&self) -> (r: Vec<Metric>)
        requires
            self.wf(),
        ensures
            metrics_of(r@) == match self.db {
                Some(d) => chosen_metrics(
                    d@,
                    self.host,
                    group_names(self.groups_ev@),
                    totals(
                        self.groups.groups@,
                        threads_of(self.groups.threads@),
                        self.groups.groups@.len(),
                    ),
                    chosen_of(self.chosen@),
                ),
                None => Seq::empty(),
            },
    {
        let sums: Vec<Option<Double>> = self.groups.read_sums();
        self.metrics(&sums)
    }
}

// ------------------------------------------------------------------ packing laws

proof fn lemma_joined_keeps(g: Seq<Seq<char>>, refs: Seq<Seq<char>>, e: Seq<char>)
    ensures
        g.contains(e) ==> joined_group(g, refs).contains(e),
        refs.contains(e) ==> joined_group(g, refs).contains(e),
        joined_group(g, refs).contains(e) ==> g.contains(e) || refs.contains(e),
    decreases refs.len(),
{
    if refs.len() > 0 {
        let t = refs.drop_last();
        lemma_joined_keeps(g, t, e);
        let before = joined_group(g, t);
        if before.contains(e) {
            let k = choose|k: int| 0 <= k < before.len() && before[k] == e;
            assert(joined_group(g, refs)[k] == e);
        }
        if refs.contains(e) {
            let k = choose|k: int| 0 <= k < refs.len() && refs[k] == e;
            if k < t.len() {
                assert(t[k] == e);
            } else if !before.contains(e) {
                assert(joined_group(g, refs)[before.len() as int] == e);
            }
        }
        if joined_group(g, refs).contains(e) && !before.contains(e) {
            let j = joined_group(g, refs);
            let k = choose|k: int| 0 <= k < j.len() && j[k] == e;
            assert(k == before.len());
            assert(refs[refs.len() - 1] == e);
        }
        if t.contains(e) {
            let k = choose|k: int| 0 <= k < t.len() && t[k] == e;
            assert(refs[k] == e);
        }
    }
}

proof fn lemma_joined_len(refs: Seq<Seq<char>>)
    ensures
        joined_group(Seq::empty(), refs).len() <= refs.len(),
    decreases refs.len(),
{
    if refs.len() > 0 {
        lemma_joined_len(refs.drop_last());
    }
}

proof fn lemma_room(groups: Seq<Seq<Seq<char>>>, refs: Seq<Seq<char>>)
    ensures
        group_with_room(groups, refs) <= groups.len(),
        group_with_room(groups, refs) < groups.len() ==> joined_group(
            groups[group_with_room(groups, refs) as int],
            refs,
        ).len() <= GROUP_MAX,
    decreases groups.len(),
{
    if groups.len() > 0 && joined_group(groups[0], refs).len() > GROUP_MAX {
        lemma_room(groups.skip(1), refs);
    }
}

/// What every packing keeps: no group is larger than can be scheduled, every event of a
/// group can be encoded, and each chosen metric has all its events in its group.
pub open spec fn sound(p: Packing, db: DbModel, sys: Seq<UnitModel>, host: Host) -> bool {
    &&& forall|g: int|
        0 <= g < p.groups.len() ==> (#[trigger] p.groups[g]).len() <= GROUP_MAX && all_encode(
            db,
            sys,
            p.groups[g],
        )
    &&& forall|c: int|
        0 <= c < p.chosen.len() ==> (#[trigger] p.chosen[c]).group < p.groups.len() && (
        references_of(db, host, p.chosen[c].metric) matches Some(refs) && forall|e: Seq<char>|
            refs.contains(e) ==> #[trigger] p.groups[p.chosen[c].group as int].contains(e))
}

proof fn lemma_packed_one_sound(
    p: Packing,
    db: DbModel,
    sys: Seq<UnitModel>,
    host: Host,
    i: int,
)
    requires
        sound(p, db, sys, host),
    ensures
        sound(packed_one(p, db, sys, host, i), db, sys, host),
{
    let q = packed_one(p, db, sys, host, i);
    if candidate(db, i) is Some && references_of(db, host, candidate(db, i)->0) is Some {
        let m = candidate(db, i)->0;
        let refs = references_of(db, host, m)->0;
        if all_encode(db, sys, refs) && refs.len() <= GROUP_MAX {
            let gi = group_with_room(p.groups, refs);
            lemma_room(p.groups, refs);
            lemma_joined_len(refs);
            let g = if gi < p.groups.len() {
                p.groups[gi as int]
            } else {
                Seq::empty()
            };
            let j = joined_group(g, refs);
            assert(q.groups[gi as int] == j);
            assert forall|k: int| 0 <= k < j.len() implies resolved(
                db.events,
                sys,
                #[trigger] j[k],
            ) is Some by {
                let e = j[k];
                lemma_joined_keeps(g, refs, e);
                assert(j.contains(e));
                if g.contains(e) {
                    let a = choose|a: int| 0 <= a < g.len() && g[a] == e;
                    assert(resolved(db.events, sys, g[a]) is Some);
                } else {
                    let a = choose|a: int| 0 <= a < refs.len() && refs[a] == e;
                    assert(resolved(db.events, sys, refs[a]) is Some);
                }
            }
            assert forall|k: int| 0 <= k < q.groups.len() implies (#[trigger] q.groups[k]).len()
                <= GROUP_MAX && all_encode(db, sys, q.groups[k]) by {
                if k != gi {
                    assert(q.groups[k] == p.groups[k]);
                }
            }
            assert forall|c: int| 0 <= c < q.chosen.len() implies (#[trigger] q.chosen[c]).group
                < q.groups.len() && (references_of(db, host, q.chosen[c].metric) matches Some(r)
                && forall|e: Seq<char>|
                r.contains(e) ==> #[trigger] q.groups[q.chosen[c].group as int].contains(e)) by {
                if c < p.chosen.len() {
                    assert(q.chosen[c] == p.chosen[c]);
                    let r = references_of(db, host, p.chosen[c].metric)->0;
                    assert forall|e: Seq<char>| r.contains(e) implies
                        #[trigger] q.groups[q.chosen[c].group as int].contains(e) by {
                        assert(p.groups[p.chosen[c].group as int].contains(e));
                        if p.chosen[c].group == gi {
                            lemma_joined_keeps(g, refs, e);
                        }
                    }
                } else {
                    assert forall|e: Seq<char>| refs.contains(e) implies
                        #[trigger] q.groups[gi as int].contains(e) by {
                        lemma_joined_keeps(g, refs, e);
                    }
                }
            }
        }
    }
}

/// No group is larger than can be scheduled at once, every event of a group can be
/// encoded, and each chosen metric has all its events in its group, so that its
/// numerator and denominator are counted together.
pub proof fn law_metrics_are_counted_together(
    db: DbModel,
    sys: Seq<UnitModel>,
    host: Host,
    n: nat,
)
    ensures
        sound(packed(db, sys, host, n), db, sys, host),
    decreases n,
{
    if n > 0 {
        law_metrics_are_counted_together(db, sys, host, (n - 1) as nat);
        lemma_packed_one_sound(packed(db, sys, host, (n - 1) as nat), db, sys, host, n - 1);
    }
}

proof fn lemma_none_missing(db: DbModel, refs: Seq<Seq<char>>, i: int)
    requires
        first_missing(db, refs) is None,
        0 <= i < refs.len(),
    ensures
        is_present(db, refs[i]),
    decreases refs.len(),
{
    if i > 0 {
        assert(refs.skip(1)[i - 1] == refs[i]);
        lemma_none_missing(db, refs.skip(1), i - 1);
    }
}

/// A metric is resolved whole or not at all: a resolved one has a candidate, a formula
/// in the language, and every event present.
pub proof fn law_resolved_or_gap(db: DbModel, host: Host, i: int)
    requires
        status_of(db, host, i).resolved,
    ensures
        status_of(db, host, i).metric is Some,
        references_of(db, host, status_of(db, host, i).metric->0) is Some,
        forall|k: int|
            0 <= k < references_of(db, host, status_of(db, host, i).metric->0)->0.len()
                ==> is_present(
                db,
                #[trigger] references_of(db, host, status_of(db, host, i).metric->0)->0[k],
            ),
{
    let refs = references_of(db, host, status_of(db, host, i).metric->0)->0;
    assert forall|k: int| 0 <= k < refs.len() implies is_present(db, #[trigger] refs[k]) by {
        lemma_none_missing(db, refs, k);
    }
}

} // verus!
