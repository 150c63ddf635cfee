//! The normalized metric model: what every collector emits and every report reads.

use crate::double::{nearest, of_int, one_unit, quotient, sum, units_of, Double};
use crate::text::same;
use vstd::prelude::*;

verus! {

/// A span of time: whole seconds and the nanoseconds beyond them.
#[derive(Clone, Copy, Debug, PartialEq, Eq, Structural)]
pub struct Duration {
    pub secs: u64,
    pub nanos: u32,
}

/// The span in seconds, as a double.
pub open spec fn seconds(d: Duration) -> Double {
    sum(of_int(d.secs as int), quotient(of_int(d.nanos as int), of_int(1000000000)))
}

/// The nanoseconds in `x` seconds, to the nearest, ties to even.
pub open spec fn nanos_in(x: Double) -> nat {
    nearest(units_of(x.mag()) * 1000000000, one_unit())
}

/// Whether `x` seconds are a span: finite, not below zero, and few enough to count.
pub open spec fn is_span(x: Double) -> bool {
    x.is_finite() && (!x.neg() || x.is_zero()) && nanos_in(x) < 18446744073709551616000000000
}

/// `x` seconds as a span.
pub open spec fn span_of(x: Double) -> Duration {
    Duration { secs: (nanos_in(x) / 1000000000) as u64, nanos: (nanos_in(x) % 1000000000) as u32 }
}

/// A span in nanoseconds.
pub open spec fn nanos_of(d: Duration) -> nat {
    d.secs as nat * 1000000000 + d.nanos as nat
}

/// The span from `earlier` to `now`, none below zero. Both are readings of one clock.
pub open spec fn since(now: Duration, earlier: Duration) -> Duration {
    let n = if nanos_of(now) >= nanos_of(earlier) {
        (nanos_of(now) - nanos_of(earlier)) as nat
    } else {
        0
    };
    Duration { secs: (n / 1000000000) as u64, nanos: (n % 1000000000) as u32 }
}

impl Duration {
    pub open spec fn wf(self) -> bool {
        self.nanos < 1000000000
    }

    pub fn new(secs: u64, nanos: u32) -> (r: Duration)
        requires
            nanos < 1000000000,
        ensures
            r.secs == secs && r.nanos == nanos,
            r.wf(),
    {
        Duration { secs, nanos }
    }

    pub fn from_millis(millis: u64) -> (r: Duration)
        ensures
            r.secs == millis / 1000,
            r.nanos == millis % 1000 * 1000000,
            nanos_of(r) == millis * 1000000,
            r.wf(),
    {
        Duration { secs: millis / 1000, nanos: ((millis % 1000) as u32) * 1000000 }
    }

    /// The span from `earlier` to this reading of the same clock.
    pub fn since(self, earlier: Duration) -> (r: Duration)
        requires
            self.wf(),
            earlier.wf(),
        ensures
            r == since(self, earlier),
            r.wf(),
    {
        let a: u128 = self.secs as u128 * 1000000000 + self.nanos as u128;
        let b: u128 = earlier.secs as u128 * 1000000000 + earlier.nanos as u128;
        let n: u128 = if a >= b {
            a - b
        } else {
            0
        };
        assert(n / 1000000000 <= u64::MAX);
        Duration { secs: (n / 1000000000) as u64, nanos: (n % 1000000000) as u32 }
    }

    /// The span in seconds.
    pub fn as_secs(self) -> (r: Double)
        ensures
            r == seconds(self),
    {
        let part: Double = Double::from_u64(self.nanos as u64).over(Double::from_u64(1000000000));
        Double::from_u64(self.secs).plus(part)
    }

    /// `x` seconds as a span, where they are one.
    pub fn checked_from_secs(x: Double) -> (r: Option<Duration>)
        ensures
            r == if is_span(x) {
                Some(span_of(x))
            } else {
                None
            },
            r is Some ==> r->0.wf(),
    {
        if !x.finite() || (x.negative() && x.magnitude() != 0) {
            return None;
        }
        let n: crate::natural::Natural = crate::decimal::nearest_whole(
            &x.units().times_u64(1000000000),
        );
        let (q, r) = n.div_small(1000000000);
        proof {
            vstd::arithmetic::div_mod::lemma_fundamental_div_mod_converse(
                n@ as int,
                1000000000,
                q@ as int,
                r as int,
            );
        }
        let limit: crate::natural::Natural = crate::natural::Natural::from_u64(u64::MAX);
        if limit.minus(&q).is_some() {
            Some(Duration { secs: q.to_u64(), nanos: r })
        } else {
            None
        }
    }

    /// `x` seconds as a span.
    pub fn from_secs(x: Double) -> (r: Duration)
        requires
            is_span(x),
        ensures
            r == span_of(x),
            r.wf(),
    {
        match Duration::checked_from_secs(x) {
            Some(d) => d,
            None => Duration { secs: 0, nanos: 0 },
        }
    }
}

/// A single normalized measurement, independent of how it was collected.
///
/// `key` is a stable machine identifier (used by the JSON export); `label` is the
/// human-facing name shown in the report.
#[derive(Debug, Clone)]
pub struct Metric {
    pub key: &'static str,
    pub label: String,
    pub value: MetricValue,
}

/// The typed value of a [`Metric`]. The report knows how to format each variant, so
/// collectors never format numbers themselves.
#[derive(Debug, Clone)]
#[allow(inconsistent_fields)]
pub enum MetricValue {
    Duration(Duration),
    Float { value: Double, unit: &'static str },
    Int { value: i64, unit: &'static str },
    Percent(Double),
    Bytes(u64),
}

/// What a [`MetricValue`] is.
#[allow(inconsistent_fields)]
pub enum ValueModel {
    Duration(Duration),
    Float { value: Double, unit: Seq<char> },
    Int { value: i64, unit: Seq<char> },
    Percent(Double),
    Bytes(u64),
}

/// What a [`Metric`] is.
pub struct MetricModel {
    pub key: Seq<char>,
    pub label: Seq<char>,
    pub value: ValueModel,
}

impl View for MetricValue {
    type V = ValueModel;

    open spec fn view(&self) -> ValueModel {
        match *self {
            MetricValue::Duration(d) => ValueModel::Duration(d),
            MetricValue::Float { value, unit } => ValueModel::Float { value, unit: unit@ },
            MetricValue::Int { value, unit } => ValueModel::Int { value, unit: unit@ },
            MetricValue::Percent(p) => ValueModel::Percent(p),
            MetricValue::Bytes(b) => ValueModel::Bytes(b),
        }
    }
}

impl View for Metric {
    type V = MetricModel;

    open spec fn view(&self) -> MetricModel {
        MetricModel { key: self.key@, label: self.label@, value: self.value@ }
    }
}

/// The numeric view of a value: seconds for a span of time, bytes for a volume.
pub open spec fn number_of(v: ValueModel) -> Double {
    match v {
        ValueModel::Duration(d) => seconds(d),
        ValueModel::Float { value, .. } => value,
        ValueModel::Int { value, .. } => of_int(value as int),
        ValueModel::Percent(p) => p,
        ValueModel::Bytes(b) => of_int(b as int),
    }
}

/// The number of the first metric with this key.
pub open spec fn numeric_of(metrics: Seq<MetricModel>, key: Seq<char>) -> Option<Double>
    decreases metrics.len(),
{
    if metrics.len() == 0 {
        None
    } else if metrics[0].key == key {
        Some(number_of(metrics[0].value))
    } else {
        numeric_of(metrics.skip(1), key)
    }
}

/// What a list of metrics is.
pub open spec fn metrics_of(v: Seq<Metric>) -> Seq<MetricModel> {
    v.map_values(|m: Metric| m@)
}

/// What a metric is, where there is one.
pub open spec fn model_of(m: Option<Metric>) -> Option<MetricModel> {
    match m {
        Some(m) => Some(m@),
        None => None,
    }
}

/// The row of a metric, where there is one.
pub open spec fn row(m: Option<MetricModel>) -> Seq<MetricModel> {
    match m {
        Some(m) => seq![m],
        None => Seq::empty(),
    }
}

/// The rows of the metrics that there are.
pub open spec fn rows(v: Seq<Option<MetricModel>>) -> Seq<MetricModel>
    decreases v.len(),
{
    if v.len() == 0 {
        Seq::empty()
    } else {
        rows(v.drop_last()) + row(v.last())
    }
}

pub proof fn lemma_rows_push(v: Seq<Option<MetricModel>>, m: Option<MetricModel>)
    ensures
        rows(v.push(m)) == rows(v) + row(m),
{
    assert(v.push(m).drop_last() =~= v);
}

/// Where there are no metrics there are no rows.
pub proof fn lemma_rows_none(v: Seq<Option<MetricModel>>)
    requires
        forall|k: int| 0 <= k < v.len() ==> #[trigger] v[k] is None,
    ensures
        rows(v) == Seq::<MetricModel>::empty(),
    decreases v.len(),
{
    if v.len() > 0 {
        assert(v[v.len() - 1] is None);
        lemma_rows_none(v.drop_last());
        assert(rows(v) =~= Seq::<MetricModel>::empty());
    }
}

pub proof fn lemma_numeric_row(m: Option<MetricModel>, key: Seq<char>)
    ensures
        numeric_of(row(m), key) == match m {
            Some(m) => if m.key == key {
                Some(number_of(m.value))
            } else {
                None
            },
            None => None,
        },
{
    reveal_with_fuel(numeric_of, 2);
}

/// Every row is one of the metrics.
pub proof fn lemma_rows_from(v: Seq<Option<MetricModel>>, i: int) -> (j: int)
    requires
        0 <= i < rows(v).len(),
    ensures
        0 <= j < v.len(),
        v[j] == Some(rows(v)[i]),
    decreases v.len(),
{
    let head = rows(v.drop_last());
    if i < head.len() {
        let j = lemma_rows_from(v.drop_last(), i);
        assert(v.drop_last()[j] == v[j]);
        j
    } else {
        v.len() - 1
    }
}

/// What a key reads where at most one of the metrics has it.
pub proof fn lemma_numeric_rows(v: Seq<Option<MetricModel>>, key: Seq<char>, j: int)
    requires
        0 <= j < v.len(),
        v[j] matches Some(m) ==> m.key == key,
        forall|k: int|
            0 <= k < v.len() && k != j ==> (#[trigger] v[k] matches Some(m) ==> m.key != key),
    ensures
        numeric_of(rows(v), key) == match v[j] {
            Some(m) => Some(number_of(m.value)),
            None => None,
        },
    decreases v.len(),
{
    let head = v.drop_last();
    law_numeric_keeps(rows(head), row(v.last()), key);
    lemma_numeric_row(v.last(), key);
    assert forall|k: int| 0 <= k < head.len() && k != j implies (#[trigger] head[k] matches Some(m)
        ==> m.key != key) by {
        assert(head[k] == v[k]);
    }
    if j < head.len() {
        lemma_numeric_rows(head, key, j);
    } else {
        lemma_no_rows(head, key);
    }
}

/// A key that none of the metrics has reads nothing.
pub proof fn lemma_no_rows(v: Seq<Option<MetricModel>>, key: Seq<char>)
    requires
        forall|k: int| 0 <= k < v.len() ==> (#[trigger] v[k] matches Some(m) ==> m.key != key),
    ensures
        numeric_of(rows(v), key) is None,
    decreases v.len(),
{
    if v.len() > 0 {
        let head = v.drop_last();
        law_numeric_keeps(rows(head), row(v.last()), key);
        assert(v[v.len() - 1] == v.last());
        lemma_numeric_row(v.last(), key);
        assert forall|k: int| 0 <= k < head.len() implies (#[trigger] head[k] matches Some(m)
            ==> m.key != key) by {
            assert(head[k] == v[k]);
        }
        lemma_no_rows(head, key);
    }
}

/// A metric that is a number with a unit.
pub open spec fn float_metric(
    key: Seq<char>,
    label: Seq<char>,
    value: Double,
    unit: Seq<char>,
) -> MetricModel {
    MetricModel { key, label, value: ValueModel::Float { value, unit } }
}

/// A metric that is a percentage.
pub open spec fn percent_metric(key: Seq<char>, label: Seq<char>, value: Double) -> MetricModel {
    MetricModel { key, label, value: ValueModel::Percent(value) }
}

/// A percentage metric, where its value is known.
pub open spec fn percent_row(
    key: Seq<char>,
    label: Seq<char>,
    value: Option<Double>,
) -> Option<MetricModel> {
    match value {
        Some(v) => Some(percent_metric(key, label, v)),
        None => None,
    }
}

/// A metric with a unit, where its value is known.
pub open spec fn float_row(
    key: Seq<char>,
    label: Seq<char>,
    value: Option<Double>,
    unit: Seq<char>,
) -> Option<MetricModel> {
    match value {
        Some(v) => Some(float_metric(key, label, v, unit)),
        None => None,
    }
}

/// A metric that is a whole number without a unit.
pub open spec fn int_metric(key: Seq<char>, label: Seq<char>, value: i64) -> MetricModel {
    MetricModel { key, label, value: ValueModel::Int { value, unit: ""@ } }
}

/// A metric that is a volume.
pub open spec fn bytes_metric(key: Seq<char>, label: Seq<char>, value: u64) -> MetricModel {
    MetricModel { key, label, value: ValueModel::Bytes(value) }
}

impl MetricValue {
    /// Numeric view of the value (seconds for durations, raw bytes for `Bytes`), used
    /// by the derivation engine to compute ratios.
    pub fn as_f64(&self) -> (r: Double)
        ensures
            r == number_of(self@),
    {
        match self {
            MetricValue::Duration(d) => d.as_secs(),
            MetricValue::Float { value, .. } => *value,
            MetricValue::Int { value, .. } => Double::from_i64(*value),
            MetricValue::Percent(p) => *p,
            MetricValue::Bytes(b) => Double::from_u64(*b),
        }
    }
}

impl Metric {
    pub fn float(key: &'static str, label: &str, value: Double, unit: &'static str) -> (r: Metric)
        ensures
            r@ == float_metric(key@, label@, value, unit@),
    {
        Metric { key, label: label.to_string(), value: MetricValue::Float { value, unit } }
    }

    pub fn percent(key: &'static str, label: &str, value: Double) -> (r: Metric)
        ensures
            r@ == percent_metric(key@, label@, value),
    {
        Metric { key, label: label.to_string(), value: MetricValue::Percent(value) }
    }

    pub fn count(key: &'static str, label: &str, value: i64) -> (r: Metric)
        ensures
            r@ == int_metric(key@, label@, value),
    {
        Metric { key, label: label.to_string(), value: MetricValue::Int { value, unit: "" } }
    }

    pub fn bytes(key: &'static str, label: &str, value: u64) -> (r: Metric)
        ensures
            r@ == bytes_metric(key@, label@, value),
    {
        Metric { key, label: label.to_string(), value: MetricValue::Bytes(value) }
    }
}

/// The aggregated result of a profiling session: every metric produced by every
/// collector, in collection order.
#[derive(Debug)]
pub struct Snapshot {
    pub metrics: Vec<Metric>,
}

impl View for Snapshot {
    type V = Seq<MetricModel>;

    open spec fn view(&self) -> Seq<MetricModel> {
        metrics_of(self.metrics@)
    }
}

impl Default for Snapshot {
    fn default() -> (r: Snapshot)
        ensures
            r@ == Seq::<MetricModel>::empty(),
    {
        let r: Snapshot = Snapshot { metrics: Vec::new() };
        assert(r@ =~= Seq::<MetricModel>::empty());
        r
    }
}

/// Appends a metric to a list.
pub fn push_metric(list: &mut Vec<Metric>, m: Metric)
    ensures
        metrics_of(final(list)@) == metrics_of(old(list)@).push(m@),
{
    let ghost before = list@;
    list.push(m);
    assert(metrics_of(list@) =~= metrics_of(before).push(m@));
}

/// Appends a metric to a list, where there is one.
pub fn push_row(list: &mut Vec<Metric>, m: Option<Metric>)
    ensures
        metrics_of(final(list)@) == metrics_of(old(list)@) + row(model_of(m)),
{
    match m {
        Some(m) => {
            let ghost before = metrics_of(list@);
            push_metric(list, m);
            assert(before.push(m@) =~= before + seq![m@]);
        },
        None => {
            assert(metrics_of(list@) + Seq::empty() =~= metrics_of(list@));
        },
    }
}

/// Metrics in the making: a list, and which metrics were offered for it.
pub struct Rows {
    pub list: Vec<Metric>,
    pub offered: Ghost<Seq<Option<MetricModel>>>,
}

impl Rows {
    pub open spec fn wf(&self) -> bool {
        metrics_of(self.list@) == rows(self.offered@)
    }

    pub fn new() -> (r: Rows)
        ensures
            r.wf(),
            r.offered@ == Seq::<Option<MetricModel>>::empty(),
    {
        let r: Rows = Rows { list: Vec::new(), offered: Ghost(Seq::empty()) };
        assert(metrics_of(r.list@) =~= rows(r.offered@));
        r
    }

    /// Offers a metric, where there is one.
    pub fn offer(&mut self, m: Option<Metric>)
        requires
            old(self).wf(),
        ensures
            final(self).wf(),
            final(self).offered@ == old(self).offered@.push(model_of(m)),
    {
        let ghost model = model_of(m);
        proof {
            lemma_rows_push(self.offered@, model);
        }
        push_row(&mut self.list, m);
        self.offered = Ghost(self.offered@.push(model));
    }

    pub fn percent(&mut self, key: &'static str, label: &str, value: Option<Double>)
        requires
            old(self).wf(),
        ensures
            final(self).wf(),
            final(self).offered@ == old(self).offered@.push(percent_row(key@, label@, value)),
    {
        match value {
            Some(v) => self.offer(Some(Metric::percent(key, label, v))),
            None => self.offer(None),
        }
    }

    pub fn float(
        &mut self,
        key: &'static str,
        label: &str,
        value: Option<Double>,
        unit: &'static str,
    )
        requires
            old(self).wf(),
        ensures
            final(self).wf(),
            final(self).offered@ == old(self).offered@.push(float_row(key@, label@, value, unit@)),
    {
        match value {
            Some(v) => self.offer(Some(Metric::float(key, label, v, unit))),
            None => self.offer(None),
        }
    }
}

impl Snapshot {
    pub fn push(&mut self, metric: Metric)
        ensures
            final(self)@ == old(self)@.push(metric@),
    {
        push_metric(&mut self.metrics, metric);
    }

    pub fn extend(&mut self, metrics: Vec<Metric>)
        ensures
            final(self)@ == old(self)@ + metrics_of(metrics@),
    {
        let mut more: Vec<Metric> = metrics;
        let ghost (a, b) = (self.metrics@, more@);
        self.metrics.append(&mut more);
        assert(metrics_of(a + b) =~= metrics_of(a) + metrics_of(b));
    }

    /// Numeric value of the metric with this `key`, if present.
    pub fn numeric(&self, key: &str) -> (r: Option<Double>)
        ensures
            r == numeric_of(self@, key@),
    {
        let mut i: usize = 0;
        proof {
            assert(self@.skip(0) =~= self@);
        }
        while i < self.metrics.len()
            invariant
                i <= self.metrics.len(),
                numeric_of(self@, key@) == numeric_of(self@.skip(i as int), key@),
            decreases self.metrics.len() - i,
        {
            proof {
                assert(self@.skip(i as int)[0] == self.metrics@[i as int]@);
                assert(self@.skip(i as int).skip(1) =~= self@.skip(i + 1));
            }
            if same(self.metrics[i].key, key) {
                return Some(self.metrics[i].value.as_f64());
            }
            i += 1;
        }
        None
    }
}

// ------------------------------------------------------------------ laws

/// What is appended does not change what a key already reads.
pub proof fn law_numeric_keeps(a: Seq<MetricModel>, b: Seq<MetricModel>, key: Seq<char>)
    ensures
        numeric_of(a, key) is Some ==> numeric_of(a + b, key) == numeric_of(a, key),
        numeric_of(a, key) is None ==> numeric_of(a + b, key) == numeric_of(b, key),
    decreases a.len(),
{
    if a.len() == 0 {
        assert(a + b =~= b);
    } else {
        assert((a + b)[0] == a[0]);
        assert((a + b).skip(1) =~= a.skip(1) + b);
        law_numeric_keeps(a.skip(1), b, key);
    }
}

} // verus!
