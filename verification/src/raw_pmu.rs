//! Vendor PMU events: FP throughput, vectorization, memory data sources.
//!
//! The events are named, and resolved from the event database at run time; an event
//! that does not resolve for the CPU's model simply yields no metric. The events of one
//! vendor fit one group.

use crate::cpu::Vendor;
use crate::double::{less, of_int, product, quotient, sum, to_integer, Double};
use crate::hwpc::DbModel;
use crate::insights::or_zero;
use crate::metric::{
    float_metric, int_metric, metrics_of, percent_metric, push_row, row, seconds, Duration, Metric,
    MetricModel,
};
use crate::pmu::{threads_of, totals, EventCfg, ThreadGroups};
use crate::pmudb::{resolve_config_in, resolved, PmuDb, Sysfs, UnitModel};
use crate::text::same;
use vstd::prelude::*;

verus! {

/// The role and the name of each event of a vendor. The role is how the count is found
/// again; the encoding comes entirely from the database.
pub open spec fn policy_of(vendor: Vendor) -> Seq<(Seq<char>, Seq<char>)> {
    match vendor {
        Vendor::Amd => seq![
            ("fp"@, "fp_ret_sse_avx_ops.all"@),
            ("fills_all"@, "ls_dmnd_fills_from_sys.all"@),
            ("fills_dram"@, "ls_dmnd_fills_from_sys.dram_io_all"@),
            ("fills_remote"@, "ls_dmnd_fills_from_sys.far_all"@),
        ],
        Vendor::Intel => seq![
            ("fp_scalar"@, "fp_arith_inst_retired.scalar_double"@),
            ("fp_128"@, "fp_arith_inst_retired.128b_packed_double"@),
            ("fp_256"@, "fp_arith_inst_retired.256b_packed_double"@),
            ("fp_512"@, "fp_arith_inst_retired.512b_packed_double"@),
        ],
        Vendor::Arm => seq![
            ("fp_scale"@, "fp_scale_ops_spec"@),
            ("fp_fixed"@, "fp_fixed_ops_spec"@),
            ("fills_dram"@, "ll_cache_miss_rd"@),
        ],
        Vendor::Other => Seq::empty(),
    }
}

/// What a list of role and event names is.
pub open spec fn roles_of(v: Seq<(&'static str, &'static str)>) -> Seq<(Seq<char>, Seq<char>)> {
    v.map_values(|e: (&'static str, &'static str)| (e.0@, e.1@))
}

/// The role and the name of each event of a vendor.
pub fn policy(vendor: Vendor) -> (r: Vec<(&'static str, &'static str)>)
    ensures
        roles_of(r@) == policy_of(vendor),
{
    let r: Vec<(&'static str, &'static str)> = match vendor {
        // These already count FLOPs; demand-fill sources by umask.
        Vendor::Amd => vec![
            ("fp", "fp_ret_sse_avx_ops.all"),
            ("fills_all", "ls_dmnd_fills_from_sys.all"),
            ("fills_dram", "ls_dmnd_fills_from_sys.dram_io_all"),
            ("fills_remote", "ls_dmnd_fills_from_sys.far_all"),
        ],
        // Instructions by width: weighted FLOPs, and a scalar/vector split.
        Vendor::Intel => vec![
            ("fp_scalar", "fp_arith_inst_retired.scalar_double"),
            ("fp_128", "fp_arith_inst_retired.128b_packed_double"),
            ("fp_256", "fp_arith_inst_retired.256b_packed_double"),
            ("fp_512", "fp_arith_inst_retired.512b_packed_double"),
        ],
        // FP element operations, and last-level read misses for DRAM read fills.
        Vendor::Arm => vec![
            ("fp_scale", "fp_scale_ops_spec"),
            ("fp_fixed", "fp_fixed_ops_spec"),
            ("fills_dram", "ll_cache_miss_rd"),
        ],
        Vendor::Other => Vec::new(),
    };
    assert(roles_of(r@) =~= policy_of(vendor));
    r
}

/// The roles whose events resolve, with how each is counted.
pub open spec fn resolved_roles(
    db: DbModel,
    sys: Seq<UnitModel>,
    policy: Seq<(Seq<char>, Seq<char>)>,
) -> Seq<(Seq<char>, EventCfg)>
    decreases policy.len(),
{
    if policy.len() == 0 {
        Seq::empty()
    } else {
        let before = resolved_roles(db, sys, policy.drop_last());
        match resolved(db.events, sys, policy.last().1) {
            Some((config, etype)) => before.push(
                (policy.last().0, EventCfg { etype, config }),
            ),
            None => before,
        }
    }
}

/// The count of a role: the total at the role's place.
pub open spec fn count_for(
    roles: Seq<Seq<char>>,
    sums: Seq<Option<Double>>,
    role: Seq<char>,
) -> Option<Double>
    decreases roles.len(),
{
    if roles.len() == 0 || sums.len() == 0 {
        None
    } else if roles[0] == role {
        sums[0]
    } else {
        count_for(roles.skip(1), sums.skip(1), role)
    }
}

pub open spec fn gflops_metric(flops: Double, elapsed: Double) -> MetricModel {
    float_metric(
        "gflops"@,
        "FP throughput"@,
        quotient(quotient(flops, elapsed), of_int(1000000000)),
        "GFLOP/s"@,
    )
}

/// FP throughput, where the count and the time are known to be above zero.
pub open spec fn throughput(flops: Option<Double>, elapsed: Double) -> Option<MetricModel> {
    match flops {
        Some(f) => if less(of_int(0), elapsed) {
            Some(gflops_metric(f, elapsed))
        } else {
            None
        },
        None => None,
    }
}

/// A number where it is above zero.
pub open spec fn positive(x: Double) -> Option<Double> {
    if less(of_int(0), x) {
        Some(x)
    } else {
        None
    }
}

pub open spec fn fills_metric(key: Seq<char>, label: Seq<char>, v: Option<Double>) -> Option<
    MetricModel,
> {
    match v {
        Some(v) => Some(int_metric(key, label, to_integer(v))),
        None => None,
    }
}

/// Double-precision elements of the packed instructions.
pub open spec fn vector_flops(a: Option<Double>, b: Option<Double>, c: Option<Double>) -> Double {
    sum(
        sum(product(or_zero(a), of_int(2)), product(or_zero(b), of_int(4))),
        product(or_zero(c), of_int(8)),
    )
}

/// The share of vector elements, where there were any elements in a known time.
pub open spec fn vectorization(vector: Double, total: Double, elapsed: Double) -> Option<
    MetricModel,
> {
    if less(of_int(0), total) && less(of_int(0), elapsed) {
        Some(
            percent_metric(
                "vectorization_pct"@,
                "Vectorization"@,
                product(quotient(vector, total), of_int(100)),
            ),
        )
    } else {
        None
    }
}

/// The metrics of the counts, by vendor.
pub open spec fn raw_metrics(
    vendor: Vendor,
    roles: Seq<Seq<char>>,
    sums: Seq<Option<Double>>,
    elapsed: Double,
) -> Seq<MetricModel> {
    match vendor {
        Vendor::Amd => row(throughput(count_for(roles, sums, "fp"@), elapsed)) + row(
            fills_metric(
                "mem_fills_all"@,
                "Demand fills (all sources)"@,
                count_for(roles, sums, "fills_all"@),
            ),
        ) + row(
            fills_metric(
                "mem_fills_dram"@,
                "Demand fills from DRAM"@,
                count_for(roles, sums, "fills_dram"@),
            ),
        ) + row(
            fills_metric(
                "mem_fills_remote"@,
                "Demand fills from remote node"@,
                count_for(roles, sums, "fills_remote"@),
            ),
        ),
        Vendor::Intel => {
            let vector = vector_flops(
                count_for(roles, sums, "fp_128"@),
                count_for(roles, sums, "fp_256"@),
                count_for(roles, sums, "fp_512"@),
            );
            let total = sum(or_zero(count_for(roles, sums, "fp_scalar"@)), vector);
            row(throughput(positive(total), elapsed)) + row(vectorization(vector, total, elapsed))
        },
        Vendor::Arm => {
            let flops = sum(
                or_zero(count_for(roles, sums, "fp_scale"@)),
                or_zero(count_for(roles, sums, "fp_fixed"@)),
            );
            row(throughput(positive(flops), elapsed)) + row(
                fills_metric(
                    "mem_fills_dram"@,
                    "Demand fills from DRAM"@,
                    count_for(roles, sums, "fills_dram"@),
                ),
            )
        },
        Vendor::Other => Seq::empty(),
    }
}

pub struct RawPmuCollector {
    pub vendor: Vendor,
    /// The role of each event of the group.
    pub roles: Vec<&'static str>,
    pub groups: ThreadGroups,
    pub started: Option<Duration>,
}

/// What a list of roles is.
pub open spec fn role_names(v: Seq<&'static str>) -> Seq<Seq<char>> {
    v.map_values(|s: &'static str| s@)
}

/// The roles of resolved events.
pub open spec fn names_of(v: Seq<(Seq<char>, EventCfg)>) -> Seq<Seq<char>> {
    v.map_values(|e: (Seq<char>, EventCfg)| e.0)
}

/// How resolved events are counted.
pub open spec fn cfgs_of(v: Seq<(Seq<char>, EventCfg)>) -> Seq<EventCfg> {
    v.map_values(|e: (Seq<char>, EventCfg)| e.1)
}

fn zero_or(x: Option<Double>) -> (r: Double)
    ensures
        r == or_zero(x),
{
    match x {
        Some(x) => x,
        None => Double::from_u64(0),
    }
}

fn gflops(flops: Option<Double>, elapsed: Double) -> (r: Option<Metric>)
    ensures
        crate::metric::model_of(r) == throughput(flops, elapsed),
{
    match flops {
        Some(f) => {
            if Double::from_u64(0).lt(elapsed) {
                let rate: Double = f.over(elapsed).over(Double::from_u64(1000000000));
                Some(Metric::float("gflops", "FP throughput", rate, "GFLOP/s"))
            } else {
                None
            }
        },
        None => None,
    }
}

fn above_zero(x: Double) -> (r: Option<Double>)
    ensures
        r == positive(x),
{
    if Double::from_u64(0).lt(x) {
        Some(x)
    } else {
        None
    }
}

fn fills(key: &'static str, label: &str, v: Option<Double>) -> (r: Option<Metric>)
    ensures
        crate::metric::model_of(r) == fills_metric(key@, label@, v),
{
    match v {
        Some(v) => Some(Metric::count(key, label, v.to_i64())),
        None => None,
    }
}

impl RawPmuCollector {
    pub open spec fn wf(&self) -> bool {
        self.groups.wf() && (self.started matches Some(s) ==> s.wf())
    }

    /// The collector for a vendor's CPU; without a database it counts nothing.
    pub fn new(vendor: Vendor, db: Option<&PmuDb>, sys: &Sysfs) -> (r: RawPmuCollector)
        ensures
            r.wf(),
            r.vendor == vendor,
            r.started is None,
            r.groups.groups@.len() == 1,
            r.groups.threads@.len() == 0,
            r.groups.seen@.len() == 0,
            ({
                let want = match db {
                    Some(d) => resolved_roles(d@, sys@, policy_of(vendor)),
                    None => Seq::empty(),
                };
                &&& role_names(r.roles@) == names_of(want)
                &&& r.groups.groups@[0]@ == cfgs_of(want)
            }),
    {
        let mut roles: Vec<&'static str> = Vec::new();
        let mut spec: Vec<EventCfg> = Vec::new();
        assert(role_names(roles@) =~= names_of(Seq::empty()));
        assert(spec@ =~= cfgs_of(Seq::empty()));
        match db {
            None => {},
            Some(d) => {
                let table: Vec<(&'static str, &'static str)> = policy(vendor);
                let ghost all = roles_of(table@);
                let mut i: usize = 0;
                assert(all.take(0) =~= Seq::empty());
                while i < table.len()
                    invariant
                        i <= table.len(),
                        all == roles_of(table@),
                        role_names(roles@) == names_of(
                            resolved_roles(d@, sys@, all.take(i as int)),
                        ),
                        spec@ == cfgs_of(resolved_roles(d@, sys@, all.take(i as int))),
                    decreases table.len() - i,
                {
                    let e: (&'static str, &'static str) = table[i];
                    let ghost before = resolved_roles(d@, sys@, all.take(i as int));
                    proof {
                        let next = all.take(i + 1);
                        assert(next.drop_last() =~= all.take(i as int));
                        assert(next.last() == (e.0@, e.1@));
                    }
                    match resolve_config_in(d, sys, e.1) {
                        Some((config, etype)) => {
                            let ghost had = role_names(roles@);
                            let cfg: EventCfg = EventCfg { etype, config };
                            roles.push(e.0);
                            spec.push(cfg);
                            proof {
                                let now = before.push((e.0@, cfg));
                                assert(role_names(roles@) =~= had.push(e.0@));
                                assert(names_of(now) =~= names_of(before).push(e.0@));
                                assert(cfgs_of(now) =~= cfgs_of(before).push(cfg));
                            }
                        },
                        None => {},
                    }
                    i += 1;
                }
                assert(all.take(i as int) =~= all);
            },
        }
        let groups: Vec<Vec<EventCfg>> = vec![spec];
        RawPmuCollector { vendor, roles, groups: ThreadGroups::new(groups), started: None }
    }

    pub fn name(&self) -> (r: &'static str)
        ensures
            r@ == "raw_pmu"@,
    {
        "raw_pmu"
    }

    pub fn start(&mut self, now: Duration)
        requires
            old(self).wf(),
            now.wf(),
        ensures
            final(self).wf(),
            final(self).started == Some(now),
            final(self).vendor == old(self).vendor,
            final(self).roles == old(self).roles,
            final(self).groups == old(self).groups,
    {
        self.started = Some(now);
    }

    fn get(&self, sums: &Vec<Option<Double>>, role: &str) -> (r: Option<Double>)
        ensures
            r == count_for(role_names(self.roles@), sums@, role@),
    {
        let ghost all = role_names(self.roles@);
        let mut i: usize = 0;
        assert(all.skip(0) =~= all);
        assert(sums@.skip(0) =~= sums@);
        while i < self.roles.len() && i < sums.len()
            invariant
                i <= self.roles.len(),
                i <= sums.len(),
                all == role_names(self.roles@),
                count_for(all, sums@, role@) == count_for(
                    all.skip(i as int),
                    sums@.skip(i as int),
                    role@,
                ),
            decreases self.roles.len() - i,
        {
            assert(all.skip(i as int)[0] == self.roles@[i as int]@);
            assert(all.skip(i as int).skip(1) =~= all.skip(i + 1));
            assert(sums@.skip(i as int).skip(1) =~= sums@.skip(i + 1));
            if same(self.roles[i], role) {
                return sums[i];
            }
            i += 1;
        }
        None
    }

    /// The metrics of totals counted over a time in seconds.
    pub fn metrics(&self, sums: &Vec<Option<Double>>, elapsed: Double) -> (r: Vec<Metric>)
        ensures
            metrics_of(r@) == raw_metrics(self.vendor, role_names(self.roles@), sums@, elapsed),
    {
        let mut out: Vec<Metric> = Vec::new();
        let ghost none = metrics_of(out@);
        assert(none =~= Seq::empty());
        match self.vendor {
            Vendor::Amd => {
                let first: Option<Metric> = gflops(self.get(sums, "fp"), elapsed);
                let ghost a = row(crate::metric::model_of(first));
                push_row(&mut out, first);
                assert(none + a =~= a);
                push_row(
                    &mut out,
                    fills(
                        "mem_fills_all",
                        "Demand fills (all sources)",
                        self.get(sums, "fills_all"),
                    ),
                );
                push_row(
                    &mut out,
                    fills("mem_fills_dram", "Demand fills from DRAM", self.get(sums, "fills_dram")),
                );
                push_row(
                    &mut out,
                    fills(
                        "mem_fills_remote",
                        "Demand fills from remote node",
                        self.get(sums, "fills_remote"),
                    ),
                );
            },
            Vendor::Intel => {
                // weights: double-precision elements per operation
                let scalar: Double = zero_or(self.get(sums, "fp_scalar"));
                let a: Double = zero_or(self.get(sums, "fp_128")).times(Double::from_u64(2));
                let b: Double = zero_or(self.get(sums, "fp_256")).times(Double::from_u64(4));
                let c: Double = zero_or(self.get(sums, "fp_512")).times(Double::from_u64(8));
                let vector: Double = a.plus(b).plus(c);
                let total: Double = scalar.plus(vector);
                let first: Option<Metric> = gflops(above_zero(total), elapsed);
                let ghost f = row(crate::metric::model_of(first));
                push_row(&mut out, first);
                assert(none + f =~= f);
                let share: Option<Metric> = if Double::from_u64(0).lt(total) && Double::from_u64(
                    0,
                ).lt(elapsed) {
                    let p: Double = vector.over(total).times(Double::from_u64(100));
                    Some(Metric::percent("vectorization_pct", "Vectorization", p))
                } else {
                    None
                };
                push_row(&mut out, share);
            },
            Vendor::Arm => {
                // element operations already count per element
                let flops: Double = zero_or(self.get(sums, "fp_scale")).plus(
                    zero_or(self.get(sums, "fp_fixed")),
                );
                let first: Option<Metric> = gflops(above_zero(flops), elapsed);
                let ghost f = row(crate::metric::model_of(first));
                push_row(&mut out, first);
                assert(none + f =~= f);
                push_row(
                    &mut out,
                    fills("mem_fills_dram", "Demand fills from DRAM", self.get(sums, "fills_dram")),
                );
            },
            Vendor::Other => {},
        }
        out
    }

    pub fn finish(&self, now: Duration) -> (r: Vec<Metric>)
        requires
            self.wf(),
            now.wf(),
        ensures
            metrics_of(r@) == raw_metrics(
                self.vendor,
                role_names(self.roles@),
                totals(
                    self.groups.groups@,
                    threads_of(self.groups.threads@),
                    self.groups.groups@.len(),
                ),
                match self.started {
                    Some(s) => seconds(crate::metric::since(now, s)),
                    None => of_int(0),
                },
            ),
    {
        let elapsed: Double = match self.started {
            Some(s) => now.since(s).as_secs(),
            None => Double::from_u64(0),
        };
        let sums: Vec<Option<Double>> = self.groups.read_sums();
        self.metrics(&sums, elapsed)
    }
}

} // verus!
