//! What the vendor events are worth: operations by width, over the seconds they took.

use crate::arithmetic::{
    law_products_of_whole_numbers, law_quotients_of_whole_numbers, law_sums_of_whole_numbers,
};
use crate::cpu::Vendor;
use crate::double::{lemma_whole_exact, less, of_int, one_unit, product, quotient, sum, Double};
use crate::insights::or_zero;
use crate::jobs::law_whole_numbers_are_counted;
use crate::metric::{law_numeric_keeps, lemma_numeric_row, number_of, numeric_of, row, MetricModel};
use crate::raw_pmu::{
    count_for, fills_metric, policy_of, positive, raw_metrics, throughput, vector_flops,
    vectorization,
};
use vstd::arithmetic::power2::lemma_pow2_pos;
use vstd::prelude::*;

verus! {

/// A role's count is the total at the role's place, and none where no event has the role.
pub proof fn law_counts_are_found_by_role(
    roles: Seq<Seq<char>>,
    sums: Seq<Option<Double>>,
    role: Seq<char>,
    i: int,
)
    requires
        roles.len() == sums.len(),
    ensures
        0 <= i < roles.len() && roles[i] == role && (forall|j: int|
            0 <= j < i ==> #[trigger] roles[j] != role) ==> count_for(roles, sums, role) == sums[i],
        (forall|j: int| 0 <= j < roles.len() ==> #[trigger] roles[j] != role) ==> count_for(
            roles,
            sums,
            role,
        ) is None,
    decreases roles.len(),
{
    if roles.len() > 0 {
        let (r, s) = (roles.skip(1), sums.skip(1));
        law_counts_are_found_by_role(r, s, role, i - 1);
        assert forall|j: int| 0 <= j < r.len() implies #[trigger] r[j] == roles[j + 1] by {}
        if 0 < i < roles.len() {
            assert(r[i - 1] == roles[i] && s[i - 1] == sums[i]);
            assert((forall|j: int| 0 <= j < i ==> #[trigger] roles[j] != role) ==> (forall|j: int|
                0 <= j < i - 1 ==> #[trigger] r[j] != role));
            assert((forall|j: int| 0 <= j < i ==> #[trigger] roles[j] != role) ==> roles[0]
                != role);
        }
        assert((forall|j: int| 0 <= j < roles.len() ==> #[trigger] roles[j] != role) ==> roles[0]
            != role);
    }
}

/// So many were counted of a role; none where its event was not.
pub open spec fn counted(
    roles: Seq<Seq<char>>,
    sums: Seq<Option<Double>>,
    role: Seq<char>,
    n: nat,
) -> bool {
    match count_for(roles, sums, role) {
        Some(x) => x == of_int(n as int),
        None => n == 0,
    }
}

pub proof fn lemma_whole_positive(n: nat)
    requires
        n < 9007199254740992,
    ensures
        less(of_int(0), of_int(n as int)) == (n > 0),
{
    lemma_whole_exact(n as int);
    lemma_whole_exact(0);
    lemma_pow2_pos(1074);
    assert(0 * one_unit() == 0) by (nonlinear_arith);
    assert(n > 0 ==> n * one_unit() > 0) by (nonlinear_arith)
        requires
            one_unit() > 0,
    ;
}

proof fn lemma_names()
    ensures
        "gflops"@.len() == 6,
        "vectorization_pct"@.len() == 17,
        "mem_fills_all"@.len() == 13,
        "mem_fills_dram"@.len() == 14,
        "mem_fills_remote"@.len() == 16,
{
    reveal_strlit("gflops");
    reveal_strlit("vectorization_pct");
    reveal_strlit("mem_fills_all");
    reveal_strlit("mem_fills_dram");
    reveal_strlit("mem_fills_remote");
}

/// The metrics of two rows.
proof fn lemma_two_rows(a: Option<MetricModel>, b: Option<MetricModel>, key: Seq<char>)
    ensures
        numeric_of(row(a) + row(b), key) == match (a, b) {
            (Some(x), _) if x.key == key => Some(number_of(x.value)),
            (_, Some(y)) if y.key == key => Some(number_of(y.value)),
            _ => None,
        },
{
    law_numeric_keeps(row(a), row(b), key);
    lemma_numeric_row(a, key);
    lemma_numeric_row(b, key);
}

/// Operations counted over whole seconds: thousands of millions of them per second.
proof fn lemma_rate(flops: nat, rate: nat, t: nat)
    requires
        0 < t < 9007199254740992,
        flops == rate * t,
        flops < 9007199254740992,
        rate < 9007199254740992,
    ensures
        throughput(Some(of_int(flops as int)), of_int(t as int)) matches Some(m) && m.key
            == "gflops"@ && number_of(m.value) == quotient(of_int(rate as int), of_int(1000000000)),
{
    lemma_whole_positive(t);
    law_quotients_of_whole_numbers(rate, t);
}

/// The elements of packed instructions.
proof fn lemma_elements(
    a: Option<Double>,
    b: Option<Double>,
    c: Option<Double>,
    x: nat,
    y: nat,
    z: nat,
)
    requires
        or_zero(a) == of_int(x as int),
        or_zero(b) == of_int(y as int),
        or_zero(c) == of_int(z as int),
        2 * x + 4 * y + 8 * z < 9007199254740992,
    ensures
        vector_flops(a, b, c) == of_int((2 * x + 4 * y + 8 * z) as int),
{
    law_products_of_whole_numbers(x, 2);
    law_products_of_whole_numbers(y, 4);
    law_products_of_whole_numbers(z, 8);
    law_sums_of_whole_numbers(x * 2, y * 4);
    law_sums_of_whole_numbers(x * 2 + y * 4, z * 8);
}

/// On Intel, an instruction is worth its width over the 64 bits of a double: a scalar one is one
/// operation, and packed ones of 128, 256 and 512 bits are two, four and eight. Throughput is
/// the operations per second, and vectorization the percentage of them that packed
/// instructions made; neither is told of no operations at all.
pub proof fn law_operations_are_worth_their_width(
    roles: Seq<Seq<char>>,
    sums: Seq<Option<Double>>,
    scalar: nat,
    w128: nat,
    w256: nat,
    w512: nat,
    t: nat,
    rate: nat,
)
    requires
        counted(roles, sums, "fp_scalar"@, scalar),
        counted(roles, sums, "fp_128"@, w128),
        counted(roles, sums, "fp_256"@, w256),
        counted(roles, sums, "fp_512"@, w512),
        0 < t < 9007199254740992,
        scalar + w128 * 2 + w256 * 4 + w512 * 8 == rate * t,
        rate * t < 9007199254740992,
        rate < 9007199254740992,
    ensures
        ({
            let m = raw_metrics(Vendor::Intel, roles, sums, of_int(t as int));
            &&& numeric_of(m, "gflops"@) == if rate > 0 {
                Some(quotient(of_int(rate as int), of_int(1000000000)))
            } else {
                None
            }
            &&& numeric_of(m, "vectorization_pct"@) == if rate > 0 {
                Some(
                    product(
                        quotient(
                            of_int((w128 * 2 + w256 * 4 + w512 * 8) as int),
                            of_int((rate * t) as int),
                        ),
                        of_int(100),
                    ),
                )
            } else {
                None
            }
        }),
{
    let (a, b, c) = (
        count_for(roles, sums, "fp_128"@),
        count_for(roles, sums, "fp_256"@),
        count_for(roles, sums, "fp_512"@),
    );
    let packed = w128 * 2 + w256 * 4 + w512 * 8;
    let all = scalar + packed;
    lemma_elements(a, b, c, w128, w256, w512);
    law_sums_of_whole_numbers(scalar, packed);
    lemma_whole_positive(all);
    lemma_whole_positive(t);
    assert(rate > 0 <==> rate * t > 0) by (nonlinear_arith)
        requires
            t > 0,
    ;
    lemma_rate(all, rate, t);
    lemma_names();
    let vector = vector_flops(a, b, c);
    let total = sum(or_zero(count_for(roles, sums, "fp_scalar"@)), vector);
    assert(total == of_int(all as int));
    let first = throughput(positive(total), of_int(t as int));
    let second = vectorization(vector, total, of_int(t as int));
    lemma_two_rows(first, second, "gflops"@);
    lemma_two_rows(first, second, "vectorization_pct"@);
}

/// An instruction of twice the width adds twice the operations: with one width alone counted
/// `n` times in a second, throughput is `n` times 1, 2, 4 or 8 thousand-millionths.
pub proof fn law_twice_the_width_is_twice_the_operations(
    roles: Seq<Seq<char>>,
    sums: Seq<Option<Double>>,
    n: nat,
    which: nat,
)
    requires
        which < 4,
        counted(roles, sums, "fp_scalar"@, if which == 0 {
            n
        } else {
            0
        }),
        counted(roles, sums, "fp_128"@, if which == 1 {
            n
        } else {
            0
        }),
        counted(roles, sums, "fp_256"@, if which == 2 {
            n
        } else {
            0
        }),
        counted(roles, sums, "fp_512"@, if which == 3 {
            n
        } else {
            0
        }),
        0 < n < 1000000000000000,
    ensures
        ({
            let m = raw_metrics(Vendor::Intel, roles, sums, of_int(1));
            &&& which == 0 ==> numeric_of(m, "gflops"@) == Some(
                quotient(of_int(n as int), of_int(1000000000)),
            )
            &&& which == 1 ==> numeric_of(m, "gflops"@) == Some(
                quotient(of_int((n * 2) as int), of_int(1000000000)),
            )
            &&& which == 2 ==> numeric_of(m, "gflops"@) == Some(
                quotient(of_int((n * 4) as int), of_int(1000000000)),
            )
            &&& which == 3 ==> numeric_of(m, "gflops"@) == Some(
                quotient(of_int((n * 8) as int), of_int(1000000000)),
            )
            &&& numeric_of(m, "vectorization_pct"@) == Some(
                if which == 0 {
                    of_int(0)
                } else {
                    of_int(100)
                },
            )
        }),
{
    let worth: nat = if which == 0 {
        n
    } else if which == 1 {
        n * 2
    } else if which == 2 {
        n * 4
    } else {
        n * 8
    };
    let (s, a, b, c): (nat, nat, nat, nat) = (
        if which == 0 {
            n
        } else {
            0
        },
        if which == 1 {
            n
        } else {
            0
        },
        if which == 2 {
            n
        } else {
            0
        },
        if which == 3 {
            n
        } else {
            0
        },
    );
    law_operations_are_worth_their_width(roles, sums, s, a, b, c, 1, worth);
    if which == 0 {
        assert(0 * worth == 0) by (nonlinear_arith);
        law_quotients_of_whole_numbers(0, worth);
        law_products_of_whole_numbers(0, 100);
    } else {
        assert(1 * worth == worth);
        law_quotients_of_whole_numbers(1, worth);
        law_products_of_whole_numbers(1, 100);
    }
}

/// On AMD the event counts operations as they are; on Arm operations of scaled and of fixed width
/// add up. Throughput is their number per second.
pub proof fn law_operations_are_counted_as_they_are(
    roles: Seq<Seq<char>>,
    sums: Seq<Option<Double>>,
    scaled: nat,
    fixed: nat,
    t: nat,
    rate: nat,
)
    requires
        0 < t < 9007199254740992,
        scaled + fixed == rate * t,
        rate * t < 9007199254740992,
        0 < rate < 9007199254740992,
    ensures
        count_for(roles, sums, "fp"@) == Some(of_int((scaled + fixed) as int)) ==> numeric_of(
            raw_metrics(Vendor::Amd, roles, sums, of_int(t as int)),
            "gflops"@,
        ) == Some(quotient(of_int(rate as int), of_int(1000000000))),
        counted(roles, sums, "fp_scale"@, scaled) && counted(roles, sums, "fp_fixed"@, fixed)
            ==> numeric_of(
            raw_metrics(Vendor::Arm, roles, sums, of_int(t as int)),
            "gflops"@,
        ) == Some(quotient(of_int(rate as int), of_int(1000000000))),
{
    let all = scaled + fixed;
    lemma_names();
    lemma_rate(all, rate, t);
    assert(rate * t > 0) by (nonlinear_arith)
        requires
            t > 0,
            rate > 0,
    ;
    lemma_whole_positive(all);
    law_sums_of_whole_numbers(scaled, fixed);
    lemma_amd(roles, sums, of_int(t as int), "gflops"@);
    lemma_arm(roles, sums, of_int(t as int), "gflops"@);
}

proof fn lemma_arm(
    roles: Seq<Seq<char>>,
    sums: Seq<Option<Double>>,
    elapsed: Double,
    key: Seq<char>,
)
    requires
        key == "gflops"@ || key == "mem_fills_dram"@,
    ensures
        ({
            let m = raw_metrics(Vendor::Arm, roles, sums, elapsed);
            let flops = sum(
                or_zero(count_for(roles, sums, "fp_scale"@)),
                or_zero(count_for(roles, sums, "fp_fixed"@)),
            );
            &&& key == "gflops"@ ==> numeric_of(m, key) == match throughput(
                positive(flops),
                elapsed,
            ) {
                Some(x) => Some(number_of(x.value)),
                None => None,
            }
            &&& key == "mem_fills_dram"@ ==> numeric_of(m, key) == match fills_metric(
                key,
                "Demand fills from DRAM"@,
                count_for(roles, sums, "fills_dram"@),
            ) {
                Some(x) => Some(number_of(x.value)),
                None => None,
            }
        }),
{
    lemma_names();
    let flops = sum(
        or_zero(count_for(roles, sums, "fp_scale"@)),
        or_zero(count_for(roles, sums, "fp_fixed"@)),
    );
    lemma_two_rows(
        throughput(positive(flops), elapsed),
        fills_metric(
            "mem_fills_dram"@,
            "Demand fills from DRAM"@,
            count_for(roles, sums, "fills_dram"@),
        ),
        key,
    );
}

proof fn lemma_amd(
    roles: Seq<Seq<char>>,
    sums: Seq<Option<Double>>,
    elapsed: Double,
    key: Seq<char>,
)
    requires
        key == "gflops"@ || key == "mem_fills_all"@ || key == "mem_fills_dram"@ || key
            == "mem_fills_remote"@,
    ensures
        ({
            let m = raw_metrics(Vendor::Amd, roles, sums, elapsed);
            let read = |x: Option<MetricModel>|
                match x {
                    Some(x) => Some(number_of(x.value)),
                    None => None,
                };
            &&& key == "gflops"@ ==> numeric_of(m, key) == read(
                throughput(count_for(roles, sums, "fp"@), elapsed),
            )
            &&& key == "mem_fills_all"@ ==> numeric_of(m, key) == read(
                fills_metric(
                    key,
                    "Demand fills (all sources)"@,
                    count_for(roles, sums, "fills_all"@),
                ),
            )
            &&& key == "mem_fills_dram"@ ==> numeric_of(m, key) == read(
                fills_metric(key, "Demand fills from DRAM"@, count_for(roles, sums, "fills_dram"@)),
            )
            &&& key == "mem_fills_remote"@ ==> numeric_of(m, key) == read(
                fills_metric(
                    key,
                    "Demand fills from remote node"@,
                    count_for(roles, sums, "fills_remote"@),
                ),
            )
        }),
{
    lemma_names();
    let a = throughput(count_for(roles, sums, "fp"@), elapsed);
    let b = fills_metric(
        "mem_fills_all"@,
        "Demand fills (all sources)"@,
        count_for(roles, sums, "fills_all"@),
    );
    let c = fills_metric(
        "mem_fills_dram"@,
        "Demand fills from DRAM"@,
        count_for(roles, sums, "fills_dram"@),
    );
    let d = fills_metric(
        "mem_fills_remote"@,
        "Demand fills from remote node"@,
        count_for(roles, sums, "fills_remote"@),
    );
    lemma_two_rows(a, b, key);
    law_numeric_keeps(row(a) + row(b), row(c), key);
    law_numeric_keeps(row(a) + row(b) + row(c), row(d), key);
    lemma_numeric_row(c, key);
    lemma_numeric_row(d, key);
}

/// Fills are told as they are counted, each from the event of its own source.
pub proof fn law_fills_are_told_as_counted(
    roles: Seq<Seq<char>>,
    sums: Seq<Option<Double>>,
    elapsed: Double,
    n: nat,
)
    requires
        n < 9007199254740992,
    ensures
        count_for(roles, sums, "fills_all"@) == Some(of_int(n as int)) ==> numeric_of(
            raw_metrics(Vendor::Amd, roles, sums, elapsed),
            "mem_fills_all"@,
        ) == Some(of_int(n as int)),
        count_for(roles, sums, "fills_dram"@) == Some(of_int(n as int)) ==> numeric_of(
            raw_metrics(Vendor::Amd, roles, sums, elapsed),
            "mem_fills_dram"@,
        ) == Some(of_int(n as int)) && numeric_of(
            raw_metrics(Vendor::Arm, roles, sums, elapsed),
            "mem_fills_dram"@,
        ) == Some(of_int(n as int)),
        count_for(roles, sums, "fills_remote"@) == Some(of_int(n as int)) ==> numeric_of(
            raw_metrics(Vendor::Amd, roles, sums, elapsed),
            "mem_fills_remote"@,
        ) == Some(of_int(n as int)),
{
    law_whole_numbers_are_counted(n);
    lemma_amd(roles, sums, elapsed, "mem_fills_all"@);
    lemma_amd(roles, sums, elapsed, "mem_fills_dram"@);
    lemma_amd(roles, sums, elapsed, "mem_fills_remote"@);
    lemma_arm(roles, sums, elapsed, "mem_fills_dram"@);
}

/// Without time, nothing is told per second.
pub proof fn law_no_throughput_without_time(
    vendor: Vendor,
    roles: Seq<Seq<char>>,
    sums: Seq<Option<Double>>,
    elapsed: Double,
)
    requires
        !less(of_int(0), elapsed),
    ensures
        numeric_of(raw_metrics(vendor, roles, sums, elapsed), "gflops"@) is None,
        numeric_of(raw_metrics(vendor, roles, sums, elapsed), "vectorization_pct"@) is None,
{
    lemma_names();
    match vendor {
        Vendor::Amd => {
            let m = raw_metrics(vendor, roles, sums, elapsed);
            lemma_amd(roles, sums, elapsed, "gflops"@);
            lemma_no_share(roles, sums, elapsed);
        },
        Vendor::Intel => {
            assert(raw_metrics(vendor, roles, sums, elapsed) =~= Seq::empty());
        },
        Vendor::Arm => {
            lemma_arm(roles, sums, elapsed, "gflops"@);
            let f = fills_metric(
                "mem_fills_dram"@,
                "Demand fills from DRAM"@,
                count_for(roles, sums, "fills_dram"@),
            );
            lemma_two_rows(None, f, "vectorization_pct"@);
        },
        Vendor::Other => {},
    }
}

proof fn lemma_no_share(roles: Seq<Seq<char>>, sums: Seq<Option<Double>>, elapsed: Double)
    ensures
        numeric_of(raw_metrics(Vendor::Amd, roles, sums, elapsed), "vectorization_pct"@) is None,
{
    lemma_names();
    let key = "vectorization_pct"@;
    let a = throughput(count_for(roles, sums, "fp"@), elapsed);
    let b = fills_metric(
        "mem_fills_all"@,
        "Demand fills (all sources)"@,
        count_for(roles, sums, "fills_all"@),
    );
    let c = fills_metric(
        "mem_fills_dram"@,
        "Demand fills from DRAM"@,
        count_for(roles, sums, "fills_dram"@),
    );
    let d = fills_metric(
        "mem_fills_remote"@,
        "Demand fills from remote node"@,
        count_for(roles, sums, "fills_remote"@),
    );
    lemma_two_rows(a, b, key);
    law_numeric_keeps(row(a) + row(b), row(c), key);
    law_numeric_keeps(row(a) + row(b) + row(c), row(d), key);
    lemma_numeric_row(c, key);
    lemma_numeric_row(d, key);
}

/// The event of packed instructions is named by the width of its role.
pub proof fn law_packed_events_are_named_by_width(i: int)
    requires
        1 <= i <= 3,
    ensures
        ({
            let width = if i == 1 {
                "128"@
            } else if i == 2 {
                "256"@
            } else {
                "512"@
            };
            policy_of(Vendor::Intel)[i] == (
                "fp_"@ + width,
                "fp_arith_inst_retired."@ + width + "b_packed_double"@,
            )
        }),
{
    reveal_strlit("fp_");
    reveal_strlit("fp_arith_inst_retired.");
    reveal_strlit("b_packed_double");
    if i == 1 {
        reveal_strlit("128");
        reveal_strlit("fp_128");
        reveal_strlit("fp_arith_inst_retired.128b_packed_double");
        assert("fp_"@ + "128"@ =~= "fp_128"@);
        assert("fp_arith_inst_retired."@ + "128"@ + "b_packed_double"@
            =~= "fp_arith_inst_retired.128b_packed_double"@);
    } else if i == 2 {
        reveal_strlit("256");
        reveal_strlit("fp_256");
        reveal_strlit("fp_arith_inst_retired.256b_packed_double");
        assert("fp_"@ + "256"@ =~= "fp_256"@);
        assert("fp_arith_inst_retired."@ + "256"@ + "b_packed_double"@
            =~= "fp_arith_inst_retired.256b_packed_double"@);
    } else {
        reveal_strlit("512");
        reveal_strlit("fp_512");
        reveal_strlit("fp_arith_inst_retired.512b_packed_double");
        assert("fp_"@ + "512"@ =~= "fp_512"@);
        assert("fp_arith_inst_retired."@ + "512"@ + "b_packed_double"@
            =~= "fp_arith_inst_retired.512b_packed_double"@);
    }
}

/// The roles of AMD's and Arm's events.
pub proof fn law_roles_are_counted_by_their_events()
    ensures
        policy_of(Vendor::Amd) == seq![
            ("fp"@, "fp_ret_sse_avx_ops.all"@),
            ("fills_all"@, "ls_dmnd_fills_from_sys.all"@),
            ("fills_dram"@, "ls_dmnd_fills_from_sys.dram_io_all"@),
            ("fills_remote"@, "ls_dmnd_fills_from_sys.far_all"@),
        ],
        policy_of(Vendor::Arm) == seq![
            ("fp_scale"@, "fp_scale_ops_spec"@),
            ("fp_fixed"@, "fp_fixed_ops_spec"@),
            ("fills_dram"@, "ll_cache_miss_rd"@),
        ],
        policy_of(Vendor::Intel).len() == 4,
        policy_of(Vendor::Intel)[0] == ("fp_scalar"@, "fp_arith_inst_retired.scalar_double"@),
        policy_of(Vendor::Other).len() == 0,
{
}

} // verus!
