//! How values read: volumes in binary units, spans in milliseconds or seconds.

use crate::arithmetic::law_quotients_of_whole_numbers;
use crate::decimal::{dec, dec_int, fixed};
use crate::double::{at_most, lemma_whole_exact, less, of_int, one_unit, product, Double};
use crate::metric::{seconds, Duration, ValueModel};
use crate::report::{bytes_text, display_text, duration_text, in_binary_units, unit_text};
use vstd::arithmetic::power2::lemma_pow2_pos;
use vstd::prelude::*;

verus! {

/// Whole numbers are ordered as doubles are.
proof fn lemma_at_least_1024(n: nat)
    requires
        n < 9007199254740992,
    ensures
        at_most(of_int(1024), of_int(n as int)) == (n >= 1024),
{
    lemma_whole_exact(1024);
    lemma_whole_exact(n as int);
    lemma_pow2_pos(1074);
    let u = one_unit();
    assert(n >= 1024 ==> n * u >= 1024 * u) by (nonlinear_arith);
    assert(n < 1024 ==> n * u < 1024 * u) by (nonlinear_arith)
        requires
            u > 0,
    ;
}

/// One unit up.
proof fn lemma_unit_up(n: nat, unit: nat)
    requires
        0 < n,
        n * 1024 < 9007199254740992,
        unit < 4,
    ensures
        in_binary_units(of_int((n * 1024) as int), unit) == in_binary_units(
            of_int(n as int),
            unit + 1,
        ),
{
    lemma_at_least_1024(n * 1024);
    law_quotients_of_whole_numbers(n, 1024);
}

/// Fewer than 1024 bytes are told one by one.
pub proof fn law_few_bytes_are_told_one_by_one(bytes: u64)
    requires
        bytes < 1024,
    ensures
        bytes_text(bytes) == dec(bytes as nat) + " B"@,
{
    lemma_at_least_1024(bytes as nat);
}

/// A volume is told in the largest unit of which there is one: 1024 bytes are a KiB, 1024 of
/// those a MiB, 1024 of those a GiB, and 1024 of those a TiB, the largest there is.
pub proof fn law_each_unit_is_1024_of_the_last(k: nat)
    requires
        0 < k < 1024,
    ensures
        bytes_text((k * 1024) as u64) == fixed(of_int(k as int), 1) + " "@ + "KiB"@,
        bytes_text((k * 1048576) as u64) == fixed(of_int(k as int), 1) + " "@ + "MiB"@,
        bytes_text((k * 1073741824) as u64) == fixed(of_int(k as int), 1) + " "@ + "GiB"@,
        bytes_text((k * 1099511627776) as u64) == fixed(of_int(k as int), 1) + " "@ + "TiB"@,
{
    lemma_at_least_1024(k);
    lemma_unit_up(k, 0);
    lemma_unit_up(k * 1024, 0);
    lemma_unit_up(k, 1);
    assert(k * 1024 * 1024 == k * 1048576);
    lemma_unit_up(k * 1048576, 0);
    lemma_unit_up(k * 1024, 1);
    lemma_unit_up(k, 2);
    assert(k * 1048576 * 1024 == k * 1073741824);
    lemma_unit_up(k * 1073741824, 0);
    lemma_unit_up(k * 1048576, 1);
    lemma_unit_up(k * 1024, 2);
    lemma_unit_up(k, 3);
    assert(k * 1073741824 * 1024 == k * 1099511627776);
}

/// Tebibytes are not counted up any further.
pub proof fn law_many_tebibytes_stay(k: nat)
    requires
        1024 <= k < 8192,
    ensures
        bytes_text((k * 1099511627776) as u64) == fixed(of_int(k as int), 1) + " "@ + "TiB"@,
{
    lemma_unit_up(k * 1073741824, 0);
    lemma_unit_up(k * 1048576, 1);
    lemma_unit_up(k * 1024, 2);
    lemma_unit_up(k, 3);
    assert(k * 1073741824 * 1024 == k * 1099511627776);
    assert(k * 1048576 * 1024 == k * 1073741824);
    assert(k * 1024 * 1024 == k * 1048576);
}

/// A span below a second is told in milliseconds to a tenth, any other in seconds to a
/// thousandth.
pub proof fn law_short_spans_are_in_milliseconds(d: Duration)
    ensures
        less(seconds(d), of_int(1)) ==> duration_text(d) == fixed(
            product(seconds(d), of_int(1000)),
            1,
        ) + " ms"@,
        !less(seconds(d), of_int(1)) ==> duration_text(d) == fixed(seconds(d), 3) + " s"@,
{
}

/// A percentage is told to a tenth, a measured number to a hundredth, a count as it is; a unit
/// stands behind the number, where there is one.
pub proof fn law_numbers_are_told_with_their_unit(x: Double, n: i64, unit: Seq<char>)
    ensures
        display_text(ValueModel::Percent(x)) == fixed(x, 1) + "%"@,
        unit != ""@ ==> display_text(ValueModel::Float { value: x, unit }) == fixed(x, 2) + " "@
            + unit,
        display_text(ValueModel::Float { value: x, unit: ""@ }) == fixed(x, 2),
        unit != ""@ ==> display_text(ValueModel::Int { value: n, unit }) == dec_int(n as int) + " "@
            + unit,
        display_text(ValueModel::Int { value: n, unit: ""@ }) == dec_int(n as int),
        unit_text(ValueModel::Percent(x)) == "%"@,
        unit_text(ValueModel::Float { value: x, unit }) == unit,
        unit_text(ValueModel::Int { value: n, unit }) == unit,
{
}

/// Spans are in seconds, and volumes in bytes.
pub proof fn law_spans_are_in_seconds_and_volumes_in_bytes(d: Duration, b: u64)
    ensures
        unit_text(ValueModel::Duration(d)) == "s"@,
        unit_text(ValueModel::Bytes(b)) == "bytes"@,
        display_text(ValueModel::Duration(d)) == duration_text(d),
        display_text(ValueModel::Bytes(b)) == bytes_text(b),
{
}

} // verus!
