//! Detect when OpenMP active-spin can mask thread imbalance.
//!
//! Thread imbalance is derived from per-thread CPU time, which cannot tell a thread
//! doing real work from one busy-waiting. Under the active wait policy idle threads spin
//! at barriers, so every thread looks busy and the imbalance reads low. The spin is CPU
//! time, so the measurement cannot be mended; the condition is detected and flagged: the
//! reported imbalance is then a lower bound.

use crate::text::{
    ascii_lower, chars_of, contains, is_ignoring_case, occurs, text_of, trim, trimmed,
};
use vstd::prelude::*;

verus! {

/// Whether an OpenMP runtime is among what is mapped.
pub open spec fn is_omp_mapped(maps: Seq<char>) -> bool {
    occurs(maps, "libgomp"@) || occurs(maps, "libomp.so"@) || occurs(maps, "libiomp5"@) || occurs(
        maps,
        "libiomp.so"@,
    )
}

/// The GNU runtime is known by its name, and so are those of LLVM and of Intel.
pub proof fn law_runtimes_are_known_by_name(maps: Seq<char>)
    ensures
        occurs(maps, "libgomp"@) ==> is_omp_mapped(maps),
        occurs(maps, "libomp.so"@) ==> is_omp_mapped(maps),
        occurs(maps, "libiomp5"@) ==> is_omp_mapped(maps),
        occurs(maps, "libiomp.so"@) ==> is_omp_mapped(maps),
        is_omp_mapped(maps) ==> occurs(maps, "libgomp"@) || occurs(maps, "libomp.so"@) || occurs(
            maps,
            "libiomp5"@,
        ) || occurs(maps, "libiomp.so"@),
{
}

/// Whether an OpenMP runtime is mapped (libgomp, LLVM libomp, Intel libiomp5).
pub fn runtime_loaded(maps: &str) -> (r: bool)
    ensures
        r == (occurs(maps@, "libgomp"@) || occurs(maps@, "libomp.so"@) || occurs(
            maps@,
            "libiomp5"@,
        ) || occurs(maps@, "libiomp.so"@)),
        r == is_omp_mapped(maps@),
{
    let v: Vec<char> = chars_of(maps);
    let m: &[char] = v.as_slice();
    contains(m, "libgomp") || contains(m, "libomp.so") || contains(m, "libiomp5") || contains(
        m,
        "libiomp.so",
    )
}

/// Whether two texts are the same but for the case of ASCII letters.
pub open spec fn same_word(a: Seq<char>, b: Seq<char>) -> bool {
    a.map_values(|c: char| ascii_lower(c)) == b.map_values(|c: char| ascii_lower(c))
}

/// Whether a wait policy is the given one, but for white space and case.
pub open spec fn policy_is(policy: Option<Seq<char>>, word: Seq<char>) -> bool {
    policy matches Some(p) && same_word(trimmed(p), word)
}

/// Whether active-spin may be masking thread imbalance.
pub open spec fn spin_masks(
    omp_loaded: bool,
    policy: Option<Seq<char>>,
    threads_bound: bool,
    runtime_forces_spin: bool,
) -> bool {
    omp_loaded && !policy_is(policy, "passive"@) && (policy_is(policy, "active"@) || threads_bound
        || runtime_forces_spin)
}

fn is_policy(policy: Option<&str>, word: &str) -> (r: bool)
    ensures
        r == policy_is(text_of(policy), word@),
{
    match policy {
        Some(p) => {
            let v: Vec<char> = chars_of(p);
            is_ignoring_case(trim(v.as_slice()), word)
        },
        None => false,
    }
}

/// Decide whether active-spin may be masking thread imbalance. `passive` makes idle
/// threads sleep; `active` always spins; unset spins only where threads are bound or the
/// runtime is set to spin forever.
pub fn spin_masks_imbalance(
    omp_loaded: bool,
    wait_policy: Option<&str>,
    threads_bound: bool,
    runtime_forces_spin: bool,
) -> (r: bool)
    ensures
        r == spin_masks(omp_loaded, text_of(wait_policy), threads_bound, runtime_forces_spin),
{
    if !omp_loaded {
        return false;
    }
    if is_policy(wait_policy, "passive") {
        false
    } else if is_policy(wait_policy, "active") {
        true
    } else {
        threads_bound || runtime_forces_spin
    }
}

} // verus!
