//! What the collectors share.

use vstd::prelude::*;

verus! {

/// The process being profiled.
#[derive(Debug, Clone, Copy, PartialEq, Eq, Structural)]
pub struct Target {
    pub pid: u32,
}

} // verus!
