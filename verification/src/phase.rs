//! Syntax phases.

use vstd::prelude::*;

verus! {

/// The phase a piece of syntax belongs to.
#[derive(Debug, Clone, Copy, PartialEq, Eq, Hash, Structural)]
pub enum Phase {
    /// runtime
    Runtime,
    /// macro expansion time
    ExpandTime,
}

impl Phase {
    /// The phase number: 0 for run time, 1 for expansion time.
    pub fn as_u32(self) -> (n: u32)
        ensures
            n == (match self {
                Phase::Runtime => 0u32,
                Phase::ExpandTime => 1u32,
            }),
    {
        match self {
            Phase::Runtime => 0,
            Phase::ExpandTime => 1,
        }
    }
}

} // verus!
