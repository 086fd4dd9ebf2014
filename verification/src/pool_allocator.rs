//! Error taxonomy of the fixed-capacity pool allocators.

use vstd::prelude::*;

verus! {

/// Failure of a pool insertion.
#[derive(Debug, Clone, Copy, PartialEq, Eq, Structural)]
pub enum Error {
    /// Every slot of the pool is occupied; the pool never grows and never
    /// blocks, so exhaustion is reported to the caller.
    OutOfMemory,
    /// Reserved for defects that should not occur.
    Unknown,
}

} // verus!
