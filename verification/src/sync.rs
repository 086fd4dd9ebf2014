//! Synchronization primitives built on the event primitive.

use vstd::prelude::*;

verus! {

/// Failure of a lock or permit acquisition.
#[derive(Debug, Clone, Copy, PartialEq, Eq, Structural)]
pub enum Error {
    /// The non-blocking attempt found the primitive unavailable.
    WouldBlock,
    /// The blocking wait exceeded its deadline.
    TimeOut,
    /// Reserved: a holder terminated abnormally without releasing.
    Poisoned,
    /// No event could be registered for the primitive.
    OutOfMemory,
}

} // verus!
