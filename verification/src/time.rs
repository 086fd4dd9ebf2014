//! Kernel time: durations measured in system ticks. One tick is one
//! millisecond of the system timer.

use vstd::prelude::*;

verus! {

/// A span of time in ticks; `infinite` stands for an unbounded wait.
#[derive(Debug, Clone, Copy, PartialEq, Eq, Structural)]
pub struct Duration {
    ticks: u64,
}

impl Duration {
    /// The span in ticks.
    pub closed spec fn spec_ticks(self) -> u64 {
        self.ticks
    }

    /// A span of the given number of milliseconds.
    pub fn from_millis(millis: u64) -> (r: Duration)
        ensures
            r.spec_ticks() == millis,
    {
        Duration { ticks: millis }
    }

    /// The unbounded span: no wait with this duration ever times out.
    pub fn infinite() -> (r: Duration)
        ensures
            r.spec_ticks() == u64::MAX,
    {
        Duration { ticks: u64::MAX }
    }

    /// The span in ticks.
    pub fn ticks(&self) -> (r: u64)
        ensures
            r == self.spec_ticks(),
    {
        self.ticks
    }
}

} // verus!
