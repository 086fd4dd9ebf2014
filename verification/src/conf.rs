//! Build-time kernel configuration: the core treats these as externally
//! supplied constants.

use vstd::prelude::*;

verus! {

/// Number of slots of the task pool: the most tasks that can exist at once,
/// the running one included.
pub const TASK_POOL_SIZE: usize = 8;

/// Number of priority levels. Priority 0 is the highest; the last level is
/// reserved for the idle task.
pub const TASK_PRIORITIES: usize = 8;

/// Number of slots of the event pool: the most events that can be registered.
pub const EVENT_POOL_SIZE: usize = 32;

/// A byte count, built from a power-of-two unit.
#[derive(Debug, Clone, Copy, PartialEq, Eq, Structural)]
pub struct Bytes(usize);

impl Bytes {
    /// The byte count as a plain number.
    pub closed spec fn spec_count(self) -> usize {
        self.0
    }

    /// Bytes, as given.
    #[allow(non_snake_case)]
    pub fn from_B(bytes: usize) -> (r: Bytes)
        ensures
            r.spec_count() == bytes,
    {
        Bytes(bytes)
    }

    /// Kibibytes: 1024 bytes each.
    #[allow(non_snake_case)]
    pub fn from_kB(kilo_bytes: usize) -> (r: Bytes)
        requires
            kilo_bytes * 1024 <= usize::MAX,
        ensures
            r.spec_count() == kilo_bytes * 1024,
    {
        Bytes(kilo_bytes * 1024)
    }

    /// Mebibytes: 1024 * 1024 bytes each.
    #[allow(non_snake_case)]
    pub fn from_MB(mega_bytes: usize) -> (r: Bytes)
        requires
            mega_bytes * 1048576 <= usize::MAX,
        ensures
            r.spec_count() == mega_bytes * 1048576,
    {
        Bytes(mega_bytes * 1048576)
    }

    /// Gibibytes: 1024 * 1024 * 1024 bytes each.
    #[allow(non_snake_case)]
    pub fn from_GB(giga_bytes: usize) -> (r: Bytes)
        requires
            giga_bytes * 1073741824 <= usize::MAX,
        ensures
            r.spec_count() == giga_bytes * 1073741824,
    {
        Bytes(giga_bytes * 1073741824)
    }

    /// The byte count.
    pub fn count(&self) -> (r: usize)
        ensures
            r == self.spec_count(),
    {
        self.0
    }
}

/// Task pool and priority configuration.
pub struct Task {
    pub pool_size: usize,
    pub priorities: u8,
}

/// Event pool configuration.
pub struct Event {
    pub pool_size: usize,
}

/// One contiguous memory region of the target device.
pub struct MemorySection {
    pub start_address: usize,
    pub size: Bytes,
}

/// The memory map of the target device.
pub struct Memory {
    pub flash: MemorySection,
    pub sram: MemorySection,
    pub peripheral: MemorySection,
}

/// The whole kernel configuration.
pub struct Conf {
    pub task: Task,
    pub event: Event,
    pub memory: Memory,
}

} // verus!
