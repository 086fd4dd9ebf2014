//! Core of a preemptive, priority-based real-time kernel: a fixed-capacity
//! slot arena, an intrusive doubly-linked list over pool-owned nodes, tasks
//! and their stack staging, a generic wait/wake event primitive, a strict
//! priority scheduler with round-robin time slicing, and the mutex and
//! semaphore built on top of the event primitive.
//!
//! The hardware-facing pieces (context-switch trampoline, memory-protection
//! registers, interrupt control) are external collaborators: the scheduler
//! here is the portable decision logic, driven through explicit state
//! transitions.

pub mod pool_allocator;
pub mod array_pool;
pub mod linked_list;
pub mod conf;
pub mod stack;
pub mod time;
pub mod task;
pub mod event;
pub mod sched;
pub mod sync;
pub mod mutex;
pub mod semaphore;
pub mod simple_mutex;
pub mod critical_mutex;
pub mod syscall;
