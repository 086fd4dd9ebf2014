//! The generic wait/wake primitive: an event keeps a priority-ordered list
//! of blocked tasks, and each fire releases the single highest-priority
//! waiter. Events underlie both kernel wake-ups and the user-facing mutex
//! and semaphore.

use vstd::prelude::*;
use crate::linked_list::{LinkedList, StaticListPool};
use crate::task::Task;

verus! {

/// Failure of an event wait.
#[derive(Debug, Clone, Copy, PartialEq, Eq, Structural)]
pub enum Error {
    /// The wait exceeded its deadline.
    TimeOut,
    /// No event with the given identifier is registered.
    InvalidId,
}

/// Wake policy of an event.
#[derive(Debug, Clone, Copy, PartialEq, Eq, Structural)]
pub enum Wake {
    /// Exactly one waiter, the highest-priority one, is released per fire.
    WakeFirst,
}

/// A registered event.
pub struct Event {
    /// Event identifier.
    pub id: usize,
    /// Tasks waiting for the event, ordered by descending priority (the
    /// numerically smallest, i.e. most urgent, priority first).
    pub pending: LinkedList<Task>,
    /// Wake strategy on fire.
    pub wake: Wake,
    /// Whether to apply priority inversion avoidance; reserved.
    pub priority_inversion: bool,
}

impl Event {
    /// Creates an event with the given identifier and no waiters.
    pub fn new(id: usize) -> (r: Event)
        ensures
            r.id == id,
            r.pending.spec_len() == 0,
            r.pending.indices() == Seq::<usize>::empty(),
            forall|pool: StaticListPool<Task>| r.pending.inv(pool),
    {
        Event {
            id,
            pending: LinkedList::new(),
            wake: Wake::WakeFirst,
            priority_inversion: false,
        }
    }

    /// The event's identifier.
    pub fn id(&self) -> (r: usize)
        ensures
            r == self.id,
    {
        self.id
    }
}

} // verus!
