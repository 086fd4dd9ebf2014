//! Counting semaphore built on the event primitive: a fixed permit ceiling,
//! an issued-permit counter, and an event that waiters block on. Releasing a
//! permit fires the event, waking the single most urgent waiter.

use vstd::prelude::*;
use crate::sched::Scheduler;
use crate::sync::Error;
use crate::event;

verus! {

/// A counting semaphore.
pub struct Semaphore {
    /// Identifier of the event waiters block on; 0 until registered.
    pub id: usize,
    /// The fixed permit ceiling.
    pub permits: usize,
    /// Number of permits currently issued; never above `permits`.
    pub permits_issued: usize,
}

/// Witness that a permit was issued; handed back on release.
pub struct SemaphorePermit {
    _token: (),
}

impl Semaphore {
    /// Creates a semaphore with the given permit ceiling and no permits
    /// issued.
    pub fn new(permits: usize) -> (r: Semaphore)
        ensures
            r.id == 0,
            r.permits == permits,
            r.permits_issued == 0,
    {
        Semaphore { id: 0, permits, permits_issued: 0 }
    }

    /// Allocates an event to the semaphore. Must be called once, before the
    /// semaphore is used; fails with `OutOfMemory` exactly when the event
    /// pool is exhausted.
    pub fn register(&mut self, sched: &mut Scheduler) -> (r: Result<(), Error>)
        requires
            old(sched).inv(),
            old(sched).spec_event_counter() < usize::MAX,
        ensures
            final(sched).inv(),
            final(self).permits == old(self).permits,
            final(self).permits_issued == old(self).permits_issued,
            final(sched).spec_running() == old(sched).spec_running(),
            final(sched).task_count() == old(sched).task_count(),
            match r {
                Ok(()) => {
                    &&& final(self).id == old(sched).spec_event_counter() + 1
                    &&& final(sched).event_exists(final(self).id)
                },
                Err(e) => {
                    &&& e == Error::OutOfMemory
                    &&& old(sched).events_len() == crate::conf::EVENT_POOL_SIZE
                    &&& *final(self) == *old(self)
                },
            },
    {
        match sched.event_register() {
            Ok(id) => {
                self.id = id;
                Ok(())
            },
            Err(_) => Err(Error::OutOfMemory),
        }
    }

    /// Tries to take a permit without blocking: succeeds exactly when issued
    /// permits are below the ceiling; otherwise fails with `WouldBlock` and
    /// changes nothing.
    pub fn try_acquire(&mut self) -> (r: Result<SemaphorePermit, Error>)
        ensures
            old(self).permits_issued < old(self).permits ==> (r is Ok && *final(self) == (
            Semaphore { permits_issued: (old(self).permits_issued + 1) as usize, ..*old(self) })),
            old(self).permits_issued >= old(self).permits ==> (r == Err::<
                SemaphorePermit,
                Error,
            >(Error::WouldBlock) && *final(self) == *old(self)),
    {
        if self.permits_issued < self.permits {
            self.permits_issued = self.permits_issued + 1;
            Ok(SemaphorePermit { _token: () })
        } else {
            Err(Error::WouldBlock)
        }
    }

    /// Takes a permit, blocking on the semaphore's event if none is left: the
    /// running task is then marked blocked on that event and suspends at the
    /// next context switch; after its wake the acquisition is retried once.
    /// Fails with `Poisoned` if the semaphore's event identifier is not
    /// registered.
    pub fn acquire(&mut self, sched: &mut Scheduler, timeout: u32) -> (r: Result<
        SemaphorePermit,
        Error,
    >)
        requires
            old(sched).inv(),
            old(sched).spec_running() is Some,
        ensures
            final(sched).inv(),
            final(self).id == old(self).id,
            final(self).permits == old(self).permits,
            Scheduler::same_containers(*old(sched), *final(sched)),
            old(self).permits_issued < old(self).permits ==> (r is Ok
                && final(self).permits_issued == old(self).permits_issued + 1 && *final(sched)
                == *old(sched)),
            old(self).permits_issued >= old(self).permits && old(sched).event_exists(
                old(self).id,
            ) ==> (r is Ok && final(self).permits_issued == old(self).permits_issued && final(sched).spec_running() == Some(
                crate::task::Task {
                    transition: crate::task::Transition::Blocked,
                    blocking_event: Some(old(self).id),
                    ..old(sched).spec_running()->0
                },
            )),
            old(self).permits_issued >= old(self).permits && !old(sched).event_exists(
                old(self).id,
            ) ==> (r == Err::<SemaphorePermit, Error>(Error::Poisoned) && *final(self) == *old(
                self,
            ) && final(sched).spec_running() == old(sched).spec_running()),
    {
        if self.permits_issued < self.permits {
            self.permits_issued = self.permits_issued + 1;
            return Ok(SemaphorePermit { _token: () });
        }
        match sched.event_await(self.id, timeout) {
            Ok(()) => {
                if self.permits_issued < self.permits {
                    self.permits_issued = self.permits_issued + 1;
                }
                Ok(SemaphorePermit { _token: () })
            },
            Err(event::Error::TimeOut) => Err(Error::TimeOut),
            Err(_) => Err(Error::Poisoned),
        }
    }

    /// Returns a permit, handing the witness back, and fires the semaphore's
    /// event: the single most urgent waiter, if any, moves to the ready list
    /// of its priority.
    pub fn release(&mut self, sched: &mut Scheduler, permit: SemaphorePermit) -> (r: bool)
        requires
            old(sched).inv(),
            old(self).permits_issued >= 1,
        ensures
            final(sched).inv(),
            *final(self) == (Semaphore {
                permits_issued: (old(self).permits_issued - 1) as usize,
                ..*old(self)
            }),
            r == old(sched).event_exists(old(self).id),
            final(sched).spec_running() == old(sched).spec_running(),
            final(sched).spec_now() == old(sched).spec_now(),
            final(sched).task_count() == old(sched).task_count(),
            final(sched).sleeping_view() == old(sched).sleeping_view(),
            final(sched).terminated_view() == old(sched).terminated_view(),
            !old(sched).event_exists(old(self).id) ==> Scheduler::same_containers(
                *old(sched),
                *final(sched),
            ),
            old(sched).event_exists(old(self).id) ==> exists|j: int|
                {
                    &&& 0 <= j < old(sched).events_len()
                    &&& #[trigger] old(sched).event_id_at(j) == old(self).id
                    &&& if old(sched).pending_view(j).len() == 0 {
                        Scheduler::same_containers(*old(sched), *final(sched))
                    } else {
                        let t = old(sched).pending_view(j)[0];
                        &&& final(sched).pending_view(j) == old(sched).pending_view(
                            j,
                        ).drop_first()
                        &&& forall|j2: int|
                            0 <= j2 < old(sched).events_len() && j2 != j ==> #[trigger] final(sched).pending_view(j2) == old(sched).pending_view(j2)
                        &&& final(sched).ready_view(t.priority.0 as int) == old(sched).ready_view(
                            t.priority.0 as int,
                        ).push(t)
                        &&& forall|p: int|
                            0 <= p < crate::sched::prios() && p != t.priority.0 as int
                                ==> #[trigger] final(sched).ready_view(p) == old(sched).ready_view(p)
                        &&& forall|m: int|
                            0 <= m < old(sched).pending_view(j).len() ==> t.priority.0 <= (
                            #[trigger] old(sched).pending_view(j)[m]).priority.0
                    }
                },
    {
        let SemaphorePermit { _token } = permit;
        self.permits_issued = self.permits_issued - 1;
        sched.event_fire(self.id)
    }
}

} // verus!
