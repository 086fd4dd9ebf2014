//! Mutual exclusion built on the event primitive.
//!
//! The lock is a boolean taken by compare-and-swap; contenders block on the
//! mutex's registered event, and each release fires that event, waking the
//! single most urgent waiter. As in the original design, a fired event is a
//! hint, not a guarantee: the blocking `lock` retries the lock once after its
//! wake and does not re-block on a lost race.

use vstd::prelude::*;
use crate::sched::Scheduler;
use crate::sync::Error;
use crate::event;

verus! {

/// A mutex protecting a value of type `T`.
pub struct Mutex<T> {
    /// Identifier of the event contenders block on; 0 until registered.
    pub id: usize,
    /// Whether the mutex is currently held.
    pub lock: bool,
    /// The protected value.
    pub inner: T,
}

/// Witness that the mutex was acquired; handed back on release.
pub struct MutexGuard {
    _token: (),
}

impl<T> Mutex<T> {
    /// Wraps a value into an unlocked, unregistered mutex.
    pub fn new(element: T) -> (r: Mutex<T>)
        ensures
            r.id == 0,
            r.lock == false,
            r.inner == element,
    {
        Mutex { id: 0, lock: false, inner: element }
    }

    /// Allocates an event to the mutex. Must be called once, before the mutex
    /// is used; fails with `OutOfMemory` exactly when the event pool is
    /// exhausted.
    pub fn register(&mut self, sched: &mut Scheduler) -> (r: Result<(), Error>)
        requires
            old(sched).inv(),
            old(sched).spec_event_counter() < usize::MAX,
        ensures
            final(sched).inv(),
            final(self).lock == old(self).lock,
            final(self).inner == old(self).inner,
            final(sched).spec_running() == old(sched).spec_running(),
            final(sched).spec_now() == old(sched).spec_now(),
            final(sched).task_count() == old(sched).task_count(),
            match r {
                Ok(()) => {
                    &&& final(self).id == old(sched).spec_event_counter() + 1
                    &&& final(sched).event_exists(final(self).id)
                    &&& final(sched).events_len() == old(sched).events_len() + 1
                },
                Err(e) => {
                    &&& e == Error::OutOfMemory
                    &&& old(sched).events_len() == crate::conf::EVENT_POOL_SIZE
                    &&& *final(self) == *old(self)
                },
            },
    {
        match sched.event_register() {
            Ok(id) => {
                self.id = id;
                Ok(())
            },
            Err(_) => Err(Error::OutOfMemory),
        }
    }

    /// Tries to take the lock without blocking: succeeds, and hands out the
    /// guard, exactly when the mutex was free; otherwise fails with
    /// `WouldBlock` and changes nothing.
    pub fn try_lock(&mut self) -> (r: Result<MutexGuard, Error>)
        ensures
            old(self).lock == false ==> (r is Ok && *final(self) == (Mutex {
                lock: true,
                ..*old(self)
            })),
            old(self).lock == true ==> (r == Err::<MutexGuard, Error>(Error::WouldBlock)
                && *final(self) == *old(self)),
    {
        if !self.lock {
            self.lock = true;
            Ok(MutexGuard { _token: () })
        } else {
            Err(Error::WouldBlock)
        }
    }

    /// Takes the lock, blocking on the mutex's event if it is held: the
    /// running task is then marked blocked on that event and suspends at the
    /// next context switch; after its wake it retries the lock once. Fails
    /// with `Poisoned` if the mutex's event identifier is not registered.
    pub fn lock(&mut self, sched: &mut Scheduler, timeout: u32) -> (r: Result<MutexGuard, Error>)
        requires
            old(sched).inv(),
            old(sched).spec_running() is Some,
        ensures
            final(sched).inv(),
            final(self).id == old(self).id,
            final(self).inner == old(self).inner,
            Scheduler::same_containers(*old(sched), *final(sched)),
            old(self).lock == false ==> (r is Ok && final(self).lock == true && *final(sched)
                == *old(sched)),
            old(self).lock == true && old(sched).event_exists(old(self).id) ==> (r is Ok
                && final(self).lock == true && final(sched).spec_running() == Some(
                crate::task::Task {
                    transition: crate::task::Transition::Blocked,
                    blocking_event: Some(old(self).id),
                    ..old(sched).spec_running()->0
                },
            )),
            old(self).lock == true && !old(sched).event_exists(old(self).id) ==> (r == Err::<
                MutexGuard,
                Error,
            >(Error::Poisoned) && *final(self) == *old(self) && final(sched).spec_running()
                == old(sched).spec_running()),
    {
        if !self.lock {
            self.lock = true;
            return Ok(MutexGuard { _token: () });
        }
        match sched.event_await(self.id, timeout) {
            Ok(()) => {
                if !self.lock {
                    self.lock = true;
                }
                Ok(MutexGuard { _token: () })
            },
            Err(event::Error::TimeOut) => Err(Error::TimeOut),
            Err(_) => Err(Error::Poisoned),
        }
    }

    /// Releases the lock, handing the guard back, and fires the mutex's
    /// event: the single most urgent contender, if any, wakes.
    pub fn unlock(&mut self, sched: &mut Scheduler, guard: MutexGuard) -> (r: bool)
        requires
            old(sched).inv(),
        ensures
            final(sched).inv(),
            *final(self) == (Mutex { lock: false, ..*old(self) }),
            r == old(sched).event_exists(old(self).id),
            final(sched).spec_running() == old(sched).spec_running(),
            final(sched).spec_now() == old(sched).spec_now(),
            final(sched).task_count() == old(sched).task_count(),
            final(sched).sleeping_view() == old(sched).sleeping_view(),
            final(sched).terminated_view() == old(sched).terminated_view(),
            !old(sched).event_exists(old(self).id) ==> Scheduler::same_containers(
                *old(sched),
                *final(sched),
            ),
            old(sched).event_exists(old(self).id) ==> exists|j: int|
                {
                    &&& 0 <= j < old(sched).events_len()
                    &&& #[trigger] old(sched).event_id_at(j) == old(self).id
                    &&& if old(sched).pending_view(j).len() == 0 {
                        Scheduler::same_containers(*old(sched), *final(sched))
                    } else {
                        let t = old(sched).pending_view(j)[0];
                        &&& final(sched).pending_view(j) == old(sched).pending_view(
                            j,
                        ).drop_first()
                        &&& final(sched).ready_view(t.priority.0 as int) == old(sched).ready_view(
                            t.priority.0 as int,
                        ).push(t)
                        &&& forall|m: int|
                            0 <= m < old(sched).pending_view(j).len() ==> t.priority.0 <= (
                            #[trigger] old(sched).pending_view(j)[m]).priority.0
                    }
                },
    {
        let MutexGuard { _token } = guard;
        self.lock = false;
        sched.event_fire(self.id)
    }

    /// Reads the protected value. The caller holds the guard.
    pub fn inner(&self, guard: &MutexGuard) -> (r: &T)
        ensures
            *r == self.inner,
    {
        &self.inner
    }

    /// Mutable access to the protected value. The caller holds the guard.
    pub fn inner_mut(&mut self, guard: &MutexGuard) -> (r: &mut T)
        ensures
            *r == old(self).inner,
            *final(self) == (Mutex { inner: *final(r), ..*old(self) }),
    {
        &mut self.inner
    }
}

} // verus!
