//! The syscall surface: every call user code makes into the kernel crosses a
//! privilege boundary as a fixed-size operation — a service identifier plus
//! up to three machine-word arguments. The architecture collaborator carries
//! the call across the boundary; the functions here are the kernel-side
//! operations themselves, each a thin entry to the scheduler.

use vstd::prelude::*;
use crate::event;
use crate::pool_allocator;
use crate::sched::Scheduler;
use crate::task::{Task, TaskBuilder, Transition};

verus! {

/// The kernel's system services, one per syscall.
#[derive(Debug, Clone, Copy, PartialEq, Eq, Structural)]
pub enum Service {
    /// Copy the closure bytes onto the new task's stack.
    MoveClosureToStack,
    /// Build and admit a staged task.
    TaskSpawn,
    /// Put the running task to sleep.
    TaskSleep,
    /// Yield the processor voluntarily.
    TaskYield,
    /// Terminate the running task.
    TaskExit,
    /// Register a new event.
    EventRegister,
    /// Block the running task on an event.
    EventAwait,
    /// Fire an event.
    EventFire,
}

impl Service {
    /// The service identifier carried across the privilege boundary.
    pub open spec fn spec_service_id(self) -> u8 {
        match self {
            Service::MoveClosureToStack => 0,
            Service::TaskSpawn => 1,
            Service::TaskSleep => 2,
            Service::TaskYield => 3,
            Service::TaskExit => 4,
            Service::EventRegister => 5,
            Service::EventAwait => 6,
            Service::EventFire => 7,
        }
    }

    /// The service identifier carried across the privilege boundary.
    pub fn service_id(self) -> (r: u8)
        ensures
            r == self.spec_service_id(),
    {
        match self {
            Service::MoveClosureToStack => 0,
            Service::TaskSpawn => 1,
            Service::TaskSleep => 2,
            Service::TaskYield => 3,
            Service::TaskExit => 4,
            Service::EventRegister => 5,
            Service::EventAwait => 6,
            Service::EventFire => 7,
        }
    }
}

/// Reserves room for the closure's bytes on the stack held by `builder`.
pub fn move_closure_to_stack(builder: &mut TaskBuilder, size_bytes: usize)
    requires
        old(builder).stack matches Some(s) && s.bottom + size_bytes <= s.ptr,
    ensures
        final(builder).priority == old(builder).priority,
        final(builder).stack matches Some(s2) && s2 == (crate::stack::Stack {
            ptr: (old(builder).stack->0.ptr - size_bytes) as usize,
            ..old(builder).stack->0
        }),
{
    builder.move_closure_to_stack(size_bytes);
}

/// Builds the staged task from `builder` and admits it to the scheduler.
pub fn task_spawn(builder: &mut TaskBuilder, sched: &mut Scheduler) -> (r: Result<
    (),
    pool_allocator::Error,
>)
    requires
        old(builder).wf(),
        old(sched).inv(),
        old(builder).stack matches Some(s) && s.bottom + 2 * crate::task::STACK_ALIGNMENT
            + crate::task::RUNNABLE_REF_BYTES + crate::task::CONTEXT_FRAME_BYTES <= s.ptr,
    ensures
        final(sched).inv(),
        final(sched).spec_running() == old(sched).spec_running(),
        final(sched).spec_now() == old(sched).spec_now(),
        final(sched).sleeping_view() == old(sched).sleeping_view(),
        final(sched).terminated_view() == old(sched).terminated_view(),
        final(sched).events_len() == old(sched).events_len(),
        final(builder).priority == old(builder).priority,
        ({
            let s = old(builder).stack->0;
            let admitted = Task {
                transition: Transition::Ready,
                runnable_ptr: TaskBuilder::spec_runnable_addr(s.ptr as int) as usize,
                next_wut: 0,
                stack: crate::stack::Stack {
                    bottom: s.bottom,
                    size: s.size,
                    ptr: (TaskBuilder::spec_staged_ptr(s.ptr as int)
                        - crate::task::CONTEXT_FRAME_BYTES) as usize,
                },
                priority: old(builder).priority,
                blocking_event: None,
            };
            match r {
                Ok(()) => {
                    &&& old(sched).task_count() < old(sched).task_capacity()
                    &&& final(sched).task_count() == old(sched).task_count() + 1
                    &&& final(sched).ready_view(old(builder).priority.0 as int) == old(sched).ready_view(old(builder).priority.0 as int).push(admitted)
                    &&& forall|p: int|
                        0 <= p < crate::sched::prios() && p != old(builder).priority.0 as int
                            ==> #[trigger] final(sched).ready_view(p) == old(sched).ready_view(p)
                },
                Err(e) => {
                    &&& e == pool_allocator::Error::OutOfMemory
                    &&& old(sched).task_count() == old(sched).task_capacity()
                    &&& final(sched).task_count() == old(sched).task_count()
                    &&& forall|p: int|
                        0 <= p < crate::sched::prios() ==> #[trigger] final(sched).ready_view(p) == old(sched).ready_view(p)
                },
            }
        }),
{
    let task = builder.build();
    sched.add(task)
}

/// Puts the running task to sleep for `ms` ticks.
pub fn sleep(sched: &mut Scheduler, ms: u32)
    requires
        old(sched).inv(),
        old(sched).spec_running() is Some,
        old(sched).spec_now() + ms <= u64::MAX,
    ensures
        final(sched).inv(),
        final(sched).spec_running() == Some(
            Task {
                next_wut: (old(sched).spec_now() + ms) as u64,
                transition: Transition::Sleeping,
                ..old(sched).spec_running()->0
            },
        ),
        Scheduler::same_containers(*old(sched), *final(sched)),
{
    sched.sleep(ms);
}

/// Yields the processor: no kernel state changes; the caller requests a
/// context switch afterwards.
pub fn yield_now(sched: &Scheduler) {
    sched.yield_now();
}

/// Terminates the running task.
pub fn task_exit(sched: &mut Scheduler)
    requires
        old(sched).inv(),
        old(sched).spec_running() is Some,
    ensures
        final(sched).inv(),
        final(sched).spec_running() == Some(
            Task { transition: Transition::Terminating, ..old(sched).spec_running()->0 },
        ),
        Scheduler::same_containers(*old(sched), *final(sched)),
{
    sched.task_terminate();
}

/// Registers a new event and returns its identifier, or 0 when the event
/// pool is exhausted — real identifiers are never 0.
pub fn event_register(sched: &mut Scheduler) -> (r: usize)
    requires
        old(sched).inv(),
        old(sched).spec_event_counter() < usize::MAX,
    ensures
        final(sched).inv(),
        final(sched).spec_running() == old(sched).spec_running(),
        r != 0 ==> r == old(sched).spec_event_counter() + 1 && final(sched).event_exists(r)
            && final(sched).events_len() == old(sched).events_len() + 1,
        r == 0 ==> old(sched).events_len() == crate::conf::EVENT_POOL_SIZE,
{
    match sched.event_register() {
        Ok(id) => id,
        Err(_) => 0,
    }
}

/// Blocks the running task on the event with identifier `id`; fails with
/// `InvalidId`, changing nothing, exactly when no such event is registered.
pub fn event_await(sched: &mut Scheduler, id: usize, timeout: u32) -> (r: Result<
    (),
    event::Error,
>)
    requires
        old(sched).inv(),
        old(sched).spec_running() is Some,
    ensures
        final(sched).inv(),
        Scheduler::same_containers(*old(sched), *final(sched)),
        match r {
            Ok(()) => {
                &&& old(sched).event_exists(id)
                &&& final(sched).spec_running() == Some(
                    Task {
                        transition: Transition::Blocked,
                        blocking_event: Some(id),
                        ..old(sched).spec_running()->0
                    },
                )
            },
            Err(e) => {
                &&& e == event::Error::InvalidId
                &&& !old(sched).event_exists(id)
                &&& final(sched).spec_running() == old(sched).spec_running()
            },
        },
{
    sched.event_await(id, timeout)
}

/// Fires the event with identifier `id`: the single most urgent waiter, if
/// any, moves to the ready list of its priority; returns whether the event
/// exists. An unknown identifier changes nothing.
pub fn event_fire(sched: &mut Scheduler, id: usize) -> (r: bool)
    requires
        old(sched).inv(),
    ensures
        final(sched).inv(),
        final(sched).spec_running() == old(sched).spec_running(),
        final(sched).task_count() == old(sched).task_count(),
        r == old(sched).event_exists(id),
        final(sched).spec_now() == old(sched).spec_now(),
        final(sched).events_len() == old(sched).events_len(),
        final(sched).sleeping_view() == old(sched).sleeping_view(),
        final(sched).terminated_view() == old(sched).terminated_view(),
        !old(sched).event_exists(id) ==> Scheduler::same_containers(*old(sched), *final(sched)),
        old(sched).event_exists(id) ==> exists|j: int|
            {
                &&& 0 <= j < old(sched).events_len()
                &&& #[trigger] old(sched).event_id_at(j) == id
                &&& if old(sched).pending_view(j).len() == 0 {
                    Scheduler::same_containers(*old(sched), *final(sched))
                } else {
                    let t = old(sched).pending_view(j)[0];
                    &&& final(sched).pending_view(j) == old(sched).pending_view(j).drop_first()
                    &&& forall|j2: int|
                        0 <= j2 < old(sched).events_len() && j2 != j ==> #[trigger] final(sched).pending_view(j2) == old(sched).pending_view(j2)
                    &&& final(sched).ready_view(t.priority.0 as int) == old(sched).ready_view(t.priority.0 as int).push(t)
                    &&& forall|p: int|
                        0 <= p < crate::sched::prios() && p != t.priority.0 as int ==> #[trigger] final(sched).ready_view(p) == old(sched).ready_view(p)
                    &&& forall|m: int|
                        0 <= m < old(sched).pending_view(j).len() ==> t.priority.0 <= (#[trigger] old(sched).pending_view(j)[m]).priority.0
                }
            },
{
    sched.event_fire(id)
}

/// The kernel-side syscall dispatcher: the architecture's exception handler
/// lands here with the service identifier and the call's plain-word
/// arguments, after carrying them across the privilege boundary. The return
/// value travels back the same way: an event identifier for `EventRegister`
/// (0 when the pool is exhausted), an error code for `EventAwait` (0 for
/// success, 1 for a timeout, 2 for an unknown identifier), and 0 otherwise.
pub fn syscall_handler(
    sched: &mut Scheduler,
    builder: &mut TaskBuilder,
    service: Service,
    arg0: usize,
    arg1: usize,
) -> (r: usize)
    requires
        old(sched).inv(),
        service is MoveClosureToStack ==> (old(builder).stack matches Some(s) && s.bottom + arg1
            <= s.ptr),
        service is TaskSpawn ==> old(builder).wf(),
        service is TaskSpawn ==> (old(builder).stack matches Some(s) && s.bottom + 2
            * crate::task::STACK_ALIGNMENT + crate::task::RUNNABLE_REF_BYTES
            + crate::task::CONTEXT_FRAME_BYTES <= s.ptr),
        service is TaskSleep ==> old(sched).spec_running() is Some && old(sched).spec_now() + arg0
            <= u64::MAX && arg0 <= u32::MAX,
        service is TaskExit ==> old(sched).spec_running() is Some,
        service is EventRegister ==> old(sched).spec_event_counter() < usize::MAX,
        service is EventAwait ==> old(sched).spec_running() is Some && arg1 <= u32::MAX,
    ensures
        final(sched).inv(),
        service is MoveClosureToStack ==> (r == 0 && *final(sched) == *old(sched) && final(builder).priority == old(builder).priority && (final(builder).stack matches Some(s2) && s2 == (
        crate::stack::Stack {
            ptr: (old(builder).stack->0.ptr - arg1) as usize,
            ..old(builder).stack->0
        }))),
        service is TaskSpawn ==> (r == 0 && final(builder).priority == old(builder).priority
            && final(sched).spec_running() == old(sched).spec_running() && final(sched).sleeping_view() == old(sched).sleeping_view() && final(sched).terminated_view() == old(sched).terminated_view() && ({
            let s = old(builder).stack->0;
            let admitted = Task {
                transition: Transition::Ready,
                runnable_ptr: TaskBuilder::spec_runnable_addr(s.ptr as int) as usize,
                next_wut: 0,
                stack: crate::stack::Stack {
                    bottom: s.bottom,
                    size: s.size,
                    ptr: (TaskBuilder::spec_staged_ptr(s.ptr as int)
                        - crate::task::CONTEXT_FRAME_BYTES) as usize,
                },
                priority: old(builder).priority,
                blocking_event: None,
            };
            if old(sched).task_count() < old(sched).task_capacity() {
                &&& final(sched).task_count() == old(sched).task_count() + 1
                &&& final(sched).ready_view(old(builder).priority.0 as int) == old(sched).ready_view(old(builder).priority.0 as int).push(admitted)
                &&& forall|p: int|
                    0 <= p < crate::sched::prios() && p != old(builder).priority.0 as int
                        ==> #[trigger] final(sched).ready_view(p) == old(sched).ready_view(p)
            } else {
                &&& final(sched).task_count() == old(sched).task_count()
                &&& forall|p: int|
                    0 <= p < crate::sched::prios() ==> #[trigger] final(sched).ready_view(p)
                        == old(sched).ready_view(p)
            }
        })),
        service is TaskSleep ==> (r == 0 && final(sched).spec_running() == Some(
            Task {
                next_wut: (old(sched).spec_now() + arg0) as u64,
                transition: Transition::Sleeping,
                ..old(sched).spec_running()->0
            },
        )),
        service is TaskYield ==> (r == 0 && *final(sched) == *old(sched)),
        service is TaskExit ==> (r == 0 && final(sched).spec_running() == Some(
            Task { transition: Transition::Terminating, ..old(sched).spec_running()->0 },
        )),
        service is EventRegister ==> (r != 0 ==> r == old(sched).spec_event_counter() + 1 && final(sched).event_exists(r)) && (r == 0 ==> old(sched).events_len()
            == crate::conf::EVENT_POOL_SIZE),
        service is EventAwait ==> (r == 0 <==> old(sched).event_exists(arg0)) && (r == 0
            ==> final(sched).spec_running() == Some(
            Task {
                transition: Transition::Blocked,
                blocking_event: Some(arg0),
                ..old(sched).spec_running()->0
            },
        )) && (r != 0 ==> r == 2),
        service is EventFire ==> (r == 0 && final(sched).spec_running() == old(sched).spec_running() && final(sched).task_count() == old(sched).task_count() && final(sched).sleeping_view() == old(sched).sleeping_view() && final(sched).terminated_view() == old(sched).terminated_view() && (!old(sched).event_exists(arg0) ==> Scheduler::same_containers(
            *old(sched),
            *final(sched),
        )) && (old(sched).event_exists(arg0) ==> exists|j: int|
            {
                &&& 0 <= j < old(sched).events_len()
                &&& #[trigger] old(sched).event_id_at(j) == arg0
                &&& if old(sched).pending_view(j).len() == 0 {
                    Scheduler::same_containers(*old(sched), *final(sched))
                } else {
                    let t = old(sched).pending_view(j)[0];
                    &&& final(sched).pending_view(j) == old(sched).pending_view(j).drop_first()
                    &&& forall|j2: int|
                        0 <= j2 < old(sched).events_len() && j2 != j ==> #[trigger] final(sched).pending_view(j2) == old(sched).pending_view(j2)
                    &&& final(sched).ready_view(t.priority.0 as int) == old(sched).ready_view(
                        t.priority.0 as int,
                    ).push(t)
                    &&& forall|p: int|
                        0 <= p < crate::sched::prios() && p != t.priority.0 as int
                            ==> #[trigger] final(sched).ready_view(p) == old(sched).ready_view(p)
                    &&& forall|m: int|
                        0 <= m < old(sched).pending_view(j).len() ==> t.priority.0 <= (
                        #[trigger] old(sched).pending_view(j)[m]).priority.0
                }
            })),
{
    match service {
        Service::MoveClosureToStack => {
            builder.move_closure_to_stack(arg1);
            0
        },
        Service::TaskSpawn => {
            let task = builder.build();
            sched.add(task).ok();
            0
        },
        Service::TaskSleep => {
            let ms: u32 = arg0 as u32;
            sched.sleep(ms);
            0
        },
        Service::TaskYield => {
            sched.yield_now();
            0
        },
        Service::TaskExit => {
            sched.task_terminate();
            0
        },
        Service::EventRegister => {
            match sched.event_register() {
                Ok(id) => id,
                Err(_) => 0,
            }
        },
        Service::EventAwait => {
            let id = arg0;
            let timeout = arg1;
            match sched.event_await(id, timeout as u32) {
                Ok(()) => 0,
                Err(event::Error::TimeOut) => 1,
                Err(event::Error::InvalidId) => 2,
            }
        },
        Service::EventFire => {
            let id = arg0;
            sched.event_fire(id);
            0
        },
    }
}

} // verus!
