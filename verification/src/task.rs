//! Tasks and the builder that stages them.
//!
//! A task records its priority, the one-shot transition chosen at its last
//! suspension point, its wake time while sleeping, its stack region with the
//! saved stack pointer, the address of the runnable staged on its own stack,
//! and, while blocked, the event it waits on (as the event's identifier: a
//! non-owning back-reference).

use vstd::prelude::*;
use crate::conf;
use crate::stack::Stack;
use crate::stack::align_ptr;

verus! {

/// Bytes the architecture reserves on a task's stack for one full saved
/// register frame, when the task is admitted.
pub const CONTEXT_FRAME_BYTES: usize = 64;

/// Bytes of the fixed-size reference to the runnable staged on the stack.
pub const RUNNABLE_REF_BYTES: usize = 8;

/// Alignment the platform requires of a stack pointer.
pub const STACK_ALIGNMENT: usize = 8;

/// Failure of a task operation.
#[derive(Debug, Clone, Copy, PartialEq, Eq, Structural)]
pub struct TaskError;

/// The pending disposition a task chose at its last suspension point. It is
/// consumed exactly once by the context switch and reset to `Ready`.
#[derive(Debug, Clone, Copy, PartialEq, Eq, Structural)]
pub enum Transition {
    /// No special request: the task goes back to its ready list.
    Ready,
    /// The task asked to sleep until its wake time.
    Sleeping,
    /// The task awaits an event.
    Blocked,
    /// Reserved for wake-up handling.
    Resuming,
    /// The task exited; it is never resumed.
    Terminating,
}

/// A task priority: 0 is the highest; the greatest level is reserved for the
/// idle task.
#[derive(Debug, Clone, Copy, PartialEq, Eq, Structural)]
pub struct Priority(pub u8);

/// A kernel task.
#[derive(Debug, Clone, Copy, PartialEq, Eq, Structural)]
pub struct Task {
    /// One-shot disposition for the next context switch.
    pub transition: Transition,
    /// Address of the staged runnable on the task's own stack.
    pub runnable_ptr: usize,
    /// Absolute tick at which to wake; meaningful only while sleeping.
    pub next_wut: u64,
    /// The task's stack region and saved stack pointer.
    pub stack: Stack,
    /// The task's priority.
    pub priority: Priority,
    /// The event the task waits for, if any, as an identifier.
    pub blocking_event: Option<usize>,
}

impl Task {
    /// Starts building a task; the default priority is the lowest one above
    /// the idle level.
    pub fn new() -> (r: TaskBuilder)
        ensures
            r.stack is None,
            r.priority.0 == conf::TASK_PRIORITIES - 2,
            r.wf(),
    {
        TaskBuilder {
            stack: None,
            priority: Priority((conf::TASK_PRIORITIES - 2) as u8),
        }
    }

    /// Address of the staged runnable reference.
    pub fn runnable_ptr(&self) -> (r: usize)
        ensures
            r == self.runnable_ptr,
    {
        self.runnable_ptr
    }

    /// The saved stack pointer.
    pub fn stack_ptr(&self) -> (r: usize)
        ensures
            r == self.stack.ptr,
    {
        self.stack.ptr
    }

    /// Records a new saved stack pointer.
    pub fn set_stack_ptr(&mut self, psp: usize)
        ensures
            *final(self) == (Task { stack: Stack { ptr: psp, ..old(self).stack }, ..*old(self) }),
    {
        self.stack.ptr = psp;
    }

    /// One past the highest address of the stack region.
    pub fn stack_top(&self) -> (r: usize)
        requires
            self.stack.bottom + self.stack.size <= usize::MAX,
        ensures
            r == self.stack.bottom + self.stack.size,
    {
        self.stack.top_ptr()
    }

    /// The absolute wake time.
    pub fn next_wut(&self) -> (r: u64)
        ensures
            r == self.next_wut,
    {
        self.next_wut
    }

    /// Requests sleep: the wake time becomes `now + ms` ticks.
    pub fn sleep(&mut self, now: u64, ms: u32)
        requires
            old(self).next_wut <= u64::MAX,
            now + ms <= u64::MAX,
        ensures
            *final(self) == (Task { next_wut: (now + ms as u64) as u64, ..*old(self) }),
    {
        self.next_wut = now + ms as u64;
    }

    /// The pending transition.
    pub fn transition(&self) -> (r: Transition)
        ensures
            r == self.transition,
    {
        self.transition
    }

    /// Records a pending transition.
    pub fn set_transition(&mut self, transition: Transition)
        ensures
            *final(self) == (Task { transition, ..*old(self) }),
    {
        self.transition = transition;
    }

    /// The task's priority.
    pub fn priority(&self) -> (r: Priority)
        ensures
            r == self.priority,
    {
        self.priority
    }

    /// The event the task blocks on, if any.
    pub fn blocking_event(&self) -> (r: Option<usize>)
        ensures
            r == self.blocking_event,
    {
        self.blocking_event
    }

    /// Records the event the task blocks on.
    pub fn set_blocking_event(&mut self, event: usize)
        ensures
            *final(self) == (Task { blocking_event: Some(event), ..*old(self) }),
    {
        self.blocking_event = Some(event);
    }
}

/// Builds a task: the caller supplies a stack and a priority, then stages the
/// runnable onto that stack and hands the task to the scheduler.
pub struct TaskBuilder {
    /// The stack the task will run on.
    pub stack: Option<Stack>,
    /// The priority the task will be admitted at.
    pub priority: Priority,
}

impl TaskBuilder {
    /// The builder's priority is a real priority level.
    pub open spec fn wf(self) -> bool {
        (self.priority.0 as usize) < conf::TASK_PRIORITIES
    }

    /// Supplies the stack region the task will run on.
    pub fn static_stack(&mut self, stack: Stack) -> (r: &mut TaskBuilder)
        ensures
            *r == (TaskBuilder { stack: Some(stack), priority: old(self).priority }),
            *final(self) == *final(r),
    {
        self.stack = Some(stack);
        self
    }

    /// Chooses the task's priority. The greatest level is reserved for the
    /// idle task and may not be requested here; nor may any level beyond the
    /// configured range.
    pub fn priority(&mut self, priority: Priority) -> (r: &mut TaskBuilder)
        requires
            (priority.0 as usize) < conf::TASK_PRIORITIES - 1,
        ensures
            *r == (TaskBuilder { stack: old(self).stack, priority }),
            *final(self) == *final(r),
    {
        self.priority = priority;
        self
    }

    /// Marks the task as the idle task: it runs at the reserved greatest
    /// priority level.
    pub fn idle_task(&mut self) -> (r: &mut TaskBuilder)
        ensures
            *r == (TaskBuilder {
                stack: old(self).stack,
                priority: Priority((conf::TASK_PRIORITIES - 1) as u8),
            }),
            *final(self) == *final(r),
    {
        self.priority = Priority((conf::TASK_PRIORITIES - 1) as u8);
        self
    }

    /// Reserves `size_bytes` at the stack pointer for the closure's bytes,
    /// as the staging syscall does before the task is built.
    pub fn move_closure_to_stack(&mut self, size_bytes: usize)
        requires
            old(self).stack matches Some(s) && s.bottom + size_bytes <= s.ptr,
        ensures
            final(self).priority == old(self).priority,
            final(self).stack matches Some(s2) && s2 == (Stack {
                ptr: (old(self).stack->0.ptr - size_bytes) as usize,
                ..old(self).stack->0
            }),
    {
        let s = self.stack.as_mut().unwrap();
        s.ptr = s.ptr - size_bytes;
    }

    /// The address of the staged runnable reference: the stack pointer,
    /// aligned down, minus the reference's size.
    pub open spec fn spec_runnable_addr(sp: int) -> int {
        sp - (sp % (STACK_ALIGNMENT as int)) - RUNNABLE_REF_BYTES
    }

    /// The stack pointer after staging: the runnable address, aligned down
    /// once more.
    pub open spec fn spec_staged_ptr(sp: int) -> int {
        let rp = Self::spec_runnable_addr(sp);
        rp - (rp % (STACK_ALIGNMENT as int))
    }

    /// Stages the fixed-size runnable reference below the closure bytes,
    /// aligns the stack pointer, and yields the fully staged task.
    pub fn build(&mut self) -> (r: Task)
        requires
            old(self).wf(),
            old(self).stack matches Some(s) && s.bottom + 2 * STACK_ALIGNMENT
                + RUNNABLE_REF_BYTES <= s.ptr,
        ensures
            *final(self) == (TaskBuilder {
                stack: Some(r.stack),
                priority: old(self).priority,
            }),
            r == (Task {
                transition: Transition::Ready,
                runnable_ptr: Self::spec_runnable_addr(old(self).stack->0.ptr as int) as usize,
                next_wut: 0,
                stack: Stack {
                    ptr: Self::spec_staged_ptr(old(self).stack->0.ptr as int) as usize,
                    ..old(self).stack->0
                },
                priority: old(self).priority,
                blocking_event: None,
            }),
            old(self).stack->0.bottom < r.stack.ptr <= old(self).stack->0.ptr,
    {
        let s = self.stack.as_mut().unwrap();
        let mut ptr = align_ptr(s.ptr, STACK_ALIGNMENT);
        ptr = ptr - RUNNABLE_REF_BYTES;
        let runnable_ptr = ptr;
        ptr = align_ptr(ptr, STACK_ALIGNMENT);
        s.ptr = ptr;
        Task {
            transition: Transition::Ready,
            runnable_ptr,
            next_wut: 0,
            stack: *s,
            priority: self.priority,
            blocking_event: None,
        }
    }

    /// Stages the closure's bytes and then the runnable reference onto the
    /// supplied stack, and admits the fully staged task to the scheduler at
    /// the builder's priority. Fails with `OutOfMemory`, changing nothing,
    /// exactly when the task budget is exhausted.
    pub fn spawn(&mut self, sched: &mut crate::sched::Scheduler, closure_size: usize) -> (r:
        Result<(), crate::pool_allocator::Error>)
        requires
            old(self).wf(),
            old(sched).inv(),
            old(self).stack matches Some(s) && s.bottom + closure_size + 2 * STACK_ALIGNMENT
                + RUNNABLE_REF_BYTES + CONTEXT_FRAME_BYTES <= s.ptr,
        ensures
            final(sched).inv(),
            final(self).priority == old(self).priority,
            final(sched).spec_running() == old(sched).spec_running(),
            final(sched).spec_now() == old(sched).spec_now(),
            final(sched).sleeping_view() == old(sched).sleeping_view(),
            final(sched).terminated_view() == old(sched).terminated_view(),
            final(sched).events_len() == old(sched).events_len(),
            ({
                let s = old(self).stack->0;
                let sp1 = s.ptr - closure_size;
                let admitted = Task {
                    transition: Transition::Ready,
                    runnable_ptr: Self::spec_runnable_addr(sp1 as int) as usize,
                    next_wut: 0,
                    stack: Stack {
                        bottom: s.bottom,
                        size: s.size,
                        ptr: (Self::spec_staged_ptr(sp1 as int) - CONTEXT_FRAME_BYTES) as usize,
                    },
                    priority: old(self).priority,
                    blocking_event: None,
                };
                match r {
                    Ok(()) => {
                        &&& old(sched).task_count() < old(sched).task_capacity()
                        &&& final(sched).task_count() == old(sched).task_count() + 1
                        &&& final(sched).ready_view(old(self).priority.0 as int) == old(
                            sched,
                        ).ready_view(old(self).priority.0 as int).push(admitted)
                        &&& forall|p: int|
                            0 <= p < crate::sched::prios() && p != old(self).priority.0 as int
                                ==> #[trigger] final(sched).ready_view(p) == old(
                                sched,
                            ).ready_view(p)
                    },
                    Err(e) => {
                        &&& e == crate::pool_allocator::Error::OutOfMemory
                        &&& old(sched).task_count() == old(sched).task_capacity()
                    },
                }
            }),
    {
        self.move_closure_to_stack(closure_size);
        let task = self.build();
        sched.add(task)
    }
}

} // verus!
