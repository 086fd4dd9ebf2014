//! Task building and stack staging.

use bern_kernel::sched::Scheduler;
use bern_kernel::stack::{align_ptr, Stack};
use bern_kernel::task::{Priority, Task, Transition, CONTEXT_FRAME_BYTES, STACK_ALIGNMENT};

#[test]
fn first_test() {
    assert!(1 == 1, "wrong");
}

#[test]
fn builder_defaults_to_lowest_priority_above_idle() {
    let builder = Task::new();
    assert_eq!(
        builder.priority.0 as usize,
        bern_kernel::conf::TASK_PRIORITIES - 2
    );
    assert!(builder.stack.is_none());
}

#[test]
fn staging_reserves_closure_reference_and_frame() {
    // stack: base 32768, 1024 bytes, so the fresh stack pointer is 33792
    let mut sched = Scheduler::init();
    let mut builder = Task::new();
    builder.static_stack(Stack::new(32768, 1024));
    builder.priority(Priority(1));
    builder.spawn(&mut sched, 32).unwrap();
    // idle task so the scheduler can boot
    let mut idle = Task::new();
    idle.static_stack(Stack::new(65536, 1024));
    idle.idle_task();
    idle.spawn(&mut sched, 16).unwrap();

    let _sp = sched.start();
    let t = sched.running().unwrap();
    // closure bytes: 33792 - 32 = 33760 (already aligned); the runnable
    // reference sits 8 bytes below; the context frame 64 bytes below that
    assert_eq!(t.runnable_ptr, 33752);
    assert_eq!(t.stack.ptr, 33752 - CONTEXT_FRAME_BYTES);
    assert_eq!(t.runnable_ptr % STACK_ALIGNMENT, 0);
    assert_eq!(t.priority.0, 1);
    assert!(matches!(t.transition, Transition::Ready));
    assert_eq!(t.next_wut, 0);
    assert!(t.blocking_event.is_none());
}

#[test]
fn align_ptr_rounds_down() {
    assert_eq!(align_ptr(33761, 8), 33760);
    assert_eq!(align_ptr(33760, 8), 33760);
    assert_eq!(align_ptr(7, 8), 0);
}

#[test]
fn task_accessors_round_trip() {
    let mut builder = Task::new();
    builder.static_stack(Stack::new(4096, 512));
    let mut t = builder.build();
    assert_eq!(t.stack_ptr(), t.stack.ptr);
    t.set_stack_ptr(4200);
    assert_eq!(t.stack_ptr(), 4200);
    assert_eq!(t.stack_top(), 4096 + 512);
    t.sleep(10, 5);
    assert_eq!(t.next_wut(), 15);
    t.set_transition(Transition::Sleeping);
    assert!(matches!(t.transition(), Transition::Sleeping));
    t.set_blocking_event(3);
    assert_eq!(t.blocking_event(), Some(3));
    assert_eq!(t.priority().0 as usize, bern_kernel::conf::TASK_PRIORITIES - 2);
    assert_eq!(t.runnable_ptr(), t.runnable_ptr);
}
