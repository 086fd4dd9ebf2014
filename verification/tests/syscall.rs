//! The syscall dispatcher routes each service to the kernel operation and
//! encodes the reply as a plain word.

use bern_kernel::sched::Scheduler;
use bern_kernel::stack::Stack;
use bern_kernel::syscall::{syscall_handler, Service};
use bern_kernel::task::Task;

fn booted_scheduler() -> Scheduler {
    let mut sched = Scheduler::init();
    let mut idle = Task::new();
    idle.static_stack(Stack::new(0x1_0000, 1024));
    idle.idle_task();
    idle.spawn(&mut sched, 16).unwrap();
    let mut worker = Task::new();
    worker.static_stack(Stack::new(0x2_0000, 1024));
    worker.spawn(&mut sched, 16).unwrap();
    let _sp = sched.start();
    sched
}

#[test]
fn handler_routes_services() {
    let mut sched = booted_scheduler();
    let mut builder = Task::new();
    builder.static_stack(Stack::new(0x3_0000, 1024));

    // a fresh event gets identifier 1; waiting on it succeeds (code 0)
    let id = syscall_handler(&mut sched, &mut builder, Service::EventRegister, 0, 0);
    assert_eq!(id, 1);
    assert_eq!(
        syscall_handler(&mut sched, &mut builder, Service::EventAwait, id, 0),
        0
    );
    // an unknown identifier is rejected with code 2
    assert_eq!(
        syscall_handler(&mut sched, &mut builder, Service::EventAwait, 99, 0),
        2
    );
    // firing and yielding reply 0
    assert_eq!(
        syscall_handler(&mut sched, &mut builder, Service::EventFire, id, 0),
        0
    );
    assert_eq!(
        syscall_handler(&mut sched, &mut builder, Service::TaskYield, 0, 0),
        0
    );
    // sleeping records the wake time on the running task
    assert_eq!(
        syscall_handler(&mut sched, &mut builder, Service::TaskSleep, 25, 0),
        0
    );
    assert_eq!(sched.running().unwrap().next_wut, 25);
    // staging and spawning through the dispatcher admits a task
    assert_eq!(
        syscall_handler(&mut sched, &mut builder, Service::MoveClosureToStack, 0, 48),
        0
    );
    assert_eq!(
        syscall_handler(&mut sched, &mut builder, Service::TaskSpawn, 0, 0),
        0
    );
}
