//! Scheduler scenarios: boot state, strict priority with round-robin ties,
//! event wake order, and a long tick-driven run.

use bern_kernel::conf;
use bern_kernel::sched::Scheduler;
use bern_kernel::stack::Stack;
use bern_kernel::task::{Priority, Task};

fn spawn_at(sched: &mut Scheduler, prio: Option<u8>, base: usize) -> usize {
    let mut builder = Task::new();
    builder.static_stack(Stack::new(base, 1024));
    match prio {
        Some(p) => {
            builder.priority(Priority(p));
        },
        None => {
            builder.idle_task();
        },
    }
    builder.spawn(sched, 32).unwrap();
    base
}

fn running_base(sched: &Scheduler) -> usize {
    sched.running().unwrap().stack.bottom
}

#[test]
fn init() {
    let sched = Scheduler::init();
    assert_eq!(sched.running().is_none(), true);
    assert_eq!(sched.terminated_len(), 0);
}

#[test]
fn strict_priority_and_round_robin() {
    let mut sched = Scheduler::init();
    let _idle = spawn_at(&mut sched, None, 0x1_0000);
    let a = spawn_at(&mut sched, Some(0), 0x2_0000);
    let b1 = spawn_at(&mut sched, Some(1), 0x3_0000);
    let b2 = spawn_at(&mut sched, Some(1), 0x4_0000);

    let mut sp = sched.start();
    // strict priority: the priority-0 task runs before any priority-1 task
    assert_eq!(running_base(&sched), a);
    assert_eq!(sched.running().unwrap().priority.0, 0);

    // while the priority-0 task is runnable, ticks never preempt it
    for _ in 0..5 {
        assert!(!sched.tick_update());
    }

    // it goes to sleep; the first priority-1 task takes over (FIFO tie)
    sched.sleep(10);
    sp = sched.switch_context(sp);
    assert_eq!(running_base(&sched), b1);

    // the two priority-1 tasks alternate, one tick each (round robin)
    let mut expected = [b2, b1];
    let mut turn = 0;
    for _ in 6..15 {
        assert!(sched.tick_update());
        sp = sched.switch_context(sp);
        assert_eq!(running_base(&sched), expected[turn]);
        turn = 1 - turn;
    }

    // the sleeping task's deadline elapses: it preempts priority 1
    assert!(sched.tick_update());
    sp = sched.switch_context(sp);
    assert_eq!(running_base(&sched), a);
    assert_eq!(sched.running().unwrap().priority.0, 0);
    let _ = sp;
}

#[test]
fn fire_wakes_highest_priority_waiter() {
    let mut sched = Scheduler::init();
    let _idle = spawn_at(&mut sched, None, 0x1_0000);
    let t3 = spawn_at(&mut sched, Some(3), 0x2_0000);
    let t0 = spawn_at(&mut sched, Some(0), 0x3_0000);
    let t2 = spawn_at(&mut sched, Some(2), 0x4_0000);

    let mut sp = sched.start();
    let id = bern_kernel::syscall::event_register(&mut sched);
    assert_eq!(id, 1);

    // each task runs in priority order and blocks on the event
    assert_eq!(running_base(&sched), t0);
    sched.event_await(id, 0).unwrap();
    sp = sched.switch_context(sp);

    assert_eq!(running_base(&sched), t2);
    sched.event_await(id, 0).unwrap();
    sp = sched.switch_context(sp);

    assert_eq!(running_base(&sched), t3);
    sched.event_await(id, 0).unwrap();
    sp = sched.switch_context(sp);

    // only the idle task is left running; waiters pend at {3, 0, 2}
    assert_eq!(sched.running().unwrap().priority.0, (conf::TASK_PRIORITIES - 1) as u8);

    // one fire wakes exactly one waiter: the priority-0 one
    assert!(sched.event_fire(id));
    sp = sched.switch_context(sp);
    assert_eq!(running_base(&sched), t0);
    assert_eq!(sched.running().unwrap().priority.0, 0);

    // the woken task exits; the next fire wakes the priority-2 waiter
    sched.task_terminate();
    sp = sched.switch_context(sp);
    assert!(sched.event_fire(id));
    sp = sched.switch_context(sp);
    assert_eq!(running_base(&sched), t2);
    assert_eq!(sched.running().unwrap().priority.0, 2);
    let _ = sp;
}

#[test]
fn sleeper_and_worker_over_thousand_ticks() {
    let mut sched = Scheduler::init();
    let _idle = spawn_at(&mut sched, None, 0x1_0000);
    let a = spawn_at(&mut sched, Some(1), 0x2_0000);
    let b = spawn_at(&mut sched, Some(1), 0x3_0000);

    let mut sp = sched.start();
    assert_eq!(running_base(&sched), a);

    // task A sleeps 100 ticks in a loop; task B never sleeps
    sched.sleep(100);
    sp = sched.switch_context(sp);
    assert_eq!(running_base(&sched), b);
    let mut wake: u64 = 100;

    for _ in 0..1000u32 {
        let trigger = sched.tick_update();
        if trigger {
            sp = sched.switch_context(sp);
        }
        let now = sched.tick_now();
        if now < wake {
            // B runs on every tick that A is asleep
            assert_eq!(running_base(&sched), b);
        } else if running_base(&sched) == a {
            // A resumed within one tick of its deadline, and sleeps again
            assert!(now - wake <= 1);
            sched.sleep(100);
            sp = sched.switch_context(sp);
            assert_eq!(running_base(&sched), b);
            wake = now + 100;
        }
    }
    let _ = sp;
}

#[test]
fn task_budget_is_exhausted_deterministically() {
    let mut sched = Scheduler::init();
    for k in 0..conf::TASK_POOL_SIZE {
        let mut builder = Task::new();
        builder.static_stack(Stack::new(0x1_0000 + k * 0x1000, 1024));
        builder.spawn(&mut sched, 16).unwrap();
    }
    let mut builder = Task::new();
    builder.static_stack(Stack::new(0x9_0000, 1024));
    assert_eq!(
        builder.spawn(&mut sched, 16),
        Err(bern_kernel::pool_allocator::Error::OutOfMemory)
    );
}

#[test]
fn terminate_moves_task_to_terminated_list() {
    let mut sched = Scheduler::init();
    let _idle = spawn_at(&mut sched, None, 0x1_0000);
    let _a = spawn_at(&mut sched, Some(1), 0x2_0000);
    let mut sp = sched.start();
    assert_eq!(sched.terminated_len(), 0);
    sched.task_terminate();
    sp = sched.switch_context(sp);
    assert_eq!(sched.terminated_len(), 1);
    // the idle task runs from here on
    assert_eq!(sched.running().unwrap().priority.0, (conf::TASK_PRIORITIES - 1) as u8);
    let _ = sp;
}

#[test]
fn await_unknown_event_is_rejected() {
    let mut sched = Scheduler::init();
    let _idle = spawn_at(&mut sched, None, 0x1_0000);
    let _sp = sched.start();
    assert_eq!(
        sched.event_await(7, 0),
        Err(bern_kernel::event::Error::InvalidId)
    );
}

#[test]
fn event_pool_exhaustion_yields_zero_id() {
    let mut sched = Scheduler::init();
    for k in 0..conf::EVENT_POOL_SIZE {
        let id = bern_kernel::syscall::event_register(&mut sched);
        assert_eq!(id, k + 1);
    }
    assert_eq!(bern_kernel::syscall::event_register(&mut sched), 0);
}
