//! Mutex and semaphore scenarios: exclusion of contenders, wake on release,
//! and the permit ceiling.

use bern_kernel::mutex::Mutex;
use bern_kernel::sched::Scheduler;
use bern_kernel::semaphore::Semaphore;
use bern_kernel::simple_mutex::SimpleMutex;
use bern_kernel::critical_mutex::CriticalMutex;
use bern_kernel::stack::Stack;
use bern_kernel::sync::Error;
use bern_kernel::task::{Priority, Task};

fn spawn_at(sched: &mut Scheduler, prio: Option<u8>, base: usize) -> usize {
    let mut builder = Task::new();
    builder.static_stack(Stack::new(base, 1024));
    match prio {
        Some(p) => {
            builder.priority(Priority(p));
        },
        None => {
            builder.idle_task();
        },
    }
    builder.spawn(sched, 32).unwrap();
    base
}

fn running_base(sched: &Scheduler) -> usize {
    sched.running().unwrap().stack.bottom
}

#[test]
fn try_lock_excludes_the_second_contender() {
    let mut m = Mutex::new(5u32);
    let guard = m.try_lock().unwrap();
    // the second contender does not obtain the lock
    match m.try_lock() {
        Err(e) => assert_eq!(e, Error::WouldBlock),
        Ok(_) => panic!("the lock was handed out twice"),
    }
    assert_eq!(*m.inner(&guard), 5);
    let _ = guard;
}

#[test]
fn blocking_lock_unblocks_on_the_next_fire() {
    let mut sched = Scheduler::init();
    let _idle = spawn_at(&mut sched, None, 0x1_0000);
    let t1 = spawn_at(&mut sched, Some(1), 0x2_0000);
    let t2 = spawn_at(&mut sched, Some(2), 0x3_0000);

    let mut m = Mutex::new(0u32);
    let mut sp = sched.start();
    m.register(&mut sched).unwrap();

    // the first task takes the lock and goes to sleep holding it
    assert_eq!(running_base(&sched), t1);
    let guard = m.try_lock().unwrap();
    sched.sleep(50);
    sp = sched.switch_context(sp);

    // the second task contends: it blocks on the mutex's event
    assert_eq!(running_base(&sched), t2);
    let blocked = m.lock(&mut sched, 0);
    assert!(blocked.is_ok());
    sp = sched.switch_context(sp);

    // only idle is runnable now; the holder releases: the very next fire
    // wakes the contender, and the next switch runs it
    let woke = m.unlock(&mut sched, guard);
    assert!(woke);
    sp = sched.switch_context(sp);
    assert_eq!(running_base(&sched), t2);
    let _ = sp;
}

#[test]
fn lock_when_free_succeeds_without_blocking() {
    let mut sched = Scheduler::init();
    let _idle = spawn_at(&mut sched, None, 0x1_0000);
    let _t = spawn_at(&mut sched, Some(1), 0x2_0000);
    let mut m = Mutex::new(7u32);
    let _sp = sched.start();
    m.register(&mut sched).unwrap();
    let guard = m.lock(&mut sched, 0).unwrap();
    *m.inner_mut(&guard) = 8;
    let _ = m.unlock(&mut sched, guard);
    assert_eq!(m.inner, 8);
    assert_eq!(m.lock, false);
}

#[test]
fn lock_on_unregistered_mutex_is_poisoned() {
    let mut sched = Scheduler::init();
    let _idle = spawn_at(&mut sched, None, 0x1_0000);
    let _t = spawn_at(&mut sched, Some(1), 0x2_0000);
    let _sp = sched.start();
    // the mutex was never registered, so a contended lock cannot block
    let mut m = Mutex::new(0u32);
    let guard = m.try_lock().unwrap();
    match m.lock(&mut sched, 0) {
        Err(e) => assert_eq!(e, Error::Poisoned),
        Ok(_) => panic!("a lock without an event must not block"),
    }
    let _ = guard;
}

#[test]
fn register_fails_when_the_event_pool_is_exhausted() {
    let mut sched = Scheduler::init();
    for _ in 0..bern_kernel::conf::EVENT_POOL_SIZE {
        let mut m = Mutex::new(0u32);
        m.register(&mut sched).unwrap();
    }
    let mut late = Mutex::new(0u32);
    assert_eq!(late.register(&mut sched), Err(Error::OutOfMemory));
    let mut sem = Semaphore::new(1);
    assert_eq!(sem.register(&mut sched), Err(Error::OutOfMemory));
}

#[test]
fn semaphore_respects_its_ceiling() {
    let mut sched = Scheduler::init();
    let mut sem = Semaphore::new(2);
    sem.register(&mut sched).unwrap();
    let p1 = sem.try_acquire().unwrap();
    let p2 = sem.try_acquire().unwrap();
    match sem.try_acquire() {
        Err(e) => assert_eq!(e, Error::WouldBlock),
        Ok(_) => panic!("more permits than the ceiling"),
    }
    let _ = sem.release(&mut sched, p1);
    let p3 = sem.try_acquire().unwrap();
    let _ = sem.release(&mut sched, p2);
    let _ = sem.release(&mut sched, p3);
    assert_eq!(sem.permits_issued, 0);
}

#[test]
fn simple_mutex_hands_out_data_once() {
    let mut m = SimpleMutex::new(3u32);
    {
        let v = m.lock().unwrap();
        *v = 4;
    }
    assert!(m.lock().is_none());
    m.release();
    assert_eq!(*m.lock().unwrap(), 4);
}

#[test]
fn critical_mutex_wraps_data() {
    let mut m = CriticalMutex::new(11u32);
    {
        let v = m.lock();
        *v = 12;
    }
    m.release();
    assert_eq!(m.inner, 12);
}
