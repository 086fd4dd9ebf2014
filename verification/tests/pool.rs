//! Slot arena: exhaustion is deterministic, and releasing a slot makes room
//! again, for any interleaving of insertions and removals.

use bern_kernel::array_pool::ArrayPool;
use bern_kernel::pool_allocator::Error;

#[test]
fn fills_exactly_to_capacity() {
    let mut pool: ArrayPool<u32> = ArrayPool::new(4);
    assert_eq!(pool.capacity(), 4);
    for v in 0..4u32 {
        assert!(pool.insert(v).is_ok());
    }
    assert_eq!(pool.live(), 4);
    assert_eq!(pool.insert(99), Err(Error::OutOfMemory));
    // failure is deterministic: asking again fails the same way
    assert_eq!(pool.insert(99), Err(Error::OutOfMemory));
}

#[test]
fn insert_and_take_interleaved() {
    let mut pool: ArrayPool<u32> = ArrayPool::new(2);
    let a = pool.insert(10).unwrap();
    let b = pool.insert(20).unwrap();
    assert_eq!(pool.insert(30), Err(Error::OutOfMemory));
    assert_eq!(pool.take(a), 10);
    // one slot free again: the next insertion succeeds
    let c = pool.insert(30).unwrap();
    assert_eq!(*pool.get(c), 30);
    assert_eq!(*pool.get(b), 20);
    assert_eq!(pool.insert(40), Err(Error::OutOfMemory));
    assert_eq!(pool.take(b), 20);
    assert_eq!(pool.take(c), 30);
    assert_eq!(pool.live(), 0);
}

#[test]
fn first_free_slot_is_reused() {
    let mut pool: ArrayPool<u32> = ArrayPool::new(3);
    let s0 = pool.insert(1).unwrap();
    let s1 = pool.insert(2).unwrap();
    let _s2 = pool.insert(3).unwrap();
    assert_eq!(s0, 0);
    assert_eq!(s1, 1);
    pool.take(s0);
    // insertion scans from the front: the freed slot 0 is taken first
    let s = pool.insert(7).unwrap();
    assert_eq!(s, 0);
    *pool.get_mut(s1) = 22;
    assert_eq!(*pool.get(s1), 22);
}
