//! Linked list over a shared node pool: ports of the list's unit tests plus
//! checks of sorted insertion and the cursor.

use bern_kernel::linked_list::{Cursor, Error, LinkedList, Node, StaticListPool};
use bern_kernel::sched::WakeOrder;

#[derive(Debug, Copy, Clone)]
struct MyStruct {
    pub id: u32,
}

#[test]
fn one_node() {
    let mut pool: StaticListPool<MyStruct> = StaticListPool::new(16);
    let node_0 = Node::new(MyStruct { id: 42 });
    assert_eq!(node_0.inner().id, 42);

    let mut list: LinkedList<MyStruct> = LinkedList::new();
    assert!(list.front(&pool).is_none());
    assert!(list.back(&pool).is_none());

    list.insert_back(&mut pool, MyStruct { id: 42 }).unwrap();
    assert_eq!(list.front(&pool).unwrap().id, 42);
    assert_eq!(list.back(&pool).unwrap().id, 42);

    let node = list.pop_front(&mut pool);
    assert_eq!(node.unwrap().id, 42);
    assert!(list.front(&pool).is_none());
    assert!(list.back(&pool).is_none());
}

#[test]
fn length() {
    let mut pool: StaticListPool<MyStruct> = StaticListPool::new(16);

    let mut list: LinkedList<MyStruct> = LinkedList::new();
    assert_eq!(list.len(), 0);
    list.pop_front(&mut pool);
    assert_eq!(list.len(), 0);
    list.insert_back(&mut pool, MyStruct { id: 42 }).unwrap();
    assert_eq!(list.len(), 1);
    list.pop_front(&mut pool);
    assert_eq!(list.len(), 0);
}

#[test]
fn pushing_and_popping() {
    let mut pool: StaticListPool<MyStruct> = StaticListPool::new(16);

    let mut list: LinkedList<MyStruct> = LinkedList::new();
    list.insert_back(&mut pool, MyStruct { id: 42 }).unwrap();
    list.insert_back(&mut pool, MyStruct { id: 43 }).unwrap();

    let mut another_list: LinkedList<MyStruct> = LinkedList::new();
    list.insert_back(&mut pool, MyStruct { id: 44 }).unwrap();

    let front = list.pop_front(&mut pool);
    let front = front.unwrap();
    assert_eq!(front.id, 42);
    another_list.insert_back(&mut pool, front).unwrap();

    assert_eq!(another_list.back(&pool).unwrap().id, 42);
}

#[test]
fn pool_overflow() {
    let mut pool: StaticListPool<MyStruct> = StaticListPool::new(16);

    let mut list: LinkedList<MyStruct> = LinkedList::new();
    for i in 0..16 {
        assert_eq!(list.insert_back(&mut pool, MyStruct { id: i }), Ok(()));
    }
    assert_eq!(
        list.insert_back(&mut pool, MyStruct { id: 16 }),
        Err(Error::OutOfMemory)
    );
}

#[test]
fn iterate() {
    let mut pool: StaticListPool<MyStruct> = StaticListPool::new(16);
    let mut list: LinkedList<MyStruct> = LinkedList::new();
    list.insert_back(&mut pool, MyStruct { id: 42 }).unwrap();
    list.insert_back(&mut pool, MyStruct { id: 43 }).unwrap();
    list.insert_back(&mut pool, MyStruct { id: 44 }).unwrap();

    let truth = vec![42, 43, 44, 45];
    for i in 0..list.len() {
        assert_eq!(list.get(&pool, i).id, truth[i]);
    }
    // everything should still work fine
    for i in 0..list.len() {
        assert_eq!(list.get(&pool, i).id, truth[i]);
    }
}

#[test]
fn iterate_mut() {
    let mut pool: StaticListPool<MyStruct> = StaticListPool::new(16);
    let mut list: LinkedList<MyStruct> = LinkedList::new();
    list.insert_back(&mut pool, MyStruct { id: 42 }).unwrap();
    list.insert_back(&mut pool, MyStruct { id: 43 }).unwrap();
    list.insert_back(&mut pool, MyStruct { id: 44 }).unwrap();

    let truth = vec![42, 43, 44, 45];
    for i in 0..list.len() {
        let element = list.get_mut(&mut pool, i);
        assert_eq!(element.id, truth[i]);
        element.id = i as u32;
    }
    // values should have changed
    let truth = vec![0, 1, 2, 3];
    for i in 0..list.len() {
        assert_eq!(list.get(&pool, i).id, truth[i]);
    }
}

#[test]
fn find_and_take() {
    let mut pool: StaticListPool<MyStruct> = StaticListPool::new(16);
    let mut list: LinkedList<MyStruct> = LinkedList::new();
    list.insert_back(&mut pool, MyStruct { id: 42 }).unwrap();
    list.insert_back(&mut pool, MyStruct { id: 43 }).unwrap();
    list.insert_back(&mut pool, MyStruct { id: 44 }).unwrap();

    let mut another_list: LinkedList<MyStruct> = LinkedList::new();

    let mut cursor: Cursor = list.cursor_front_mut();
    let mut target: Option<MyStruct> = None;
    loop {
        let hit = match cursor.inner(&list, &pool) {
            Some(element) => element.id == 43,
            None => break,
        };
        if hit {
            target = cursor.take(&mut list, &mut pool);
            break;
        }
        cursor.move_next(&list);
    }
    another_list
        .insert_back(&mut pool, target.unwrap())
        .unwrap();

    let truth = vec![42, 44];
    for i in 0..list.len() {
        assert_eq!(list.get(&pool, i).id, truth[i]);
    }

    for i in 0..another_list.len() {
        assert_eq!(another_list.get(&pool, i).id, 43);
    }
}

#[test]
fn take_interior_relinks_neighbours() {
    let mut pool: StaticListPool<MyStruct> = StaticListPool::new(4);
    let mut list: LinkedList<MyStruct> = LinkedList::new();
    for id in [1u32, 2, 3, 4] {
        list.insert_back(&mut pool, MyStruct { id }).unwrap();
    }
    let taken = list.take_at(&mut pool, 2);
    assert_eq!(taken.id, 3);
    assert_eq!(list.len(), 3);
    let truth = vec![1, 2, 4];
    for i in 0..list.len() {
        assert_eq!(list.get(&pool, i).id, truth[i]);
    }
    // the freed slot is reusable
    list.insert_back(&mut pool, MyStruct { id: 5 }).unwrap();
    assert_eq!(list.back(&pool).unwrap().id, 5);
}

#[test]
fn insert_when_keeps_wake_order() {
    let mut pool: StaticListPool<bern_kernel::task::Task> = StaticListPool::new(8);
    let mut list: LinkedList<bern_kernel::task::Task> = LinkedList::new();
    let mut make = |wut: u64| {
        let mut builder = bern_kernel::task::Task::new();
        builder.static_stack(bern_kernel::stack::Stack::new(4096, 1024));
        let mut t = builder.build();
        t.sleep(0, wut as u32);
        t
    };
    for wut in [50u64, 10, 30, 30, 90, 20] {
        list.insert_when::<WakeOrder>(&mut pool, make(wut)).unwrap();
    }
    let mut last = 0u64;
    for i in 0..list.len() {
        let w = list.get(&pool, i).next_wut();
        assert!(last <= w);
        last = w;
    }
    assert_eq!(list.len(), 6);
}
