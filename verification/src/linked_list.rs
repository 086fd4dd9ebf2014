//! Intrusive doubly-linked list over pool-owned nodes.
//!
//! Nodes live in a fixed-capacity [`StaticListPool`]; a list only stores the
//! slot indices of its head and tail, and every node carries the indices of
//! its neighbours. Several lists may share one pool, so every operation takes
//! the pool explicitly and states which slots it leaves untouched. Popping or
//! taking a node hands its value to the caller and releases the slot back to
//! the pool.

use vstd::prelude::*;
use core::marker::PhantomData;
use crate::array_pool::ArrayPool;
use crate::pool_allocator;

verus! {

/// List failure: the shared node pool is exhausted.
#[derive(Debug, Clone, Copy, PartialEq, Eq, Structural)]
pub enum Error {
    OutOfMemory,
    Unknown,
}

/// A list node: the stored value plus non-owning links to its neighbours,
/// given as slot indices of the pool the node lives in.
pub struct Node<T> {
    inner: T,
    prev: Option<usize>,
    next: Option<usize>,
}

/// The arena that owns all nodes of the lists built over it.
pub type StaticListPool<T> = ArrayPool<Node<T>>;

impl<T> Node<T> {
    /// The stored value.
    pub closed spec fn value(self) -> T {
        self.inner
    }

    /// The backward link.
    pub closed spec fn prev_link(self) -> Option<usize> {
        self.prev
    }

    /// The forward link.
    pub closed spec fn next_link(self) -> Option<usize> {
        self.next
    }

    /// Wraps a value into an unlinked node.
    pub fn new(element: T) -> (r: Node<T>)
        ensures
            r.value() == element,
            r.prev_link() is None,
            r.next_link() is None,
    {
        Node { inner: element, prev: None, next: None }
    }

    /// Reads the stored value.
    pub fn inner(&self) -> (r: &T)
        ensures
            *r == self.value(),
    {
        &self.inner
    }

    /// Mutable access to the stored value; the links stay as they are.
    pub fn inner_mut(&mut self) -> (r: &mut T)
        ensures
            *r == old(self).value(),
            final(self).value() == *final(r),
            final(self).prev_link() == old(self).prev_link(),
            final(self).next_link() == old(self).next_link(),
    {
        &mut self.inner
    }
}

/// Insertion order for [`LinkedList::insert_when`]: `precedes(a, b)` says
/// that a newly inserted `a` must stand before an existing `b`.
pub trait InsertOrder<T> {
    /// The ordering criterion, as a specification.
    spec fn precedes(a: T, b: T) -> bool;

    /// Decides the criterion on concrete values.
    fn check(a: &T, b: &T) -> (r: bool)
        ensures
            r == Self::precedes(*a, *b),
    ;
}

/// Doubly-linked list of nodes owned by a shared [`StaticListPool`].
pub struct LinkedList<T> {
    head: Option<usize>,
    tail: Option<usize>,
    len: usize,
    order: Ghost<Seq<usize>>,
    _values: PhantomData<T>,
}

impl<T> LinkedList<T> {
    /// The slot indices of the list's nodes, front to back.
    pub closed spec fn indices(self) -> Seq<usize> {
        self.order@
    }

    /// Number of nodes in the list.
    pub closed spec fn spec_len(self) -> nat {
        self.len as nat
    }

    /// The values of the list, front to back, as stored in `pool`.
    pub open spec fn view_in(self, pool: StaticListPool<T>) -> Seq<T> {
        Seq::new(self.indices().len(), |k: int| pool@[self.indices()[k] as int]->0.value())
    }

    /// Node at position `k` is stored in an occupied slot and its links agree
    /// with its position.
    spec fn link_ok(slots: Seq<Option<Node<T>>>, ord: Seq<usize>, k: int) -> bool {
        &&& (ord[k] as int) < slots.len()
        &&& slots[ord[k] as int] is Some
        &&& slots[ord[k] as int]->0.prev == (if k == 0 {
            None::<usize>
        } else {
            Some(ord[k - 1])
        })
        &&& slots[ord[k] as int]->0.next == (if k == ord.len() - 1 {
            None::<usize>
        } else {
            Some(ord[k + 1])
        })
    }

    /// Well-formedness of the list with respect to its pool: the length
    /// matches the node count, every node sits in an occupied slot, no slot
    /// appears twice, the chain of `prev`/`next` links mirrors the order,
    /// and `head`/`tail` are the endpoints.
    pub closed spec fn inv(self, pool: StaticListPool<T>) -> bool {
        let ord = self.order@;
        &&& self.len == ord.len()
        &&& forall|k: int| 0 <= k < ord.len() ==> #[trigger] Self::link_ok(pool@, ord, k)
        &&& self.head == (if ord.len() == 0 {
            None::<usize>
        } else {
            Some(ord[0])
        })
        &&& self.tail == (if ord.len() == 0 {
            None::<usize>
        } else {
            Some(ord[ord.len() - 1])
        })
        &&& forall|k1: int, k2: int|
            0 <= k1 < k2 < ord.len() ==> #[trigger] ord[k1] != #[trigger] ord[k2]
    }

    /// The slots of `p2` agree with `p1` everywhere outside the members of
    /// `ord` and of `extra`.
    pub open spec fn same_outside(
        p1: Seq<Option<Node<T>>>,
        p2: Seq<Option<Node<T>>>,
        ord: Seq<usize>,
        extra: Seq<usize>,
    ) -> bool {
        &&& p2.len() == p1.len()
        &&& forall|j: int|
            0 <= j < p1.len() && !ord.contains(j as usize) && !extra.contains(j as usize)
                ==> p2[j] == p1[j]
    }

    /// Distinct indices of occupied slots are never more numerous than the
    /// occupied slots themselves.
    pub proof fn lemma_occupied_distinct_le(slots: Seq<Option<Node<T>>>, ord: Seq<usize>)
        requires
            forall|k: int|
                0 <= k < ord.len()
                    ==> (#[trigger] ord[k] as int) < slots.len() && slots[ord[k] as int] is Some,
            forall|k1: int, k2: int|
                0 <= k1 < k2 < ord.len() ==> #[trigger] ord[k1] != #[trigger] ord[k2],
        ensures
            ord.len() <= crate::array_pool::live_slots(slots),
        decreases ord.len(),
    {
        if ord.len() > 0 {
            let i = ord.last();
            let slots2 = slots.update(i as int, None);
            crate::array_pool::lemma_live_slots_update(slots, i as int, None);
            let ord2 = ord.drop_last();
            assert forall|k: int|
                0 <= k < ord2.len() implies (#[trigger] ord2[k] as int) < slots2.len()
                    && slots2[ord2[k] as int] is Some by {
                assert(ord[k] != ord[ord.len() - 1]);
            }
            Self::lemma_occupied_distinct_le(slots2, ord2);
        }
    }

    /// A well-formed list never outgrows the occupied part of its pool.
    pub proof fn lemma_len_le_live(self, pool: StaticListPool<T>)
        requires
            self.inv(pool),
        ensures
            self.spec_len() <= crate::array_pool::live_slots(pool@),
            self.spec_len() <= pool@.len(),
    {
        let ord = self.order@;
        assert forall|k: int|
            0 <= k < ord.len() implies (#[trigger] ord[k] as int) < pool@.len()
                && pool@[ord[k] as int] is Some by {
            assert(Self::link_ok(pool@, ord, k));
        }
        Self::lemma_occupied_distinct_le(pool@, ord);
        crate::array_pool::lemma_live_slots_le_len(pool@);
    }

    /// The recorded length of a well-formed list counts exactly its linked
    /// nodes, and so its values.
    pub proof fn lemma_len_counts_nodes(self, pool: StaticListPool<T>)
        requires
            self.inv(pool),
        ensures
            self.spec_len() == self.indices().len(),
            self.spec_len() == self.view_in(pool).len(),
    {
    }

    /// A member of a well-formed list occupies its slot.
    pub proof fn lemma_member_occupied(self, pool: StaticListPool<T>, x: usize)
        requires
            self.inv(pool),
            self.indices().contains(x),
        ensures
            (x as int) < pool@.len(),
            pool@[x as int] is Some,
    {
        let k = choose|k: int| 0 <= k < self.indices().len() && self.indices()[k] == x;
        assert(Self::link_ok(pool@, self.order@, k));
    }

    /// Well-formedness only depends on the slots the list occupies: a pool
    /// change that leaves them alone preserves the invariant and the values.
    pub proof fn lemma_inv_frame(
        self,
        p1: StaticListPool<T>,
        p2: StaticListPool<T>,
    )
        requires
            self.inv(p1),
            p2@.len() == p1@.len(),
            forall|k: int|
                0 <= k < self.indices().len()
                    ==> p2@[#[trigger] self.indices()[k] as int] == p1@[self.indices()[k] as int],
        ensures
            self.inv(p2),
            self.view_in(p2) == self.view_in(p1),
    {
        let ord = self.order@;
        assert forall|k: int| 0 <= k < ord.len() implies #[trigger] Self::link_ok(p2@, ord, k) by {
            assert(Self::link_ok(p1@, ord, k));
            assert(p2@[self.indices()[k] as int] == p1@[self.indices()[k] as int]);
        }
        assert forall|k: int| 0 <= k < ord.len() implies self.view_in(p2)[k] == self.view_in(
            p1,
        )[k] by {
            assert(p2@[self.indices()[k] as int] == p1@[self.indices()[k] as int]);
        }
        assert(self.view_in(p2) =~= self.view_in(p1));
    }

    /// A list untouched by another list's operation stays well-formed: its
    /// members are disjoint from the touched slots.
    pub proof fn lemma_inv_preserved_disjoint(
        self,
        p1: StaticListPool<T>,
        p2: StaticListPool<T>,
        ord: Seq<usize>,
        extra: Seq<usize>,
    )
        requires
            self.inv(p1),
            Self::same_outside(p1@, p2@, ord, extra),
            forall|x: usize| self.indices().contains(x) ==> !ord.contains(x),
            forall|x: usize| self.indices().contains(x) ==> !extra.contains(x),
        ensures
            self.inv(p2),
            self.view_in(p2) == self.view_in(p1),
    {
        assert forall|k: int|
            0 <= k < self.indices().len()
                implies p2@[#[trigger] self.indices()[k] as int]
                    == p1@[self.indices()[k] as int] by {
            let x = self.indices()[k];
            assert(self.indices().contains(x));
            assert(Self::link_ok(p1@, self.order@, k));
        }
        self.lemma_inv_frame(p1, p2);
    }

    /// Creates an empty list.
    pub fn new() -> (r: LinkedList<T>)
        ensures
            r.spec_len() == 0,
            r.indices() == Seq::<usize>::empty(),
            forall|pool: StaticListPool<T>| r.inv(pool),
    {
        LinkedList {
            head: None,
            tail: None,
            len: 0,
            order: Ghost(Seq::empty()),
            _values: PhantomData,
        }
    }

    /// Number of nodes currently linked.
    pub fn len(&self) -> (r: usize)
        ensures
            r == self.spec_len(),
    {
        self.len
    }

    /// Allocates a node for `element` in `pool` and appends it to the back.
    /// Fails with `OutOfMemory`, changing nothing, exactly when the pool is
    /// full.
    pub fn insert_back(&mut self, pool: &mut StaticListPool<T>, element: T) -> (r: Result<
        (),
        Error,
    >)
        requires
            old(self).inv(*old(pool)),
            old(pool).wf(),
        ensures
            final(pool).wf(),
            final(pool)@.len() == old(pool)@.len(),
            final(self).inv(*final(pool)),
            match r {
                Ok(()) => {
                    &&& old(pool).live_count() < old(pool)@.len()
                    &&& final(pool).live_count() == old(pool).live_count() + 1
                    &&& final(self).spec_len() == old(self).spec_len() + 1
                    &&& final(self).indices().len() == old(self).indices().len() + 1
                    &&& final(self).indices() == old(self).indices().push(
                        final(self).indices().last(),
                    )
                    &&& old(pool)@[final(self).indices().last() as int] is None
                    &&& final(self).view_in(*final(pool)) == old(self).view_in(*old(pool)).push(
                        element,
                    )
                    &&& Self::same_outside(
                        old(pool)@,
                        final(pool)@,
                        old(self).indices(),
                        seq![final(self).indices().last()],
                    )
                },
                Err(e) => {
                    &&& e == Error::OutOfMemory
                    &&& old(pool).live_count() == old(pool)@.len()
                    &&& *final(self) == *old(self)
                    &&& *final(pool) == *old(pool)
                },
            },
    {
        let node = Node { inner: element, prev: self.tail, next: None };
        let i = match pool.insert(node) {
            Ok(i) => i,
            Err(_) => {
                return Err(Error::OutOfMemory);
            },
        };
        let ghost old_ord = self.order@;
        match self.tail {
            Some(t) => {
                proof {
                    assert(Self::link_ok(old(pool)@, old_ord, old_ord.len() - 1));
                    if old_ord.contains(i) {
                        old(self).lemma_member_occupied(*old(pool), i);
                    }
                }
                let tail_node = pool.get_mut(t);
                tail_node.next = Some(i);
            },
            None => {
                self.head = Some(i);
            },
        }
        proof {
            old(self).lemma_len_le_live(*old(pool));
            crate::array_pool::lemma_capacity_bounded(old(pool));
        }
        self.tail = Some(i);
        self.len = self.len + 1;
        self.order = Ghost(old_ord.push(i));
        proof {
            let ord = self.order@;
            let slots = pool@;
            assert(old(pool)@[i as int] is None);
            if old_ord.len() > 0 {
                assert(Self::link_ok(old(pool)@, old_ord, old_ord.len() - 1));
                assert(old_ord[old_ord.len() - 1] != i);
                assert(old_ord.contains(old_ord[old_ord.len() - 1]));
            }
            assert forall|k: int| 0 <= k < ord.len() implies #[trigger] Self::link_ok(
                slots,
                ord,
                k,
            ) by {
                if k < ord.len() - 2 {
                    assert(Self::link_ok(old(pool)@, old_ord, k));
                    assert(old_ord[k] != old_ord[old_ord.len() - 1]);
                    assert(slots[ord[k] as int] == old(pool)@[ord[k] as int]);
                } else if k == ord.len() - 2 {
                    assert(Self::link_ok(old(pool)@, old_ord, k));
                } else {
                    assert(slots[i as int]->0 == Node {
                        inner: element,
                        prev: old(self).tail,
                        next: None::<usize>,
                    });
                }
            }
            assert forall|k1: int, k2: int| 0 <= k1 < k2 < ord.len() implies #[trigger] ord[k1]
                != #[trigger] ord[k2] by {
                if k2 == ord.len() - 1 {
                    if 0 <= k1 < old_ord.len() {
                        assert(Self::link_ok(old(pool)@, old_ord, k1));
                    }
                }
            }
            assert forall|k: int| 0 <= k < ord.len() implies self.view_in(*pool)[k] == old(
                self,
            ).view_in(*old(pool)).push(element)[k] by {
                if k < ord.len() - 1 {
                    assert(Self::link_ok(old(pool)@, old_ord, k));
                    assert(old_ord[k] != i);
                    assert(slots[ord[k] as int]->0.inner == old(pool)@[old_ord[k] as int]->0.inner);
                }
            }
            assert(self.view_in(*pool) =~= old(self).view_in(*old(pool)).push(element));
            assert forall|j: int|
                0 <= j < old(pool)@.len() && !old(self).indices().contains(j as usize) && !seq![
                    i,
                ].contains(j as usize) implies pool@[j] == old(pool)@[j] by {
                assert(seq![i][0] == i);
                if old_ord.len() > 0 {
                    let t = old_ord[old_ord.len() - 1];
                    assert(old_ord.contains(t));
                }
            }
            assert(Self::same_outside(old(pool)@, pool@, old(self).indices(), seq![i]));
        }
        Ok(())
    }
    /// Walks the chain from the head to the node at position `k` and returns
    /// its slot index.
    fn locate(&self, pool: &StaticListPool<T>, k: usize) -> (i: usize)
        requires
            self.inv(*pool),
            k < self.spec_len(),
        ensures
            i == self.indices()[k as int],
    {
        proof {
            assert(Self::link_ok(pool@, self.order@, 0));
        }
        let mut i: usize = self.head.unwrap();
        let mut step: usize = 0;
        while step < k
            invariant
                self.inv(*pool),
                k < self.spec_len(),
                step <= k,
                i == self.indices()[step as int],
            decreases k - step,
        {
            proof {
                assert(Self::link_ok(pool@, self.order@, step as int));
            }
            let node = pool.get(i);
            i = node.next.unwrap();
            step = step + 1;
        }
        i
    }

    /// Reads the value at position `k`, front to back.
    pub fn get<'a>(&self, pool: &'a StaticListPool<T>, k: usize) -> (r: &'a T)
        requires
            self.inv(*pool),
            k < self.spec_len(),
        ensures
            *r == self.view_in(*pool)[k as int],
    {
        let i = self.locate(pool, k);
        proof {
            assert(Self::link_ok(pool@, self.order@, k as int));
        }
        pool.get(i).inner()
    }

    /// Reads the front value, if any.
    pub fn front<'a>(&self, pool: &'a StaticListPool<T>) -> (r: Option<&'a T>)
        requires
            self.inv(*pool),
        ensures
            match r {
                Some(v) => self.spec_len() > 0 && *v == self.view_in(*pool)[0],
                None => self.spec_len() == 0,
            },
    {
        match self.head {
            Some(h) => {
                proof {
                    assert(Self::link_ok(pool@, self.order@, 0));
                }
                Some(pool.get(h).inner())
            },
            None => None,
        }
    }

    /// Reads the back value, if any.
    pub fn back<'a>(&self, pool: &'a StaticListPool<T>) -> (r: Option<&'a T>)
        requires
            self.inv(*pool),
        ensures
            match r {
                Some(v) => self.spec_len() > 0 && *v == self.view_in(*pool)[self.spec_len() - 1],
                None => self.spec_len() == 0,
            },
    {
        match self.tail {
            Some(t) => {
                proof {
                    assert(Self::link_ok(pool@, self.order@, self.order@.len() - 1));
                }
                Some(pool.get(t).inner())
            },
            None => None,
        }
    }

    /// Unlinks the node at position `k`, re-links its neighbours, releases
    /// the slot back to the pool and hands the value to the caller.
    #[verifier::rlimit(60)]
    pub fn take_at(&mut self, pool: &mut StaticListPool<T>, k: usize) -> (r: T)
        requires
            old(self).inv(*old(pool)),
            old(pool).wf(),
            k < old(self).spec_len(),
        ensures
            final(pool).wf(),
            final(pool)@.len() == old(pool)@.len(),
            final(self).inv(*final(pool)),
            r == old(self).view_in(*old(pool))[k as int],
            final(self).spec_len() == old(self).spec_len() - 1,
            final(self).indices() == old(self).indices().remove(k as int),
            final(self).view_in(*final(pool)) == old(self).view_in(*old(pool)).remove(k as int),
            final(pool)@[old(self).indices()[k as int] as int] is None,
            final(pool).live_count() == old(pool).live_count() - 1,
            Self::same_outside(old(pool)@, final(pool)@, old(self).indices(), seq![]),
    {
        let ghost old_ord = self.order@;
        let i = self.locate(pool, k);
        proof {
            assert(Self::link_ok(old(pool)@, old_ord, k as int));
            if k > 0 {
                assert(Self::link_ok(old(pool)@, old_ord, k as int - 1));
            }
            if (k as int) < old_ord.len() - 1 {
                assert(Self::link_ok(old(pool)@, old_ord, k as int + 1));
            }
        }
        let node = pool.take(i);
        match node.prev {
            Some(p) => {
                let prev_node = pool.get_mut(p);
                prev_node.next = node.next;
            },
            None => {
                self.head = node.next;
            },
        }
        match node.next {
            Some(nx) => {
                let next_node = pool.get_mut(nx);
                next_node.prev = node.prev;
            },
            None => {
                self.tail = node.prev;
            },
        }
        self.len = self.len - 1;
        self.order = Ghost(old_ord.remove(k as int));
        proof {
            let ord = self.order@;
            let slots = pool@;
            assert forall|m: int| 0 <= m < ord.len() implies #[trigger] Self::link_ok(
                slots,
                ord,
                m,
            ) by {
                if m < k {
                    assert(Self::link_ok(old(pool)@, old_ord, m));
                    if m > 0 {
                        assert(Self::link_ok(old(pool)@, old_ord, m - 1));
                    }
                } else {
                    assert(Self::link_ok(old(pool)@, old_ord, m + 1));
                    if m + 2 <= old_ord.len() - 1 {
                        assert(Self::link_ok(old(pool)@, old_ord, m + 2));
                    }
                }
            }
            assert forall|m: int| 0 <= m < ord.len() implies self.view_in(*pool)[m] == old(
                self,
            ).view_in(*old(pool)).remove(k as int)[m] by {
                if m < k {
                    assert(Self::link_ok(old(pool)@, old_ord, m));
                } else {
                    assert(Self::link_ok(old(pool)@, old_ord, m + 1));
                }
            }
            assert(self.view_in(*pool) =~= old(self).view_in(*old(pool)).remove(k as int));
            assert forall|j: int|
                0 <= j < old(pool)@.len() && !old(self).indices().contains(j as usize)
                    && !Seq::<usize>::empty().contains(j as usize) implies pool@[j] == old(
                pool,
            )@[j] by {
                assert(old_ord.contains(old_ord[k as int]));
                if k > 0 {
                    assert(old_ord.contains(old_ord[k as int - 1]));
                }
                if (k as int) < old_ord.len() - 1 {
                    assert(old_ord.contains(old_ord[k as int + 1]));
                }
            }
        }
        node.inner
    }

    /// Detaches the front node, if any, releasing its slot and returning its
    /// value.
    pub fn pop_front(&mut self, pool: &mut StaticListPool<T>) -> (r: Option<T>)
        requires
            old(self).inv(*old(pool)),
            old(pool).wf(),
        ensures
            final(pool).wf(),
            final(pool)@.len() == old(pool)@.len(),
            final(self).inv(*final(pool)),
            match r {
                Some(v) => {
                    &&& old(self).spec_len() > 0
                    &&& v == old(self).view_in(*old(pool))[0]
                    &&& final(self).spec_len() == old(self).spec_len() - 1
                    &&& final(self).indices() == old(self).indices().remove(0)
                    &&& final(self).view_in(*final(pool)) == old(self).view_in(
                        *old(pool),
                    ).remove(0)
                    &&& final(pool)@[old(self).indices()[0] as int] is None
                    &&& final(pool).live_count() == old(pool).live_count() - 1
                    &&& Self::same_outside(old(pool)@, final(pool)@, old(self).indices(), seq![])
                },
                None => {
                    &&& old(self).spec_len() == 0
                    &&& *final(self) == *old(self)
                    &&& *final(pool) == *old(pool)
                },
            },
    {
        if self.len == 0 {
            return None;
        }
        Some(self.take_at(pool, 0))
    }

    /// Mutable access to the value at position `k`. The structure of the
    /// list, and every other slot of the pool, stay as they are.
    pub fn get_mut<'a>(&self, pool: &'a mut StaticListPool<T>, k: usize) -> (r: &'a mut T)
        requires
            self.inv(*old(pool)),
            old(pool).wf(),
            k < self.spec_len(),
        ensures
            final(pool).wf(),
            final(pool)@.len() == old(pool)@.len(),
            *r == self.view_in(*old(pool))[k as int],
            self.inv(*final(pool)),
            self.view_in(*final(pool)) =~= self.view_in(*old(pool)).update(k as int, *final(r)),
            final(pool).live_count() == old(pool).live_count(),
            Self::same_outside(old(pool)@, final(pool)@, self.indices(), seq![]),
    {
        let i = self.locate(pool, k);
        proof {
            let ord = self.order@;
            assert(Self::link_ok(old(pool)@, ord, k as int));
            assert(ord.contains(ord[k as int]));
            assert forall|m: int| #![trigger ord[m]] 0 <= m < ord.len() implies Self::link_ok(
                old(pool)@,
                ord,
                m,
            ) by {
                assert(Self::link_ok(old(pool)@, ord, m));
            }
        }
        let node = pool.get_mut(i);
        node.inner_mut()
    }
}

/// A position within a list, used to inspect and detach interior nodes.
/// It stands at the front after [`LinkedList::cursor_front_mut`] and moves
/// towards the back.
pub struct Cursor {
    pos: usize,
}

impl Cursor {
    /// The position the cursor stands at, front to back.
    pub closed spec fn position(self) -> nat {
        self.pos as nat
    }

    /// Reads the value the cursor stands at, or `None` past the back.
    pub fn inner<'a, T>(&self, list: &LinkedList<T>, pool: &'a StaticListPool<T>) -> (r: Option<
        &'a T,
    >)
        requires
            list.inv(*pool),
        ensures
            match r {
                Some(v) => self.position() < list.spec_len() && *v == list.view_in(
                    *pool,
                )[self.position() as int],
                None => self.position() >= list.spec_len(),
            },
    {
        if self.pos < list.len() {
            Some(list.get(pool, self.pos))
        } else {
            None
        }
    }

    /// Mutable access to the value the cursor stands at, or `None` past the
    /// back. Only that value may change.
    pub fn inner_mut<'a, T>(
        &self,
        list: &LinkedList<T>,
        pool: &'a mut StaticListPool<T>,
    ) -> (r: Option<&'a mut T>)
        requires
            list.inv(*old(pool)),
            old(pool).wf(),
        ensures
            final(pool).wf(),
            final(pool)@.len() == old(pool)@.len(),
            list.inv(*final(pool)),
            match r {
                Some(v) => {
                    &&& self.position() < list.spec_len()
                    &&& *v == list.view_in(*old(pool))[self.position() as int]
                    &&& list.view_in(*final(pool)) =~= list.view_in(*old(pool)).update(
                        self.position() as int,
                        *final(v),
                    )
                    &&& LinkedList::<T>::same_outside(
                        old(pool)@,
                        final(pool)@,
                        list.indices(),
                        seq![],
                    )
                },
                None => {
                    &&& self.position() >= list.spec_len()
                    &&& *final(pool) == *old(pool)
                },
            },
    {
        if self.pos < list.len() {
            Some(list.get_mut(pool, self.pos))
        } else {
            None
        }
    }

    /// Advances the cursor by one position, staying put past the back.
    pub fn move_next<T>(&mut self, list: &LinkedList<T>)
        ensures
            final(self).position() == if old(self).position() < list.spec_len() {
                old(self).position() + 1
            } else {
                old(self).position()
            },
    {
        if self.pos < list.len() {
            self.pos = self.pos + 1;
        }
    }

    /// Detaches the node the cursor stands at and hands its value out; the
    /// cursor then stands at the detached node's successor. Returns `None`
    /// past the back.
    pub fn take<T>(&mut self, list: &mut LinkedList<T>, pool: &mut StaticListPool<T>) -> (r:
        Option<T>)
        requires
            old(list).inv(*old(pool)),
            old(pool).wf(),
        ensures
            final(self).position() == old(self).position(),
            final(pool).wf(),
            final(pool)@.len() == old(pool)@.len(),
            final(list).inv(*final(pool)),
            match r {
                Some(v) => {
                    &&& old(self).position() < old(list).spec_len()
                    &&& v == old(list).view_in(*old(pool))[old(self).position() as int]
                    &&& final(list).spec_len() == old(list).spec_len() - 1
                    &&& final(list).indices() == old(list).indices().remove(
                        old(self).position() as int,
                    )
                    &&& final(list).view_in(*final(pool)) == old(list).view_in(
                        *old(pool),
                    ).remove(old(self).position() as int)
                    &&& final(pool).live_count() == old(pool).live_count() - 1
                    &&& LinkedList::<T>::same_outside(
                        old(pool)@,
                        final(pool)@,
                        old(list).indices(),
                        seq![],
                    )
                },
                None => {
                    &&& old(self).position() >= old(list).spec_len()
                    &&& *final(list) == *old(list)
                    &&& *final(pool) == *old(pool)
                },
            },
    {
        if self.pos < list.len() {
            Some(list.take_at(pool, self.pos))
        } else {
            None
        }
    }
}

impl<T> LinkedList<T> {
    /// Yields a cursor standing at the front of the list.
    pub fn cursor_front_mut(&mut self) -> (r: Cursor)
        ensures
            r.position() == 0,
            *final(self) == *old(self),
    {
        Cursor { pos: 0 }
    }

    /// Allocates a node for `element` and links it immediately before the
    /// first node whose value `element` precedes under `O`, or at the back if
    /// there is none. Fails with `OutOfMemory`, changing nothing, exactly
    /// when the pool is full.
    #[verifier::rlimit(100)]
    pub fn insert_when<O: InsertOrder<T>>(
        &mut self,
        pool: &mut StaticListPool<T>,
        element: T,
    ) -> (r: Result<(), Error>)
        requires
            old(self).inv(*old(pool)),
            old(pool).wf(),
        ensures
            final(pool).wf(),
            final(pool)@.len() == old(pool)@.len(),
            final(self).inv(*final(pool)),
            match r {
                Ok(()) => {
                    &&& old(pool).live_count() < old(pool)@.len()
                    &&& final(pool).live_count() == old(pool).live_count() + 1
                    &&& final(self).spec_len() == old(self).spec_len() + 1
                    &&& exists|q: int|
                        {
                            &&& 0 <= q <= old(self).spec_len()
                            &&& #[trigger] final(self).view_in(*final(pool)) == old(
                                self,
                            ).view_in(*old(pool)).insert(q, element)
                            &&& forall|m: int|
                                0 <= m < q ==> !O::precedes(
                                    element,
                                    #[trigger] old(self).view_in(*old(pool))[m],
                                )
                            &&& q < old(self).spec_len() ==> O::precedes(
                                element,
                                old(self).view_in(*old(pool))[q],
                            )
                            &&& exists|i: usize|
                                {
                                    &&& old(pool)@[i as int] is None
                                    &&& #[trigger] final(self).indices() == old(
                                        self,
                                    ).indices().insert(q, i)
                                    &&& Self::same_outside(
                                        old(pool)@,
                                        final(pool)@,
                                        old(self).indices(),
                                        seq![i],
                                    )
                                }
                        }
                },
                Err(e) => {
                    &&& e == Error::OutOfMemory
                    &&& old(pool).live_count() == old(pool)@.len()
                    &&& *final(self) == *old(self)
                    &&& *final(pool) == *old(pool)
                },
            },
    {
        let ghost old_ord = self.order@;
        let n = self.len;
        let mut q: usize = 0;
        while q < n && !O::check(&element, self.get(pool, q))
            invariant
                self.inv(*pool),
                *pool == *old(pool),
                *self == *old(self),
                n == self.spec_len(),
                q <= n,
                forall|m: int|
                    0 <= m < q ==> !O::precedes(element, #[trigger] self.view_in(*pool)[m]),
            decreases n - q,
        {
            q = q + 1;
        }
        let prev_idx: Option<usize> = if q > 0 {
            Some(self.locate(pool, q - 1))
        } else {
            None
        };
        let next_idx: Option<usize> = if q < n {
            Some(self.locate(pool, q))
        } else {
            None
        };
        let node = Node { inner: element, prev: prev_idx, next: next_idx };
        let i = match pool.insert(node) {
            Ok(i) => i,
            Err(_) => {
                return Err(Error::OutOfMemory);
            },
        };
        proof {
            old(self).lemma_len_le_live(*old(pool));
            crate::array_pool::lemma_capacity_bounded(old(pool));
            if q > 0 {
                assert(Self::link_ok(old(pool)@, old_ord, q - 1));
                assert(old_ord.contains(old_ord[q - 1]));
            }
            if q < n {
                assert(Self::link_ok(old(pool)@, old_ord, q as int));
                assert(old_ord.contains(old_ord[q as int]));
            }
        }
        match prev_idx {
            Some(p) => {
                let prev_node = pool.get_mut(p);
                prev_node.next = Some(i);
            },
            None => {
                self.head = Some(i);
            },
        }
        match next_idx {
            Some(nx) => {
                let next_node = pool.get_mut(nx);
                next_node.prev = Some(i);
            },
            None => {
                self.tail = Some(i);
            },
        }
        self.len = self.len + 1;
        self.order = Ghost(old_ord.insert(q as int, i));
        proof {
            let ord = self.order@;
            let slots = pool@;
            assert forall|m: int| 0 <= m < ord.len() implies #[trigger] Self::link_ok(
                slots,
                ord,
                m,
            ) by {
                if m < q as int - 1 {
                    assert(Self::link_ok(old(pool)@, old_ord, m));
                    if m > 0 {
                        assert(Self::link_ok(old(pool)@, old_ord, m - 1));
                    }
                } else if m == q as int - 1 {
                    assert(Self::link_ok(old(pool)@, old_ord, m));
                } else if m == q as int {
                    assert(ord[m] == i);
                } else if m == q as int + 1 {
                    assert(Self::link_ok(old(pool)@, old_ord, m - 1));
                } else {
                    assert(Self::link_ok(old(pool)@, old_ord, m - 1));
                    if m - 2 >= 0 {
                        assert(Self::link_ok(old(pool)@, old_ord, m - 2));
                    }
                }
            }
            assert forall|k1: int, k2: int| 0 <= k1 < k2 < ord.len() implies #[trigger] ord[k1]
                != #[trigger] ord[k2] by {
                if k1 != q && k2 != q {
                    let a1 = if k1 < q { k1 } else { k1 - 1 };
                    let a2 = if k2 < q { k2 } else { k2 - 1 };
                    assert(old_ord[a1] == ord[k1] && old_ord[a2] == ord[k2]);
                } else {
                    let a = if k1 == q { k2 - 1 } else { k1 };
                    assert(Self::link_ok(old(pool)@, old_ord, a));
                }
            }
            assert forall|m: int| 0 <= m < ord.len() implies self.view_in(*pool)[m] == old(
                self,
            ).view_in(*old(pool)).insert(q as int, element)[m] by {
                if m < q as int {
                    assert(Self::link_ok(old(pool)@, old_ord, m));
                    assert(old_ord[m] != i);
                } else if m > q as int {
                    assert(Self::link_ok(old(pool)@, old_ord, m - 1));
                    assert(old_ord[m - 1] != i);
                }
            }
            assert(self.view_in(*pool) =~= old(self).view_in(*old(pool)).insert(
                q as int,
                element,
            ));
            assert forall|j: int|
                0 <= j < old(pool)@.len() && !old(self).indices().contains(j as usize) && !seq![
                    i,
                ].contains(j as usize) implies pool@[j] == old(pool)@[j] by {
                assert(seq![i][0] == i);
            }
            assert(Self::same_outside(old(pool)@, pool@, old(self).indices(), seq![i]));
            assert(self.indices() == old(self).indices().insert(q as int, i));
        }
        Ok(())
    }
}

/// The list is sorted under `O`: no later value precedes an earlier one.
pub open spec fn sorted_by<T, O: InsertOrder<T>>(s: Seq<T>) -> bool {
    forall|k1: int, k2: int| 0 <= k1 < k2 < s.len() ==> !O::precedes(#[trigger] s[k2], #[trigger] s[k1])
}

/// Sorted insertion law: inserting `e` immediately before the first value it
/// precedes keeps a sorted list sorted. The ordering must be coherent: what
/// precedes a value also stays unpreceded by anything that value does not
/// precede.
pub proof fn lemma_insert_when_sorted<T, O: InsertOrder<T>>(s: Seq<T>, e: T, q: int)
    requires
        0 <= q <= s.len(),
        sorted_by::<T, O>(s),
        forall|m: int| 0 <= m < q ==> !O::precedes(e, #[trigger] s[m]),
        q < s.len() ==> O::precedes(e, s[q]),
        forall|a: T| !#[trigger] O::precedes(a, a),
        forall|a: T, b: T, c: T|
            #[trigger] O::precedes(a, b) && !#[trigger] O::precedes(c, b) ==> !O::precedes(c, a),
    ensures
        sorted_by::<T, O>(s.insert(q, e)),
{
    let t = s.insert(q, e);
    assert forall|k1: int, k2: int| 0 <= k1 < k2 < t.len() implies !O::precedes(
        #[trigger] t[k2],
        #[trigger] t[k1],
    ) by {
        if k1 == q && k2 > q {
            assert(t[k2] == s[k2 - 1]);
            assert(q < s.len());
            assert(O::precedes(e, s[q]));
            if k2 - 1 > q {
                assert(!O::precedes(s[k2 - 1], s[q]));
            } else {
                assert(!O::precedes(s[q], s[q]));
            }
        } else if k2 == q && k1 < q {
            assert(t[k1] == s[k1]);
        } else if k1 < q && k2 > q {
            assert(t[k1] == s[k1] && t[k2] == s[k2 - 1]);
        } else if k2 < q {
            assert(t[k1] == s[k1] && t[k2] == s[k2]);
        } else if k1 > q {
            assert(t[k1] == s[k1 - 1] && t[k2] == s[k2 - 1]);
        }
    }
}

} // verus!
