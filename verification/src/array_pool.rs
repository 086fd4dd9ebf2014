//! Fixed-capacity slot arena: the only allocation primitive of the kernel.
//!
//! A pool is a fixed array of optional slots. Insertion scans for the first
//! free slot and hands back its index; exhaustion fails with
//! [`Error::OutOfMemory`](crate::pool_allocator::Error), it never blocks and
//! never grows. Taking a value out releases its slot back to the pool.

use vstd::prelude::*;
use crate::pool_allocator::Error;

verus! {

/// Number of occupied slots of a slot sequence.
pub open spec fn live_slots<T>(s: Seq<Option<T>>) -> nat
    decreases s.len(),
{
    if s.len() == 0 {
        0
    } else {
        live_slots(s.drop_last()) + if s.last() is Some {
            1nat
        } else {
            0nat
        }
    }
}

/// Occupied slots are never more numerous than the slots themselves.
pub broadcast proof fn lemma_live_slots_le_len<T>(s: Seq<Option<T>>)
    ensures
        #[trigger] live_slots(s) <= s.len(),
    decreases s.len(),
{
    if s.len() > 0 {
        lemma_live_slots_le_len(s.drop_last());
    }
}

/// Updating one slot changes the occupied count by the difference of the
/// occupancy of the new and the old value.
pub broadcast proof fn lemma_live_slots_update<T>(s: Seq<Option<T>>, i: int, v: Option<T>)
    requires
        0 <= i < s.len(),
    ensures
        #[trigger] live_slots(s.update(i, v)) == live_slots(s)
            - (if s[i] is Some { 1int } else { 0int })
            + (if v is Some { 1int } else { 0int }),
    decreases s.len(),
{
    let t = s.update(i, v);
    if i == s.len() - 1 {
        assert(t.drop_last() =~= s.drop_last());
    } else {
        assert(t.drop_last() =~= s.drop_last().update(i, v));
        lemma_live_slots_update(s.drop_last(), i, v);
    }
}

/// Appending a slot adds its occupancy to the count.
pub broadcast proof fn lemma_live_slots_push<T>(s: Seq<Option<T>>, v: Option<T>)
    ensures
        #[trigger] live_slots(s.push(v)) == live_slots(s)
            + (if v is Some { 1int } else { 0int }),
{
    assert(s.push(v).drop_last() =~= s);
    assert(s.push(v).last() == v);
}

/// A sequence of occupied slots is counted in full.
pub proof fn lemma_live_slots_full<T>(s: Seq<Option<T>>)
    requires
        forall|j: int| 0 <= j < s.len() ==> (#[trigger] s[j]) is Some,
    ensures
        live_slots(s) == s.len(),
    decreases s.len(),
{
    if s.len() > 0 {
        lemma_live_slots_full(s.drop_last());
    }
}

/// A free slot keeps the occupied count below the length.
pub proof fn lemma_live_slots_not_full<T>(s: Seq<Option<T>>, i: int)
    requires
        0 <= i < s.len(),
        s[i] is None,
    ensures
        live_slots(s) < s.len(),
    decreases s.len(),
{
    if i == s.len() - 1 {
        lemma_live_slots_le_len(s.drop_last());
    } else {
        lemma_live_slots_not_full(s.drop_last(), i);
    }
}

/// An occupied slot keeps the occupied count positive.
pub proof fn lemma_live_slots_pos<T>(s: Seq<Option<T>>, i: int)
    requires
        0 <= i < s.len(),
        s[i] is Some,
    ensures
        live_slots(s) >= 1,
    decreases s.len(),
{
    if i < s.len() - 1 {
        lemma_live_slots_pos(s.drop_last(), i);
    }
}

/// A pool's slot count always fits the machine's word: it is the length of a
/// real vector.
pub proof fn lemma_capacity_bounded<T>(p: &ArrayPool<T>)
    ensures
        p@.len() <= usize::MAX,
{
    vstd::std_specs::vec::axiom_spec_len(&p.slots);
}

/// Fixed-capacity arena of `Option<T>` slots.
pub struct ArrayPool<T> {
    slots: Vec<Option<T>>,
    live: usize,
}

impl<T> View for ArrayPool<T> {
    type V = Seq<Option<T>>;

    closed spec fn view(&self) -> Seq<Option<T>> {
        self.slots@
    }
}

impl<T> ArrayPool<T> {
    /// Number of occupied slots, as a specification value.
    pub open spec fn live_count(self) -> nat {
        live_slots(self@)
    }

    /// The pool's cached occupancy counter agrees with its slots.
    pub closed spec fn wf(self) -> bool {
        self.live == live_slots(self.slots@)
    }

    /// Creates a pool of `capacity` free slots.
    pub fn new(capacity: usize) -> (r: ArrayPool<T>)
        ensures
            r.wf(),
            r@.len() == capacity,
            r.live_count() == 0,
            forall|j: int| 0 <= j < capacity ==> (#[trigger] r@[j]) is None,
    {
        let mut slots: Vec<Option<T>> = Vec::new();
        let mut i: usize = 0;
        while i < capacity
            invariant
                i <= capacity,
                slots@.len() == i,
                forall|j: int| 0 <= j < i ==> (#[trigger] slots@[j]) is None,
                live_slots(slots@) == 0,
            decreases capacity - i,
        {
            proof {
                lemma_live_slots_push(slots@, None::<T>);
            }
            slots.push(None);
            i += 1;
        }
        ArrayPool { slots, live: 0 }
    }

    /// Capacity of the pool: the slot count is fixed at construction.
    pub fn capacity(&self) -> (r: usize)
        ensures
            r == self@.len(),
    {
        self.slots.len()
    }

    /// Number of occupied slots.
    pub fn live(&self) -> (r: usize)
        requires
            self.wf(),
        ensures
            r == self.live_count(),
    {
        self.live
    }

    /// Stores `element` in the first free slot and returns the slot's index.
    /// Fails with `OutOfMemory`, and leaves the pool unchanged, exactly when
    /// every slot is occupied.
    pub fn insert(&mut self, element: T) -> (r: Result<usize, Error>)
        requires
            old(self).wf(),
        ensures
            final(self).wf(),
            final(self)@.len() == old(self)@.len(),
            match r {
                Ok(i) => {
                    &&& old(self).live_count() < old(self)@.len()
                    &&& i < old(self)@.len()
                    &&& old(self)@[i as int] is None
                    &&& forall|j: int| 0 <= j < i ==> (#[trigger] old(self)@[j]) is Some
                    &&& final(self)@ == old(self)@.update(i as int, Some(element))
                    &&& final(self).live_count() == old(self).live_count() + 1
                },
                Err(e) => {
                    &&& e == Error::OutOfMemory
                    &&& old(self).live_count() == old(self)@.len()
                    &&& *final(self) == *old(self)
                },
            },
    {
        let n = self.slots.len();
        let mut i: usize = 0;
        while i < n && self.slots[i].is_some()
            invariant
                i <= n,
                n == self.slots@.len(),
                forall|j: int| 0 <= j < i ==> (#[trigger] self.slots@[j]) is Some,
                *self == *old(self),
            decreases n - i,
        {
            i += 1;
        }
        if i == n {
            proof {
                lemma_live_slots_full(self.slots@);
            }
            return Err(Error::OutOfMemory);
        }
        proof {
            lemma_live_slots_not_full(self.slots@, i as int);
            lemma_live_slots_update(self.slots@, i as int, Some(element));
        }
        self.slots[i] = Some(element);
        self.live = self.live + 1;
        Ok(i)
    }

    /// Reads the value stored in slot `i`.
    pub fn get(&self, i: usize) -> (r: &T)
        requires
            i < self@.len(),
            self@[i as int] is Some,
        ensures
            *r == self@[i as int]->0,
    {
        self.slots[i].as_ref().unwrap()
    }

    /// Mutable access to the value stored in slot `i`. The slot stays
    /// occupied; only its value may change.
    pub fn get_mut(&mut self, i: usize) -> (r: &mut T)
        requires
            old(self).wf(),
            i < old(self)@.len(),
            old(self)@[i as int] is Some,
        ensures
            final(self).wf(),
            *r == old(self)@[i as int]->0,
            final(self)@ == old(self)@.update(i as int, Some(*final(r))),
            final(self).live_count() == old(self).live_count(),
    {
        proof {
            broadcast use lemma_live_slots_update;

        }
        let slot = &mut self.slots[i];
        slot.as_mut().unwrap()
    }

    /// Takes the value out of slot `i`, releasing the slot back to the pool.
    pub fn take(&mut self, i: usize) -> (r: T)
        requires
            old(self).wf(),
            i < old(self)@.len(),
            old(self)@[i as int] is Some,
        ensures
            final(self).wf(),
            r == old(self)@[i as int]->0,
            final(self)@ == old(self)@.update(i as int, None),
            final(self).live_count() == old(self).live_count() - 1,
    {
        proof {
            lemma_live_slots_pos(self.slots@, i as int);
            lemma_live_slots_update(self.slots@, i as int, None::<T>);
        }
        let v = self.slots[i].take();
        self.live = self.live - 1;
        v.unwrap()
    }
}

} // verus!
