//! Critical-section lock: on the target, taking it disables interrupts and
//! releasing re-enables them; that interrupt control is the architecture
//! collaborator's duty, performed around these calls. The data handling
//! itself is plain and verified here.

use vstd::prelude::*;

verus! {

/// A value guarded by a critical section.
pub struct CriticalMutex<T> {
    /// The protected value.
    pub inner: T,
}

impl<T> CriticalMutex<T> {
    /// Wraps a value.
    pub fn new(element: T) -> (r: CriticalMutex<T>)
        ensures
            r.inner == element,
    {
        CriticalMutex { inner: element }
    }

    /// Takes the lock: the caller has entered the critical section.
    pub fn lock(&mut self) -> (r: &mut T)
        ensures
            *r == old(self).inner,
            final(self).inner == *final(r),
    {
        &mut self.inner
    }

    /// Releases the lock: the caller leaves the critical section.
    pub fn release(&self) {
    }
}

} // verus!
