//! A bare spinning-style boolean lock without any kernel involvement: the
//! caller that fails simply does not get the data. Releasing is the holder's
//! duty.

use vstd::prelude::*;

verus! {

/// A boolean lock around a value of type `T`.
pub struct SimpleMutex<T> {
    /// Whether the lock is held.
    pub lock: bool,
    /// The protected value.
    pub inner: T,
}

impl<T> SimpleMutex<T> {
    /// Wraps a value into an unlocked mutex.
    pub fn new(element: T) -> (r: SimpleMutex<T>)
        ensures
            r.lock == false,
            r.inner == element,
    {
        SimpleMutex { lock: false, inner: element }
    }

    /// Takes the lock and hands out the value exactly when the lock was
    /// free; otherwise changes nothing.
    pub fn lock(&mut self) -> (r: Option<&mut T>)
        ensures
            old(self).lock == false ==> (r matches Some(v) && *v == old(self).inner
                && *final(self) == (SimpleMutex { lock: true, inner: *final(v) })),
            old(self).lock == true ==> (r is None && *final(self) == *old(self)),
    {
        if !self.lock {
            self.lock = true;
            Some(&mut self.inner)
        } else {
            None
        }
    }

    /// Releases the lock.
    pub fn release(&mut self)
        ensures
            *final(self) == (SimpleMutex { lock: false, ..*old(self) }),
    {
        self.lock = false;
    }
}

} // verus!
