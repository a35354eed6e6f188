//! A lock around a value.

use vstd::prelude::*;

verus! {

/// A value under a lock that is tried, never waited for.
pub struct Mutex<T> {
    locked: bool,
    v: T,
}

impl<T> Mutex<T> {
    /// Whether the lock is held.
    pub closed spec fn locked(&self) -> bool {
        self.locked
    }

    /// The value under the lock.
    pub closed spec fn value(&self) -> T {
        self.v
    }

    /// A lock around `t`, not held.
    pub fn new(t: T) -> (r: Self)
        ensures
            !r.locked(),
            r.value() == t,
    {
        Self { locked: false, v: t }
    }

    /// Whether the lock is held.
    pub fn is_locked(&self) -> (r: bool)
        ensures
            r == self.locked(),
    {
        self.locked
    }

    /// Takes the lock if it is not held, and says whether it did: one step
    /// of what a thread that spins for the lock does over and over.
    pub fn try_lock(&mut self) -> (r: bool)
        ensures
            r == !old(self).locked(),
            final(self).locked(),
            final(self).value() == old(self).value(),
    {
        if self.locked {
            false
        } else {
            self.locked = true;
            true
        }
    }

    /// Exclusive access to the value, for the holder of the lock.
    pub fn get_mut(&mut self) -> (r: &mut T)
        requires
            old(self).locked(),
        ensures
            *r == old(self).value(),
            final(self).value() == *final(r),
            final(self).locked(),
    {
        &mut self.v
    }

    /// Gives the lock back.
    pub fn unlock(&mut self)
        requires
            old(self).locked(),
        ensures
            !final(self).locked(),
            final(self).value() == old(self).value(),
    {
        self.locked = false;
    }
}

} // verus!
