//! A cell that one holder at a time has exclusive access to.

use vstd::prelude::*;

verus! {

/// A lightweight primitive that only hands out exclusive access to the inner
/// value: a mutex that gives out an option instead of locking.
pub struct MutCell<T> {
    taken: bool,
    value: T,
}

/// Exclusive access to the value of a `MutCell`, until it is released.
pub struct MutCellGuard<'cell, T> {
    /// The cell that the guard holds.
    pub inner: &'cell mut MutCell<T>,
}

impl<T> MutCell<T> {
    /// Whether the cell is actively borrowed.
    pub closed spec fn taken(&self) -> bool {
        self.taken
    }

    /// The value in the cell.
    pub closed spec fn value(&self) -> T {
        self.value
    }

    /// A cell with `value` in it, not borrowed.
    pub fn new(value: T) -> (r: Self)
        ensures
            !r.taken(),
            r.value() == value,
    {
        Self { taken: false, value }
    }

    /// The value in the cell, borrowed or not.
    pub fn into_inner(self) -> (r: T)
        ensures
            r == self.value(),
    {
        self.value
    }

    /// Given exclusive access to the `MutCell`, you have exclusive access to
    /// the inner value.
    pub fn get_mut(&mut self) -> (r: &mut T)
        ensures
            *r == old(self).value(),
            final(self).value() == *final(r),
            final(self).taken() == old(self).taken(),
    {
        &mut self.value
    }

    /// Reset the `MutCell` to the default (unborrowed) state.
    pub fn heal(&mut self)
        ensures
            !final(self).taken(),
            final(self).value() == old(self).value(),
    {
        self.taken = false;
    }

    /// Whether the `MutCell` is actively borrowed.
    pub fn is_taken(&self) -> (r: bool)
        ensures
            r == self.taken(),
    {
        self.taken
    }

    /// Try to take exclusive access to the inner value. This fails exactly
    /// when the cell is borrowed. The guard that comes back holds the cell,
    /// borrowed, and the cell is left as the guard leaves it.
    pub fn take(&mut self) -> (r: Option<MutCellGuard<'_, T>>)
        ensures
            old(self).taken() ==> r is None && *final(self) == *old(self),
            !old(self).taken() ==> r is Some,
            r matches Some(guard) ==> guard.inner.taken() && guard.value() == old(self).value()
                && *final(self) == *final(guard.inner),
    {
        if self.taken {
            None
        } else {
            self.taken = true;
            Some(MutCellGuard { inner: self })
        }
    }
}

impl<'cell, T> MutCellGuard<'cell, T> {
    /// The value of the cell that the guard holds.
    pub open spec fn value(&self) -> T {
        self.inner.value()
    }

    /// Shared access to the value of the cell.
    pub fn get(&self) -> (r: &T)
        ensures
            *r == self.value(),
    {
        &self.inner.value
    }

    /// Exclusive access to the value of the cell.
    pub fn get_mut(&mut self) -> (r: &mut T)
        ensures
            *r == old(self).value(),
            final(self).value() == *final(r),
    {
        &mut self.inner.value
    }

    /// Gives the cell back: it is not borrowed any more, and holds the value
    /// that the guard left.
    pub fn release(self)
        ensures
            !final(self.inner).taken(),
            final(self.inner).value() == self.value(),
    {
        self.inner.taken = false;
    }
}

} // verus!
