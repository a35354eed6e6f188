//! A cell whose value is taken once.

use vstd::prelude::*;

verus! {

/// A cell that hands out exclusive access to its value once, and not again
/// until it is healed.
pub struct TakeCell<T> {
    taken: bool,
    value: T,
}

impl<T> TakeCell<T> {
    /// Whether the value has been taken.
    pub closed spec fn taken(&self) -> bool {
        self.taken
    }

    /// The value in the cell.
    pub closed spec fn value(&self) -> T {
        self.value
    }

    /// A cell with `value` in it, not taken.
    pub fn new(value: T) -> (r: Self)
        ensures
            !r.taken(),
            r.value() == value,
    {
        Self { taken: false, value }
    }

    /// The value in the cell, taken or not.
    pub fn into_inner(self) -> (r: T)
        ensures
            r == self.value(),
    {
        self.value
    }

    /// Whether the value has been taken.
    pub fn is_taken(&self) -> (r: bool)
        ensures
            r == self.taken(),
    {
        self.taken
    }

    /// Takes the value: exclusive access to it, the first time; nothing
    /// after that. Either way the cell is taken from then on.
    pub fn take(&mut self) -> (r: Option<&mut T>)
        ensures
            final(self).taken(),
            old(self).taken() ==> r is None && final(self).value() == old(self).value(),
            !old(self).taken() ==> r is Some,
            r matches Some(v) ==> *v == old(self).value() && final(self).value() == *final(v),
    {
        if self.taken {
            None
        } else {
            self.taken = true;
            Some(&mut self.value)
        }
    }

    /// Exclusive access to the value, which exclusive access to the cell
    /// gives, taken or not.
    pub fn get_mut(&mut self) -> (r: &mut T)
        ensures
            *r == old(self).value(),
            final(self).value() == *final(r),
            final(self).taken() == old(self).taken(),
    {
        &mut self.value
    }

    /// Makes the cell not taken again.
    pub fn heal(&mut self)
        ensures
            !final(self).taken(),
            final(self).value() == old(self).value(),
    {
        self.taken = false;
    }
}

} // verus!
