//! A cell that holds exclusive access to a value somewhere else, or nothing.

use vstd::prelude::*;

verus! {

/// A cell that holds a mutable reference, which can be taken out of it and
/// replaced.
pub struct AtomicCell<'data, T> {
    value: Option<&'data mut T>,
}

impl<'data, T> AtomicCell<'data, T> {
    /// What the reference in the cell points to, if the cell holds one.
    pub closed spec fn current(&self) -> Option<T> {
        match self.value {
            Some(v) => Some(*v),
            None => None,
        }
    }

    /// A cell that holds `value`.
    pub fn from_mut(value: &'data mut T) -> (r: Self)
        ensures
            r.current() == Some(*old(value)),
    {
        Self { value: Some(value) }
    }

    /// Whether the cell holds nothing.
    pub fn is_empty(&self) -> (r: bool)
        ensures
            r == (self.current() is None),
    {
        self.value.is_none()
    }

    /// Takes the reference out of the cell, which holds nothing after that.
    pub fn take(&mut self) -> (r: Option<&'data mut T>)
        ensures
            final(self).current() is None,
            match r {
                Some(v) => old(self).current() == Some(*v),
                None => old(self).current() is None,
            },
    {
        self.value.take()
    }

    /// The reference in the cell, if it holds one.
    pub fn into_inner(self) -> (r: Option<&'data mut T>)
        ensures
            match r {
                Some(v) => self.current() == Some(*v),
                None => self.current() is None,
            },
    {
        self.value
    }
}

} // verus!
