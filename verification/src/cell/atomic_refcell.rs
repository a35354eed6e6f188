//! A cell whose borrows are counted: many shared, or one exclusive.

use vstd::prelude::*;

verus! {

/// Why a borrow was refused.
#[derive(Debug, Clone, Copy, PartialEq, Eq, Structural)]
pub enum BorrowError {
    /// Attempted to exclusively borrow an `AtomicRefCell` when other shared
    /// references to it existed.
    BorrowedShared,
    /// Attempted to borrow an `AtomicRefCell` while an exclusive reference to
    /// it already existed.
    BorrowedExclusive,
}

/// A cell that enforces "aliasing XOR mutability" by counting its borrows:
/// the number of the shared borrows, or minus one for an exclusive borrow.
/// A borrow that is refused neither panics nor blocks.
#[derive(Debug)]
pub struct AtomicRefCell<T> {
    borrows: isize,
    value: T,
}

/// A shared borrow of an `AtomicRefCell`.
#[derive(Debug)]
pub struct AtomicRef {
    _private: (),
}

/// The exclusive borrow of an `AtomicRefCell`.
#[derive(Debug)]
pub struct AtomicRefMut {
    _private: (),
}

/// The count of the borrows after one more shared borrow, which there is
/// unless the count stands for an exclusive borrow.
pub fn shared_borrow(value: isize) -> (r: Option<isize>)
    requires
        value < isize::MAX,
    ensures
        r == if value >= 0 {
            Some((value + 1) as isize)
        } else {
            None
        },
{
    if value >= 0 {
        Some(value + 1)
    } else {
        None
    }
}

/// The count of the borrows after an exclusive borrow, which there is if
/// there is no borrow, or why there is none.
pub fn exclusive_borrow(value: isize) -> (r: Result<isize, BorrowError>)
    ensures
        r == if value == 0 {
            Ok::<isize, BorrowError>(-1isize)
        } else if value > 0 {
            Err::<isize, BorrowError>(BorrowError::BorrowedShared)
        } else {
            Err::<isize, BorrowError>(BorrowError::BorrowedExclusive)
        },
{
    if value == 0 {
        Ok(-1)
    } else if value > 0 {
        Err(BorrowError::BorrowedShared)
    } else {
        Err(BorrowError::BorrowedExclusive)
    }
}

/// The count of the borrows after a shared borrow was upgraded, which it is
/// if it is the only borrow.
pub fn upgraded_borrow(value: isize) -> (r: Option<isize>)
    ensures
        r == if value == 1 {
            Some(-1isize)
        } else {
            None
        },
{
    if value == 1 {
        Some(-1)
    } else {
        None
    }
}

impl<T> AtomicRefCell<T> {
    /// The count of the borrows: the number of the shared borrows, or minus
    /// one for an exclusive borrow.
    pub closed spec fn borrows(&self) -> int {
        self.borrows as int
    }

    /// The value in the cell.
    pub closed spec fn value(&self) -> T {
        self.value
    }

    /// What holds of every cell: the count is minus one at least.
    pub closed spec fn wf(&self) -> bool {
        self.borrows >= -1
    }

    /// Creates a new `AtomicRefCell` containing `value`, with no borrow.
    pub fn new(value: T) -> (r: Self)
        ensures
            r.wf(),
            r.borrows() == 0,
            r.value() == value,
    {
        AtomicRefCell { borrows: 0, value }
    }

    /// Consumes an `AtomicRefCell` and returns the wrapped value.
    pub fn into_inner(self) -> (r: T)
        ensures
            r == self.value(),
    {
        self.value
    }

    /// Get a mutable reference to the underlying data, which exclusive
    /// access to the cell gives without a look at the borrows.
    pub fn get_mut(&mut self) -> (r: &mut T)
        ensures
            *r == old(self).value(),
            final(self).value() == *final(r),
            final(self).borrows() == old(self).borrows(),
    {
        &mut self.value
    }

    /// Undoes the effects of borrows that were leaked: the cell has no borrow
    /// after this.
    pub fn clear_leaked_borrows(&mut self)
        ensures
            final(self).wf(),
            final(self).borrows() == 0,
            final(self).value() == old(self).value(),
    {
        self.borrows = 0;
    }

    /// The count of the borrows.
    pub fn active_borrows(&self) -> (r: isize)
        ensures
            r == self.borrows(),
    {
        self.borrows
    }

    /// Tries to acquire shared access to the `AtomicRefCell`. This fails
    /// exactly when the data is exclusively borrowed.
    pub fn try_borrow(&mut self) -> (r: Result<AtomicRef, BorrowError>)
        requires
            old(self).wf(),
            old(self).borrows() < isize::MAX,
        ensures
            final(self).wf(),
            final(self).value() == old(self).value(),
            old(self).borrows() >= 0 ==> r is Ok && final(self).borrows() == old(self).borrows() + 1,
            old(self).borrows() < 0 ==> r == Err::<AtomicRef, BorrowError>(
                BorrowError::BorrowedExclusive,
            ) && final(self).borrows() == old(self).borrows(),
    {
        match shared_borrow(self.borrows) {
            Some(borrows) => {
                self.borrows = borrows;
                Ok(AtomicRef { _private: () })
            },
            None => Err(BorrowError::BorrowedExclusive),
        }
    }

    /// Tries to acquire exclusive access to the `AtomicRefCell`. This fails
    /// whenever any other borrow exists.
    pub fn try_borrow_mut(&mut self) -> (r: Result<AtomicRefMut, BorrowError>)
        requires
            old(self).wf(),
        ensures
            final(self).wf(),
            final(self).value() == old(self).value(),
            old(self).borrows() == 0 ==> r is Ok && final(self).borrows() == -1,
            old(self).borrows() > 0 ==> r == Err::<AtomicRefMut, BorrowError>(
                BorrowError::BorrowedShared,
            ) && final(self).borrows() == old(self).borrows(),
            old(self).borrows() < 0 ==> r == Err::<AtomicRefMut, BorrowError>(
                BorrowError::BorrowedExclusive,
            ) && final(self).borrows() == old(self).borrows(),
    {
        match exclusive_borrow(self.borrows) {
            Ok(borrows) => {
                self.borrows = borrows;
                Ok(AtomicRefMut { _private: () })
            },
            Err(e) => Err(e),
        }
    }
}

impl AtomicRef {
    /// Attempt to upgrade this shared borrow of `cell` into the exclusive
    /// borrow. This succeeds exactly when it is the only borrow of the cell;
    /// otherwise the shared borrow comes back.
    pub fn upgrade<T>(value: Self, cell: &mut AtomicRefCell<T>) -> (r: Result<AtomicRefMut, AtomicRef>)
        requires
            old(cell).wf(),
        ensures
            final(cell).wf(),
            final(cell).value() == old(cell).value(),
            old(cell).borrows() == 1 ==> r is Ok && final(cell).borrows() == -1,
            old(cell).borrows() != 1 ==> r is Err && final(cell).borrows() == old(cell).borrows(),
    {
        match upgraded_borrow(cell.borrows) {
            Some(borrows) => {
                cell.borrows = borrows;
                Ok(AtomicRefMut { _private: () })
            },
            None => Err(value),
        }
    }

    /// Another shared borrow of `cell`, beside this one.
    pub fn clone_in<T>(&self, cell: &mut AtomicRefCell<T>) -> (r: Self)
        requires
            old(cell).wf(),
            0 <= old(cell).borrows() < isize::MAX,
        ensures
            final(cell).wf(),
            final(cell).value() == old(cell).value(),
            final(cell).borrows() == old(cell).borrows() + 1,
    {
        cell.borrows = cell.borrows + 1;
        AtomicRef { _private: () }
    }

    /// The value of `cell`, which this borrow gives shared access to.
    pub fn get<'a, T>(&self, cell: &'a AtomicRefCell<T>) -> (r: &'a T)
        requires
            cell.borrows() > 0,
        ensures
            *r == cell.value(),
    {
        &cell.value
    }

    /// Ends this shared borrow of `cell`.
    pub fn release<T>(self, cell: &mut AtomicRefCell<T>)
        requires
            old(cell).borrows() > 0,
        ensures
            final(cell).wf(),
            final(cell).value() == old(cell).value(),
            final(cell).borrows() == old(cell).borrows() - 1,
    {
        cell.borrows = cell.borrows - 1;
    }
}

impl AtomicRefMut {
    /// The value of `cell`, which this borrow gives exclusive access to.
    pub fn get_mut<'a, T>(&mut self, cell: &'a mut AtomicRefCell<T>) -> (r: &'a mut T)
        requires
            old(cell).borrows() == -1,
        ensures
            *r == old(cell).value(),
            final(cell).value() == *final(r),
            final(cell).borrows() == -1,
    {
        &mut cell.value
    }

    /// Ends the exclusive borrow of `cell`.
    pub fn release<T>(self, cell: &mut AtomicRefCell<T>)
        requires
            old(cell).borrows() == -1,
        ensures
            final(cell).wf(),
            final(cell).value() == old(cell).value(),
            final(cell).borrows() == 0,
    {
        cell.borrows = 0;
    }
}

} // verus!
