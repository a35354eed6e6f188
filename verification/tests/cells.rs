use lockfree::cell::{AtomicCell, AtomicRef, AtomicRefCell, BorrowError, MutCell, TakeCell};
use lockfree::spinlock_mutex::Mutex;

#[test]
fn take_cell_is_taken_once() {
    let mut cell = TakeCell::new(5);
    assert!(!cell.is_taken());
    *cell.take().unwrap() += 1;
    assert!(cell.is_taken());
    assert!(cell.take().is_none());
    *cell.get_mut() += 1;
    cell.heal();
    assert!(!cell.is_taken());
    assert_eq!(cell.take(), Some(&mut 7));
    assert_eq!(cell.into_inner(), 7);
}

#[test]
fn mut_cell_has_one_guard() {
    let mut cell = MutCell::new(vec![1]);
    assert!(!cell.is_taken());
    let mut guard = cell.take().unwrap();
    guard.get_mut().push(2);
    assert_eq!(guard.get(), &vec![1, 2]);
    guard.release();
    assert!(!cell.is_taken());
    // a guard that is leaked leaves the cell taken
    std::mem::forget(cell.take());
    assert!(cell.is_taken());
    assert!(cell.take().is_none());
    cell.heal();
    cell.get_mut().push(3);
    assert!(cell.take().is_some());
    assert_eq!(cell.into_inner(), vec![1, 2, 3]);
}

#[test]
fn atomic_ref_cell_counts_its_borrows() {
    let mut x = AtomicRefCell::new(5);
    let first = x.try_borrow().unwrap();
    let second = first.clone_in(&mut x);
    assert_eq!(x.active_borrows(), 2);
    assert_eq!(*first.get(&x), 5);
    assert!(matches!(x.try_borrow_mut(), Err(BorrowError::BorrowedShared)));
    // a borrow is upgraded only when it is the only one
    let first = AtomicRef::upgrade(first, &mut x).unwrap_err();
    second.release(&mut x);
    let mut exclusive = AtomicRef::upgrade(first, &mut x).unwrap();
    assert_eq!(x.active_borrows(), -1);
    assert!(matches!(x.try_borrow(), Err(BorrowError::BorrowedExclusive)));
    assert!(matches!(x.try_borrow_mut(), Err(BorrowError::BorrowedExclusive)));
    *exclusive.get_mut(&mut x) += 1;
    exclusive.release(&mut x);
    assert_eq!(x.active_borrows(), 0);
    assert!(x.try_borrow_mut().is_ok());
    x.clear_leaked_borrows();
    assert!(x.try_borrow().is_ok());
    *x.get_mut() += 1;
    assert_eq!(x.into_inner(), 7);
}

#[test]
fn atomic_cell_hands_its_reference_out() {
    let mut value = 3;
    let mut cell = AtomicCell::from_mut(&mut value);
    assert!(!cell.is_empty());
    let taken = cell.take().unwrap();
    *taken += 1;
    assert!(cell.is_empty());
    assert!(cell.take().is_none());
    assert!(cell.into_inner().is_none());
    assert_eq!(value, 4);
}

#[test]
fn mutex_is_tried() {
    let mut m = Mutex::new(0);
    assert!(!m.is_locked());
    assert!(m.try_lock());
    assert!(!m.try_lock());
    *m.get_mut() += 1;
    m.unlock();
    assert!(m.try_lock());
    assert_eq!(*m.get_mut(), 1);
}
