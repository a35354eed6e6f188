//! Cells that hand out their value under a protocol: once, to one holder at
//! a time, or to many readers or one writer.

pub mod atomic_cell;
pub mod atomic_refcell;
pub mod mutcell;
pub mod takecell;

pub use atomic_cell::AtomicCell;
pub use atomic_refcell::{AtomicRef, AtomicRefCell, AtomicRefMut, BorrowError};
pub use mutcell::{MutCell, MutCellGuard};
pub use takecell::TakeCell;
