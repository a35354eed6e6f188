//! Building blocks for programs with many threads, and a conservative
//! mark-sweep garbage collector with its allocator, all of them verified.
//!
//! The collector works on a heap that it holds itself, as machine words
//! under the addresses of a region that is reserved for it: nothing here
//! reads or writes the memory of the process. What a collection needs of the
//! process, the words in the registers and on the stacks of its threads, is
//! handed in; what it leaves for the process to do, the destructors of the
//! values that it has swept, is handed out. In the same way the cells and
//! the lock hold their value for one owner at a time, and state the rules by
//! which cells that are shared between threads count their borrows.

pub mod cell;
pub mod gc;
pub mod non_concurrent;
pub mod spinlock_mutex;
