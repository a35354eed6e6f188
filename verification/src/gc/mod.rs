//! The managed heap: its memory region, block headers, allocators and
//! collector.
//!
//! - `mem_source`: the region, which hands out pages up to what is reserved.
//! - `heap`, `heap_block_header`: the memory as words, tiled by blocks, each a
//!   header and its data; cutting a block to fit a request.
//! - `free_list`, `tl_allocator`: the free list of one thread, served first
//!   fit.
//! - `allocator`: the allocators of all threads, the queue of the blocks
//!   that were given back, and the collection cycle.
//! - `scanning`, `heap_scan`, `collector`, `tracing`: from candidate roots to
//!   the live blocks and the blocks to sweep.
//! - `cycle`: the states of the collector.
//! - `smart_pointers`: pointers to values in the heap.
//! - `laws`: what holds whatever is asked of the heap.

pub mod allocator;
pub mod collector;
pub mod cycle;
pub mod free_list;
pub mod heap;
pub mod heap_block_header;
pub mod heap_scan;
pub mod laws;
pub mod layout;
pub mod mem_source;
pub mod scanning;
pub mod smart_pointers;
pub mod tl_allocator;
pub mod tracing;

pub use smart_pointers::{Gc, GcMut};
