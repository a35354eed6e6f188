//! Data structures for one thread.

pub mod bloom_filter;
pub mod lexicographic;
pub mod suffix_array;
pub mod suffix_order;
pub mod suffix_sort;
