//! Smart pointer types for Garbage Collected (GCed) memory.
//!
//! This is the main API for interacting with the garbage collector. A value
//! in managed memory is the machine words that make it up; a pointer to it
//! is the address of those words and their number.

use vstd::prelude::*;
use crate::gc::allocator::collecting::next_cycle;
use crate::gc::allocator::{GCAllocator, GCAllocatorError, GCAllocatorView};
use crate::gc::layout::{pages_for, DANGLING};
use crate::gc::heap::data_words;
use crate::gc::heap_block_header::GCHeapBlockHeader;

verus! {

/// A pointer into managed memory as the contracts see it.
pub struct Pointer {
    /// The address of the value.
    pub ptr: int,
    /// The number of words of the value.
    pub words: int,
}

impl Pointer {
    /// Whether the pointer points to a value in the heap of `gc`: to the data
    /// of a block that is allocated and holds as many words. A pointer to a
    /// value of no words points nowhere in the heap.
    pub open spec fn valid(self, gc: GCAllocatorView) -> bool {
        if self.words == 0 {
            self.ptr == DANGLING
        } else {
            &&& self.words > 0
            &&& gc.heap.is_allocated(self.ptr - 32)
            &&& 8 * self.words <= gc.heap.size(self.ptr - 32)
        }
    }

    /// The value that the pointer points to in the heap of `gc`.
    pub open spec fn value(self, gc: GCAllocatorView) -> Seq<usize> {
        data_words(gc.heap, self.ptr - 32, self.words)
    }
}

/// Shared access to Garbage Collected (GCed) memory.
///
/// A smart pointer to data that is owned by the garbage collector. It is
/// just a pointer to some data: the bookkeeping for knowing when to free the
/// data is done by the collector, which scans for pointers. So the pointer
/// is copied freely.
#[derive(Clone, Copy, Debug)]
pub struct Gc {
    ptr: usize,
    words: usize,
}

/// Exclusive access to Garbage-collected memory.
///
/// The pointer is not copied, so the value can be changed through it, and
/// when it is released the block can be given back at once, without waiting
/// for a collection to find it dead.
#[derive(Debug)]
pub struct GcMut {
    ptr: usize,
    words: usize,
}

impl View for Gc {
    type V = Pointer;

    closed spec fn view(&self) -> Pointer {
        Pointer { ptr: self.ptr as int, words: self.words as int }
    }
}

impl View for GcMut {
    type V = Pointer;

    closed spec fn view(&self) -> Pointer {
        Pointer { ptr: self.ptr as int, words: self.words as int }
    }
}

impl Gc {
    /// Moves a value into GCed memory, for `thread`, with the destructor
    /// `drop_thunk` for the collector to run when it sweeps the value.
    ///
    /// The value must be one that can be stored for the thread: `try_new` of
    /// `GcMut` is for the others.
    pub fn new(
        gc: &mut GCAllocator,
        thread: u64,
        value: &Vec<usize>,
        drop_thunk: Option<usize>,
    ) -> (r: Self)
        requires
            old(gc)@.wf(),
            drop_thunk != Some(0usize),
            8 * value.len() <= usize::MAX,
            old(gc)@.can_store(thread, value.len() as int),
        ensures
            final(gc)@.wf(),
            r@.words == value.len(),
            r@.valid(final(gc)@),
            r@.value(final(gc)@) == value@,
            value.len() > 0 ==> final(gc)@.newly_allocated(old(gc)@, r@.ptr - 32)
                && final(gc)@.heap.header(r@.ptr - 32).drop_thunk == drop_thunk
                && r@.ptr - 32 == old(gc)@.block_for(thread, 8 * value.len(), 8)
                && old(gc)@.allocated(thread, 8 * value.len(), 8, drop_thunk).stored(
                final(gc)@,
                r@.ptr - 32,
                value@,
            ),
            value.len() == 0 ==> final(gc)@ == old(gc)@.admitted(thread),
            old(gc)@.heap.allocated_kept(final(gc)@.heap),
            old(gc)@.others_kept(final(gc)@, thread),
            final(gc)@.pending == old(gc)@.pending,
            final(gc)@.cycle == old(gc)@.cycle,
            final(gc)@.deallocated == old(gc)@.deallocated,
    {
        let ptr: usize = match gc.try_allocate_for_value(thread, value, drop_thunk) {
            Ok(ptr) => ptr,
            Err(_) => DANGLING,
        };
        let r = Gc { ptr, words: value.len() };
        assert(r@.value(gc@) =~= value@);
        r
    }

    /// Constructs a new Gc from the address of a value and the number of its
    /// words.
    pub fn from_ptr(value: usize, words: usize) -> (r: Self)
        ensures
            r@ == (Pointer { ptr: value as int, words: words as int }),
    {
        Gc { ptr: value, words }
    }

    /// Promotes the shared pointer into an exclusive pointer. No other
    /// pointer to the value may be used after this.
    pub fn promote(self) -> (r: GcMut)
        ensures
            r@ == self@,
    {
        GcMut { ptr: self.ptr, words: self.words }
    }

    /// Returns the inner pointer to the value.
    pub fn as_ptr(&self) -> (r: usize)
        ensures
            r == self@.ptr,
    {
        self.ptr
    }

    /// Returns the inner pointer to the value.
    pub fn as_non_null_ptr(&self) -> (r: usize)
        ensures
            r == self@.ptr,
    {
        self.ptr
    }

    /// The number of words of the value.
    pub fn len(&self) -> (r: usize)
        ensures
            r == self@.words,
    {
        self.words
    }

    /// The value that the pointer points to.
    pub fn get(&self, gc: &GCAllocator) -> (r: Vec<usize>)
        requires
            gc@.wf(),
            self@.valid(gc@),
        ensures
            r@ == self@.value(gc@),
    {
        if self.words == 0 {
            let r: Vec<usize> = Vec::new();
            assert(r@ =~= self@.value(gc@));
            return r;
        }
        proof {
            gc@.heap.lemma_block(self@.ptr - 32);
        }
        gc.read_words(self.ptr - 32, self.words)
    }
}

impl GcMut {
    /// Moves a value into GCed memory, for `thread`, with the destructor
    /// `drop_thunk`.
    ///
    /// The value must be one that can be stored for the thread: `try_new` of
    /// `GcMut` is for the others.
    pub fn new(
        gc: &mut GCAllocator,
        thread: u64,
        value: &Vec<usize>,
        drop_thunk: Option<usize>,
    ) -> (r: Self)
        requires
            old(gc)@.wf(),
            drop_thunk != Some(0usize),
            8 * value.len() <= usize::MAX,
            old(gc)@.can_store(thread, value.len() as int),
        ensures
            final(gc)@.wf(),
            r@.words == value.len(),
            r@.valid(final(gc)@),
            r@.value(final(gc)@) == value@,
            value.len() > 0 ==> final(gc)@.newly_allocated(old(gc)@, r@.ptr - 32)
                && final(gc)@.heap.header(r@.ptr - 32).drop_thunk == drop_thunk
                && r@.ptr - 32 == old(gc)@.block_for(thread, 8 * value.len(), 8)
                && old(gc)@.allocated(thread, 8 * value.len(), 8, drop_thunk).stored(
                final(gc)@,
                r@.ptr - 32,
                value@,
            ),
            value.len() == 0 ==> final(gc)@ == old(gc)@.admitted(thread),
            old(gc)@.heap.allocated_kept(final(gc)@.heap),
            old(gc)@.others_kept(final(gc)@, thread),
            final(gc)@.pending == old(gc)@.pending,
            final(gc)@.cycle == old(gc)@.cycle,
            final(gc)@.deallocated == old(gc)@.deallocated,
    {
        let ptr: usize = match gc.try_allocate_for_value(thread, value, drop_thunk) {
            Ok(ptr) => ptr,
            Err(_) => DANGLING,
        };
        let r = GcMut { ptr, words: value.len() };
        assert(r@.value(gc@) =~= value@);
        r
    }

    /// Tries to move the value into GCed memory. If the heap is out of
    /// memory, be it for the value or for the allocator of the thread, a
    /// collection cycle is waited for, with the roots `candidates`, and the
    /// allocation is tried once more.
    pub fn try_new(
        gc: &mut GCAllocator,
        thread: u64,
        value: &Vec<usize>,
        drop_thunk: Option<usize>,
        candidates: &Vec<usize>,
    ) -> (r: Result<GcMut, GCAllocatorError>)
        requires
            old(gc)@.wf(),
            drop_thunk != Some(0usize),
            8 * value.len() <= usize::MAX,
        ensures
            final(gc)@.wf(),
            !old(gc)@.can_admit(thread) ==> r is Err && old(gc)@.collected(
                final(gc)@,
                candidates@,
                final(gc)@.pending.skip(old(gc)@.pending.len() as int),
            ),
            final(gc)@.cycle == old(gc)@.cycle <==> old(gc)@.can_store(
                thread,
                value.len() as int,
            ),
            final(gc)@.cycle == old(gc)@.cycle ==> r is Ok && old(gc)@.heap.allocated_kept(
                final(gc)@.heap,
            ) && final(gc)@.deallocated == old(gc)@.deallocated
                && final(gc)@.pending == old(gc)@.pending,
            final(gc)@.cycle != old(gc)@.cycle ==> old(gc)@.retried(
                final(gc)@,
                candidates@,
                (thread, 8 * value.len(), 8),
                match r {
                    Ok(p) => Some(p@.ptr - 32),
                    Err(_) => None,
                },
            ),
            match r {
                Ok(p) => {
                    &&& p@.words == value.len()
                    &&& p@.valid(final(gc)@)
                    &&& p@.value(final(gc)@) == value@
                    &&& value.len() > 0 ==> !final(gc)@.is_given_back(p@.ptr - 32)
                        && final(gc)@.heap.header(p@.ptr - 32).drop_thunk == drop_thunk
                    &&& value.len() > 0 && final(gc)@.cycle == old(gc)@.cycle
                        ==> final(gc)@.newly_allocated(old(gc)@, p@.ptr - 32) && p@.ptr - 32
                        == old(gc)@.block_for(thread, 8 * value.len(), 8) && old(gc)@.allocated(
                        thread,
                        8 * value.len(),
                        8,
                        drop_thunk,
                    ).stored(final(gc)@, p@.ptr - 32, value@)
                },
                Err(e) => {
                    &&& e == GCAllocatorError::OutOfMemory
                    &&& final(gc)@.cycle == next_cycle(old(gc)@.cycle)
                    &&& old(gc)@.can_admit(thread) ==> final(gc)@.heap.region.length + pages_for(
                        8 * value.len(),
                    ) * 4096 > final(gc)@.heap.region.reserved
                },
            },
    {
        match gc.allocate_for_value(thread, value, drop_thunk, candidates) {
            Ok(ptr) => {
                let p = GcMut { ptr, words: value.len() };
                assert(p@.value(gc@) =~= value@);
                Ok(p)
            },
            Err(e) => Err(e),
        }
    }

    /// Returns a pointer to the underlying data.
    pub fn as_ptr(&self) -> (r: usize)
        ensures
            r == self@.ptr,
    {
        self.ptr
    }

    /// Returns a pointer to the underlying data.
    pub fn as_non_null_ptr(&self) -> (r: usize)
        ensures
            r == self@.ptr,
    {
        self.ptr
    }

    /// The number of words of the value.
    pub fn len(&self) -> (r: usize)
        ensures
            r == self@.words,
    {
        self.words
    }

    /// Constructs a new `GcMut` from the address of a value and the number
    /// of its words. No other pointer to the value may be in use.
    pub fn from_nonnull_ptr(value: usize, words: usize) -> (r: Self)
        ensures
            r@ == (Pointer { ptr: value as int, words: words as int }),
    {
        GcMut { ptr: value, words }
    }

    /// Converts exclusive access into shared access: the same value at the
    /// same address.
    pub fn demote(self) -> (r: Gc)
        ensures
            r@ == self@,
    {
        Gc { ptr: self.ptr, words: self.words }
    }

    /// The value that the pointer points to.
    pub fn get(&self, gc: &GCAllocator) -> (r: Vec<usize>)
        requires
            gc@.wf(),
            self@.valid(gc@),
        ensures
            r@ == self@.value(gc@),
    {
        if self.words == 0 {
            let r: Vec<usize> = Vec::new();
            assert(r@ =~= self@.value(gc@));
            return r;
        }
        proof {
            gc@.heap.lemma_block(self@.ptr - 32);
        }
        gc.read_words(self.ptr - 32, self.words)
    }

    /// Replaces the value that the pointer points to by `value`, which has as
    /// many words. Nothing else in the heap changes.
    pub fn set(&mut self, gc: &mut GCAllocator, value: &Vec<usize>)
        requires
            old(gc)@.wf(),
            old(self)@.valid(old(gc)@),
            value.len() == old(self)@.words,
        ensures
            final(gc)@.wf(),
            final(self)@ == old(self)@,
            final(self)@.valid(final(gc)@),
            final(self)@.value(final(gc)@) == value@,
            final(self)@.words > 0 ==> old(gc)@.heap.kept(
                final(gc)@.heap,
                set![final(self)@.ptr - 32],
            ),
            final(gc)@ == (GCAllocatorView { heap: final(gc)@.heap, ..old(gc)@ }),
    {
        if self.words == 0 {
            assert(self@.value(gc@) =~= value@);
            return ;
        }
        proof {
            gc@.heap.lemma_block(self@.ptr - 32);
        }
        gc.write_words(self.ptr - 32, value);
        proof {
            crate::gc::free_list::lemma_header_parts(old(gc)@.heap, gc@.heap, self@.ptr - 32);
        }
    }

    /// Releases the value: the block loses its destructor and is given back,
    /// for the next collection to free without a scan having to prove it
    /// dead. Returns the destructor, which is the caller's to run at once.
    /// No collection runs, and nothing else changes.
    pub fn release(self, gc: &mut GCAllocator) -> (r: Option<usize>)
        requires
            old(gc)@.wf(),
            self@.valid(old(gc)@),
            self@.words > 0 ==> !old(gc)@.is_given_back(self@.ptr - 32),
        ensures
            final(gc)@.wf(),
            self@.words == 0 ==> r is None && final(gc)@ == old(gc)@,
            self@.words > 0 ==> {
                &&& r == old(gc)@.heap.header(self@.ptr - 32).drop_thunk
                &&& final(gc)@ == (GCAllocatorView {
                    heap: old(gc)@.heap.with_header(
                        self@.ptr - 32,
                        GCHeapBlockHeader {
                            drop_thunk: None,
                            ..old(gc)@.heap.header(self@.ptr - 32)
                        },
                    ),
                    deallocated: old(gc)@.deallocated.push(
                        (self@.ptr as usize, (8 * self@.words) as usize),
                    ),
                    ..old(gc)@
                })
                &&& final(gc)@.is_given_back(self@.ptr - 32)
                &&& final(gc)@.heap.is_allocated(self@.ptr - 32)
                &&& final(gc)@.heap.header(self@.ptr - 32).drop_thunk is None
                &&& old(gc)@.heap.kept(final(gc)@.heap, set![self@.ptr - 32])
            },
    {
        if self.words == 0 {
            return None;
        }
        proof {
            gc@.heap.lemma_block(self@.ptr - 32);
            crate::gc::heap_block_header::lemma_flag_values();
        }
        let drop_thunk: Option<usize> = gc.drop_thunk(self.ptr - 32);
        proof {
            let h = gc@.heap;
            let b = self@.ptr - 32;
            let cleared = GCHeapBlockHeader {
                drop_thunk: None,
                ..h.header(b)
            };
            h.lemma_with_header_wf(b, cleared);
            h.lemma_kept_with_header(b, cleared, set![b]);
            crate::gc::layout::lemma_header_words_aligned(b);
        }
        gc.deallocate(self.ptr, 8 * self.words, 8);
        drop_thunk
    }
}

/// What is stored through an exclusive pointer is read through the shared
/// pointer that it is demoted to, at the same address.
pub proof fn lemma_round_trip(gc: GCAllocatorView, exclusive: Pointer, shared: Pointer, value: Seq<usize>)
    requires
        exclusive.valid(gc),
        exclusive.value(gc) == value,
        shared == exclusive,
    ensures
        shared.valid(gc),
        shared.ptr == exclusive.ptr,
        shared.value(gc) == value,
{
}

} // verus!
