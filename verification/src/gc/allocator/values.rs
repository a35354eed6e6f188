//! Values in the managed heap: a value is the words that make it up, stored
//! at the start of the data of an allocated block.

use vstd::prelude::*;

use crate::gc::allocator::collecting::next_cycle;
use crate::gc::allocator::{
    lemma_admitted_allocated, lemma_admitted_can_allocate, lemma_allocated_kept_trans,
    lemma_allocators_kept, lemma_data_written, lemma_others_kept, lemma_queue_kept, GCAllocator,
    GCAllocatorError, GCAllocatorView,
};
use crate::gc::heap::data_words;
use crate::gc::layout::{pages_for, DANGLING};
use crate::gc::tl_allocator::walk::none_fits;

verus! {

impl GCAllocatorView {
    /// Whether the data of the block at `b` starts with the words of `value`.
    pub open spec fn holds(self, b: int, value: Seq<usize>) -> bool {
        &&& 8 * value.len() <= self.heap.size(b)
        &&& data_words(self.heap, b, value.len() as int) == value
    }
}

impl GCAllocator {
    /// The word at `addr`, which is an address of a word of the heap.
    pub fn read(&self, addr: usize) -> (r: usize)
        requires
            self@.wf(),
            self@.heap.is_word(addr as int),
        ensures
            r == self@.heap.mem[addr as int],
    {
        self.heap.read(addr)
    }

    /// Stores `value` at `addr`, in the data of the allocated block at
    /// `block`. Nothing else changes.
    pub fn write(&mut self, block: usize, addr: usize, value: usize)
        requires
            old(self)@.wf(),
            old(self)@.heap.is_allocated(block as int),
            old(self)@.heap.in_data(block as int, addr as int),
            addr % 8 == 0,
        ensures
            final(self)@.wf(),
            final(self)@ == (GCAllocatorView {
                heap: old(self)@.heap.with_word(addr as int, value),
                ..old(self)@
            }),
            old(self)@.heap.kept(final(self)@.heap, set![block as int]),
            forall|c: int| #[trigger]
                old(self)@.heap.is_block(c) ==> final(self)@.heap.header(c) == old(self)@.heap.header(c),
            final(self)@.heap.blocks == old(self)@.heap.blocks,
    {
        let ghost before = self@;
        proof {
            before.heap.lemma_with_data_word_wf(block as int, addr as int, value);
            before.heap.lemma_kept_with_word(block as int, addr as int, value, set![block as int]);
        }
        self.heap.write_data(block, addr, value);
        proof {
            let after = self@;
            assert(after.allocators =~= before.allocators);
            assert forall|c: int| #[trigger] before.heap.is_block(c) implies after.heap.header(c)
                == before.heap.header(c) by {}
            lemma_data_written(before, after, block as int);
        }
    }
}

impl GCAllocator {
    /// Whether the region has room enough to allocate a value of `words`
    /// words whatever the free lists hold. A value of that many words can
    /// then be stored for every thread.
    pub fn has_room_for(&self, words: usize) -> (r: bool)
        requires
            self@.wf(),
        ensures
            r == (self@.has_room_for(words as int) && 8 * words + 32 + 4095 <= usize::MAX),
    {
        if words > (usize::MAX - 32 - 4095) / 8 {
            return false;
        }
        let pages: usize = (8 * words + 32 + 4095) / 4096;
        let room: usize = self.heap.room();
        let room_pages: usize = room / 4096;
        // one page for the allocator, and the pages of the value twice
        if room_pages == 0 {
            return false;
        }
        pages <= (room_pages - 1) / 2
    }
}

impl GCAllocator {
    /// Stores the words of `value` at the start of the data of the allocated
    /// block at `block`. Nothing else changes.
    pub fn write_words(&mut self, block: usize, value: &Vec<usize>)
        requires
            old(self)@.wf(),
            old(self)@.heap.is_allocated(block as int),
            8 * value.len() <= old(self)@.heap.size(block as int),
        ensures
            final(self)@.wf(),
            final(self)@.holds(block as int, value@),
            old(self)@.heap.kept(final(self)@.heap, set![block as int]),
            forall|c: int| #[trigger]
                old(self)@.heap.is_block(c) ==> final(self)@.heap.header(c) == old(self)@.heap.header(c),
            final(self)@ == (GCAllocatorView { heap: final(self)@.heap, ..old(self)@ }),
            final(self)@.heap.blocks == old(self)@.heap.blocks,
            final(self)@.heap.region == old(self)@.heap.region,
    {
        let ghost before = self@;
        self.heap.write_words(block, value);
        proof {
            let after = self@;
            assert(after.allocators =~= before.allocators);
            lemma_data_written(before, after, block as int);
            crate::gc::free_list::lemma_header_parts(before.heap, after.heap, block as int);
        }
    }

    /// Allocates a block for `thread` that holds the words of `value`, with
    /// the destructor `drop_thunk`, and returns the address of its data.
    #[verifier::spinoff_prover]
    fn store_value(
        &mut self,
        thread: u64,
        value: &Vec<usize>,
        drop_thunk: Option<usize>,
    ) -> (r: Result<usize, GCAllocatorError>)
        requires
            old(self)@.wf(),
            drop_thunk != Some(0usize),
            value.len() > 0,
            8 * value.len() <= usize::MAX,
        ensures
            final(self)@.wf(),
            final(self)@.cycle == old(self)@.cycle,
            final(self)@.deallocated == old(self)@.deallocated,
            final(self)@.pending == old(self)@.pending,
            final(self)@.heap.region.base == old(self)@.heap.region.base,
            final(self)@.heap.region.reserved == old(self)@.heap.region.reserved,
            old(self)@.heap.allocated_kept(final(self)@.heap),
            !old(self)@.can_admit(thread) ==> r == Err::<usize, GCAllocatorError>(
                GCAllocatorError::OutOfMemory,
            ) && final(self)@ == old(self)@,
            old(self)@.can_admit(thread) ==> final(self)@.threads.contains(thread),
            old(self)@.others_kept(final(self)@, thread),
            r is Ok <==> old(self)@.can_allocate(thread, 8 * value.len(), 8),
            match r {
                Ok(data) => {
                    &&& final(self)@.newly_allocated(old(self)@, data - 32)
                    &&& data - 32 == old(self)@.block_for(thread, 8 * value.len(), 8)
                    &&& old(self)@.allocated(thread, 8 * value.len(), 8, drop_thunk).stored(
                        final(self)@,
                        data - 32,
                        value@,
                    )
                    &&& final(self)@.heap.header(data - 32).drop_thunk == drop_thunk
                    &&& data % 8 == 0
                    &&& final(self)@.holds(data - 32, value@)
                },
                Err(e) => {
                    &&& e == GCAllocatorError::OutOfMemory
                    &&& old(self)@.can_admit(thread) ==> {
                        &&& final(self)@.heap.region.length + pages_for(8 * value.len()) * 4096
                            > final(self)@.heap.region.reserved
                        &&& old(self)@.threads.contains(thread)
                            ==> final(self)@.heap.region.length <= old(self)@.heap.region.length + pages_for(
                            8 * value.len(),
                        ) * 4096
                        &&& none_fits(
                            final(self)@.heap,
                            final(self)@.list_of(thread),
                            8 * value.len(),
                            8,
                        )
                    }
                },
            },
    {
        let ghost first = self@;
        proof {
            crate::gc::layout::lemma_small_powers_of_two(8);
        }
        let i: usize = match self.allocator_for(thread) {
            Ok(i) => i,
            Err(e) => {
                proof {
                    first.heap.lemma_allocated_kept(first.heap, Set::empty());
                }
                return Err(e);
            },
        };
        let ghost before = self@;
        let ghost mine = before.allocators[i as int];
        proof {
            assert(mine.wf(before.heap));
            assert(self.allocators@[i as int]@ == mine);
            assert(before.threads.contains(before.threads[i as int]));
            crate::gc::allocator::lemma_index_of_thread(before.threads, i as int);
            first.heap.lemma_allocated_kept(before.heap, Set::empty());
        }
        let r = self.allocators[i].allocate_for_value(&mut self.heap, value, drop_thunk);
        proof {
            let after = self@;
            let touched = mine.list.to_set();
            assert(after.allocators =~= before.allocators.update(i as int, after.allocators[i as int]));
            let then_list = after.allocators[i as int].list;
            assert forall|k: int|
                #![trigger then_list[k]]
                0 <= k < then_list.len() implies mine.list.contains(then_list[k])
                || !before.heap.is_free(then_list[k]) by {}
            assert forall|c: int| #[trigger] touched.contains(c) implies !before.heap.is_allocated(
                c,
            ) by {
                let k = mine.list.index_of(c);
                assert(before.heap.is_free(mine.list[k]));
            }
            lemma_allocators_kept(before, after, i as int, touched);
            before.heap.lemma_allocated_kept(after.heap, touched);
            lemma_queue_kept(before, after);
            lemma_allocated_kept_trans(first.heap, before.heap, after.heap);
            assert(after.threads.index_of(thread) == i);
            lemma_others_kept(first, before, after, thread, i as int);
            lemma_admitted_can_allocate(first, before, thread, i as int, 8 * value.len(), 8);
            match r {
                Ok(data) => {
                    let b = data - 32;
                    let exact = first.allocated(thread, 8 * value.len(), 8, drop_thunk);
                    assert(exact.stored(after, b, value@)) by {
                        assert(before == first.admitted(thread));
                        let then_mine = after.allocators[i as int];
                        assert(exact.heap.written(after.heap, b, value@));
                        assert(then_mine.list == exact.allocators[i as int].list);
                        assert(then_mine.free_bytes == exact.allocators[i as int].free_bytes) by {
                            assert forall|k: int|
                                #![trigger then_mine.list[k]]
                                0 <= k < then_mine.list.len() implies exact.heap.is_block(
                                then_mine.list[k],
                            ) by {
                                assert(after.heap.is_free(then_mine.list[k]));
                                assert(after.heap.blocks == exact.heap.blocks);
                            }
                            crate::gc::free_list::lemma_bytes_frame(
                                exact.heap,
                                after.heap,
                                then_mine.list,
                            );
                        }
                        assert(then_mine == exact.allocators[i as int]);
                        assert(after.allocators =~= exact.allocators);
                    }
                    assert(!first.heap.is_allocated(b)) by {
                        if first.heap.is_allocated(b) {
                            assert(before.heap.is_allocated(b));
                            if mine.list.contains(b) {
                                let k = mine.list.index_of(b);
                                assert(before.heap.is_free(mine.list[k]));
                            }
                        }
                    }
                    assert(!after.is_given_back(b)) by {
                        if after.is_given_back(b) {
                            let k = choose|k: int|
                                0 <= k < after.deallocated.len() && #[trigger] after.deallocated[k].0
                                    == b + 32;
                            assert(first.heap.is_allocated(first.deallocated[k].0 - 32));
                        }
                    }
                    assert forall|c: int| #[trigger]
                        after.heap.is_block(c) && c != b implies after.heap.next(c) <= b
                        || after.heap.next(b) <= c by {
                        after.heap.lemma_blocks_disjoint(b, c);
                    }
                    assert forall|c: int| #[trigger]
                        after.heap.is_allocated(c) && c != b implies first.heap.is_allocated(c) by {
                        if then_list.contains(c) {
                            let k = then_list.index_of(c);
                            assert(after.heap.is_free(then_list[k]));
                        }
                        assert(before.heap.is_block(c) && !mine.list.contains(c));
                        crate::gc::free_list::lemma_header_parts(before.heap, after.heap, c);
                        assert(before.heap.is_allocated(c));
                        lemma_admitted_allocated(first, before, c);
                    }
                },
                Err(_) => {},
            }
        }
        r
    }

    /// Puts a value, given as the words that make it up, into the GCed heap,
    /// for `thread`, with the destructor `drop_thunk`; returns the address of
    /// its data. A value of no words gets no block, and an address outside
    /// the heap.
    ///
    /// If the heap is out of memory, be it for the value or for the allocator
    /// of the thread, a collection cycle is waited for, with the roots
    /// `candidates`, and the allocation is tried once more.
    pub fn allocate_for_value(
        &mut self,
        thread: u64,
        value: &Vec<usize>,
        drop_thunk: Option<usize>,
        candidates: &Vec<usize>,
    ) -> (r: Result<usize, GCAllocatorError>)
        requires
            old(self)@.wf(),
            drop_thunk != Some(0usize),
            8 * value.len() <= usize::MAX,
        ensures
            final(self)@.wf(),
            final(self)@.cycle == old(self)@.cycle || final(self)@.cycle == next_cycle(
                old(self)@.cycle,
            ),
            final(self)@.cycle == old(self)@.cycle <==> old(self)@.can_store(
                thread,
                value.len() as int,
            ),
            final(self)@.cycle == old(self)@.cycle ==> r is Ok && old(self)@.heap.allocated_kept(
                final(self)@.heap,
            ) && final(self)@.deallocated == old(self)@.deallocated
                && final(self)@.pending == old(self)@.pending && old(self)@.others_kept(
                final(self)@,
                thread,
            ),
            !old(self)@.can_admit(thread) ==> r == Err::<usize, GCAllocatorError>(
                GCAllocatorError::OutOfMemory,
            ) && old(self)@.collected(
                final(self)@,
                candidates@,
                final(self)@.pending.skip(old(self)@.pending.len() as int),
            ),
            old(self)@.can_admit(thread) && value.len() == 0 ==> r == Ok::<
                usize,
                GCAllocatorError,
            >(DANGLING),
            final(self)@.cycle != old(self)@.cycle ==> old(self)@.retried(
                final(self)@,
                candidates@,
                (thread, 8 * value.len(), 8),
                match r {
                    Ok(data) => Some(data - 32),
                    Err(_) => None,
                },
            ),
            match r {
                Ok(data) => value.len() > 0 ==> {
                    &&& final(self)@.heap.is_allocated(data - 32)
                    &&& !final(self)@.is_given_back(data - 32)
                    &&& final(self)@.heap.header(data - 32).drop_thunk == drop_thunk
                    &&& data % 8 == 0
                    &&& final(self)@.holds(data - 32, value@)
                    &&& final(self)@.cycle == old(self)@.cycle ==> final(self)@.newly_allocated(
                        old(self)@,
                        data - 32,
                    ) && data - 32 == old(self)@.block_for(thread, 8 * value.len(), 8)
                        && old(self)@.allocated(thread, 8 * value.len(), 8, drop_thunk).stored(
                        final(self)@,
                        data - 32,
                        value@,
                    )
                },
                Err(e) => {
                    &&& e == GCAllocatorError::OutOfMemory
                    &&& final(self)@.cycle == next_cycle(old(self)@.cycle)
                    &&& old(self)@.can_admit(thread) ==> {
                        &&& final(self)@.heap.region.length + pages_for(8 * value.len()) * 4096
                            > final(self)@.heap.region.reserved
                        &&& none_fits(
                            final(self)@.heap,
                            final(self)@.list_of(thread),
                            8 * value.len(),
                            8,
                        )
                    }
                },
            },
    {
        let ghost first = self@;
        match self.try_allocate_for_value(thread, value, drop_thunk) {
            Ok(data) => Ok(data),
            Err(e) => {
                if !retries_after(e) {
                    return Err(e);
                }
                // out of memory: wait for a cycle to free some up, and try again, once
                let ghost failed = self@;
                self.wait_for_gc(candidates);
                let ghost cycled = self@;
                let r = self.try_allocate_for_value(thread, value, drop_thunk);
                proof {
                    let due = cycled.pending.skip(failed.pending.len() as int);
                    let block = match r {
                        Ok(data) => Some(data - 32),
                        Err(_) => None,
                    };
                    assert(first.retried_through(
                        failed,
                        cycled,
                        self@,
                        candidates@,
                        due,
                        (thread, 8 * value.len(), 8),
                        block,
                    ));
                }
                r
            },
        }
    }
}

/// Whether an allocation that failed with `error` is tried once more after a
/// collection cycle: where the heap was out of memory.
pub fn retries_after(error: GCAllocatorError) -> (r: bool)
    ensures
        r == (error == GCAllocatorError::OutOfMemory),
{
    match error {
        GCAllocatorError::OutOfMemory => true,
        _ => false,
    }
}

impl GCAllocatorView {
    /// Whether a value of `words` words is stored for `thread` without a
    /// collection: the thread has an allocator or can be given one, and a
    /// block is allocated for the value, unless it has no words.
    pub open spec fn can_store(self, thread: u64, words: int) -> bool {
        if words == 0 {
            self.can_admit(thread)
        } else {
            self.can_allocate(thread, 8 * words, 8)
        }
    }

    /// Whether the region has room enough to allocate a value of `words`
    /// words whatever the thread and whatever the free lists hold: a page for
    /// an allocator, and twice the pages of the value.
    pub open spec fn has_room_for(self, words: int) -> bool {
        self.heap.region.length + 4096 + 2 * pages_for(8 * words) * 4096
            <= self.heap.region.reserved
    }

    /// Where the region has room enough, a value is stored for every thread.
    pub proof fn lemma_room_to_store(self, thread: u64, words: int)
        requires
            words >= 0,
            self.has_room_for(words),
        ensures
            self.can_store(thread, words),
    {
        crate::gc::layout::lemma_pages_cover(8 * words);
    }
}

impl GCAllocator {
    /// Puts a value, given as the words that make it up, into the GCed heap,
    /// for `thread`, with the destructor `drop_thunk`; returns the address of
    /// its data. A value of no words gets no block, and an address outside
    /// the heap. No collection is waited for.
    pub fn try_allocate_for_value(
        &mut self,
        thread: u64,
        value: &Vec<usize>,
        drop_thunk: Option<usize>,
    ) -> (r: Result<usize, GCAllocatorError>)
        requires
            old(self)@.wf(),
            drop_thunk != Some(0usize),
            8 * value.len() <= usize::MAX,
        ensures
            final(self)@.wf(),
            final(self)@.cycle == old(self)@.cycle,
            final(self)@.deallocated == old(self)@.deallocated,
            final(self)@.pending == old(self)@.pending,
            final(self)@.heap.region.base == old(self)@.heap.region.base,
            final(self)@.heap.region.reserved == old(self)@.heap.region.reserved,
            old(self)@.heap.allocated_kept(final(self)@.heap),
            !old(self)@.can_admit(thread) ==> r == Err::<usize, GCAllocatorError>(
                GCAllocatorError::OutOfMemory,
            ) && final(self)@ == old(self)@,
            old(self)@.can_admit(thread) ==> final(self)@.threads.contains(thread),
            old(self)@.can_admit(thread) && value.len() == 0 ==> r == Ok::<
                usize,
                GCAllocatorError,
            >(DANGLING) && final(self)@ == old(self)@.admitted(thread),
            old(self)@.others_kept(final(self)@, thread),
            r is Ok <==> old(self)@.can_store(thread, value.len() as int),
            match r {
                Ok(data) => value.len() > 0 ==> {
                    &&& final(self)@.newly_allocated(old(self)@, data - 32)
                    &&& data - 32 == old(self)@.block_for(thread, 8 * value.len(), 8)
                    &&& old(self)@.allocated(thread, 8 * value.len(), 8, drop_thunk).stored(
                        final(self)@,
                        data - 32,
                        value@,
                    )
                    &&& final(self)@.heap.header(data - 32).drop_thunk == drop_thunk
                    &&& data % 8 == 0
                    &&& final(self)@.holds(data - 32, value@)
                },
                Err(e) => {
                    &&& e == GCAllocatorError::OutOfMemory
                    &&& old(self)@.can_admit(thread) ==> {
                        &&& final(self)@.heap.region.length + pages_for(8 * value.len()) * 4096
                            > final(self)@.heap.region.reserved
                        &&& none_fits(
                            final(self)@.heap,
                            final(self)@.list_of(thread),
                            8 * value.len(),
                            8,
                        )
                    }
                },
            },
    {
        if value.len() == 0 {
            proof {
                self@.heap.lemma_allocated_kept(self@.heap, Set::empty());
            }
            let ghost first = self@;
            return match self.allocator_for(thread) {
                Ok(i) => {
                    proof {
                        first.heap.lemma_allocated_kept(self@.heap, Set::empty());
                        self@.heap.lemma_kept_refl(self@.allocators[i as int].list.to_set());
                        assert(self@.allocators =~= self@.allocators.update(
                            i as int,
                            self@.allocators[i as int],
                        ));
                        lemma_others_kept(first, self@, self@, thread, i as int);
                    }
                    Ok(DANGLING)
                },
                Err(e) => Err(e),
            };
        }
        self.store_value(thread, value, drop_thunk)
    }
}

impl GCAllocator {
    /// The first `n` words of the data of the block at `block`.
    pub fn read_words(&self, block: usize, n: usize) -> (r: Vec<usize>)
        requires
            self@.wf(),
            self@.heap.is_block(block as int),
            8 * n <= self@.heap.size(block as int),
        ensures
            r@ == data_words(self@.heap, block as int, n as int),
    {
        self.heap.read_words(block, n)
    }

    /// The destructor of the block at `block`.
    pub fn drop_thunk(&self, block: usize) -> (r: Option<usize>)
        requires
            self@.wf(),
            self@.heap.is_block(block as int),
        ensures
            r == self@.heap.header(block as int).drop_thunk,
    {
        self.heap.header(block).drop_thunk
    }
}

} // verus!
