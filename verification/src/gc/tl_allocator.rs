//! The allocator of one thread: a free list of blocks of the heap, served
//! first fit, and refilled from the region when nothing fits.

use vstd::prelude::*;
use crate::gc::allocator::GCAllocatorError;
use crate::gc::free_list::{
    is_free_list, lemma_bytes_bound, lemma_bytes_positive, lemma_free_list_frame,
    lemma_header_parts, lemma_insert_after, lemma_push_front, lemma_remove, link_ok, list_bytes,
    same_headers,
};
use crate::gc::heap::{data_words, Heap, HeapView};
use crate::gc::heap_block_header::GCHeapBlockHeader;
use crate::gc::layout::{
    check_power_of_two, is_power_of_two, lemma_small_powers_of_two, pages_for, DANGLING, MAX_ALIGN,
};
use crate::gc::tl_allocator::walk::{
    accounted, allocated_block, allocated_heap, allocated_list, allocated_regions, allocated_with,
    balanced, can_allocate, expanded, first_fit, fitted_list, lemma_accounted_remove,
    lemma_accounted_same, lemma_accounted_trans, lemma_after_expand, lemma_fit_list,
    lemma_fitted_in_place, lemma_index_of, lemma_list_from_refl, lemma_list_from_touched,
    lemma_list_from_trans, lemma_too_small, lemma_walk_expanded, lemma_walk_found, lemma_walk_none,
    lemma_walk_succeeds, link_set, list_from, none_fits, taken, taken_block, unlinked, walk_base,
    walk_committed, walk_list, walked_block, walked_heap, walked_list, walked_regions,
};

pub mod walk;

verus! {

/// The allocator of one thread.
pub struct TLAllocator {
    /// The start of this thread's free list.
    free_list_head: Option<usize>,
    /// The amount of free memory this allocator has.
    num_free_bytes: usize,
    /// The ranges that this allocator got from the region: address and length.
    alloced_blocks: Vec<(usize, usize)>,
    free_list: Ghost<Seq<int>>,
}

/// An allocator as the contracts see it.
pub struct TLAllocatorView {
    /// The first block of the free list.
    pub head: Option<usize>,
    /// The bytes of data in the blocks of the free list.
    pub free_bytes: int,
    /// The blocks of the free list, in the order of their links.
    pub list: Seq<int>,
    /// The ranges that the allocator got from the region.
    pub regions: Seq<(usize, usize)>,
}

impl TLAllocatorView {
    /// The invariant of an allocator over the heap that its blocks are in:
    /// its list is a free list of that heap, and `free_bytes` is the sum of
    /// the sizes of its blocks.
    pub open spec fn wf(self, h: HeapView) -> bool {
        &&& is_free_list(h, self.head, self.list)
        &&& self.free_bytes == list_bytes(h, self.list)
    }

    /// An allocator stays well formed where the headers of its blocks stay
    /// what they are.
    pub proof fn lemma_frame(self, before: HeapView, after: HeapView)
        requires
            self.wf(before),
            same_headers(before, after, self.list),
        ensures
            self.wf(after),
    {
        lemma_free_list_frame(before, after, self.head, self.list);
    }

    /// An allocator stays well formed through a change that touches none of
    /// its blocks.
    pub proof fn lemma_kept(self, before: HeapView, after: HeapView, touched: Set<int>)
        requires
            self.wf(before),
            before.kept(after, touched),
            forall|i: int|
                #![trigger self.list[i]]
                0 <= i < self.list.len() ==> !touched.contains(self.list[i]),
        ensures
            self.wf(after),
    {
        assert forall|i: int| #![trigger self.list[i]] 0 <= i < self.list.len() implies after.is_block(
            self.list[i],
        ) && after.header(self.list[i]) == before.header(self.list[i]) by {
            assert(before.is_free(self.list[i]));
            assert(!touched.contains(self.list[i]));
            assert(before.is_block(self.list[i]));
        }
        self.lemma_frame(before, after);
    }

    /// The free bytes of an allocator fit, with the headers of its blocks, in
    /// the heap.
    pub proof fn lemma_free_bytes_bound(self, h: HeapView)
        requires
            h.wf(),
            self.wf(h),
        ensures
            0 <= self.free_bytes,
            self.free_bytes + 32 * self.list.len() <= h.region.length,
            self.free_bytes == 0 <==> self.list.len() == 0,
    {
        assert forall|j: int| #![trigger self.list[j]] 0 <= j < self.list.len() implies h.is_block(
            self.list[j],
        ) by {
            assert(h.is_free(self.list[j]));
        }
        lemma_bytes_bound(h, self.list);
        lemma_bytes_positive(h, self.list);
    }
}

impl View for TLAllocator {
    type V = TLAllocatorView;

    closed spec fn view(&self) -> TLAllocatorView {
        TLAllocatorView {
            head: self.free_list_head,
            free_bytes: self.num_free_bytes as int,
            list: self.free_list@,
            regions: self.alloced_blocks@,
        }
    }
}

impl TLAllocator {
    /// An allocator with one page of the region as its first free block.
    /// Fails, with nothing changed, where the region cannot grow by a page.
    pub fn try_new(heap: &mut Heap) -> (r: Result<Self, GCAllocatorError>)
        requires
            old(heap)@.wf(),
        ensures
            final(heap)@.wf(),
            match r {
                Ok(a) => {
                    &&& final(heap)@ == old(heap)@.grown(4096, final(heap)@.region.committed)
                    &&& final(heap)@.region.committed == old(heap)@.grown_committed(4096)
                    &&& old(heap)@.region.length + 4096 <= old(heap)@.region.reserved
                    &&& a@.wf(final(heap)@)
                    &&& a@.list == seq![old(heap)@.end()]
                    &&& a@.free_bytes == 4096 - 32
                    &&& a@.regions == seq![(old(heap)@.end() as usize, 4096usize)]
                },
                Err(e) => {
                    &&& e == GCAllocatorError::OutOfMemory
                    &&& final(heap)@ == old(heap)@
                    &&& old(heap)@.region.length + 4096 > old(heap)@.region.reserved
                },
            },
    {
        let block: usize = match heap.grow(1) {
            Some(n) => n,
            None => {
                return Err(GCAllocatorError::OutOfMemory);
            },
        };
        let mut alloced_blocks: Vec<(usize, usize)> = Vec::new();
        alloced_blocks.push((block, 4096));
        let ghost list = seq![block as int];
        let a = TLAllocator {
            free_list_head: Some(block),
            num_free_bytes: 4096 - 32,
            alloced_blocks,
            free_list: Ghost(list),
        };
        proof {
            let h = heap@;
            old(heap)@.lemma_grown_wf(4096, h.region.committed);
            assert(a@.list.drop_last() =~= Seq::<int>::empty());
            assert(list_bytes(h, Seq::<int>::empty()) == 0);
            assert(a@.list.last() == block);
            assert(a@.list =~= seq![old(heap)@.end()]);
            assert(a@.regions =~= seq![(old(heap)@.end() as usize, 4096usize)]);
        }
        Ok(a)
    }

    /// The total number of free bytes on the free list.
    pub fn free_bytes(&self) -> (r: usize)
        ensures
            r == self@.free_bytes,
    {
        self.num_free_bytes
    }

    /// Whether the free list is empty: whether the allocator has no free
    /// memory at all.
    pub fn has_no_memory(&self) -> (r: bool)
        ensures
            r == (self@.head is None),
    {
        self.free_list_head.is_none()
    }
}

impl TLAllocator {
    /// Expands the heap by at least the given number of bytes, which become
    /// one new free block on this free list: behind `last_block`, which is
    /// the last block of the list, or at its head where none is given.
    /// Returns the new block. Fails, with nothing changed, where the region
    /// cannot grow that far.
    #[verifier::spinoff_prover]
    pub fn expand_by(
        &mut self,
        heap: &mut Heap,
        num_bytes: usize,
        last_block: Option<usize>,
    ) -> (r: Result<usize, GCAllocatorError>)
        requires
            old(heap)@.wf(),
            old(self)@.wf(old(heap)@),
            last_block matches Some(b) ==> old(self)@.list.len() > 0 && b == old(self)@.list.last(),
        ensures
            final(heap)@.wf(),
            final(self)@.wf(final(heap)@),
            old(heap)@.kept(final(heap)@, link_set(last_block)),
            accounted(old(heap)@, old(self)@.list, final(heap)@, final(self)@.list, None),
            match r {
                Ok(n) => {
                    let len = pages_for(num_bytes as int) * 4096;
                    &&& n == old(heap)@.end()
                    &&& final(heap)@.region.length == old(heap)@.region.length + len
                    &&& final(heap)@.region.length <= final(heap)@.region.committed
                    &&& final(heap)@.region.committed <= old(heap)@.region.reserved
                    &&& final(heap)@.region.committed == old(heap)@.grown_committed(len)
                    &&& final(heap)@ == expanded(
                        old(heap)@,
                        old(self)@.head,
                        last_block,
                        len,
                        final(heap)@.region.committed,
                    )
                    &&& final(heap)@.blocks == old(heap)@.blocks.push(n as int)
                    &&& final(heap)@.is_free(n as int)
                    &&& final(heap)@.size(n as int) == len - 32
                    &&& final(self)@.list == if last_block is None {
                        old(self)@.list.insert(0, n as int)
                    } else {
                        old(self)@.list.push(n as int)
                    }
                    &&& final(self)@.free_bytes == old(self)@.free_bytes + len - 32
                    &&& final(self)@.regions == old(self)@.regions.push((n, len as usize))
                },
                Err(e) => {
                    &&& e == GCAllocatorError::OutOfMemory
                    &&& final(heap)@ == old(heap)@
                    &&& final(self)@ == old(self)@
                    &&& old(heap)@.region.length + pages_for(num_bytes as int) * 4096
                        > old(heap)@.region.reserved
                },
            },
    {
        proof {
            lemma_accounted_same(heap@, self@.list, heap@);
        }
        // Get (at least) the requested amount of memory
        if num_bytes > usize::MAX - 32 - 4095 {
            return Err(GCAllocatorError::OutOfMemory);
        }
        let num_pages: usize = (num_bytes + 32 + 4095) / 4096;
        let new_ptr: usize = match heap.grow(num_pages) {
            Some(n) => n,
            None => {
                return Err(GCAllocatorError::OutOfMemory);
            },
        };
        let len: usize = num_pages * 4096;
        let ghost before = old(heap)@;
        let ghost grown = heap@;
        let ghost list = self@.list;
        let ghost touched = link_set(last_block);
        proof {
            before.lemma_grown_wf(len as int, grown.region.committed);
            before.lemma_kept_grown(len as int, grown.region.committed, touched);
            self@.lemma_free_bytes_bound(before);
            assert forall|i: int| #![trigger list[i]] 0 <= i < list.len() implies grown.is_block(
                list[i],
            ) && grown.header(list[i]) == before.header(list[i]) by {
                assert(before.is_free(list[i]));
            }
            self@.lemma_frame(before, grown);
            assert(!list.contains(new_ptr as int)) by {
                if list.contains(new_ptr as int) {
                    let i = list.index_of(new_ptr as int);
                    assert(before.is_free(list[i]));
                }
            }
        }
        // Add this range to the list of what the allocator got
        self.alloced_blocks.push((new_ptr, len));
        // Link the new block into the free list
        let block_size: usize = len - 32;
        match last_block {
            None => {
                let mut header: GCHeapBlockHeader = heap.header(new_ptr);
                header.next_free = self.free_list_head;
                proof {
                    if list.len() > 0 {
                        assert(grown.is_free(list[0]));
                        grown.lemma_block(list[0]);
                    }
                    grown.lemma_with_header_wf(new_ptr as int, header);
                    grown.lemma_kept_with_header(new_ptr as int, header, set![new_ptr as int]);
                }
                heap.set_header(new_ptr, &header);
                proof {
                    let after = heap@;
                    assert forall|i: int| #![trigger list[i]] 0 <= i < list.len() implies after.is_block(
                        list[i],
                    ) && after.header(list[i]) == grown.header(list[i]) by {
                        assert(grown.is_free(list[i]));
                        assert(list.contains(list[i]));
                    }
                    lemma_push_front(grown, after, self.free_list_head, list, new_ptr as int);
                    before.lemma_kept_trans(grown, after, touched, set![new_ptr as int]);
                    self.free_list@ = list.insert(0, new_ptr as int);
                }
                self.free_list_head = Some(new_ptr);
            },
            Some(last) => {
                let ghost i = list.len() - 1;
                let mut header: GCHeapBlockHeader = heap.header(last);
                proof {
                    assert(list[i] == last);
                    assert(grown.is_free(list[i]));
                    assert(link_ok(grown, list, i));
                }
                header.next_free = Some(new_ptr);
                proof {
                    grown.lemma_with_header_wf(last as int, header);
                    grown.lemma_kept_with_header(last as int, header, touched);
                }
                heap.set_header(last, &header);
                proof {
                    let after = heap@;
                    assert forall|k: int|
                        #![trigger list[k]]
                        0 <= k < list.len() && k != i implies after.is_block(list[k])
                        && after.header(list[k]) == grown.header(list[k]) by {
                        assert(grown.is_free(list[k]));
                    }
                    assert(grown.is_block(new_ptr as int));
                    assert(after.header(new_ptr as int) == grown.header(new_ptr as int));
                    assert(after.is_block(last as int));
                    lemma_insert_after(grown, after, self.free_list_head, list, i, new_ptr as int);
                    before.lemma_kept_trans(grown, after, touched, touched);
                    assert(list.insert(i + 1, new_ptr as int) =~= list.push(new_ptr as int));
                    self.free_list@ = list.push(new_ptr as int);
                }
            },
        }
        // Update the amount of free bytes we have
        self.num_free_bytes = self.num_free_bytes + block_size;
        proof {
            let then_list = self@.list;
            assert forall|c: int| #[trigger] heap@.is_block(c) implies then_list.contains(c)
                || (before.is_block(c) && !list.contains(c)) by {
                assert(grown.is_block(c));
                if c == new_ptr {
                    if last_block is None {
                        assert(then_list[0] == c);
                    } else {
                        assert(then_list[list.len() as int] == c);
                    }
                } else if list.contains(c) {
                    let k = list.index_of(c);
                    if last_block is None {
                        assert(then_list[k + 1] == c);
                    } else {
                        assert(then_list[k] == c);
                    }
                }
            }
        }
        Ok(new_ptr)
    }

    /// Adds a block that was allocated to the head of the free list. The
    /// block loses its destructor.
    #[verifier::spinoff_prover]
    pub fn reclaim_block(&mut self, heap: &mut Heap, block: usize)
        requires
            old(heap)@.wf(),
            old(self)@.wf(old(heap)@),
            old(heap)@.is_allocated(block as int),
        ensures
            final(heap)@.wf(),
            final(self)@.wf(final(heap)@),
            old(heap)@.kept(final(heap)@, set![block as int]),
            final(heap)@ == old(heap)@.with_header(
                block as int,
                GCHeapBlockHeader {
                    next_free: old(self)@.head,
                    flags: 0,
                    drop_thunk: None,
                    ..old(heap)@.header(block as int)
                },
            ),
            final(heap)@.is_free(block as int),
            final(self)@.list == old(self)@.list.insert(0, block as int),
            final(self)@.free_bytes == old(self)@.free_bytes + old(heap)@.size(block as int),
            final(self)@.regions == old(self)@.regions,
    {
        let ghost before = heap@;
        let ghost list = self@.list;
        let mut header: GCHeapBlockHeader = heap.header(block);
        proof {
            if list.len() > 0 {
                assert(before.is_free(list[0]));
                before.lemma_block(list[0]);
            }
            before.lemma_block(block as int);
            assert(!list.contains(block as int)) by {
                if list.contains(block as int) {
                    let i = list.index_of(block as int);
                    assert(before.is_free(list[i]));
                }
            }
        }
        header.set_free(self.free_list_head);
        proof {
            before.lemma_with_header_wf(block as int, header);
            before.lemma_kept_with_header(block as int, header, set![block as int]);
        }
        heap.set_header(block, &header);
        proof {
            let after = heap@;
            let longer = list.insert(0, block as int);
            assert forall|i: int| #![trigger list[i]] 0 <= i < list.len() implies after.is_block(
                list[i],
            ) && after.header(list[i]) == before.header(list[i]) by {
                assert(before.is_free(list[i]));
                assert(list.contains(list[i]));
            }
            lemma_push_front(before, after, self.free_list_head, list, block as int);
            // the free bytes and the block fit in the heap
            assert forall|j: int| #![trigger longer[j]] 0 <= j < longer.len() implies after.is_block(
                longer[j],
            ) by {
                assert(after.is_free(longer[j]));
            }
            lemma_bytes_bound(after, longer);
            self.free_list@ = longer;
        }
        self.num_free_bytes = self.num_free_bytes + header.size;
        self.free_list_head = Some(block);
    }

    /// Given a block of the free list, takes the block behind it off the
    /// list; given none, takes the first off. Returns the block that was
    /// taken off, which keeps its header, or none where there is no such
    /// block. The count of free bytes stays what it was.
    #[verifier::spinoff_prover]
    fn pop_next(&mut self, heap: &mut Heap, ptr: Option<usize>) -> (r: Option<usize>)
        requires
            old(heap)@.wf(),
            is_free_list(old(heap)@, old(self)@.head, old(self)@.list),
            ptr matches Some(p) ==> old(self)@.list.contains(p as int),
        ensures
            final(heap)@.wf(),
            old(heap)@.kept(final(heap)@, link_set(ptr)),
            accounted(
                old(heap)@,
                old(self)@.list,
                final(heap)@,
                final(self)@.list,
                taken_block(r),
            ),
            final(heap)@.blocks == old(heap)@.blocks,
            final(heap)@.region == old(heap)@.region,
            final(self)@.free_bytes == old(self)@.free_bytes,
            final(self)@.regions == old(self)@.regions,
            ({
                let list = old(self)@.list;
                let i = match ptr {
                    Some(p) => list.index_of(p as int) + 1,
                    None => 0,
                };
                if i < list.len() {
                    &&& r == Some(list[i] as usize)
                    &&& final(heap)@ == unlinked(old(heap)@, list, i)
                    &&& final(self)@.list == list.remove(i)
                    &&& is_free_list(final(heap)@, final(self)@.head, final(self)@.list)
                    &&& list_bytes(final(heap)@, final(self)@.list) == list_bytes(
                        old(heap)@,
                        list,
                    ) - old(heap)@.size(list[i])
                    &&& final(heap)@.header(list[i]) == old(heap)@.header(list[i])
                } else {
                    &&& r is None
                    &&& final(self)@ == old(self)@
                    &&& final(heap)@ == old(heap)@
                }
            }),
    {
        let ghost before = heap@;
        let ghost list = self@.list;
        let ghost touched = link_set(ptr);
        proof {
            before.lemma_kept_refl(touched);
            lemma_accounted_same(before, list, before);
        }
        match ptr {
            Some(p) => {
                let ghost j = list.index_of(p as int);
                proof {
                    assert(before.is_free(list[j]));
                    assert(link_ok(before, list, j));
                    if j + 1 < list.len() {
                        assert(before.is_free(list[j + 1]));
                        before.lemma_block(list[j + 1]);
                    }
                }
                let mut our: GCHeapBlockHeader = heap.header(p);
                let old_next: usize = match our.next_free {
                    None => {
                        return None;
                    },
                    Some(next) => next,
                };
                proof {
                    assert(list[j + 1] == old_next);
                    assert(before.is_free(list[j + 1]));
                    assert(link_ok(before, list, j + 1));
                    before.lemma_block(old_next as int);
                }
                let new_next: Option<usize> = heap.header(old_next).next_free;
                our.next_free = new_next;
                proof {
                    before.lemma_with_header_wf(p as int, our);
                    before.lemma_kept_with_header(p as int, our, touched);
                }
                heap.set_header(p, &our);
                proof {
                    let after = heap@;
                    assert(list[j] != list[j + 1]);
                    assert forall|k: int|
                        #![trigger list[k]]
                        0 <= k < list.len() && k != j + 1 && k != j implies after.is_block(list[k])
                        && after.header(list[k]) == before.header(list[k]) by {
                        assert(before.is_free(list[k]));
                    }
                    assert(after.header(list[j + 1]) == before.header(list[j + 1])) by {
                        assert(before.is_block(list[j + 1]));
                    }
                    lemma_remove(
                        before,
                        after,
                        self.free_list_head,
                        self.free_list_head,
                        list,
                        j + 1,
                    );
                    self.free_list@ = list.remove(j + 1);
                    lemma_accounted_remove(before, after, list, j + 1);
                }
                Some(old_next)
            },
            None => {
                let old_head: usize = match self.free_list_head {
                    None => {
                        return None;
                    },
                    Some(next) => next,
                };
                proof {
                    assert(list.len() > 0);
                    assert(before.is_free(list[0]));
                    before.lemma_block(list[0]);
                }
                let new_next: Option<usize> = heap.header(old_head).next_free;
                proof {
                    assert forall|k: int|
                        #![trigger list[k]]
                        0 <= k < list.len() && k != 0 && k != -1 implies before.is_block(list[k])
                        && before.header(list[k]) == before.header(list[k]) by {
                        assert(before.is_free(list[k]));
                    }
                    lemma_remove(before, before, self.free_list_head, new_next, list, 0);
                    self.free_list@ = list.remove(0);
                    lemma_accounted_remove(before, before, list, 0);
                }
                self.free_list_head = new_next;
                Some(old_head)
            },
        }
    }
}

impl TLAllocator {
    /// Tries to make the block at `current`, which is the `idx`-th of the free
    /// list, fit a request. Returns the block to hand out, which is on the
    /// free list at `idx` or directly behind; or none, with nothing changed,
    /// where the block does not fit.
    #[verifier::spinoff_prover]
    fn fit_step(
        &mut self,
        heap: &mut Heap,
        current: usize,
        size: usize,
        align: usize,
        Ghost(idx): Ghost<int>,
    ) -> (r: Option<usize>)
        requires
            old(heap)@.wf(),
            old(self)@.wf(old(heap)@),
            0 <= idx < old(self)@.list.len(),
            old(self)@.list[idx] == current,
            size > 0,
            is_power_of_two(align as int),
        ensures
            final(heap)@.wf(),
            final(self)@.wf(final(heap)@),
            old(heap)@.kept(final(heap)@, set![current as int]),
            accounted(old(heap)@, old(self)@.list, final(heap)@, final(self)@.list, None),
            final(heap)@ == old(heap)@.fitted(current as int, size as int, align as int),
            final(heap)@.region == old(heap)@.region,
            final(self)@.list == if r is Some {
                fitted_list(old(heap)@, old(self)@.list, idx, size as int, align as int)
            } else {
                old(self)@.list
            },
            final(self)@.regions == old(self)@.regions,
            final(self)@.head == old(self)@.head,
            balanced(old(heap)@, old(self)@.free_bytes, final(heap)@, final(self)@.free_bytes, 0),
            list_from(old(heap)@, old(self)@.list, final(self)@.list),
            match r {
                Some(block) => {
                    &&& old(heap)@.fitting(current as int, size as int, align as int) is Ok
                    &&& block == old(heap)@.fitted_block(current as int, size as int, align as int)
                    &&& final(self)@.list[idx] == current
                    &&& block != current
                        ==> idx + 1 < final(self)@.list.len() && final(self)@.list[idx + 1] == block
                    &&& final(heap)@.size(block as int) >= size
                    &&& (block + 32) % (align as int) == 0
                },
                None => {
                    &&& old(heap)@.fitting(current as int, size as int, align as int) is Err
                    &&& final(self)@ == old(self)@
                },
            },
    {
        let ghost before = heap@;
        let ghost list = self@.list;
        proof {
            assert(before.is_free(list[idx]));
            before.lemma_kept_refl(set![current as int]);
            assert forall|i: int| #![trigger list[i]] 0 <= i < list.len() implies list.contains(
                list[i],
            ) || !before.is_block(list[i]) by {
                assert(list.contains(list[i]));
            }
            lemma_accounted_same(before, list, before);
        }
        match heap.shrink_to_fit(current, size, align) {
            Ok((block, new_header_bytes)) => {
                proof {
                    lemma_fit_list(
                        before,
                        self.free_list_head,
                        list,
                        idx,
                        size as int,
                        align as int,
                    );
                    let then_list = fitted_list(before, list, idx, size as int, align as int);
                    self.free_list@ = then_list;
                    assert forall|i: int|
                        #![trigger then_list[i]]
                        0 <= i < then_list.len() implies list.contains(then_list[i])
                        || !before.is_block(then_list[i]) by {
                        if before.fitted_rest(current as int, size as int, align as int) is Some {
                            if i <= idx {
                                assert(then_list[i] == list[i]);
                                assert(list.contains(list[i]));
                            } else if i > idx + 1 {
                                assert(then_list[i] == list[i - 1]);
                                assert(list.contains(list[i - 1]));
                            }
                        } else {
                            assert(list.contains(list[i]));
                        }
                    }
                    assert(balanced(
                        before,
                        self@.free_bytes,
                        heap@,
                        self@.free_bytes - new_header_bytes,
                        0,
                    )) by {
                        match before.fitted_rest(current as int, size as int, align as int) {
                            Some(n) => {
                                before.lemma_split_mem(current as int, n - 32 - current);
                            },
                            None => {},
                        }
                    }
                    assert(accounted(before, list, heap@, then_list, None)) by {
                        let after = heap@;
                        match before.fitted_rest(current as int, size as int, align as int) {
                            Some(n) => {
                                let keep = n - 32 - current;
                                before.lemma_fitted(current as int, size as int, align as int);
                                before.lemma_split_wf(current as int, keep);
                                assert forall|c: int| #[trigger] after.is_block(c) implies then_list.contains(
                                    c,
                                ) || (before.is_block(c) && !list.contains(c)) by {
                                    if c == n {
                                        assert(then_list[idx + 1] == c);
                                    } else if list.contains(c) {
                                        let k = list.index_of(c);
                                        if k <= idx {
                                            assert(then_list[k] == c);
                                        } else {
                                            assert(then_list[k + 1] == c);
                                        }
                                    }
                                }
                            },
                            None => {},
                        }
                    }
                    assert(list_bytes(heap@, then_list) >= 0) by {
                        assert forall|j: int|
                            #![trigger then_list[j]]
                            0 <= j < then_list.len() implies heap@.is_block(then_list[j]) by {
                            assert(heap@.is_free(then_list[j]));
                        }
                        lemma_bytes_positive(heap@, then_list);
                    }
                }
                // a header that was split off is no free memory any more
                self.num_free_bytes = self.num_free_bytes - new_header_bytes;
                Some(block)
            },
            Err(_) => None,
        }
    }

    /// Goes on from the block at `current`, the `idx`-th of the free list, to
    /// the block behind it. Where `current` is the last, the heap is expanded
    /// for a request of `size` bytes, and the new block goes behind it.
    #[verifier::spinoff_prover]
    fn next_or_expand(
        &mut self,
        heap: &mut Heap,
        current: usize,
        size: usize,
        Ghost(idx): Ghost<int>,
        Ghost(align): Ghost<int>,
    ) -> (r: Result<usize, GCAllocatorError>)
        requires
            old(heap)@.wf(),
            old(self)@.wf(old(heap)@),
            0 <= idx < old(self)@.list.len(),
            old(self)@.list[idx] == current,
            forall|j: int|
                #![trigger old(self)@.list[j]]
                0 <= j <= idx ==> old(heap)@.fitting(old(self)@.list[j], size as int, align) is Err,
        ensures
            final(heap)@.wf(),
            final(self)@.wf(final(heap)@),
            old(heap)@.kept(final(heap)@, set![current as int]),
            accounted(old(heap)@, old(self)@.list, final(heap)@, final(self)@.list, None),
            balanced(old(heap)@, old(self)@.free_bytes, final(heap)@, final(self)@.free_bytes, 0),
            list_from(old(heap)@, old(self)@.list, final(self)@.list),
            final(heap)@.region.length >= old(heap)@.region.length,
            match r {
                Ok(next) => {
                    &&& idx + 1 < final(self)@.list.len()
                    &&& final(self)@.list[idx] == current
                    &&& final(self)@.list[idx + 1] == next
                    &&& final(self)@.list.len() >= old(self)@.list.len()
                    &&& final(heap)@.region.length == old(heap)@.region.length ==> final(heap)@
                        == old(heap)@ && final(self)@ == old(self)@
                    &&& final(heap)@.region.length != old(heap)@.region.length
                        ==> next == old(heap)@.end() && idx + 2 == final(self)@.list.len()
                            && idx + 1 == old(self)@.list.len()
                    &&& final(heap)@.region.length != old(heap)@.region.length ==> final(heap)@
                        == expanded(
                        old(heap)@,
                        old(self)@.head,
                        Some(current),
                        pages_for(size as int) * 4096,
                        final(heap)@.region.committed,
                    ) && final(self)@.list == old(self)@.list.push(old(heap)@.end())
                        && final(self)@.regions == old(self)@.regions.push(
                        (old(heap)@.end() as usize, (pages_for(size as int) * 4096) as usize),
                    )
                    &&& final(heap)@.region.length != old(heap)@.region.length
                        ==> final(heap)@.region.committed == old(heap)@.grown_committed(
                        pages_for(size as int) * 4096,
                    )
                    &&& final(heap)@.region.length != old(heap)@.region.length && size > 0
                        && is_power_of_two(align) && align <= 16 ==> final(heap)@.fitting(
                        final(self)@.list.last(),
                        size as int,
                        align,
                    ) is Ok
                    &&& forall|j: int|
                        #![trigger final(self)@.list[j]]
                        0 <= j <= idx ==> final(heap)@.fitting(
                            final(self)@.list[j],
                            size as int,
                            align,
                        ) is Err
                },
                Err(e) => {
                    &&& e == GCAllocatorError::OutOfMemory
                    &&& final(heap)@ == old(heap)@
                    &&& final(self)@ == old(self)@
                    &&& idx + 1 == old(self)@.list.len()
                    &&& old(heap)@.region.length + pages_for(size as int) * 4096 > old(heap)@.region.reserved
                },
            },
    {
        let ghost before = heap@;
        let ghost list = self@.list;
        proof {
            assert(before.is_free(list[idx]));
            assert(link_ok(before, list, idx));
            before.lemma_kept_refl(set![current as int]);
            lemma_accounted_same(before, list, before);
            if idx + 1 < list.len() {
                assert(before.is_free(list[idx + 1]));
                before.lemma_block(list[idx + 1]);
            }
            assert forall|i: int| #![trigger list[i]] 0 <= i < list.len() implies list.contains(
                list[i],
            ) || !before.is_block(list[i]) by {
                assert(list.contains(list[i]));
            }
        }
        match heap.header(current).next_free {
            Some(ptr) => Ok(ptr),
            None => {
                // the end of the list is reached with nothing found: add more memory
                let n: usize = match self.expand_by(heap, size, Some(current)) {
                    Ok(n) => n,
                    Err(e) => {
                        return Err(e);
                    },
                };
                proof {
                    lemma_after_expand(
                        before,
                        heap@,
                        self.free_list_head,
                        list,
                        size as int,
                        align,
                    );
                }
                Ok(n)
            },
        }
    }

    /// Takes the block at `current`, the `idx`-th of the free list, which
    /// stands behind `previous`, off the list and marks it allocated.
    #[verifier::spinoff_prover]
    fn take_block(
        &mut self,
        heap: &mut Heap,
        previous: Option<usize>,
        current: usize,
        Ghost(idx): Ghost<int>,
    )
        requires
            old(heap)@.wf(),
            old(self)@.wf(old(heap)@),
            0 <= idx < old(self)@.list.len(),
            old(self)@.list[idx] == current,
            previous == if idx > 0 {
                Some(old(self)@.list[idx - 1] as usize)
            } else {
                None
            },
        ensures
            final(heap)@.wf(),
            final(self)@.wf(final(heap)@),
            old(heap)@.kept(final(heap)@, old(self)@.list.to_set()),
            accounted(
                old(heap)@,
                old(self)@.list,
                final(heap)@,
                final(self)@.list,
                Some(current as int),
            ),
            final(heap)@ == taken(old(heap)@, old(self)@.list, idx),
            final(self)@.list == old(self)@.list.remove(idx),
            final(self)@.regions == old(self)@.regions,
            final(self)@.free_bytes == old(self)@.free_bytes - old(heap)@.size(current as int),
            final(heap)@.blocks == old(heap)@.blocks,
            !final(self)@.list.contains(current as int),
            final(heap)@.is_allocated(current as int),
            final(heap)@.size(current as int) == old(heap)@.size(current as int),
            final(heap)@.thunk(current as int) == 0,
            final(heap)@.region == old(heap)@.region,
    {
        let ghost before = heap@;
        let ghost list = self@.list;
        let ghost touched = list.to_set();
        proof {
            if idx > 0 {
                lemma_index_of(list, idx - 1);
                assert(list.contains(list[idx - 1]));
                assert(before.is_free(list[idx - 1]));
                before.lemma_block(list[idx - 1]);
            }
            assert(list.contains(list[idx]));
            assert(before.is_free(list[idx]));
            before.lemma_block(list[idx]);
        }
        // pop out the block from the linked list
        let popped_block: Option<usize> = self.pop_next(heap, previous);
        assert(popped_block == Some(current));
        let ghost popped = heap@;
        let ghost then_list = self@.list;
        // Mark the block as allocated (which also sets `next` to `None`)
        let mut header: GCHeapBlockHeader = heap.header(current);
        header.set_allocated();
        proof {
            popped.lemma_with_header_wf(current as int, header);
            popped.lemma_kept_with_header(current as int, header, set![current as int]);
            popped.lemma_block(current as int);
            assert forall|j: int|
                #![trigger then_list[j]]
                0 <= j < then_list.len() implies popped.is_block(then_list[j]) by {
                assert(popped.is_free(then_list[j]));
            }
            lemma_bytes_positive(popped, then_list);
        }
        heap.set_header(current, &header);
        self.num_free_bytes = self.num_free_bytes - header.size;
        proof {
            let after = heap@;
            assert(!then_list.contains(current as int)) by {
                if then_list.contains(current as int) {
                    let k = then_list.index_of(current as int);
                    let k0 = if k < idx {
                        k
                    } else {
                        k + 1
                    };
                    assert(then_list[k] == list[k0]);
                }
            }
            assert forall|i: int|
                #![trigger then_list[i]]
                0 <= i < then_list.len() implies after.is_block(then_list[i]) && after.header(
                then_list[i],
            ) == popped.header(then_list[i]) by {
                assert(popped.is_free(then_list[i]));
                assert(then_list.contains(then_list[i]));
            }
            lemma_free_list_frame(popped, after, self.free_list_head, then_list);
            assert(before.kept(after, touched)) by {
                before.lemma_kept_refl(touched);
                before.lemma_kept_trans(before, popped, touched, link_set(previous));
                before.lemma_kept_trans(popped, after, touched, set![current as int]);
            }
            assert(after.blocks == before.blocks);
            lemma_accounted_remove(before, after, list, idx);
        }
    }

    /// Finds a block to fit a request for `size` bytes aligned to `align`,
    /// takes it off the free list and marks it allocated.
    ///
    /// The free list is walked from its head, and the first block that can be
    /// made to fit is taken. Where the walk reaches the end, the heap is
    /// expanded, the new block goes to the end of the list, and the walk goes
    /// on with it.
    #[verifier::spinoff_prover]
    #[verifier::rlimit(100)]
    fn find_good_block(&mut self, heap: &mut Heap, size: usize, align: usize) -> (r: Result<
        usize,
        GCAllocatorError,
    >)
        requires
            old(heap)@.wf(),
            old(self)@.wf(old(heap)@),
            old(self)@.list.len() > 0,
            size > 0,
            is_power_of_two(align as int),
        ensures
            final(heap)@.wf(),
            final(self)@.wf(final(heap)@),
            old(heap)@.kept(final(heap)@, old(self)@.list.to_set()),
            list_from(old(heap)@, old(self)@.list, final(self)@.list),
            accounted(
                old(heap)@,
                old(self)@.list,
                final(heap)@,
                final(self)@.list,
                match r {
                    Ok(block) => Some(block as int),
                    Err(_) => None,
                },
            ),
            match r {
                Ok(block) => {
                    &&& old(self)@.list.contains(block as int) || !old(heap)@.is_block(block as int)
                    &&& final(heap)@.is_allocated(block as int)
                    &&& final(heap)@.size(block as int) >= size
                    &&& (block + 32) % (align as int) == 0
                    &&& final(heap)@.thunk(block as int) == 0
                    &&& !final(self)@.list.contains(block as int)
                    &&& balanced(
                        old(heap)@,
                        old(self)@.free_bytes,
                        final(heap)@,
                        final(self)@.free_bytes,
                        final(heap)@.size(block as int),
                    )
                    &&& align <= 16 ==> block == walked_block(
                        old(heap)@,
                        old(self)@.list,
                        size as int,
                        align as int,
                    )
                    &&& align <= 16 ==> final(heap)@ == walked_heap(
                        old(heap)@,
                        old(self)@,
                        size as int,
                        align as int,
                        final(heap)@.region.committed,
                    )
                    &&& align <= 16 ==> final(self)@.list == walked_list(
                        old(heap)@,
                        old(self)@,
                        size as int,
                        align as int,
                        final(heap)@.region.committed,
                    )
                    &&& align <= 16 ==> final(self)@.regions == walked_regions(
                        old(heap)@,
                        old(self)@,
                        size as int,
                        align as int,
                    )
                    &&& align <= 16 ==> final(heap)@.region.committed == walk_committed(
                        old(heap)@,
                        old(self)@,
                        size as int,
                        align as int,
                    )
                },
                Err(e) => {
                    &&& e == GCAllocatorError::OutOfMemory
                    &&& final(heap)@.region.length + pages_for(size as int) * 4096
                        > final(heap)@.region.reserved
                    &&& none_fits(final(heap)@, final(self)@.list, size as int, align as int)
                    &&& align <= 16 ==> final(heap)@ == old(heap)@ && final(self)@ == old(self)@
                },
            },
    {
        let ghost first = heap@;
        let ghost first_list = self@.list;
        let ghost touched = first_list.to_set();
        // traverse the free list, looking for a block that can handle this layout
        let mut previous: Option<usize> = None;
        let mut current: usize = match self.free_list_head {
            Some(c) => c,
            None => {
                return Err(GCAllocatorError::OutOfMemory);
            },
        };
        let ghost mut idx: int = 0;
        let mut found: bool = false;
        proof {
            first.lemma_kept_refl(touched);
            lemma_accounted_same(first, first_list, first);
            assert(first.is_free(first_list[0]));
            first.lemma_block(first_list[0]);
            assert forall|i: int|
                #![trigger first_list[i]]
                0 <= i < first_list.len() implies first_list.contains(first_list[i])
                || !first.is_block(first_list[i]) by {
                assert(first_list.contains(first_list[i]));
            }
        }
        while !found
            invariant
                heap@.wf(),
                self@.wf(heap@),
                size > 0,
                is_power_of_two(align as int),
                first == old(heap)@,
                first_list == old(self)@.list,
                !found && align <= 16 ==> (heap@ == first && self@ == old(self)@) || (heap@.fitting(
                    self@.list.last(),
                    size as int,
                    align as int,
                ) is Ok && self@.list.last() == first.end() && idx + 1 == self@.list.len()
                    && first_fit(
                    first,
                    first_list,
                    size as int,
                    align as int,
                    first_list.len() as int,
                ) == first_list.len() && heap@.data(first.end()) % 16 == 0 && heap@ == walk_base(
                    first,
                    old(self)@,
                    size as int,
                    align as int,
                    heap@.region.committed,
                ) && heap@.region.committed == first.grown_committed(pages_for(size as int) * 4096)
                    && self@.list == first_list.push(first.end()) && self@.regions == old(self)@.regions.push(
                    (first.end() as usize, (pages_for(size as int) * 4096) as usize),
                )),
                found && align <= 16 ==> current == walked_block(
                    first,
                    first_list,
                    size as int,
                    align as int,
                ),
                found && align <= 16 ==> {
                    let base = walk_base(
                        first,
                        old(self)@,
                        size as int,
                        align as int,
                        heap@.region.committed,
                    );
                    let list = walk_list(first, old(self)@, size as int, align as int);
                    &&& idx == first_fit(
                        first,
                        first_list,
                        size as int,
                        align as int,
                        first_list.len() as int,
                    )
                    &&& list[idx] == current
                    &&& heap@ == base.fitted(current as int, size as int, align as int)
                    &&& self@.list == fitted_list(base, list, idx, size as int, align as int)
                    &&& self@.regions == walked_regions(
                        first,
                        old(self)@,
                        size as int,
                        align as int,
                    )
                    &&& heap@.region.committed == walk_committed(
                        first,
                        old(self)@,
                        size as int,
                        align as int,
                    )
                },
                touched == first_list.to_set(),
                first.kept(heap@, touched),
                list_from(first, first_list, self@.list),
                accounted(first, first_list, heap@, self@.list, None),
                balanced(first, old(self)@.free_bytes, heap@, self@.free_bytes, 0),
                0 <= idx < self@.list.len(),
                self@.list[idx] == current,
                previous == if idx > 0 {
                    Some(self@.list[idx - 1] as usize)
                } else {
                    None
                },
                !found ==> forall|j: int|
                    #![trigger self@.list[j]]
                    0 <= j < idx ==> heap@.fitting(self@.list[j], size as int, align as int) is Err,
                found ==> heap@.size(current as int) >= size && (current + 32) % (align as int) == 0,
            decreases
                    heap@.region.reserved - heap@.region.length,
                    if found {
                        0
                    } else {
                        self@.list.len() - idx + 1
                    },
        {
            let ghost before = heap@;
            let ghost list = self@.list;
            let ghost examined = current;
            proof {
                assert(before.is_free(list[idx]));
                before.lemma_block(current as int);
            }
            // see if the block can fit `layout` into it
            match self.fit_step(heap, current, size, align, Ghost(idx)) {
                Some(block) => {
                    proof {
                        if align <= 16 {
                            let committed = heap@.region.committed;
                            let base = walk_base(
                                first,
                                old(self)@,
                                size as int,
                                align as int,
                                committed,
                            );
                            let through = walk_list(first, old(self)@, size as int, align as int);
                            if before == first && list == first_list {
                                lemma_walk_found(first, first_list, size as int, align as int, idx);
                                assert(base == before) by {
                                    reveal(walk_base);
                                }
                                assert(through == list);
                            } else {
                                lemma_fitted_in_place(
                                    before,
                                    current as int,
                                    size as int,
                                    align as int,
                                );
                                assert(idx == first_list.len());
                                assert(committed == before.region.committed);
                                assert(base == before);
                                assert(through == list);
                            }
                            assert(block == current);
                        }
                    }
                    // where a block was split off from the beginning, it follows `current`
                    if current != block {
                        previous = Some(current);
                        current = block;
                        proof {
                            idx = idx + 1;
                        }
                    }
                    // either way, a block is found
                    found = true;
                },
                None => {
                    // that block does not fit: go to the next one
                    previous = Some(current);
                    match self.next_or_expand(heap, current, size, Ghost(idx), Ghost(align as int)) {
                        Ok(next) => {
                            current = next;
                            proof {
                                if align <= 16 {
                                    assert(before == first && list == first_list);
                                }
                                if align <= 16 && heap@.region.length != before.region.length {
                                    lemma_walk_none(first, first_list, size as int, align as int);
                                    crate::gc::layout::lemma_header_words_aligned(first.end());
                                    assert(examined == first_list.last());
                                    assert(heap@ == walk_base(
                                        first,
                                        old(self)@,
                                        size as int,
                                        align as int,
                                        heap@.region.committed,
                                    )) by {
                                        reveal(walk_base);
                                    }
                                }
                            }
                        },
                        Err(e) => {
                            proof {
                                assert forall|j: int|
                                    #![trigger list[j]]
                                    0 <= j < list.len() implies before.fitting(
                                    list[j],
                                    size as int,
                                    align as int,
                                ) is Err by {}
                            }
                            return Err(e);
                        },
                    }
                    proof {
                        idx = idx + 1;
                    }
                },
            }
            assert(first.kept(heap@, touched)) by {
                lemma_list_from_touched(first, first_list, list, set![examined as int]);
                first.lemma_kept_trans(before, heap@, touched, set![examined as int]);
            }
            assert(list_from(first, first_list, self@.list)) by {
                lemma_list_from_trans(first, before, first_list, list, self@.list);
            }
            assert(accounted(first, first_list, heap@, self@.list, None)) by {
                lemma_accounted_trans(first, first_list, before, list, heap@, self@.list, None);
            }
        }
        let ghost walked = heap@;
        let ghost list = self@.list;
        self.take_block(heap, previous, current, Ghost(idx));
        assert(first.kept(heap@, touched)) by {
            lemma_list_from_touched(first, first_list, list, list.to_set());
            first.lemma_kept_trans(walked, heap@, touched, list.to_set());
        }
        assert(list_from(first, first_list, self@.list)) by {
            let then_list = self@.list;
            assert forall|i: int|
                #![trigger then_list[i]]
                0 <= i < then_list.len() implies first_list.contains(then_list[i])
                || !first.is_block(then_list[i]) by {
                let i0 = if i < idx {
                    i
                } else {
                    i + 1
                };
                assert(then_list[i] == list[i0]);
            }
        }
        assert(first_list.contains(current as int) || !first.is_block(current as int)) by {
            assert(list[idx] == current);
        }
        assert(accounted(first, first_list, heap@, self@.list, Some(current as int))) by {
            lemma_accounted_trans(
                first,
                first_list,
                walked,
                list,
                heap@,
                self@.list,
                Some(current as int),
            );
        }
        Ok(current)
    }
}

/// Whether the heap serves requests for the alignment `align`: a power of two
/// that is no greater than sixteen.
pub open spec fn alignment_supported(align: int) -> bool {
    is_power_of_two(align) && align <= 16
}

impl TLAllocator {
    /// Allocates at least `size` bytes with alignment of at least `align`.
    /// Returns the header of the block that was allocated, and its data: the
    /// address and the length.
    ///
    /// A request for no bytes, or for an alignment that the heap does not
    /// serve, is refused with nothing changed. Otherwise the request fails
    /// only where, in the heap as it is left, no block of the free list fits
    /// and the region cannot grow by what the request needs; the heap has
    /// then grown by that much at most.
    #[verifier::spinoff_prover]
    pub fn raw_allocate(&mut self, heap: &mut Heap, size: usize, align: usize) -> (r: Result<
        (usize, (usize, usize)),
        GCAllocatorError,
    >)
        requires
            old(heap)@.wf(),
            old(self)@.wf(old(heap)@),
        ensures
            final(heap)@.wf(),
            final(self)@.wf(final(heap)@),
            old(heap)@.kept(final(heap)@, old(self)@.list.to_set()),
            list_from(old(heap)@, old(self)@.list, final(self)@.list),
            accounted(
                old(heap)@,
                old(self)@.list,
                final(heap)@,
                final(self)@.list,
                match r {
                    Ok((block, _)) => Some(block as int),
                    Err(_) => None,
                },
            ),
            size == 0 ==> r == Err::<(usize, (usize, usize)), GCAllocatorError>(
                GCAllocatorError::ZeroSized,
            ),
            size > 0 && !alignment_supported(align as int) ==> r == Err::<
                (usize, (usize, usize)),
                GCAllocatorError,
            >(GCAllocatorError::BadAlignment),
            size == 0 || !alignment_supported(align as int)
                ==> final(heap)@ == old(heap)@ && final(self)@ == old(self)@,
            r is Ok <==> size > 0 && alignment_supported(align as int) && can_allocate(
                old(heap)@,
                old(self)@,
                size as int,
                align as int,
            ),
            size > 0 && alignment_supported(align as int) ==> match r {
                Ok((block, (data, len))) => {
                    &&& block == allocated_block(old(heap)@, old(self)@, size as int, align as int)
                    &&& final(heap)@ == allocated_heap(
                        old(heap)@,
                        old(self)@,
                        size as int,
                        align as int,
                    )
                    &&& final(self)@.list == allocated_list(
                        old(heap)@,
                        old(self)@,
                        size as int,
                        align as int,
                    )
                    &&& final(self)@.regions == allocated_regions(
                        old(heap)@,
                        old(self)@,
                        size as int,
                        align as int,
                    )
                    &&& balanced(
                        old(heap)@,
                        old(self)@.free_bytes,
                        final(heap)@,
                        final(self)@.free_bytes,
                        len as int,
                    )
                    &&& old(self)@.list.contains(block as int) || !old(heap)@.is_block(block as int)
                    &&& final(heap)@.is_allocated(block as int)
                    &&& !final(self)@.list.contains(block as int)
                    &&& final(heap)@.thunk(block as int) == 0
                    &&& data == block + 32
                    &&& data % align == 0
                    &&& len == final(heap)@.size(block as int)
                    &&& len >= size
                },
                Err(e) => {
                    &&& e == GCAllocatorError::OutOfMemory
                    &&& final(heap)@.region.length + pages_for(size as int) * 4096
                        > final(heap)@.region.reserved
                    &&& final(heap)@.region.length <= old(heap)@.region.length + pages_for(
                        size as int,
                    ) * 4096
                    &&& none_fits(final(heap)@, final(self)@.list, size as int, align as int)
                },
            },
    {
        proof {
            old(heap)@.lemma_kept_refl(old(self)@.list.to_set());
            lemma_list_from_refl(old(heap)@, old(self)@.list);
            lemma_accounted_same(old(heap)@, old(self)@.list, old(heap)@);
        }
        if size == 0 {
            return Err(GCAllocatorError::ZeroSized);
        }
        if align > MAX_ALIGN || !check_power_of_two(align) {
            return Err(GCAllocatorError::BadAlignment);
        }
        let ghost first = heap@;
        let ghost first_list = self@.list;
        // get more memory if needed
        if self.free_bytes() < size {
            match self.expand_by(heap, size, None) {
                Ok(_) => {},
                Err(e) => {
                    proof {
                        self@.lemma_free_bytes_bound(first);
                        lemma_too_small(first, first_list, size as int, align as int);
                    }
                    return Err(e);
                },
            }
        }
        let ghost expanded_heap = heap@;
        let ghost expanded_list = self@.list;
        proof {
            if old(self)@.free_bytes < size {
                lemma_small_powers_of_two(align as int);
                lemma_walk_expanded(first, old(self)@, expanded_heap, size as int, align as int);
            }
            self@.lemma_free_bytes_bound(expanded_heap);
            assert forall|i: int|
                #![trigger expanded_list[i]]
                0 <= i < expanded_list.len() implies first_list.contains(expanded_list[i])
                || !first.is_block(expanded_list[i]) by {
                if expanded_list != first_list {
                    if i > 0 {
                        assert(expanded_list[i] == first_list[i - 1]);
                    } else {
                        if first.is_block(expanded_list[0]) {
                            first.lemma_block(expanded_list[0]);
                        }
                    }
                }
            }
        }
        let found = self.find_good_block(heap, size, align);
        proof {
            lemma_walk_succeeds(
                expanded_heap,
                expanded_list,
                heap@,
                match found {
                    Ok(block) => Some(block as int),
                    Err(_) => None,
                },
                size as int,
                align as int,
            );
            lemma_accounted_trans(
                first,
                first_list,
                expanded_heap,
                expanded_list,
                heap@,
                self@.list,
                match found {
                    Ok(block) => Some(block as int),
                    Err(_) => None,
                },
            );
        }
        let block: usize = match found {
            Ok(b) => b,
            Err(e) => {
                return Err(e);
            },
        };
        proof {
            let after = heap@;
            assert(first.kept(after, first_list.to_set())) by {
                lemma_list_from_touched(
                    first,
                    first_list,
                    expanded_list,
                    expanded_list.to_set(),
                );
                first.lemma_kept_trans(
                    expanded_heap,
                    after,
                    first_list.to_set(),
                    expanded_list.to_set(),
                );
            }
            assert(list_from(first, first_list, self@.list)) by {
                lemma_list_from_trans(
                    first,
                    expanded_heap,
                    first_list,
                    expanded_list,
                    self@.list,
                );
            }
            assert(first_list.contains(block as int) || !first.is_block(block as int)) by {
                if expanded_list.contains(block as int) {
                    let k = expanded_list.index_of(block as int);
                    assert(first_list.contains(expanded_list[k]) || !first.is_block(
                        expanded_list[k],
                    ));
                }
            }
            after.lemma_block(block as int);
        }
        let data: (usize, usize) = heap.header(block).data(block);
        Ok((block, data))
    }

    /// Allocates as `raw_allocate` does, and gives the block the destructor
    /// `drop_in_place`. Returns the data of the block.
    #[verifier::spinoff_prover]
    pub fn raw_allocate_with_drop(
        &mut self,
        heap: &mut Heap,
        size: usize,
        align: usize,
        drop_in_place: Option<usize>,
    ) -> (r: Result<(usize, usize), GCAllocatorError>)
        requires
            old(heap)@.wf(),
            old(self)@.wf(old(heap)@),
            drop_in_place != Some(0usize),
        ensures
            final(heap)@.wf(),
            final(self)@.wf(final(heap)@),
            old(heap)@.kept(final(heap)@, old(self)@.list.to_set()),
            list_from(old(heap)@, old(self)@.list, final(self)@.list),
            accounted(
                old(heap)@,
                old(self)@.list,
                final(heap)@,
                final(self)@.list,
                match r {
                    Ok((data, _)) => Some(data - 32),
                    Err(_) => None,
                },
            ),
            size == 0 ==> r == Err::<(usize, usize), GCAllocatorError>(GCAllocatorError::ZeroSized),
            size > 0 && !alignment_supported(align as int) ==> r == Err::<
                (usize, usize),
                GCAllocatorError,
            >(GCAllocatorError::BadAlignment),
            size == 0 || !alignment_supported(align as int)
                ==> final(heap)@ == old(heap)@ && final(self)@ == old(self)@,
            r is Ok <==> size > 0 && alignment_supported(align as int) && can_allocate(
                old(heap)@,
                old(self)@,
                size as int,
                align as int,
            ),
            size > 0 && alignment_supported(align as int) ==> match r {
                Ok((data, len)) => {
                    let block = data - 32;
                    &&& block == allocated_block(old(heap)@, old(self)@, size as int, align as int)
                    &&& final(heap)@ == allocated_with(
                        old(heap)@,
                        old(self)@,
                        size as int,
                        align as int,
                        drop_in_place,
                    )
                    &&& final(self)@.list == allocated_list(
                        old(heap)@,
                        old(self)@,
                        size as int,
                        align as int,
                    )
                    &&& final(self)@.regions == allocated_regions(
                        old(heap)@,
                        old(self)@,
                        size as int,
                        align as int,
                    )
                    &&& old(self)@.list.contains(block) || !old(heap)@.is_block(block)
                    &&& final(heap)@.is_allocated(block)
                    &&& !final(self)@.list.contains(block)
                    &&& final(heap)@.header(block).drop_thunk == drop_in_place
                    &&& data % align == 0
                    &&& len == final(heap)@.size(block)
                    &&& len >= size
                },
                Err(e) => {
                    &&& e == GCAllocatorError::OutOfMemory
                    &&& final(heap)@.region.length + pages_for(size as int) * 4096
                        > final(heap)@.region.reserved
                    &&& final(heap)@.region.length <= old(heap)@.region.length + pages_for(
                        size as int,
                    ) * 4096
                    &&& none_fits(final(heap)@, final(self)@.list, size as int, align as int)
                },
            },
    {
        let (block, data): (usize, (usize, usize)) = match self.raw_allocate(heap, size, align) {
            Ok(found) => found,
            Err(e) => {
                return Err(e);
            },
        };
        let ghost allocated = heap@;
        let ghost list = self@.list;
        let mut header: GCHeapBlockHeader = heap.header(block);
        header.drop_thunk = drop_in_place;
        proof {
            allocated.lemma_with_header_wf(block as int, header);
            allocated.lemma_kept_with_header(block as int, header, set![block as int]);
        }
        heap.set_header(block, &header);
        proof {
            let after = heap@;
            let first = old(heap)@;
            let first_list = old(self)@.list;
            assert forall|i: int| #![trigger list[i]] 0 <= i < list.len() implies after.is_block(
                list[i],
            ) && after.header(list[i]) == allocated.header(list[i]) by {
                assert(allocated.is_free(list[i]));
                assert(list.contains(list[i]));
            }
            self@.lemma_frame(allocated, after);
            assert(first.kept(after, first_list.to_set())) by {
                first.lemma_kept_trans(allocated, after, first_list.to_set(), set![block as int]);
            }
            assert(after.blocks == allocated.blocks);
            assert forall|c: int| #[trigger] after.is_block(c) implies allocated.is_block(c) by {}
        }
        Ok(data)
    }
}

impl TLAllocator {
    /// Puts a value, given as the words that make it up, into a block of its
    /// own, with the destructor `drop_thunk`, and returns the address of its
    /// data. A value of no words gets no block, and an address outside the
    /// heap.
    #[verifier::spinoff_prover]
    pub fn allocate_for_value(
        &mut self,
        heap: &mut Heap,
        value: &Vec<usize>,
        drop_thunk: Option<usize>,
    ) -> (r: Result<usize, GCAllocatorError>)
        requires
            old(heap)@.wf(),
            old(self)@.wf(old(heap)@),
            drop_thunk != Some(0usize),
            8 * value.len() <= usize::MAX,
        ensures
            final(heap)@.wf(),
            final(self)@.wf(final(heap)@),
            old(heap)@.kept(final(heap)@, old(self)@.list.to_set()),
            list_from(old(heap)@, old(self)@.list, final(self)@.list),
            accounted(
                old(heap)@,
                old(self)@.list,
                final(heap)@,
                final(self)@.list,
                match r {
                    Ok(data) => if value.len() > 0 {
                        Some(data - 32)
                    } else {
                        None
                    },
                    Err(_) => None,
                },
            ),
            value.len() == 0 ==> r == Ok::<usize, GCAllocatorError>(DANGLING)
                && final(heap)@ == old(heap)@ && final(self)@ == old(self)@,
            r is Ok <==> value.len() == 0 || can_allocate(
                old(heap)@,
                old(self)@,
                8 * value.len(),
                8,
            ),
            value.len() > 0 ==> match r {
                Ok(data) => {
                    let block = data - 32;
                    &&& block == allocated_block(old(heap)@, old(self)@, 8 * value.len(), 8)
                    &&& allocated_with(
                        old(heap)@,
                        old(self)@,
                        8 * value.len(),
                        8,
                        drop_thunk,
                    ).written(final(heap)@, block, value@)
                    &&& final(self)@.list == allocated_list(
                        old(heap)@,
                        old(self)@,
                        8 * value.len(),
                        8,
                    )
                    &&& final(self)@.regions == allocated_regions(
                        old(heap)@,
                        old(self)@,
                        8 * value.len(),
                        8,
                    )
                    &&& old(self)@.list.contains(block) || !old(heap)@.is_block(block)
                    &&& final(heap)@.is_allocated(block)
                    &&& !final(self)@.list.contains(block)
                    &&& final(heap)@.header(block).drop_thunk == drop_thunk
                    &&& data % 8 == 0
                    &&& 8 * value.len() <= final(heap)@.size(block)
                    &&& data_words(final(heap)@, block, value.len() as int) == value@
                },
                Err(e) => {
                    &&& e == GCAllocatorError::OutOfMemory
                    &&& final(heap)@.region.length + pages_for(8 * value.len()) * 4096
                        > final(heap)@.region.reserved
                    &&& final(heap)@.region.length <= old(heap)@.region.length + pages_for(
                        8 * value.len(),
                    ) * 4096
                    &&& none_fits(final(heap)@, final(self)@.list, 8 * value.len(), 8)
                },
            },
    {
        let ghost first = heap@;
        let ghost first_list = self@.list;
        if value.len() == 0 {
            proof {
                first.lemma_kept_refl(first_list.to_set());
                lemma_list_from_refl(first, first_list);
                lemma_accounted_same(first, first_list, first);
            }
            return Ok(DANGLING);
        }
        proof {
            lemma_small_powers_of_two(8);
        }
        let (data, _len): (usize, usize) = match self.raw_allocate_with_drop(
            heap,
            8 * value.len(),
            8,
            drop_thunk,
        ) {
            Ok(found) => found,
            Err(e) => {
                return Err(e);
            },
        };
        let ghost allocated = heap@;
        let ghost list = self@.list;
        proof {
            allocated.lemma_block(data - 32);
        }
        let block: usize = data - 32;
        heap.write_words(block, value);
        proof {
            let after = heap@;
            assert forall|i: int| #![trigger list[i]] 0 <= i < list.len() implies after.is_block(
                list[i],
            ) && after.header(list[i]) == allocated.header(list[i]) by {
                assert(allocated.is_free(list[i]));
            }
            self@.lemma_frame(allocated, after);
            assert(first.kept(after, first_list.to_set())) by {
                first.lemma_kept_trans(allocated, after, first_list.to_set(), set![block as int]);
            }
            lemma_header_parts(allocated, after, block as int);
            assert forall|c: int| #[trigger] after.is_block(c) implies allocated.is_block(c) by {}
        }
        Ok(data)
    }
}

} // verus!
