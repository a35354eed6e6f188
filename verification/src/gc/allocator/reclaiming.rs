//! Giving freed blocks back to the free lists: each block goes to the
//! allocator that has the fewest free bytes when its turn comes.

use vstd::prelude::*;

use crate::gc::allocator::{lemma_allocators_kept, GCAllocator, GCAllocatorView};
use crate::gc::tl_allocator::TLAllocatorView;

verus! {

/// The place of the allocator with the fewest free bytes among the first `n`,
/// the first of them where several have as few.
pub open spec fn least_loaded(allocators: Seq<TLAllocatorView>, n: int) -> int
    decreases n,
{
    if n <= 1 {
        0
    } else {
        let m = least_loaded(allocators, n - 1);
        if allocators[n - 1].free_bytes < allocators[m].free_bytes {
            n - 1
        } else {
            m
        }
    }
}

/// The least loaded allocator is one of the allocators, and none has fewer
/// free bytes.
pub proof fn lemma_least_loaded(allocators: Seq<TLAllocatorView>, n: int)
    requires
        1 <= n <= allocators.len(),
    ensures
        0 <= least_loaded(allocators, n) < n,
        forall|a: int|
            0 <= a < n ==> allocators[least_loaded(allocators, n)].free_bytes <= (
            #[trigger] allocators[a]).free_bytes,
    decreases n,
{
    if n > 1 {
        lemma_least_loaded(allocators, n - 1);
    }
}

impl GCAllocatorView {
    /// The allocator after the allocated block at `b` has been given to the
    /// least loaded allocator, at the head of its free list.
    pub open spec fn reclaimed(self, b: int) -> GCAllocatorView {
        let a = least_loaded(self.allocators, self.allocators.len() as int);
        let gets = self.allocators[a];
        GCAllocatorView {
            heap: self.heap.with_header(
                b,
                crate::gc::heap_block_header::GCHeapBlockHeader {
                    next_free: gets.head,
                    flags: 0,
                    drop_thunk: None,
                    ..self.heap.header(b)
                },
            ),
            allocators: self.allocators.update(
                a,
                TLAllocatorView {
                    head: Some(b as usize),
                    free_bytes: gets.free_bytes + self.heap.size(b),
                    list: gets.list.insert(0, b),
                    ..gets
                },
            ),
            ..self
        }
    }

    /// The allocator after the first `n` of `blocks` have been given, one by
    /// one, to the allocator that was the least loaded then.
    pub open spec fn distributed(self, blocks: Seq<usize>, n: int) -> GCAllocatorView
        decreases n,
    {
        if n <= 0 {
            self
        } else {
            self.distributed(blocks, n - 1).reclaimed(blocks[n - 1] as int)
        }
    }
}

impl GCAllocator {
    /// The place of the allocator with the fewest free bytes.
    fn least_loaded(&self) -> (r: usize)
        requires
            self@.allocators.len() > 0,
        ensures
            r == least_loaded(self@.allocators, self@.allocators.len() as int),
            0 <= r < self@.allocators.len(),
    {
        let mut best: usize = 0;
        let mut a: usize = 1;
        proof {
            lemma_least_loaded(self@.allocators, 1);
        }
        while a < self.allocators.len()
            invariant
                1 <= a <= self.allocators.len(),
                self@.allocators.len() == self.allocators.len(),
                0 <= best < a,
                best == least_loaded(self@.allocators, a as int),
            decreases self.allocators.len() - a,
        {
            proof {
                assert(self@.allocators[a as int] == self.allocators@[a as int]@);
                assert(self@.allocators[best as int] == self.allocators@[best as int]@);
            }
            if self.allocators[a].free_bytes() < self.allocators[best].free_bytes() {
                best = a;
            }
            a = a + 1;
        }
        best
    }

    /// Gives the allocated block at `block` to the allocator that has the
    /// fewest free bytes.
    #[verifier::spinoff_prover]
    fn reclaim_to_least_loaded(&mut self, block: usize)
        requires
            old(self)@.wf(),
            old(self)@.heap.is_allocated(block as int),
            !old(self)@.is_given_back(block as int),
        ensures
            final(self)@ == old(self)@.reclaimed(block as int),
            final(self)@.wf(),
            old(self)@.heap.kept(final(self)@.heap, set![block as int]),
            final(self)@.heap.is_free(block as int),
            final(self)@.is_listed(block as int),
            forall|c: int| old(self)@.is_listed(c) ==> final(self)@.is_listed(c),
    {
        let ghost before = self@;
        proof {
            before.heap.lemma_block(block as int);
        }
        let a: usize = self.least_loaded();
        let ghost gets = before.allocators[a as int];
        proof {
            assert(gets.wf(before.heap));
            assert(self.allocators@[a as int]@ == gets);
        }
        self.allocators[a].reclaim_block(&mut self.heap, block);
        proof {
            let after = self@;
            assert(after.allocators =~= before.allocators.update(a as int, after.allocators[a as int]));
            assert(after.allocators[a as int] == (TLAllocatorView {
                head: Some(block),
                free_bytes: gets.free_bytes + before.heap.size(block as int),
                list: gets.list.insert(0, block as int),
                ..gets
            }));
            assert(after == before.reclaimed(block as int));
            let then_list = after.allocators[a as int].list;
            assert forall|i: int|
                #![trigger then_list[i]]
                0 <= i < then_list.len() implies gets.list.contains(then_list[i])
                || !before.heap.is_free(then_list[i]) by {
                if i > 0 {
                    assert(then_list[i] == gets.list[i - 1]);
                    assert(gets.list.contains(gets.list[i - 1]));
                }
            }
            lemma_allocators_kept(before, after, a as int, set![block as int]);
            assert(after.queue_ok()) by {
                assert forall|k: int|
                    #![trigger after.deallocated[k]]
                    0 <= k < after.deallocated.len() implies after.heap.is_allocated(
                    after.deallocated[k].0 - 32,
                ) && after.heap.thunk(after.deallocated[k].0 - 32) == 0 && after.deallocated[k].1
                    <= after.heap.size(after.deallocated[k].0 - 32) by {
                    let c = before.deallocated[k].0 - 32;
                    assert(before.heap.is_allocated(c));
                    assert(before.deallocated[k].0 == c + 32);
                    assert(c != block);
                    assert(before.heap.is_block(c));
                    crate::gc::free_list::lemma_header_parts(before.heap, after.heap, c);
                }
            }
            assert(then_list[0] == block);
            assert(after.allocators[a as int].list.contains(block as int));
            assert forall|c: int| before.is_listed(c) implies after.is_listed(c) by {
                let x = choose|x: int|
                    0 <= x < before.allocators.len() && (
                    #[trigger] before.allocators[x]).list.contains(c);
                if x == a {
                    let i = gets.list.index_of(c);
                    assert(then_list[i + 1] == c);
                    assert(after.allocators[a as int].list.contains(c));
                } else {
                    assert(after.allocators[x] == before.allocators[x]);
                }
            }
        }
    }
}

/// The first `n` blocks of `blocks`, as a set of addresses.
pub open spec fn block_set(blocks: Seq<usize>, n: int) -> Set<int> {
    Set::new(|c: int| exists|k: int| 0 <= k < n && #[trigger] blocks[k] == c)
}

impl GCAllocator {
    /// Gives each of `blocks`, which are allocated, to the allocator that has
    /// the fewest free bytes when its turn comes. The blocks lose their
    /// destructors.
    #[verifier::spinoff_prover]
    pub fn free_blocks(&mut self, blocks: &Vec<usize>)
        requires
            old(self)@.wf(),
            blocks@.no_duplicates(),
            forall|k: int|
                0 <= k < blocks.len() ==> old(self)@.heap.is_allocated(#[trigger] blocks[k] as int)
                    && !old(self)@.is_given_back(blocks[k] as int),
        ensures
            final(self)@ == old(self)@.distributed(blocks@, blocks.len() as int),
            final(self)@.wf(),
            final(self)@.threads == old(self)@.threads,
            final(self)@.deallocated == old(self)@.deallocated,
            final(self)@.cycle == old(self)@.cycle,
            final(self)@.pending == old(self)@.pending,
            final(self)@.heap.blocks == old(self)@.heap.blocks,
            final(self)@.heap.region == old(self)@.heap.region,
            old(self)@.heap.kept(final(self)@.heap, block_set(blocks@, blocks.len() as int)),
            forall|k: int|
                0 <= k < blocks.len() ==> final(self)@.heap.is_free(#[trigger] blocks[k] as int)
                    && final(self)@.is_listed(blocks[k] as int),
            forall|c: int| old(self)@.is_listed(c) ==> final(self)@.is_listed(c),
    {
        let ghost first = self@;
        let mut i: usize = 0;
        proof {
            first.heap.lemma_kept_refl(block_set(blocks@, 0));
        }
        while i < blocks.len()
            invariant
                0 <= i <= blocks.len(),
                first.wf(),
                blocks@.no_duplicates(),
                forall|k: int|
                    0 <= k < blocks.len() ==> first.heap.is_allocated(#[trigger] blocks[k] as int)
                        && !first.is_given_back(blocks[k] as int),
                self@ == first.distributed(blocks@, i as int),
                self@.wf(),
                self@.threads == first.threads,
                self@.deallocated == first.deallocated,
                self@.cycle == first.cycle,
                self@.pending == first.pending,
                self@.heap.blocks == first.heap.blocks,
                self@.heap.region == first.heap.region,
                first.heap.kept(self@.heap, block_set(blocks@, i as int)),
                forall|k: int|
                    0 <= k < i ==> self@.heap.is_free(#[trigger] blocks[k] as int)
                        && self@.is_listed(blocks[k] as int),
                forall|c: int| first.is_listed(c) ==> self@.is_listed(c),
            decreases blocks.len() - i,
        {
            let block: usize = blocks[i];
            let ghost before = self@;
            proof {
                assert(first.heap.is_allocated(blocks[i as int] as int));
                assert(first.heap.is_block(block as int));
                assert(!block_set(blocks@, i as int).contains(block as int)) by {
                    if block_set(blocks@, i as int).contains(block as int) {
                        let k = choose|k: int| 0 <= k < i && #[trigger] blocks@[k] == block as int;
                        assert(blocks@[k] == blocks@[i as int]);
                    }
                }
                crate::gc::free_list::lemma_header_parts(first.heap, before.heap, block as int);
                assert(!before.is_given_back(block as int));
            }
            self.reclaim_to_least_loaded(block);
            proof {
                let after = self@;
                assert(first.heap.kept(after.heap, block_set(blocks@, i + 1))) by {
                    assert(blocks@[i as int] == block);
                    assert forall|c: int| #[trigger]
                        block_set(blocks@, i as int).contains(c) implies block_set(
                        blocks@,
                        i + 1,
                    ).contains(c) by {
                        let k = choose|k: int| 0 <= k < i && #[trigger] blocks@[k] == c;
                        assert(0 <= k < i + 1 && blocks@[k] == c);
                    }
                    assert(block_set(blocks@, i + 1).contains(block as int));
                    first.heap.lemma_kept_mono(
                        before.heap,
                        block_set(blocks@, i as int),
                        block_set(blocks@, i + 1),
                    );
                    first.heap.lemma_kept_trans(
                        before.heap,
                        after.heap,
                        block_set(blocks@, i + 1),
                        set![block as int],
                    );
                }
                assert forall|k: int| 0 <= k < i + 1 implies after.heap.is_free(
                    #[trigger] blocks[k] as int,
                ) && after.is_listed(blocks[k] as int) by {
                    if k < i {
                        assert(before.heap.is_free(blocks[k] as int));
                        assert(blocks@[k] != blocks@[i as int]);
                        assert(before.heap.is_block(blocks[k] as int));
                        crate::gc::free_list::lemma_header_parts(
                            before.heap,
                            after.heap,
                            blocks[k] as int,
                        );
                        assert(before.is_listed(blocks[k] as int));
                    }
                }
            }
            i = i + 1;
        }
    }
}

} // verus!
