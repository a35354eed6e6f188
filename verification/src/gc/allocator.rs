//! The allocator of the managed heap: one free list for each thread that
//! allocates, the queue of blocks that were given back, and the count of
//! collection cycles.
//!
//! This file holds the allocator, its invariant and allocation itself.
//! - `reclaiming`: freed blocks go back to the free lists.
//! - `collecting`: the collection cycle.
//! - `values`: values stored in allocated blocks.

use vstd::prelude::*;

use crate::gc::allocator::collecting::next_cycle;
use crate::gc::collector::{get_block, Destructor};
use crate::gc::heap::{Heap, HeapView};
use crate::gc::layout::pages_for;
use crate::gc::free_list::{list_bytes, same_headers};
use crate::gc::heap_block_header::fit_of;
use crate::gc::tl_allocator::walk::{
    allocated_block, allocated_list, allocated_regions, allocated_with, can_allocate, none_fits,
};
use crate::gc::tl_allocator::{alignment_supported, TLAllocator, TLAllocatorView};

pub mod collecting;
pub mod reclaiming;
pub mod values;

verus! {

/// Why an allocation failed.
#[non_exhaustive]
#[derive(Debug, Clone, Copy, PartialEq, Eq, Structural)]
pub enum GCAllocatorError {
    /// The request was for no bytes.
    ZeroSized,
    /// The request was for an alignment that the heap does not serve.
    BadAlignment,
    /// No free block fits, and the region cannot grow by what is needed.
    OutOfMemory,
}

/// The managed heap with all that allocates from it.
pub struct GCAllocator {
    heap: Heap,
    /// The threads that have allocated, each with its allocator at the same
    /// place of `allocators`.
    threads: Vec<u64>,
    allocators: Vec<TLAllocator>,
    /// The data of the blocks that were given back and wait for the next
    /// collection: address and length.
    deallocated: Vec<(usize, usize)>,
    /// The number of collection cycles that have run.
    cycle: usize,
    /// The destructors that collections left to run and nobody has taken yet.
    pending: Vec<Destructor>,
}

/// The allocator as the contracts see it.
pub struct GCAllocatorView {
    pub heap: HeapView,
    pub threads: Seq<u64>,
    pub allocators: Seq<TLAllocatorView>,
    pub deallocated: Seq<(usize, usize)>,
    pub cycle: int,
    pub pending: Seq<Destructor>,
}

impl GCAllocatorView {
    /// No block is on the free lists of two allocators.
    pub open spec fn lists_disjoint(self) -> bool {
        forall|a: int, b: int, i: int, j: int|
            #![trigger self.allocators[a].list[i], self.allocators[b].list[j]]
            0 <= a < self.allocators.len() && 0 <= b < self.allocators.len() && a != b && 0 <= i
                < self.allocators[a].list.len() && 0 <= j < self.allocators[b].list.len()
                ==> self.allocators[a].list[i] != self.allocators[b].list[j]
    }

    /// Every entry of the queue is the data of a block that is allocated and
    /// has no destructor any more, and no block is in the queue twice.
    pub open spec fn queue_ok(self) -> bool {
        &&& forall|k: int|
            #![trigger self.deallocated[k]]
            0 <= k < self.deallocated.len() ==> self.heap.is_allocated(self.deallocated[k].0 - 32)
                && self.heap.thunk(self.deallocated[k].0 - 32) == 0 && self.deallocated[k].1
                <= self.heap.size(self.deallocated[k].0 - 32)
        &&& forall|k: int, l: int|
            #![trigger self.deallocated[k], self.deallocated[l]]
            0 <= k < l < self.deallocated.len() ==> self.deallocated[k].0 != self.deallocated[l].0
    }

    /// Whether the block at `b` was given back and waits in the queue for the
    /// next collection.
    pub open spec fn is_given_back(self, b: int) -> bool {
        exists|k: int| 0 <= k < self.deallocated.len() && #[trigger] self.deallocated[k].0 == b + 32
    }

    /// The invariant of the allocator.
    pub open spec fn wf(self) -> bool {
        &&& self.heap.wf()
        &&& self.threads.len() == self.allocators.len()
        &&& self.threads.no_duplicates()
        &&& forall|a: int|
            0 <= a < self.allocators.len() ==> (#[trigger] self.allocators[a]).wf(self.heap)
        &&& self.lists_disjoint()
        &&& self.queue_ok()
        &&& (self.heap.blocks.len() > 0 ==> self.allocators.len() > 0)
    }

    /// Whether the block at `b` is on the free list of some allocator.
    pub open spec fn is_listed(self, b: int) -> bool {
        exists|a: int|
            0 <= a < self.allocators.len() && (#[trigger] self.allocators[a]).list.contains(b)
    }
}

impl View for GCAllocator {
    type V = GCAllocatorView;

    closed spec fn view(&self) -> GCAllocatorView {
        GCAllocatorView {
            heap: self.heap@,
            threads: self.threads@,
            allocators: self.allocators@.map_values(|a: TLAllocator| a@),
            deallocated: self.deallocated@,
            cycle: self.cycle as int,
            pending: self.pending@,
        }
    }
}

/// After one allocator has changed the heap, touching only blocks of its own
/// free list and taking only new blocks into it, all allocators are well
/// formed, and their free lists are disjoint as before.
#[verifier::spinoff_prover]
pub proof fn lemma_allocators_kept(
    before: GCAllocatorView,
    after: GCAllocatorView,
    a: int,
    touched: Set<int>,
)
    requires
        before.wf(),
        0 <= a < before.allocators.len(),
        after.heap.wf(),
        after.allocators == before.allocators.update(a, after.allocators[a]),
        after.allocators[a].wf(after.heap),
        before.heap.kept(after.heap, touched),
        forall|c: int| #[trigger]
            touched.contains(c) ==> before.allocators[a].list.contains(c) || before.heap.is_allocated(
                c,
            ),
        forall|i: int|
            #![trigger after.allocators[a].list[i]]
            0 <= i < after.allocators[a].list.len() ==> before.allocators[a].list.contains(
                after.allocators[a].list[i],
            ) || !before.heap.is_free(after.allocators[a].list[i]),
    ensures
        forall|b: int|
            0 <= b < after.allocators.len() ==> (#[trigger] after.allocators[b]).wf(after.heap),
        after.lists_disjoint(),
{
    let mine = before.allocators[a].list;
    let then_mine = after.allocators[a].list;
    assert forall|b: int| 0 <= b < after.allocators.len() implies (#[trigger] after.allocators[b]).wf(
        after.heap,
    ) by {
        if b != a {
            let other = before.allocators[b];
            assert(other.wf(before.heap));
            assert forall|i: int|
                #![trigger other.list[i]]
                0 <= i < other.list.len() implies !touched.contains(other.list[i]) by {
                assert(before.heap.is_free(other.list[i]));
                if mine.contains(other.list[i]) {
                    let k = mine.index_of(other.list[i]);
                    assert(before.allocators[a].list[k] != before.allocators[b].list[i]);
                }
            }
            other.lemma_kept(before.heap, after.heap, touched);
        }
    }
    assert forall|x: int, y: int, i: int, j: int|
        #![trigger after.allocators[x].list[i], after.allocators[y].list[j]]
        0 <= x < after.allocators.len() && 0 <= y < after.allocators.len() && x != y && 0 <= i
            < after.allocators[x].list.len() && 0 <= j
            < after.allocators[y].list.len() implies after.allocators[x].list[i]
        != after.allocators[y].list[j] by {
        if x != a && y != a {
            assert(before.allocators[x].list[i] != before.allocators[y].list[j]);
        } else {
            // one of the two lists is the one that changed
            let (o, k, m) = if x == a {
                (y, j, i)
            } else {
                (x, i, j)
            };
            let other = before.allocators[o];
            assert(other.wf(before.heap));
            assert(before.heap.is_free(other.list[k]));
            assert(mine.contains(then_mine[m]) || !before.heap.is_free(then_mine[m]));
            if mine.contains(then_mine[m]) {
                let n = mine.index_of(then_mine[m]);
                assert(before.allocators[a].list[n] != before.allocators[o].list[k]);
            }
        }
    }
}

/// The error of the plain allocation interface, which says no more than that
/// the request was not served.
#[derive(Debug, Clone, Copy, PartialEq, Eq, Structural)]
pub struct AllocError;

impl HeapView {
    /// Every block that is allocated in `self` is allocated in `after`, with
    /// the same header and the same data.
    pub open spec fn allocated_kept(self, after: HeapView) -> bool {
        &&& forall|c: int| #[trigger]
            self.is_allocated(c) ==> after.is_allocated(c) && after.header(c) == self.header(c)
        &&& forall|c: int, a: int|
            #![trigger self.in_data(c, a), after.mem[a]]
            self.is_allocated(c) && self.in_data(c, a) ==> after.mem[a] == self.mem[a]
    }

    /// A change that touches no allocated block keeps all of them.
    pub proof fn lemma_allocated_kept(self, after: HeapView, touched: Set<int>)
        requires
            self.wf(),
            self.kept(after, touched),
            forall|c: int| #[trigger] touched.contains(c) ==> !self.is_allocated(c),
        ensures
            self.allocated_kept(after),
    {
        assert forall|c: int| #[trigger] self.is_allocated(c) implies after.is_allocated(c)
            && after.header(c) == self.header(c) by {
            assert(self.is_block(c));
            assert(!touched.contains(c));
            crate::gc::free_list::lemma_header_parts(self, after, c);
        }
        assert forall|c: int, a: int|
            #![trigger self.in_data(c, a), after.mem[a]]
            self.is_allocated(c) && self.in_data(c, a) implies after.mem[a] == self.mem[a] by {
            assert(self.is_block(c));
            assert(!touched.contains(c));
        }
    }
}

/// The queue stays in order where the blocks that are allocated stay what they
/// are.
pub proof fn lemma_queue_kept(before: GCAllocatorView, after: GCAllocatorView)
    requires
        before.queue_ok(),
        before.heap.allocated_kept(after.heap),
        after.deallocated == before.deallocated,
    ensures
        after.queue_ok(),
{
    assert forall|k: int|
        #![trigger after.deallocated[k]]
        0 <= k < after.deallocated.len() implies after.heap.is_allocated(
        after.deallocated[k].0 - 32,
    ) && after.heap.thunk(after.deallocated[k].0 - 32) == 0 && after.deallocated[k].1
        <= after.heap.size(after.deallocated[k].0 - 32) by {
        let c = before.deallocated[k].0 - 32;
        assert(before.heap.is_allocated(c));
        assert(after.heap.is_allocated(c) && after.heap.header(c) == before.heap.header(c));
        crate::gc::free_list::lemma_header_parts(before.heap, after.heap, c);
    }
}

impl GCAllocator {
    /// An allocator over the `max_size` bytes reserved at `base`: no thread
    /// has allocated yet, nothing waits to be collected, and no cycle has run.
    pub fn new(base: usize, max_size: usize) -> (r: Self)
        requires
            base > 0,
            base % 4096 == 0,
            base + max_size <= usize::MAX,
        ensures
            r@.wf(),
            r@.heap.region.base == base,
            r@.heap.region.reserved == max_size,
            r@.heap.region.length == 0,
            r@.heap.blocks.len() == 0,
            r@.threads.len() == 0,
            r@.deallocated.len() == 0,
            r@.cycle == 0,
            r@.pending.len() == 0,
    {
        let r = GCAllocator {
            heap: Heap::new(base, max_size),
            threads: Vec::new(),
            allocators: Vec::new(),
            deallocated: Vec::new(),
            cycle: 0,
            pending: Vec::new(),
        };
        assert(r@.allocators.len() == 0);
        r
    }

    /// Return whether or not an address points into the GC heap.
    pub fn contains(&self, value: usize) -> (r: bool)
        requires
            self@.wf(),
        ensures
            r == self@.heap.region.contains(value as int),
    {
        self.heap.contains(value)
    }

    /// The heap that the allocator manages.
    pub fn heap(&self) -> (r: &Heap)
        ensures
            r@ == self@.heap,
    {
        &self.heap
    }

    /// The number of collection cycles that have run.
    pub fn cycle_number(&self) -> (r: usize)
        ensures
            r == self@.cycle,
    {
        self.cycle
    }

    /// The free bytes of the allocator of `thread`, if the thread has one.
    pub fn free_bytes_of(&self, thread: u64) -> (r: Option<usize>)
        requires
            self@.wf(),
        ensures
            match r {
                Some(n) => self@.threads.contains(thread) && n == self@.allocators[self@.threads.index_of(
                    thread,
                )].free_bytes,
                None => !self@.threads.contains(thread),
            },
    {
        match self.find_thread(thread) {
            Some(i) => {
                proof {
                    assert(self@.threads.contains(self@.threads[i as int]));
                    lemma_index_of_thread(self@.threads, i as int);
                }
                Some(self.allocators[i].free_bytes())
            },
            None => None,
        }
    }

    /// The place of `thread` among the threads that have allocated.
    fn find_thread(&self, thread: u64) -> (r: Option<usize>)
        requires
            self@.wf(),
        ensures
            match r {
                Some(i) => 0 <= i < self@.threads.len() && self@.threads[i as int] == thread,
                None => !self@.threads.contains(thread),
            },
    {
        let mut i: usize = 0;
        while i < self.threads.len()
            invariant
                0 <= i <= self.threads.len(),
                forall|k: int| 0 <= k < i ==> self.threads@[k] != thread,
            decreases self.threads.len() - i,
        {
            if self.threads[i] == thread {
                return Some(i);
            }
            i = i + 1;
        }
        None
    }

    /// The place of the allocator of `thread`, which is made, with one page
    /// of the region, where the thread has not allocated before. Fails, with
    /// nothing changed, where the region cannot grow by that page.
    #[verifier::spinoff_prover]
    fn allocator_for(&mut self, thread: u64) -> (r: Result<usize, GCAllocatorError>)
        requires
            old(self)@.wf(),
        ensures
            final(self)@.wf(),
            final(self)@.deallocated == old(self)@.deallocated,
            final(self)@.cycle == old(self)@.cycle,
            final(self)@.pending == old(self)@.pending,
            old(self)@.heap.kept(final(self)@.heap, Set::empty()),
            r is Ok ==> final(self)@ == old(self)@.admitted(thread),
            match r {
                Ok(i) => {
                    &&& 0 <= i < final(self)@.threads.len()
                    &&& final(self)@.threads[i as int] == thread
                    &&& if old(self)@.threads.contains(thread) {
                        final(self)@ == old(self)@
                    } else {
                        &&& final(self)@.threads == old(self)@.threads.push(thread)
                        &&& final(self)@.allocators.len() == old(self)@.allocators.len() + 1
                        &&& forall|a: int|
                            0 <= a < old(self)@.allocators.len()
                                ==> #[trigger] final(self)@.allocators[a] == old(self)@.allocators[a]
                        &&& final(self)@.heap == old(self)@.heap.grown(
                            4096,
                            final(self)@.heap.region.committed,
                        )
                        &&& old(self)@.heap.region.length + 4096 <= final(self)@.heap.region.committed
                            <= old(self)@.heap.region.reserved
                        &&& final(self)@.allocators[i as int].list == seq![old(self)@.heap.end()]
                        &&& final(self)@.allocators[i as int].free_bytes == 4096 - 32
                    }
                },
                Err(e) => {
                    &&& e == GCAllocatorError::OutOfMemory
                    &&& final(self)@ == old(self)@
                    &&& !old(self)@.threads.contains(thread)
                    &&& old(self)@.heap.region.length + 4096 > old(self)@.heap.region.reserved
                },
            },
    {
        proof {
            self@.heap.lemma_kept_refl(Set::empty());
        }
        match self.find_thread(thread) {
            Some(i) => Ok(i),
            None => {
                let ghost before = self@;
                let allocator: TLAllocator = match TLAllocator::try_new(&mut self.heap) {
                    Ok(a) => a,
                    Err(e) => {
                        assert(self@.allocators =~= before.allocators);
                        return Err(e);
                    },
                };
                self.threads.push(thread);
                self.allocators.push(allocator);
                proof {
                    let after = self@;
                    let n = before.allocators.len() as int;
                    let fresh = before.heap.end();
                    assert(after.allocators =~= before.allocators.push(allocator@));
                    assert(allocator@ == before.admitted(thread).allocators[n]);
                    assert(after.allocators =~= before.admitted(thread).allocators);
                    before.heap.lemma_grown_wf(4096, after.heap.region.committed);
                    before.heap.lemma_kept_grown(4096, after.heap.region.committed, Set::empty());
                    assert forall|a: int| 0 <= a < after.allocators.len() implies (
                    #[trigger] after.allocators[a]).wf(after.heap) by {
                        if a < n {
                            let other = before.allocators[a];
                            assert(other.wf(before.heap));
                            other.lemma_kept(before.heap, after.heap, Set::empty());
                        }
                    }
                    assert(after.lists_disjoint()) by {
                        assert forall|x: int, y: int, i: int, j: int|
                            #![trigger after.allocators[x].list[i], after.allocators[y].list[j]]
                            0 <= x < after.allocators.len() && 0 <= y < after.allocators.len() && x
                                != y && 0 <= i < after.allocators[x].list.len() && 0 <= j
                                < after.allocators[y].list.len() implies after.allocators[x].list[i]
                            != after.allocators[y].list[j] by {
                            if x < n && y < n {
                                assert(before.allocators[x].list[i] != before.allocators[y].list[j]);
                            } else {
                                let (o, k) = if x == n {
                                    (y, j)
                                } else {
                                    (x, i)
                                };
                                assert(before.allocators[o].wf(before.heap));
                                assert(before.heap.is_free(before.allocators[o].list[k]));
                            }
                        }
                    }
                    assert(after.queue_ok()) by {
                        before.heap.lemma_allocated_kept(after.heap, Set::empty());
                        lemma_queue_kept(before, after);
                    }
                    assert(after.threads.no_duplicates()) by {
                        assert forall|x: int, y: int|
                            0 <= x < after.threads.len() && 0 <= y < after.threads.len() && x
                                != y implies after.threads[x] != after.threads[y] by {
                            if x < n {
                                assert(before.threads.contains(before.threads[x]));
                            }
                            if y < n {
                                assert(before.threads.contains(before.threads[y]));
                            }
                        }
                    }
                }
                Ok(self.threads.len() - 1)
            },
        }
    }
}

impl GCAllocatorView {
    /// Whether `thread` has an allocator, or can be given one: the region can
    /// grow by the page that a new allocator starts with.
    pub open spec fn can_admit(self, thread: u64) -> bool {
        self.threads.contains(thread) || self.heap.region.length + 4096
            <= self.heap.region.reserved
    }

    /// The free list of the allocator of `thread`.
    pub open spec fn list_of(self, thread: u64) -> Seq<int> {
        self.allocators[self.threads.index_of(thread)].list
    }

    /// The block that is allocated for a request of `thread`, where one is.
    /// For a thread that has an allocator it is the block that this allocator
    /// allocates. Another thread is given an allocator first, with a page of
    /// the region as its one block: that block is allocated where it holds
    /// the request, and else the block that the heap is expanded by behind
    /// the page, or the one behind that where this one does not fit.
    pub open spec fn block_for(self, thread: u64, size: int, align: int) -> int {
        if self.threads.contains(thread) {
            allocated_block(
                self.heap,
                self.allocators[self.threads.index_of(thread)],
                size,
                align,
            )
        } else if size <= 4096 - 32 {
            self.heap.end()
        } else if fit_of(
            pages_for(size) * 4096 - 32,
            self.heap.end() + 4096 + 32,
            false,
            size,
            align,
        ) is Ok {
            self.heap.end() + 4096
        } else {
            self.heap.end() + 4096 + pages_for(size) * 4096
        }
    }

    /// The allocator after `thread` has been given an allocator, if it had
    /// none: the heap has grown by a page, which is the one block of the free
    /// list of the new allocator.
    pub open spec fn admitted(self, thread: u64) -> GCAllocatorView {
        if self.threads.contains(thread) {
            self
        } else {
            let page = self.heap.end();
            GCAllocatorView {
                heap: self.heap.grown(4096, self.heap.grown_committed(4096)),
                threads: self.threads.push(thread),
                allocators: self.allocators.push(
                    TLAllocatorView {
                        head: Some(page as usize),
                        free_bytes: 4096 - 32,
                        list: seq![page],
                        regions: seq![(page as usize, 4096usize)],
                    },
                ),
                ..self
            }
        }
    }

    /// The allocator after a block has been allocated for a request of
    /// `thread` for `size` bytes aligned to `align`, with the destructor
    /// `thunk`: the thread has its allocator, the heap and the free list of
    /// that allocator are what the allocation leaves, and nothing else has
    /// changed.
    pub open spec fn allocated(
        self,
        thread: u64,
        size: int,
        align: int,
        thunk: Option<usize>,
    ) -> GCAllocatorView {
        let with = self.admitted(thread);
        let i = with.threads.index_of(thread);
        let mine = with.allocators[i];
        let heap = allocated_with(with.heap, mine, size, align, thunk);
        let list = allocated_list(with.heap, mine, size, align);
        let then = TLAllocatorView {
            head: if list.len() > 0 {
                Some(list[0] as usize)
            } else {
                None
            },
            free_bytes: list_bytes(heap, list),
            list: list,
            regions: allocated_regions(with.heap, mine, size, align),
        };
        GCAllocatorView { heap: heap, allocators: with.allocators.update(i, then), ..with }
    }

    /// Whether `after` is this allocator with `value` stored at the start of
    /// the data of the block at `block`, and nothing else changed.
    pub open spec fn stored(self, after: GCAllocatorView, block: int, value: Seq<usize>) -> bool {
        &&& after == (GCAllocatorView { heap: after.heap, ..self })
        &&& self.heap.written(after.heap, block, value)
    }

    /// Whether an allocation for `thread` has left the other threads alone:
    /// the threads are those of before, with `thread` behind them if it had
    /// no allocator; the allocator of every other thread is what it was, and
    /// so are the headers of the blocks on its free list.
    pub open spec fn others_kept(self, after: GCAllocatorView, thread: u64) -> bool {
        &&& after.threads == self.threads || (!self.threads.contains(thread) && after.threads
            == self.threads.push(thread))
        &&& after.allocators.len() == after.threads.len()
        &&& forall|a: int|
            #![trigger after.allocators[a]]
            0 <= a < self.allocators.len() && self.threads[a] != thread ==> after.allocators[a]
                == self.allocators[a] && same_headers(
                self.heap,
                after.heap,
                self.allocators[a].list,
            )
    }

    /// Whether a block is allocated for a request of `thread` for `size`
    /// bytes, which are more than none, aligned to `align`, which is an
    /// alignment that is supported.
    ///
    /// For a thread that has an allocator, this allocator decides. Another
    /// thread is given an allocator first, with a page of the region as the
    /// one block of its free list. This block holds every request that is no
    /// greater than it. For a greater request the heap is expanded, and once
    /// more if the new block, as the head of the free list, does not fit.
    pub open spec fn can_allocate(self, thread: u64, size: int, align: int) -> bool {
        if self.threads.contains(thread) {
            can_allocate(
                self.heap,
                self.allocators[self.threads.index_of(thread)],
                size,
                align,
            )
        } else {
            let length = self.heap.region.length + 4096;
            let more = pages_for(size) * 4096;
            &&& length <= self.heap.region.reserved
            &&& size <= 4096 - 32 || {
                &&& length + more <= self.heap.region.reserved
                &&& fit_of(more - 32, self.heap.end() + 4096 + 32, false, size, align) is Ok
                    || length + 2 * more <= self.heap.region.reserved
            }
        }
    }

    /// Whether `after` comes of `self` by an allocation that failed for want
    /// of memory and left `failed`, a collection cycle with the roots
    /// `candidates` that left `cycled` and the destructors `due` to run, and
    /// the allocation tried once more, which allocated `block` or nothing.
    pub open spec fn retried_through(
        self,
        failed: GCAllocatorView,
        cycled: GCAllocatorView,
        after: GCAllocatorView,
        candidates: Seq<usize>,
        due: Seq<Destructor>,
        request: (u64, int, int),
        block: Option<int>,
    ) -> bool {
        &&& self.heap.allocated_kept(failed.heap)
        &&& failed.deallocated == self.deallocated
        &&& failed.cycle == self.cycle
        &&& failed.collected(cycled, candidates, due)
        &&& cycled.heap.allocated_kept(after.heap)
        &&& after.cycle == cycled.cycle
        &&& block is Some <==> cycled.can_allocate(request.0, request.1, request.2)
        &&& match block {
            Some(b) => after.newly_allocated(cycled, b),
            None => true,
        }
    }

    /// Whether `after` comes of `self` by an allocation that failed for want
    /// of memory, a collection cycle with the roots `candidates`, and the
    /// allocation tried once more, which allocated `block` or nothing.
    /// `request` is what was asked for: the thread, the size and the
    /// alignment. A block is allocated exactly where one can be after the
    /// cycle.
    pub open spec fn retried(
        self,
        after: GCAllocatorView,
        candidates: Seq<usize>,
        request: (u64, int, int),
        block: Option<int>,
    ) -> bool {
        exists|failed: GCAllocatorView, cycled: GCAllocatorView, due: Seq<Destructor>| #[trigger]
            self.retried_through(failed, cycled, after, candidates, due, request, block)
    }

    /// Whether the block at `b` has just been allocated, as `before` and
    /// `self` show: it was not allocated and not given back, and is allocated
    /// now; what was allocated before is as it was; no other block has become
    /// allocated; and every other block lies apart from it.
    pub open spec fn newly_allocated(self, before: GCAllocatorView, b: int) -> bool {
        &&& !before.heap.is_allocated(b)
        &&& self.heap.is_allocated(b)
        &&& !self.is_given_back(b)
        &&& before.heap.allocated_kept(self.heap)
        &&& forall|c: int| #[trigger]
            self.heap.is_allocated(c) && c != b ==> before.heap.is_allocated(c)
        &&& forall|c: int| #[trigger]
            self.heap.is_block(c) && c != b ==> self.heap.next(c) <= b || self.heap.next(b) <= c
    }
}

impl GCAllocator {
    /// Allocates `size` bytes aligned to `align` from the allocator of
    /// `thread`, which is made where the thread has none yet, and gives the
    /// block the destructor `drop_thunk`. Returns the data of the block: its
    /// address and its length.
    #[verifier::spinoff_prover]
    fn allocate_on(
        &mut self,
        thread: u64,
        size: usize,
        align: usize,
        drop_thunk: Option<usize>,
    ) -> (r: Result<(usize, usize), GCAllocatorError>)
        requires
            old(self)@.wf(),
            drop_thunk != Some(0usize),
        ensures
            final(self)@.wf(),
            final(self)@.cycle == old(self)@.cycle,
            final(self)@.deallocated == old(self)@.deallocated,
            final(self)@.pending == old(self)@.pending,
            final(self)@.heap.region.base == old(self)@.heap.region.base,
            final(self)@.heap.region.reserved == old(self)@.heap.region.reserved,
            old(self)@.heap.allocated_kept(final(self)@.heap),
            old(self)@.others_kept(final(self)@, thread),
            !old(self)@.can_admit(thread) ==> r == Err::<(usize, usize), GCAllocatorError>(
                GCAllocatorError::OutOfMemory,
            ) && final(self)@ == old(self)@,
            old(self)@.can_admit(thread) ==> final(self)@.threads.contains(thread),
            old(self)@.can_admit(thread) && size == 0 ==> r == Err::<
                (usize, usize),
                GCAllocatorError,
            >(GCAllocatorError::ZeroSized),
            old(self)@.can_admit(thread) && size > 0 && !alignment_supported(align as int) ==> r
                == Err::<(usize, usize), GCAllocatorError>(GCAllocatorError::BadAlignment),
            r is Ok <==> size > 0 && alignment_supported(align as int) && old(self)@.can_allocate(
                thread,
                size as int,
                align as int,
            ),
            r is Ok ==> final(self)@ == old(self)@.allocated(
                thread,
                size as int,
                align as int,
                drop_thunk,
            ),
            old(self)@.can_admit(thread) && size > 0 && alignment_supported(align as int)
                ==> match r {
                Ok((data, len)) => {
                    &&& final(self)@.newly_allocated(old(self)@, data - 32)
                    &&& final(self)@.heap.header(data - 32).drop_thunk == drop_thunk
                    &&& data % align == 0
                    &&& len == final(self)@.heap.size(data - 32)
                    &&& len >= size
                    &&& data - 32 == old(self)@.block_for(thread, size as int, align as int)
                },
                Err(e) => {
                    &&& e == GCAllocatorError::OutOfMemory
                    &&& final(self)@.heap.region.length + pages_for(size as int) * 4096
                        > final(self)@.heap.region.reserved
                    &&& final(self)@.heap.region.length <= old(self)@.heap.region.length + 4096
                        + pages_for(size as int) * 4096
                    &&& old(self)@.threads.contains(thread) ==> final(self)@.heap.region.length
                        <= old(self)@.heap.region.length + pages_for(size as int) * 4096
                    &&& none_fits(
                        final(self)@.heap,
                        final(self)@.list_of(thread),
                        size as int,
                        align as int,
                    )
                },
            },
    {
        let ghost first = self@;
        let i: usize = match self.allocator_for(thread) {
            Ok(i) => i,
            Err(e) => {
                proof {
                    first.heap.lemma_allocated_kept(first.heap, Set::empty());
                }
                return Err(e);
            },
        };
        let ghost before = self@;
        let ghost mine = before.allocators[i as int];
        proof {
            assert(mine.wf(before.heap));
            assert(self.allocators@[i as int]@ == mine);
            assert(before.threads.contains(before.threads[i as int]));
            lemma_index_of_thread(before.threads, i as int);
            first.heap.lemma_allocated_kept(before.heap, Set::empty());
        }
        let r = self.allocators[i].raw_allocate_with_drop(&mut self.heap, size, align, drop_thunk);
        proof {
            let after = self@;
            let touched = mine.list.to_set();
            assert(after.allocators =~= before.allocators.update(i as int, after.allocators[i as int]));
            let then_list = after.allocators[i as int].list;
            assert forall|k: int|
                #![trigger then_list[k]]
                0 <= k < then_list.len() implies mine.list.contains(then_list[k])
                || !before.heap.is_free(then_list[k]) by {}
            assert forall|c: int| #[trigger] touched.contains(c) implies !before.heap.is_allocated(
                c,
            ) by {
                let k = mine.list.index_of(c);
                assert(before.heap.is_free(mine.list[k]));
            }
            lemma_allocators_kept(before, after, i as int, touched);
            before.heap.lemma_allocated_kept(after.heap, touched);
            lemma_queue_kept(before, after);
            lemma_allocated_kept_trans(first.heap, before.heap, after.heap);
            assert(after.threads.index_of(thread) == i);
            lemma_others_kept(first, before, after, thread, i as int);
            if size > 0 && alignment_supported(align as int) {
                lemma_admitted_can_allocate(
                    first,
                    before,
                    thread,
                    i as int,
                    size as int,
                    align as int,
                );
            }
            match r {
                Ok((data, len)) => {
                    let b = data - 32;
                    assert(after == first.allocated(thread, size as int, align as int, drop_thunk)) by {
                        assert(before == first.admitted(thread));
                        assert(after.allocators[i as int] == first.allocated(
                            thread,
                            size as int,
                            align as int,
                            drop_thunk,
                        ).allocators[i as int]);
                        assert(after.allocators =~= first.allocated(
                            thread,
                            size as int,
                            align as int,
                            drop_thunk,
                        ).allocators);
                    }
                    assert(!first.heap.is_allocated(b)) by {
                        if first.heap.is_allocated(b) {
                            assert(before.heap.is_allocated(b));
                            if mine.list.contains(b) {
                                let k = mine.list.index_of(b);
                                assert(before.heap.is_free(mine.list[k]));
                            }
                        }
                    }
                    assert(!after.is_given_back(b)) by {
                        if after.is_given_back(b) {
                            let k = choose|k: int|
                                0 <= k < after.deallocated.len() && #[trigger] after.deallocated[k].0
                                    == b + 32;
                            assert(first.heap.is_allocated(first.deallocated[k].0 - 32));
                        }
                    }
                    assert forall|c: int| #[trigger]
                        after.heap.is_block(c) && c != b implies after.heap.next(c) <= b
                        || after.heap.next(b) <= c by {
                        after.heap.lemma_blocks_disjoint(b, c);
                    }
                    assert forall|c: int| #[trigger]
                        after.heap.is_allocated(c) && c != b implies first.heap.is_allocated(c) by {
                        if then_list.contains(c) {
                            let k = then_list.index_of(c);
                            assert(after.heap.is_free(then_list[k]));
                        }
                        assert(before.heap.is_block(c) && !mine.list.contains(c));
                        crate::gc::free_list::lemma_header_parts(before.heap, after.heap, c);
                        assert(before.heap.is_allocated(c));
                        lemma_admitted_allocated(first, before, c);
                    }
                },
                Err(_) => {},
            }
        }
        r
    }
}

/// Where only the data of an allocated block changes, the allocator stays well
/// formed.
pub proof fn lemma_data_written(before: GCAllocatorView, after: GCAllocatorView, block: int)
    requires
        before.wf(),
        after.heap.wf(),
        before.heap.is_allocated(block),
        after == (GCAllocatorView { heap: after.heap, ..before }),
        after.heap.blocks == before.heap.blocks,
        before.heap.kept(after.heap, set![block]),
        forall|c: int| #[trigger]
            before.heap.is_block(c) ==> after.heap.header(c) == before.heap.header(c),
    ensures
        after.wf(),
{
    assert forall|a: int| 0 <= a < after.allocators.len() implies (#[trigger] after.allocators[a]).wf(
        after.heap,
    ) by {
        let other = before.allocators[a];
        assert(other.wf(before.heap));
        assert forall|i: int|
            #![trigger other.list[i]]
            0 <= i < other.list.len() implies !set![block].contains(other.list[i]) by {
            assert(before.heap.is_free(other.list[i]));
        }
        other.lemma_kept(before.heap, after.heap, set![block]);
    }
    assert(after.lists_disjoint()) by {
        assert forall|x: int, y: int, i: int, j: int|
            #![trigger after.allocators[x].list[i], after.allocators[y].list[j]]
            0 <= x < after.allocators.len() && 0 <= y < after.allocators.len() && x != y && 0 <= i
                < after.allocators[x].list.len() && 0 <= j
                < after.allocators[y].list.len() implies after.allocators[x].list[i]
            != after.allocators[y].list[j] by {
            assert(before.allocators[x].list[i] != before.allocators[y].list[j]);
        }
    }
    assert(after.queue_ok()) by {
        assert forall|k: int|
            #![trigger after.deallocated[k]]
            0 <= k < after.deallocated.len() implies after.heap.is_allocated(
            after.deallocated[k].0 - 32,
        ) && after.heap.thunk(after.deallocated[k].0 - 32) == 0 && after.deallocated[k].1
            <= after.heap.size(after.deallocated[k].0 - 32) by {
            let c = before.deallocated[k].0 - 32;
            assert(before.heap.is_allocated(c));
            assert(before.heap.is_block(c));
            assert(after.heap.header(c) == before.heap.header(c));
            crate::gc::free_list::lemma_header_parts(before.heap, after.heap, c);
        }
    }
}

/// An allocator that was made just now allocates, for a request that its one
/// block holds, that block.
pub proof fn lemma_first_block(
    first: HeapView,
    grown: HeapView,
    a: TLAllocatorView,
    size: int,
    align: int,
)
    requires
        first.wf(),
        first.region.length + 4096 <= grown.region.committed <= first.region.reserved,
        grown == first.grown(4096, grown.region.committed),
        a.list == seq![first.end()],
        a.free_bytes == 4096 - 32,
        0 < size <= 4096 - 32,
        alignment_supported(align),
    ensures
        allocated_block(grown, a, size, align) == first.end(),
        can_allocate(grown, a, size, align),
{
    let n = first.end();
    first.lemma_grown_wf(4096, grown.region.committed);
    crate::gc::layout::lemma_data_aligned(n);
    crate::gc::layout::lemma_padded(size, 4096 - 32);
    crate::gc::layout::lemma_small_powers_of_two(align);
    crate::gc::free_list::lemma_header_parts(grown, grown, n);
    assert(grown.size(n) == 4096 - 32);
    assert(grown.next_free(n) == 0);
    assert(grown.data(n) % 16 == 0);
    assert(crate::gc::layout::padded(size) <= 4096 - 32);
    assert(grown.fitting(n, size, align) is Ok);
    assert(a.list[0] == n);
    assert forall|j: int| #![trigger a.list[j]] 0 <= j < 0 implies grown.fitting(
        a.list[j],
        size,
        align,
    ) is Err by {}
    crate::gc::tl_allocator::walk::lemma_walk_found(grown, a.list, size, align, 0);
    crate::gc::tl_allocator::walk::lemma_fitted_in_place(grown, n, size, align);
}

/// An allocator that was made just now allocates a block for a request that
/// its one block does not hold exactly where the heap can be expanded, and
/// once more if the new block, as the head of the free list, does not fit.
pub proof fn lemma_first_expansion(
    first: HeapView,
    grown: HeapView,
    a: TLAllocatorView,
    size: int,
    align: int,
)
    requires
        first.wf(),
        first.region.length + 4096 <= grown.region.committed <= first.region.reserved,
        grown == first.grown(4096, grown.region.committed),
        a.wf(grown),
        a.list == seq![first.end()],
        a.free_bytes == 4096 - 32,
        size > 4096 - 32,
    ensures
        can_allocate(grown, a, size, align) <==> {
            let length = first.region.length + 4096;
            let more = pages_for(size) * 4096;
            &&& length + more <= first.region.reserved
            &&& fit_of(more - 32, first.end() + 4096 + 32, false, size, align) is Ok || length + 2
                * more <= first.region.reserved
        },
        allocated_block(grown, a, size, align) == if fit_of(
            pages_for(size) * 4096 - 32,
            first.end() + 4096 + 32,
            false,
            size,
            align,
        ) is Ok {
            first.end() + 4096
        } else {
            first.end() + 4096 + pages_for(size) * 4096
        },
{
    first.lemma_grown_wf(4096, grown.region.committed);
    assert(a.head is Some);
    assert(grown.end() == first.end() + 4096);
}

/// Giving a thread its allocator, and allocating from it, leaves the other
/// threads alone.
pub proof fn lemma_others_kept(
    first: GCAllocatorView,
    admitted: GCAllocatorView,
    after: GCAllocatorView,
    thread: u64,
    i: int,
)
    requires
        first.wf(),
        admitted.wf(),
        0 <= i < admitted.threads.len(),
        admitted.threads[i] == thread,
        first.heap.kept(admitted.heap, Set::empty()),
        if first.threads.contains(thread) {
            admitted == first
        } else {
            &&& admitted.threads == first.threads.push(thread)
            &&& admitted.allocators.len() == first.allocators.len() + 1
            &&& forall|a: int|
                0 <= a < first.allocators.len() ==> #[trigger] admitted.allocators[a]
                    == first.allocators[a]
        },
        after.threads == admitted.threads,
        after.allocators == admitted.allocators.update(i, after.allocators[i]),
        admitted.heap.kept(after.heap, admitted.allocators[i].list.to_set()),
    ensures
        first.others_kept(after, thread),
{
    assert forall|a: int|
        #![trigger after.allocators[a]]
        0 <= a < first.allocators.len() && first.threads[a] != thread implies after.allocators[a]
        == first.allocators[a] && same_headers(first.heap, after.heap, first.allocators[a].list) by {
        assert(a != i);
        let other = first.allocators[a];
        assert(admitted.allocators[a] == other);
        assert(other.wf(first.heap));
        assert forall|k: int| #![trigger other.list[k]] 0 <= k < other.list.len() implies after.heap.is_block(
            other.list[k],
        ) && after.heap.header(other.list[k]) == first.heap.header(other.list[k]) by {
            let c = other.list[k];
            assert(first.heap.is_free(c));
            assert(admitted.heap.header(c) == first.heap.header(c));
            if admitted.allocators[i].list.contains(c) {
                let j = admitted.allocators[i].list.index_of(c);
                assert(admitted.allocators[i].list[j] != admitted.allocators[a].list[k]);
            }
        }
    }
}

/// Giving a thread its allocator does not change whether a block is
/// allocated for a request of the thread.
pub proof fn lemma_admitted_can_allocate(
    first: GCAllocatorView,
    admitted: GCAllocatorView,
    thread: u64,
    i: int,
    size: int,
    align: int,
)
    requires
        first.wf(),
        admitted.wf(),
        size > 0,
        alignment_supported(align),
        0 <= i < admitted.threads.len(),
        admitted.threads[i] == thread,
        if first.threads.contains(thread) {
            admitted == first
        } else {
            &&& admitted.heap == first.heap.grown(4096, admitted.heap.region.committed)
            &&& first.heap.region.length + 4096 <= admitted.heap.region.committed
                <= first.heap.region.reserved
            &&& admitted.allocators[i].list == seq![first.heap.end()]
            &&& admitted.allocators[i].free_bytes == 4096 - 32
        },
    ensures
        admitted.threads.contains(thread),
        admitted.threads.index_of(thread) == i,
        admitted.can_allocate(thread, size, align) <==> first.can_allocate(thread, size, align),
        admitted.block_for(thread, size, align) == first.block_for(thread, size, align),
{
    lemma_index_of_thread(admitted.threads, i);
    if !first.threads.contains(thread) {
        let mine = admitted.allocators[i];
        assert(mine.wf(admitted.heap));
        if size <= 4096 - 32 {
            lemma_first_block(first.heap, admitted.heap, mine, size, align);
        } else {
            lemma_first_expansion(first.heap, admitted.heap, mine, size, align);
        }
    }
}

/// Giving a thread its allocator allocates no block.
pub proof fn lemma_admitted_allocated(first: GCAllocatorView, admitted: GCAllocatorView, c: int)
    requires
        first.heap.wf(),
        admitted == first || (first.heap.region.length + 4096 <= admitted.heap.region.committed
            <= first.heap.region.reserved && admitted.heap == first.heap.grown(
            4096,
            admitted.heap.region.committed,
        )),
        admitted.heap.is_allocated(c),
    ensures
        first.heap.is_allocated(c),
{
    if admitted != first {
        first.heap.lemma_grown_wf(4096, admitted.heap.region.committed);
        if c == first.heap.end() {
        } else {
            assert(first.heap.is_block(c));
            crate::gc::free_list::lemma_header_parts(first.heap, admitted.heap, c);
        }
    }
}

/// Blocks that stay what they are through one change and through the next
/// stay what they are through both.
pub proof fn lemma_allocated_kept_trans(first: HeapView, mid: HeapView, after: HeapView)
    requires
        first.allocated_kept(mid),
        mid.allocated_kept(after),
    ensures
        first.allocated_kept(after),
{
    assert forall|c: int| #[trigger] first.is_allocated(c) implies after.is_allocated(c)
        && after.header(c) == first.header(c) by {
        assert(mid.is_allocated(c));
    }
    assert forall|c: int, a: int|
        #![trigger first.in_data(c, a), after.mem[a]]
        first.is_allocated(c) && first.in_data(c, a) implies after.mem[a] == first.mem[a] by {
        assert(mid.is_allocated(c) && mid.header(c) == first.header(c));
        crate::gc::free_list::lemma_header_parts(first, mid, c);
        assert(mid.in_data(c, a));
        assert(mid.mem[a] == first.mem[a]);
    }
}

impl GCAllocator {
    /// Allocates `size` bytes aligned to `align` for `thread`, and returns
    /// their address and the length of the block that holds them. No
    /// collection is waited for.
    ///
    /// The range that is returned lies in a block that was not allocated
    /// before, apart from every other block, and is aligned as asked.
    pub fn try_allocate(&mut self, thread: u64, size: usize, align: usize) -> (r: Result<
        (usize, usize),
        AllocError,
    >)
        requires
            old(self)@.wf(),
        ensures
            final(self)@.wf(),
            final(self)@.cycle == old(self)@.cycle,
            final(self)@.deallocated == old(self)@.deallocated,
            final(self)@.pending == old(self)@.pending,
            final(self)@.heap.region.base == old(self)@.heap.region.base,
            final(self)@.heap.region.reserved == old(self)@.heap.region.reserved,
            old(self)@.heap.allocated_kept(final(self)@.heap),
            old(self)@.others_kept(final(self)@, thread),
            r is Ok <==> size > 0 && alignment_supported(align as int) && old(self)@.can_allocate(
                thread,
                size as int,
                align as int,
            ),
            r is Ok ==> final(self)@ == old(self)@.allocated(
                thread,
                size as int,
                align as int,
                None,
            ),
            size == 0 || !old(self)@.can_admit(thread) ==> final(self)@ == old(self)@,
            size > 0 && old(self)@.can_admit(thread) ==> final(self)@.threads.contains(thread),
            match r {
                Ok((data, len)) => {
                    &&& final(self)@.newly_allocated(old(self)@, data - 32)
                    &&& final(self)@.heap.header(data - 32).drop_thunk is None
                    &&& data % align == 0
                    &&& len == final(self)@.heap.size(data - 32)
                    &&& len >= size
                    &&& data - 32 == old(self)@.block_for(thread, size as int, align as int)
                },
                Err(_) => size > 0 && alignment_supported(align as int) && old(self)@.can_admit(
                    thread,
                ) ==> {
                    &&& final(self)@.heap.region.length + pages_for(size as int) * 4096
                        > final(self)@.heap.region.reserved
                    &&& final(self)@.heap.region.length <= old(self)@.heap.region.length + 4096
                        + pages_for(size as int) * 4096
                    &&& none_fits(
                        final(self)@.heap,
                        final(self)@.list_of(thread),
                        size as int,
                        align as int,
                    )
                },
            },
    {
        if size == 0 {
            proof {
                self@.heap.lemma_allocated_kept(self@.heap, Set::empty());
            }
            return Err(AllocError);
        }
        match self.allocate_on(thread, size, align, None) {
            Ok(block) => Ok(block),
            Err(_) => Err(AllocError),
        }
    }

    /// Allocates `size` bytes aligned to `align` for `thread`, and returns
    /// their address and the length of the block that holds them.
    ///
    /// If the heap is out of memory, a collection cycle is waited for, with
    /// the roots `candidates`, and the allocation is tried once more. The
    /// range that is returned lies apart from every other block, and is
    /// aligned as asked.
    pub fn allocate(
        &mut self,
        thread: u64,
        size: usize,
        align: usize,
        candidates: &Vec<usize>,
    ) -> (r: Result<(usize, usize), AllocError>)
        requires
            old(self)@.wf(),
        ensures
            final(self)@.wf(),
            final(self)@.cycle == old(self)@.cycle || final(self)@.cycle == next_cycle(
                old(self)@.cycle,
            ),
            final(self)@.cycle == old(self)@.cycle ==> old(self)@.heap.allocated_kept(
                final(self)@.heap,
            ) && final(self)@.deallocated == old(self)@.deallocated
                && final(self)@.pending == old(self)@.pending,
            size == 0 || !alignment_supported(align as int) || !old(self)@.can_admit(thread)
                ==> r is Err,
            final(self)@.cycle == old(self)@.cycle <==> size == 0 || !alignment_supported(
                align as int,
            ) || old(self)@.can_allocate(thread, size as int, align as int),
            final(self)@.cycle == old(self)@.cycle ==> (r is Ok <==> size > 0
                && alignment_supported(align as int)),
            final(self)@.cycle == old(self)@.cycle ==> old(self)@.others_kept(final(self)@, thread),
            final(self)@.cycle == old(self)@.cycle && r is Ok ==> final(self)@ == old(self)@.allocated(
                thread,
                size as int,
                align as int,
                None,
            ),
            size == 0 ==> final(self)@ == old(self)@,
            size > 0 && alignment_supported(align as int) && !old(self)@.can_admit(thread)
                ==> old(self)@.collected(
                final(self)@,
                candidates@,
                final(self)@.pending.skip(old(self)@.pending.len() as int),
            ),
            final(self)@.cycle != old(self)@.cycle ==> old(self)@.retried(
                final(self)@,
                candidates@,
                (thread, size as int, align as int),
                match r {
                    Ok((data, _)) => Some(data - 32),
                    Err(_) => None,
                },
            ),
            match r {
                Ok((data, len)) => {
                    &&& final(self)@.heap.is_allocated(data - 32)
                    &&& !final(self)@.is_given_back(data - 32)
                    &&& final(self)@.heap.header(data - 32).drop_thunk is None
                    &&& data % align == 0
                    &&& len == final(self)@.heap.size(data - 32)
                    &&& len >= size
                    &&& forall|c: int| #[trigger]
                        final(self)@.heap.is_block(c) && c != data - 32
                            ==> final(self)@.heap.next(c) <= data - 32
                                || final(self)@.heap.next(data - 32) <= c
                    &&& final(self)@.cycle == old(self)@.cycle ==> final(self)@.newly_allocated(
                        old(self)@,
                        data - 32,
                    ) && data - 32 == old(self)@.block_for(thread, size as int, align as int)
                },
                Err(_) => size > 0 && alignment_supported(align as int) ==> {
                    &&& final(self)@.cycle == next_cycle(old(self)@.cycle)
                    &&& old(self)@.can_admit(thread) ==> {
                        &&& final(self)@.heap.region.length + pages_for(size as int) * 4096
                            > final(self)@.heap.region.reserved
                        &&& none_fits(
                            final(self)@.heap,
                            final(self)@.list_of(thread),
                            size as int,
                            align as int,
                        )
                    }
                },
            },
    {
        match self.try_allocate(thread, size, align) {
            Ok(block) => Ok(block),
            Err(e) => {
                // only a heap that is out of memory is worth a collection
                let retry: bool = size > 0 && align <= crate::gc::layout::MAX_ALIGN
                    && crate::gc::layout::check_power_of_two(align);
                if !retry {
                    return Err(e);
                }
                // The heap was out of memory: wait for a cycle to free some up, and
                // try again, once.
                let ghost failed = self@;
                self.wait_for_gc(candidates);
                let ghost cycled = self@;
                let r = self.try_allocate(thread, size, align);
                proof {
                    let due = cycled.pending.skip(failed.pending.len() as int);
                    let block = match r {
                        Ok((data, _)) => Some(data - 32),
                        Err(_) => None,
                    };
                    assert(old(self)@.retried_through(
                        failed,
                        cycled,
                        self@,
                        candidates@,
                        due,
                        (thread, size as int, align as int),
                        block,
                    ));
                }
                r
            },
        }
    }

    /// Gives back the block whose data starts at `ptr`: the block loses its
    /// destructor, which is not run, and waits in the queue until the next
    /// collection frees it.
    ///
    /// `ptr` must be the data of a block that is allocated and was not given
    /// back before, and `size` and `align` must fit that block.
    #[verifier::spinoff_prover]
    pub fn deallocate(&mut self, ptr: usize, size: usize, align: usize)
        requires
            old(self)@.wf(),
            old(self)@.heap.is_allocated(ptr - 32),
            !old(self)@.is_given_back(ptr - 32),
            size <= old(self)@.heap.size(ptr - 32),
            align > 0,
            ptr % align == 0,
        ensures
            final(self)@.wf(),
            final(self)@ == (GCAllocatorView {
                heap: old(self)@.heap.with_header(
                    ptr - 32,
                    crate::gc::heap_block_header::GCHeapBlockHeader {
                        drop_thunk: None,
                        ..old(self)@.heap.header(ptr - 32)
                    },
                ),
                deallocated: old(self)@.deallocated.push((ptr, size)),
                ..old(self)@
            }),
            final(self)@.is_given_back(ptr - 32),
            final(self)@.heap.is_allocated(ptr - 32),
    {
        let ghost before = self@;
        proof {
            before.heap.lemma_block(ptr - 32);
        }
        // the destructor must not run again
        let block: usize = match get_block(&self.heap, ptr) {
            Some(b) => b,
            None => {
                return ;
            },
        };
        proof {
            before.heap.lemma_block_of_unique(ptr as int, block as int, ptr - 32);
        }
        let mut header = self.heap.header(block);
        header.drop_thunk = None;
        proof {
            crate::gc::heap_block_header::lemma_flag_values();
            before.heap.lemma_with_header_wf(block as int, header);
            before.heap.lemma_kept_with_header(block as int, header, set![block as int]);
        }
        self.heap.set_header(block, &header);
        self.deallocated.push((ptr, size));
        proof {
            let after = self@;
            assert(after.allocators =~= before.allocators);
            assert forall|a: int| 0 <= a < after.allocators.len() implies (
            #[trigger] after.allocators[a]).wf(after.heap) by {
                let other = before.allocators[a];
                assert(other.wf(before.heap));
                assert forall|i: int|
                    #![trigger other.list[i]]
                    0 <= i < other.list.len() implies !set![block as int].contains(
                    other.list[i],
                ) by {
                    assert(before.heap.is_free(other.list[i]));
                }
                other.lemma_kept(before.heap, after.heap, set![block as int]);
            }
            assert(after.lists_disjoint()) by {
                assert forall|x: int, y: int, i: int, j: int|
                    #![trigger after.allocators[x].list[i], after.allocators[y].list[j]]
                    0 <= x < after.allocators.len() && 0 <= y < after.allocators.len() && x != y && 0
                        <= i < after.allocators[x].list.len() && 0 <= j
                        < after.allocators[y].list.len() implies after.allocators[x].list[i]
                    != after.allocators[y].list[j] by {
                    assert(before.allocators[x].list[i] != before.allocators[y].list[j]);
                }
            }
            assert(after.queue_ok()) by {
                assert forall|k: int|
                    #![trigger after.deallocated[k]]
                    0 <= k < after.deallocated.len() implies after.heap.is_allocated(
                    after.deallocated[k].0 - 32,
                ) && after.heap.thunk(after.deallocated[k].0 - 32) == 0 && after.deallocated[k].1
                    <= after.heap.size(after.deallocated[k].0 - 32) by {
                    if k < before.deallocated.len() {
                        let c = before.deallocated[k].0 - 32;
                        assert(before.heap.is_allocated(c));
                        assert(c != block);
                        assert(before.heap.is_block(c));
                        assert(after.heap.header(c) == before.heap.header(c));
                        crate::gc::free_list::lemma_header_parts(before.heap, after.heap, c);
                    }
                }
                assert forall|k: int, l: int|
                    #![trigger after.deallocated[k], after.deallocated[l]]
                    0 <= k < l < after.deallocated.len() implies after.deallocated[k].0
                    != after.deallocated[l].0 by {
                    if l < before.deallocated.len() {
                        assert(before.deallocated[k].0 != before.deallocated[l].0);
                    } else {
                        assert(before.deallocated[k].0 == (before.deallocated[k].0 - 32) + 32);
                    }
                }
            }
            assert(after.deallocated[before.deallocated.len() as int].0 == (ptr - 32) + 32);
        }
    }

    /// Allocates a block for a value of the type `T` for `thread`, with no
    /// destructor, and returns the address of its data, where nothing is
    /// written yet.
    pub fn allocate_for_type<T>(&mut self, thread: u64) -> (r: Result<usize, GCAllocatorError>)
        requires
            old(self)@.wf(),
        ensures
            final(self)@.wf(),
            final(self)@.cycle == old(self)@.cycle,
            final(self)@.deallocated == old(self)@.deallocated,
            final(self)@.pending == old(self)@.pending,
            final(self)@.heap.region.base == old(self)@.heap.region.base,
            final(self)@.heap.region.reserved == old(self)@.heap.region.reserved,
            old(self)@.heap.allocated_kept(final(self)@.heap),
            old(self)@.others_kept(final(self)@, thread),
            !old(self)@.can_admit(thread) ==> r == Err::<usize, GCAllocatorError>(
                GCAllocatorError::OutOfMemory,
            ),
            old(self)@.can_admit(thread) && core::mem::size_of::<T>() == 0 ==> r == Err::<
                usize,
                GCAllocatorError,
            >(GCAllocatorError::ZeroSized),
            old(self)@.can_admit(thread) && core::mem::size_of::<T>() > 0 && !alignment_supported(
                core::mem::align_of::<T>() as int,
            ) ==> r == Err::<usize, GCAllocatorError>(GCAllocatorError::BadAlignment),
            r is Ok ==> final(self)@ == old(self)@.allocated(
                thread,
                core::mem::size_of::<T>() as int,
                core::mem::align_of::<T>() as int,
                None,
            ),
            r is Ok <==> core::mem::size_of::<T>() > 0 && alignment_supported(
                core::mem::align_of::<T>() as int,
            ) && old(self)@.can_allocate(
                thread,
                core::mem::size_of::<T>() as int,
                core::mem::align_of::<T>() as int,
            ),
            match r {
                Ok(data) => {
                    &&& final(self)@.newly_allocated(old(self)@, data - 32)
                    &&& data - 32 == old(self)@.block_for(
                        thread,
                        core::mem::size_of::<T>() as int,
                        core::mem::align_of::<T>() as int,
                    )
                    &&& final(self)@.heap.header(data - 32).drop_thunk is None
                    &&& data % core::mem::align_of::<T>() == 0
                    &&& final(self)@.heap.size(data - 32) >= core::mem::size_of::<T>()
                },
                Err(e) => e == GCAllocatorError::OutOfMemory && old(self)@.can_admit(thread)
                    ==> final(self)@.heap.region.length + pages_for(
                    core::mem::size_of::<T>() as int,
                ) * 4096 > final(self)@.heap.region.reserved,
            },
    {
        let size: usize = core::mem::size_of::<T>();
        let align: usize = core::mem::align_of::<T>();
        match self.allocate_on(thread, size, align, None) {
            Ok((data, _len)) => Ok(data),
            Err(e) => Err(e),
        }
    }
}

/// Among threads that are listed once each, a thread is found where it
/// stands.
pub proof fn lemma_index_of_thread(threads: Seq<u64>, i: int)
    requires
        threads.no_duplicates(),
        0 <= i < threads.len(),
    ensures
        threads.index_of(threads[i]) == i,
{
    let j = threads.index_of(threads[i]);
    assert(threads.contains(threads[i]));
    assert(0 <= j < threads.len() && threads[j] == threads[i]);
}

} // verus!
