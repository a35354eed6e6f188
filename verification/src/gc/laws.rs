//! What holds of the heap whatever is asked of it.

use vstd::prelude::*;
use crate::gc::allocator::GCAllocatorView;
use crate::gc::collector::{has_destructor, Destructor};
use crate::gc::free_list::{lemma_header_parts, link_ok, list_bytes};
use crate::gc::heap::HeapView;
use crate::gc::heap_block_header::{BlockFittingError, Fit, GCHeapBlockHeader};
use crate::gc::layout::{is_power_of_two, padded};
use crate::gc::mem_source::committed_for;
use crate::gc::tl_allocator::walk::{
    allocated_block, allocated_heap, allocated_list, allocated_regions, allocated_with,
    can_allocate, first_fit, lemma_allocated_from_list, lemma_first_fit_bound,
    lemma_first_fit_frame, lemma_walk_found,
};
use crate::gc::tl_allocator::{alignment_supported, TLAllocatorView};

verus! {

/// A request that a block is made to fit: the block, and the size and the
/// alignment that are asked for.
pub struct Request {
    pub block: int,
    pub size: int,
    pub align: int,
}

/// Whether the address behind each block of the heap, as the size in its
/// header gives it, is the address of the next header, or the end of the heap
/// behind the last block.
pub open spec fn next_is_next_header(h: HeapView) -> bool {
    forall|i: int|
        #![trigger h.blocks[i]]
        0 <= i < h.blocks.len() ==> h.next(h.blocks[i]) == if i + 1 < h.blocks.len() {
            h.blocks[i + 1]
        } else {
            h.end()
        }
}

/// Whether the first `n` of `requests` can be served one after the other:
/// each asks for some bytes, aligned to a power of two, of a block that is
/// free when its turn comes.
pub open spec fn servable(h: HeapView, requests: Seq<Request>, n: int) -> bool
    decreases n,
{
    if n <= 0 {
        true
    } else {
        let r = requests[n - 1];
        &&& servable(h, requests, n - 1)
        &&& after_requests(h, requests, n - 1).is_free(r.block)
        &&& r.size > 0
        &&& is_power_of_two(r.align)
    }
}

/// The heap after blocks were made to fit the first `n` of `requests`, one
/// after the other.
pub open spec fn after_requests(h: HeapView, requests: Seq<Request>, n: int) -> HeapView
    decreases n,
{
    if n <= 0 {
        h
    } else {
        let r = requests[n - 1];
        after_requests(h, requests, n - 1).fitted(r.block, r.size, r.align)
    }
}

/// In a well-formed heap the address behind each block is the address of the
/// next header.
pub proof fn lemma_next_is_next_header(h: HeapView)
    requires
        h.wf(),
    ensures
        next_is_next_header(h),
{
    assert forall|i: int| #![trigger h.blocks[i]] 0 <= i < h.blocks.len() implies h.next(
        h.blocks[i],
    ) == if i + 1 < h.blocks.len() {
        h.blocks[i + 1]
    } else {
        h.end()
    } by {
        assert(h.block_ok(i));
    }
}

/// Making a block fit a request, whatever comes of it, leaves the heap well
/// formed and ending where it ended; every block stays a block, and at most
/// one block is new, which lies in what was the data of the block.
pub proof fn lemma_fit_keeps_blocks(h: HeapView, b: int, size: int, align: int)
    requires
        h.wf(),
        h.is_free(b),
        size > 0,
        is_power_of_two(align),
    ensures
        h.fitted(b, size, align).wf(),
        h.fitted(b, size, align).region == h.region,
        h.fitted(b, size, align).end() == h.end(),
        forall|c: int| h.is_block(c) ==> #[trigger] h.fitted(b, size, align).is_block(c),
        forall|c: int|
            #[trigger] h.fitted(b, size, align).is_block(c) && !h.is_block(c) ==> h.data(b) <= c
                && c + 32 <= h.next(b) && h.fitted_rest(b, size, align) == Some(c),
        next_is_next_header(h.fitted(b, size, align)),
{
    if h.fitting(b, size, align) is Ok {
        h.lemma_fitted(b, size, align);
        match h.fitting(b, size, align) {
            Ok(Fit::SplitTail { keep }) => {
                h.lemma_split_wf(b, keep);
            },
            Ok(Fit::SplitFront { keep }) => {
                h.lemma_split_wf(b, keep);
            },
            _ => {},
        }
    }
    lemma_next_is_next_header(h.fitted(b, size, align));
}

/// A block whose data is not aligned as asked, and that has room enough, is
/// cut in front: the block keeps its place on the free list, the new block
/// stands directly behind it, in the heap and on the free list, and ends where
/// the block ended; it is free, aligned as asked and large enough, and it is
/// the block that is handed out.
pub proof fn lemma_cut_in_front(h: HeapView, b: int, size: int, align: int, keep: int)
    requires
        h.wf(),
        h.is_free(b),
        size > 0,
        is_power_of_two(align),
        h.fitting(b, size, align) == Ok::<Fit, BlockFittingError>(Fit::SplitFront { keep }),
    ensures
        ({
            let after = h.fitted(b, size, align);
            let new = h.fitted_block(b, size, align);
            &&& new != b
            &&& after.next(b) == new
            &&& after.next(new) == h.next(b)
            &&& after.header(b).next_free == Some(new as usize)
            &&& after.header(new).next_free == h.header(b).next_free
            &&& after.is_free(b)
            &&& after.is_free(new)
            &&& after.data(new) % align == 0
            &&& after.size(new) >= size
        }),
{
    h.lemma_fitted(b, size, align);
    h.lemma_split_wf(b, keep);
    let after = h.fitted(b, size, align);
    lemma_header_parts(after, after, b);
    lemma_header_parts(after, after, b + 32 + keep);
    h.lemma_block(b);
}

/// After any sequence of blocks made to fit requests, cut in two or not, the
/// heap is well formed, and the address behind each block is the address of
/// the next header.
pub proof fn lemma_split_consistency(h: HeapView, requests: Seq<Request>, n: int)
    requires
        h.wf(),
        0 <= n <= requests.len(),
        servable(h, requests, n),
    ensures
        after_requests(h, requests, n).wf(),
        next_is_next_header(after_requests(h, requests, n)),
    decreases n,
{
    if n > 0 {
        lemma_split_consistency(h, requests, n - 1);
        let before = after_requests(h, requests, n - 1);
        let r = requests[n - 1];
        if before.fitting(r.block, r.size, r.align) is Ok {
            before.lemma_fitted(r.block, r.size, r.align);
        }
    }
    lemma_next_is_next_header(after_requests(h, requests, n));
}

/// The data of a block that has just been allocated shares no byte with the
/// data of another allocated block, and every other allocated block was
/// allocated before and is as it was.
pub proof fn lemma_allocation_validity(
    before: GCAllocatorView,
    after: GCAllocatorView,
    b: int,
    c: int,
)
    requires
        after.heap.wf(),
        after.newly_allocated(before, b),
        after.heap.is_allocated(c),
        c != b,
    ensures
        after.heap.next(c) <= after.heap.data(b) || after.heap.next(b) <= after.heap.data(c),
        before.heap.is_allocated(c),
        after.heap.header(c) == before.heap.header(c),
        forall|a: int| before.heap.in_data(c, a) ==> after.heap.mem[a] == before.heap.mem[a],
{
    assert(after.heap.is_block(c));
    after.heap.lemma_block(b);
    after.heap.lemma_block(c);
    assert(before.heap.is_allocated(c));
    assert forall|a: int| before.heap.in_data(c, a) implies after.heap.mem[a]
        == before.heap.mem[a] by {}
}

/// An allocation from a free list of one block that holds the request and a
/// block more: the block is cut behind the request and allocated, what is
/// left of it is the one block of the free list, and the region does not
/// grow. So the blocks that a thread allocates one after the other from its
/// page stand in ascending order.
pub proof fn lemma_allocation_from_one_block(
    gc: GCAllocatorView,
    thread: u64,
    size: int,
    align: int,
    thunk: Option<usize>,
)
    requires
        gc.wf(),
        gc.threads.contains(thread),
        gc.allocators[gc.threads.index_of(thread)].list.len() == 1,
        size > 0,
        alignment_supported(align),
        thunk != Some(0usize),
        padded(size) + 32 < gc.heap.size(gc.allocators[gc.threads.index_of(thread)].list[0]),
    ensures
        ({
            let i = gc.threads.index_of(thread);
            let b = gc.allocators[i].list[0];
            let rest = b + 32 + padded(size);
            let after = gc.allocated(thread, size, align, thunk);
            &&& gc.can_allocate(thread, size, align)
            &&& gc.block_for(thread, size, align) == b
            &&& after.threads == gc.threads
            &&& after.heap.region == gc.heap.region
            &&& after.heap.is_allocated(b)
            &&& after.heap.size(b) == padded(size)
            &&& after.heap.header(b).drop_thunk == thunk
            &&& after.allocators[i].list == seq![rest]
            &&& after.allocators[i].free_bytes == gc.allocators[i].free_bytes - padded(size) - 32
            &&& after.heap.is_free(rest)
            &&& after.heap.size(rest) == gc.heap.size(b) - padded(size) - 32
            &&& after.heap.next_free(rest) == 0
        }),
{
    let i = gc.threads.index_of(thread);
    let mine = gc.allocators[i];
    assert(gc.threads[i] == thread);
    assert(mine.wf(gc.heap));
    lemma_one_block(gc.heap, mine, size, align, thunk);
    assert(gc.admitted(thread) == gc);
}

/// The first allocation of a thread: the thread is given an allocator with a
/// page of the region, and its block is cut from the front of that page.
pub proof fn lemma_first_allocation(
    gc: GCAllocatorView,
    thread: u64,
    size: int,
    align: int,
    thunk: Option<usize>,
)
    requires
        gc.wf(),
        !gc.threads.contains(thread),
        gc.can_admit(thread),
        size > 0,
        alignment_supported(align),
        thunk != Some(0usize),
        padded(size) + 32 < 4096 - 32,
    ensures
        ({
            let i = gc.threads.len() as int;
            let b = gc.heap.end();
            let rest = b + 32 + padded(size);
            let after = gc.allocated(thread, size, align, thunk);
            &&& gc.can_allocate(thread, size, align)
            &&& gc.block_for(thread, size, align) == b
            &&& after.threads == gc.threads.push(thread)
            &&& after.heap.region.length == gc.heap.region.length + 4096
            &&& after.heap.is_allocated(b)
            &&& after.heap.size(b) == padded(size)
            &&& after.heap.header(b).drop_thunk == thunk
            &&& after.allocators[i].list == seq![rest]
            &&& after.allocators[i].free_bytes == 4096 - 32 - padded(size) - 32
            &&& after.heap.is_free(rest)
            &&& after.heap.size(rest) == 4096 - 32 - padded(size) - 32
        }),
{
    let with = gc.admitted(thread);
    let i = gc.threads.len() as int;
    let page = gc.heap.end();
    let mine = with.allocators[i];
    let committed = gc.heap.grown_committed(4096);
    crate::gc::layout::lemma_padded(size, 4096 - 32);
    assert(gc.heap.region.length + 4096 <= committed <= gc.heap.region.reserved) by {
        lemma_committed_covers(
            gc.heap.region.committed,
            gc.heap.region.length + 4096,
            gc.heap.region.reserved,
        );
    }
    gc.heap.lemma_grown_wf(4096, committed);
    lemma_header_parts(with.heap, with.heap, page);
    assert(mine.list.drop_last() =~= Seq::<int>::empty());
    assert(list_bytes(with.heap, Seq::<int>::empty()) == 0);
    assert(link_ok(with.heap, mine.list, 0));
    assert(mine.wf(with.heap));
    assert(with.threads[i] == thread);
    assert(with.threads.contains(thread));
    assert(with.threads.no_duplicates()) by {
        assert forall|x: int, y: int|
            0 <= x < with.threads.len() && 0 <= y < with.threads.len() && x != y implies with.threads[x]
            != with.threads[y] by {
            if x < i {
                assert(gc.threads.contains(gc.threads[x]));
            }
            if y < i {
                assert(gc.threads.contains(gc.threads[y]));
            }
        }
    }
    crate::gc::allocator::lemma_index_of_thread(with.threads, i);
    lemma_one_block(with.heap, mine, size, align, thunk);
}

/// What the region has committed after growing covers what it has handed
/// out, within what is reserved.
pub proof fn lemma_committed_covers(committed: int, length: int, reserved: int)
    requires
        0 < committed <= reserved,
        length <= reserved,
    ensures
        length <= committed_for(committed, length, reserved) <= reserved,
        committed <= committed_for(committed, length, reserved),
    decreases reserved - committed,
{
    if committed >= length || committed >= reserved {
    } else if committed <= reserved - committed {
        lemma_committed_covers(committed + committed, length, reserved);
    }
}

/// An allocation from a free list of one block that holds the request and a
/// block more, as the allocator of one thread sees it.
pub proof fn lemma_one_block(
    h: HeapView,
    a: TLAllocatorView,
    size: int,
    align: int,
    thunk: Option<usize>,
)
    requires
        h.wf(),
        a.wf(h),
        a.list.len() == 1,
        size > 0,
        alignment_supported(align),
        thunk != Some(0usize),
        padded(size) + 32 < h.size(a.list[0]),
    ensures
        ({
            let b = a.list[0];
            let rest = b + 32 + padded(size);
            let after = allocated_with(h, a, size, align, thunk);
            let list = allocated_list(h, a, size, align);
            &&& can_allocate(h, a, size, align)
            &&& allocated_block(h, a, size, align) == b
            &&& allocated_regions(h, a, size, align) == a.regions
            &&& list == seq![rest]
            &&& after.region == h.region
            &&& after.is_allocated(b)
            &&& after.size(b) == padded(size)
            &&& after.header(b).drop_thunk == thunk
            &&& after.is_free(rest)
            &&& after.size(rest) == h.size(b) - padded(size) - 32
            &&& after.next_free(rest) == 0
            &&& list_bytes(after, list) == a.free_bytes - padded(size) - 32
        }),
        ({
            let b = a.list[0];
            let rest = b + 32 + padded(size);
            let cut = allocated_heap(h, a, size, align);
            &&& cut.region == h.region
            &&& cut.is_allocated(b)
            &&& cut.size(b) == padded(size)
            &&& cut.is_free(rest)
            &&& cut.size(rest) == h.size(b) - padded(size) - 32
            &&& cut.blocks.len() == h.blocks.len() + 1
        }),
{
    let b = a.list[0];
    let rest = b + 32 + padded(size);
    assert(h.is_free(b));
    h.lemma_block(b);
    crate::gc::layout::lemma_padded(size, 0);
    crate::gc::layout::lemma_small_powers_of_two(align);
    assert(link_ok(h, a.list, 0));
    assert(a.list.drop_last() =~= Seq::<int>::empty());
    assert(list_bytes(h, Seq::<int>::empty()) == 0);
    assert(a.free_bytes == h.size(b));
    assert(h.data(b) == b + 32);
    assert((b + 32) % 16 == 0);
    assert(h.next_free(b) == 0);
    assert(h.fitting(b, size, align) == Ok::<Fit, BlockFittingError>(
        Fit::SplitTail { keep: padded(size) },
    ));
    assert forall|j: int| #![trigger a.list[j]] 0 <= j < 0 implies h.fitting(
        a.list[j],
        size,
        align,
    ) is Err by {}
    lemma_walk_found(h, a.list, size, align, 0);
    lemma_allocated_from_list(h, a, size, align);
    let cut = allocated_heap(h, a, size, align);
    let marked = GCHeapBlockHeader { drop_thunk: thunk, ..cut.header(b) };
    crate::gc::heap_block_header::lemma_flag_values();
    lemma_header_parts(cut, cut, b);
    cut.lemma_with_header_wf(b, marked);
    let after = allocated_with(h, a, size, align, thunk);
    let list = allocated_list(h, a, size, align);
    assert(list =~= seq![rest]);
    assert(cut.is_block(rest));
    lemma_header_parts(cut, after, rest);
    lemma_header_parts(after, after, b);
    assert(list.drop_last() =~= Seq::<int>::empty());
    assert(list_bytes(after, Seq::<int>::empty()) == 0);
}

/// Storing a value in an allocated block changes neither whether a block is
/// allocated for a request nor which: what the next allocation does is
/// decided by the allocator as the allocation before left it.
pub proof fn lemma_stored_keeps_room(
    gc: GCAllocatorView,
    after: GCAllocatorView,
    block: int,
    value: Seq<usize>,
    thread: u64,
    size: int,
    align: int,
)
    requires
        gc.wf(),
        gc.stored(after, block, value),
    ensures
        after.can_allocate(thread, size, align) == gc.can_allocate(thread, size, align),
        after.block_for(thread, size, align) == gc.block_for(thread, size, align),
{
    if gc.threads.contains(thread) {
        let mine = gc.allocators[gc.threads.index_of(thread)];
        assert(gc.threads[gc.threads.index_of(thread)] == thread);
        assert(mine.wf(gc.heap));
        assert forall|j: int| #![trigger mine.list[j]] 0 <= j < mine.list.len() implies after.heap.header(
            mine.list[j],
        ) == gc.heap.header(mine.list[j]) by {
            assert(gc.heap.is_free(mine.list[j]));
        }
        lemma_first_fit_frame(gc.heap, after.heap, mine.list, size, align, mine.list.len() as int);
        lemma_first_fit_bound(gc.heap, mine.list, size, align, mine.list.len() as int);
        let i = first_fit(gc.heap, mine.list, size, align, mine.list.len() as int);
        if i < mine.list.len() {
            gc.heap.lemma_fitting_frame(after.heap, mine.list[i], size, align);
        }
    }
}

/// Where one thread allocates, a request of the size of a block that a
/// collection cycle has freed is served after the cycle from the free list,
/// by memory that the heap held before, and the region does not grow.
pub proof fn lemma_reclaimed_memory_is_used(
    before: GCAllocatorView,
    after: GCAllocatorView,
    candidates: Seq<usize>,
    due: Seq<Destructor>,
    thread: u64,
    c: usize,
    size: int,
    align: int,
)
    requires
        before.wf(),
        after.wf(),
        before.collected(after, candidates, due),
        before.threads == seq![thread],
        before.heap.is_allocated(c as int),
        !before.heap.is_live(candidates, c),
        size > 0,
        alignment_supported(align),
        before.heap.size(c as int) == padded(size),
    ensures
        after.can_allocate(thread, size, align),
        after.heap.is_free(after.block_for(thread, size, align)),
        before.heap.is_block(after.block_for(thread, size, align)),
        after.allocated(thread, size, align, None).heap.region == before.heap.region,
{
    lemma_garbage_reclaimed(before, after, candidates, due, c);
    lemma_freed_block_serves(before.heap, after, thread, c as int, size, align);
}

/// A request of the size of a free block on the free list of the one thread
/// that allocates is served from the free list, and the region does not grow.
#[verifier::spinoff_prover]
pub proof fn lemma_freed_block_serves(
    before: HeapView,
    after: GCAllocatorView,
    thread: u64,
    c: int,
    size: int,
    align: int,
)
    requires
        before.wf(),
        after.wf(),
        after.threads == seq![thread],
        after.heap.blocks == before.blocks,
        after.heap.region == before.region,
        before.is_block(c),
        after.heap.is_free(c),
        after.is_listed(c),
        size > 0,
        alignment_supported(align),
        before.size(c) == padded(size),
    ensures
        after.can_allocate(thread, size, align),
        after.heap.is_free(after.block_for(thread, size, align)),
        before.is_block(after.block_for(thread, size, align)),
        after.allocated(thread, size, align, None).heap.region == before.region,
{
    assert(after.threads[0] == thread);
    assert(after.threads.contains(thread));
    crate::gc::allocator::lemma_index_of_thread(after.threads, 0);
    let mine = after.allocators[0];
    assert(mine.wf(after.heap));
    let a = choose|a: int|
        0 <= a < after.allocators.len() && (#[trigger] after.allocators[a]).list.contains(c);
    assert(a == 0);
    let k = mine.list.index_of(c);
    // the block has the size that it had, since the blocks stand where they stood
    assert(after.heap.size(c) == padded(size)) by {
        lemma_next_is_next_header(before);
        lemma_next_is_next_header(after.heap);
        let at = before.blocks.index_of(c);
        assert(before.blocks[at] == c);
        assert(after.heap.blocks[at] == c);
        assert(after.heap.next(c) == before.next(c));
    }
    lemma_listed_block_serves(after.heap, mine, k, size, align);
    assert(after.admitted(thread) == after);
}

/// A request of the size of a block of the free list is served from the free
/// list, by a block of the heap as it is, and the region does not grow.
#[verifier::spinoff_prover]
pub proof fn lemma_listed_block_serves(
    h: HeapView,
    a: TLAllocatorView,
    k: int,
    size: int,
    align: int,
)
    requires
        h.wf(),
        a.wf(h),
        0 <= k < a.list.len(),
        size > 0,
        alignment_supported(align),
        h.size(a.list[k]) == padded(size),
    ensures
        can_allocate(h, a, size, align),
        h.is_free(allocated_block(h, a, size, align)),
        allocated_with(h, a, size, align, None).region == h.region,
{
    let c = a.list[k];
    assert(h.is_free(c));
    h.lemma_block(c);
    crate::gc::layout::lemma_padded(size, 0);
    crate::gc::layout::lemma_small_powers_of_two(align);
    assert(h.data(c) == c + 32);
    assert((c + 32) % 16 == 0);
    assert(h.fitting(c, size, align) is Ok);
    // the free list holds the bytes, and a block that fits
    assert forall|j: int| #![trigger a.list[j]] 0 <= j < a.list.len() implies h.is_block(
        a.list[j],
    ) by {
        assert(h.is_free(a.list[j]));
    }
    let rest = a.list.remove(k);
    assert forall|j: int| #![trigger rest[j]] 0 <= j < rest.len() implies h.is_block(rest[j]) by {
        if j < k {
            assert(rest[j] == a.list[j]);
        } else {
            assert(rest[j] == a.list[j + 1]);
        }
    }
    crate::gc::free_list::lemma_bytes_remove(h, a.list, k);
    crate::gc::free_list::lemma_bytes_positive(h, rest);
    assert(a.free_bytes >= size);
    let n = a.list.len() as int;
    lemma_first_fit_bound(h, a.list, size, align, n);
    let i = first_fit(h, a.list, size, align, n);
    assert(i < n) by {
        if i >= n {
            assert(h.fitting(a.list[k], size, align) is Err);
        }
    }
    lemma_allocated_from_list(h, a, size, align);
    assert(h.is_free(a.list[i]));
}

/// A live block is allocated.
pub proof fn lemma_live_is_allocated(h: HeapView, candidates: Seq<usize>, c: usize)
    requires
        h.is_live(candidates, c),
    ensures
        h.is_allocated(c as int),
{
    let path = choose|path: Seq<usize>| #[trigger] h.is_path_from(candidates, path) && path.last()
        == c;
    if path.len() == 1 {
        let k = choose|k: int|
            0 <= k < candidates.len() && #[trigger] h.resolves_to(
                candidates[k] as int,
                path[0] as int,
            );
    } else {
        assert(h.step_ok(path, path.len() - 2));
        let from = path[path.len() - 2] as int;
        let k = choose|k: int|
            0 <= k < h.pointers(from).len() && #[trigger] h.resolves_to(
                h.pointers(from)[k] as int,
                c as int,
            );
    }
}

/// A block that the roots hold, or that is reached from such a block, and
/// that was not given back, is allocated after a collection cycle as it was
/// before, with its header and its data, and no destructor is due on it.
pub proof fn lemma_liveness_preserved(
    before: GCAllocatorView,
    after: GCAllocatorView,
    candidates: Seq<usize>,
    due: Seq<Destructor>,
    c: usize,
)
    requires
        before.collected(after, candidates, due),
        before.heap.is_live(candidates, c),
        !before.is_given_back(c as int),
    ensures
        after.heap.is_allocated(c as int),
        after.heap.header(c as int) == before.heap.header(c as int),
        forall|a: int| before.heap.in_data(c as int, a) ==> after.heap.mem[a] == before.heap.mem[a],
        !has_destructor(due, c + 32),
{
    lemma_live_is_allocated(before.heap, candidates, c);
    assert(!before.is_garbage(candidates, c));
    assert(after.heap.is_allocated(c as int));
    assert forall|a: int| before.heap.in_data(c as int, a) implies after.heap.mem[a]
        == before.heap.mem[a] by {}
    if has_destructor(due, c + 32) {
        let k = choose|k: int| 0 <= k < due.len() && (#[trigger] due[k]).data == c + 32;
        assert(before.is_swept(candidates, (due[k].data - 32) as usize));
    }
}

/// A block that is allocated and not live is free after one collection
/// cycle, and on the free list of an allocator, so that it can be allocated
/// again; and its destructor, if it has one, is due once.
pub proof fn lemma_garbage_reclaimed(
    before: GCAllocatorView,
    after: GCAllocatorView,
    candidates: Seq<usize>,
    due: Seq<Destructor>,
    c: usize,
)
    requires
        before.collected(after, candidates, due),
        before.heap.is_allocated(c as int),
        !before.heap.is_live(candidates, c),
    ensures
        after.heap.is_free(c as int),
        after.is_listed(c as int),
        !before.is_given_back(c as int) && before.heap.thunk(c as int) != 0 ==> has_destructor(
            due,
            c + 32,
        ),
        forall|k: int, l: int|
            0 <= k < due.len() && 0 <= l < due.len() && due[k].data == c + 32 && due[l].data == c
                + 32 ==> k == l,
{
    assert(before.is_garbage(candidates, c));
    assert(after.heap.is_free(c as int));
    if !before.is_given_back(c as int) && before.heap.thunk(c as int) != 0 {
        assert(before.is_swept(candidates, c));
        assert(has_destructor(due, c + 32));
    }
    assert forall|k: int, l: int|
        0 <= k < due.len() && 0 <= l < due.len() && due[k].data == c + 32 && due[l].data == c
            + 32 implies k == l by {
        if k < l {
            assert(due[k].data < due[l].data);
        } else if l < k {
            assert(due[l].data < due[k].data);
        }
    }
}

} // verus!
