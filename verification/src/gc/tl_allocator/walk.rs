//! The walk along a free list: which block the first fit picks, what the
//! walk leaves of the list, and how the free bytes add up afterwards.

use vstd::prelude::*;
use crate::gc::free_list::{
    is_free_list, lemma_bytes_positive, lemma_header_parts, lemma_insert_after, link_ok,
    list_bytes,
};
use crate::gc::heap::HeapView;
use crate::gc::heap_block_header::{fit_of, Fit, GCHeapBlockHeader};
use crate::gc::layout::{
    is_power_of_two, lemma_pages_cover, lemma_small_powers_of_two, padded, pages_for,
};
use crate::gc::tl_allocator::TLAllocatorView;

verus! {

/// The free list that holds the block at `list[idx]` after that block has been
/// made to fit a request: where the block was cut in two, the new block
/// stands behind it.
pub open spec fn fitted_list(h: HeapView, list: Seq<int>, idx: int, size: int, align: int) -> Seq<
    int,
> {
    match h.fitted_rest(list[idx], size, align) {
        Some(n) => list.insert(idx + 1, n),
        None => list,
    }
}

/// Making a block of a free list fit a request leaves a free list, with four
/// words less of free bytes where the block was cut in two, and touches no
/// other block.
#[verifier::spinoff_prover]
pub proof fn lemma_fit_list(
    before: HeapView,
    head: Option<usize>,
    list: Seq<int>,
    idx: int,
    size: int,
    align: int,
)
    requires
        before.wf(),
        is_free_list(before, head, list),
        0 <= idx < list.len(),
        size > 0,
        is_power_of_two(align),
        before.fitting(list[idx], size, align) is Ok,
    ensures
        ({
            let b = list[idx];
            let after = before.fitted(b, size, align);
            let then_list = fitted_list(before, list, idx, size, align);
            &&& after.wf()
            &&& is_free_list(after, head, then_list)
            &&& list_bytes(after, then_list) == list_bytes(before, list)
                - before.fitted_header_bytes(b, size, align)
            &&& before.kept(after, set![b])
            &&& before.fitted_rest(b, size, align) matches Some(n) ==> !before.is_block(n)
                && after.is_block(n) && then_list[idx + 1] == n
            &&& then_list[idx] == b
            &&& then_list.len() >= list.len()
        }),
{
    let b = list[idx];
    let after = before.fitted(b, size, align);
    assert(before.is_free(b));
    before.lemma_fitted(b, size, align);
    before.lemma_kept_refl(set![b]);
    match before.fitted_rest(b, size, align) {
        None => {},
        Some(n) => {
            let keep = n - 32 - b;
            assert(after == before.split(b, keep));
            before.lemma_split_wf(b, keep);
            before.lemma_kept_split(b, keep, set![b]);
            before.lemma_block(b);
            assert forall|k: int|
                #![trigger list[k]]
                0 <= k < list.len() && k != idx implies after.is_block(list[k]) && after.header(
                list[k],
            ) == before.header(list[k]) by {
                assert(before.is_free(list[k]));
                assert(before.is_block(list[k]));
            }
            assert(!list.contains(n)) by {
                if list.contains(n) {
                    let i = list.index_of(n);
                    assert(before.is_free(list[i]));
                }
            }
            assert(after.is_block(b));
            assert(after.is_block(n));
            lemma_insert_after(before, after, head, list, idx, n);
        },
    }
}

/// Every block of `after` is accounted for: it is on `then_list`, or it is the
/// block `taken`, or it was a block of `before` that was not on `list`.
pub open spec fn accounted(
    before: HeapView,
    list: Seq<int>,
    after: HeapView,
    then_list: Seq<int>,
    taken: Option<int>,
) -> bool {
    forall|c: int| #[trigger]
        after.is_block(c) ==> then_list.contains(c) || taken == Some(c) || (before.is_block(c)
            && !list.contains(c))
}

/// Blocks that are accounted for through one change and through the next are
/// accounted for through both, where the first change took no block.
pub proof fn lemma_accounted_trans(
    first: HeapView,
    first_list: Seq<int>,
    mid: HeapView,
    list: Seq<int>,
    after: HeapView,
    then_list: Seq<int>,
    taken: Option<int>,
)
    requires
        accounted(first, first_list, mid, list, None),
        accounted(mid, list, after, then_list, taken),
    ensures
        accounted(first, first_list, after, then_list, taken),
{
    assert forall|c: int| #[trigger] after.is_block(c) implies then_list.contains(c) || taken
        == Some(c) || (first.is_block(c) && !first_list.contains(c)) by {
        if !then_list.contains(c) && taken != Some(c) {
            assert(mid.is_block(c) && !list.contains(c));
        }
    }
}

/// Where neither the blocks nor the list change, every block is accounted
/// for.
pub proof fn lemma_accounted_same(before: HeapView, list: Seq<int>, after: HeapView)
    requires
        forall|c: int| #[trigger] after.is_block(c) ==> before.is_block(c),
    ensures
        accounted(before, list, after, list, None),
{
}

/// With the same blocks and one block off the list, every block is accounted
/// for, the one that was taken off as taken.
pub proof fn lemma_accounted_remove(before: HeapView, after: HeapView, list: Seq<int>, i: int)
    requires
        after.blocks == before.blocks,
        0 <= i < list.len(),
        0 <= list[i] <= usize::MAX,
    ensures
        accounted(before, list, after, list.remove(i), taken_block(Some(list[i] as usize))),
{
    let then_list = list.remove(i);
    assert forall|c: int| #[trigger] after.is_block(c) implies then_list.contains(c) || Some(c)
        == taken_block(Some(list[i] as usize)) || (before.is_block(c) && !list.contains(c)) by {
        if list.contains(c) && c != list[i] {
            let k = list.index_of(c);
            if k < i {
                assert(then_list[k] == c);
            } else {
                assert(then_list[k - 1] == c);
            }
        }
    }
}

/// The block that an operation took, as an address.
pub open spec fn taken_block(block: Option<usize>) -> Option<int> {
    match block {
        Some(b) => Some(b as int),
        None => None,
    }
}

/// The bytes that are free before and after balance: what the region has
/// handed out since is free, but for thirty-two bytes for the header of each
/// block that was made since, and for the bytes `taken` out of the free list.
pub open spec fn balanced(
    before: HeapView,
    free_before: int,
    after: HeapView,
    free_after: int,
    taken: int,
) -> bool {
    free_after + taken + 32 * (after.blocks.len() - before.blocks.len()) == free_before + (
    after.region.length - before.region.length)
}

/// Every block of `then_list` is a block of `list`, or was no block of `h`.
pub open spec fn list_from(h: HeapView, list: Seq<int>, then_list: Seq<int>) -> bool {
    forall|i: int|
        #![trigger then_list[i]]
        0 <= i < then_list.len() ==> list.contains(then_list[i]) || !h.is_block(then_list[i])
}

/// The place of the first block among the first `n` of `list` that fits a
/// request for `size` bytes aligned to `align`; `n` where none of them fits.
pub open spec fn first_fit(h: HeapView, list: Seq<int>, size: int, align: int, n: int) -> int
    decreases n,
{
    if n <= 0 {
        0
    } else {
        let i = first_fit(h, list, size, align, n - 1);
        if i < n - 1 {
            i
        } else if h.fitting(list[n - 1], size, align) is Ok {
            n - 1
        } else {
            n
        }
    }
}

/// Where none of the first `n` blocks of a list fits, no place is the first
/// fit; where the block at `n` fits then, it is.
pub proof fn lemma_first_fit(h: HeapView, list: Seq<int>, size: int, align: int, n: int)
    requires
        0 <= n <= list.len(),
        forall|j: int| #![trigger list[j]] 0 <= j < n ==> h.fitting(list[j], size, align) is Err,
    ensures
        first_fit(h, list, size, align, n) == n,
        forall|m: int|
            n < m <= list.len() && h.fitting(list[n], size, align) is Ok ==> #[trigger] first_fit(
                h,
                list,
                size,
                align,
                m,
            ) == n,
    decreases n,
{
    if n > 0 {
        lemma_first_fit(h, list, size, align, n - 1);
        assert(h.fitting(list[n - 1], size, align) is Err);
    }
    assert forall|m: int|
        n < m <= list.len() && h.fitting(list[n], size, align) is Ok implies #[trigger] first_fit(
        h,
        list,
        size,
        align,
        m,
    ) == n by {
        lemma_first_fit_stays(h, list, size, align, n, m);
    }
}

/// The first fit among some blocks is the first fit among more.
proof fn lemma_first_fit_stays(h: HeapView, list: Seq<int>, size: int, align: int, n: int, m: int)
    requires
        0 <= n < m <= list.len(),
        first_fit(h, list, size, align, n) == n,
        h.fitting(list[n], size, align) is Ok,
    ensures
        first_fit(h, list, size, align, m) == n,
    decreases m - n,
{
    if m > n + 1 {
        lemma_first_fit_stays(h, list, size, align, n, m - 1);
    }
}

/// A block that fits a request for an alignment that every block has is the
/// block that is handed out.
pub proof fn lemma_fitted_in_place(h: HeapView, b: int, size: int, align: int)
    requires
        h.data(b) % 16 == 0,
        0 < align <= 16,
        h.fitting(b, size, align) is Ok,
    ensures
        h.fitted_block(b, size, align) == b,
{
}

/// The block that a walk hands out where it finds a block of the free list
/// as it was at first that fits, before the heap has changed.
pub proof fn lemma_walk_found(h: HeapView, list: Seq<int>, size: int, align: int, idx: int)
    requires
        0 <= idx < list.len(),
        forall|j: int| #![trigger list[j]] 0 <= j < idx ==> h.fitting(list[j], size, align) is Err,
        h.fitting(list[idx], size, align) is Ok,
    ensures
        first_fit(h, list, size, align, list.len() as int) == idx,
        walked_block(h, list, size, align) == h.fitted_block(list[idx], size, align),
{
    lemma_first_fit(h, list, size, align, idx);
    if idx + 1 < list.len() {
        assert(first_fit(h, list, size, align, list.len() as int) == idx);
    } else {
        assert(first_fit(h, list, size, align, idx + 1) == idx);
    }
}

/// The block that a walk hands out where no block of the free list fits.
pub proof fn lemma_walk_none(h: HeapView, list: Seq<int>, size: int, align: int)
    requires
        forall|j: int|
            #![trigger list[j]]
            0 <= j < list.len() ==> h.fitting(list[j], size, align) is Err,
    ensures
        first_fit(h, list, size, align, list.len() as int) == list.len(),
        walked_block(h, list, size, align) == h.end(),
{
    lemma_first_fit(h, list, size, align, list.len() as int);
}

/// What the heap holds after it was expanded with the new block as the head
/// of the free list: the new block with the old head as its link, and the
/// blocks of before as they were.
#[verifier::spinoff_prover]
pub proof fn lemma_expanded_head(h: HeapView, head: Option<usize>, grown: HeapView, len: int)
    requires
        h.wf(),
        head matches Some(b) ==> h.is_free(b as int),
        len >= 4096,
        len % 4096 == 0,
        h.region.length + len <= grown.region.committed <= h.region.reserved,
        grown == expanded(h, head, None, len, grown.region.committed),
    ensures
        grown.next_free(h.end()) == 0 <==> head is None,
        grown.size(h.end()) == len - 32,
        grown.data(h.end()) % 16 == 0,
        grown.end() == h.end() + len,
        forall|c: int| #[trigger] h.is_block(c) ==> grown.header(c) == h.header(c),
{
    let n = h.end();
    let plain = h.grown(len, grown.region.committed);
    h.lemma_grown_wf(len, grown.region.committed);
    crate::gc::heap_block_header::lemma_flag_values();
    match head {
        Some(b) => {
            h.lemma_block(b as int);
        },
        None => {},
    }
    let linked = GCHeapBlockHeader { next_free: head, ..plain.header(n) };
    assert(plain.is_block(n));
    plain.lemma_block(n);
    plain.lemma_with_header_wf(n, linked);
    assert(grown.header(n) == linked);
    crate::gc::free_list::lemma_header_parts(grown, grown, n);
    assert forall|c: int| #[trigger] h.is_block(c) implies grown.header(c) == h.header(c) by {
        assert(plain.is_block(c));
    }
}

/// Where the free list holds fewer bytes than are asked for, and the heap was
/// expanded with the new block as the head of the free list, the walk hands
/// out the new block if it fits, and else the block that the heap is expanded
/// by once more.
#[verifier::spinoff_prover]
pub proof fn lemma_walk_expanded(
    h: HeapView,
    a: TLAllocatorView,
    grown: HeapView,
    size: int,
    align: int,
)
    requires
        h.wf(),
        a.wf(h),
        0 <= a.free_bytes < size,
        0 < align <= 16,
        h.region.length + pages_for(size) * 4096 <= grown.region.committed <= h.region.reserved,
        grown == expanded(h, a.head, None, pages_for(size) * 4096, grown.region.committed),
    ensures
        walked_block(grown, a.list.insert(0, h.end()), size, align) == allocated_block(
            h,
            a,
            size,
            align,
        ),
        first_fit(grown, a.list.insert(0, h.end()), size, align, (a.list.len() + 1) as int)
            <= a.list.len()
            <==> fit_of(
            pages_for(size) * 4096 - 32,
            h.end() + 32,
            a.head is None,
            size,
            align,
        ) is Ok,
{
    let n = h.end();
    let len = pages_for(size) * 4096;
    let list = a.list;
    let then_list = list.insert(0, n);
    lemma_pages_cover(size);
    if list.len() > 0 {
        assert(h.is_free(list[0]));
        h.lemma_block(list[0]);
    }
    lemma_expanded_head(h, a.head, grown, len);
    assert(then_list[0] == n);
    if grown.fitting(n, size, align) is Ok {
        assert forall|j: int| #![trigger then_list[j]] 0 <= j < 0 implies grown.fitting(
            then_list[j],
            size,
            align,
        ) is Err by {}
        lemma_walk_found(grown, then_list, size, align, 0);
        lemma_fitted_in_place(grown, n, size, align);
    } else {
        assert forall|j: int| #![trigger list[j]] 0 <= j < list.len() implies h.is_block(
            list[j],
        ) by {
            assert(h.is_free(list[j]));
        }
        lemma_too_small(h, list, size, align);
        assert forall|j: int| #![trigger then_list[j]] 0 <= j < then_list.len() implies grown.fitting(
            then_list[j],
            size,
            align,
        ) is Err by {
            if j > 0 {
                assert(then_list[j] == list[j - 1]);
                assert(h.fitting(list[j - 1], size, align) is Err);
                assert(h.is_block(list[j - 1]));
                h.lemma_fitting_frame(grown, list[j - 1], size, align);
            }
        }
        lemma_walk_none(grown, then_list, size, align);
    }
}

/// The block that a walk of the free list hands out for a request: what the
/// first block that fits is made to, or, where none fits, the block that the
/// heap is expanded by.
pub open spec fn walked_block(h: HeapView, list: Seq<int>, size: int, align: int) -> int {
    let i = first_fit(h, list, size, align, list.len() as int);
    if i < list.len() {
        h.fitted_block(list[i], size, align)
    } else {
        h.end()
    }
}

/// The block that is allocated for a request, where one is: that of a walk of
/// the free list, where the free list holds as many bytes as are asked for.
/// Where it does not, the heap is expanded first, and the new block is the
/// head of the free list; it is allocated if it fits, and else the block that
/// the heap is expanded by once more.
pub open spec fn allocated_block(h: HeapView, a: TLAllocatorView, size: int, align: int) -> int {
    if a.free_bytes < size {
        if fit_of(pages_for(size) * 4096 - 32, h.end() + 32, a.head is None, size, align) is Ok {
            h.end()
        } else {
            h.end() + pages_for(size) * 4096
        }
    } else {
        walked_block(h, a.list, size, align)
    }
}

/// No block of `list` fits a request for `size` bytes aligned to `align`.
pub open spec fn none_fits(h: HeapView, list: Seq<int>, size: int, align: int) -> bool {
    forall|i: int| #![trigger list[i]] 0 <= i < list.len() ==> h.fitting(list[i], size, align) is Err
}

/// The heap after the block at the place `i` has been taken off `list`: the
/// block before it is linked to the block behind it.
pub open spec fn unlinked(h: HeapView, list: Seq<int>, i: int) -> HeapView {
    if i > 0 {
        h.with_header(
            list[i - 1],
            GCHeapBlockHeader { next_free: h.header(list[i]).next_free, ..h.header(list[i - 1]) },
        )
    } else {
        h
    }
}

/// The heap after the block at the place `i` has been taken off `list` and
/// marked allocated.
pub open spec fn taken(h: HeapView, list: Seq<int>, i: int) -> HeapView {
    let off = unlinked(h, list, i);
    off.with_header(
        list[i],
        GCHeapBlockHeader { flags: 1, next_free: None, ..off.header(list[i]) },
    )
}

/// The heap in which a walk of the free list finds the block that it hands
/// out: the heap as it was, where a block of the list fits, and else the heap
/// expanded by a block behind the last of the list. `committed` is what the
/// region has committed afterwards.
#[verifier::opaque]
pub open spec fn walk_base(
    h: HeapView,
    a: TLAllocatorView,
    size: int,
    align: int,
    committed: int,
) -> HeapView {
    if first_fit(h, a.list, size, align, a.list.len() as int) < a.list.len() {
        h
    } else {
        expanded(h, a.head, Some(a.list.last() as usize), pages_for(size) * 4096, committed)
    }
}

/// The free list in which a walk finds the block that it hands out: with the
/// block that the heap was expanded by behind it, where none of the list fits.
pub open spec fn walk_list(h: HeapView, a: TLAllocatorView, size: int, align: int) -> Seq<int> {
    if first_fit(h, a.list, size, align, a.list.len() as int) < a.list.len() {
        a.list
    } else {
        a.list.push(h.end())
    }
}

/// What the region has committed after a walk of the free list: more than
/// before where none of the list fits.
pub open spec fn walk_committed(h: HeapView, a: TLAllocatorView, size: int, align: int) -> int {
    if first_fit(h, a.list, size, align, a.list.len() as int) < a.list.len() {
        h.region.committed
    } else {
        h.grown_committed(pages_for(size) * 4096)
    }
}

/// The heap after a walk of the free list has handed out a block: the first
/// block that fits is cut to fit, taken off the list and marked allocated.
pub open spec fn walked_heap(
    h: HeapView,
    a: TLAllocatorView,
    size: int,
    align: int,
    committed: int,
) -> HeapView {
    let base = walk_base(h, a, size, align, committed);
    let list = walk_list(h, a, size, align);
    let i = first_fit(h, a.list, size, align, a.list.len() as int);
    taken(base.fitted(list[i], size, align), fitted_list(base, list, i, size, align), i)
}

/// The free list after a walk has handed out a block: without that block, and
/// with what was cut off it in its place.
pub open spec fn walked_list(
    h: HeapView,
    a: TLAllocatorView,
    size: int,
    align: int,
    committed: int,
) -> Seq<int> {
    let base = walk_base(h, a, size, align, committed);
    let list = walk_list(h, a, size, align);
    let i = first_fit(h, a.list, size, align, a.list.len() as int);
    fitted_list(base, list, i, size, align).remove(i)
}

/// The regions of an allocator after a walk: with the block that the heap was
/// expanded by, where none of the list fits.
pub open spec fn walked_regions(h: HeapView, a: TLAllocatorView, size: int, align: int) -> Seq<
    (usize, usize),
> {
    if first_fit(h, a.list, size, align, a.list.len() as int) < a.list.len() {
        a.regions
    } else {
        a.regions.push((h.end() as usize, (pages_for(size) * 4096) as usize))
    }
}

/// The heap before the walk for a request: expanded by a block at the head
/// of the free list, where that list holds fewer bytes than are asked for.
pub open spec fn ready_heap(h: HeapView, a: TLAllocatorView, size: int) -> HeapView {
    if a.free_bytes < size {
        expanded(
            h,
            a.head,
            None,
            pages_for(size) * 4096,
            h.grown_committed(pages_for(size) * 4096),
        )
    } else {
        h
    }
}

/// The allocator before the walk for a request: with the block that the heap
/// was expanded by at the head of its free list, where that list holds fewer
/// bytes than are asked for.
pub open spec fn ready(h: HeapView, a: TLAllocatorView, size: int) -> TLAllocatorView {
    if a.free_bytes < size {
        TLAllocatorView {
            head: Some(h.end() as usize),
            free_bytes: a.free_bytes + pages_for(size) * 4096 - 32,
            list: a.list.insert(0, h.end()),
            regions: a.regions.push((h.end() as usize, (pages_for(size) * 4096) as usize)),
        }
    } else {
        a
    }
}

/// The heap after a block has been allocated for a request for `size` bytes
/// aligned to `align`.
pub open spec fn allocated_heap(h: HeapView, a: TLAllocatorView, size: int, align: int) -> HeapView {
    let before = ready_heap(h, a, size);
    let with = ready(h, a, size);
    walked_heap(before, with, size, align, walk_committed(before, with, size, align))
}

/// The heap after a block has been allocated for a request and given the
/// destructor `thunk`.
pub open spec fn allocated_with(
    h: HeapView,
    a: TLAllocatorView,
    size: int,
    align: int,
    thunk: Option<usize>,
) -> HeapView {
    let heap = allocated_heap(h, a, size, align);
    let block = allocated_block(h, a, size, align);
    heap.with_header(block, GCHeapBlockHeader { drop_thunk: thunk, ..heap.header(block) })
}

/// The free list after a block has been allocated for a request.
pub open spec fn allocated_list(h: HeapView, a: TLAllocatorView, size: int, align: int) -> Seq<
    int,
> {
    let before = ready_heap(h, a, size);
    let with = ready(h, a, size);
    walked_list(before, with, size, align, walk_committed(before, with, size, align))
}

/// The regions of an allocator after a block has been allocated for a
/// request.
pub open spec fn allocated_regions(h: HeapView, a: TLAllocatorView, size: int, align: int) -> Seq<
    (usize, usize),
> {
    walked_regions(ready_heap(h, a, size), ready(h, a, size), size, align)
}

/// Which block is the first fit depends on the headers of the blocks only.
pub proof fn lemma_first_fit_frame(
    h: HeapView,
    after: HeapView,
    list: Seq<int>,
    size: int,
    align: int,
    n: int,
)
    requires
        0 <= n <= list.len(),
        forall|j: int| #![trigger list[j]] 0 <= j < n ==> after.header(list[j]) == h.header(list[j]),
    ensures
        first_fit(after, list, size, align, n) == first_fit(h, list, size, align, n),
    decreases n,
{
    if n > 0 {
        lemma_first_fit_frame(h, after, list, size, align, n - 1);
        h.lemma_fitting_frame(after, list[n - 1], size, align);
    }
}

/// The first fit, where there is one, fits.
pub proof fn lemma_first_fit_fits(h: HeapView, list: Seq<int>, size: int, align: int, n: int)
    requires
        0 <= n <= list.len(),
        first_fit(h, list, size, align, n) < n,
    ensures
        0 <= first_fit(h, list, size, align, n),
        h.fitting(list[first_fit(h, list, size, align, n)], size, align) is Ok,
        forall|j: int|
            #![trigger list[j]]
            0 <= j < first_fit(h, list, size, align, n) ==> h.fitting(list[j], size, align) is Err,
    decreases n,
{
    if n > 0 {
        let i = first_fit(h, list, size, align, n - 1);
        if i < n - 1 {
            lemma_first_fit_fits(h, list, size, align, n - 1);
        } else {
            lemma_first_fit_bound(h, list, size, align, n - 1);
        }
    }
}

/// The first fit among the first `n` blocks is a place among them, or `n`,
/// and no block before it fits.
pub proof fn lemma_first_fit_bound(h: HeapView, list: Seq<int>, size: int, align: int, n: int)
    requires
        0 <= n <= list.len(),
    ensures
        0 <= first_fit(h, list, size, align, n) <= n,
        forall|j: int|
            #![trigger list[j]]
            0 <= j < first_fit(h, list, size, align, n) ==> h.fitting(list[j], size, align) is Err,
    decreases n,
{
    if n > 0 {
        lemma_first_fit_bound(h, list, size, align, n - 1);
    }
}

/// What an allocation leaves where the free list holds the bytes that are
/// asked for and a block of it fits: its first block that fits is allocated,
/// with no more bytes than the request takes where the rest can be a block
/// of its own, which then stands in its place on the free list. The region
/// does not grow, and no other header changes but the link of the block
/// before.
#[verifier::spinoff_prover]
pub proof fn lemma_allocated_from_list(h: HeapView, a: TLAllocatorView, size: int, align: int)
    requires
        h.wf(),
        a.wf(h),
        size > 0,
        is_power_of_two(align),
        align <= 16,
        a.free_bytes >= size,
        first_fit(h, a.list, size, align, a.list.len() as int) < a.list.len(),
    ensures
        ({
            let i = first_fit(h, a.list, size, align, a.list.len() as int);
            let b = a.list[i];
            let after = allocated_heap(h, a, size, align);
            let list = allocated_list(h, a, size, align);
            &&& 0 <= i
            &&& allocated_block(h, a, size, align) == b
            &&& allocated_regions(h, a, size, align) == a.regions
            &&& after.wf()
            &&& after.region == h.region
            &&& after.is_allocated(b)
            &&& after.header(b).drop_thunk is None
            &&& forall|c: int|
                h.is_block(c) && c != b && !(i > 0 && c == a.list[i - 1]) ==> #[trigger] after.header(
                    c,
                ) == h.header(c)
            &&& match h.fitting(b, size, align) {
                Ok(Fit::SplitTail { keep }) => {
                    let rest = b + 32 + keep;
                    &&& keep == padded(size)
                    &&& after.size(b) == keep
                    &&& list == a.list.update(i, rest)
                    &&& after.header(rest) == (GCHeapBlockHeader {
                        next_free: h.header(b).next_free,
                        size: (h.size(b) - keep - 32) as usize,
                        flags: 0,
                        drop_thunk: None,
                    })
                    &&& after.blocks.len() == h.blocks.len() + 1
                    &&& after.is_free(rest)
                    &&& i > 0 ==> after.header(a.list[i - 1]) == (GCHeapBlockHeader {
                        next_free: Some(rest as usize),
                        ..h.header(a.list[i - 1])
                    })
                },
                _ => {
                    &&& after.size(b) == h.size(b)
                    &&& list == a.list.remove(i)
                    &&& after.blocks == h.blocks
                    &&& i > 0 ==> after.header(a.list[i - 1]) == (GCHeapBlockHeader {
                        next_free: h.header(b).next_free,
                        ..h.header(a.list[i - 1])
                    })
                },
            }
        }),
{
    let n = a.list.len() as int;
    let i = first_fit(h, a.list, size, align, n);
    lemma_first_fit_fits(h, a.list, size, align, n);
    let b = a.list[i];
    assert(h.is_free(b));
    h.lemma_block(b);
    lemma_walk_found(h, a.list, size, align, i);
    lemma_fitted_in_place(h, b, size, align);
    h.lemma_fitted(b, size, align);
    crate::gc::heap_block_header::lemma_flag_values();
    assert(walk_base(h, a, size, align, h.region.committed) == h) by {
        reveal(walk_base);
    }
    let cut = h.fitted(b, size, align);
    let through = fitted_list(h, a.list, i, size, align);
    if i > 0 {
        assert(h.is_free(a.list[i - 1]));
        h.lemma_block(a.list[i - 1]);
        assert(a.list[i - 1] != a.list[i]);
    }
    match h.fitting(b, size, align) {
        Ok(Fit::SplitTail { keep }) => {
            h.lemma_split_wf(b, keep);
        },
        _ => {},
    }
    assert(through[i] == b);
    if i > 0 {
        assert(through[i - 1] == a.list[i - 1]);
        let link = GCHeapBlockHeader {
            next_free: cut.header(b).next_free,
            ..cut.header(a.list[i - 1])
        };
        cut.lemma_with_header_wf(a.list[i - 1], link);
    }
    let off = unlinked(cut, through, i);
    assert(off.wf());
    assert(off.is_block(b));
    assert(off.header(b) == cut.header(b));
    let marked = GCHeapBlockHeader { flags: 1, next_free: None, ..off.header(b) };
    off.lemma_with_header_wf(b, marked);
    let after = allocated_heap(h, a, size, align);
    assert(after == off.with_header(b, marked));
    crate::gc::free_list::lemma_header_parts(after, after, b);
    assert forall|c: int|
        h.is_block(c) && c != b && !(i > 0 && c == a.list[i - 1]) implies #[trigger] after.header(
        c,
    ) == h.header(c) by {
        assert(cut.is_block(c));
        assert(cut.header(c) == h.header(c));
        assert(off.is_block(c));
        assert(off.header(c) == cut.header(c));
    }
    match h.fitting(b, size, align) {
        Ok(Fit::SplitTail { keep }) => {
            assert(through.remove(i) =~= a.list.update(i, b + 32 + keep));
            let rest = b + 32 + keep;
            assert(cut.is_block(rest));
            assert(off.header(rest) == cut.header(rest));
            assert(after.header(rest) == off.header(rest));
            assert(after.is_block(rest));
            crate::gc::free_list::lemma_header_parts(after, after, rest);
            h.lemma_split_mem(b, keep);
            assert(h.blocks.contains(b));
            assert(cut.blocks.len() == h.blocks.len() + 1);
        },
        _ => {},
    }
}

/// Whether the region can grow by the pages that a request for `size` bytes
/// takes.
pub open spec fn can_expand(h: HeapView, size: int) -> bool {
    h.region.length + pages_for(size) * 4096 <= h.region.reserved
}

/// Whether a walk of the free list hands out a block for a request: a block
/// of the list fits, or the heap can be expanded.
pub open spec fn walk_succeeds(h: HeapView, list: Seq<int>, size: int, align: int) -> bool {
    first_fit(h, list, size, align, list.len() as int) < list.len() || can_expand(h, size)
}

/// Whether a block is allocated for a request for `size` bytes, which are
/// more than none, aligned to `align`, which is an alignment that is
/// supported.
///
/// Where the free list holds as many bytes as are asked for, the walk must
/// succeed. Where it does not, the heap must have room to be expanded, and
/// once more if the new block, as the head of the free list, does not fit.
pub open spec fn can_allocate(h: HeapView, a: TLAllocatorView, size: int, align: int) -> bool {
    if a.free_bytes < size {
        &&& can_expand(h, size)
        &&& fit_of(pages_for(size) * 4096 - 32, h.end() + 32, a.head is None, size, align) is Ok
            || h.region.length + 2 * pages_for(size) * 4096 <= h.region.reserved
    } else {
        walk_succeeds(h, a.list, size, align)
    }
}

/// A walk hands out a block exactly where a block of the free list fits or
/// the heap can be expanded.
pub proof fn lemma_walk_succeeds(
    h: HeapView,
    list: Seq<int>,
    after: HeapView,
    block: Option<int>,
    size: int,
    align: int,
)
    requires
        h.wf(),
        after.wf(),
        size > 0,
        after.region.base == h.region.base,
        after.region.reserved == h.region.reserved,
        after.region.length >= h.region.length,
        match block {
            Some(b) => b == walked_block(h, list, size, align) && after.is_allocated(b)
                && after.size(b) >= size,
            None => after == h && none_fits(h, list, size, align) && !can_expand(h, size),
        },
    ensures
        block is Some <==> walk_succeeds(h, list, size, align),
{
    match block {
        Some(b) => {
            if first_fit(h, list, size, align, list.len() as int) >= list.len() {
                after.lemma_block(b);
                crate::gc::layout::lemma_pages_least(size, after.region.length - h.region.length);
            }
        },
        None => {
            lemma_walk_none(h, list, size, align);
        },
    }
}

/// Blocks that come from a list of blocks that come from a first list come
/// from the first list.
pub proof fn lemma_list_from_trans(
    first: HeapView,
    mid: HeapView,
    first_list: Seq<int>,
    list: Seq<int>,
    then_list: Seq<int>,
)
    requires
        list_from(first, first_list, list),
        list_from(mid, list, then_list),
        forall|c: int| #[trigger] first.is_block(c) ==> mid.is_block(c),
    ensures
        list_from(first, first_list, then_list),
{
    assert forall|i: int| #![trigger then_list[i]] 0 <= i < then_list.len() implies first_list.contains(
        then_list[i],
    ) || !first.is_block(then_list[i]) by {
        if list.contains(then_list[i]) {
            let k = list.index_of(then_list[i]);
            assert(first_list.contains(list[k]) || !first.is_block(list[k]));
        }
    }
}

/// Of blocks that come from a first list, those that were blocks of the heap
/// at first are blocks of the first list.
pub proof fn lemma_list_from_touched(
    first: HeapView,
    first_list: Seq<int>,
    list: Seq<int>,
    touched: Set<int>,
)
    requires
        list_from(first, first_list, list),
        forall|c: int| #[trigger] touched.contains(c) ==> list.contains(c),
    ensures
        forall|c: int|
            first.is_block(c) && #[trigger] touched.contains(c) ==> first_list.to_set().contains(c),
{
    assert forall|c: int| first.is_block(c)
        && #[trigger] touched.contains(c) implies first_list.to_set().contains(
        c,
    ) by {
        let k = list.index_of(c);
        assert(first_list.contains(list[k]) || !first.is_block(list[k]));
    }
}

/// In a sequence without repetition, a value is found where it stands.
pub proof fn lemma_index_of(list: Seq<int>, i: int)
    requires
        list.no_duplicates(),
        0 <= i < list.len(),
    ensures
        list.index_of(list[i]) == i,
{
    let j = list.index_of(list[i]);
    assert(list.contains(list[i]));
    assert(0 <= j < list.len() && list[j] == list[i]);
}

/// The one block whose link an operation changes, or none.
pub open spec fn link_set(block: Option<usize>) -> Set<int> {
    match block {
        Some(b) => set![b as int],
        None => Set::empty(),
    }
}

/// A block that the heap was expanded by for a request, and that is the last
/// of its free list, fits the request, if the alignment asked for is no
/// greater than that of every block.
#[verifier::spinoff_prover]
pub proof fn lemma_fresh_fits(h: HeapView, n: int, size: int, align: int)
    requires
        h.wf(),
        h.is_free(n),
        h.next_free(n) == 0,
        h.size(n) == pages_for(size) * 4096 - 32,
        size > 0,
        is_power_of_two(align),
        align <= 16,
    ensures
        h.fitting(n, size, align) is Ok,
{
    h.lemma_block(n);
    lemma_pages_cover(size);
    crate::gc::layout::lemma_padded(size, h.size(n));
    lemma_small_powers_of_two(align);
    assert(h.data(n) % 16 == 0);
}

/// What holds after the heap was expanded for a request behind the last block
/// of a free list: the list is longer by the new block; its blocks that did
/// not fit the request before do not fit it now; and the new block fits it,
/// if the alignment asked for is no greater than that of every block.
#[verifier::spinoff_prover]
pub proof fn lemma_after_expand(
    before: HeapView,
    after: HeapView,
    head: Option<usize>,
    list: Seq<int>,
    size: int,
    align: int,
)
    requires
        before.wf(),
        is_free_list(before, head, list),
        list.len() > 0,
        before.region.length + pages_for(size) * 4096 <= after.region.committed
            <= before.region.reserved,
        after == expanded(
            before,
            head,
            Some(list.last() as usize),
            pages_for(size) * 4096,
            after.region.committed,
        ),
        size >= 0,
    ensures
        list_from(before, list, list.push(before.end())),
        forall|j: int|
            #![trigger list[j]]
            0 <= j < list.len() && before.fitting(list[j], size, align) is Err ==> after.fitting(
                list[j],
                size,
                align,
            ) is Err,
        size > 0 && is_power_of_two(align) && align <= 16 ==> after.fitting(
            before.end(),
            size,
            align,
        ) is Ok,
{
    let n = before.end();
    let then_list = list.push(n);
    let last = list.last();
    let len = pages_for(size) * 4096;
    let grown = before.grown(len, after.region.committed);
    assert(len >= 4096 && len % 4096 == 0);
    before.lemma_grown_wf(len, after.region.committed);
    assert(before.is_free(list[list.len() - 1]));
    before.lemma_block(last);
    assert(grown.is_block(last));
    let linked_header = GCHeapBlockHeader {
        next_free: Some(n as usize),
        ..grown.header(last)
    };
    assert(after == grown.with_header(last, linked_header));
    grown.lemma_block(last);
    crate::gc::heap_block_header::lemma_flag_values();
    assert(grown.header(last) == before.header(last));
    assert(grown.flags(last) == 0);
    grown.lemma_with_header_wf(last, linked_header);
    assert forall|i: int|
        #![trigger then_list[i]]
        0 <= i < then_list.len() implies list.contains(then_list[i]) || !before.is_block(
        then_list[i],
    ) by {
        if i < list.len() {
            assert(then_list[i] == list[i]);
            assert(list.contains(list[i]));
        }
    }
    assert forall|j: int|
        #![trigger list[j]]
        0 <= j < list.len() && before.fitting(list[j], size, align) is Err implies after.fitting(
        list[j],
        size,
        align,
    ) is Err by {
        assert(before.is_free(list[j]));
        assert(before.is_block(list[j]));
        assert(grown.is_block(list[j]));
        assert(grown.header(list[j]) == before.header(list[j]));
        if list[j] != last {
            assert(after.header(list[j]) == grown.header(list[j]));
            before.lemma_fitting_frame(after, list[j], size, align);
        } else {
            assert(link_ok(before, list, list.len() - 1));
            before.lemma_fitting_linked(after, list[j], size, align);
        }
    }
    if size > 0 && is_power_of_two(align) && align <= 16 {
        assert(grown.is_block(n));
        assert(after.header(n) == grown.header(n));
        lemma_fresh_fits(after, n, size, align);
    }
}

/// The heap after it has grown by `len` bytes, which make one new free block
/// that is linked behind `last_block`, or before `head` where none is given.
pub open spec fn expanded(
    h: HeapView,
    head: Option<usize>,
    last_block: Option<usize>,
    len: int,
    committed: int,
) -> HeapView {
    let grown = h.grown(len, committed);
    match last_block {
        None => grown.with_header(
            h.end(),
            GCHeapBlockHeader { next_free: head, ..grown.header(h.end()) },
        ),
        Some(b) => grown.with_header(
            b as int,
            GCHeapBlockHeader { next_free: Some(h.end() as usize), ..grown.header(b as int) },
        ),
    }
}

/// Every block of a list is a block of that list.
pub proof fn lemma_list_from_refl(h: HeapView, list: Seq<int>)
    ensures
        list_from(h, list, list),
{
    assert forall|i: int| #![trigger list[i]] 0 <= i < list.len() implies list.contains(list[i])
        || !h.is_block(list[i]) by {
        assert(list.contains(list[i]));
    }
}

/// Blocks with fewer bytes than a request, all together, fit it none.
pub proof fn lemma_too_small(h: HeapView, list: Seq<int>, size: int, align: int)
    requires
        h.wf(),
        forall|j: int| #![trigger list[j]] 0 <= j < list.len() ==> h.is_block(list[j]),
        list_bytes(h, list) < size,
    ensures
        none_fits(h, list, size, align),
{
    assert forall|i: int| #![trigger list[i]] 0 <= i < list.len() implies h.fitting(
        list[i],
        size,
        align,
    ) is Err by {
        crate::gc::free_list::lemma_bytes_remove(h, list, i);
        let rest = list.remove(i);
        assert forall|j: int| #![trigger rest[j]] 0 <= j < rest.len() implies h.is_block(
            rest[j],
        ) by {
            let j0 = if j < i {
                j
            } else {
                j + 1
            };
            assert(rest[j] == list[j0]);
        }
        lemma_bytes_positive(h, rest);
    }
}

} // verus!
