//! The collector: which blocks the roots hold, which blocks those reach, and
//! what becomes of the rest.

use std::collections::HashSet;
use vstd::prelude::*;
use crate::gc::free_list::blocks_end;
use crate::gc::heap::{data_words, Heap, HeapView};

verus! {

broadcast use vstd::std_specs::hash::group_hash_axioms;

impl HeapView {
    /// Whether the candidate pointer `ptr` holds the block at `b`: the block
    /// is allocated, and `ptr` points behind the start of its header and
    /// before its end. A pointer to the header itself holds nothing.
    pub open spec fn resolves_to(self, ptr: int, b: int) -> bool {
        self.is_allocated(b) && b < ptr < self.next(b)
    }

    /// Whether one of the first `n` of `roots` holds the block at `b`.
    pub open spec fn is_root_block(self, roots: Seq<usize>, n: int, b: int) -> bool {
        exists|j: int| 0 <= j < n && #[trigger] self.resolves_to(roots[j] as int, b)
    }

    /// An address lies in one block at most.
    pub proof fn lemma_block_of_unique(self, ptr: int, b: int, c: int)
        requires
            self.wf(),
            self.is_block(b),
            self.is_block(c),
            b <= ptr < self.next(b),
            c <= ptr < self.next(c),
        ensures
            b == c,
    {
        if b != c {
            self.lemma_blocks_disjoint(b, c);
        }
    }

    /// Where the `i`-th block starts, the blocks before it have ended;
    /// behind the last block, the heap ends.
    pub proof fn lemma_blocks_end(self, i: int)
        requires
            self.wf(),
            0 <= i < self.blocks.len(),
        ensures
            self.next(self.blocks[i]) == blocks_end(self, i + 1),
            self.is_block(self.blocks[i]),
            blocks_end(self, i + 1) <= self.end(),
    {
        assert(self.block_ok(i));
        self.lemma_block_in_range(i);
    }
}

/// Whether the words of `s` stand in ascending order.
pub open spec fn ascending(s: Seq<usize>) -> bool {
    forall|i: int, j: int| 0 <= i < j < s.len() ==> s[i] <= s[j]
}

/// Whether the words of `s` stand in ascending order, each once.
pub open spec fn strictly_ascending(s: Seq<usize>) -> bool {
    forall|i: int, j: int| 0 <= i < j < s.len() ==> s[i] < s[j]
}

/// Returns the GC heap block that a given address points into: its header or
/// its data. No block holds an address outside the heap.
pub fn get_block(heap: &Heap, ptr: usize) -> (r: Option<usize>)
    requires
        heap@.wf(),
    ensures
        match r {
            Some(b) => heap@.is_block(b as int) && b <= ptr < heap@.next(b as int),
            None => !heap@.region.contains(ptr as int),
        },
{
    if !heap.contains(ptr) {
        return None;
    }
    let (base, heap_size): (usize, usize) = heap.raw_data();
    let end: usize = base + heap_size;
    let mut block_ptr: usize = base;
    let ghost mut i: int = 0;
    while block_ptr < end
        invariant
            heap@.wf(),
            end == heap@.end(),
            0 <= i <= heap@.blocks.len(),
            block_ptr == blocks_end(heap@, i),
            block_ptr <= ptr < end,
        decreases heap@.blocks.len() - i,
    {
        proof {
            heap@.lemma_blocks_end(i);
        }
        let next: usize = heap.header(block_ptr).next(block_ptr);
        if ptr < next {
            return Some(block_ptr);
        }
        block_ptr = next;
        proof {
            i = i + 1;
        }
    }
    None
}

/// The block that the candidate pointer `ptr` holds: the allocated block that
/// it points into, behind the start of its header.
pub fn resolve(heap: &Heap, ptr: usize) -> (r: Option<usize>)
    requires
        heap@.wf(),
    ensures
        match r {
            Some(b) => heap@.resolves_to(ptr as int, b as int),
            None => forall|b: int| !heap@.resolves_to(ptr as int, b),
        },
{
    match get_block(heap, ptr) {
        None => {
            assert forall|b: int| !heap@.resolves_to(ptr as int, b) by {
                if heap@.resolves_to(ptr as int, b) {
                    heap@.lemma_block(b);
                }
            }
            None
        },
        Some(block) => {
            let allocated: bool = heap.header(block).is_allocated();
            if ptr == block || !allocated {
                assert forall|b: int| !heap@.resolves_to(ptr as int, b) by {
                    if heap@.resolves_to(ptr as int, b) {
                        heap@.lemma_block_of_unique(ptr as int, b, block as int);
                    }
                }
                None
            } else {
                Some(block)
            }
        },
    }
}

/// The header of the block whose data is given by its address and a length
/// that the block holds.
pub fn get_block_from_data(heap: &Heap, data: (usize, usize)) -> (r: usize)
    requires
        heap@.wf(),
        heap@.is_block(data.0 - 32),
        data.1 <= heap@.size(data.0 - 32),
    ensures
        r == data.0 - 32,
{
    proof {
        heap@.lemma_block(data.0 - 32);
    }
    data.0 - 32
}

/// The blocks that the roots hold, in ascending order, each once.
///
/// The roots are candidate pointers into the heap, in ascending order. The
/// list of blocks is walked once with them. A root that is the address of a
/// header holds nothing, and neither does one that points into a free block.
#[verifier::spinoff_prover]
pub fn get_root_blocks(heap: &Heap, roots: &Vec<usize>) -> (r: Vec<usize>)
    requires
        heap@.wf(),
        ascending(roots@),
        forall|k: int| 0 <= k < roots.len() ==> heap@.region.contains(#[trigger] roots[k] as int),
    ensures
        strictly_ascending(r@),
        forall|b: usize| #[trigger]
            r@.contains(b) <==> heap@.is_root_block(roots@, roots.len() as int, b as int),
{
    let mut marked_blocks: Vec<usize> = Vec::new();
    if roots.len() == 0 {
        return marked_blocks;
    }
    let (base, _heap_size): (usize, usize) = heap.raw_data();
    let mut block_ptr: usize = base;
    let ghost mut bi: int = 0;
    let mut k: usize = 0;
    proof {
        assert(heap@.region.contains(roots[0] as int));
    }
    while k < roots.len()
        invariant
            heap@.wf(),
            ascending(roots@),
            forall|j: int| 0 <= j < roots.len() ==> heap@.region.contains(#[trigger] roots[j] as int),
            0 <= k <= roots.len(),
            0 <= bi < heap@.blocks.len(),
            heap@.blocks[bi] == block_ptr,
            forall|j: int| k <= j < roots.len() ==> block_ptr <= #[trigger] roots[j],
            strictly_ascending(marked_blocks@),
            marked_blocks.len() > 0 ==> marked_blocks@.last() <= block_ptr,
            forall|b: usize| #[trigger]
                marked_blocks@.contains(b) <==> heap@.is_root_block(roots@, k as int, b as int),
        decreases roots.len() - k,
    {
        let root: usize = roots[k];
        proof {
            heap@.lemma_blocks_end(bi);
            assert(heap@.region.contains(roots[k as int] as int));
        }
        let mut header = heap.header(block_ptr);
        let mut next_block: usize = header.next(block_ptr);
        while root >= next_block
            invariant
                heap@.wf(),
                0 <= bi < heap@.blocks.len(),
                heap@.blocks[bi] == block_ptr,
                block_ptr <= root < heap@.end(),
                header == heap@.header(block_ptr as int),
                header.is_allocated() == heap@.is_allocated(block_ptr as int),
                next_block == heap@.next(block_ptr as int),
                next_block == blocks_end(heap@, bi + 1),
                marked_blocks.len() > 0 ==> marked_blocks@.last() <= block_ptr,
            decreases heap@.blocks.len() - bi,
        {
            block_ptr = next_block;
            proof {
                bi = bi + 1;
                heap@.lemma_blocks_end(bi);
            }
            header = heap.header(block_ptr);
            next_block = header.next(block_ptr);
        }
        let ghost before = marked_blocks@;
        let mut marks: bool = false;
        // a pointer to a block header itself is an internal thing, and a pointer
        // into a free block is a dangling pointer
        if root != block_ptr && header.is_allocated() {
            let just_marked: bool = marked_blocks.len() > 0 && marked_blocks[marked_blocks.len()
                - 1] == block_ptr;
            if !just_marked {
                marked_blocks.push(block_ptr);
                marks = true;
            }
        }
        proof {
            let after = marked_blocks@;
            let h = heap@;
            assert(h.is_block(block_ptr as int));
            if marks {
                assert(after[after.len() - 1] == block_ptr);
                assert forall|i: int, j: int| 0 <= i < j < after.len() implies after[i]
                    < after[j] by {
                    if j == after.len() - 1 {
                        assert(before[i] <= before.last());
                    }
                }
            }
            assert forall|b: usize| #[trigger]
                after.contains(b) <==> h.is_root_block(roots@, k + 1, b as int) by {
                if h.is_root_block(roots@, k + 1, b as int) {
                    let j = choose|j: int|
                        0 <= j < k + 1 && #[trigger] h.resolves_to(roots@[j] as int, b as int);
                    if j < k {
                        assert(h.is_root_block(roots@, k as int, b as int));
                        assert(before.contains(b));
                        let i0 = before.index_of(b);
                        assert(after[i0] == b);
                    } else {
                        h.lemma_block_of_unique(root as int, b as int, block_ptr as int);
                        if marks {
                            assert(after[after.len() - 1] == b);
                        } else {
                            assert(before.last() == block_ptr);
                            assert(after[after.len() - 1] == b);
                        }
                    }
                }
                if after.contains(b) {
                    let i0 = after.index_of(b);
                    if i0 < before.len() {
                        assert(before[i0] == b);
                        assert(before.contains(b));
                        let j = choose|j: int|
                            0 <= j < k && #[trigger] h.resolves_to(roots@[j] as int, b as int);
                        assert(h.resolves_to(roots@[j] as int, b as int));
                    } else {
                        assert(h.resolves_to(roots@[k as int] as int, b as int));
                    }
                }
            }
        }
        k = k + 1;
    }
    marked_blocks
}

/// A destructor that is due: what to run, and the data to run it on, as it
/// stood when its block was swept.
#[derive(Debug)]
pub struct Destructor {
    /// The destructor of the block.
    pub drop_thunk: usize,
    /// Where the data of the block starts.
    pub data: usize,
    /// The words of the data.
    pub contents: Vec<usize>,
}

/// The destructor of the block at `block` with the data that it is due on, or
/// none where the block has no destructor.
pub fn destruct_block_data(heap: &Heap, block: usize) -> (r: Option<Destructor>)
    requires
        heap@.wf(),
        heap@.is_block(block as int),
    ensures
        match r {
            None => heap@.thunk(block as int) == 0,
            Some(d) => {
                &&& d.drop_thunk == heap@.thunk(block as int)
                &&& d.drop_thunk != 0
                &&& d.data == block + 32
                &&& d.contents@ == data_words(
                    heap@,
                    block as int,
                    heap@.size(block as int) / 8,
                )
            },
        },
{
    proof {
        heap@.lemma_block(block as int);
    }
    let header = heap.header(block);
    let (data_ptr, len): (usize, usize) = header.data(block);
    let drop_in_place: usize = match header.drop_thunk {
        None => {
            return None;
        },
        Some(d) => d,
    };
    let contents: Vec<usize> = heap.read_words(block, len / 8);
    Some(Destructor { drop_thunk: drop_in_place, data: data_ptr, contents })
}

/// The blocks to free: those that are allocated and not live, in ascending
/// order.
#[verifier::spinoff_prover]
pub fn sweep_heap(heap: &Heap, live_blocks: &HashSet<usize>) -> (r: Vec<usize>)
    requires
        heap@.wf(),
    ensures
        strictly_ascending(r@),
        forall|b: usize| #[trigger]
            r@.contains(b) <==> heap@.is_allocated(b as int) && !live_blocks@.contains(b),
{
    let (base, heap_size): (usize, usize) = heap.raw_data();
    let end: usize = base + heap_size;
    let mut dead: Vec<usize> = Vec::new();
    let mut block_ptr: usize = base;
    let ghost mut i: int = 0;
    let ghost h = heap@;
    proof {
        assert forall|b: usize| #[trigger]
            dead@.contains(b) <==> h.is_allocated(b as int) && !live_blocks@.contains(b) && b
                < block_ptr by {
            if h.is_allocated(b as int) {
                h.lemma_block(b as int);
            }
        }
    }
    while block_ptr < end
        invariant
            heap@ == h,
            h.wf(),
            end == h.end(),
            0 <= i <= h.blocks.len(),
            block_ptr == blocks_end(h, i),
            block_ptr <= end,
            strictly_ascending(dead@),
            forall|k: int| 0 <= k < dead@.len() ==> #[trigger] dead@[k] < block_ptr,
            forall|b: usize| #[trigger]
                dead@.contains(b) <==> h.is_allocated(b as int) && !live_blocks@.contains(b) && b
                    < block_ptr,
        decreases h.blocks.len() - i,
    {
        proof {
            h.lemma_blocks_end(i);
            h.lemma_block(block_ptr as int);
        }
        let header = heap.header(block_ptr);
        let next_block: usize = header.next(block_ptr);
        let ghost before = dead@;
        let mut sweeps: bool = false;
        if header.is_allocated() {
            if !live_blocks.contains(&block_ptr) {
                dead.push(block_ptr);
                sweeps = true;
            }
        }
        proof {
            let after = dead@;
            assert forall|b: usize| #[trigger]
                after.contains(b) <==> h.is_allocated(b as int) && !live_blocks@.contains(b) && b
                    < next_block by {
                if after.contains(b) {
                    let k = after.index_of(b);
                    if k < before.len() {
                        assert(before[k] == b);
                        assert(before.contains(b));
                    }
                }
                if h.is_allocated(b as int) && !live_blocks@.contains(b) && b < next_block {
                    if b < block_ptr {
                        assert(before.contains(b));
                        let k = before.index_of(b);
                        assert(after[k] == b);
                    } else {
                        if b != block_ptr {
                            h.lemma_blocks_disjoint(b as int, block_ptr as int);
                            h.lemma_block(b as int);
                        }
                        assert(sweeps);
                        assert(after[after.len() - 1] == b);
                    }
                }
            }
            assert forall|k: int| 0 <= k < after.len() implies #[trigger] after[k] < next_block by {
                if k < before.len() {
                    assert(before[k] < block_ptr);
                }
            }
        }
        // go to the next
        block_ptr = next_block;
        proof {
            i = i + 1;
        }
    }
    proof {
        assert forall|b: usize| #[trigger]
            dead@.contains(b) <==> h.is_allocated(b as int) && !live_blocks@.contains(b) by {
            if h.is_allocated(b as int) {
                h.lemma_block(b as int);
            }
        }
    }
    dead
}

/// Whether `d` is the destructor that is due on the block at `b`, with the
/// data of the block as it stands in `h`.
pub open spec fn destructor_of(h: HeapView, d: Destructor, b: int) -> bool {
    &&& d.data == b + 32
    &&& d.drop_thunk == h.thunk(b)
    &&& d.drop_thunk != 0
    &&& d.contents@ == data_words(h, b, h.size(b) / 8)
}

/// Whether the destructors of `due` are those of the first `n` blocks of
/// `blocks` that have one, in the order of the blocks.
pub open spec fn destructors_due(h: HeapView, blocks: Seq<usize>, n: int, due: Seq<Destructor>) -> bool {
    &&& forall|k: int| 0 <= k < due.len() ==> #[trigger] is_due(h, blocks, n, due[k])
    &&& forall|i: int|
        0 <= i < n && h.thunk(blocks[i] as int) != 0 ==> #[trigger] has_destructor(
            due,
            blocks[i] + 32,
        )
    &&& forall|k: int, l: int| 0 <= k < l < due.len() ==> due[k].data < due[l].data
}

/// Whether `d` is the destructor that is due on one of the first `n` blocks
/// of `blocks`.
pub open spec fn is_due(h: HeapView, blocks: Seq<usize>, n: int, d: Destructor) -> bool {
    exists|i: int| 0 <= i < n && #[trigger] destructor_of(h, d, blocks[i] as int)
}

/// Whether one of `due` is a destructor for the data at `data`.
pub open spec fn has_destructor(due: Seq<Destructor>, data: int) -> bool {
    exists|k: int| 0 <= k < due.len() && (#[trigger] due[k]).data == data
}

/// The destructors that are due on `blocks`, which are blocks of the heap in
/// ascending order, with the data that each is due on.
#[verifier::spinoff_prover]
pub fn collect_destructors(heap: &Heap, blocks: &Vec<usize>) -> (due: Vec<Destructor>)
    requires
        heap@.wf(),
        strictly_ascending(blocks@),
        forall|i: int| 0 <= i < blocks.len() ==> heap@.is_block(#[trigger] blocks[i] as int),
    ensures
        destructors_due(heap@, blocks@, blocks.len() as int, due@),
{
    let ghost h = heap@;
    let mut due: Vec<Destructor> = Vec::new();
    let mut i: usize = 0;
    while i < blocks.len()
        invariant
            heap@ == h,
            h.wf(),
            0 <= i <= blocks.len(),
            strictly_ascending(blocks@),
            forall|j: int| 0 <= j < blocks.len() ==> h.is_block(#[trigger] blocks[j] as int),
            destructors_due(h, blocks@, i as int, due@),
            forall|k: int| 0 <= k < due@.len() && i < blocks.len() ==> (#[trigger] due@[k]).data
                < blocks[i as int] + 32,
        decreases blocks.len() - i,
    {
        let block: usize = blocks[i];
        let ghost before = due@;
        proof {
            assert(h.is_block(blocks[i as int] as int));
            h.lemma_block(block as int);
        }
        match destruct_block_data(heap, block) {
            Some(d) => {
                due.push(d);
            },
            None => {},
        }
        proof {
            let after = due@;
            assert forall|k: int| 0 <= k < after.len() implies #[trigger] is_due(
                h,
                blocks@,
                i + 1,
                after[k],
            ) by {
                if k < before.len() {
                    assert(is_due(h, blocks@, i as int, before[k]));
                    let j = choose|j: int|
                        0 <= j < i && #[trigger] destructor_of(h, before[k], blocks@[j] as int);
                    assert(destructor_of(h, after[k], blocks@[j] as int));
                } else {
                    assert(destructor_of(h, after[k], blocks@[i as int] as int));
                }
            }
            assert forall|j: int|
                0 <= j < i + 1 && h.thunk(blocks@[j] as int) != 0 implies #[trigger] has_destructor(
                after,
                blocks@[j] + 32,
            ) by {
                if j < i {
                    assert(has_destructor(before, blocks@[j] + 32));
                    let k = choose|k: int|
                        0 <= k < before.len() && (#[trigger] before[k]).data == blocks@[j] + 32;
                    assert(after[k].data == blocks@[j] + 32);
                } else {
                    assert(after[after.len() - 1].data == blocks@[j] + 32);
                }
            }
            assert forall|k: int, l: int| 0 <= k < l < after.len() implies after[k].data
                < after[l].data by {
                if l == before.len() {
                    assert(before[k].data < blocks@[i as int] + 32);
                }
            }
            assert forall|k: int| 0 <= k < after.len() && i + 1 < blocks.len() implies (
            #[trigger] after[k]).data < blocks@[i + 1] + 32 by {
                assert(blocks@[i as int] < blocks@[i + 1]);
                if k < before.len() {
                    assert(before[k].data < blocks@[i as int] + 32);
                }
            }
        }
        i = i + 1;
    }
    due
}

/// What is left of `s` where of several equal words in a row only the first
/// stays.
pub open spec fn without_repeats(s: Seq<usize>) -> Seq<usize>
    decreases s.len(),
{
    if s.len() <= 1 {
        s
    } else {
        let rest = without_repeats(s.drop_last());
        if s.last() == s[s.len() - 2] {
            rest
        } else {
            rest.push(s.last())
        }
    }
}

/// Taking repetitions out of words in ascending order leaves the same words,
/// in ascending order.
pub proof fn lemma_without_repeats(s: Seq<usize>)
    requires
        ascending(s),
    ensures
        ascending(without_repeats(s)),
        forall|w: usize| #[trigger] without_repeats(s).contains(w) <==> s.contains(w),
        s.len() > 0 ==> without_repeats(s).len() > 0 && without_repeats(s).last() == s.last(),
    decreases s.len(),
{
    if s.len() > 1 {
        let front = s.drop_last();
        let rest = without_repeats(front);
        assert(ascending(front)) by {
            assert forall|i: int, j: int| 0 <= i < j < front.len() implies front[i] <= front[j] by {
                assert(front[i] == s[i] && front[j] == s[j]);
            }
        }
        lemma_without_repeats(front);
        let out = without_repeats(s);
        assert(front.last() == s[s.len() - 2]);
        assert forall|w: usize| #[trigger] out.contains(w) <==> s.contains(w) by {
            if s.contains(w) {
                let k = s.index_of(w);
                if k < front.len() {
                    assert(front[k] == w);
                    assert(front.contains(w));
                    assert(rest.contains(w));
                    let m = rest.index_of(w);
                    assert(out[m] == w);
                } else {
                    assert(w == s.last());
                    if s.last() == s[s.len() - 2] {
                        assert(front[front.len() - 1] == w);
                        assert(front.contains(w));
                    } else {
                        assert(out[out.len() - 1] == w);
                    }
                }
            }
            if out.contains(w) {
                let k = out.index_of(w);
                if k < rest.len() {
                    assert(rest[k] == w);
                    assert(rest.contains(w));
                    assert(front.contains(w));
                    let m = front.index_of(w);
                    assert(s[m] == w);
                } else {
                    assert(s[s.len() - 1] == w);
                }
            }
        }
        assert forall|i: int, j: int| 0 <= i < j < out.len() implies out[i] <= out[j] by {
            if j < rest.len() {
                assert(rest[i] <= rest[j]);
            } else {
                assert(rest.contains(rest[i]));
                assert(front.contains(rest[i]));
                let m = front.index_of(rest[i]);
                assert(s[m] <= s[s.len() - 1]);
            }
        }
    }
}

/// Taking repetitions out of words in ascending order leaves each word once.
pub proof fn lemma_without_repeats_strict(s: Seq<usize>)
    requires
        ascending(s),
    ensures
        strictly_ascending(without_repeats(s)),
    decreases s.len(),
{
    if s.len() > 1 {
        let front = s.drop_last();
        let rest = without_repeats(front);
        assert(ascending(front)) by {
            assert forall|i: int, j: int| 0 <= i < j < front.len() implies front[i] <= front[j] by {
                assert(front[i] == s[i] && front[j] == s[j]);
            }
        }
        lemma_without_repeats_strict(front);
        lemma_without_repeats(front);
        let out = without_repeats(s);
        assert(front.last() == s[s.len() - 2]);
        assert forall|i: int, j: int| 0 <= i < j < out.len() implies out[i] < out[j] by {
            if j < rest.len() {
                assert(rest[i] < rest[j]);
            } else {
                // the last word is greater than the last of the rest
                assert(rest.last() == front.last());
                assert(s[s.len() - 2] <= s[s.len() - 1]);
                if i < rest.len() - 1 {
                    assert(rest[i] < rest[rest.len() - 1]);
                }
            }
        }
    }
}

/// Sorts the candidate roots with `sort` of std's slices, which puts the
/// words in ascending order and neither adds a word nor drops one.
#[verifier::external_body]
pub(crate) fn sort_roots(roots: &mut Vec<usize>)
    ensures
        ascending(final(roots)@),
        final(roots)@.to_multiset() == old(roots)@.to_multiset(),
{
    roots.sort();
}

/// Takes the repeated roots out: of several equal words in a row only the
/// first stays.
pub(crate) fn dedup_roots(roots: &mut Vec<usize>)
    ensures
        final(roots)@ == without_repeats(old(roots)@),
{
    let mut kept: Vec<usize> = Vec::new();
    let mut i: usize = 0;
    proof {
        assert(roots@.take(0) =~= Seq::<usize>::empty());
    }
    while i < roots.len()
        invariant
            0 <= i <= roots.len(),
            roots@ == old(roots)@,
            kept@ == without_repeats(roots@.take(i as int)),
        decreases roots.len() - i,
    {
        proof {
            let s = roots@.take(i + 1);
            assert(s.drop_last() =~= roots@.take(i as int));
            if i == 0 {
                assert(kept@.push(roots@[0]) =~= s);
            }
        }
        if i == 0 || roots[i] != roots[i - 1] {
            kept.push(roots[i]);
        }
        i = i + 1;
    }
    proof {
        assert(roots@.take(roots.len() as int) =~= roots@);
    }
    *roots = kept;
}

} // verus!
