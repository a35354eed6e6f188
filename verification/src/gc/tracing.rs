//! Tracing: the blocks that the root blocks reach through the pointers in
//! their data.

use std::collections::HashSet;
use vstd::prelude::*;
use crate::gc::collector::resolve;
use crate::gc::free_list::lemma_bytes_bound;
use crate::gc::heap::{data_words, Heap, HeapView};
use crate::gc::scanning::{contained, scan_block};
use crate::gc::free_list::lemma_bytes_positive;

verus! {

broadcast use vstd::std_specs::hash::group_hash_axioms;

impl HeapView {
    /// The candidate pointers in the data of the block at `b`.
    pub open spec fn pointers(self, b: int) -> Seq<usize> {
        contained(self, data_words(self, b, self.size(b) / 8))
    }

    /// Whether the data of the block at `b` holds a pointer that holds the
    /// block at `c`.
    pub open spec fn points_to(self, b: int, c: int) -> bool {
        exists|k: int|
            0 <= k < self.pointers(b).len() && #[trigger] self.resolves_to(
                self.pointers(b)[k] as int,
                c,
            )
    }

    /// Whether the `i`-th block of `path` points to the next.
    pub open spec fn step_ok(self, path: Seq<usize>, i: int) -> bool {
        self.points_to(path[i] as int, path[i + 1] as int)
    }

    /// Whether `path` leads from one of `roots` from block to block, each
    /// pointing to the next.
    pub open spec fn is_path(self, roots: Seq<usize>, path: Seq<usize>) -> bool {
        &&& path.len() > 0
        &&& roots.contains(path[0])
        &&& forall|i: int| 0 <= i < path.len() - 1 ==> #[trigger] self.step_ok(path, i)
    }

    /// Whether the block at `c` is one of `roots` or is reached from one of
    /// them.
    pub open spec fn reachable(self, roots: Seq<usize>, c: usize) -> bool {
        exists|path: Seq<usize>| #[trigger] self.is_path(roots, path) && path.last() == c
    }

    /// A root is reached.
    pub proof fn lemma_reachable_root(self, roots: Seq<usize>, k: int)
        requires
            0 <= k < roots.len(),
        ensures
            self.reachable(roots, roots[k]),
    {
        let path = seq![roots[k]];
        assert(path[0] == roots[k]);
        assert(self.is_path(roots, path));
        assert(path.last() == roots[k]);
    }

    /// What a reached block points to is reached.
    pub proof fn lemma_reachable_step(self, roots: Seq<usize>, b: usize, c: usize)
        requires
            self.reachable(roots, b),
            self.points_to(b as int, c as int),
        ensures
            self.reachable(roots, c),
    {
        let path = choose|path: Seq<usize>| #[trigger] self.is_path(roots, path) && path.last() == b;
        let longer = path.push(c);
        assert forall|i: int| 0 <= i < longer.len() - 1 implies #[trigger] self.step_ok(
            longer,
            i,
        ) by {
            if i < path.len() - 1 {
                assert(self.step_ok(path, i));
                assert(longer[i] == path[i] && longer[i + 1] == path[i + 1]);
            } else {
                assert(longer[i] == b && longer[i + 1] == c);
            }
        }
        assert(longer[0] == path[0]);
        assert(self.is_path(roots, longer));
        assert(longer.last() == c);
    }

    /// A set of blocks that holds the roots, and with each block what it
    /// points to, holds every block of a path.
    pub proof fn lemma_closed_holds_path(
        self,
        roots: Seq<usize>,
        marked: Set<usize>,
        path: Seq<usize>,
        i: int,
    )
        requires
            self.is_path(roots, path),
            0 <= i < path.len(),
            forall|k: int| 0 <= k < roots.len() ==> marked.contains(#[trigger] roots[k]),
            forall|b: usize, c: usize|
                marked.contains(b) && #[trigger] self.points_to(b as int, c as int)
                    ==> marked.contains(c),
        ensures
            marked.contains(path[i]),
        decreases i,
    {
        if i == 0 {
            let k = roots.index_of(path[0]);
            assert(marked.contains(roots[k]));
        } else {
            self.lemma_closed_holds_path(roots, marked, path, i - 1);
            assert(self.step_ok(path, i - 1));
        }
    }

    /// What a pointer in the data of a block holds, the block points to.
    pub proof fn lemma_points_to(self, b: int, k: int, c: int)
        requires
            0 <= k < self.pointers(b).len(),
            self.resolves_to(self.pointers(b)[k] as int, c),
        ensures
            self.points_to(b, c),
    {
    }
}

impl HeapView {
    /// Whether `path` leads from a block that one of `candidates` holds from
    /// block to block, each pointing to the next.
    pub open spec fn is_path_from(self, candidates: Seq<usize>, path: Seq<usize>) -> bool {
        &&& path.len() > 0
        &&& self.is_root_block(candidates, candidates.len() as int, path[0] as int)
        &&& forall|i: int| 0 <= i < path.len() - 1 ==> #[trigger] self.step_ok(path, i)
    }

    /// Whether the block at `c` is live: one of `candidates` holds it, or
    /// holds a block that reaches it through the pointers in the data of
    /// blocks.
    pub open spec fn is_live(self, candidates: Seq<usize>, c: usize) -> bool {
        exists|path: Seq<usize>| #[trigger] self.is_path_from(candidates, path) && path.last() == c
    }

    /// The blocks that are reached from the blocks that the candidates hold
    /// are the live blocks.
    pub proof fn lemma_live(self, candidates: Seq<usize>, roots: Seq<usize>)
        requires
            forall|b: usize| #[trigger]
                roots.contains(b) <==> self.is_root_block(
                    candidates,
                    candidates.len() as int,
                    b as int,
                ),
        ensures
            forall|c: usize| #[trigger] self.reachable(roots, c) <==> self.is_live(candidates, c),
    {
        assert forall|c: usize| #[trigger] self.reachable(roots, c) <==> self.is_live(
            candidates,
            c,
        ) by {
            if self.reachable(roots, c) {
                let path = choose|path: Seq<usize>| #[trigger]
                    self.is_path(roots, path) && path.last() == c;
                assert(roots.contains(path[0]));
                assert(self.is_path_from(candidates, path));
            }
            if self.is_live(candidates, c) {
                let path = choose|path: Seq<usize>| #[trigger]
                    self.is_path_from(candidates, path) && path.last() == c;
                assert(roots.contains(path[0]));
                assert(self.is_path(roots, path));
            }
        }
    }
}

/// Whether the blocks of `order` are those of `marked`.
pub open spec fn tracks(order: Seq<usize>, marked: Set<usize>) -> bool {
    forall|b: usize|
        #![trigger marked.contains(b)]
        #![trigger order.contains(b)]
        marked.contains(b) <==> order.contains(b)
}

/// Whether the blocks of `order` are different blocks of the heap.
pub open spec fn distinct_blocks(h: HeapView, order: Seq<usize>) -> bool {
    &&& order.no_duplicates()
    &&& forall|i: int| #![trigger order[i]] 0 <= i < order.len() ==> h.is_allocated(order[i] as int)
}

/// Different blocks of the heap are fewer than the heap has bytes.
pub proof fn lemma_distinct_blocks_bound(h: HeapView, order: Seq<usize>)
    requires
        h.wf(),
        distinct_blocks(h, order),
    ensures
        48 * order.len() <= h.region.length,
{
    let list = order.map_values(|b: usize| b as int);
    assert forall|i: int, j: int| 0 <= i < list.len() && 0 <= j < list.len() && i != j implies list[i]
        != list[j] by {
        assert(order[i] != order[j]);
    }
    assert forall|j: int| #![trigger list[j]] 0 <= j < list.len() implies h.is_block(list[j]) by {
        assert(h.is_allocated(order[j] as int));
    }
    lemma_bytes_bound(h, list);
    lemma_bytes_positive(h, list);
}

/// Marks the block that `ptr` holds, if it holds one that is not marked yet,
/// and puts it on the work list.
#[verifier::spinoff_prover]
fn mark_target(
    heap: &Heap,
    ptr: usize,
    marked: &mut HashSet<usize>,
    work: &mut Vec<usize>,
    Ghost(order): Ghost<Seq<usize>>,
) -> (then_order: Ghost<Seq<usize>>)
    requires
        heap@.wf(),
        distinct_blocks(heap@, order),
        tracks(order, old(marked)@),
    ensures
        distinct_blocks(heap@, then_order@),
        tracks(then_order@, final(marked)@),
        forall|b: usize| old(marked)@.contains(b) ==> final(marked)@.contains(b),
        forall|c: int| heap@.resolves_to(ptr as int, c) ==> final(marked)@.contains(c as usize),
        forall|b: usize|
            final(marked)@.contains(b) && !old(marked)@.contains(b) ==> heap@.resolves_to(
                ptr as int,
                b as int,
            ) && final(work)@ == old(work)@.push(b),
        final(marked)@ == old(marked)@ ==> final(work)@ == old(work)@ && then_order@ == order,
        final(marked)@ != old(marked)@
            ==> then_order@.len() == order.len() + 1 && final(work)@.len() == old(work)@.len() + 1,
        forall|i: int| 0 <= i < old(work)@.len() ==> final(work)@[i] == old(work)@[i],
        final(work)@.len() >= old(work)@.len(),
        forall|i: int|
            old(work)@.len() <= i < final(work)@.len() ==> final(marked)@.contains(
                #[trigger] final(work)@[i],
            ),
{
    match resolve(heap, ptr) {
        Some(c) => {
            proof {
                assert forall|x: int| heap@.resolves_to(ptr as int, x) implies x == c by {
                    heap@.lemma_block_of_unique(ptr as int, x, c as int);
                }
                heap@.lemma_block(c as int);
            }
            if !marked.contains(&c) {
                marked.insert(c);
                work.push(c);
                let ghost then_order = order.push(c);
                proof {
                    assert(then_order[order.len() as int] == c);
                    assert forall|b: usize|
                        #![trigger marked@.contains(b)]
                        #![trigger then_order.contains(b)]
                        marked@.contains(b) <==> then_order.contains(b) by {
                        if order.contains(b) {
                            let i = order.index_of(b);
                            assert(then_order[i] == b);
                        }
                        if then_order.contains(b) {
                            let i = then_order.index_of(b);
                            if i < order.len() {
                                assert(order[i] == b);
                            }
                        }
                    }
                    assert(then_order.no_duplicates()) by {
                        assert forall|i: int, j: int|
                            0 <= i < then_order.len() && 0 <= j < then_order.len() && i
                                != j implies then_order[i] != then_order[j] by {
                            if i < order.len() {
                                assert(order.contains(order[i]));
                            }
                            if j < order.len() {
                                assert(order.contains(order[j]));
                            }
                        }
                    }
                    assert(!old(marked)@.contains(c));
                    assert(marked@ != old(marked)@);
                }
                Ghost(then_order)
            } else {
                assert(marked@ =~= old(marked)@);
                Ghost(order)
            }
        },
        None => {
            assert(marked@ =~= old(marked)@);
            Ghost(order)
        },
    }
}

/// Whether every block of `marked` is reached from `roots`.
pub open spec fn all_reached(h: HeapView, roots: Seq<usize>, marked: Set<usize>) -> bool {
    forall|b: usize| #[trigger] marked.contains(b) ==> h.reachable(roots, b)
}

/// Whether `marked` holds all that the block at `b` points to.
pub open spec fn closed_at(h: HeapView, marked: Set<usize>, b: usize) -> bool {
    forall|c: usize| #[trigger] h.points_to(b as int, c as int) ==> marked.contains(c)
}

/// Whether each block of `marked` is on the work list, or has all that it
/// points to in `marked`.
pub open spec fn closed_but(h: HeapView, marked: Set<usize>, work: Seq<usize>) -> bool {
    forall|b: usize| #[trigger] marked.contains(b) ==> work.contains(b) || closed_at(h, marked, b)
}

/// Scans the data of the marked block at `block`, marks what it points to,
/// and puts what was not marked before on the work list.
#[verifier::spinoff_prover]
fn trace_block(
    heap: &Heap,
    block: usize,
    marked: &mut HashSet<usize>,
    work: &mut Vec<usize>,
    Ghost(order): Ghost<Seq<usize>>,
    Ghost(roots): Ghost<Seq<usize>>,
) -> (then_order: Ghost<Seq<usize>>)
    requires
        heap@.wf(),
        distinct_blocks(heap@, order),
        tracks(order, old(marked)@),
        old(marked)@.contains(block),
        all_reached(heap@, roots, old(marked)@),
    ensures
        distinct_blocks(heap@, then_order@),
        tracks(then_order@, final(marked)@),
        forall|b: usize| old(marked)@.contains(b) ==> final(marked)@.contains(b),
        all_reached(heap@, roots, final(marked)@),
        closed_at(heap@, final(marked)@, block),
        forall|b: usize|
            final(marked)@.contains(b) && !old(marked)@.contains(b) ==> final(work)@.contains(b),
        forall|i: int| 0 <= i < old(work)@.len() ==> final(work)@[i] == old(work)@[i],
        final(work)@.len() >= old(work)@.len(),
        forall|i: int|
            old(work)@.len() <= i < final(work)@.len() ==> final(marked)@.contains(
                #[trigger] final(work)@[i],
            ),
        then_order@.len() - order.len() == final(work)@.len() - old(work)@.len(),
{
    proof {
        assert(order.contains(block));
        let i = order.index_of(block);
        assert(heap@.is_allocated(order[i] as int));
    }
    let ptrs: Vec<usize> = scan_block(heap, block);
    let ghost h = heap@;
    let mut then_order: Ghost<Seq<usize>> = Ghost(order);
    let mut j: usize = 0;
    while j < ptrs.len()
        invariant
            heap@ == h,
            h.wf(),
            0 <= j <= ptrs.len(),
            ptrs@ == h.pointers(block as int),
            old(marked)@.contains(block),
            distinct_blocks(h, then_order@),
            tracks(then_order@, marked@),
            forall|b: usize| old(marked)@.contains(b) ==> marked@.contains(b),
            all_reached(h, roots, marked@),
            forall|k: int, c: int|
                0 <= k < j && #[trigger] h.resolves_to(ptrs@[k] as int, c) ==> marked@.contains(
                    c as usize,
                ),
            forall|b: usize|
                marked@.contains(b) && !old(marked)@.contains(b) ==> work@.contains(b),
            forall|i: int| 0 <= i < old(work)@.len() ==> work@[i] == old(work)@[i],
            work@.len() >= old(work)@.len(),
            forall|i: int|
                old(work)@.len() <= i < work@.len() ==> marked@.contains(#[trigger] work@[i]),
            then_order@.len() - order.len() == work@.len() - old(work)@.len(),
        decreases ptrs.len() - j,
    {
        let ghost marked_before = marked@;
        let ghost work_before = work@;
        then_order = mark_target(heap, ptrs[j], marked, work, then_order);
        proof {
            assert(marked_before.contains(block));
            assert(h.reachable(roots, block));
            assert forall|b: usize| #[trigger] marked@.contains(b) implies h.reachable(
                roots,
                b,
            ) by {
                if !marked_before.contains(b) {
                    h.lemma_points_to(block as int, j as int, b as int);
                    h.lemma_reachable_step(roots, block, b);
                }
            }
            assert forall|b: usize|
                marked@.contains(b) && !old(marked)@.contains(b) implies work@.contains(b) by {
                if marked_before.contains(b) {
                    let i = work_before.index_of(b);
                    assert(work@[i] == b);
                } else {
                    assert(work@ == work_before.push(b));
                    assert(work@[work_before.len() as int] == b);
                }
            }
        }
        j = j + 1;
    }
    proof {
        assert forall|c: usize| #[trigger] h.points_to(block as int, c as int) implies marked@.contains(
            c,
        ) by {
            let k = choose|k: int|
                0 <= k < h.pointers(block as int).len() && #[trigger] h.resolves_to(
                    h.pointers(block as int)[k] as int,
                    c as int,
                );
            assert(h.resolves_to(ptrs@[k] as int, c as int));
        }
    }
    then_order
}

/// Returns all the live blocks on the GC heap: the root blocks, and every
/// block that one of them reaches through the pointers in the data of live
/// blocks.
#[verifier::spinoff_prover]
pub fn get_live_blocks(heap: &Heap, roots: Vec<usize>) -> (scanned: HashSet<usize>)
    requires
        heap@.wf(),
        forall|k: int| 0 <= k < roots.len() ==> heap@.is_allocated(#[trigger] roots[k] as int),
    ensures
        forall|c: usize| scanned@.contains(c) <==> heap@.reachable(roots@, c),
        forall|c: usize| scanned@.contains(c) ==> heap@.is_allocated(c as int),
{
    let ghost h = heap@;
    let mut marked: HashSet<usize> = HashSet::new();
    let mut work: Vec<usize> = Vec::new();
    let mut order: Ghost<Seq<usize>> = Ghost(Seq::empty());
    let mut k: usize = 0;
    while k < roots.len()
        invariant
            heap@ == h,
            h.wf(),
            0 <= k <= roots.len(),
            forall|j: int| 0 <= j < roots.len() ==> h.is_allocated(#[trigger] roots[j] as int),
            distinct_blocks(h, order@),
            tracks(order@, marked@),
            forall|j: int| 0 <= j < k ==> marked@.contains(#[trigger] roots@[j]),
            all_reached(h, roots@, marked@),
            forall|b: usize| #[trigger] marked@.contains(b) ==> work@.contains(b),
            forall|i: int| 0 <= i < work@.len() ==> marked@.contains(#[trigger] work@[i]),
        decreases roots.len() - k,
    {
        let root: usize = roots[k];
        if !marked.contains(&root) {
            let ghost marked_before = marked@;
            let ghost work_before = work@;
            let ghost order_before = order@;
            marked.insert(root);
            work.push(root);
            proof {
                order@ = order_before.push(root);
                assert(order@[order_before.len() as int] == root);
                assert(h.is_allocated(roots[k as int] as int));
                assert forall|b: usize|
                    #![trigger marked@.contains(b)]
                    #![trigger order@.contains(b)]
                    marked@.contains(b) <==> order@.contains(b) by {
                    if order_before.contains(b) {
                        let i = order_before.index_of(b);
                        assert(order@[i] == b);
                    }
                    if order@.contains(b) {
                        let i = order@.index_of(b);
                        if i < order_before.len() {
                            assert(order_before[i] == b);
                        }
                    }
                }
                assert(order@.no_duplicates()) by {
                    assert forall|i: int, j: int|
                        0 <= i < order@.len() && 0 <= j < order@.len() && i != j implies order@[i]
                        != order@[j] by {
                        if i < order_before.len() {
                            assert(order_before.contains(order_before[i]));
                        }
                        if j < order_before.len() {
                            assert(order_before.contains(order_before[j]));
                        }
                    }
                }
                assert forall|b: usize| #[trigger] marked@.contains(b) implies h.reachable(
                    roots@,
                    b,
                ) by {
                    if b == root {
                        h.lemma_reachable_root(roots@, k as int);
                    }
                }
                assert forall|b: usize| #[trigger] marked@.contains(b) implies work@.contains(
                    b,
                ) by {
                    if marked_before.contains(b) {
                        let i = work_before.index_of(b);
                        assert(work@[i] == b);
                    } else {
                        assert(work@[work_before.len() as int] == b);
                    }
                }
            }
        }
        k = k + 1;
    }
    while work.len() > 0
        invariant
            heap@ == h,
            h.wf(),
            distinct_blocks(h, order@),
            tracks(order@, marked@),
            forall|j: int| 0 <= j < roots.len() ==> marked@.contains(#[trigger] roots@[j]),
            all_reached(h, roots@, marked@),
            closed_but(h, marked@, work@),
            forall|i: int| 0 <= i < work@.len() ==> marked@.contains(#[trigger] work@[i]),
        decreases h.region.length - 48 * order@.len(), work@.len(),
    {
        let ghost marked_before = marked@;
        let ghost work_before = work@;
        let ghost order_before = order@;
        let block: usize = work[work.len() - 1];
        work.pop();
        let ghost popped = work@;
        proof {
            assert(work_before[work_before.len() - 1] == block);
            lemma_distinct_blocks_bound(h, order@);
        }
        order = trace_block(heap, block, &mut marked, &mut work, order, Ghost(roots@));
        proof {
            lemma_distinct_blocks_bound(h, order@);
            assert forall|b: usize| #[trigger] marked@.contains(b) implies work@.contains(b)
                || closed_at(h, marked@, b) by {
                if b == block {
                } else if marked_before.contains(b) {
                    if work_before.contains(b) {
                        let i = work_before.index_of(b);
                        assert(popped[i] == b);
                        assert(work@[i] == b);
                    } else {
                        assert(closed_at(h, marked_before, b));
                        assert forall|c: usize| #[trigger]
                            h.points_to(b as int, c as int) implies marked@.contains(c) by {
                            assert(marked_before.contains(c));
                        }
                    }
                }
            }
            assert forall|i: int| 0 <= i < work@.len() implies marked@.contains(
                #[trigger] work@[i],
            ) by {
                if i < popped.len() {
                    assert(work@[i] == work_before[i]);
                    assert(marked_before.contains(work_before[i]));
                }
            }
        }
    }
    proof {
        assert forall|c: usize| h.reachable(roots@, c) implies marked@.contains(c) by {
            let path = choose|path: Seq<usize>| #[trigger]
                h.is_path(roots@, path) && path.last() == c;
            assert forall|b: usize, d: usize|
                marked@.contains(b) && #[trigger] h.points_to(b as int, d as int) implies marked@.contains(
                d,
            ) by {
                assert(work@.contains(b) || closed_at(h, marked@, b));
            }
            h.lemma_closed_holds_path(roots@, marked@, path, path.len() - 1);
        }
        assert forall|c: usize| marked@.contains(c) implies h.is_allocated(c as int) by {
            let i = order@.index_of(c);
            assert(h.is_allocated(order@[i] as int));
        }
    }
    marked
}

} // verus!
