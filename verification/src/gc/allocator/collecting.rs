//! The collection cycle on the allocator: the roots are resolved, the live
//! blocks traced, the rest swept and given back, and the cycle counted.

use std::collections::HashSet;
use vstd::prelude::*;

use crate::gc::allocator::reclaiming::block_set;
use crate::gc::allocator::{GCAllocator, GCAllocatorView};
use crate::gc::collector::{
    ascending, collect_destructors, dedup_roots, destructors_due, get_block_from_data,
    get_root_blocks, lemma_without_repeats, sort_roots, strictly_ascending, sweep_heap, Destructor,
};
use crate::gc::heap::{data_words, HeapView};
use crate::gc::scanning::{lemma_contained, scan_segment};
use crate::gc::tracing::get_live_blocks;
use crate::gc::tl_allocator::TLAllocator;

verus! {

broadcast use vstd::std_specs::hash::group_hash_axioms;

impl GCAllocatorView {
    /// Whether a collection with the roots `candidates` frees the block at
    /// `c`: the block is allocated, and it is not live or was given back.
    pub open spec fn is_garbage(self, candidates: Seq<usize>, c: usize) -> bool {
        self.heap.is_allocated(c as int)
            && (!self.heap.is_live(candidates, c) || self.is_given_back(c as int))
    }

    /// Whether a collection with the roots `candidates` sweeps the block at
    /// `c`: the block is allocated, not live, and was not given back.
    pub open spec fn is_swept(self, candidates: Seq<usize>, c: usize) -> bool {
        self.heap.is_allocated(c as int) && !self.heap.is_live(candidates, c) && !self.is_given_back(c as int)
    }
}

impl GCAllocatorView {
    /// Whether `after` is the allocator after a collection cycle with the
    /// roots `candidates`, and `due` the destructors that the cycle left to
    /// run.
    ///
    /// The cycle is counted, and the queue of blocks given back is empty. No
    /// block is made or moved. A block that is allocated and no garbage keeps
    /// its header and its data. A block that is garbage is free, and on the
    /// free list of an allocator; so is every block that was on one. The
    /// destructors are those of the swept blocks that have one, each once, in
    /// the order of the blocks, with the data of the block as it was. The
    /// blocks that were given back, in the order of the queue, and then the
    /// swept blocks, in ascending order, have gone one by one to the allocator
    /// that had the fewest free bytes then.
    pub open spec fn collected(
        self,
        after: GCAllocatorView,
        candidates: Seq<usize>,
        due: Seq<Destructor>,
    ) -> bool {
        &&& after.cycle == next_cycle(self.cycle)
        &&& after.deallocated.len() == 0
        &&& after.threads == self.threads
        &&& after.heap.blocks == self.heap.blocks
        &&& after.heap.region == self.heap.region
        &&& self.live_kept(after, candidates)
        &&& self.garbage_freed(after, candidates)
        &&& self.swept_due(candidates, due)
        &&& exists|dead: Seq<usize>| #[trigger] self.cycled_with(after, candidates, dead)
    }

    /// The blocks that were given back, in the order of the queue.
    pub open spec fn given_back(self) -> Seq<usize> {
        self.deallocated.map_values(|d: (usize, usize)| (d.0 - 32) as usize)
    }

    /// The allocator after a collection cycle that sweeps the blocks `dead`:
    /// the queue is empty, the blocks that were given back and then the swept
    /// blocks have gone, one by one, to the allocator that was the least
    /// loaded then, and the cycle is counted.
    pub open spec fn cycled(self, dead: Seq<usize>) -> GCAllocatorView {
        let emptied = GCAllocatorView { deallocated: Seq::empty(), ..self };
        let freed = emptied.distributed(self.given_back(), self.given_back().len() as int);
        GCAllocatorView {
            cycle: next_cycle(self.cycle),
            ..freed.distributed(dead, dead.len() as int)
        }
    }

    /// Whether `dead` are the blocks that a collection with the roots
    /// `candidates` sweeps, in ascending order, and `after` is the allocator
    /// after such a cycle, whatever destructors wait to be taken.
    pub open spec fn cycled_with(
        self,
        after: GCAllocatorView,
        candidates: Seq<usize>,
        dead: Seq<usize>,
    ) -> bool {
        &&& strictly_ascending(dead)
        &&& forall|c: usize| #[trigger] dead.contains(c) <==> self.is_swept(candidates, c)
        &&& after == (GCAllocatorView { pending: after.pending, ..self.cycled(dead) })
    }

    /// Whether every block that is allocated in `self` and no garbage is
    /// allocated in `after` with its header and its data.
    pub open spec fn live_kept(self, after: GCAllocatorView, candidates: Seq<usize>) -> bool {
        &&& forall|c: usize|
            self.heap.is_allocated(c as int) && !self.is_garbage(candidates, c)
                ==> #[trigger] after.heap.is_allocated(c as int) && after.heap.header(c as int)
                == self.heap.header(c as int)
        &&& forall|c: usize, a: int|
            #![trigger self.heap.in_data(c as int, a), after.heap.mem[a]]
            self.heap.is_allocated(c as int) && !self.is_garbage(candidates, c)
                && self.heap.in_data(c as int, a) ==> after.heap.mem[a] == self.heap.mem[a]
    }

    /// Whether every block that is garbage in `self` is free in `after` and on
    /// the free list of an allocator, as is every block that was on one.
    pub open spec fn garbage_freed(self, after: GCAllocatorView, candidates: Seq<usize>) -> bool {
        &&& forall|c: usize|
            self.is_garbage(candidates, c) ==> #[trigger] after.heap.is_free(c as int)
                && after.is_listed(c as int)
        &&& forall|c: int| self.is_listed(c) ==> after.is_listed(c)
    }

    /// Whether `due` are the destructors of the blocks that a collection
    /// sweeps, each once, in the order of the blocks, with the data of the
    /// block as it is in `self`.
    pub open spec fn swept_due(self, candidates: Seq<usize>, due: Seq<Destructor>) -> bool {
        &&& forall|k: int|
            0 <= k < due.len() ==> self.is_swept(
                candidates,
                ((#[trigger] due[k]).data - 32) as usize,
            ) && crate::gc::collector::destructor_of(self.heap, due[k], due[k].data - 32)
        &&& forall|c: usize|
            self.is_swept(candidates, c) && self.heap.thunk(c as int) != 0
                ==> #[trigger] crate::gc::collector::has_destructor(due, c + 32)
        &&& forall|k: int, l: int| 0 <= k < l < due.len() ==> due[k].data < due[l].data
    }
}

/// The number of the cycle that follows the cycle `cycle`.
pub open spec fn next_cycle(cycle: int) -> int {
    if cycle == usize::MAX {
        0
    } else {
        cycle + 1
    }
}

impl GCAllocator {
    /// The candidate roots in `candidates`: the words that are addresses of
    /// the heap, in ascending order, each once.
    pub fn sorted_roots(&self, candidates: &Vec<usize>) -> (roots: Vec<usize>)
        requires
            self@.wf(),
        ensures
            strictly_ascending(roots@),
            forall|w: usize| #[trigger]
                roots@.contains(w) <==> candidates@.contains(w) && self@.heap.region.contains(
                    w as int,
                ),
    {
        let mut roots: Vec<usize> = scan_segment(&self.heap, candidates);
        let ghost scanned = roots@;
        sort_roots(&mut roots);
        let ghost sorted = roots@;
        dedup_roots(&mut roots);
        proof {
            lemma_contained(self@.heap, candidates@);
            scanned.to_multiset_ensures();
            sorted.to_multiset_ensures();
            lemma_without_repeats(sorted);
            crate::gc::collector::lemma_without_repeats_strict(sorted);
            assert forall|w: usize| #[trigger]
                roots@.contains(w) <==> candidates@.contains(w) && self@.heap.region.contains(
                    w as int,
                ) by {
                assert(roots@.contains(w) <==> sorted.contains(w));
                assert(sorted.contains(w) <==> sorted.to_multiset().count(w) > 0);
                assert(scanned.contains(w) <==> scanned.to_multiset().count(w) > 0);
            }
        }
        roots
    }

    /// The live blocks: those that one of `candidates` holds, and those that
    /// such a block reaches.
    fn live_blocks(&self, candidates: &Vec<usize>) -> (live: HashSet<usize>)
        requires
            self@.wf(),
        ensures
            forall|c: usize| live@.contains(c) <==> self@.heap.is_live(candidates@, c),
            forall|c: usize| live@.contains(c) ==> self@.heap.is_allocated(c as int),
    {
        let roots: Vec<usize> = self.sorted_roots(candidates);
        proof {
            assert forall|k: int| 0 <= k < roots.len() implies self@.heap.region.contains(
                #[trigger] roots[k] as int,
            ) by {
                assert(roots@.contains(roots@[k]));
            }
            assert(ascending(roots@)) by {
                assert forall|i: int, j: int| 0 <= i < j < roots@.len() implies roots@[i]
                    <= roots@[j] by {
                    assert(roots@[i] < roots@[j]);
                }
            }
        }
        let root_blocks: Vec<usize> = get_root_blocks(&self.heap, &roots);
        proof {
            let h = self@.heap;
            assert forall|b: usize| #[trigger]
                root_blocks@.contains(b) <==> h.is_root_block(
                    candidates@,
                    candidates.len() as int,
                    b as int,
                ) by {
                if h.is_root_block(roots@, roots.len() as int, b as int) {
                    let j = choose|j: int|
                        0 <= j < roots.len() && #[trigger] h.resolves_to(roots@[j] as int, b as int);
                    assert(roots@.contains(roots@[j]));
                    let k = candidates@.index_of(roots@[j]);
                    assert(h.resolves_to(candidates@[k] as int, b as int));
                }
                if h.is_root_block(candidates@, candidates.len() as int, b as int) {
                    let k = choose|k: int|
                        0 <= k < candidates.len() && #[trigger] h.resolves_to(
                            candidates@[k] as int,
                            b as int,
                        );
                    h.lemma_block(b as int);
                    assert(candidates@.contains(candidates@[k]));
                    assert(roots@.contains(candidates@[k]));
                    let j = roots@.index_of(candidates@[k]);
                    assert(h.resolves_to(roots@[j] as int, b as int));
                }
            }
            assert forall|k: int| 0 <= k < root_blocks.len() implies h.is_allocated(
                #[trigger] root_blocks[k] as int,
            ) by {
                assert(root_blocks@.contains(root_blocks@[k]));
                let j = choose|j: int|
                    0 <= j < roots.len() && #[trigger] h.resolves_to(
                        roots@[j] as int,
                        root_blocks@[k] as int,
                    );
            }
            h.lemma_live(candidates@, root_blocks@);
        }
        let ghost root_seq = root_blocks@;
        let live: HashSet<usize> = get_live_blocks(&self.heap, root_blocks);
        proof {
            assert forall|c: usize| live@.contains(c) <==> self@.heap.is_live(candidates@, c) by {
                assert(self@.heap.reachable(root_seq, c) <==> self@.heap.is_live(candidates@, c));
            }
        }
        live
    }
}

impl GCAllocator {
    /// Takes the blocks that were given back off the queue, which is left
    /// empty, and returns their headers.
    fn take_deallocated(&mut self) -> (blocks: Vec<usize>)
        requires
            old(self)@.wf(),
        ensures
            final(self)@ == (GCAllocatorView { deallocated: Seq::empty(), ..old(self)@ }),
            final(self)@.wf(),
            blocks@ == old(self)@.given_back(),
            blocks@.no_duplicates(),
            forall|k: int|
                0 <= k < blocks.len() ==> old(self)@.heap.is_allocated(#[trigger] blocks[k] as int)
                    && old(self)@.is_given_back(blocks[k] as int),
            forall|c: usize| #[trigger] old(self)@.is_given_back(c as int) ==> blocks@.contains(c),
    {
        let ghost before = self@;
        let mut blocks: Vec<usize> = Vec::new();
        let mut k: usize = 0;
        while k < self.deallocated.len()
            invariant
                self@ == before,
                before.wf(),
                0 <= k <= self.deallocated.len(),
                self.deallocated@ == before.deallocated,
                blocks.len() == k,
                forall|j: int| 0 <= j < k ==> #[trigger] blocks@[j] == before.deallocated[j].0 - 32,
            decreases self.deallocated.len() - k,
        {
            let data: (usize, usize) = self.deallocated[k];
            proof {
                assert(before.heap.is_allocated(before.deallocated[k as int].0 - 32));
            }
            let block: usize = get_block_from_data(&self.heap, data);
            blocks.push(block);
            k = k + 1;
        }
        self.deallocated.clear();
        proof {
            let after = self@;
            assert(blocks@ =~= before.given_back());
            assert(after.allocators =~= before.allocators);
            assert(after.deallocated =~= Seq::<(usize, usize)>::empty());
            assert forall|j: int| 0 <= j < blocks.len() implies before.heap.is_allocated(
                #[trigger] blocks[j] as int,
            ) && before.is_given_back(blocks[j] as int) by {
                assert(before.heap.is_allocated(before.deallocated[j].0 - 32));
                before.heap.lemma_block(before.deallocated[j].0 - 32);
                assert(before.deallocated[j].0 == blocks[j] + 32);
            }
            assert forall|i: int, j: int|
                0 <= i < blocks.len() && 0 <= j < blocks.len() && i != j implies blocks@[i]
                != blocks@[j] by {
                if i < j {
                    assert(before.deallocated[i].0 != before.deallocated[j].0);
                } else {
                    assert(before.deallocated[j].0 != before.deallocated[i].0);
                }
            }
            assert forall|c: usize| #[trigger] before.is_given_back(c as int) implies blocks@.contains(
                c,
            ) by {
                let j = choose|j: int|
                    0 <= j < before.deallocated.len() && #[trigger] before.deallocated[j].0 == c
                        + 32;
                assert(blocks@[j] == c);
            }
        }
        blocks
    }

    /// The first part of a collection cycle with the candidate roots
    /// `candidates`: the live blocks are traced, the blocks that were given
    /// back are freed, and the heap is swept for the allocated blocks that are
    /// not live, which are not freed yet. Returned are the sweep, for
    /// `reclaim` to end the cycle with, and the destructors of the swept
    /// blocks, each with the data that it is due on, to run before that.
    #[verifier::spinoff_prover]
    pub fn sweep(&mut self, candidates: &Vec<usize>) -> (r: (Sweep, Vec<Destructor>))
        requires
            old(self)@.wf(),
        ensures
            final(self)@.wf(),
            r.0.of(final(self)@),
            r.0.before() == old(self)@,
            r.0.candidates() == candidates@,
            r.0.due() == r.1@,
            final(self)@.cycle == old(self)@.cycle,
            final(self)@.pending == old(self)@.pending,
    {
        let ghost first = self@;
        let live: HashSet<usize> = self.live_blocks(candidates);
        // free what is known to be dead, because it was given back
        let given_back: Vec<usize> = self.take_deallocated();
        let ghost taken = self@;
        proof {
            assert forall|k: int| 0 <= k < given_back.len() implies taken.heap.is_allocated(
                #[trigger] given_back[k] as int,
            ) && !taken.is_given_back(given_back[k] as int) by {}
        }
        self.free_blocks(&given_back);
        let ghost freed = self@;
        // sweep the heap for the rest of what is dead
        let dead: Vec<usize> = sweep_heap(&self.heap, &live);
        proof {
            assert forall|i: int| 0 <= i < dead.len() implies freed.heap.is_block(
                #[trigger] dead[i] as int,
            ) by {
                assert(dead@.contains(dead@[i]));
            }
        }
        let due: Vec<Destructor> = collect_destructors(&self.heap, &dead);
        let sweep = Sweep {
            dead,
            first: Ghost(first),
            taken: Ghost(taken),
            candidates: Ghost(candidates@),
            live: Ghost(live@),
            given_back: Ghost(given_back@),
            due: Ghost(due@),
        };
        (sweep, due)
    }

    /// The second part of a collection cycle: the blocks that the sweep found
    /// are freed. The cycle is complete but for its being counted, which
    /// `count_cycle` does.
    #[verifier::spinoff_prover]
    pub fn reclaim(&mut self, sweep: Sweep)
        requires
            old(self)@.wf(),
            sweep.of(old(self)@),
        ensures
            final(self)@.wf(),
            sweep.before().collected(
                (GCAllocatorView { cycle: next_cycle(final(self)@.cycle), ..final(self)@ }),
                sweep.candidates(),
                sweep.due(),
            ),
            final(self)@.cycle == old(self)@.cycle,
            final(self)@.cycle == sweep.before().cycle,
            final(self)@.pending == old(self)@.pending,
    {
        let ghost freed = self@;
        let dead: Vec<usize> = sweep.dead;
        proof {
            assert(dead@.no_duplicates()) by {
                assert forall|i: int, j: int|
                    0 <= i < dead.len() && 0 <= j < dead.len() && i != j implies dead@[i]
                    != dead@[j] by {
                    if i < j {
                        assert(dead@[i] < dead@[j]);
                    } else {
                        assert(dead@[j] < dead@[i]);
                    }
                }
            }
            assert forall|k: int| 0 <= k < dead.len() implies freed.heap.is_allocated(
                #[trigger] dead[k] as int,
            ) && !freed.is_given_back(dead[k] as int) by {
                assert(dead@.contains(dead@[k]));
            }
        }
        self.free_blocks(&dead);
        proof {
            let after = GCAllocatorView { cycle: next_cycle(self@.cycle), ..self@ };
            assert(after.allocators =~= self.allocators@.map_values(|a: TLAllocator| a@));
            lemma_cycle(
                sweep.first@,
                sweep.taken@,
                freed,
                after,
                sweep.candidates@,
                sweep.live@,
                sweep.given_back@,
                dead@,
                sweep.due@,
            );
        }
    }

    /// Counts the collection cycle that has ended, for those that wait for
    /// it.
    pub fn count_cycle(&mut self)
        requires
            old(self)@.wf(),
        ensures
            final(self)@.wf(),
            final(self)@ == (GCAllocatorView {
                cycle: next_cycle(old(self)@.cycle),
                ..old(self)@
            }),
    {
        let ghost before = self@;
        self.cycle = self.cycle.wrapping_add(1);
        proof {
            let after = self@;
            assert(after.allocators =~= before.allocators);
            assert(after == (GCAllocatorView { cycle: next_cycle(before.cycle), ..before }));
        }
    }

    /// Candidate roots that hold every allocated block: the address of the
    /// data of each. They are for a cycle in which the roots of some thread
    /// could not be read: with them the cycle frees the blocks that were
    /// given back and no other.
    pub fn roots_of_all(&self) -> (roots: Vec<usize>)
        requires
            self@.wf(),
        ensures
            forall|c: usize| #[trigger]
                self@.heap.is_allocated(c as int) ==> self@.heap.is_root_block(
                    roots@,
                    roots.len() as int,
                    c as int,
                ),
            forall|k: int|
                0 <= k < roots.len() ==> self@.heap.is_allocated(#[trigger] roots[k] - 32),
    {
        let none: HashSet<usize> = HashSet::new();
        let blocks: Vec<usize> = sweep_heap(&self.heap, &none);
        let mut roots: Vec<usize> = Vec::new();
        let mut i: usize = 0;
        while i < blocks.len()
            invariant
                self@.wf(),
                0 <= i <= blocks.len(),
                roots.len() == i,
                forall|b: usize| #[trigger]
                    blocks@.contains(b) <==> self@.heap.is_allocated(b as int) && !none@.contains(b),
                forall|k: int| 0 <= k < i ==> #[trigger] roots[k] == blocks[k] + 32,
            decreases blocks.len() - i,
        {
            proof {
                assert(blocks@.contains(blocks@[i as int]));
                self@.heap.lemma_block(blocks[i as int] as int);
            }
            roots.push(blocks[i] + 32);
            i = i + 1;
        }
        proof {
            assert forall|c: usize| #[trigger]
                self@.heap.is_allocated(c as int) implies self@.heap.is_root_block(
                roots@,
                roots.len() as int,
                c as int,
            ) by {
                assert(blocks@.contains(c));
                let k = blocks@.index_of(c);
                self@.heap.lemma_block(c as int);
                assert(self@.heap.resolves_to(roots@[k] as int, c as int));
            }
            assert forall|k: int| 0 <= k < roots.len() implies self@.heap.is_allocated(
                #[trigger] roots[k] - 32,
            ) by {
                assert(blocks@.contains(blocks@[k]));
            }
        }
        roots
    }

    /// Runs one collection cycle with the candidate roots `candidates`: the
    /// machine words found in the registers and on the stacks of the stopped
    /// threads, in the global data and in the native heap.
    ///
    /// Blocks that are live stay as they are, unless they were given back.
    /// Every other allocated block goes to the free list of the allocator
    /// that has the fewest free bytes then: first those that were given back,
    /// then those that the sweep finds, in ascending order. Returned are the
    /// destructors of the swept blocks, each with the data that it is due on.
    pub fn gc_cycle(&mut self, candidates: &Vec<usize>) -> (due: Vec<Destructor>)
        requires
            old(self)@.wf(),
        ensures
            final(self)@.wf(),
            old(self)@.collected(final(self)@, candidates@, due@),
            final(self)@.pending == old(self)@.pending,
    {
        let (sweep, due): (Sweep, Vec<Destructor>) = self.sweep(candidates);
        self.reclaim(sweep);
        self.count_cycle();
        due
    }
}

/// A collection cycle that has swept the heap and not freed yet what it
/// found.
pub struct Sweep {
    /// The allocated blocks that are not live, in ascending order.
    dead: Vec<usize>,
    first: Ghost<GCAllocatorView>,
    taken: Ghost<GCAllocatorView>,
    candidates: Ghost<Seq<usize>>,
    live: Ghost<Set<usize>>,
    given_back: Ghost<Seq<usize>>,
    due: Ghost<Seq<Destructor>>,
}

impl Sweep {
    /// The allocator as it was before the cycle.
    pub closed spec fn before(&self) -> GCAllocatorView {
        self.first@
    }

    /// The candidate roots of the cycle.
    pub closed spec fn candidates(&self) -> Seq<usize> {
        self.candidates@
    }

    /// The destructors that the cycle leaves to run.
    pub closed spec fn due(&self) -> Seq<Destructor> {
        self.due@
    }

    /// The blocks that the sweep found.
    pub closed spec fn dead(&self) -> Seq<usize> {
        self.dead@
    }

    /// Whether `freed` is the allocator as this sweep left it: the blocks that
    /// were given back before the cycle are free, nothing else has changed,
    /// and the sweep has found the blocks that are allocated and not live.
    pub closed spec fn of(&self, freed: GCAllocatorView) -> bool {
        let first = self.first@;
        let taken = self.taken@;
        let given_back = self.given_back@;
        let dead = self.dead@;
        &&& first.wf()
        &&& taken == (GCAllocatorView { deallocated: Seq::empty(), ..first })
        &&& forall|c: usize| self.live@.contains(c) <==> first.heap.is_live(self.candidates@, c)
        &&& forall|k: int|
            0 <= k < given_back.len() ==> first.heap.is_allocated(#[trigger] given_back[k] as int)
                && first.is_given_back(given_back[k] as int)
        &&& forall|c: usize| #[trigger] first.is_given_back(c as int) ==> given_back.contains(c)
        &&& given_back == first.given_back()
        &&& freed == taken.distributed(given_back, given_back.len() as int)
        &&& freed.heap.blocks == first.heap.blocks
        &&& freed.heap.region == first.heap.region
        &&& freed.threads == first.threads
        &&& freed.cycle == first.cycle
        &&& freed.deallocated.len() == 0
        &&& taken.heap.kept(freed.heap, block_set(given_back, given_back.len() as int))
        &&& forall|k: int|
            0 <= k < given_back.len() ==> freed.heap.is_free(#[trigger] given_back[k] as int)
                && freed.is_listed(given_back[k] as int)
        &&& forall|c: int| taken.is_listed(c) ==> freed.is_listed(c)
        &&& strictly_ascending(dead)
        &&& forall|b: usize| #[trigger]
            dead.contains(b) <==> freed.heap.is_allocated(b as int) && !self.live@.contains(b)
        &&& destructors_due(freed.heap, dead, dead.len() as int, self.due@)
    }
}

/// What a collection cycle comes to, from what its steps do.
#[verifier::spinoff_prover]
proof fn lemma_cycle(
    first: GCAllocatorView,
    taken: GCAllocatorView,
    freed: GCAllocatorView,
    after: GCAllocatorView,
    candidates: Seq<usize>,
    live: Set<usize>,
    given_back: Seq<usize>,
    dead: Seq<usize>,
    due: Seq<Destructor>,
)
    requires
        first.wf(),
        taken == (GCAllocatorView { deallocated: Seq::empty(), ..first }),
        forall|c: usize| live.contains(c) <==> first.heap.is_live(candidates, c),
        forall|k: int|
            0 <= k < given_back.len() ==> first.heap.is_allocated(#[trigger] given_back[k] as int)
                && first.is_given_back(given_back[k] as int),
        forall|c: usize| #[trigger] first.is_given_back(c as int) ==> given_back.contains(c),
        freed.wf(),
        freed.heap.blocks == first.heap.blocks,
        freed.heap.region == first.heap.region,
        freed.threads == first.threads,
        freed.cycle == first.cycle,
        after.heap.blocks == freed.heap.blocks,
        after.heap.region == freed.heap.region,
        after.threads == freed.threads,
        after.deallocated.len() == 0,
        after.cycle == next_cycle(freed.cycle),
        given_back == first.given_back(),
        freed == taken.distributed(given_back, given_back.len() as int),
        strictly_ascending(dead),
        after == (GCAllocatorView {
            cycle: next_cycle(freed.cycle),
            ..freed.distributed(dead, dead.len() as int)
        }),
        taken.heap.kept(freed.heap, block_set(given_back, given_back.len() as int)),
        forall|k: int|
            0 <= k < given_back.len() ==> freed.heap.is_free(#[trigger] given_back[k] as int)
                && freed.is_listed(given_back[k] as int),
        forall|c: int| taken.is_listed(c) ==> freed.is_listed(c),
        forall|b: usize| #[trigger]
            dead.contains(b) <==> freed.heap.is_allocated(b as int) && !live.contains(b),
        destructors_due(freed.heap, dead, dead.len() as int, due),
        freed.heap.kept(after.heap, block_set(dead, dead.len() as int)),
        forall|k: int|
            0 <= k < dead.len() ==> after.heap.is_free(#[trigger] dead[k] as int)
                && after.is_listed(dead[k] as int),
        forall|c: int| freed.is_listed(c) ==> after.is_listed(c),
    ensures
        first.collected(after, candidates, due),
{
    let h0 = first.heap;
    let h1 = freed.heap;
    let h2 = after.heap;
    let t1 = block_set(given_back, given_back.len() as int);
    let t2 = block_set(dead, dead.len() as int);
    lemma_cycle_swept(first, taken, freed, candidates, live, given_back, dead);
    assert(first.live_kept(after, candidates)) by {
        lemma_cycle_live(first, taken, freed, after, candidates, live, given_back, dead);
    }
    assert(first.garbage_freed(after, candidates)) by {
        lemma_cycle_garbage(first, taken, freed, after, candidates, live, given_back, dead);
    }
    assert(first.swept_due(candidates, due)) by {
        lemma_cycle_due(first, taken, freed, candidates, live, given_back, dead, due);
    }
    assert(first.cycled_with(after, candidates, dead)) by {
        assert(after == (GCAllocatorView { pending: after.pending, ..first.cycled(dead) }));
    }
}

/// Whether the heap `h1` is the heap `h0` with the blocks of `given_back`
/// freed and nothing else changed, and `dead` the blocks that are allocated in
/// `h1` and not in `live`.
pub open spec fn swept(
    first: GCAllocatorView,
    taken: GCAllocatorView,
    freed: GCAllocatorView,
    candidates: Seq<usize>,
    live: Set<usize>,
    given_back: Seq<usize>,
    dead: Seq<usize>,
) -> bool {
    &&& first.wf()
    &&& taken == (GCAllocatorView { deallocated: Seq::empty(), ..first })
    &&& forall|c: usize| live.contains(c) <==> first.heap.is_live(candidates, c)
    &&& forall|k: int|
        0 <= k < given_back.len() ==> first.heap.is_allocated(#[trigger] given_back[k] as int)
            && first.is_given_back(given_back[k] as int)
    &&& forall|c: usize| #[trigger] first.is_given_back(c as int) ==> given_back.contains(c)
    &&& freed.wf()
    &&& freed.heap.blocks == first.heap.blocks
    &&& taken.heap.kept(freed.heap, block_set(given_back, given_back.len() as int))
    &&& forall|k: int|
        0 <= k < given_back.len() ==> freed.heap.is_free(#[trigger] given_back[k] as int)
            && freed.is_listed(given_back[k] as int)
    &&& forall|c: int| taken.is_listed(c) ==> freed.is_listed(c)
    &&& forall|b: usize| #[trigger]
        dead.contains(b) <==> freed.heap.is_allocated(b as int) && !live.contains(b)
}

/// What holds when the sweep starts: a block that was allocated and not given
/// back is as it was, a block that was given back is free, and the sweep
/// finds the blocks that are allocated, not live and not given back.
#[verifier::spinoff_prover]
proof fn lemma_cycle_swept(
    first: GCAllocatorView,
    taken: GCAllocatorView,
    freed: GCAllocatorView,
    candidates: Seq<usize>,
    live: Set<usize>,
    given_back: Seq<usize>,
    dead: Seq<usize>,
)
    requires
        swept(first, taken, freed, candidates, live, given_back, dead),
    ensures
        forall|c: usize|
            first.heap.is_allocated(c as int) && !first.is_given_back(c as int)
                ==> #[trigger] freed.heap.is_allocated(c as int) && freed.heap.header(c as int)
                == first.heap.header(c as int),
        forall|c: usize|
            first.heap.is_allocated(c as int) && first.is_given_back(c as int)
                ==> #[trigger] freed.heap.is_free(c as int) && freed.is_listed(c as int),
        forall|c: usize| #[trigger] dead.contains(c) <==> first.is_swept(candidates, c),
{
    let h0 = first.heap;
    let h1 = freed.heap;
    let t1 = block_set(given_back, given_back.len() as int);
    assert forall|c: usize|
        h0.is_allocated(c as int) && !first.is_given_back(c as int) implies #[trigger] h1.is_allocated(
        c as int,
    ) && h1.header(c as int) == h0.header(c as int) by {
        assert(h0.is_block(c as int));
        if t1.contains(c as int) {
            let k = choose|k: int| 0 <= k < given_back.len() && #[trigger] given_back[k] == c as int;
            assert(first.is_given_back(given_back[k] as int));
        }
        crate::gc::free_list::lemma_header_parts(h0, h1, c as int);
    }
    assert forall|c: usize|
        h0.is_allocated(c as int) && first.is_given_back(c as int) implies #[trigger] h1.is_free(
        c as int,
    ) && freed.is_listed(c as int) by {
        assert(given_back.contains(c));
        let k = given_back.index_of(c);
        assert(h1.is_free(given_back[k] as int));
    }
    assert forall|c: usize| #[trigger] dead.contains(c) <==> first.is_swept(candidates, c) by {
        if dead.contains(c) {
            h1.lemma_block(c as int);
            assert(h0.is_block(c as int));
            if t1.contains(c as int) {
                let k = choose|k: int|
                    0 <= k < given_back.len() && #[trigger] given_back[k] == c as int;
                assert(h1.is_free(given_back[k] as int));
            } else {
                crate::gc::free_list::lemma_header_parts(h0, h1, c as int);
            }
            if first.is_given_back(c as int) {
                assert(given_back.contains(c));
                let k = given_back.index_of(c);
                assert(h1.is_free(given_back[k] as int));
            }
        }
        if first.is_swept(candidates, c) {
            assert(h1.is_allocated(c as int));
        }
    }
}

/// A block that is allocated and no garbage is as it was after the cycle.
#[verifier::spinoff_prover]
proof fn lemma_cycle_live(
    first: GCAllocatorView,
    taken: GCAllocatorView,
    freed: GCAllocatorView,
    after: GCAllocatorView,
    candidates: Seq<usize>,
    live: Set<usize>,
    given_back: Seq<usize>,
    dead: Seq<usize>,
)
    requires
        swept(first, taken, freed, candidates, live, given_back, dead),
        freed.heap.kept(after.heap, block_set(dead, dead.len() as int)),
    ensures
        first.live_kept(after, candidates),
{
    let h0 = first.heap;
    let h1 = freed.heap;
    let h2 = after.heap;
    let t1 = block_set(given_back, given_back.len() as int);
    let t2 = block_set(dead, dead.len() as int);
    lemma_cycle_swept(first, taken, freed, candidates, live, given_back, dead);
    assert forall|c: usize|
        h0.is_allocated(c as int) && !first.is_garbage(candidates, c) implies #[trigger] h2.is_allocated(
        c as int,
    ) && h2.header(c as int) == h0.header(c as int) by {
        assert(h1.is_allocated(c as int) && h1.header(c as int) == h0.header(c as int));
        if t2.contains(c as int) {
            let k = choose|k: int| 0 <= k < dead.len() && #[trigger] dead[k] == c as int;
            assert(dead.contains(dead[k]));
        }
        assert(h1.is_block(c as int));
        crate::gc::free_list::lemma_header_parts(h1, h2, c as int);
    }
    assert forall|c: usize, a: int|
        #![trigger h0.in_data(c as int, a), h2.mem[a]]
        h0.is_allocated(c as int) && !first.is_garbage(candidates, c) && h0.in_data(
            c as int,
            a,
        ) implies h2.mem[a] == h0.mem[a] by {
        assert(h0.is_block(c as int));
        assert(h1.is_allocated(c as int) && h1.header(c as int) == h0.header(c as int));
        crate::gc::free_list::lemma_header_parts(h0, h1, c as int);
        if t1.contains(c as int) {
            let k = choose|k: int| 0 <= k < given_back.len() && #[trigger] given_back[k] == c as int;
            assert(first.is_given_back(given_back[k] as int));
        }
        if t2.contains(c as int) {
            let k = choose|k: int| 0 <= k < dead.len() && #[trigger] dead[k] == c as int;
            assert(dead.contains(dead[k]));
        }
        assert(h1.is_block(c as int));
        assert(h1.in_data(c as int, a));
        assert(h1.mem[a] == h0.mem[a]);
        assert(h2.mem[a] == h1.mem[a]);
    }
}

/// A block that is garbage is free after the cycle, and on a free list.
#[verifier::spinoff_prover]
proof fn lemma_cycle_garbage(
    first: GCAllocatorView,
    taken: GCAllocatorView,
    freed: GCAllocatorView,
    after: GCAllocatorView,
    candidates: Seq<usize>,
    live: Set<usize>,
    given_back: Seq<usize>,
    dead: Seq<usize>,
)
    requires
        swept(first, taken, freed, candidates, live, given_back, dead),
        freed.heap.kept(after.heap, block_set(dead, dead.len() as int)),
        forall|k: int|
            0 <= k < dead.len() ==> after.heap.is_free(#[trigger] dead[k] as int)
                && after.is_listed(dead[k] as int),
        forall|c: int| freed.is_listed(c) ==> after.is_listed(c),
    ensures
        first.garbage_freed(after, candidates),
{
    let h0 = first.heap;
    let h1 = freed.heap;
    let h2 = after.heap;
    let t2 = block_set(dead, dead.len() as int);
    lemma_cycle_swept(first, taken, freed, candidates, live, given_back, dead);
    assert forall|c: usize| first.is_garbage(candidates, c) implies #[trigger] h2.is_free(
        c as int,
    ) && after.is_listed(c as int) by {
        if first.is_given_back(c as int) {
            assert(h1.is_free(c as int) && freed.is_listed(c as int));
            if t2.contains(c as int) {
                let k = choose|k: int| 0 <= k < dead.len() && #[trigger] dead[k] == c as int;
                assert(dead.contains(dead[k]));
            }
            assert(h1.is_block(c as int));
            crate::gc::free_list::lemma_header_parts(h1, h2, c as int);
        } else {
            assert(first.is_swept(candidates, c));
            assert(dead.contains(c));
            let k = dead.index_of(c);
            assert(h2.is_free(dead[k] as int));
        }
    }
    assert forall|c: int| first.is_listed(c) implies after.is_listed(c) by {
        assert(taken.is_listed(c));
        assert(freed.is_listed(c));
    }
}

/// The destructors that are due on the swept blocks as the sweep found them
/// are due on them as they were before the cycle.
#[verifier::spinoff_prover]
proof fn lemma_cycle_due(
    first: GCAllocatorView,
    taken: GCAllocatorView,
    freed: GCAllocatorView,
    candidates: Seq<usize>,
    live: Set<usize>,
    given_back: Seq<usize>,
    dead: Seq<usize>,
    due: Seq<Destructor>,
)
    requires
        swept(first, taken, freed, candidates, live, given_back, dead),
        destructors_due(freed.heap, dead, dead.len() as int, due),
    ensures
        first.swept_due(candidates, due),
{
    let h0 = first.heap;
    let h1 = freed.heap;
    let t1 = block_set(given_back, given_back.len() as int);
    lemma_cycle_swept(first, taken, freed, candidates, live, given_back, dead);
    assert forall|k: int| 0 <= k < due.len() implies first.is_swept(
        candidates,
        ((#[trigger] due[k]).data - 32) as usize,
    ) && crate::gc::collector::destructor_of(first.heap, due[k], due[k].data - 32) by {
        assert(crate::gc::collector::is_due(h1, dead, dead.len() as int, due[k]));
        let i = choose|i: int|
            0 <= i < dead.len() && #[trigger] crate::gc::collector::destructor_of(
                h1,
                due[k],
                dead[i] as int,
            );
        let c = dead[i];
        assert(dead.contains(c));
        assert(first.is_swept(candidates, c));
        assert(h1.is_allocated(c as int) && h1.header(c as int) == h0.header(c as int));
        crate::gc::free_list::lemma_header_parts(h0, h1, c as int);
        if t1.contains(c as int) {
            let j = choose|j: int| 0 <= j < given_back.len() && #[trigger] given_back[j] == c as int;
            assert(first.is_given_back(given_back[j] as int));
        }
        lemma_same_data(h0, h1, c as int, t1);
    }
    assert forall|c: usize|
        first.is_swept(candidates, c) && first.heap.thunk(c as int)
            != 0 implies #[trigger] crate::gc::collector::has_destructor(due, c + 32) by {
        assert(dead.contains(c));
        let i = dead.index_of(c);
        assert(h1.is_allocated(c as int) && h1.header(c as int) == h0.header(c as int));
        crate::gc::free_list::lemma_header_parts(h0, h1, c as int);
        assert(h1.thunk(dead[i] as int) != 0);
    }
}

/// The data of a block that a change left alone reads as before.
proof fn lemma_same_data(before: HeapView, after: HeapView, c: int, touched: Set<int>)
    requires
        before.wf(),
        before.kept(after, touched),
        before.is_block(c),
        !touched.contains(c),
    ensures
        data_words(after, c, after.size(c) / 8) == data_words(before, c, before.size(c) / 8),
{
    crate::gc::free_list::lemma_header_parts(before, after, c);
    before.lemma_block(c);
    let n = before.size(c) / 8;
    assert forall|i: int| 0 <= i < n implies #[trigger] data_words(after, c, n)[i] == data_words(
        before,
        c,
        n,
    )[i] by {
        assert(before.in_data(c, c + 32 + 8 * i));
        assert(after.mem[c + 32 + 8 * i] == before.mem[c + 32 + 8 * i]);
    }
    assert(data_words(after, c, n) =~= data_words(before, c, n));
}

impl GCAllocator {
    /// Takes the destructors that collections left to run.
    pub fn take_destructors(&mut self) -> (due: Vec<Destructor>)
        ensures
            due@ == old(self)@.pending,
            final(self)@ == (GCAllocatorView { pending: Seq::empty(), ..old(self)@ }),
    {
        let mut due: Vec<Destructor> = Vec::new();
        due.append(&mut self.pending);
        assert(self@.allocators =~= old(self)@.allocators);
        assert(due@ =~= old(self)@.pending);
        assert(self@.pending =~= Seq::<Destructor>::empty());
        due
    }

    /// Blocks until the GC has done a full collection cycle: in this heap,
    /// which no thread runs beside its user, the cycle is run, with the roots
    /// `candidates`. The destructors that it leaves to run wait to be taken.
    pub fn wait_for_gc(&mut self, candidates: &Vec<usize>)
        requires
            old(self)@.wf(),
        ensures
            final(self)@.wf(),
            old(self)@.collected(
                final(self)@,
                candidates@,
                final(self)@.pending.skip(old(self)@.pending.len() as int),
            ),
            final(self)@.pending.len() >= old(self)@.pending.len(),
            final(self)@.pending.take(old(self)@.pending.len() as int) == old(self)@.pending,
    {
        let ghost before = self@;
        let mut due: Vec<Destructor> = self.gc_cycle(candidates);
        let ghost cycled = self@;
        let ghost found = due@;
        self.pending.append(&mut due);
        proof {
            let after = self@;
            assert(after.allocators =~= cycled.allocators);
            assert(after.pending.skip(before.pending.len() as int) =~= found);
            assert(after.pending.take(before.pending.len() as int) =~= before.pending);
            assert(after == (GCAllocatorView { pending: after.pending, ..cycled }));
            assert(before.live_kept(cycled, candidates@));
            assert(before.live_kept(after, candidates@));
            assert(before.garbage_freed(cycled, candidates@));
            assert(before.garbage_freed(after, candidates@)) by {
                assert forall|c: int| cycled.is_listed(c) implies after.is_listed(c) by {
                    let a = choose|a: int|
                        0 <= a < cycled.allocators.len() && (
                        #[trigger] cycled.allocators[a]).list.contains(c);
                    assert(after.allocators[a].list.contains(c));
                }
                assert forall|c: usize| before.is_garbage(candidates@, c)
                    implies #[trigger] after.heap.is_free(
                    c as int,
                ) && after.is_listed(c as int) by {
                    assert(cycled.heap.is_free(c as int) && cycled.is_listed(c as int));
                }
                assert forall|c: int| before.is_listed(c) implies after.is_listed(c) by {
                    assert(cycled.is_listed(c));
                }
            }
            let dead = choose|dead: Seq<usize>| #[trigger]
                before.cycled_with(cycled, candidates@, dead);
            assert(before.cycled_with(after, candidates@, dead));
        }
    }
}

} // verus!
