//! Conservative scanning: every machine word that is an address of the
//! managed heap counts as a pointer into it.

use vstd::prelude::*;
use crate::gc::heap::{data_words, Heap, HeapView};

verus! {

/// The words of `words` that are addresses of the memory that the heap's
/// region has handed out, in their order.
pub open spec fn contained(h: HeapView, words: Seq<usize>) -> Seq<usize>
    decreases words.len(),
{
    if words.len() == 0 {
        Seq::empty()
    } else {
        let rest = contained(h, words.drop_last());
        if h.region.contains(words.last() as int) {
            rest.push(words.last())
        } else {
            rest
        }
    }
}

/// A word is among those found in `words` exactly if it is in `words` and an
/// address of the memory handed out.
pub proof fn lemma_contained(h: HeapView, words: Seq<usize>)
    ensures
        forall|w: usize| #[trigger]
            contained(h, words).contains(w) <==> words.contains(w) && h.region.contains(w as int),
        contained(h, words).len() <= words.len(),
    decreases words.len(),
{
    if words.len() == 0 {
    } else {
        let front = words.drop_last();
        let rest = contained(h, front);
        lemma_contained(h, front);
        assert forall|w: usize| #[trigger]
            contained(h, words).contains(w) <==> words.contains(w) && h.region.contains(
                w as int,
            ) by {
            if words.contains(w) {
                let k = words.index_of(w);
                if k < front.len() {
                    assert(front[k] == w);
                    assert(front.contains(w));
                } else {
                    assert(w == words.last());
                }
            }
            if front.contains(w) {
                let k = front.index_of(w);
                assert(words[k] == w);
            }
            if rest.contains(w) {
                let k = rest.index_of(w);
                assert(contained(h, words)[k] == w);
            }
            if h.region.contains(words.last() as int) {
                assert(contained(h, words) == rest.push(words.last()));
                assert(rest.push(words.last())[rest.len() as int] == words.last());
                if contained(h, words).contains(w) {
                    let k = contained(h, words).index_of(w);
                    if k < rest.len() {
                        assert(rest[k] == w);
                    }
                }
            }
            assert(words[words.len() - 1] == words.last());
        }
    }
}

/// Scans `words` from the place `from` on, and adds to `found` those that are
/// addresses of the heap.
pub fn scan_into(heap: &Heap, words: &Vec<usize>, from: usize, found: &mut Vec<usize>)
    requires
        heap@.wf(),
        from <= words.len(),
    ensures
        final(found)@ == old(found)@ + contained(heap@, words@.skip(from as int)),
{
    let mut i: usize = from;
    assert(words@.skip(from as int).take(0) =~= Seq::<usize>::empty());
    while i < words.len()
        invariant
            heap@.wf(),
            from <= i <= words.len(),
            found@ == old(found)@ + contained(heap@, words@.skip(from as int).take(i - from)),
        decreases words.len() - i,
    {
        let x: usize = words[i];
        proof {
            let tail = words@.skip(from as int);
            assert(tail.take(i - from + 1).drop_last() =~= tail.take(i - from));
            assert(tail.take(i - from + 1).last() == x);
        }
        if heap.contains(x) {
            found.push(x);
        }
        i = i + 1;
        assert(found@ =~= old(found)@ + contained(
            heap@,
            words@.skip(from as int).take(i - from),
        ));
    }
    assert(words@.skip(from as int).take(words.len() - from) =~= words@.skip(from as int));
}

/// The pointers into the heap among the saved registers of a thread, which
/// are given as machine words.
pub fn scan_registers(heap: &Heap, context: &Vec<usize>) -> (r: Vec<usize>)
    requires
        heap@.wf(),
    ensures
        r@ == contained(heap@, context@),
{
    let mut found: Vec<usize> = Vec::new();
    scan_into(heap, context, 0, &mut found);
    assert(context@.skip(0) =~= context@);
    assert(Seq::<usize>::empty() + contained(heap@, context@) =~= contained(heap@, context@));
    found
}

/// The pointers into the heap on the stack of a thread.
///
/// The stack lies between `bounds.0`, its limit, and `bounds.1`, its base, and
/// grows downwards; `stack` holds its words, the one at the limit first. The
/// part in use, from the stack pointer `rsp` up to the base, is scanned.
pub fn scan_stack(heap: &Heap, bounds: (usize, usize), rsp: usize, stack: &Vec<usize>) -> (r: Vec<
    usize,
>)
    requires
        heap@.wf(),
        bounds.0 < bounds.1,
        bounds.0 < rsp < bounds.1,
        stack.len() == (bounds.1 - bounds.0) / 8,
    ensures
        r@ == contained(heap@, stack@.skip((rsp - bounds.0) / 8)),
{
    let (top, _base): (usize, usize) = bounds;
    let from: usize = (rsp - top) / 8;
    let mut found: Vec<usize> = Vec::new();
    scan_into(heap, stack, from, &mut found);
    assert(Seq::<usize>::empty() + contained(heap@, stack@.skip(from as int)) =~= contained(
        heap@,
        stack@.skip(from as int),
    ));
    found
}

/// The pointers into the heap in a segment of writable global data, which is
/// given as machine words.
pub fn scan_segment(heap: &Heap, data: &Vec<usize>) -> (r: Vec<usize>)
    requires
        heap@.wf(),
    ensures
        r@ == contained(heap@, data@),
{
    scan_registers(heap, data)
}

/// The pointers into the heap in the data of the block at `block`.
pub fn scan_block(heap: &Heap, block: usize) -> (r: Vec<usize>)
    requires
        heap@.wf(),
        heap@.is_block(block as int),
    ensures
        r@ == contained(heap@, data_words(heap@, block as int, heap@.size(block as int) / 8)),
{
    proof {
        heap@.lemma_block(block as int);
    }
    let (_ptr, len): (usize, usize) = heap.header(block).data(block);
    let words: Vec<usize> = heap.read_words(block, len / 8);
    scan_registers(heap, &words)
}

} // verus!
