//! Scanning the native heap of the process, where the collector keeps its own
//! books, for pointers into the managed heap.

use vstd::prelude::*;
use crate::gc::heap::{Heap, HeapView};
use crate::gc::scanning::contained;

verus! {

/// The heap element is located at the beginning of a region of contiguous
/// virtual memory in use by the heap.
pub const HEAP_REGION: u16 = 0x0001;

/// The heap element is located in a range of uncommitted memory within the
/// heap region.
pub const HEAP_UNCOMMITTED_RANGE: u16 = 0x0002;

/// The heap element is an allocated block.
pub const HEAP_ENTRY_BUSY: u16 = 0x0004;

/// The allocated block is moveable. This value is used with
/// `HEAP_ENTRY_BUSY`.
pub const HEAP_ENTRY_MOVEABLE: u16 = 0x0010;

/// The fewest roots that the buffer of the roots is given room for.
pub const MINIMUM_CAP: usize = 64;

/// The factor by which the buffer of the roots grows when it is full.
pub const GROWTH_FACTOR: usize = 4;

/// An element of the native heap, as a walk of that heap reports it.
#[derive(Debug, Clone)]
pub struct WinHeapEntry {
    /// The address of the data of the element.
    pub data: usize,
    /// The flags of the element.
    pub flags: u16,
    /// The bytes of overhead of the element.
    pub overhead: usize,
    /// The data of the element, as machine words.
    pub contents: Vec<usize>,
}

impl WinHeapEntry {
    /// Whether the entry is in use, as its flags say.
    pub open spec fn spec_is_allocated(&self) -> bool {
        self.flags & HEAP_ENTRY_BUSY != 0
    }

    /// Whether the element is an allocated block.
    #[verifier::when_used_as_spec(spec_is_allocated)]
    pub fn is_allocated(&self) -> (r: bool)
        ensures
            r == self.spec_is_allocated(),
    {
        self.flags & HEAP_ENTRY_BUSY != 0
    }

    /// Whether the element is a range of uncommitted memory.
    pub fn is_uncommitted_range(&self) -> (r: bool)
        ensures
            r == (self.flags & HEAP_UNCOMMITTED_RANGE != 0),
    {
        self.flags & HEAP_UNCOMMITTED_RANGE != 0
    }

    /// Whether the element is the beginning of a region.
    pub fn is_region(&self) -> (r: bool)
        ensures
            r == (self.flags & HEAP_REGION != 0),
    {
        self.flags & HEAP_REGION != 0
    }

    /// Whether the element is an allocated block that is moveable.
    pub fn is_moveable(&self) -> (r: bool)
        ensures
            r == (self.is_allocated() && self.flags & HEAP_ENTRY_MOVEABLE != 0),
    {
        self.is_allocated() && (self.flags & HEAP_ENTRY_MOVEABLE != 0)
    }

    /// The address of the data of the element.
    pub fn data(&self) -> (r: usize)
        ensures
            r == self.data,
    {
        self.data
    }

    /// The bytes of the data of the element.
    pub fn data_size(&self) -> (r: usize)
        requires
            8 * self.contents.len() <= usize::MAX,
        ensures
            r == 8 * self.contents.len(),
    {
        8 * self.contents.len()
    }

    /// The bytes of the element: its data and its overhead.
    pub fn size(&self) -> (r: usize)
        requires
            8 * self.contents.len() + self.overhead <= usize::MAX,
        ensures
            r == 8 * self.contents.len() + self.overhead,
    {
        8 * self.contents.len() + self.overhead
    }
}

/// Whether a scan of the native heap looks into `entry`: the element is
/// allocated, and it is not the buffer of the roots itself, which stands at
/// `own`.
pub open spec fn is_scanned(entry: WinHeapEntry, own: usize) -> bool {
    entry.is_allocated() && entry.data != own
}

/// The pointers into the managed heap in the first `n` of `entries`, in the
/// order of the walk.
pub open spec fn heap_pointers(h: HeapView, entries: Seq<WinHeapEntry>, own: usize, n: int) -> Seq<
    usize,
>
    decreases n,
{
    if n <= 0 {
        Seq::empty()
    } else {
        let before = heap_pointers(h, entries, own, n - 1);
        if is_scanned(entries[n - 1], own) {
            before + contained(h, entries[n - 1].contents@)
        } else {
            before
        }
    }
}

/// The pointers in a part of the entries are no more than those in all.
pub proof fn lemma_heap_pointers_grow(
    h: HeapView,
    entries: Seq<WinHeapEntry>,
    own: usize,
    n: int,
    m: int,
)
    requires
        0 <= n <= m,
    ensures
        heap_pointers(h, entries, own, n).len() <= heap_pointers(h, entries, own, m).len(),
    decreases m - n,
{
    if n < m {
        lemma_heap_pointers_grow(h, entries, own, n, m - 1);
    }
}

/// The pointers in a part of the words are no more than those in all.
pub proof fn lemma_contained_grow(h: HeapView, words: Seq<usize>, j: int)
    requires
        0 <= j <= words.len(),
    ensures
        contained(h, words.take(j)).len() <= contained(h, words).len(),
    decreases words.len() - j,
{
    if j < words.len() {
        lemma_contained_grow(h, words, j + 1);
        assert(words.take(j + 1).drop_last() =~= words.take(j));
    } else {
        assert(words.take(j) =~= words);
    }
}

/// The room to reserve for the buffer of the roots when it holds `len` roots
/// in a capacity of `capacity`: what brings it up to the fewest roots that it
/// is given room for, or one, and three times its capacity where that is
/// more, as far as that can be counted.
pub open spec fn reserve_for(len: int, capacity: int) -> int {
    let least = if len < MINIMUM_CAP {
        MINIMUM_CAP - len
    } else {
        1
    };
    let grown = if (GROWTH_FACTOR - 1) * capacity > usize::MAX {
        usize::MAX as int
    } else {
        (GROWTH_FACTOR - 1) * capacity
    };
    if least >= grown {
        least
    } else {
        grown
    }
}

/// The room to reserve for the buffer of the roots when it is full.
pub fn roots_to_reserve(len: usize, capacity: usize) -> (r: usize)
    ensures
        r == reserve_for(len as int, capacity as int),
        r >= 1,
{
    let least: usize = if len < MINIMUM_CAP {
        MINIMUM_CAP - len
    } else {
        1
    };
    let grown: usize = if capacity > usize::MAX / (GROWTH_FACTOR - 1) {
        usize::MAX
    } else {
        (GROWTH_FACTOR - 1) * capacity
    };
    if least >= grown {
        least
    } else {
        grown
    }
}

/// One pass over the native heap: adds to `roots` the pointers into the
/// managed heap that the allocated elements hold, but for the element that is
/// the buffer of the roots itself, which stands at `own`.
///
/// The buffer holds `capacity` roots and does not grow while the native heap
/// is walked. If it is full, the pass is given up: the roots are what they
/// were before, and the answer is `false`. The buffer is then to be given
/// more room, outside the scan, and the pass to be made again.
pub fn scan_heap(
    heap: &Heap,
    roots: &mut Vec<usize>,
    capacity: usize,
    entries: &Vec<WinHeapEntry>,
    own: usize,
) -> (done: bool)
    requires
        heap@.wf(),
        old(roots).len() <= capacity,
    ensures
        done == (old(roots).len() + heap_pointers(
            heap@,
            entries@,
            own,
            entries.len() as int,
        ).len() <= capacity),
        done ==> final(roots)@ == old(roots)@ + heap_pointers(
            heap@,
            entries@,
            own,
            entries.len() as int,
        ),
        !done ==> final(roots)@ == old(roots)@,
{
    let ghost h = heap@;
    let initial_length: usize = roots.len();
    let mut k: usize = 0;
    assert(roots@ =~= old(roots)@ + heap_pointers(h, entries@, own, 0));
    while k < entries.len()
        invariant
            heap@ == h,
            h.wf(),
            0 <= k <= entries.len(),
            initial_length == old(roots).len(),
            roots.len() <= capacity,
            roots@ == old(roots)@ + heap_pointers(h, entries@, own, k as int),
        decreases entries.len() - k,
    {
        let b: &WinHeapEntry = &entries[k];
        // the allocation that holds our roots is not scanned
        if b.is_allocated() && b.data() != own {
            let ghost before = roots@;
            let n: usize = b.contents.len();
            let mut i: usize = 0;
            assert(b.contents@.take(0) =~= Seq::<usize>::empty());
            while i < n
                invariant
                    heap@ == h,
                    h.wf(),
                    0 <= i <= n,
                    0 <= k < entries.len(),
                    n == b.contents.len(),
                    *b == entries@[k as int],
                    is_scanned(*b, own),
                    initial_length == old(roots).len(),
                    roots.len() <= capacity,
                    before == old(roots)@ + heap_pointers(h, entries@, own, k as int),
                    roots@ == before + contained(h, b.contents@.take(i as int)),
                decreases n - i,
            {
                let ptr: usize = b.contents[i];
                proof {
                    assert(b.contents@.take(i + 1).drop_last() =~= b.contents@.take(i as int));
                    assert(b.contents@.take(i + 1).last() == ptr);
                }
                if heap.contains(ptr) {
                    if roots.len() == capacity {
                        // we need to rescan the whole heap, since the buffer must grow
                        roots.truncate(initial_length);
                        proof {
                            lemma_contained_grow(h, b.contents@, i + 1);
                            lemma_heap_pointers_grow(
                                h,
                                entries@,
                                own,
                                k + 1,
                                entries.len() as int,
                            );
                            assert(roots@ =~= old(roots)@);
                        }
                        return false;
                    }
                    roots.push(ptr);
                }
                i = i + 1;
                assert(roots@ =~= before + contained(h, b.contents@.take(i as int)));
            }
            assert(b.contents@.take(n as int) =~= b.contents@);
            assert(roots@ =~= old(roots)@ + heap_pointers(h, entries@, own, k + 1));
        }
        k = k + 1;
    }
    true
}

} // verus!
