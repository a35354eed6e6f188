//! The managed heap: committed memory as machine words, and the list of blocks
//! that tiles it.
//!
//! A block is a header of four words followed by its data. The first block
//! starts where the region starts, and behind the data of each block stands
//! the header of the next, up to the end of what the region has handed out.

use vstd::prelude::*;
use crate::gc::heap_block_header::{decode_link, encode_link, GCHeapBlockHeader, HEADERFLAG_NONE};
use crate::gc::layout::{lemma_header_words_aligned, lemma_word_index};
use crate::gc::mem_source::{MemorySource, RegionView, WindowsMemorySource};

verus! {

/// The heap as the contracts see it.
pub struct HeapView {
    /// The region that the heap lives in.
    pub region: RegionView,
    /// The bytes for which words are in store.
    pub stored: int,
    /// The word at each word-aligned address that the region has handed out,
    /// and zero at every other address.
    pub mem: Map<int, usize>,
    /// The addresses of all block headers, in ascending order.
    pub blocks: Seq<int>,
}

impl HeapView {
    /// The address behind the memory handed out.
    pub open spec fn end(self) -> int {
        self.region.base + self.region.length
    }

    /// Whether `addr` is the address of a word of the heap.
    pub open spec fn is_word(self, addr: int) -> bool {
        self.region.contains(addr) && addr % 8 == 0
    }

    /// The free-list link in the header at `b`, zero for none.
    pub open spec fn next_free(self, b: int) -> usize {
        self.mem[b]
    }

    /// The size of the data of the block at `b`.
    pub open spec fn size(self, b: int) -> int {
        self.mem[b + 8] as int
    }

    /// The flags in the header at `b`.
    pub open spec fn flags(self, b: int) -> usize {
        self.mem[b + 16]
    }

    /// The destructor in the header at `b`, zero for none.
    pub open spec fn thunk(self, b: int) -> usize {
        self.mem[b + 24]
    }

    /// The header at `b`.
    pub open spec fn header(self, b: int) -> GCHeapBlockHeader {
        GCHeapBlockHeader {
            next_free: decode_link(self.next_free(b)),
            size: self.mem[b + 8],
            flags: self.flags(b),
            drop_thunk: decode_link(self.thunk(b)),
        }
    }

    /// Where the data of the block at `b` starts.
    pub open spec fn data(self, b: int) -> int {
        b + 32
    }

    /// The address behind the block at `b`.
    pub open spec fn next(self, b: int) -> int {
        b + 32 + self.size(b)
    }

    /// Whether a block header stands at `b`.
    pub open spec fn is_block(self, b: int) -> bool {
        self.blocks.contains(b)
    }

    /// Whether `b` is a block and allocated.
    pub open spec fn is_allocated(self, b: int) -> bool {
        self.is_block(b) && self.flags(b) == 1
    }

    /// Whether `b` is a block and free.
    pub open spec fn is_free(self, b: int) -> bool {
        self.is_block(b) && self.flags(b) == 0
    }

    /// Whether `addr` lies in the data of the block at `b`.
    pub open spec fn in_data(self, b: int, addr: int) -> bool {
        self.data(b) <= addr < self.next(b)
    }

    /// What holds of the `i`-th block: it is aligned, its size is a positive
    /// multiple of sixteen, the next block (or the end of the heap) stands
    /// directly behind its data, an allocated block has no link, and a free
    /// block has no destructor.
    pub open spec fn block_ok(self, i: int) -> bool {
        let b = self.blocks[i];
        &&& self.region.base <= b
        &&& b % 16 == 0
        &&& self.size(b) >= 16
        &&& self.size(b) % 16 == 0
        &&& self.next(b) == if i + 1 < self.blocks.len() {
            self.blocks[i + 1]
        } else {
            self.end()
        }
        &&& self.flags(b) <= 1
        &&& (self.flags(b) == 1 ==> self.next_free(b) == 0)
        &&& (self.flags(b) == 0 ==> self.thunk(b) == 0)
    }

    /// The invariant of the heap.
    pub open spec fn wf(self) -> bool {
        &&& self.region.wf()
        &&& self.stored == self.region.length
        &&& (self.blocks.len() == 0 <==> self.region.length == 0)
        &&& (self.blocks.len() > 0 ==> self.blocks[0] == self.region.base)
        &&& forall|i: int| 0 <= i < self.blocks.len() ==> #[trigger] self.block_ok(i)
    }

    /// Blocks stand in ascending order and do not overlap.
    pub proof fn lemma_blocks_sorted(self, i: int, j: int)
        requires
            self.wf(),
            0 <= i < j < self.blocks.len(),
        ensures
            self.next(self.blocks[i]) <= self.blocks[j],
        decreases j - i,
    {
        assert(self.block_ok(i));
        if i + 1 < j {
            self.lemma_blocks_sorted(i + 1, j);
            assert(self.block_ok(i + 1));
        }
    }

    /// Every block lies inside the memory handed out.
    #[verifier::spinoff_prover]
    pub proof fn lemma_block_in_range(self, i: int)
        requires
            self.wf(),
            0 <= i < self.blocks.len(),
        ensures
            self.region.base <= self.blocks[i],
            self.next(self.blocks[i]) <= self.end(),
            self.is_word(self.blocks[i]),
            self.is_word(self.blocks[i] + 8),
            self.is_word(self.blocks[i] + 16),
            self.is_word(self.blocks[i] + 24),
        decreases self.blocks.len() - i,
    {
        assert(self.block_ok(i));
        lemma_header_words_aligned(self.blocks[i]);
        if i + 1 < self.blocks.len() {
            self.lemma_block_in_range(i + 1);
            assert(self.block_ok(i + 1));
        }
    }

    /// A block stands at one place of the list only.
    pub proof fn lemma_block_index_unique(self, i: int, j: int)
        requires
            self.wf(),
            0 <= i < self.blocks.len(),
            0 <= j < self.blocks.len(),
            self.blocks[i] == self.blocks[j],
        ensures
            i == j,
    {
        assert(self.block_ok(i));
        assert(self.block_ok(j));
        if i < j {
            self.lemma_blocks_sorted(i, j);
        } else if j < i {
            self.lemma_blocks_sorted(j, i);
        }
    }

    /// Two different blocks do not overlap: one ends before the other starts.
    pub proof fn lemma_blocks_disjoint(self, b: int, c: int)
        requires
            self.wf(),
            self.is_block(b),
            self.is_block(c),
            b != c,
        ensures
            self.next(b) <= c || self.next(c) <= b,
    {
        let i = choose|i: int| 0 <= i < self.blocks.len() && self.blocks[i] == b;
        let j = choose|j: int| 0 <= j < self.blocks.len() && self.blocks[j] == c;
        if i < j {
            self.lemma_blocks_sorted(i, j);
        } else {
            self.lemma_blocks_sorted(j, i);
        }
    }

    /// What holds of a block of the heap.
    pub proof fn lemma_block(self, b: int)
        requires
            self.wf(),
            self.is_block(b),
        ensures
            self.region.base <= b,
            b % 16 == 0,
            self.size(b) >= 16,
            self.size(b) % 16 == 0,
            self.next(b) <= self.end(),
            self.flags(b) <= 1,
            self.flags(b) == 1 ==> self.next_free(b) == 0,
            self.flags(b) == 0 ==> self.thunk(b) == 0,
            self.is_word(b),
            self.is_word(b + 8),
            self.is_word(b + 16),
            self.is_word(b + 24),
            self.is_allocated(b) != self.is_free(b),
    {
        let i = choose|i: int| 0 <= i < self.blocks.len() && self.blocks[i] == b;
        assert(self.block_ok(i));
        self.lemma_block_in_range(i);
    }
}

impl HeapView {
    /// The heap with the word at `addr` replaced by `value`.
    pub open spec fn with_word(self, addr: int, value: usize) -> HeapView {
        HeapView { mem: self.mem.insert(addr, value), ..self }
    }

    /// The heap with the header at `b` replaced by `h`.
    pub open spec fn with_header(self, b: int, h: GCHeapBlockHeader) -> HeapView {
        HeapView {
            mem: self.mem.insert(b, encode_link(h.next_free)).insert(b + 8, h.size).insert(
                b + 16,
                h.flags,
            ).insert(b + 24, encode_link(h.drop_thunk)),
            ..self
        }
    }

    /// The heap after the block at `b` has been cut in two: the block at `b`
    /// keeps `keep` bytes of data, and a new free block behind it takes the
    /// rest, and the place behind `b` on `b`'s free list.
    #[verifier::opaque]
    pub open spec fn split(self, b: int, keep: int) -> HeapView {
        let n = b + 32 + keep;
        let rest = GCHeapBlockHeader {
            next_free: decode_link(self.next_free(b)),
            size: (self.size(b) - keep - 32) as usize,
            flags: 0,
            drop_thunk: None,
        };
        let front = GCHeapBlockHeader {
            next_free: Some(n as usize),
            size: keep as usize,
            flags: self.flags(b),
            drop_thunk: decode_link(self.thunk(b)),
        };
        HeapView {
            blocks: self.blocks.insert(self.blocks.index_of(b) + 1, n),
            ..self.with_header(n, rest).with_header(b, front)
        }
    }

    /// What the region has committed after it has handed out `len` more
    /// bytes: what it had committed, doubled until it covers what is handed
    /// out.
    pub open spec fn grown_committed(self, len: int) -> int {
        crate::gc::mem_source::committed_for(
            self.region.committed,
            self.region.length + len,
            self.region.reserved,
        )
    }

    /// The heap after the region has handed out `len` more bytes, all zero,
    /// with no new block in them yet.
    pub open spec fn extended(self, len: int, committed: int) -> HeapView {
        HeapView {
            region: RegionView {
                length: self.region.length + len,
                committed: committed,
                ..self.region
            },
            stored: self.stored + len,
            ..self
        }
    }

    /// The heap after the region has handed out `len` more bytes, which make
    /// one new free block on no free list.
    pub open spec fn grown(self, len: int, committed: int) -> HeapView {
        let n = self.end();
        let fresh = GCHeapBlockHeader {
            next_free: None,
            size: (len - 32) as usize,
            flags: 0,
            drop_thunk: None,
        };
        HeapView {
            blocks: self.blocks.push(n),
            ..self.extended(len, committed).with_header(n, fresh)
        }
    }

    /// Writing a header over the header of a block, with the size unchanged,
    /// keeps the heap well formed and its blocks where they were.
    #[verifier::spinoff_prover]
    pub proof fn lemma_with_header_wf(self, b: int, h: GCHeapBlockHeader)
        requires
            self.wf(),
            self.is_block(b),
            h.well_formed(),
            h.size == self.size(b),
        ensures
            self.with_header(b, h).wf(),
            self.with_header(b, h).header(b) == h,
            forall|c: int| #[trigger]
                self.is_block(c) && c != b ==> self.with_header(b, h).header(c) == self.header(c),
            forall|a: int|
                a != b && a != b + 8 && a != b + 16 && a != b + 24 ==> #[trigger] self.with_header(
                    b,
                    h,
                ).mem[a] == self.mem[a],
    {
        let after = self.with_header(b, h);
        self.lemma_block(b);
        crate::gc::heap_block_header::lemma_flag_values();
        assert forall|i: int| 0 <= i < after.blocks.len() implies #[trigger] after.block_ok(i) by {
            assert(self.block_ok(i));
            let c = self.blocks[i];
            if c != b {
                self.lemma_blocks_disjoint(b, c);
            }
        }
        assert forall|c: int| #[trigger] self.is_block(c) && c != b implies after.header(c)
            == self.header(c) by {
            self.lemma_block(c);
            self.lemma_blocks_disjoint(b, c);
        }
    }

    /// Writing a word into the data of a block keeps the heap well formed and
    /// every header as it was.
    pub proof fn lemma_with_data_word_wf(self, b: int, addr: int, value: usize)
        requires
            self.wf(),
            self.is_block(b),
            self.in_data(b, addr),
            addr % 8 == 0,
        ensures
            self.with_word(addr, value).wf(),
            forall|c: int| #[trigger]
                self.is_block(c) ==> self.with_word(addr, value).header(c) == self.header(c),
    {
        let after = self.with_word(addr, value);
        self.lemma_block(b);
        assert forall|c: int| #[trigger] self.is_block(c) implies after.header(c) == self.header(
            c,
        ) by {
            self.lemma_block(c);
            if c != b {
                self.lemma_blocks_disjoint(b, c);
            }
        }
        assert forall|i: int| 0 <= i < after.blocks.len() implies #[trigger] after.block_ok(i) by {
            assert(self.block_ok(i));
            let c = self.blocks[i];
            assert(self.is_block(c));
            assert(after.header(c) == self.header(c));
        }
    }
}

impl HeapView {
    /// What cutting a block in two changes: the eight words of the two
    /// headers, and the list of blocks.
    #[verifier::spinoff_prover]
    pub proof fn lemma_split_mem(self, b: int, keep: int)
        ensures
            self.split(b, keep).region == self.region,
            self.split(b, keep).stored == self.stored,
            self.split(b, keep).blocks == self.blocks.insert(
                self.blocks.index_of(b) + 1,
                b + 32 + keep,
            ),
            self.split(b, keep).mem[b] == (b + 32 + keep) as usize,
            self.split(b, keep).mem[b + 8] == keep as usize,
            self.split(b, keep).mem[b + 16] == self.mem[b + 16],
            keep >= 0 ==> self.split(b, keep).mem[b + 24] == self.mem[b + 24],
            keep >= 0 ==> self.split(b, keep).mem[b + 32 + keep] == self.mem[b],
            keep >= 0 ==> self.split(b, keep).mem[b + 32 + keep + 8] == (self.size(b) - keep
                - 32) as usize,
            keep >= 0 ==> self.split(b, keep).mem[b + 32 + keep + 16] == 0,
            keep >= 0 ==> self.split(b, keep).mem[b + 32 + keep + 24] == 0,
            forall|a: int|
                !(b <= a < b + 32) && !(b + 32 + keep <= a < b + 64 + keep) ==> #[trigger] self.split(
                    b,
                    keep,
                ).mem[a] == self.mem[a],
    {
        reveal(HeapView::split);
    }

    /// Cutting a free block in two keeps the heap well formed. The blocks are
    /// those of before and the new one; no other header changes, and no word
    /// outside the block that was cut.
    #[verifier::spinoff_prover]
    pub proof fn lemma_split_wf(self, b: int, keep: int)
        requires
            self.wf(),
            self.is_free(b),
            keep >= 16,
            keep % 16 == 0,
            keep + 48 <= self.size(b),
        ensures
            self.split(b, keep).wf(),
            self.split(b, keep).region == self.region,
            forall|c: int| #[trigger]
                self.split(b, keep).is_block(c) <==> self.is_block(c) || c == b + 32 + keep,
            !self.is_block(b + 32 + keep),
            forall|c: int| #[trigger]
                self.is_block(c) && c != b ==> self.split(b, keep).header(c) == self.header(c),
            self.split(b, keep).header(b) == (GCHeapBlockHeader {
                next_free: Some((b + 32 + keep) as usize),
                size: keep as usize,
                ..self.header(b)
            }),
            self.split(b, keep).header(b + 32 + keep) == (GCHeapBlockHeader {
                next_free: self.header(b).next_free,
                size: (self.size(b) - keep - 32) as usize,
                flags: 0,
                drop_thunk: None,
            }),
            forall|a: int|
                !(b <= a < self.next(b)) ==> #[trigger] self.split(b, keep).mem[a] == self.mem[a],
    {
        let after = self.split(b, keep);
        let n = b + 32 + keep;
        let i = self.blocks.index_of(b);
        self.lemma_split_mem(b, keep);
        self.lemma_block(b);
        assert(self.block_ok(i));
        assert(after.blocks.len() == self.blocks.len() + 1);
        assert forall|c: int| #[trigger] self.is_block(c) && c != b implies after.header(c)
            == self.header(c) by {
            self.lemma_block(c);
            self.lemma_blocks_disjoint(b, c);
        }
        assert(!self.is_block(n)) by {
            if self.is_block(n) {
                self.lemma_block(n);
                self.lemma_blocks_disjoint(b, n);
            }
        }
        assert forall|k: int| 0 <= k < after.blocks.len() implies #[trigger] after.block_ok(k) by {
            if k <= i {
                assert(self.block_ok(k));
                let c = self.blocks[k];
                assert(after.blocks[k] == c);
                assert(self.is_block(c));
                if k < i {
                    if c == b {
                        self.lemma_block_index_unique(k, i);
                    }
                    assert(after.header(c) == self.header(c));
                    assert(after.blocks[k + 1] == self.blocks[k + 1]);
                } else {
                    assert(after.blocks[k + 1] == n);
                }
            } else if k == i + 1 {
                assert(after.blocks[k] == n);
                if i + 1 < self.blocks.len() {
                    assert(after.blocks[k + 1] == self.blocks[i + 1]);
                }
            } else {
                assert(self.block_ok(k - 1));
                let c = self.blocks[k - 1];
                assert(after.blocks[k] == c);
                assert(self.is_block(c));
                if c == b {
                    self.lemma_block_index_unique(k - 1, i);
                }
                assert(after.header(c) == self.header(c));
                if k < self.blocks.len() {
                    assert(after.blocks[k + 1] == self.blocks[k]);
                }
            }
        }
        assert forall|c: int| #[trigger] after.is_block(c) <==> self.is_block(c) || c == n by {
            if self.is_block(c) {
                let k = self.blocks.index_of(c);
                if k <= i {
                    assert(after.blocks[k] == c);
                } else {
                    assert(after.blocks[k + 1] == c);
                }
            }
            if c == n {
                assert(after.blocks[i + 1] == n);
            }
            if after.is_block(c) {
                let k = after.blocks.index_of(c);
                if k <= i {
                    assert(self.blocks[k] == c);
                } else if k > i + 1 {
                    assert(self.blocks[k - 1] == c);
                }
            }
        }
    }

    /// Handing out more memory as one new free block keeps the heap well
    /// formed. The blocks are those of before and the new one, and no word of
    /// before changes.
    #[verifier::spinoff_prover]
    pub proof fn lemma_grown_wf(self, len: int, committed: int)
        requires
            self.wf(),
            len >= 4096,
            len % 4096 == 0,
            self.region.length + len <= committed <= self.region.reserved,
        ensures
            self.grown(len, committed).wf(),
            forall|c: int| #[trigger]
                self.grown(len, committed).is_block(c) <==> self.is_block(c) || c == self.end(),
            !self.is_block(self.end()),
            forall|c: int| #[trigger]
                self.is_block(c) ==> self.grown(len, committed).header(c) == self.header(c),
            self.grown(len, committed).header(self.end()) == (GCHeapBlockHeader {
                next_free: None,
                size: (len - 32) as usize,
                flags: 0,
                drop_thunk: None,
            }),
            forall|a: int| self.is_word(a) ==> #[trigger] self.grown(len, committed).mem[a] == self.mem[a],
    {
        let after = self.grown(len, committed);
        let n = self.end();
        assert(n % 8 == 0 && n % 16 == 0);
        assert(after.region.base == self.region.base);
        assert(after.end() == n + len);
        assert(after.mem[n] == 0);
        assert(after.mem[n + 8] == (len - 32) as usize);
        assert(after.mem[n + 16] == 0);
        assert(after.mem[n + 24] == 0);
        assert forall|a: int| self.is_word(a) implies #[trigger] after.mem[a] == self.mem[a] by {
            assert(a < n);
        }
        assert(!self.is_block(n)) by {
            if self.is_block(n) {
                self.lemma_block(n);
            }
        }
        assert forall|c: int| #[trigger] self.is_block(c) implies after.header(c) == self.header(
            c,
        ) by {
            self.lemma_block(c);
        }
        assert forall|k: int| 0 <= k < after.blocks.len() implies #[trigger] after.block_ok(k) by {
            if k < self.blocks.len() {
                assert(self.block_ok(k));
                let c = self.blocks[k];
                assert(after.blocks[k] == c);
                assert(self.is_block(c));
                assert(after.header(c) == self.header(c));
            } else {
                assert(after.blocks[k] == n);
            }
        }
        assert forall|c: int| #[trigger] after.is_block(c) <==> self.is_block(c) || c == n by {
            if self.is_block(c) {
                let k = self.blocks.index_of(c);
                assert(after.blocks[k] == c);
            }
            if c == n {
                assert(after.blocks[self.blocks.len() as int] == n);
            }
            if after.is_block(c) {
                let k = after.blocks.index_of(c);
                if k < self.blocks.len() {
                    assert(self.blocks[k] == c);
                }
            }
        }
    }
}

impl HeapView {
    /// What a change to the heap leaves alone: the region stays where it is
    /// and does not shrink, every block stays a block, and each block outside
    /// `touched` keeps its header and its data.
    pub open spec fn kept(self, after: HeapView, touched: Set<int>) -> bool {
        &&& after.region.base == self.region.base
        &&& after.region.reserved == self.region.reserved
        &&& after.region.length >= self.region.length
        &&& forall|c: int| #[trigger] self.is_block(c) ==> after.is_block(c)
        &&& forall|c: int|
            #[trigger] self.is_block(c) && !touched.contains(c) ==> after.header(c) == self.header(
                c,
            )
        &&& forall|c: int, a: int|
            #![trigger self.in_data(c, a), after.mem[a]]
            self.is_block(c) && !touched.contains(c) && self.in_data(c, a) ==> after.mem[a]
                == self.mem[a]
    }

    /// What a change leaves alone outside a set, it leaves alone outside a
    /// greater set.
    pub proof fn lemma_kept_mono(self, after: HeapView, touched: Set<int>, more: Set<int>)
        requires
            self.kept(after, touched),
            forall|c: int| #[trigger] touched.contains(c) ==> more.contains(c),
        ensures
            self.kept(after, more),
    {
        assert forall|c: int| #[trigger] self.is_block(c) && !more.contains(c) implies after.header(
            c,
        ) == self.header(c) by {
            assert(!touched.contains(c));
        }
        assert forall|c: int, a: int|
            #![trigger self.in_data(c, a), after.mem[a]]
            self.is_block(c) && !more.contains(c) && self.in_data(c, a) implies after.mem[a]
            == self.mem[a] by {
            assert(!touched.contains(c));
        }
    }

    /// Nothing is what every change leaves alone.
    pub proof fn lemma_kept_refl(self, touched: Set<int>)
        ensures
            self.kept(self, touched),
    {
    }

    /// What two changes in a row leave alone, where the second touches no old
    /// block that the first may not touch.
    pub proof fn lemma_kept_trans(
        self,
        mid: HeapView,
        after: HeapView,
        touched: Set<int>,
        then_touched: Set<int>,
    )
        requires
            self.kept(mid, touched),
            mid.kept(after, then_touched),
            forall|c: int|
                self.is_block(c) && #[trigger] then_touched.contains(c) ==> touched.contains(c),
        ensures
            self.kept(after, touched),
    {
        assert forall|c: int| #[trigger] self.is_block(c) implies after.is_block(c) by {
            assert(mid.is_block(c));
        }
        assert forall|c: int| #[trigger] self.is_block(c) && !touched.contains(c) implies after.header(
            c,
        ) == self.header(c) by {
            assert(mid.is_block(c));
            assert(!then_touched.contains(c));
        }
        assert forall|c: int, a: int|
            #![trigger self.in_data(c, a), after.mem[a]]
            self.is_block(c) && !touched.contains(c) && self.in_data(c, a) implies after.mem[a]
            == self.mem[a] by {
            assert(mid.is_block(c));
            assert(!then_touched.contains(c));
            assert(mid.header(c) == self.header(c));
            assert(mid.in_data(c, a));
            assert(mid.mem[a] == self.mem[a]);
        }
    }

    /// A new header on a block of `touched` leaves the rest alone.
    #[verifier::spinoff_prover]
    pub proof fn lemma_kept_with_header(self, b: int, h: GCHeapBlockHeader, touched: Set<int>)
        requires
            self.wf(),
            self.is_block(b),
            touched.contains(b),
            h.well_formed(),
            h.size == self.size(b),
        ensures
            self.kept(self.with_header(b, h), touched),
    {
        let after = self.with_header(b, h);
        self.lemma_with_header_wf(b, h);
        self.lemma_block(b);
        assert forall|c: int, a: int|
            #![trigger self.in_data(c, a), after.mem[a]]
            self.is_block(c) && !touched.contains(c) && self.in_data(c, a) implies after.mem[a]
            == self.mem[a] by {
            self.lemma_blocks_disjoint(b, c);
        }
    }

    /// A word stored in the data of a block of `touched` leaves the rest alone.
    pub proof fn lemma_kept_with_word(self, b: int, addr: int, value: usize, touched: Set<int>)
        requires
            self.wf(),
            self.is_block(b),
            touched.contains(b),
            self.in_data(b, addr),
            addr % 8 == 0,
        ensures
            self.kept(self.with_word(addr, value), touched),
    {
        let after = self.with_word(addr, value);
        self.lemma_with_data_word_wf(b, addr, value);
        self.lemma_block(b);
        assert forall|c: int, a: int|
            #![trigger self.in_data(c, a), after.mem[a]]
            self.is_block(c) && !touched.contains(c) && self.in_data(c, a) implies after.mem[a]
            == self.mem[a] by {
            self.lemma_blocks_disjoint(b, c);
        }
    }

    /// Cutting a block of `touched` in two leaves the rest alone.
    #[verifier::spinoff_prover]
    pub proof fn lemma_kept_split(self, b: int, keep: int, touched: Set<int>)
        requires
            self.wf(),
            self.is_free(b),
            touched.contains(b),
            keep >= 16,
            keep % 16 == 0,
            keep + 48 <= self.size(b),
        ensures
            self.kept(self.split(b, keep), touched),
    {
        let after = self.split(b, keep);
        self.lemma_split_wf(b, keep);
        self.lemma_block(b);
        assert forall|c: int| #[trigger] self.is_block(c) implies after.is_block(c) by {}
        assert forall|c: int, a: int|
            #![trigger self.in_data(c, a), after.mem[a]]
            self.is_block(c) && !touched.contains(c) && self.in_data(c, a) implies after.mem[a]
            == self.mem[a] by {
            self.lemma_blocks_disjoint(b, c);
            self.lemma_block(c);
        }
    }

    /// Growth leaves all of the heap alone.
    pub proof fn lemma_kept_grown(self, len: int, committed: int, touched: Set<int>)
        requires
            self.wf(),
            len >= 4096,
            len % 4096 == 0,
            self.region.length + len <= committed <= self.region.reserved,
        ensures
            self.kept(self.grown(len, committed), touched),
    {
        let after = self.grown(len, committed);
        self.lemma_grown_wf(len, committed);
        assert forall|c: int| #[trigger] self.is_block(c) implies after.is_block(c) by {}
        assert forall|c: int, a: int|
            #![trigger self.in_data(c, a), after.mem[a]]
            self.is_block(c) && !touched.contains(c) && self.in_data(c, a) implies after.mem[a]
            == self.mem[a] by {
            self.lemma_block(c);
        }
    }
}

/// The managed heap: the region, the words it has handed out, and the list of
/// the blocks in them.
pub struct Heap {
    source: WindowsMemorySource,
    /// The words handed out, the one at the region's base first.
    memory: Vec<usize>,
    blocks: Ghost<Seq<int>>,
}

/// The word that a store of words holds for the address `a`, where the store
/// starts at `base`.
#[verifier::opaque]
pub closed spec fn stored_word(memory: Seq<usize>, base: int, a: int) -> usize {
    if base <= a < base + 8 * memory.len() && a % 8 == 0 {
        memory[(a - base) / 8]
    } else {
        0
    }
}

/// Zeros behind the end of a store change no word that it holds for an address.
proof fn lemma_zero_extension(before: Seq<usize>, after: Seq<usize>, base: int)
    requires
        base % 16 == 0,
        after.len() >= before.len(),
        forall|k: int| 0 <= k < before.len() ==> after[k] == before[k],
        forall|k: int| before.len() <= k < after.len() ==> after[k] == 0,
    ensures
        forall|a: int| #[trigger] stored_word(after, base, a) == stored_word(before, base, a),
{
    reveal(stored_word);
    assert forall|a: int| #[trigger] stored_word(after, base, a) == stored_word(
        before,
        base,
        a,
    ) by {
        let k = (a - base) / 8;
        if base <= a < base + 8 * after.len() && a % 8 == 0 {
            lemma_word_index(base, a);
            if a < base + 8 * before.len() {
                assert(0 <= k < before.len());
            } else {
                assert(before.len() <= k < after.len());
            }
        }
    }
}

impl View for Heap {
    type V = HeapView;

    closed spec fn view(&self) -> HeapView {
        HeapView {
            region: self.source.view(),
            stored: 8 * self.memory.len(),
            mem: Map::total(|a: int| stored_word(self.memory@, self.source.view().base, a)),
            blocks: self.blocks@,
        }
    }
}

impl Heap {
    /// A heap in the `max_size` bytes reserved at `base`, with nothing handed
    /// out yet and no block.
    pub fn new(base: usize, max_size: usize) -> (r: Self)
        requires
            base > 0,
            base % 4096 == 0,
            base + max_size <= usize::MAX,
        ensures
            r@.wf(),
            r@.region.base == base,
            r@.region.reserved == max_size,
            r@.region.length == 0,
            r@.blocks.len() == 0,
    {
        Heap {
            source: WindowsMemorySource::new(base, max_size),
            memory: Vec::new(),
            blocks: Ghost(Seq::empty()),
        }
    }

    /// Whether `ptr` points into the memory handed out.
    pub fn contains(&self, ptr: usize) -> (r: bool)
        requires
            self@.wf(),
        ensures
            r == self@.region.contains(ptr as int),
    {
        self.source.contains(ptr)
    }

    /// The whole range handed out so far: its address and its length in bytes.
    pub fn raw_data(&self) -> (r: (usize, usize))
        requires
            self@.wf(),
        ensures
            r.0 == self@.region.base,
            r.1 == self@.region.length,
            r.0 + r.1 == self@.end(),
    {
        self.source.raw_data()
    }

    /// The bytes that the region can still hand out.
    pub fn room(&self) -> (r: usize)
        requires
            self@.wf(),
        ensures
            r == self@.region.reserved - self@.region.length,
    {
        let (_base, length): (usize, usize) = self.source.raw_data();
        self.source.reserved() - length
    }

    /// The word at `addr`.
    pub fn read(&self, addr: usize) -> (r: usize)
        requires
            self@.wf(),
            self@.is_word(addr as int),
        ensures
            r == self@.mem[addr as int],
    {
        let (base, _length): (usize, usize) = self.source.raw_data();
        let i: usize = (addr - base) / 8;
        proof {
            reveal(stored_word);
            lemma_word_index(base as int, addr as int);
        }
        self.memory[i]
    }

    /// Stores `value` at `addr`, whatever stands there.
    #[verifier::spinoff_prover]
    fn write(&mut self, addr: usize, value: usize)
        requires
            old(self)@.region.wf(),
            old(self)@.stored == old(self)@.region.length,
            old(self)@.is_word(addr as int),
        ensures
            final(self)@ == old(self)@.with_word(addr as int, value),
    {
        let (base, _length): (usize, usize) = self.source.raw_data();
        let i: usize = (addr - base) / 8;
        proof {
            lemma_word_index(base as int, addr as int);
        }
        self.memory.set(i, value);
        proof {
            reveal(stored_word);
            let before = old(self).memory@;
            let after = self.memory@;
            assert forall|a: int|
                stored_word(after, base as int, a) == if a == addr {
                    value
                } else {
                    stored_word(before, base as int, a)
                } by {
                if base <= a < base + 8 * before.len() && a % 8 == 0 && a != addr {
                    lemma_word_index(base as int, a);
                    assert((a - base) / 8 != (addr - base) / 8);
                }
            }
            assert(self@.mem =~= old(self)@.mem.insert(addr as int, value));
        }
    }

    /// Stores the four words of `h` at `b`, whatever stands there.
    #[verifier::spinoff_prover]
    fn write_header(&mut self, b: usize, h: &GCHeapBlockHeader)
        requires
            old(self)@.region.wf(),
            old(self)@.stored == old(self)@.region.length,
            old(self)@.is_word(b as int),
            old(self)@.is_word(b + 24),
        ensures
            final(self)@ == old(self)@.with_header(b as int, *h),
    {
        let next_free: usize = match h.next_free {
            Some(p) => p,
            None => 0,
        };
        let drop_thunk: usize = match h.drop_thunk {
            Some(p) => p,
            None => 0,
        };
        self.write(b, next_free);
        self.write(b + 8, h.size);
        self.write(b + 16, h.flags);
        self.write(b + 24, drop_thunk);
    }

    /// The header of the block at `b`.
    pub fn header(&self, b: usize) -> (r: GCHeapBlockHeader)
        requires
            self@.wf(),
            self@.is_block(b as int),
        ensures
            r == self@.header(b as int),
            r.well_formed(),
            r.is_allocated() == self@.is_allocated(b as int),
            !r.is_allocated() == self@.is_free(b as int),
            r.size == self@.size(b as int),
    {
        proof {
            self@.lemma_block(b as int);
            crate::gc::heap_block_header::lemma_flag_values();
        }
        let next_free: usize = self.read(b);
        let size: usize = self.read(b + 8);
        let flags: usize = self.read(b + 16);
        let drop_thunk: usize = self.read(b + 24);
        GCHeapBlockHeader {
            next_free: if next_free == 0 {
                None
            } else {
                Some(next_free)
            },
            size,
            flags,
            drop_thunk: if drop_thunk == 0 {
                None
            } else {
                Some(drop_thunk)
            },
        }
    }

    /// Replaces the header of the block at `b` by `h`, which keeps the size.
    pub fn set_header(&mut self, b: usize, h: &GCHeapBlockHeader)
        requires
            old(self)@.wf(),
            old(self)@.is_block(b as int),
            h.well_formed(),
            h.size == old(self)@.size(b as int),
        ensures
            final(self)@ == old(self)@.with_header(b as int, *h),
            final(self)@.wf(),
    {
        proof {
            self@.lemma_block(b as int);
            self@.lemma_with_header_wf(b as int, *h);
        }
        self.write_header(b, h);
    }

    /// Stores `value` at `addr`, in the data of the block at `b`.
    pub fn write_data(&mut self, b: usize, addr: usize, value: usize)
        requires
            old(self)@.wf(),
            old(self)@.is_block(b as int),
            old(self)@.in_data(b as int, addr as int),
            addr % 8 == 0,
        ensures
            final(self)@ == old(self)@.with_word(addr as int, value),
            final(self)@.wf(),
    {
        proof {
            self@.lemma_block(b as int);
            self@.lemma_with_data_word_wf(b as int, addr as int, value);
        }
        self.write(addr, value);
    }

    /// Cuts the free block at `b` in two: it keeps `keep` bytes of data, and
    /// the rest becomes a new free block behind it, whose address is
    /// returned.
    #[verifier::spinoff_prover]
    pub fn split(&mut self, b: usize, keep: usize) -> (n: usize)
        requires
            old(self)@.wf(),
            old(self)@.is_free(b as int),
            keep >= 16,
            keep % 16 == 0,
            keep + 48 <= old(self)@.size(b as int),
        ensures
            n == b + 32 + keep,
            final(self)@ == old(self)@.split(b as int, keep as int),
            final(self)@.wf(),
    {
        proof {
            self@.lemma_block(b as int);
        }
        let h: GCHeapBlockHeader = self.header(b);
        let n: usize = b + 32 + keep;
        let rest = GCHeapBlockHeader {
            next_free: h.next_free,
            size: h.size - keep - 32,
            flags: HEADERFLAG_NONE,
            drop_thunk: None,
        };
        let front = GCHeapBlockHeader {
            next_free: Some(n),
            size: keep,
            flags: h.flags,
            drop_thunk: h.drop_thunk,
        };
        let ghost index = self.blocks@.index_of(b as int);
        assert(self@.is_word(n as int) && self@.is_word(n + 24)) by {
            lemma_header_words_aligned(n as int);
        }
        self.write_header(n, &rest);
        self.write_header(b, &front);
        proof {
            self.blocks@ = self.blocks@.insert(index + 1, n as int);
        }
        assert(self@ == old(self)@.split(b as int, keep as int)) by {
            reveal(HeapView::split);
        }
        assert(self@.wf()) by {
            old(self)@.lemma_split_wf(b as int, keep as int);
        }
        n
    }

    /// Lengthens the store by `words` words, all zero.
    fn lengthen(&mut self, words: usize)
        ensures
            final(self).source == old(self).source,
            final(self).blocks == old(self).blocks,
            final(self).memory@ == old(self).memory@ + Seq::new(words as nat, |k: int| 0usize),
    {
        let mut i: usize = 0;
        while i < words
            invariant
                i <= words,
                self.source == old(self).source,
                self.blocks == old(self).blocks,
                self.memory@ == old(self).memory@ + Seq::new(i as nat, |k: int| 0usize),
            decreases words - i,
        {
            self.memory.push(0);
            i = i + 1;
            assert(self.memory@ =~= old(self).memory@ + Seq::new(i as nat, |k: int| 0usize));
        }
    }

    /// Has the region hand out `num_pages` more pages, zeroed, with no block
    /// in them yet; returns their address and their length in bytes.
    #[verifier::spinoff_prover]
    fn extend(&mut self, num_pages: usize) -> (r: Option<(usize, usize)>)
        requires
            old(self)@.wf(),
            num_pages > 0,
        ensures
            match r {
                Some((addr, len)) => {
                    &&& len == num_pages * 4096
                    &&& old(self)@.region.length + len <= final(self)@.region.committed
                        <= old(self)@.region.reserved
                    &&& addr == old(self)@.end()
                    &&& final(self)@ == old(self)@.extended(
                        len as int,
                        final(self)@.region.committed,
                    )
                    &&& final(self)@.region.committed == old(self)@.grown_committed(len as int)
                    &&& final(self)@.region.wf()
                },
                None => {
                    &&& old(self)@.region.length + num_pages * 4096 > old(self)@.region.reserved
                    &&& final(self)@ == old(self)@
                },
            },
    {
        match self.source.grow_by(num_pages) {
            None => {
                assert(self@.mem =~= old(self)@.mem);
                None
            },
            Some((addr, len)) => {
                self.lengthen(num_pages * 512);
                proof {
                    lemma_zero_extension(old(self).memory@, self.memory@, self@.region.base);
                    assert(self@.mem =~= old(self)@.mem);
                }
                Some((addr, len))
            },
        }
    }

    /// Has the region hand out `num_pages` more pages, which become one new
    /// free block, on no free list, whose address is returned. Fails, and
    /// changes nothing, where the region cannot grow that far.
    #[verifier::spinoff_prover]
    pub fn grow(&mut self, num_pages: usize) -> (r: Option<usize>)
        requires
            old(self)@.wf(),
            num_pages > 0,
        ensures
            final(self)@.wf(),
            match r {
                Some(n) => {
                    &&& old(self)@.region.length + num_pages * 4096 <= old(self)@.region.reserved
                    &&& n == old(self)@.end()
                    &&& final(self)@ == old(self)@.grown(
                        num_pages * 4096,
                        final(self)@.region.committed,
                    )
                    &&& final(self)@.region.committed == old(self)@.grown_committed(
                        num_pages * 4096,
                    )
                    &&& old(self)@.region.length + num_pages * 4096 <= final(self)@.region.committed
                        <= old(self)@.region.reserved
                },
                None => {
                    &&& old(self)@.region.length + num_pages * 4096 > old(self)@.region.reserved
                    &&& final(self)@ == old(self)@
                },
            },
    {
        match self.extend(num_pages) {
            None => None,
            Some((addr, len)) => {
                let fresh = GCHeapBlockHeader {
                    next_free: None,
                    size: len - 32,
                    flags: HEADERFLAG_NONE,
                    drop_thunk: None,
                };
                assert(self@.is_word(addr as int) && self@.is_word(addr + 24)) by {
                    lemma_header_words_aligned(addr as int);
                }
                self.write_header(addr, &fresh);
                proof {
                    self.blocks@ = self.blocks@.push(addr as int);
                }
                assert(self@ == old(self)@.grown(len as int, self@.region.committed));
                assert(self@.wf()) by {
                    old(self)@.lemma_grown_wf(len as int, self@.region.committed);
                }
                Some(addr)
            },
        }
    }
}

impl HeapView {
    /// Whether `after` is this heap with `value` stored at the start of the
    /// data of the block at `block`: the region, the blocks and every header
    /// are the same, the data of every other block is the same, and the data
    /// of the block starts with the words of `value`.
    pub open spec fn written(self, after: HeapView, block: int, value: Seq<usize>) -> bool {
        &&& after.blocks == self.blocks
        &&& after.region == self.region
        &&& self.kept(after, set![block])
        &&& forall|c: int| #[trigger] self.is_block(c) ==> after.header(c) == self.header(c)
        &&& data_words(after, block, value.len() as int) == value
    }
}

/// The first `n` words of the data of the block at `b`.
pub open spec fn data_words(h: HeapView, b: int, n: int) -> Seq<usize> {
    Seq::new(n as nat, |i: int| h.mem[b + 32 + 8 * i])
}

/// One word more of a value stored in the data of a block: the words before
/// it stay, and every header.
#[verifier::spinoff_prover]
proof fn lemma_store_step(
    first: HeapView,
    before: HeapView,
    b: int,
    value: Seq<usize>,
    i: int,
)
    requires
        first.wf(),
        before.wf(),
        first.is_block(b),
        before.blocks == first.blocks,
        first.kept(before, set![b]),
        forall|c: int| #[trigger] first.is_block(c) ==> before.header(c) == first.header(c),
        0 <= i < value.len(),
        8 * value.len() <= first.size(b),
        data_words(before, b, i) == value.take(i),
    ensures
        ({
            let after = before.with_word(b + 32 + 8 * i, value[i]);
            &&& after.wf()
            &&& after.blocks == first.blocks
            &&& first.kept(after, set![b])
            &&& forall|c: int| #[trigger] first.is_block(c) ==> after.header(c) == first.header(c)
            &&& data_words(after, b, i + 1) == value.take(i + 1)
            &&& before.in_data(b, b + 32 + 8 * i)
            &&& (b + 32 + 8 * i) % 8 == 0
        }),
{
    let addr = b + 32 + 8 * i;
    let after = before.with_word(addr, value[i]);
    first.lemma_block(b);
    assert(before.header(b) == first.header(b));
    assert(before.size(b) == first.size(b));
    lemma_header_words_aligned(b);
    assert(addr % 8 == 0) by {
        let q = b / 8;
        assert(b == 8 * q);
        assert(addr == 8 * (q + 4 + i));
    }
    assert(before.is_block(b));
    before.lemma_with_data_word_wf(b, addr, value[i]);
    before.lemma_kept_with_word(b, addr, value[i], set![b]);
    first.lemma_kept_trans(before, after, set![b], set![b]);
    assert forall|c: int| #[trigger] first.is_block(c) implies after.header(c) == first.header(
        c,
    ) by {
        assert(before.is_block(c));
    }
    assert forall|k: int| 0 <= k < i + 1 implies #[trigger] data_words(after, b, i + 1)[k]
        == value.take(i + 1)[k] by {
        if k < i {
            assert(data_words(before, b, i)[k] == value.take(i)[k]);
        }
    }
    assert(data_words(after, b, i + 1) =~= value.take(i + 1));
}

impl Heap {
    /// Stores the words of `value` at the start of the data of the block at
    /// `block`. No header changes, and no data of another block.
    #[verifier::spinoff_prover]
    pub fn write_words(&mut self, block: usize, value: &Vec<usize>)
        requires
            old(self)@.wf(),
            old(self)@.is_block(block as int),
            8 * value.len() <= old(self)@.size(block as int),
        ensures
            final(self)@.wf(),
            final(self)@.blocks == old(self)@.blocks,
            final(self)@.region == old(self)@.region,
            old(self)@.kept(final(self)@, set![block as int]),
            forall|c: int| #[trigger]
                old(self)@.is_block(c) ==> final(self)@.header(c) == old(self)@.header(c),
            data_words(final(self)@, block as int, value.len() as int) == value@,
    {
        let ghost first = self@;
        proof {
            first.lemma_block(block as int);
            first.lemma_kept_refl(set![block as int]);
            assert(data_words(first, block as int, 0) =~= value@.take(0));
        }
        let mut i: usize = 0;
        while i < value.len()
            invariant
                0 <= i <= value.len(),
                first.wf(),
                first.is_block(block as int),
                8 * value.len() <= first.size(block as int),
                block + 32 + first.size(block as int) <= usize::MAX,
                self@.wf(),
                self@.blocks == first.blocks,
                self@.region == first.region,
                first.kept(self@, set![block as int]),
                forall|c: int| #[trigger] first.is_block(c) ==> self@.header(c) == first.header(c),
                data_words(self@, block as int, i as int) == value@.take(i as int),
            decreases value.len() - i,
        {
            proof {
                lemma_store_step(first, self@, block as int, value@, i as int);
            }
            self.write_data(block, block + 32 + 8 * i, value[i]);
            i = i + 1;
        }
        assert(value@.take(value.len() as int) =~= value@);
    }
}

impl Heap {
    /// The first `n` words of the data of the block at `block`.
    #[verifier::spinoff_prover]
    pub fn read_words(&self, block: usize, n: usize) -> (r: Vec<usize>)
        requires
            self@.wf(),
            self@.is_block(block as int),
            8 * n <= self@.size(block as int),
        ensures
            r@ == data_words(self@, block as int, n as int),
    {
        proof {
            self@.lemma_block(block as int);
        }
        let mut contents: Vec<usize> = Vec::new();
        let mut i: usize = 0;
        while i < n
            invariant
                self@.wf(),
                0 <= i <= n,
                8 * n <= self@.size(block as int),
                block % 16 == 0,
                self@.region.base <= block,
                block + 32 + self@.size(block as int) <= self@.end(),
                contents@ == data_words(self@, block as int, i as int),
            decreases n - i,
        {
            proof {
                lemma_header_words_aligned(block as int);
                let q = block as int / 8;
                assert(block == 8 * q);
                assert(block + 32 + 8 * i == 8 * (q + 4 + i));
            }
            let value: usize = self.read(block + 32 + 8 * i);
            contents.push(value);
            i = i + 1;
            assert(contents@ =~= data_words(self@, block as int, i as int));
        }
        contents
    }
}

} // verus!
