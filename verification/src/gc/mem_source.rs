//! The memory region: a range of addresses reserved up front, of which a
//! growing prefix is handed out page by page.

use vstd::prelude::*;

verus! {

/// What a memory source is: where its range starts, how far it may grow, how
/// much of it has been handed out, and how much is committed.
pub struct RegionView {
    pub base: int,
    pub reserved: int,
    pub length: int,
    pub committed: int,
}

impl RegionView {
    /// The bookkeeping invariant of a region.
    pub open spec fn wf(self) -> bool {
        &&& 0 < self.base
        &&& self.base % 4096 == 0
        &&& self.base % 16 == 0
        &&& 0 <= self.length <= self.reserved
        &&& self.length <= self.committed <= self.reserved
        &&& self.length % 4096 == 0
        &&& self.length % 16 == 0
        &&& self.base + self.reserved <= usize::MAX
        &&& self.reserved > 0 ==> self.committed > 0
    }

    /// Whether `ptr` lies in the part of the region that has been handed out.
    pub open spec fn contains(self, ptr: int) -> bool {
        self.base <= ptr < self.base + self.length
    }
}

/// The committed size after growth: `committed` doubled, without passing
/// `reserved`, until it covers `length`.
pub open spec fn committed_for(committed: int, length: int, reserved: int) -> int
    decreases reserved - committed,
{
    if committed >= length || committed >= reserved || committed <= 0 {
        committed
    } else if committed <= reserved - committed {
        committed_for(committed + committed, length, reserved)
    } else {
        reserved
    }
}

/// What starts at a page starts at a multiple of sixteen.
pub proof fn lemma_page_aligned(n: int)
    requires
        n % 4096 == 0,
    ensures
        n % 16 == 0,
{
    let q = n / 4096;
    vstd::arithmetic::div_mod::lemma_fundamental_div_mod(n, 4096);
    assert(n == 4096 * q);
    assert(n == 16 * (256 * q));
    vstd::arithmetic::div_mod::lemma_fundamental_div_mod_converse(n, 16, 256 * q, 0);
}

/// A source of pages for the managed heap.
pub trait MemorySource {
    /// The region as the contracts see it.
    spec fn view(&self) -> RegionView;

    /// The amount of bytes in a page.
    fn page_size(&self) -> (r: usize)
        ensures
            r == 4096,
    ;

    /// Hands out `num_pages` more pages: the range that follows what was
    /// handed out before, as its address and its length in bytes. Fails, and
    /// changes nothing, if the region would pass what was reserved.
    fn grow_by(&mut self, num_pages: usize) -> (r: Option<(usize, usize)>)
        requires
            old(self).view().wf(),
        ensures
            final(self).view().wf(),
            final(self).view().base == old(self).view().base,
            final(self).view().reserved == old(self).view().reserved,
            match r {
                Some((addr, len)) => {
                    &&& old(self).view().length + num_pages * 4096 <= old(self).view().reserved
                    &&& addr == old(self).view().base + old(self).view().length
                    &&& len == num_pages * 4096
                    &&& final(self).view().length == old(self).view().length + len
                    &&& final(self).view().committed == committed_for(
                        old(self).view().committed,
                        final(self).view().length,
                        old(self).view().reserved,
                    )
                },
                None => {
                    &&& old(self).view().length + num_pages * 4096 > old(self).view().reserved
                    &&& final(self).view() == old(self).view()
                },
            },
    ;

    /// Takes the last `num_pages` pages back from what was handed out.
    fn shrink_by(&mut self, num_pages: usize)
        requires
            old(self).view().wf(),
            num_pages * 4096 <= old(self).view().length,
        ensures
            final(self).view() == (RegionView {
                length: old(self).view().length - num_pages * 4096,
                ..old(self).view()
            }),
    ;

    /// Whether the given address points into the memory handed out.
    fn contains(&self, ptr: usize) -> (r: bool)
        requires
            self.view().wf(),
        ensures
            r == self.view().contains(ptr as int),
    ;

    /// The whole range handed out so far: its address and its length in bytes.
    fn raw_data(&self) -> (r: (usize, usize))
        ensures
            r.0 == self.view().base,
            r.1 == self.view().length,
    ;
}

/// The bytes in a page of the region.
pub const PAGE_SIZE: usize = 0x1000;

/// The bytes committed when a region is made, where that much is reserved.
pub const FIRST_COMMIT_SIZE: usize = 0x2000000;

/// A region of the simulated address space, reserved once and never moved.
pub struct WindowsMemorySource {
    data: usize,
    reserved: usize,
    length: usize,
    committed: usize,
}

impl WindowsMemorySource {
    /// Reserves `max_size` bytes at `base` and commits the first part of them.
    /// Nothing is handed out yet.
    pub fn new(base: usize, max_size: usize) -> (r: Self)
        requires
            base > 0,
            base % 4096 == 0,
            base + max_size <= usize::MAX,
        ensures
            r.view().wf(),
            r.view().base == base,
            r.view().reserved == max_size,
            r.view().length == 0,
            r.view().committed == if max_size < FIRST_COMMIT_SIZE {
                max_size as int
            } else {
                FIRST_COMMIT_SIZE as int
            },
    {
        let committed: usize = if max_size < FIRST_COMMIT_SIZE {
            max_size
        } else {
            FIRST_COMMIT_SIZE
        };
        proof {
            lemma_page_aligned(base as int);
        }
        WindowsMemorySource { data: base, reserved: max_size, length: 0, committed }
    }

    /// The bytes reserved: how far the region may grow.
    pub fn reserved(&self) -> (r: usize)
        ensures
            r == self.view().reserved,
    {
        self.reserved
    }

    /// The bytes committed: what has been handed out, and what can be handed
    /// out before more is committed.
    pub fn committed(&self) -> (r: usize)
        ensures
            r == self.view().committed,
    {
        self.committed
    }
}

impl MemorySource for WindowsMemorySource {
    closed spec fn view(&self) -> RegionView {
        RegionView {
            base: self.data as int,
            reserved: self.reserved as int,
            length: self.length as int,
            committed: self.committed as int,
        }
    }

    fn page_size(&self) -> (r: usize) {
        PAGE_SIZE
    }

    fn grow_by(&mut self, num_pages: usize) -> (r: Option<(usize, usize)>) {
        let room: usize = self.reserved - self.length;
        if num_pages > room / PAGE_SIZE {
            assert(num_pages * 4096 > room) by (nonlinear_arith)
                requires
                    num_pages > room / 4096,
                    room >= 0,
            ;
            return None;
        }
        assert(num_pages * 4096 <= room) by (nonlinear_arith)
            requires
                num_pages <= room / 4096,
                room >= 0,
        ;
        let len: usize = num_pages * PAGE_SIZE;
        let old_length: usize = self.length;
        let new_length: usize = old_length + len;
        proof {
            lemma_page_aligned(new_length as int);
        }
        // commit more memory, growing geometrically
        let mut committed: usize = self.committed;
        while committed < new_length
            invariant
                committed <= self.reserved,
                new_length <= self.reserved,
                self.reserved > 0 ==> committed > 0,
                committed_for(committed as int, new_length as int, self.reserved as int)
                    == committed_for(
                    self.committed as int,
                    new_length as int,
                    self.reserved as int,
                ),
            decreases self.reserved - committed,
        {
            if committed <= self.reserved - committed {
                committed = committed + committed;
            } else {
                committed = self.reserved;
            }
        }
        self.length = new_length;
        self.committed = committed;
        Some((self.data + old_length, len))
    }

    fn shrink_by(&mut self, num_pages: usize) {
        self.length = self.length - num_pages * PAGE_SIZE;
    }

    fn contains(&self, ptr: usize) -> (r: bool) {
        let min: usize = self.data;
        let max: usize = min + self.length;
        min <= ptr && ptr < max
    }

    fn raw_data(&self) -> (r: (usize, usize)) {
        (self.data, self.length)
    }
}

} // verus!
