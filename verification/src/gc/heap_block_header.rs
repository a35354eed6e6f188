//! The block header: the four words that precede every block's data.

use vstd::prelude::*;
use crate::gc::heap::{Heap, HeapView};
use crate::gc::layout::{
    is_power_of_two, lemma_multiple_of_multiple, lemma_power_of_two_multiple_of_16,
    lemma_small_powers_of_two, lemma_step_16, pad_to_header_align, padded, round_up, round_up_to,
    HEADER_ALIGN,
};

verus! {

/// The flags of a block header.
pub type HeaderFlag = usize;

/// No flag is set: the block is free.
pub const HEADERFLAG_NONE: HeaderFlag = 0x00;

/// Whether the heap block is allocated.
pub const HEADERFLAG_ALLOCATED: HeaderFlag = 0x01;

/// Why a block cannot serve a request.
#[derive(Clone, Copy, Debug, PartialEq, Eq, Structural)]
pub enum BlockFittingError {
    /// The block's data is smaller than the request.
    BlockTooSmall,
    /// What would be left over cannot hold a header and a block behind it.
    CantFitNextBlock,
    /// No address in the block is aligned as asked with room for the request.
    NotEnoughAlignedRoom,
}

/// A block header, as read from managed memory. In memory it is followed by
/// `size` bytes of data.
#[derive(Clone, Copy, Debug, PartialEq, Eq, Structural)]
pub struct GCHeapBlockHeader {
    /// The next header of the free list that this block is on.
    pub next_free: Option<usize>,
    /// The bytes of data that follow the header.
    pub size: usize,
    pub flags: HeaderFlag,
    /// The destructor to run on the data before the block is reclaimed.
    pub drop_thunk: Option<usize>,
}

/// The word that stands in memory for an optional address: zero for none.
pub open spec fn encode_link(link: Option<usize>) -> usize {
    match link {
        Some(p) => p,
        None => 0,
    }
}

/// The optional address that a word of memory stands for.
pub open spec fn decode_link(word: usize) -> Option<usize> {
    if word == 0 {
        None
    } else {
        Some(word)
    }
}

/// Whether the allocated bit is set in `flags`.
pub open spec fn flag_allocated(flags: usize) -> bool {
    flags & HEADERFLAG_ALLOCATED != 0
}

/// Of the two flag values in use, one has the allocated bit and one has not.
pub proof fn lemma_flag_values()
    ensures
        !flag_allocated(0),
        flag_allocated(1),
        0usize | 1 == 1,
        1usize | 1 == 1,
        0usize & !1usize == 0,
        1usize & !1usize == 0,
{
    assert(0usize & 1 == 0) by (bit_vector);
    assert(1usize & 1 == 1) by (bit_vector);
    assert(0usize | 1 == 1) by (bit_vector);
    assert(1usize | 1 == 1) by (bit_vector);
    assert(0usize & !1usize == 0) by (bit_vector);
    assert(1usize & !1usize == 0) by (bit_vector);
}

impl GCHeapBlockHeader {
    /// What holds of every header in the heap: the flags are in use, no link
    /// is the null address, an allocated block is on no free list, and a free
    /// block has no destructor.
    pub open spec fn well_formed(self) -> bool {
        &&& self.flags <= 1
        &&& self.next_free != Some(0usize)
        &&& self.drop_thunk != Some(0usize)
        &&& (flag_allocated(self.flags) ==> self.next_free is None)
        &&& (!flag_allocated(self.flags) ==> self.drop_thunk is None)
    }

    /// Whether the block is allocated, as its flags say.
    pub open spec fn spec_is_allocated(&self) -> bool {
        flag_allocated(self.flags)
    }

    /// Checks if the block is allocated.
    #[verifier::when_used_as_spec(spec_is_allocated)]
    pub fn is_allocated(&self) -> (r: bool)
        ensures
            r == self.spec_is_allocated(),
    {
        self.flags & HEADERFLAG_ALLOCATED != 0
    }

    /// Marks this block as allocated: sets the flag, and takes the block off
    /// whatever free list it was on.
    pub fn set_allocated(&mut self)
        requires
            old(self).well_formed(),
            !old(self).is_allocated(),
        ensures
            *final(self) == (GCHeapBlockHeader { flags: 1, next_free: None, ..*old(self) }),
            final(self).is_allocated(),
            final(self).well_formed(),
    {
        proof {
            lemma_flag_values();
        }
        self.flags = self.flags | HEADERFLAG_ALLOCATED;
        self.next_free = None;
    }

    /// Marks this block as free, with `next` behind it on its free list, and
    /// takes its destructor away.
    pub fn set_free(&mut self, next: Option<usize>)
        requires
            old(self).well_formed(),
            old(self).is_allocated(),
            next != Some(0usize),
        ensures
            *final(self) == (GCHeapBlockHeader {
                flags: 0,
                next_free: next,
                drop_thunk: None,
                ..*old(self)
            }),
            !final(self).is_allocated(),
            final(self).well_formed(),
    {
        proof {
            lemma_flag_values();
        }
        self.flags = self.flags & !HEADERFLAG_ALLOCATED;
        self.next_free = next;
        self.drop_thunk = None;
    }

    /// The data of the block whose header this is and which stands at `addr`:
    /// where it starts, directly behind the header, and its length.
    pub fn data(&self, addr: usize) -> (r: (usize, usize))
        requires
            addr + 32 <= usize::MAX,
        ensures
            r.0 == addr + 32,
            r.1 == self.size,
    {
        (addr + 32, self.size)
    }

    /// The address behind the block whose header this is and which stands at
    /// `addr`: that of the next header, whether that block is free or not.
    pub fn next(&self, addr: usize) -> (r: usize)
        requires
            addr + 32 + self.size <= usize::MAX,
        ensures
            r == addr + 32 + self.size,
    {
        addr + 32 + self.size
    }
}

/// How a free block serves a request.
pub enum Fit {
    /// The block is handed out as it is.
    Whole,
    /// The block keeps `keep` bytes and is handed out; the rest behind it
    /// becomes a new free block.
    SplitTail { keep: int },
    /// The block keeps `keep` bytes and stays free; the rest behind it becomes
    /// a new block, whose data is aligned as asked, and that one is handed out.
    SplitFront { keep: int },
}

/// Whether and how a free block serves a request for `size` bytes aligned to
/// `align`, where the block has `len` bytes of data at `data` and is the last
/// of its free list or not.
///
/// A block whose data is aligned as asked is cut behind the request where
/// what is left can hold a header and a block; it is handed out whole where
/// nothing is left, or where it is the last of its free list and what is left
/// cannot hold a block. A block whose data is not aligned is cut so that a new
/// header stands more than a header's length behind the start of its data, as
/// early as the alignment of the new block's data allows.
pub open spec fn fit_of(len: int, data: int, last: bool, size: int, align: int) -> Result<
    Fit,
    BlockFittingError,
> {
    let pad = padded(size);
    let al = if align < 16 {
        16
    } else {
        align
    };
    if len < pad {
        Err(BlockFittingError::BlockTooSmall)
    } else if data % al == 0 {
        if len > pad + 32 {
            Ok(Fit::SplitTail { keep: pad })
        } else if len == pad || last {
            Ok(Fit::Whole)
        } else {
            Err(BlockFittingError::CantFitNextBlock)
        }
    } else {
        let aligned = round_up(data + 65, al);
        if aligned + pad > data + len {
            Err(BlockFittingError::NotEnoughAlignedRoom)
        } else {
            Ok(Fit::SplitFront { keep: aligned - 32 - data })
        }
    }
}

impl HeapView {
    /// Whether and how the free block at `b` serves a request for `size` bytes
    /// aligned to `align`.
    pub open spec fn fitting(self, b: int, size: int, align: int) -> Result<
        Fit,
        BlockFittingError,
    > {
        fit_of(self.size(b), self.data(b), self.next_free(b) == 0, size, align)
    }

    /// The heap after the block at `b` has been made to fit a request.
    pub open spec fn fitted(self, b: int, size: int, align: int) -> HeapView {
        match self.fitting(b, size, align) {
            Ok(Fit::SplitTail { keep }) => self.split(b, keep),
            Ok(Fit::SplitFront { keep }) => self.split(b, keep),
            _ => self,
        }
    }

    /// The block that is handed out once the block at `b` fits a request.
    pub open spec fn fitted_block(self, b: int, size: int, align: int) -> int {
        match self.fitting(b, size, align) {
            Ok(Fit::SplitFront { keep }) => b + 32 + keep,
            _ => b,
        }
    }

    /// The new block behind the block at `b`, where making that one fit a
    /// request cuts it in two.
    pub open spec fn fitted_rest(self, b: int, size: int, align: int) -> Option<int> {
        match self.fitting(b, size, align) {
            Ok(Fit::SplitTail { keep }) => Some(b + 32 + keep),
            Ok(Fit::SplitFront { keep }) => Some(b + 32 + keep),
            _ => None,
        }
    }

    /// The bytes of the block at `b` that go into a new header where the
    /// block is made to fit a request.
    pub open spec fn fitted_header_bytes(self, b: int, size: int, align: int) -> int {
        if self.fitted_rest(b, size, align) is Some {
            32
        } else {
            0
        }
    }

    /// Whether a block fits a request depends on its header only.
    pub proof fn lemma_fitting_frame(self, after: HeapView, b: int, size: int, align: int)
        requires
            after.header(b) == self.header(b),
        ensures
            after.fitting(b, size, align) == self.fitting(b, size, align),
    {
    }

    /// A block at the end of its free list that does not fit a request does
    /// not fit it with a block behind it either.
    pub proof fn lemma_fitting_linked(self, after: HeapView, b: int, size: int, align: int)
        requires
            self.fitting(b, size, align) is Err,
            self.next_free(b) == 0,
            after.size(b) == self.size(b),
        ensures
            after.fitting(b, size, align) is Err,
    {
    }

    /// A block that was made to fit a request holds it, aligned as asked.
    #[verifier::spinoff_prover]
    pub proof fn lemma_fitted(self, b: int, size: int, align: int)
        requires
            self.wf(),
            self.is_free(b),
            size > 0,
            is_power_of_two(align),
            self.fitting(b, size, align) is Ok,
        ensures
            self.fitted(b, size, align).wf(),
            self.fitted(b, size, align).region == self.region,
            self.fitted(b, size, align).is_free(self.fitted_block(b, size, align)),
            self.fitted(b, size, align).size(self.fitted_block(b, size, align)) >= size,
            self.fitted(b, size, align).data(self.fitted_block(b, size, align)) % align == 0,
            self.fitting(b, size, align) matches Ok(Fit::SplitTail { keep }) ==> keep >= 16 && keep
                % 16 == 0 && keep + 48 <= self.size(b),
            self.fitting(b, size, align) matches Ok(Fit::SplitFront { keep }) ==> keep >= 16 && keep
                % 16 == 0 && keep + 48 <= self.size(b),
    {
        let al = if align < 16 {
            16
        } else {
            align
        };
        let data = b + 32;
        let len = self.size(b);
        let pad = padded(size);
        self.lemma_block(b);
        crate::gc::layout::lemma_padded(size, 0);
        assert(data % 16 == 0);
        if align < 16 {
            lemma_small_powers_of_two(align);
            assert(16int % align == 0);
            lemma_multiple_of_multiple(data, 16, align);
        } else {
            lemma_power_of_two_multiple_of_16(align);
        }
        assert(al % 16 == 0);
        match self.fitting(b, size, align) {
            Ok(Fit::Whole) => {},
            Ok(Fit::SplitTail { keep }) => {
                lemma_step_16(pad, 0);
                lemma_step_16(len, pad + 32);
                self.lemma_split_wf(b, keep);
                assert(self.split(b, keep).is_block(b));
            },
            Ok(Fit::SplitFront { keep }) => {
                let aligned = round_up(data + 65, al);
                crate::gc::layout::lemma_round_up(data + 65, al);
                lemma_multiple_of_multiple(aligned, al, 16);
                lemma_step_16(aligned, data + 64);
                lemma_step_16(pad, 0);
                assert(keep == aligned - 32 - data);
                assert(keep >= 48);
                assert(keep % 16 == 0);
                assert(keep + 48 <= len);
                self.lemma_split_wf(b, keep);
                assert(self.split(b, keep).is_block(b + 32 + keep));
            },
            Err(_) => {},
        }
    }
}

impl Heap {
    /// Makes the free block at `b` fit a request for `size` bytes aligned to
    /// `align`, cutting it in two where that is called for. Returns the block
    /// to hand out, which is still free, and the bytes of the free list that
    /// went into a new header.
    #[verifier::spinoff_prover]
    pub fn shrink_to_fit(&mut self, b: usize, size: usize, align: usize) -> (r: Result<
        (usize, usize),
        BlockFittingError,
    >)
        requires
            old(self)@.wf(),
            old(self)@.is_free(b as int),
            size > 0,
            is_power_of_two(align as int),
        ensures
            final(self)@ == old(self)@.fitted(b as int, size as int, align as int),
            final(self)@.wf(),
            final(self)@.region == old(self)@.region,
            match old(self)@.fitting(b as int, size as int, align as int) {
                Err(e) => r == Err::<(usize, usize), BlockFittingError>(e),
                Ok(Fit::Whole) => r == Ok::<(usize, usize), BlockFittingError>((b, 0)),
                Ok(Fit::SplitTail { keep }) => r == Ok::<(usize, usize), BlockFittingError>(
                    (b, 32),
                ),
                Ok(Fit::SplitFront { keep }) => r == Ok::<(usize, usize), BlockFittingError>(
                    ((b + 32 + keep) as usize, 32),
                ),
            },
            r matches Ok((block, header_bytes)) ==> {
                &&& block == old(self)@.fitted_block(b as int, size as int, align as int)
                &&& header_bytes == old(self)@.fitted_header_bytes(
                    b as int,
                    size as int,
                    align as int,
                )
                &&& final(self)@.is_free(block as int)
                &&& final(self)@.size(block as int) >= size
                &&& final(self)@.data(block as int) % (align as int) == 0
            },
    {
        proof {
            self@.lemma_block(b as int);
            if self@.fitting(b as int, size as int, align as int) is Ok {
                self@.lemma_fitted(b as int, size as int, align as int);
            }
            if align >= 16 {
                lemma_power_of_two_multiple_of_16(align as int);
            }
        }
        let header: GCHeapBlockHeader = self.header(b);
        let align: usize = if align < HEADER_ALIGN {
            HEADER_ALIGN
        } else {
            align
        };
        let (data, len): (usize, usize) = header.data(b);
        // trivially not able to hold layout
        let padded_size: usize = match pad_to_header_align(size) {
            Some(p) => p,
            None => {
                return Err(BlockFittingError::BlockTooSmall);
            },
        };
        if len < padded_size {
            return Err(BlockFittingError::BlockTooSmall);
        }
        // block data is already aligned
        if data % align == 0 {
            if len - padded_size > 32 {
                // split off another block (of size > 0) at end
                self.split(b, padded_size);
                return Ok((b, 32));
            }
            // no need to split off a block at the end
            if len == padded_size || header.next_free.is_none() {
                return Ok((b, 0));
            }
            // what is left cannot hold a block
            return Err(BlockFittingError::CantFitNextBlock);
        }
        proof {
            crate::gc::layout::lemma_round_up(data + 65, align as int);
        }
        if len < 65 {
            return Err(BlockFittingError::NotEnoughAlignedRoom);
        }
        let aligned: usize = match round_up_to(data + 65, align) {
            Some(a) => a,
            None => {
                return Err(BlockFittingError::NotEnoughAlignedRoom);
            },
        };
        let data_end: usize = data + len;
        if aligned > data_end || data_end - aligned < padded_size {
            // not enough room to allocate layout
            return Err(BlockFittingError::NotEnoughAlignedRoom);
        }
        // split off into this block, and the new aligned block
        let aligned_block: usize = self.split(b, aligned - 32 - data);
        Ok((aligned_block, 32))
    }
}

} // verus!
