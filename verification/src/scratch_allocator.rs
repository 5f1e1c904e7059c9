//! The offset bookkeeping of a linear scratch allocator.
//!
//! The allocator hands out ranges of a fixed-capacity buffer by linearly
//! advancing an offset; freeing is only possible wholesale, by resetting
//! the offset to zero. The buffer itself lives in the unverified layer;
//! this type decides which offset each allocation receives and when the
//! capacity is exhausted.

use vstd::prelude::*;

verus! {

/// The padded size of an allocation: `size` rounded up to the next
/// multiple of `alignment` strictly above `size`, matching a layout that
/// always inserts at least one padding byte.
pub open spec fn spec_padded_size(size: u64, alignment: u64) -> int
    recommends
        alignment >= 1,
{
    size + (alignment - size % alignment)
}

/// A linear allocator used for short-lived resources: an offset cursor
/// over a buffer of fixed capacity.
#[derive(Debug)]
pub struct ScratchAllocator {
    /// Current offset: everything below it is allocated.
    pub offset: u64,
    /// Required alignment of every returned offset.
    pub alignment: u64,
    /// Size of the backing buffer, in bytes.
    pub capacity: u64,
}

/// The allocator invariant: a nonzero alignment and a cursor inside the
/// buffer.
pub open spec fn sa_wf(a: ScratchAllocator) -> bool {
    a.alignment >= 1 && a.offset <= a.capacity
}

impl ScratchAllocator {
    /// A new scratch allocator over a buffer of `capacity` bytes, with the
    /// default alignment large enough for any buffer use.
    pub fn new(capacity: u64) -> (r: Self)
        ensures
            r == (ScratchAllocator { offset: 0, alignment: 256, capacity }),
            sa_wf(r),
    {
        Self::new_with_alignment(capacity, 256)
    }

    /// A new scratch allocator with the given alignment, which must be
    /// large enough for every use the buffer is put to.
    pub fn new_with_alignment(capacity: u64, alignment: u64) -> (r: Self)
        requires
            alignment >= 1,
        ensures
            r == (ScratchAllocator { offset: 0, alignment, capacity }),
            sa_wf(r),
    {
        ScratchAllocator { offset: 0, alignment, capacity }
    }

    /// Allocate at least `size` bytes, padded to the allocator's
    /// alignment. Returns the offset of the new range, or `None` when the
    /// remaining capacity cannot hold the padded size — the allocator is
    /// unchanged in that case, and the caller maps exhaustion to its own
    /// out-of-memory error.
    pub fn allocate(&mut self, size: u64) -> (r: Option<u64>)
        requires
            sa_wf(*old(self)),
        ensures
            sa_wf(*final(self)),
            match r {
                Option::Some(offset) => {
                    &&& offset == old(self).offset
                    &&& old(self).offset + spec_padded_size(size, old(self).alignment)
                        <= old(self).capacity
                    &&& *final(self) == (ScratchAllocator {
                        offset: (old(self).offset + spec_padded_size(
                            size,
                            old(self).alignment,
                        )) as u64,
                        ..*old(self)
                    })
                },
                Option::None => {
                    &&& old(self).offset + spec_padded_size(size, old(self).alignment)
                        > old(self).capacity
                    &&& *final(self) == *old(self)
                },
            },
    {
        let unaligned_part = size % self.alignment;
        let padding = self.alignment - unaligned_part;
        if size > u64::MAX - padding {
            // The padded size itself overflows; it cannot fit any buffer.
            proof {
                assert(self.offset + spec_padded_size(size, self.alignment) > self.capacity);
            }
            return Option::None;
        }
        let padded_size = size + padding;
        if padded_size > self.capacity - self.offset {
            return Option::None;
        }
        let offset = self.offset;
        self.offset = self.offset + padded_size;
        Option::Some(offset)
    }

    /// Reset the cursor to the beginning, discarding every allocation.
    /// The caller must ensure the old ranges are no longer in use.
    pub fn reset(&mut self)
        requires
            sa_wf(*old(self)),
        ensures
            *final(self) == (ScratchAllocator { offset: 0, ..*old(self) }),
            sa_wf(*final(self)),
    {
        self.offset = 0;
    }
}

} // verus!
