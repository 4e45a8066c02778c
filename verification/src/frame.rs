//! The physical-frame pool: a thin domain layer over the page-granularity
//! buddy allocator.
//!
//! A `Frame` is an owned handle to contiguous physical pages; ownership
//! passes to the caller on allocation and returns on explicit deallocation
//! with the original `(start, count)` pair. The embedding kernel zero-fills
//! the frame's memory before handing it out; the pool itself accounts only
//! for page numbers.

use vstd::prelude::*;

use vstd::arithmetic::power2::{is_pow2, pow2};

use crate::addr::{page_num_ceil, page_num_floor, PhysAddr, PhysPageNum, PPN_LIMIT};
use crate::buddy::{
    cover_grows, cover_range, cover_shrinks, lists_of, no_free_block, range_covered, range_overlap,
    start_order, FrameAllocator,
};

verus! {

/// An owned handle to one or more contiguous physical pages.
pub struct Frame {
    /// Number of the first page.
    pub ppn: PhysPageNum,
}

impl Frame {
    /// The physical address of the first byte of the frame.
    pub fn start_address(&self) -> (r: PhysAddr)
        requires
            self.ppn.0 < 0x10_0000_0000_0000,
        ensures
            r.0 == self.ppn.0 * 4096,
    {
        self.ppn.address()
    }
}

/// Seeds the frame pool with the physical range `[start, end)`.
pub fn init(fa: &mut FrameAllocator, start: PhysAddr, end: PhysAddr)
    requires
        old(fa).wf(),
        old(fa).total == 0,
        old(fa).allocated == 0,
        forall|o: int| 0 <= o < 32 ==> lists_of(*old(fa))[o].len() == 0,
        1 <= start.0 < end.0,
        end.0 <= 0x100_0000_0000_0000,
        page_num_ceil(start.0 as int) <= page_num_floor(end.0 as int),
        page_num_floor(end.0 as int) - page_num_ceil(start.0 as int) < 0x1_0000_0000,
    ensures
        final(fa).wf(),
        final(fa).allocated == 0,
        final(fa).total == page_num_floor(end.0 as int) - page_num_ceil(start.0 as int),
        cover_range(
            lists_of(*final(fa)),
            page_num_ceil(start.0 as int),
            page_num_floor(end.0 as int),
        ),
{
    fa.init(start, end);
}

/// Allocates `size` contiguous frames aligned to `align` frames, both
/// powers of two; the embedding kernel zero-fills the returned frame's
/// memory before use. Fails exactly when the pool cannot serve the request.
pub fn alloc_frames(fa: &mut FrameAllocator, size: usize, align: usize) -> (r: Option<Frame>)
    requires
        old(fa).wf(),
        (size > 0 && align > 0 && size <= old(fa).total && align <= old(fa).total) ==> is_pow2(
            size as int,
        ) && is_pow2(align as int),
    ensures
        final(fa).wf(),
        final(fa).total == old(fa).total,
        (r is None) ==> *final(fa) == *old(fa),
        (r is None) <==> (size == 0 || align == 0 || size > old(fa).total || align > old(fa).total
            || no_free_block(lists_of(*old(fa)), start_order(size as int, align as int) as int)),
        r matches Some(f) ==> {
            &&& f.ppn.0 % (size as u64) == 0
            &&& f.ppn.0 % (align as u64) == 0
            &&& f.ppn.0 + size <= PPN_LIMIT
            &&& final(fa).allocated == old(fa).allocated + size
            &&& cover_shrinks(lists_of(*final(fa)), lists_of(*old(fa)), f.ppn.0 as int, size as int)
            &&& range_covered(lists_of(*old(fa)), f.ppn.0 as int, size as int)
        },
{
    match fa.allocate(size, align) {
        Some(ppn) => Some(Frame { ppn }),
        None => None,
    }
}

/// Returns the frames `(start, size)` previously obtained from
/// `alloc_frames` to the pool, merging buddy blocks as far as possible.
pub fn dealloc_frames(fa: &mut FrameAllocator, start: PhysPageNum, size: usize)
    requires
        old(fa).wf(),
        is_pow2(size as int),
        size < 0x1_0000_0000,
        start.0 as int % size as int == 0,
        size <= old(fa).allocated,
        start.0 + size <= PPN_LIMIT,
        forall|o: int, idx: int|
            0 <= o < 32 && 0 <= idx < lists_of(*old(fa))[o].len() ==> !range_overlap(
                (#[trigger] lists_of(*old(fa))[o][idx]) as int,
                pow2(o as nat) as int,
                start.0 as int,
                size as int,
            ),
    ensures
        final(fa).wf(),
        final(fa).total == old(fa).total,
        final(fa).allocated == old(fa).allocated - size,
        cover_grows(lists_of(*final(fa)), lists_of(*old(fa)), start.0 as int, size as int),
{
    fa.dealloc(start, size);
}

} // verus!
