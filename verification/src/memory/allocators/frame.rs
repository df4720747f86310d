//! Page frame metadata.
use vstd::prelude::*;

use crate::memory::allocators::slab::slab::{Slab, SlabModel};
use crate::memory::page::PageFrame;

verus! {

/// What is known of the head of an allocated block.
#[derive(Clone, Copy, Debug)]
pub struct AllocatedInfo {
    /// Current ref count of the allocated block.
    pub ref_count: u32,
    /// The order of the entire allocated block.
    pub order: u8,
}

/// What is known of a page that is part of an allocated block but is not the head:
/// it points back to the head of the block.
#[derive(Clone, Copy, Debug)]
pub struct TailInfo {
    pub head: PageFrame,
}

/// What a page frame is used for.
pub enum FrameState {
    /// The frame is not the head of a block, nor part of an allocated one.
    Uninitialized,
    /// The frame is the head of a free block of a certain order.
    Free { order: u8 },
    /// The frame is the head of an allocated block.
    AllocatedHead(AllocatedInfo),
    /// The frame is a tail page of an allocated block.
    AllocatedTail(TailInfo),
    /// The frame is the head of a block that is used by the slab allocator.
    Slab(Slab),
    /// The frame is part of the kernel's own image.
    Kernel,
}

/// What a page frame is used for, without what is stored in slabs.
pub ghost enum FrameUse {
    /// Not the head of a block, nor part of an allocated one.
    Uninitialized,
    /// The head of a free block of a certain order.
    Free { order: u8 },
    /// The head of an allocated block.
    AllocatedHead(AllocatedInfo),
    /// A tail page of an allocated block.
    AllocatedTail(TailInfo),
    /// The head of a block that is used by the slab allocator.
    Slab(SlabModel),
    /// Part of the kernel's own image.
    Kernel,
}

impl View for FrameState {
    type V = FrameUse;

    open spec fn view(&self) -> FrameUse {
        match *self {
            FrameState::Uninitialized => FrameUse::Uninitialized,
            FrameState::Free { order } => FrameUse::Free { order },
            FrameState::AllocatedHead(info) => FrameUse::AllocatedHead(info),
            FrameState::AllocatedTail(info) => FrameUse::AllocatedTail(info),
            FrameState::Slab(slab) => FrameUse::Slab(slab@),
            FrameState::Kernel => FrameUse::Kernel,
        }
    }
}

impl FrameState {
    /// A slab is well formed.
    pub open spec fn wf(self) -> bool {
        self matches FrameState::Slab(slab) ==> slab.wf()
    }
}

/// The metadata of one page frame.
pub struct Frame {
    pub state: FrameState,
    pub pfn: PageFrame,
}

impl Frame {
    /// Creates the metadata of a frame that the allocator has not yet seen.
    pub fn new(pfn: PageFrame) -> (r: Self)
        ensures
            r.state is Uninitialized,
            r.pfn == pfn,
    {
        Self { state: FrameState::Uninitialized, pfn }
    }
}

/// The metadata of a run of page frames.
pub struct FrameList {
    pub(crate) frames: Vec<Frame>,
    pub(crate) base_page: PageFrame,
}

impl FrameList {
    /// The number of the first page frame.
    pub open(crate) spec fn base(self) -> int {
        self.base_page.pfn() as int
    }

    /// The states of the frames, in order.
    pub open(crate) spec fn states(self) -> Seq<FrameUse> {
        Seq::new(self.frames@.len(), |i: int| self.frames@[i].state@)
    }

    /// Each frame knows its own number, slabs are well formed, and the addresses of
    /// all frames fit in a word.
    pub open(crate) spec fn wf(self) -> bool {
        &&& forall|i: int|
            0 <= i < self.frames@.len() ==> (#[trigger] self.frames@[i]).pfn.pfn() == self.base() + i
                && self.frames@[i].state.wf()
        &&& (self.base() + self.frames@.len()) * crate::memory::PAGE_SIZE <= usize::MAX
    }

    /// The frame has an entry in the list.
    pub open spec fn has(self, pfn: int) -> bool {
        self.base() <= pfn < self.base() + self.states().len()
    }

    /// Creates the metadata of `total_pages` frames from `base_page` on.
    pub(crate) fn new(base_page: PageFrame, total_pages: usize) -> (r: Self)
        requires
            (base_page.pfn() + total_pages) * crate::memory::PAGE_SIZE <= usize::MAX,
        ensures
            r.wf(),
            r.base() == base_page.pfn(),
            r.states().len() == total_pages,
            forall|i: int| 0 <= i < total_pages ==> #[trigger] r.states()[i] is Uninitialized,
    {
        let mut frames: Vec<Frame> = Vec::new();
        let mut i: usize = 0;
        while i < total_pages
            invariant
                i <= total_pages,
                frames@.len() == i,
                (base_page.pfn() + total_pages) * crate::memory::PAGE_SIZE <= usize::MAX,
                forall|k: int|
                    0 <= k < i ==> (#[trigger] frames@[k]).pfn.pfn() == base_page.pfn() + k
                        && frames@[k].state is Uninitialized,
            decreases total_pages - i,
        {
            frames.push(Frame::new(base_page.add_pages(i)));
            i = i + 1;
        }
        Self { frames, base_page }
    }

    /// Returns the first page frame.
    pub fn base_page(&self) -> (r: PageFrame)
        ensures
            r.pfn() == self.base(),
    {
        self.base_page
    }

    /// Returns the number of page frames.
    pub fn total_pages(&self) -> (r: usize)
        ensures
            r == self.states().len(),
    {
        self.frames.len()
    }

    fn pfn_to_index(&self, pfn: PageFrame) -> (r: usize)
        requires
            self.has(pfn.pfn() as int),
        ensures
            r == pfn.pfn() - self.base(),
    {
        pfn.value() - self.base_page.value()
    }

    /// Returns the metadata of the frame.
    pub fn get_frame(&self, pfn: PageFrame) -> (r: &Frame)
        requires
            self.wf(),
            self.has(pfn.pfn() as int),
        ensures
            r.pfn == pfn,
            r.state@ == self.states()[pfn.pfn() - self.base()],
            r.state.wf(),
    {
        &self.frames[self.pfn_to_index(pfn)]
    }

    /// Replaces the state of the frame, and returns the previous one.
    pub(crate) fn replace_state(&mut self, pfn: PageFrame, state: FrameState) -> (r: FrameState)
        requires
            old(self).wf(),
            old(self).has(pfn.pfn() as int),
            state.wf(),
        ensures
            final(self).wf(),
            final(self).base() == old(self).base(),
            final(self).states() == old(self).states().update(
                pfn.pfn() - old(self).base(),
                state@,
            ),
            r.wf(),
            r@ == old(self).states()[pfn.pfn() - old(self).base()],
    {
        let index: usize = self.pfn_to_index(pfn);
        let mut frame = Frame { state, pfn };
        self.frames.set_and_swap(index, &mut frame);
        proof {
            assert(self.states() =~= old(self).states().update(index as int, state@));
        }
        frame.state
    }
}

/// A sequence of different integers from a range is no longer than the range.
pub proof fn lemma_unique_in_range(s: Seq<int>, low: int, high: int)
    requires
        s.no_duplicates(),
        low <= high,
        forall|k: int| 0 <= k < s.len() ==> low <= #[trigger] s[k] < high,
    ensures
        s.len() <= high - low,
{
    let range = vstd::set_lib::set_int_range(low, high);
    vstd::set_lib::lemma_int_range(low, high);
    s.unique_seq_to_set();
    assert(s.to_set().subset_of(range));
    vstd::set_lib::lemma_len_subset(s.to_set(), range);
}

} // verus!
