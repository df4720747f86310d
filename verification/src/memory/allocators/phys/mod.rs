//! Physical page-frame allocator (buddy allocator).
use vstd::arithmetic::power2::pow2;
use vstd::prelude::*;

use crate::error::{KernelError, Result};
use crate::memory::allocators::phys::buddy::{
    head_order, lemma_buddy, Buddy,
};
use crate::memory::allocators::frame::{
    AllocatedInfo, FrameList, FrameState, FrameUse, TailInfo,
};
use crate::memory::allocators::slab::slab::Slab;
use crate::memory::allocators::slab::{SLAB_FRAME_ALLOC_ORDER, SLAB_SIZE_BYTES};
use crate::memory::page::{lemma_one_shl, PageFrame};
use crate::memory::region::PhysMemoryRegion;
use crate::memory::PAGE_SIZE;

pub mod buddy;
pub mod init;
pub mod init_laws;
pub mod laws;
mod lemmas;

verus! {

/// The maximum order for the buddy system. This corresponds to blocks of size
/// `2^MAX_ORDER` pages.
pub const MAX_ORDER: usize = 10;

/// The numbers of the frames.
pub open spec fn numbers(list: Seq<PageFrame>) -> Seq<int> {
    Seq::new(list.len(), |k: int| list[k].pfn() as int)
}

/// The buddy frame allocator.
///
/// Whoever shares it between threads guards it with a lock.
pub struct FrameAllocator {
    pub(crate) frame_list: FrameList,
    pub(crate) free_pages: usize,
    pub(crate) free_lists: Vec<Vec<PageFrame>>,
}

/// A contiguous allocation of physical page frames.
///
/// It stands for one reference to its block, which is given up by
/// [`FrameAllocator::release`].
pub struct PageAllocation {
    pub(crate) region: PhysMemoryRegion,
}

impl PageAllocation {
    /// The memory of the allocation.
    pub open(crate) spec fn memory(self) -> PhysMemoryRegion {
        self.region
    }

    /// The first page frame of the allocation.
    pub open spec fn first(self) -> int {
        self.memory().start() / PAGE_SIZE as int
    }

    /// Consumes the allocation without freeing it, returning the underlying region.
    pub fn leak(self) -> (r: PhysMemoryRegion)
        ensures
            r == self.memory(),
    {
        self.region
    }

    /// Returns the physical memory region backing this allocation.
    pub fn region(&self) -> (r: &PhysMemoryRegion)
        ensures
            *r == self.memory(),
    {
        &self.region
    }
}

impl View for FrameAllocator {
    type V = Buddy;

    open(crate) spec fn view(&self) -> Buddy {
        Buddy {
            base: self.frame_list.base(),
            frames: self.frame_list.states(),
            lists: Seq::new(self.free_lists@.len(), |o: int| numbers(self.free_lists@[o]@)),
            free_pages: self.free_pages as int,
        }
    }
}

impl FrameAllocator {
    /// What holds of the allocator between calls.
    pub open(crate) spec fn wf(self) -> bool {
        self.frame_list.wf() && self@.wf()
    }

    /// Takes the free block at the index out of the list of the order.
    fn take_free(&mut self, order: usize, index: usize) -> (r: PageFrame)
        requires
            old(self).wf(),
            order <= MAX_ORDER,
            index < old(self)@.lists[order as int].len(),
        ensures
            final(self).wf(),
            final(self)@ == old(self)@.take(order as nat, index as int),
            r.pfn() == old(self)@.lists[order as int][index as int],
    {
        proof {
            self@.lemma_take(order as nat, index as int);
            lemma_one_shl(order);
        }
        let ghost b = self@;
        let pfn = self.free_lists[order].remove(index);
        let _ = self.frame_list.replace_state(pfn, FrameState::Uninitialized);
        self.free_pages = self.free_pages - (1usize << order);
        proof {
            let lists = b.take(order as nat, index as int).lists;
            assert forall|o: int| 0 <= o < lists.len() implies #[trigger] self@.lists[o]
                == lists[o] by {
                assert(self@.lists[o] =~= lists[o]);
            }
            assert(self@.lists =~= lists);
            assert(self@ =~= b.take(order as nat, index as int));
        }
        pfn
    }

    /// Adds the block of the order at the frame to the free blocks.
    fn put_free(&mut self, pfn: PageFrame, order: usize)
        requires
            old(self).wf(),
            order <= MAX_ORDER,
            pfn.pfn() as int % pow2(order as nat) as int == 0,
            old(self)@.blank_run(pfn.pfn() as int, pow2(order as nat) as int),
            order == MAX_ORDER || !old(self)@.mergeable(pfn.pfn() as int, order as nat),
        ensures
            final(self).wf(),
            final(self)@ == old(self)@.put(pfn.pfn() as int, order as nat),
    {
        let ghost b = self@;
        proof {
            lemma_one_shl(order);
            b.lemma_put(pfn.pfn() as int, order as nat);
            b.put(pfn.pfn() as int, order as nat).lemma_free_pages_bound();
            assert(b.blank(pfn.pfn() as int));
        }
        let _ = self.frame_list.replace_state(pfn, FrameState::Free { order: order as u8 });
        self.free_lists[order].push(pfn);
        self.free_pages = self.free_pages + (1usize << order);
        proof {
            let lists = b.put(pfn.pfn() as int, order as nat).lists;
            assert forall|o: int| 0 <= o < lists.len() implies #[trigger] self@.lists[o]
                == lists[o] by {
                assert(self@.lists[o] =~= lists[o]);
            }
            assert(self@.lists =~= lists);
            assert(self@ =~= b.put(pfn.pfn() as int, order as nat));
        }
    }

    /// Marks the block of the order at the frame as allocated.
    fn mark_allocated(&mut self, pfn: PageFrame, order: usize)
        requires
            old(self).wf(),
            order <= MAX_ORDER,
            pfn.pfn() as int % pow2(order as nat) as int == 0,
            old(self)@.blank_run(pfn.pfn() as int, pow2(order as nat) as int),
        ensures
            final(self).wf(),
            final(self)@ == old(self)@.mark(pfn.pfn() as int, order as nat),
    {
        let ghost b = self@;
        let ghost p = pfn.pfn() as int;
        let ghost o = order as nat;
        proof {
            lemma_one_shl(order);
            b.lemma_mark(p, o);
            assert(b.blank(p) && b.blank(p + pow2(o) - 1));
        }
        let _ = self.frame_list.replace_state(
            pfn,
            FrameState::AllocatedHead(AllocatedInfo { ref_count: 1, order: order as u8 }),
        );
        let pages: usize = 1usize << order;
        let mut i: usize = 1;
        while i < pages
            invariant
                1 <= i <= pages,
                pages == pow2(o),
                order == o,
                p == pfn.pfn(),
                b.has(p),
                b.has(p + pages - 1),
                b.wf(),
                self.frame_list.wf(),
                self@.base == b.base,
                self@.lists == b.lists,
                self@.free_pages == b.free_pages,
                self@.frames.len() == b.frames.len(),
                forall|q: int|
                    b.has(q) ==> #[trigger] self@.at(q) == (if p <= q < p + i {
                        b.mark(p, o).at(q)
                    } else {
                        b.at(q)
                    }),
            decreases pages - i,
        {
            let ghost before = self@;
            let tail = pfn.add_pages(i);
            let _ = self.frame_list.replace_state(
                tail,
                FrameState::AllocatedTail(TailInfo { head: pfn }),
            );
            proof {
                assert(pfn == PageFrame::numbered(p));
                assert(self@.lists =~= before.lists);
                assert forall|q: int| b.has(q) implies #[trigger] self@.at(q) == (if p <= q < p + i
                    + 1 {
                    b.mark(p, o).at(q)
                } else {
                    b.at(q)
                }) by {
                    assert(before.at(q) == (if p <= q < p + i {
                        b.mark(p, o).at(q)
                    } else {
                        b.at(q)
                    }));
                }
            }
            i = i + 1;
        }
        proof {
            let m = b.mark(p, o);
            assert forall|i: int| 0 <= i < m.frames.len() implies self@.frames[i] == m.frames[i] by {
                assert(self@.at(b.base + i) == self@.frames[i]);
                assert(b.has(b.base + i));
                assert(m.at(b.base + i) == m.frames[i]);
            }
            assert(self@ =~= m);
        }
    }

    /// Allocates a physically contiguous block of frames.
    ///
    /// `order` is the order of the allocation, where the number of pages is
    /// `2^order`: `order = 0` requests a single page. An order above [`MAX_ORDER`]
    /// is an [`InvalidValue`](KernelError::InvalidValue); if no free block is large
    /// enough there is [`NoMemory`](KernelError::NoMemory).
    pub fn alloc_frames(&mut self, order: u8) -> (r: Result<PageAllocation>)
        requires
            old(self).wf(),
        ensures
            final(self).wf(),
            order > MAX_ORDER ==> r == Err::<PageAllocation, _>(KernelError::InvalidValue)
                && final(self)@ == old(self)@,
            order <= MAX_ORDER ==> {
                let (after, block) = old(self)@.alloc_block(order as nat);
                &&& final(self)@ == after
                &&& match block {
                    Some(p) => r matches Ok(a) && a.memory().start() == p * PAGE_SIZE
                        && a.memory().len() == pow2(order as nat) * PAGE_SIZE && a.first() == p,
                    None => r == Err::<PageAllocation, _>(KernelError::NoMemory),
                }
            },
    {
        let requested_order: usize = order as usize;
        if requested_order > MAX_ORDER {
            return Err(KernelError::InvalidValue);
        }
        // Find the smallest order >= the requested order that has a free block.
        let mut current_order: usize = requested_order;
        while current_order <= MAX_ORDER && self.free_lists[current_order].len() == 0
            invariant
                *self == *old(self),
                self.wf(),
                requested_order <= current_order <= MAX_ORDER + 1,
                requested_order <= MAX_ORDER,
                self@.first_order(requested_order as int) == self@.first_order(current_order as int),
            decreases MAX_ORDER + 1 - current_order,
        {
            assert(self@.lists[current_order as int].len() == 0);
            current_order = current_order + 1;
        }
        if current_order > MAX_ORDER {
            return Err(KernelError::NoMemory);
        }
        let ghost b = self@;
        let ghost o = order as nat;
        let ghost from = current_order as nat;
        let last: usize = self.free_lists[current_order].len() - 1;
        assert(last == b.lists[current_order as int].len() - 1);
        proof {
            b.lemma_take(from, last as int);
        }
        let block_pfn = self.take_free(current_order, last);
        let ghost p = block_pfn.pfn() as int;
        let ghost t = self@;

        // Split the block down until it's the correct size.
        while current_order > requested_order
            invariant
                requested_order <= current_order <= MAX_ORDER,
                self.wf(),
                p == block_pfn.pfn(),
                p % pow2(current_order as nat) as int == 0,
                self@.blank_run(p, pow2(current_order as nat) as int),
                self@.split(p, current_order as nat, requested_order as nat) == t.split(
                    p,
                    from,
                    requested_order as nat,
                ),
            decreases current_order,
        {
            current_order = current_order - 1;
            proof {
                let k = current_order as nat;
                self@.lemma_split_once(p, k);
                lemma_buddy(p, k);
                lemma_buddy(p + pow2(k), k);
                let s = self@;
                assert(s.blank_run(p + pow2(k), pow2(k) as int)) by {
                    assert forall|q: int| p + pow2(k) <= q < p + pow2(k) + pow2(k) implies #[trigger] s.blank(
                        q,
                    ) by {}
                }
                assert(s.blank(p));
            }
            let buddy = block_pfn.buddy(current_order);
            self.put_free(buddy, current_order);
        }
        self.mark_allocated(block_pfn, requested_order);
        proof {
            lemma_one_shl(requested_order);
            vstd::arithmetic::power2::lemma2_to64();
            if o < 10 {
                vstd::arithmetic::power2::lemma_pow2_strictly_increases(o, 10);
            }
            assert(p * PAGE_SIZE <= usize::MAX);
        }
        let num_pages_in_block: usize = 1usize << requested_order;
        Ok(
            PageAllocation {
                region: PhysMemoryRegion::new(block_pfn.pa(), num_pages_in_block * PAGE_SIZE),
            },
        )
    }

    /// Returns the head of the allocated block that the frame belongs to.
    pub(crate) fn block_head(&self, pfn: PageFrame) -> (r: PageFrame)
        requires
            self.wf(),
            self@.has(pfn.pfn() as int),
        ensures
            r.pfn() == self@.head_of(pfn.pfn() as int),
            self@.has(r.pfn() as int),
            self@.at(r.pfn() as int) !is AllocatedTail,
    {
        assert(self@.has(pfn.pfn() as int));
        match &self.frame_list.get_frame(pfn).state {
            FrameState::AllocatedTail(t) => {
                proof {
                    assert(self@.owns(t.head.pfn() as int, pfn.pfn() as int));
                }
                t.head
            },
            _ => pfn,
        }
    }

    /// Gives up one reference to an allocated block of frames. When it was the last
    /// one, the block is freed.
    /// The region can start at any page within the allocated block.
    pub(crate) fn free_frames(&mut self, region: PhysMemoryRegion)
        requires
            old(self).wf(),
            old(self)@.allocated(region.start() / PAGE_SIZE as int),
        ensures
            final(self).wf(),
            final(self)@ == old(self)@.drop_ref(
                old(self)@.head_of(region.start() / PAGE_SIZE as int),
            ),
    {
        let head_pfn = self.block_head(region.start_address().to_pfn());
        let ghost b = self@;
        let ghost h = head_pfn.pfn() as int;
        assert(b.has(h));
        let info: AllocatedInfo = match &self.frame_list.get_frame(head_pfn).state {
            FrameState::AllocatedHead(info) => *info,
            _ => return,
        };
        proof {
            assert(head_order(b.at(h)) == Some(info.order as nat));
            assert(b.block_ok(h, info.order as nat));
        }
        if info.ref_count > 1 {
            let state = FrameState::AllocatedHead(
                AllocatedInfo { ref_count: info.ref_count - 1, order: info.order },
            );
            proof {
                b.lemma_rehead(h, state@);
            }
            let _ = self.frame_list.replace_state(head_pfn, state);
            proof {
                assert(self@ =~= b.set(h, state@));
            }
            return ;
        }
        let initial_order: usize = info.order as usize;
        let ghost o = initial_order as nat;

        // The block is no longer allocated.
        proof {
            b.lemma_clear(h, o);
            lemma_one_shl(initial_order);
        }
        let ghost c = b.clear(h, h + pow2(o));
        let pages: usize = 1usize << initial_order;
        let mut i: usize = 0;
        while i < pages
            invariant
                i <= pages,
                pages == pow2(o),
                h == head_pfn.pfn(),
                b.base <= h,
                h + pages <= b.base + b.frames.len(),
                b.wf(),
                c == b.clear(h, h + pow2(o)),
                self.frame_list.wf(),
                self@.base == b.base,
                self@.lists == b.lists,
                self@.free_pages == b.free_pages,
                self@.frames.len() == b.frames.len(),
                forall|q: int|
                    b.has(q) ==> #[trigger] self@.at(q) == (if h <= q < h + i {
                        c.at(q)
                    } else {
                        b.at(q)
                    }),
            decreases pages - i,
        {
            let ghost before = self@;
            let tail = head_pfn.add_pages(i);
            let _ = self.frame_list.replace_state(tail, FrameState::Uninitialized);
            proof {
                assert(self@.lists =~= before.lists);
                assert forall|q: int| b.has(q) implies #[trigger] self@.at(q) == (if h <= q < h + i
                    + 1 {
                    c.at(q)
                } else {
                    b.at(q)
                }) by {
                    assert(before.at(q) == (if h <= q < h + i {
                        c.at(q)
                    } else {
                        b.at(q)
                    }));
                }
            }
            i = i + 1;
        }
        proof {
            assert forall|i: int| 0 <= i < c.frames.len() implies self@.frames[i] == c.frames[i] by {
                assert(self@.at(b.base + i) == self@.frames[i]);
                assert(b.has(b.base + i));
                assert(c.at(b.base + i) == c.frames[i]);
            }
            assert(self@ =~= c);
        }
        self.merge_free(head_pfn, initial_order);
    }

    /// Merges the block, which is in no list, with its buddy as long as that is
    /// free, and adds it to the free blocks.
    fn merge_free(&mut self, pfn: PageFrame, order: usize)
        requires
            old(self).wf(),
            order <= MAX_ORDER,
            pfn.pfn() as int % pow2(order as nat) as int == 0,
            old(self)@.blank_run(pfn.pfn() as int, pow2(order as nat) as int),
        ensures
            final(self).wf(),
            final(self)@ == old(self)@.merge(pfn.pfn() as int, order as nat),
    {
        let mut merged_order: usize = order;
        let mut current_pfn = pfn;
        loop
            invariant
                self.wf(),
                merged_order <= MAX_ORDER,
                current_pfn.pfn() as int % pow2(merged_order as nat) as int == 0,
                self@.blank_run(current_pfn.pfn() as int, pow2(merged_order as nat) as int),
                self@.merge(current_pfn.pfn() as int, merged_order as nat) == old(self)@.merge(
                    pfn.pfn() as int,
                    order as nat,
                ),
            ensures
                merged_order == MAX_ORDER || !self@.mergeable(
                    current_pfn.pfn() as int,
                    merged_order as nat,
                ),
            decreases MAX_ORDER - merged_order,
        {
            if merged_order >= MAX_ORDER {
                break ;
            }
            let buddy_pfn = current_pfn.buddy(merged_order);
            if buddy_pfn.value() < self.frame_list.base_page().value() {
                break ;
            }
            if buddy_pfn.value() - self.frame_list.base_page().value()
                >= self.frame_list.total_pages() {
                break ;
            }
            assert(self@.has(buddy_pfn.pfn() as int));
            let free: bool = match &self.frame_list.get_frame(buddy_pfn).state {
                FrameState::Free { order: buddy_order } => *buddy_order as usize == merged_order,
                _ => false,
            };
            if !free {
                break ;
            }
            // Buddy is free and of the same order. Merge them.
            proof {
                self@.lemma_merge_once(current_pfn.pfn() as int, merged_order as nat);
            }
            let index: usize = self.list_index(buddy_pfn, merged_order);
            let _ = self.take_free(merged_order, index);
            // The new, larger block's PFN is the lower of the two.
            if buddy_pfn.value() < current_pfn.value() {
                current_pfn = buddy_pfn;
            }
            merged_order = merged_order + 1;
        }
        self.put_free(current_pfn, merged_order);
    }

    /// Returns the index of the block in the list of the order.
    fn list_index(&self, pfn: PageFrame, order: usize) -> (r: usize)
        requires
            self.wf(),
            order <= MAX_ORDER,
            self@.lists[order as int].contains(pfn.pfn() as int),
        ensures
            r < self@.lists[order as int].len(),
            r == self@.lists[order as int].index_of(pfn.pfn() as int),
    {
        let ghost l = self@.lists[order as int];
        let ghost p = pfn.pfn() as int;
        assert(l.no_duplicates());
        let len: usize = self.free_lists[order].len();
        let mut i: usize = 0;
        loop
            invariant
                len == l.len(),
                self.wf(),
                order <= MAX_ORDER,
                l == self@.lists[order as int],
                p == pfn.pfn(),
                l.contains(p),
                l.no_duplicates(),
                i <= l.len(),
                forall|k: int| 0 <= k < i ==> l[k] != p,
            decreases l.len() - i,
        {
            proof {
                let j = choose|j: int| 0 <= j < l.len() && l[j] == p;
                assert(i <= j);
            }
            if self.free_lists[order][i].value() == pfn.value() {
                proof {
                    assert(l[i as int] == p);
                    let k = l.index_of(p);
                    assert(0 <= k < l.len() && l[k] == p);
                    assert(k == i);
                }
                return i;
            }
            assert(l[i as int] != p);
            i = i + 1;
        }
    }

    /// Gives up the allocation.
    pub fn release(&mut self, allocation: PageAllocation)
        requires
            old(self).wf(),
            old(self)@.allocated(allocation.first()),
        ensures
            final(self).wf(),
            final(self)@ == old(self)@.drop_ref(old(self)@.head_of(allocation.first())),
    {
        self.free_frames(allocation.region);
    }

    /// Returns another reference to the block of the allocation.
    pub fn share(&mut self, allocation: &PageAllocation) -> (r: PageAllocation)
        requires
            old(self).wf(),
            old(self)@.has(allocation.first()),
            old(self)@.at(allocation.first()) matches FrameUse::AllocatedHead(info)
                && info.ref_count < u32::MAX,
        ensures
            final(self).wf(),
            final(self)@ == old(self)@.add_ref(allocation.first()),
            r.memory() == allocation.memory(),
    {
        let pfn = allocation.region.start_address().to_pfn();
        let ghost b = self@;
        let ghost h = pfn.pfn() as int;
        assert(b.has(h));
        match &self.frame_list.get_frame(pfn).state {
            FrameState::AllocatedHead(info) => {
                let state = FrameState::AllocatedHead(
                    AllocatedInfo { ref_count: info.ref_count + 1, order: info.order },
                );
                proof {
                    assert(head_order(b.at(h)) == Some(info.order as nat));
                    b.lemma_rehead(h, state@);
                }
                let _ = self.frame_list.replace_state(pfn, state);
                assert(self@ =~= b.add_ref(h));
            },
            _ => {},
        }
        PageAllocation { region: allocation.region }
    }

    /// Leaks the allocation as a slab, for it to be picked back up again once the
    /// slab has been freed by [`FrameAllocator::free_slab`].
    ///
    /// Returns the frame that was converted to a slab.
    pub(crate) fn into_slab(&mut self, allocation: PageAllocation, slab_info: Slab) -> (r: PageFrame)
        requires
            old(self).wf(),
            old(self)@.has(allocation.first()),
            old(self)@.at(allocation.first()) matches FrameUse::AllocatedHead(info) && info.order
                == SLAB_FRAME_ALLOC_ORDER,
            slab_info.wf(),
        ensures
            final(self).wf(),
            final(self)@ == old(self)@.set(allocation.first(), FrameUse::Slab(slab_info@)),
            r.pfn() == allocation.first(),
    {
        let pfn = allocation.region.start_address().to_pfn();
        let ghost b = self@;
        let ghost state = FrameUse::Slab(slab_info@);
        proof {
            assert(b.has(pfn.pfn() as int));
            slab_info.bounds();
            b.lemma_rehead(pfn.pfn() as int, state);
        }
        let _ = self.frame_list.replace_state(pfn, FrameState::Slab(slab_info));
        assert(self@ =~= b.set(pfn.pfn() as int, state));
        pfn
    }

    /// Frees the block of the slab.
    pub(crate) fn free_slab(&mut self, pfn: PageFrame)
        requires
            old(self).wf(),
            old(self)@.has(pfn.pfn() as int),
            old(self)@.at(pfn.pfn() as int) is Slab,
        ensures
            final(self).wf(),
            final(self)@ == old(self)@.free_slab(pfn.pfn() as int),
    {
        let ghost b = self@;
        let ghost p = pfn.pfn() as int;
        let state = FrameState::AllocatedHead(
            AllocatedInfo { ref_count: 1, order: SLAB_FRAME_ALLOC_ORDER as u8 },
        );
        proof {
            assert(b.has(p));
            b.lemma_rehead(p, state@);
        }
        let _ = self.frame_list.replace_state(pfn, state);
        proof {
            assert(self@ =~= b.set(p, state@));
            assert(self@.at(p) == state@);
            let o = SLAB_FRAME_ALLOC_ORDER as nat;
            vstd::arithmetic::power2::lemma_pow2_pos(o);
            assert(self@.clear(p, p + pow2(o)) =~= b.clear(p, p + pow2(o)));
            assert(p * PAGE_SIZE <= usize::MAX);
        }
        self.free_frames(PhysMemoryRegion::new(pfn.pa(), SLAB_SIZE_BYTES));
    }

    /// Constructs an allocation from a physical memory region: one that was
    /// previously leaked with [`PageAllocation::leak`].
    pub fn alloc_from_region(&self, region: PhysMemoryRegion) -> (r: PageAllocation)
        ensures
            r.memory() == region,
    {
        PageAllocation { region }
    }

    /// Returns `true` if the page is part of an allocated block, `false`
    /// otherwise.
    pub fn is_allocated(&self, pfn: PageFrame) -> (r: bool)
        requires
            self.wf(),
            self@.has(pfn.pfn() as int),
        ensures
            r == (self@.at(pfn.pfn() as int) is AllocatedHead || self@.at(
                pfn.pfn() as int,
            ) is AllocatedTail),
    {
        match &self.frame_list.get_frame(pfn).state {
            FrameState::AllocatedHead(_) => true,
            FrameState::AllocatedTail(_) => true,
            _ => false,
        }
    }

    /// Returns `true` if the page is part of an allocated block and has a ref
    /// count of 1, `false` otherwise.
    pub fn is_allocated_exclusive(&self, pfn: PageFrame) -> (r: bool)
        requires
            self.wf(),
            self@.has(pfn.pfn() as int),
        ensures
            r == (self@.at(self@.head_of(pfn.pfn() as int)) matches FrameUse::AllocatedHead(info)
                && info.ref_count == 1),
    {
        let head = self.block_head(pfn);
        match &self.frame_list.get_frame(head).state {
            FrameState::AllocatedHead(info) => info.ref_count == 1,
            _ => false,
        }
    }

    /// Returns the metadata of the managed frames.
    pub fn frame_list(&self) -> (r: &FrameList)
        ensures
            r.base() == self@.base,
            r.states() == self@.frames,
            self.wf() ==> r.wf(),
    {
        &self.frame_list
    }

    /// Returns the total number of pages managed by this allocator.
    pub fn total_pages(&self) -> (r: usize)
        ensures
            r == self@.frames.len(),
    {
        self.frame_list.total_pages()
    }

    /// Returns the current number of free pages available for allocation.
    pub fn free_pages(&self) -> (r: usize)
        ensures
            r == self@.free_pages,
    {
        self.free_pages
    }

    /// Returns whether there is a free block of at least the given order.
    pub fn has_block(&self, order: usize) -> (r: bool)
        requires
            self.wf(),
            order <= MAX_ORDER,
        ensures
            r == (self@.alloc_block(order as nat).1 is Some),
    {
        let mut current: usize = order;
        while current <= MAX_ORDER
            invariant
                self.wf(),
                order <= current <= MAX_ORDER + 1,
                self@.first_order(order as int) == self@.first_order(current as int),
            decreases MAX_ORDER + 1 - current,
        {
            if self.free_blocks(current) > 0 {
                return true;
            }
            current = current + 1;
        }
        false
    }

    /// Returns the number of free blocks of the given order.
    pub fn free_blocks(&self, order: usize) -> (r: usize)
        requires
            self.wf(),
            order <= MAX_ORDER,
        ensures
            r == self@.lists[order as int].len(),
    {
        self.free_lists[order].len()
    }
}

} // verus!
