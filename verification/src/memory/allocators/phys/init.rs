//! Setting up the buddy allocator from the early allocator.
use vstd::arithmetic::power2::{is_pow2, pow2};
use vstd::prelude::*;

use crate::memory::address::{aligned_up, aligned_up_is_ceiling, AddressTranslator};
use crate::memory::allocators::frame::{FrameList, FrameState, FrameUse};
use crate::memory::allocators::phys::buddy::{is_idle, lemma_weight_bound, weight, Buddy};
use crate::memory::allocators::phys::{FrameAllocator, MAX_ORDER};
use crate::memory::allocators::smalloc::free_order::{bounded, free_runs_are_ordered, ordered};
use crate::memory::allocators::smalloc::free_regions::free_runs;
use crate::memory::allocators::smalloc::model::{
    alloc_block, claim, ends_below, in_range, mem_room, null_in_range, res_room, State,
};
use crate::memory::allocators::smalloc::region_list::separated;
use crate::memory::allocators::smalloc::Smalloc;
use crate::memory::page::{lemma_pow2_is_pow2, PageFrame};
use crate::memory::region::PhysMemoryRegion;
use crate::memory::PAGE_SIZE;

verus! {

/// The size in bytes of the metadata of one frame.
pub const FRAME_METADATA_SIZE: usize = 56;

/// The alignment of the metadata of a frame.
pub const FRAME_METADATA_ALIGN: usize = 8;

/// The number of pages in the largest blocks.
pub const MAX_BLOCK_PAGES: usize = 1024;

/// The size in bytes of the largest blocks.
pub const MAX_BLOCK_BYTES: usize = 4194304;

/// Some byte of the page frame is reserved.
pub open spec fn reserves(r: PhysMemoryRegion, p: int) -> bool {
    r.len() > 0 && r.start() < (p + 1) * PAGE_SIZE && p * PAGE_SIZE < r.end()
}

/// One of the first `n` reservations that overlap the managed region has a byte of
/// the page frame.
pub open spec fn kernel_page(
    res: Seq<PhysMemoryRegion>,
    n: int,
    managed: PhysMemoryRegion,
    p: int,
) -> bool {
    exists|k: int| 0 <= k < n && (#[trigger] res[k]).meets(managed) && reserves(res[k], p)
}

/// The state in which no block is free: the frames of reservations belong to the
/// kernel.
pub open spec fn fresh(managed: PhysMemoryRegion, res: Seq<PhysMemoryRegion>) -> Buddy {
    let base = managed.start() / PAGE_SIZE as int;
    Buddy {
        base,
        frames: Seq::new(
            (managed.len() / PAGE_SIZE as int) as nat,
            |i: int|
                if kernel_page(res, res.len() as int, managed, base + i) {
                    FrameUse::Kernel
                } else {
                    FrameUse::Uninitialized
                },
        ),
        lists: Seq::new((MAX_ORDER + 1) as nat, |o: int| Seq::empty()),
        free_pages: 0,
    }
}

/// None of the `n` frames from `p` on belongs to the kernel.
pub open spec fn kernel_free(b: Buddy, p: int, n: int) -> bool {
    forall|q: int| p <= q < p + n ==> !(#[trigger] b.at(q) is Kernel)
}

/// The largest blocks between two frames are added to the free blocks, except those
/// with a frame that belongs to the kernel.
pub open spec fn populate(b: Buddy, p: int, end: int) -> Buddy
    decreases end - p,
{
    if p + MAX_BLOCK_PAGES <= end {
        populate(
            if kernel_free(b, p, MAX_BLOCK_PAGES as int) {
                b.put(p, MAX_ORDER as nat)
            } else {
                b
            },
            p + MAX_BLOCK_PAGES,
            end,
        )
    } else {
        b
    }
}

/// The first frame of the region that starts one of the largest blocks.
pub open spec fn first_block(region: PhysMemoryRegion) -> int {
    aligned_up(region.start(), MAX_BLOCK_BYTES as int) / PAGE_SIZE as int
}

/// The largest blocks of the region are added to the free blocks.
pub open spec fn populate_region(b: Buddy, region: PhysMemoryRegion) -> Buddy {
    populate(b, first_block(region), region.end() / PAGE_SIZE as int)
}

/// The largest blocks of the regions are added to the free blocks.
pub open spec fn populate_all(b: Buddy, regions: Seq<PhysMemoryRegion>) -> Buddy
    decreases regions.len(),
{
    if regions.len() == 0 {
        b
    } else {
        populate_region(populate_all(b, regions.drop_last()), regions.last())
    }
}

/// The size in bytes of the metadata of the frames of the region.
pub open spec fn metadata_size(managed: PhysMemoryRegion) -> int {
    (managed.len() / PAGE_SIZE as int) * FRAME_METADATA_SIZE
}

/// What is left of the early allocator once it has given out the metadata.
pub open spec fn with_metadata<T: AddressTranslator<()>>(m: State, managed: PhysMemoryRegion) -> State {
    alloc_block::<T>(m, metadata_size(managed), FRAME_METADATA_ALIGN as int).0
}

/// The early allocator can give out the metadata for the frames of the region.
pub open spec fn has_metadata<T: AddressTranslator<()>>(m: State, managed: PhysMemoryRegion) -> bool {
    let size = metadata_size(managed);
    let align = FRAME_METADATA_ALIGN as int;
    &&& size <= usize::MAX
    &&& size == 0 ==> forall|i: int| 0 <= i < m.mem.len() ==> (#[trigger] m.mem[i]).start() > 0
    &&& in_range::<T>(m, align - 1 + size)
    &&& null_in_range(m, align - 1 + size)
    &&& res_room(m)
    &&& alloc_block::<T>(m, size, align).1 is Ok
}

/// The region from the first to the last memory.
pub open spec fn memory_span(m: State) -> PhysMemoryRegion {
    PhysMemoryRegion::between(m.mem[0].start(), m.mem.last().end())
}

/// Nothing is allocated in a fresh state.
pub proof fn lemma_fresh(managed: PhysMemoryRegion, res: Seq<PhysMemoryRegion>)
    requires
        managed.fits(),
    ensures
        fresh(managed, res).wf(),
        fresh(managed, res).loose_run(
            managed.start() / PAGE_SIZE as int,
            managed.len() / PAGE_SIZE as int,
        ),
{
    PhysMemoryRegion::bounds(managed, managed);
    let b = fresh(managed, res);
    assert forall|p: int| #[trigger] b.has(p) implies is_idle(b.at(p)) by {}
    lemma_weight_bound(b.lists, (MAX_ORDER + 1) as nat, 0);
    assert(b.free_pages == weight(b.lists, (MAX_ORDER + 1) as nat)) by {
        assert(0 * (pow2((MAX_ORDER + 1) as nat) - 1) == 0);
    }
    assert forall|q: int, h: int| !#[trigger] b.owns(h, q) by {
        assert(b.has(h) ==> is_idle(b.at(h)));
    }
    assert forall|q: int| b.has(q) implies #[trigger] b.loose(q) by {
        assert(is_idle(b.at(q)));
    }
    assert(b.blocks_ok());
    assert(b.tails_ok());
    assert(b.lists_ok());
    assert(b.coalesced());
}

/// Adding one of the largest blocks leaves the frames behind it in no block.
pub(super) proof fn lemma_populate_block(b: Buddy, p: int, end: int)
    requires
        b.wf(),
        p % MAX_BLOCK_PAGES as int == 0,
        p + MAX_BLOCK_PAGES <= end,
        b.loose_run(p, end - p),
    ensures
        pow2(MAX_ORDER as nat) == MAX_BLOCK_PAGES,
        b.loose_run(p + MAX_BLOCK_PAGES, end - (p + MAX_BLOCK_PAGES)),
        kernel_free(b, p, MAX_BLOCK_PAGES as int) ==> {
            let next = b.put(p, MAX_ORDER as nat);
            &&& b.blank_run(p, MAX_BLOCK_PAGES as int)
            &&& next.wf()
            &&& next.loose_run(p + MAX_BLOCK_PAGES, end - (p + MAX_BLOCK_PAGES))
            &&& forall|q: int|
                b.loose(q) && !(p <= q < p + MAX_BLOCK_PAGES) ==> #[trigger] next.loose(q)
        },
{
    vstd::arithmetic::power2::lemma2_to64();
    assert(pow2(MAX_ORDER as nat) == MAX_BLOCK_PAGES);
    if kernel_free(b, p, MAX_BLOCK_PAGES as int) {
        assert forall|q: int| p <= q < p + MAX_BLOCK_PAGES implies #[trigger] b.blank(q) by {
            assert(b.loose(q) && !(b.at(q) is Kernel));
        }
        b.lemma_put(p, MAX_ORDER as nat);
        let next = b.put(p, MAX_ORDER as nat);
        assert forall|q: int| p + MAX_BLOCK_PAGES <= q < end implies #[trigger] next.loose(q) by {
            assert(b.loose(q));
        }
    }
}

/// Adding the largest blocks of frames that are in no block leaves the frames
/// outside alone.
pub proof fn lemma_populate(b: Buddy, p: int, end: int)
    requires
        b.wf(),
        p % MAX_BLOCK_PAGES as int == 0,
        b.loose_run(p, end - p),
    ensures
        populate(b, p, end).wf(),
        populate(b, p, end).base == b.base,
        populate(b, p, end).frames.len() == b.frames.len(),
        forall|q: int|
            b.loose(q) && !(p <= q < end) ==> #[trigger] populate(b, p, end).loose(q),
    decreases end - p,
{
    if p + MAX_BLOCK_PAGES <= end {
        let next = if kernel_free(b, p, MAX_BLOCK_PAGES as int) {
            b.put(p, MAX_ORDER as nat)
        } else {
            b
        };
        lemma_populate_block(b, p, end);
        assert(b.loose(p));
        lemma_populate(next, p + MAX_BLOCK_PAGES, end);
        assert forall|q: int| b.loose(q) && !(p <= q < end) implies #[trigger] populate(
            b,
            p,
            end,
        ).loose(q) by {
            assert(next.loose(q));
        }
    }
}

/// Facts about the first block of a region.
pub(super) proof fn lemma_first_block(region: PhysMemoryRegion)
    ensures
        first_block(region) % MAX_BLOCK_PAGES as int == 0,
        region.start() / PAGE_SIZE as int <= first_block(region),
        aligned_up(region.start(), MAX_BLOCK_BYTES as int) == first_block(region) * PAGE_SIZE,
        0 <= first_block(region),
{
    PhysMemoryRegion::bounds(region, region);
    aligned_up_is_ceiling(region.start(), MAX_BLOCK_BYTES as int);
}

/// The largest blocks have a size that is a power of two.
proof fn lemma_max_block()
    ensures
        is_pow2(MAX_BLOCK_BYTES as int),
        pow2(MAX_ORDER as nat) == MAX_BLOCK_PAGES,
{
    vstd::arithmetic::power2::lemma2_to64();
    lemma_pow2_is_pow2(22);
}

impl FrameAllocator {
    /// Whether one of the largest blocks, which starts at the frame, has a frame that
    /// belongs to the kernel.
    fn holds_kernel_frame(&self, first: PageFrame) -> (r: bool)
        requires
            self.wf(),
            self@.base <= first.pfn(),
            first.pfn() + MAX_BLOCK_PAGES <= self@.base + self@.frames.len(),
            first.pfn() + MAX_BLOCK_PAGES <= usize::MAX,
        ensures
            r == !kernel_free(self@, first.pfn() as int, MAX_BLOCK_PAGES as int),
    {
        let mut n: usize = 0;
        while n < MAX_BLOCK_PAGES
            invariant
                n <= MAX_BLOCK_PAGES,
                self.wf(),
                self@.base <= first.pfn(),
                first.pfn() + MAX_BLOCK_PAGES <= self@.base + self@.frames.len(),
                first.pfn() + MAX_BLOCK_PAGES <= usize::MAX,
                kernel_free(self@, first.pfn() as int, n as int),
            decreases MAX_BLOCK_PAGES - n,
        {
            let pfn = PageFrame::from_pfn(first.value() + n);
            let kernel: bool = match &self.frame_list.get_frame(pfn).state {
                FrameState::Kernel => true,
                _ => false,
            };
            if kernel {
                assert(self@.at(first.pfn() + n) is Kernel);
                return true;
            }
            n = n + 1;
        }
        false
    }

    /// Adds the [`MAX_ORDER`]-aligned blocks within `region` to the free lists.
    ///
    /// The start address is aligned up to the next naturally aligned [`MAX_ORDER`]
    /// boundary; any tail smaller than a single block is ignored. Blocks that hold a
    /// `Kernel` frame (e.g. due to a reservation that overlaps the managed region) are
    /// left untouched and excluded from the free lists.
    fn populate_free_region(&mut self, region: PhysMemoryRegion)
        requires
            old(self).wf(),
            region.end() + MAX_BLOCK_BYTES <= usize::MAX,
            old(self)@.loose_run(
                first_block(region),
                region.end() / PAGE_SIZE as int - first_block(region),
            ),
        ensures
            final(self).wf(),
            final(self)@ == populate_region(old(self)@, region),
    {
        proof {
            lemma_max_block();
            lemma_first_block(region);
            PhysMemoryRegion::bounds(region, region);
        }
        let aligned_start = region.start_address().align_up(MAX_BLOCK_BYTES);
        let end = region.end_address();
        let ghost b0 = self@;
        if aligned_start.value() >= end.value() {
            return ;
        }
        let mut current_pfn = aligned_start.to_pfn();
        let end_pfn = end.to_pfn();
        while current_pfn.value() + MAX_BLOCK_PAGES <= end_pfn.value()
            invariant
                self.wf(),
                current_pfn.pfn() + MAX_BLOCK_PAGES <= usize::MAX,
                end_pfn.pfn() + MAX_BLOCK_PAGES <= usize::MAX,
                current_pfn.pfn() as int % MAX_BLOCK_PAGES as int == 0,
                self@.loose_run(current_pfn.pfn() as int, end_pfn.pfn() - current_pfn.pfn()),
                populate(self@, current_pfn.pfn() as int, end_pfn.pfn() as int) == populate_region(
                    b0,
                    region,
                ),
                pow2(MAX_ORDER as nat) == MAX_BLOCK_PAGES,
            decreases end_pfn.pfn() - current_pfn.pfn(),
        {
            let ghost b = self@;
            let ghost p = current_pfn.pfn() as int;
            proof {
                lemma_populate_block(b, p, end_pfn.pfn() as int);
                assert(b.loose(p) && b.loose(p + MAX_BLOCK_PAGES - 1));
            }
            if !self.holds_kernel_frame(current_pfn) {
                self.put_free(current_pfn, MAX_ORDER);
            }
            current_pfn = PageFrame::from_pfn(current_pfn.value() + MAX_BLOCK_PAGES);
        }
    }

    /// Allocates the frame metadata out of `smalloc`, builds the allocator for
    /// `managed_region`, and marks any reserved regions overlapping it as `Kernel`
    /// frames. No block is free yet.
    fn setup<T: AddressTranslator<()>>(
        smalloc: &mut Smalloc<T>,
        managed_region: PhysMemoryRegion,
    ) -> (r: Self)
        requires
            old(smalloc).wf(),
            managed_region.fits(),
            has_metadata::<T>(old(smalloc)@, managed_region),
        ensures
            final(smalloc).wf(),
            final(smalloc)@ == with_metadata::<T>(old(smalloc)@, managed_region),
            r.wf(),
            r@ == fresh(managed_region, final(smalloc)@.res),
    {
        proof {
            PhysMemoryRegion::bounds(managed_region, managed_region);
            vstd::arithmetic::power2::lemma2_to64();
            lemma_pow2_is_pow2(3);
        }
        let lowest_addr = managed_region.start_address();
        let total_pages: usize = managed_region.size() / PAGE_SIZE;
        let metadata_size: usize = total_pages * FRAME_METADATA_SIZE;
        let _ = smalloc.allocate(metadata_size, FRAME_METADATA_ALIGN);

        let base_page = lowest_addr.to_pfn();
        let mut frame_list = FrameList::new(base_page, total_pages);
        let ghost base = base_page.pfn() as int;
        let ghost res = smalloc@.res;

        let reserved = smalloc.res.iter();
        let mut k: usize = 0;
        while k < reserved.len()
            invariant
                k <= res.len(),
                reserved@ == res,
                separated(res),
                managed_region.fits(),
                base == base_page.pfn(),
                base == frame_list.base(),
                frame_list.wf(),
                total_pages == frame_list.states().len(),
                base + total_pages <= usize::MAX,
                forall|i: int|
                    0 <= i < total_pages ==> #[trigger] frame_list.states()[i] == (if kernel_page(
                        res,
                        k as int,
                        managed_region,
                        base + i,
                    ) {
                        FrameUse::Kernel
                    } else {
                        FrameUse::Uninitialized
                    }),
            decreases res.len() - k,
        {
            let res_region = reserved[k];
            assert(res[k as int].fits());
            let ghost before = frame_list.states();
            let overlapping: bool = res_region.overlaps(managed_region);
            if overlapping {
                // A page that is reserved in part belongs to the kernel as well.
                proof {
                    PhysMemoryRegion::bounds(res_region, res_region);
                }
                let first: usize = res_region.start_address().value() / PAGE_SIZE;
                let last: usize = (res_region.end_address().value() - 1) / PAGE_SIZE;
                let mut pfn: usize = first;
                while pfn <= last
                    invariant
                        first <= pfn <= last + 1,
                        last < usize::MAX,
                        base == base_page.pfn(),
                        base == frame_list.base(),
                        frame_list.wf(),
                        total_pages == frame_list.states().len(),
                        total_pages == before.len(),
                        base + total_pages <= usize::MAX,
                        forall|i: int|
                            0 <= i < total_pages ==> #[trigger] frame_list.states()[i] == (if first
                                <= base + i < pfn {
                                FrameUse::Kernel
                            } else {
                                before[i]
                            }),
                    decreases last + 1 - pfn,
                {
                    if pfn >= base_page.value() && pfn < base_page.value() + total_pages {
                        let _ = frame_list.replace_state(
                            PageFrame::from_pfn(pfn),
                            FrameState::Kernel,
                        );
                    }
                    pfn = pfn + 1;
                }
                proof {
                    assert forall|p: int| #[trigger] reserves(res_region, p) == (first <= p <= last) by {}
                }
            }
            proof {
                assert forall|i: int| 0 <= i < total_pages implies #[trigger] frame_list.states()[i]
                    == (if kernel_page(res, k + 1, managed_region, base + i) {
                    FrameUse::Kernel
                } else {
                    FrameUse::Uninitialized
                }) by {
                    let p = base + i;
                    if res_region.meets(managed_region) && reserves(res_region, p) {
                        assert(res[k as int].meets(managed_region) && reserves(res[k as int], p));
                    } else {
                        assert(kernel_page(res, k + 1, managed_region, p) == kernel_page(
                            res,
                            k as int,
                            managed_region,
                            p,
                        )) by {
                            if kernel_page(res, k as int, managed_region, p) {
                                let x = choose|x: int|
                                    0 <= x < k && (#[trigger] res[x]).meets(managed_region)
                                        && reserves(res[x], p);
                                assert(res[x].meets(managed_region) && reserves(res[x], p));
                            }
                        }
                    }
                    assert(before[i] == (if kernel_page(res, k as int, managed_region, p) {
                        FrameUse::Kernel
                    } else {
                        FrameUse::Uninitialized
                    }));
                }
            }
            k = k + 1;
        }
        let mut free_lists: Vec<Vec<PageFrame>> = Vec::new();
        while free_lists.len() <= MAX_ORDER
            invariant
                free_lists@.len() <= MAX_ORDER + 1,
                forall|o: int| 0 <= o < free_lists@.len() ==> (#[trigger] free_lists@[o])@.len() == 0,
            decreases MAX_ORDER + 1 - free_lists@.len(),
        {
            free_lists.push(Vec::new());
        }
        let r = Self { frame_list, free_pages: 0, free_lists };
        proof {
            let f = fresh(managed_region, res);
            assert forall|o: int| 0 <= o < f.lists.len() implies #[trigger] r@.lists[o]
                == f.lists[o] by {
                assert(r@.lists[o] =~= f.lists[o]);
            }
            assert(r@.lists =~= f.lists);
            assert(r@.frames =~= f.frames);
            assert(r@ =~= f);
            lemma_fresh(managed_region, res);
        }
        r
    }

    /// Initializes the frame allocator. This is the main bootstrap function.
    ///
    /// Uses the entire span of all memory regions as the memory pool. This function
    /// takes ownership of `smalloc` since the buddy allocator will become the primary
    /// allocator for all memory.
    pub fn init<T: AddressTranslator<()>>(smalloc: Smalloc<T>) -> (r: Self)
        requires
            smalloc.wf(),
            smalloc@.mem.len() > 0,
            smalloc@.mem[0].start() % PAGE_SIZE as int == 0,
            ends_below(smalloc@.mem, MAX_BLOCK_BYTES as int),
            has_metadata::<T>(smalloc@, memory_span(smalloc@)),
        ensures
            r.wf(),
            ({
                let managed = memory_span(smalloc@);
                let left = with_metadata::<T>(smalloc@, managed);
                r@ == populate_all(fresh(managed, left.res), free_runs(left.mem, left.res))
            }),
    {
        let mut smalloc = smalloc;
        let ghost m = smalloc@;
        let memory = smalloc.iter_memory();
        let ghost managed = memory_span(m);
        let ghost (low, high) = (m.mem[0].start(), m.mem.last().end());
        proof {
            assert(m.mem[0].fits());
            assert(m.mem.last().fits());
            PhysMemoryRegion::bounds(m.mem[0], m.mem.last());
            PhysMemoryRegion::bounds(m.mem.last(), m.mem.last());
            if m.mem.len() > 1 {
                assert(m.mem[0].end() < m.mem[m.mem.len() - 1].start());
            }
            PhysMemoryRegion::between_bounds(low, high);
        }
        // Find the entire memory span.
        let start = memory[0].start_address();
        let end = memory[memory.len() - 1].end_address();
        let region = PhysMemoryRegion::from_start_end_address(start, end);
        proof {
            PhysMemoryRegion::bounds(region, managed);
        }
        let mut allocator = Self::setup(&mut smalloc, region);
        let free = smalloc.iter_free();
        let ghost left = smalloc@;
        let ghost runs = free@;
        proof {
            assert(left.mem == m.mem);
            assert(bounded(left.mem, low, high)) by {
                assert forall|i: int| 0 <= i < m.mem.len() implies low <= (
                #[trigger] m.mem[i]).start() && m.mem[i].end() <= high by {
                    assert(m.mem[i].fits());
                    PhysMemoryRegion::bounds(m.mem[i], m.mem[i]);
                    if i > 0 {
                        assert(m.mem[0].end() < m.mem[i].start());
                    }
                    if i < m.mem.len() - 1 {
                        assert(m.mem[i].end() < m.mem[m.mem.len() - 1].start());
                    }
                }
            }
            free_runs_are_ordered(left.mem, left.res, low, high);
            lemma_fresh(managed, left.res);
            assert(high + MAX_BLOCK_BYTES <= usize::MAX);
            assert(populate_all(allocator@, runs.take(0)) == allocator@);
        }
        let ghost b0 = allocator@;
        let mut i: usize = 0;
        while i < free.len()
            invariant
                i <= runs.len(),
                runs == free@,
                ordered(runs),
                bounded(runs, low, high),
                high + MAX_BLOCK_BYTES <= usize::MAX,
                allocator.wf(),
                allocator@ == populate_all(b0, runs.take(i as int)),
                allocator@.base == low / PAGE_SIZE as int,
                allocator@.frames.len() == (high - low) / PAGE_SIZE as int,
                low % PAGE_SIZE as int == 0,
                forall|q: int|
                    low / PAGE_SIZE as int <= q < high / PAGE_SIZE as int && (i > 0 ==> runs[i
                        - 1].end() / PAGE_SIZE as int <= q) ==> #[trigger] allocator@.loose(q),
            decreases runs.len() - i,
        {
            let run = free[i];
            let ghost b = allocator@;
            proof {
                assert(runs[i as int].end() <= high);
                lemma_first_block(run);
                PhysMemoryRegion::bounds(run, run);
                let first = first_block(run);
                let end = run.end() / PAGE_SIZE as int;
                assert forall|q: int| first <= q < end implies #[trigger] b.loose(q) by {
                    if i > 0 {
                        assert(runs[i - 1].end() <= runs[i as int].start());
                    }
                }
                assert(runs.take(i + 1).drop_last() =~= runs.take(i as int));
                assert(runs.take(i + 1).last() == run);
                lemma_populate(b, first, end);
            }
            allocator.populate_free_region(run);
            proof {
                let end = run.end() / PAGE_SIZE as int;
                assert forall|q: int|
                    low / PAGE_SIZE as int <= q < high / PAGE_SIZE as int && end
                        <= q implies #[trigger] allocator@.loose(q) by {
                    if i > 0 {
                        assert(runs[i - 1].end() <= runs[i as int].start());
                    }
                    assert(b.loose(q));
                }
            }
            i = i + 1;
        }
        proof {
            assert(runs.take(i as int) =~= runs);
        }
        allocator
    }

    /// Initializes the frame allocator over a specific sub-region of physical
    /// memory. `region` must be a free, memory-backed region known to `smalloc`.
    ///
    /// Pre-existing reservations within `region` (e.g. the kernel image) are preserved
    /// and surface as `Kernel` frames in the resulting allocator.
    pub fn init_from_region<T: AddressTranslator<()>>(
        smalloc: &mut Smalloc<T>,
        region: PhysMemoryRegion,
    ) -> (r: Self)
        requires
            old(smalloc).wf(),
            region.end() + MAX_BLOCK_BYTES <= usize::MAX,
            region.start() % PAGE_SIZE as int == 0,
            in_range::<T>(old(smalloc)@, 0),
            mem_room(old(smalloc)@),
            claim::<T>(old(smalloc)@, region).1 is Ok,
            has_metadata::<T>(claim::<T>(old(smalloc)@, region).0, region),
        ensures
            final(smalloc).wf(),
            final(smalloc)@ == with_metadata::<T>(claim::<T>(old(smalloc)@, region).0, region),
            r.wf(),
            r@ == populate_region(fresh(region, final(smalloc)@.res), region),
    {
        proof {
            PhysMemoryRegion::bounds(region, region);
        }
        let _ = smalloc.claim_region(region);
        let mut allocator = Self::setup(smalloc, region);
        proof {
            lemma_fresh(region, smalloc@.res);
            lemma_first_block(region);
            let b = allocator@;
            assert forall|q: int|
                first_block(region) <= q < region.end() / PAGE_SIZE as int implies #[trigger] b.loose(
                q,
            ) by {}
        }
        allocator.populate_free_region(region);
        allocator
    }
}

} // verus!
