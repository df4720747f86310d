//! What holds of the buddy allocator after its initialization.
use vstd::prelude::*;

use crate::memory::address::{aligned_up, aligned_up_is_ceiling, AddressTranslator};
use crate::memory::allocators::phys::buddy::{free_state, head_order, is_free, Buddy};
use crate::memory::allocators::phys::init::{
    first_block, fresh, has_metadata, kernel_free, kernel_page, lemma_first_block, lemma_fresh,
    lemma_populate, lemma_populate_block, memory_span, populate, populate_all, populate_region,
    reserves, with_metadata, FRAME_METADATA_ALIGN, FRAME_METADATA_SIZE, MAX_BLOCK_BYTES,
    MAX_BLOCK_PAGES,
};
use crate::memory::allocators::phys::laws::kernel_pages_are_in_no_block;
use crate::memory::allocators::phys::MAX_ORDER;
use crate::memory::allocators::smalloc::free_order::{bounded, free_runs_are_ordered, ordered};
use crate::memory::allocators::smalloc::free_regions::{
    free_runs, free_runs_are_the_unreserved_memory,
};
use crate::memory::allocators::smalloc::laws::alloc_overlaps_no_reservation;
use crate::memory::allocators::smalloc::model::{alloc_block, state_wf, State};
use crate::memory::allocators::smalloc::region_list::{covered, separated};
use crate::memory::region::PhysMemoryRegion;
use crate::memory::PAGE_SIZE;

verus! {

/// The page frame lies in one of the regions.
pub open spec fn page_in(regions: Seq<PhysMemoryRegion>, q: int) -> bool {
    exists|j: int|
        0 <= j < regions.len() && (#[trigger] regions[j]).start() <= q * PAGE_SIZE && (q + 1)
            * PAGE_SIZE <= regions[j].end()
}

/// Only frames in the given range become part of a block, and frames of the kernel
/// stay frames of the kernel.
proof fn lemma_populate_range(b: Buddy, p: int, end: int)
    requires
        b.wf(),
        p % MAX_BLOCK_PAGES as int == 0,
        b.loose_run(p, end - p),
    ensures
        forall|h: int, q: int| #[trigger]
            populate(b, p, end).owns(h, q) ==> b.owns(h, q) || p <= q < end,
        forall|q: int|
            b.has(q) && b.at(q) is Kernel ==> #[trigger] populate(b, p, end).at(q) is Kernel,
    decreases end - p,
{
    if p + MAX_BLOCK_PAGES <= end {
        let next = if kernel_free(b, p, MAX_BLOCK_PAGES as int) {
            b.put(p, MAX_ORDER as nat)
        } else {
            b
        };
        lemma_populate_block(b, p, end);
        assert(b.loose(p));
        lemma_populate_range(next, p + MAX_BLOCK_PAGES, end);
        let all = populate(b, p, end);
        assert(all == populate(next, p + MAX_BLOCK_PAGES, end));
        assert forall|h: int, q: int| #[trigger] all.owns(h, q) implies b.owns(h, q) || p <= q
            < end by {
            if next.owns(h, q) && kernel_free(b, p, MAX_BLOCK_PAGES as int) {
                if h == p {
                    assert(next.at(h) == free_state(MAX_ORDER as nat));
                    assert(head_order(next.at(h)) == Some(MAX_ORDER as nat));
                } else {
                    assert(b.owns(h, q));
                }
            }
        }
        assert forall|q: int| b.has(q) && b.at(q) is Kernel implies #[trigger] all.at(q) is Kernel by {
            assert(next.has(q) && next.at(q) is Kernel);
        }
    }
}

/// Only pages of the regions become part of a block.
proof fn lemma_populate_all(b: Buddy, regions: Seq<PhysMemoryRegion>, low: int, high: int)
    requires
        b.wf(),
        b.base == low / PAGE_SIZE as int,
        b.frames.len() == (high - low) / PAGE_SIZE as int,
        low % PAGE_SIZE as int == 0,
        0 <= low <= high,
        b.loose_run(b.base, b.frames.len() as int),
        ordered(regions),
        bounded(regions, low, high),
    ensures
        populate_all(b, regions).wf(),
        populate_all(b, regions).base == b.base,
        populate_all(b, regions).frames.len() == b.frames.len(),
        forall|h: int, q: int| #[trigger]
            populate_all(b, regions).owns(h, q) ==> page_in(regions, q),
        forall|q: int|
            low / PAGE_SIZE as int <= q < high / PAGE_SIZE as int && (regions.len() > 0
                ==> regions.last().end() / PAGE_SIZE as int <= q)
                ==> #[trigger] populate_all(b, regions).loose(q),
        forall|q: int|
            b.has(q) && b.at(q) is Kernel ==> #[trigger] populate_all(b, regions).at(q) is Kernel,
    decreases regions.len(),
{
    if regions.len() == 0 {
        assert forall|h: int, q: int| !#[trigger] b.owns(h, q) by {
            if b.owns(h, q) {
                assert(b.has(h));
                assert(b.loose(h));
            }
        }
    } else {
        let n = regions.len() - 1;
        let front = regions.drop_last();
        let run = regions.last();
        assert forall|i: int| 0 <= i < n implies front[i] == #[trigger] regions[i] by {}
        assert(ordered(front));
        assert(bounded(front, low, high));
        lemma_populate_all(b, front, low, high);
        let a = populate_all(b, front);
        let first = first_block(run);
        let end = run.end() / PAGE_SIZE as int;
        lemma_first_block(run);
        assert(regions[n].end() <= high);
        PhysMemoryRegion::bounds(run, run);
        if n > 0 {
            assert(regions[n - 1].end() <= regions[n].start());
            assert(front.last() == regions[n - 1]);
        }
        assert forall|q: int| first <= q < end implies #[trigger] a.loose(q) by {}
        lemma_populate(a, first, end);
        lemma_populate_range(a, first, end);
        let all = populate_all(b, regions);
        assert(all == populate(a, first, end));
        assert forall|h: int, q: int| #[trigger] all.owns(h, q) implies page_in(regions, q) by {
            if a.owns(h, q) {
                assert(page_in(front, q));
                let j = choose|j: int|
                    0 <= j < front.len() && (#[trigger] front[j]).start() <= q * PAGE_SIZE && (q + 1)
                        * PAGE_SIZE <= front[j].end();
                assert(regions[j] == front[j]);
            } else {
                assert(regions[n].start() <= q * PAGE_SIZE && (q + 1) * PAGE_SIZE
                    <= regions[n].end());
            }
        }
        assert forall|q: int|
            low / PAGE_SIZE as int <= q < high / PAGE_SIZE as int && end <= q implies #[trigger] all.loose(
            q,
        ) by {
            assert(a.loose(q));
        }
        assert forall|q: int| b.has(q) && b.at(q) is Kernel implies #[trigger] all.at(q) is Kernel by {
            assert(a.has(q) && a.at(q) is Kernel);
        }
    }
}

/// After initialization from all memory, all bytes of the free blocks are memory
/// that is not reserved, and the frames of reservations belong to the kernel.
pub proof fn init_frees_unreserved_memory(m: State)
    requires
        separated(m.mem),
        separated(m.res),
        m.mem.len() > 0,
        m.mem[0].start() % PAGE_SIZE as int == 0,
    ensures
        ({
            let managed = memory_span(m);
            let b = populate_all(fresh(managed, m.res), free_runs(m.mem, m.res));
            &&& b.wf()
            &&& forall|h: int, q: int, addr: int|
                #![trigger b.owns(h, q), covered(m.mem, addr)]
                b.owns(h, q) && q * PAGE_SIZE <= addr < (q + 1) * PAGE_SIZE ==> covered(m.mem, addr)
                    && !covered(m.res, addr)
            &&& forall|p: int| #[trigger]
                b.has(p) && kernel_page(m.res, m.res.len() as int, managed, p) ==> b.at(p) is Kernel
        }),
{
    let managed = memory_span(m);
    let runs = free_runs(m.mem, m.res);
    let (low, high) = (m.mem[0].start(), m.mem.last().end());
    let f = fresh(managed, m.res);
    let b = populate_all(f, runs);
    lemma_span(m);
    free_runs_are_ordered(m.mem, m.res, low, high);
    lemma_fresh(managed, m.res);
    lemma_populate_all(f, runs, low, high);
    assert forall|h: int, q: int, addr: int|
        #![trigger b.owns(h, q), covered(m.mem, addr)]
        b.owns(h, q) && q * PAGE_SIZE <= addr < (q + 1) * PAGE_SIZE implies covered(m.mem, addr)
        && !covered(m.res, addr) by {
        let j = choose|j: int|
            0 <= j < runs.len() && (#[trigger] runs[j]).start() <= q * PAGE_SIZE && (q + 1)
                * PAGE_SIZE <= runs[j].end();
        assert(runs[j].has(addr));
        free_runs_are_the_unreserved_memory(m.mem, m.res, addr);
    }
    assert forall|p: int| #[trigger]
        b.has(p) && kernel_page(m.res, m.res.len() as int, managed, p) implies b.at(p) is Kernel by {
        assert(f.has(p));
        assert(f.at(p) is Kernel);
    }
}

/// After initialization from a region, the frames of reservations in it still belong
/// to the kernel, and none of them is in a block. A page that is reserved in part is
/// one of these frames.
pub proof fn reservations_stay_with_the_kernel(
    region: PhysMemoryRegion,
    res: Seq<PhysMemoryRegion>,
    p: int,
)
    requires
        region.fits(),
        region.start() % PAGE_SIZE as int == 0,
        region.start() / PAGE_SIZE as int <= p < region.end() / PAGE_SIZE as int,
        kernel_page(res, res.len() as int, region, p),
    ensures
        populate_region(fresh(region, res), region).wf(),
        populate_region(fresh(region, res), region).at(p) is Kernel,
        forall|h: int| !#[trigger] populate_region(fresh(region, res), region).owns(h, p),
{
    let f = fresh(region, res);
    lemma_fresh(region, res);
    lemma_first_block(region);
    PhysMemoryRegion::bounds(region, region);
    let end = region.end() / PAGE_SIZE as int;
    assert forall|q: int| first_block(region) <= q < end implies #[trigger] f.loose(q) by {}
    lemma_populate(f, first_block(region), end);
    lemma_populate_range(f, first_block(region), end);
    assert(f.has(p) && f.at(p) is Kernel);
    let b = populate_region(f, region);
    assert forall|h: int| !#[trigger] b.owns(h, p) by {
        kernel_pages_are_in_no_block(b, h, p);
    }
}

/// Adding the largest blocks from a frame on leaves the frames before it alone.
proof fn lemma_populate_before(b: Buddy, p: int, end: int, q: int)
    requires
        b.wf(),
        p % MAX_BLOCK_PAGES as int == 0,
        b.loose_run(p, end - p),
        b.has(q),
        q < p,
    ensures
        populate(b, p, end).at(q) == b.at(q),
    decreases end - p,
{
    if p + MAX_BLOCK_PAGES <= end {
        let next = if kernel_free(b, p, MAX_BLOCK_PAGES as int) {
            b.put(p, MAX_ORDER as nat)
        } else {
            b
        };
        lemma_populate_block(b, p, end);
        assert(b.loose(p));
        lemma_populate_before(next, p + MAX_BLOCK_PAGES, end, q);
    }
}

/// Each of the largest blocks without a frame of the kernel becomes free.
proof fn lemma_populate_frees(b: Buddy, p: int, end: int, x: int)
    requires
        b.wf(),
        p % MAX_BLOCK_PAGES as int == 0,
        b.loose_run(p, end - p),
        p <= x,
        x % MAX_BLOCK_PAGES as int == 0,
        x + MAX_BLOCK_PAGES <= end,
        kernel_free(b, x, MAX_BLOCK_PAGES as int),
    ensures
        populate(b, p, end).at(x) == free_state(MAX_ORDER as nat),
    decreases end - p,
{
    let next = if kernel_free(b, p, MAX_BLOCK_PAGES as int) {
        b.put(p, MAX_ORDER as nat)
    } else {
        b
    };
    lemma_populate_block(b, p, end);
    assert(b.loose(p));
    if x == p {
        lemma_populate_before(next, p + MAX_BLOCK_PAGES, end, p);
    } else {
        assert(x >= p + MAX_BLOCK_PAGES) by {
            let (i, j) = (x / MAX_BLOCK_PAGES as int, p / MAX_BLOCK_PAGES as int);
            assert(x == i * MAX_BLOCK_PAGES && p == j * MAX_BLOCK_PAGES);
        }
        assert forall|q: int| x <= q < x + MAX_BLOCK_PAGES implies !(#[trigger] next.at(q) is Kernel) by {
            assert(b.loose(q));
            assert(!(b.at(q) is Kernel));
        }
        lemma_populate_frees(next, p + MAX_BLOCK_PAGES, end, x);
    }
}

/// After initialization from a region, each of the largest blocks that lies in it, is
/// aligned to its size and has no reserved byte is free.
pub proof fn unreserved_blocks_become_free(
    region: PhysMemoryRegion,
    res: Seq<PhysMemoryRegion>,
    x: int,
)
    requires
        region.fits(),
        region.start() % PAGE_SIZE as int == 0,
        x % MAX_BLOCK_PAGES as int == 0,
        region.start() <= x * PAGE_SIZE,
        (x + MAX_BLOCK_PAGES) * PAGE_SIZE <= region.end(),
        forall|addr: int|
            x * PAGE_SIZE <= addr < (x + MAX_BLOCK_PAGES) * PAGE_SIZE ==> !#[trigger] covered(
                res,
                addr,
            ),
    ensures
        is_free(populate_region(fresh(region, res), region).at(x), MAX_ORDER as nat),
{
    let f = fresh(region, res);
    lemma_fresh(region, res);
    lemma_first_block(region);
    PhysMemoryRegion::bounds(region, region);
    let end = region.end() / PAGE_SIZE as int;
    let first = first_block(region);
    assert forall|q: int| first <= q < end implies #[trigger] f.loose(q) by {}
    assert(first <= x) by {
        let bytes = MAX_BLOCK_BYTES as int;
        aligned_up_is_ceiling(region.start(), bytes);
        let up = aligned_up(region.start(), bytes);
        let (i, j) = (up / bytes, x / MAX_BLOCK_PAGES as int);
        assert(up == i * bytes && x * PAGE_SIZE == j * bytes);
    }
    assert forall|q: int| x <= q < x + MAX_BLOCK_PAGES implies !(#[trigger] f.at(q) is Kernel) by {
        assert(f.has(q));
        if kernel_page(res, res.len() as int, region, q) {
            let k = choose|k: int|
                0 <= k < res.len() && (#[trigger] res[k]).meets(region) && reserves(res[k], q);
            let addr = if res[k].start() >= q * PAGE_SIZE {
                res[k].start()
            } else {
                q * PAGE_SIZE
            };
            assert(res[k].has(addr));
            assert(covered(res, addr));
        }
    }
    lemma_populate_frees(f, first, end, x);
}

/// After initialization from a region, a page of it with a reserved byte belongs to the
/// kernel, and is in no block.
pub proof fn reserved_bytes_stay_with_the_kernel(
    region: PhysMemoryRegion,
    res: Seq<PhysMemoryRegion>,
    addr: int,
)
    requires
        region.fits(),
        region.start() % PAGE_SIZE as int == 0,
        region.start() <= addr,
        addr / (PAGE_SIZE as int) < region.end() / (PAGE_SIZE as int),
        covered(res, addr),
    ensures
        ({
            let b = populate_region(fresh(region, res), region);
            &&& b.at(addr / PAGE_SIZE as int) is Kernel
            &&& forall|h: int| !#[trigger] b.owns(h, addr / PAGE_SIZE as int)
        }),
{
    let p = addr / PAGE_SIZE as int;
    let k = choose|k: int| 0 <= k < res.len() && (#[trigger] res[k]).has(addr);
    PhysMemoryRegion::bounds(region, region);
    assert(res[k].meets(region) && reserves(res[k], p));
    assert(kernel_page(res, res.len() as int, region, p));
    reservations_stay_with_the_kernel(region, res, p);
}

/// Adding the largest blocks up to a frame leaves the frames from it on alone.
proof fn lemma_populate_after(b: Buddy, p: int, end: int, q: int)
    requires
        b.wf(),
        p % MAX_BLOCK_PAGES as int == 0,
        b.loose_run(p, end - p),
        b.has(q),
        end <= q,
    ensures
        populate(b, p, end).at(q) == b.at(q),
    decreases end - p,
{
    if p + MAX_BLOCK_PAGES <= end {
        let next = if kernel_free(b, p, MAX_BLOCK_PAGES as int) {
            b.put(p, MAX_ORDER as nat)
        } else {
            b
        };
        lemma_populate_block(b, p, end);
        assert(b.loose(p));
        lemma_populate_after(next, p + MAX_BLOCK_PAGES, end, q);
    }
}

/// Adding the largest blocks of regions leaves the frames behind them alone, and frees each
/// block without a frame of the kernel that lies in one of the regions.
proof fn lemma_populate_all_frees(
    b: Buddy,
    regions: Seq<PhysMemoryRegion>,
    low: int,
    high: int,
    x: int,
)
    requires
        b.wf(),
        b.base == low / PAGE_SIZE as int,
        b.frames.len() == (high - low) / PAGE_SIZE as int,
        low % PAGE_SIZE as int == 0,
        0 <= low <= high,
        b.loose_run(b.base, b.frames.len() as int),
        ordered(regions),
        bounded(regions, low, high),
        x % MAX_BLOCK_PAGES as int == 0,
        kernel_free(b, x, MAX_BLOCK_PAGES as int),
    ensures
        forall|q: int|
            #![trigger populate_all(b, regions).at(q)]
            b.has(q) && (regions.len() > 0 ==> regions.last().end() / PAGE_SIZE as int <= q)
                ==> populate_all(b, regions).at(q) == b.at(q),
        (exists|j: int|
            0 <= j < regions.len() && (#[trigger] regions[j]).start() <= x * PAGE_SIZE && (x
                + MAX_BLOCK_PAGES) * PAGE_SIZE <= regions[j].end()) ==> populate_all(b, regions).at(
            x,
        ) == free_state(MAX_ORDER as nat),
    decreases regions.len(),
{
    if regions.len() > 0 {
        let n = regions.len() - 1;
        let front = regions.drop_last();
        let run = regions.last();
        assert forall|i: int| 0 <= i < n implies front[i] == #[trigger] regions[i] by {}
        assert(ordered(front));
        assert(bounded(front, low, high));
        lemma_populate_all(b, front, low, high);
        lemma_populate_all_frees(b, front, low, high, x);
        let a = populate_all(b, front);
        let first = first_block(run);
        let end = run.end() / PAGE_SIZE as int;
        lemma_first_block(run);
        assert(regions[n].end() <= high);
        assert(low <= regions[n].start());
        PhysMemoryRegion::bounds(run, run);
        if n > 0 {
            assert(regions[n - 1].end() <= regions[n].start());
            assert(front.last() == regions[n - 1]);
            assert(low <= regions[n - 1].start());
        }
        assert forall|q: int| first <= q < end implies #[trigger] a.loose(q) by {}
        let all = populate_all(b, regions);
        assert(all == populate(a, first, end));
        assert forall|q: int| #![trigger all.at(q)] b.has(q) && end <= q implies all.at(q) == b.at(
            q,
        ) by {
            lemma_populate_after(a, first, end, q);
            assert(a.at(q) == b.at(q));
        }
        if exists|j: int|
            0 <= j < regions.len() && (#[trigger] regions[j]).start() <= x * PAGE_SIZE && (x
                + MAX_BLOCK_PAGES) * PAGE_SIZE <= regions[j].end() {
            let j = choose|j: int|
                0 <= j < regions.len() && (#[trigger] regions[j]).start() <= x * PAGE_SIZE && (x
                    + MAX_BLOCK_PAGES) * PAGE_SIZE <= regions[j].end();
            if j < n {
                assert(front[j] == regions[j]);
                assert(regions[j].end() <= regions[n].start());
                assert(low <= regions[j].start() && regions[j].end() <= high);
                assert(a.has(x));
                lemma_populate_before(a, first, end, x);
            } else {
                assert(first <= x) by {
                    let bytes = MAX_BLOCK_BYTES as int;
                    aligned_up_is_ceiling(run.start(), bytes);
                    let up = aligned_up(run.start(), bytes);
                    let (i, k) = (up / bytes, x / MAX_BLOCK_PAGES as int);
                    assert(up == i * bytes && x * PAGE_SIZE == k * bytes);
                }
                assert forall|q: int| x <= q < x + MAX_BLOCK_PAGES implies !(#[trigger] a.at(
                    q,
                ) is Kernel) by {
                    assert(b.has(q));
                    assert(!(b.at(q) is Kernel));
                }
                lemma_populate_frees(a, first, end, x);
            }
        }
    }
}

/// After initialization from all memory, each of the largest blocks that is aligned to its
/// size and lies in a free part of the memory is free.
pub proof fn blocks_of_free_memory_become_free(m: State, j: int, x: int)
    requires
        separated(m.mem),
        separated(m.res),
        m.mem.len() > 0,
        m.mem[0].start() % PAGE_SIZE as int == 0,
        x % MAX_BLOCK_PAGES as int == 0,
        0 <= j < free_runs(m.mem, m.res).len(),
        free_runs(m.mem, m.res)[j].start() <= x * PAGE_SIZE,
        (x + MAX_BLOCK_PAGES) * PAGE_SIZE <= free_runs(m.mem, m.res)[j].end(),
    ensures
        is_free(
            populate_all(fresh(memory_span(m), m.res), free_runs(m.mem, m.res)).at(x),
            MAX_ORDER as nat,
        ),
{
    let managed = memory_span(m);
    let runs = free_runs(m.mem, m.res);
    let (low, high) = (m.mem[0].start(), m.mem.last().end());
    let f = fresh(managed, m.res);
    lemma_span(m);
    free_runs_are_ordered(m.mem, m.res, low, high);
    lemma_fresh(managed, m.res);
    assert forall|q: int| x <= q < x + MAX_BLOCK_PAGES implies !(#[trigger] f.at(q) is Kernel) by {
        assert(low <= runs[j].start() && runs[j].end() <= high);
        assert(f.has(q));
        if kernel_page(m.res, m.res.len() as int, managed, q) {
            let k = choose|k: int|
                0 <= k < m.res.len() && (#[trigger] m.res[k]).meets(managed) && reserves(
                    m.res[k],
                    q,
                );
            let addr = if m.res[k].start() >= q * PAGE_SIZE {
                m.res[k].start()
            } else {
                q * PAGE_SIZE
            };
            assert(m.res[k].has(addr));
            assert(covered(m.res, addr));
            assert(runs[j].has(addr));
            free_runs_are_the_unreserved_memory(m.mem, m.res, addr);
        }
    }
    lemma_populate_all_frees(f, runs, low, high, x);
    assert(runs[j].start() <= x * PAGE_SIZE);
}

/// All memory lies between the start of the first and the end of the last memory.
proof fn lemma_span(m: State)
    requires
        separated(m.mem),
        m.mem.len() > 0,
    ensures
        0 <= m.mem[0].start() <= m.mem.last().end() <= usize::MAX,
        memory_span(m).start() == m.mem[0].start(),
        memory_span(m).end() == m.mem.last().end(),
        bounded(m.mem, m.mem[0].start(), m.mem.last().end()),
{
    let (low, high) = (m.mem[0].start(), m.mem.last().end());
    assert(m.mem[0].fits());
    assert(m.mem.last().fits());
    PhysMemoryRegion::bounds(m.mem[0], m.mem.last());
    PhysMemoryRegion::bounds(m.mem.last(), m.mem.last());
    if m.mem.len() > 1 {
        assert(m.mem[0].end() < m.mem[m.mem.len() - 1].start());
    }
    PhysMemoryRegion::between_bounds(low, high);
    assert forall|i: int| 0 <= i < m.mem.len() implies low <= (#[trigger] m.mem[i]).start()
        && m.mem[i].end() <= high by {
        assert(m.mem[i].fits());
        PhysMemoryRegion::bounds(m.mem[i], m.mem[i]);
        if i > 0 {
            assert(m.mem[0].end() < m.mem[i].start());
        }
        if i < m.mem.len() - 1 {
            assert(m.mem[i].end() < m.mem[m.mem.len() - 1].start());
        }
    }
}

/// The bytes from `a` on are memory, and reserved afterwards.
pub open spec fn set_aside(before: State, after: State, a: int, bytes: int) -> bool {
    forall|addr: int|
        #![trigger covered(before.mem, addr)]
        #![trigger covered(after.res, addr)]
        a <= addr < a + bytes ==> covered(before.mem, addr) && covered(after.res, addr)
}

/// Initialization sets aside memory for the metadata of every page that is managed, and the
/// memory itself stays what it was.
pub proof fn every_page_has_its_metadata<T: AddressTranslator<()>>(
    m: State,
    managed: PhysMemoryRegion,
    pages: int,
)
    requires
        state_wf(m),
        has_metadata::<T>(m, managed),
        pages > 0,
        pages * PAGE_SIZE <= managed.len() < (pages + 1) * PAGE_SIZE,
    ensures
        with_metadata::<T>(m, managed).mem == m.mem,
        exists|a: int|
            a > 0 && a % FRAME_METADATA_ALIGN as int == 0 && #[trigger] set_aside(
                m,
                with_metadata::<T>(m, managed),
                a,
                pages * FRAME_METADATA_SIZE,
            ),
{
    let size = pages * FRAME_METADATA_SIZE;
    let align = FRAME_METADATA_ALIGN as int;
    let after = with_metadata::<T>(m, managed);
    assert(managed.len() / PAGE_SIZE as int == pages);
    let a = alloc_block::<T>(m, size, align).1->Ok_0;
    alloc_overlaps_no_reservation::<T>(m, size, align, a, a);
    assert forall|addr: int|
        #![trigger covered(m.mem, addr)]
        #![trigger covered(after.res, addr)]
        a <= addr < a + size implies covered(m.mem, addr) && covered(after.res, addr) by {
        alloc_overlaps_no_reservation::<T>(m, size, align, a, addr);
    }
    assert(set_aside(m, after, a, size));
    assert(covered(m.mem, a));
}

} // verus!
