//! What holds of the allocator, address by address.
use vstd::prelude::*;

use crate::error::KernelError;
use crate::memory::address::AddressTranslator;
use crate::memory::allocators::smalloc::free_regions::{
    free_runs, free_runs_are_the_unreserved_memory,
};
use crate::memory::allocators::smalloc::lemmas::{
    lemma_after_null, lemma_containing, lemma_containing_index, lemma_ensure_res, lemma_grow_res,
    lemma_lowest_exists, lemma_punch, lemma_slot_not_reserved, punch_uncovers,
};
use crate::memory::allocators::smalloc::list_laws::{lemma_punch_undoes_insert, nonempty};
use crate::memory::allocators::smalloc::model::{
    add_memory, add_reservation, alloc_block, claim, clear, containing, ensure_res, free_block, growth,
    in_range, is_slot, lowest_slot, mem_tight, null_in_range, null_page, res_room, res_tight,
    reserve, slot_in, state_wf, take_slot, State,
};
use crate::memory::allocators::smalloc::region_list::{
    covered, hull, insert_span, insert_span_covers, lemma_insert_span, lemma_skip, separated,
};
use crate::memory::region::PhysMemoryRegion;

verus! {

/// The state in which an allocation takes its block: once there is room for one
/// more reservation, and once the page at address 0 is reserved if it would have
/// been given out.
pub open spec fn before_taking<T: AddressTranslator<()>>(m: State, size: int, align: int) -> State {
    let (m1, r) = take_slot::<T>(m, size, align);
    if r == Ok::<int, KernelError>(0) {
        ensure_res::<T>(m1).0
    } else {
        ensure_res::<T>(m).0
    }
}

/// An allocated block lies in the memory, is aligned, does not start at address 0,
/// and overlaps no reservation; after the allocation it is reserved.
pub proof fn alloc_overlaps_no_reservation<T: AddressTranslator<()>>(
    m: State,
    size: int,
    align: int,
    a: int,
    addr: int,
)
    requires
        state_wf(m),
        size > 0,
        align > 0,
        in_range::<T>(m, align - 1 + size),
        null_in_range(m, align - 1 + size),
        res_room(m),
        alloc_block::<T>(m, size, align).1 == Ok::<int, KernelError>(a),
    ensures
        a % align == 0,
        a != 0,
        ({
            let before = before_taking::<T>(m, size, align);
            let after = alloc_block::<T>(m, size, align).0;
            &&& before.mem == m.mem
            &&& after == reserve(before, PhysMemoryRegion::between(a, a + size))
            &&& a <= addr < a + size ==> {
                &&& covered(m.mem, addr)
                &&& !covered(before.res, addr)
                &&& covered(after.res, addr)
            }
        }),
{
    let g = growth(m);
    let extra = align - 1 + size;
    let slack = g + 7 + extra;
    let before = before_taking::<T>(m, size, align);
    lemma_ensure_res::<T>(m, g, slack, extra);
    if take_slot::<T>(m, size, align).1 == Ok::<int, KernelError>(0) {
        lemma_after_null::<T>(m, size, align);
        let m2 = take_slot::<T>(m, size, align).0;
        if res_tight(m2) && m2.permit {
            lemma_grow_res::<T>(m2, g, slack);
        }
    }
    lemma_lowest_exists(before.mem, before.res, size, align);
    lemma_slot_bounds(before, a, size, align);
    if a <= addr < a + size {
        lemma_slot_not_reserved(before.mem, before.res, a, size, align, addr);
        insert_span_covers(before.res, PhysMemoryRegion::between(a, a + size), addr);
    }
}

/// What an allocation gives out lies in the memory, is aligned, and was not
/// reserved before. After it just this is reserved in addition, with the page at
/// address 0 if that would have been given out. This is for an allocation that
/// does not have to move the reservation list.
pub proof fn alloc_gives_unreserved_memory<T: AddressTranslator<()>>(
    m: State,
    size: int,
    align: int,
    a: int,
    addr: int,
)
    requires
        state_wf(m),
        size > 0,
        align > 0,
        m.res.len() + 2 < m.res_max,
        alloc_block::<T>(m, size, align).1 == Ok::<int, KernelError>(a),
    ensures
        a % align == 0,
        a <= addr < a + size ==> covered(m.mem, addr) && !covered(m.res, addr),
        ({
            let null = take_slot::<T>(m, size, align).1 == Ok::<int, KernelError>(0);
            covered(alloc_block::<T>(m, size, align).0.res, addr) <==> {
                ||| covered(m.res, addr)
                ||| a <= addr < a + size
                ||| null && null_page().has(addr)
            }
        }),
        alloc_block::<T>(m, size, align).0.mem == m.mem,
{
    let first = lowest_slot(m.mem, m.res, size, align).unwrap();
    lemma_lowest_exists(m.mem, m.res, size, align);
    if first == 0 {
        let m1 = reserve(m, null_page());
        lemma_insert_span(m.res, null_page(), -1);
        insert_span_covers(m.res, null_page(), addr);
        lemma_lowest_exists(m1.mem, m1.res, size, align);
        lemma_slot_bounds(m1, a, size, align);
        insert_span_covers(m.res, null_page(), 0);
        if a == 0 {
            lemma_slot_not_reserved(m1.mem, m1.res, 0, size, align, 0);
        }
        insert_span_covers(m1.res, PhysMemoryRegion::between(a, a + size), addr);
        if a <= addr < a + size {
            lemma_slot_not_reserved(m1.mem, m1.res, a, size, align, addr);
        }
    } else {
        lemma_slot_bounds(m, a, size, align);
        insert_span_covers(m.res, PhysMemoryRegion::between(a, a + size), addr);
        if a <= addr < a + size {
            lemma_slot_not_reserved(m.mem, m.res, a, size, align, addr);
        }
    }
}

proof fn lemma_slot_bounds(m: State, a: int, size: int, align: int)
    requires
        state_wf(m),
        size >= 0,
        is_slot(m.mem, m.res, a, size, align),
    ensures
        0 <= a,
        a + size <= usize::MAX,
        a % align == 0,
{
    let i = choose|i: int|
        0 <= i < m.mem.len() && slot_in(#[trigger] m.mem[i], m.res, a, size, align);
    assert(m.mem[i].fits());
}

/// Freeing a region takes just its addresses out of the reservations. This is for
/// a region that does not have to move the reservation list.
pub proof fn free_releases_the_region<T: AddressTranslator<()>>(
    m: State,
    region: PhysMemoryRegion,
    addr: int,
)
    requires
        state_wf(m),
        region.fits(),
        !res_tight(m),
        free_block::<T>(m, region).1 is Ok,
    ensures
        covered(free_block::<T>(m, region).0.res, addr) <==> covered(m.res, addr) && !region.has(
            addr,
        ),
        free_block::<T>(m, region).0.mem == m.mem,
{
    let k = containing(m.res, region).unwrap();
    lemma_containing_index(m.res, region);
    punch_uncovers(m.res, k, region, addr);
}

/// Freeing an allocated block gives back what the allocation took: memory and
/// reservations are the same lists as before, and the same allocation then returns
/// the same address again. Where the block would have been at address 0, the page
/// there stays reserved. This is for calls that do not have to move the reservation
/// list, and for a block that does not touch an empty reservation.
pub proof fn free_undoes_alloc<T: AddressTranslator<()>>(m: State, size: int, align: int, a: int)
    requires
        state_wf(m),
        size > 0,
        align > 0,
        !res_tight(m),
        !res_tight(take_slot::<T>(m, size, align).0),
        !res_tight(alloc_block::<T>(m, size, align).0),
        alloc_block::<T>(m, size, align).1 == Ok::<int, KernelError>(a),
        forall|i: int|
            0 <= i < m.res.len() && (#[trigger] m.res[i]).len() == 0 ==> m.res[i].start() != a
                && m.res[i].start() != a + size,
    ensures
        ({
            let block = PhysMemoryRegion::between(a, a + size);
            let at_null = take_slot::<T>(m, size, align).1 == Ok::<int, KernelError>(0);
            let after = free_block::<T>(alloc_block::<T>(m, size, align).0, block);
            &&& after.1 is Ok
            &&& after.0 == if at_null {
                reserve(m, null_page())
            } else {
                m
            }
            &&& alloc_block::<T>(after.0, size, align) == alloc_block::<T>(m, size, align)
        }),
{
    let block = PhysMemoryRegion::between(a, a + size);
    let at_null = take_slot::<T>(m, size, align).1 == Ok::<int, KernelError>(0);
    let before = if at_null {
        reserve(m, null_page())
    } else {
        m
    };
    if m.res.len() > 0 {
        PhysMemoryRegion::bounds(m.res[0], m.res[0]);
    }
    lemma_insert_span(m.res, null_page(), -1);
    lemma_lowest_exists(before.mem, before.res, size, align);
    lemma_slot_bounds(before, a, size, align);
    PhysMemoryRegion::between_bounds(a, a + size);
    let slot = choose|i: int|
        0 <= i < before.mem.len() && slot_in(#[trigger] before.mem[i], before.res, a, size, align);
    assert(clear(before.res, a, size));
    if at_null {
        insert_span_covers(m.res, null_page(), 0);
        if a == 0 {
            lemma_slot_not_reserved(before.mem, before.res, 0, size, align, 0);
        }
        lemma_insert_empty(m.res, null_page());
    }
    assert forall|i: int| 0 <= i < before.res.len() implies (#[trigger] before.res[i]).end()
        <= block.start() || block.end() <= before.res[i].start() by {
        assert(!(a < before.res[i].end() && before.res[i].start() < a + size));
    }
    let m1 = alloc_block::<T>(m, size, align).0;
    assert(m1.res == insert_span(before.res, block));
    if before.res.len() > 0 {
        PhysMemoryRegion::bounds(before.res[0], before.res[0]);
    }
    lemma_insert_span(before.res, block, -1);
    let k = lemma_punch_undoes_insert(before.res, block);
    lemma_containing(m1.res, block, k);
    assert(free_block::<T>(m1, block).0 =~= before);
}

/// An allocation, then freeing the block, then the same allocation: the block is given
/// out again, and in between both lists are what they were at first. Room for two more
/// reservations is enough, if no memory is at address 0.
pub proof fn alloc_after_free_reuses_the_block<T: AddressTranslator<()>>(
    m: State,
    size: int,
    align: int,
    a: int,
)
    requires
        state_wf(m),
        size > 0,
        align > 0,
        m.res.len() + 2 < m.res_max,
        forall|i: int| 0 <= i < m.mem.len() ==> !(#[trigger] m.mem[i]).has(0),
        nonempty(m.res),
        alloc_block::<T>(m, size, align).1 == Ok::<int, KernelError>(a),
    ensures
        ({
            let block = PhysMemoryRegion::between(a, a + size);
            let after = free_block::<T>(alloc_block::<T>(m, size, align).0, block);
            &&& after.1 is Ok
            &&& after.0.res == m.res
            &&& after.0.mem == m.mem
            &&& alloc_block::<T>(after.0, size, align).1 == Ok::<int, KernelError>(a)
        }),
{
    lemma_lowest_exists(m.mem, m.res, size, align);
    let first = lowest_slot(m.mem, m.res, size, align).unwrap();
    if first == 0 {
        let i = choose|i: int|
            0 <= i < m.mem.len() && slot_in(#[trigger] m.mem[i], m.res, 0, size, align);
        PhysMemoryRegion::bounds(m.mem[i], m.mem[i]);
        assert(m.mem[i].has(0));
    }
    lemma_slot_bounds(m, a, size, align);
    PhysMemoryRegion::between_bounds(a, a + size);
    if m.res.len() > 0 {
        PhysMemoryRegion::bounds(m.res[0], m.res[0]);
    }
    lemma_insert_span(m.res, PhysMemoryRegion::between(a, a + size), -1);
    free_undoes_alloc::<T>(m, size, align, a);
}

/// Putting in a region that is not empty adds no empty one.
proof fn lemma_insert_empty(s: Seq<PhysMemoryRegion>, region: PhysMemoryRegion)
    requires
        separated(s),
        region.fits(),
        region.len() > 0,
    ensures
        forall|j: int|
            0 <= j < insert_span(s, region).len() && (#[trigger] insert_span(s, region)[j]).len()
                == 0 ==> s.contains(insert_span(s, region)[j]),
    decreases s.len(),
{
    let r = insert_span(s, region);
    if s.len() > 0 {
        let t = s.skip(1);
        lemma_skip(s);
        assert(s[0].fits());
        assert forall|i: int| 0 <= i < t.len() implies s.contains(#[trigger] t[i]) by {
            assert(t[i] == s[i + 1]);
        }
        if s[0].end() < region.start() {
            lemma_insert_empty(t, region);
            let u = insert_span(t, region);
            assert forall|j: int| 0 <= j < r.len() && (#[trigger] r[j]).len() == 0 implies s.contains(
                r[j],
            ) by {
                if j > 0 {
                    assert(u[j - 1].len() == 0);
                    assert(t.contains(u[j - 1]));
                } else {
                    assert(r[0] == s[0]);
                }
            }
        } else if region.end() < s[0].start() {
            assert forall|j: int| 0 <= j < r.len() && (#[trigger] r[j]).len() == 0 implies s.contains(
                r[j],
            ) by {
                assert(r[j] == s[j - 1]);
            }
        } else {
            lemma_insert_empty(t, hull(s[0], region));
            let u = insert_span(t, hull(s[0], region));
            assert(r == u);
            assert forall|j: int| 0 <= j < r.len() && (#[trigger] r[j]).len() == 0 implies s.contains(
                r[j],
            ) by {
                assert(t.contains(u[j]));
            }
        }
    }
}

/// Claiming a region takes just its addresses out of the memory, and keeps the
/// reservations. This is for a list of memory regions that does not have to move.
pub proof fn claim_removes_the_region<T: AddressTranslator<()>>(
    m: State,
    region: PhysMemoryRegion,
    addr: int,
)
    requires
        state_wf(m),
        region.fits(),
        !mem_tight(m),
        claim::<T>(m, region).1 is Ok,
    ensures
        covered(claim::<T>(m, region).0.mem, addr) <==> covered(m.mem, addr) && !region.has(addr),
        claim::<T>(m, region).0.res == m.res,
        region.has(addr) ==> !covered(free_runs(claim::<T>(m, region).0.mem, m.res), addr),
{
    let k = containing(m.mem, region).unwrap();
    lemma_containing_index(m.mem, region);
    punch_uncovers(m.mem, k, region, addr);
    lemma_punch(m.mem, k, region);
    free_runs_are_the_unreserved_memory(claim::<T>(m, region).0.mem, m.res, addr);
}

/// Adding memory or a reservation adds just its addresses. This is for lists that
/// do not have to move.
pub proof fn additions_cover_the_region<T: AddressTranslator<()>>(
    m: State,
    region: PhysMemoryRegion,
    addr: int,
)
    requires
        state_wf(m),
        region.fits(),
    ensures
        !mem_tight(m) ==> (covered(add_memory::<T>(m, region).0.mem, addr) <==> covered(
            m.mem,
            addr,
        ) || region.has(addr)),
        !res_tight(m) ==> (covered(add_reservation::<T>(m, region).0.res, addr) <==> covered(
            m.res,
            addr,
        ) || region.has(addr)),
{
    insert_span_covers(m.mem, region, addr);
    insert_span_covers(m.res, region, addr);
}

} // verus!
