//! Where memory is allocated, when requests are refused, and what moving the lists does.
use vstd::prelude::*;

use crate::error::KernelError;
use crate::memory::address::AddressTranslator;
use crate::memory::allocators::smalloc::lemmas::{
    lemma_containing_index, lemma_lowest_exists, lemma_punch, lemma_slot_not_reserved,
    punch_uncovers,
};
use crate::memory::allocators::smalloc::list_laws::{lemma_insert_nonempty, nonempty};
use crate::memory::allocators::smalloc::model::{
    add_memory, add_reservation, alloc_block, claim, containing, ensure_mem, ensure_res,
    free_block, is_slot, list_memory, lowest_slot, mem_tight, null_page, punch, res_tight, reserve,
    slot_in, state_wf, take_slot, State, REGION_ENTRY_ALIGN, REGION_ENTRY_SIZE,
};
use crate::memory::allocators::smalloc::region_list::{
    covered, insert_span, insert_span_covers, lemma_insert_span, separated,
};
use crate::memory::region::PhysMemoryRegion;
use crate::memory::PAGE_SIZE;

verus! {

/// The `size` bytes at `a` are aligned, lie in one memory region, and none of them is
/// reserved.
pub open spec fn usable(m: State, a: int, size: int, align: int) -> bool {
    &&& a % align == 0
    &&& exists|i: int|
        0 <= i < m.mem.len() && (#[trigger] m.mem[i]).start() <= a && a + size <= m.mem[i].end()
    &&& forall|addr: int| a <= addr < a + size ==> !#[trigger] covered(m.res, addr)
}

/// One region of the list covers all of the region.
pub open spec fn in_one(s: Seq<PhysMemoryRegion>, region: PhysMemoryRegion) -> bool {
    exists|i: int|
        0 <= i < s.len() && (#[trigger] s[i]).start() <= region.start() && region.end()
            <= s[i].end()
}

/// What can be used is a slot: where no reservation is empty, none overlaps a place of
/// which no address is reserved.
proof fn lemma_usable(m: State, a: int, size: int, align: int)
    requires
        size > 0,
        nonempty(m.res),
    ensures
        usable(m, a, size, align) <==> is_slot(m.mem, m.res, a, size, align),
{
    if usable(m, a, size, align) {
        let i = choose|i: int|
            0 <= i < m.mem.len() && (#[trigger] m.mem[i]).start() <= a && a + size
                <= m.mem[i].end();
        assert forall|k: int| 0 <= k < m.res.len() implies !(a < (#[trigger] m.res[k]).end()
            && m.res[k].start() < a + size) by {
            if a < m.res[k].end() && m.res[k].start() < a + size {
                assert(m.res[k].len() > 0);
                let addr = if m.res[k].start() <= a {
                    a
                } else {
                    m.res[k].start()
                };
                assert(m.res[k].has(addr));
                assert(covered(m.res, addr));
            }
        }
        assert(slot_in(m.mem[i], m.res, a, size, align));
    }
    if is_slot(m.mem, m.res, a, size, align) {
        let i = choose|i: int|
            0 <= i < m.mem.len() && slot_in(#[trigger] m.mem[i], m.res, a, size, align);
        assert(m.mem[i].start() <= a && a + size <= m.mem[i].end());
        assert forall|addr: int| a <= addr < a + size implies !#[trigger] covered(m.res, addr) by {
            lemma_slot_not_reserved(m.mem, m.res, a, size, align, addr);
        }
    }
}

/// The lowest address at which an allocation is made: the page at address 0 is never given
/// out.
pub open spec fn lowest_allowed(m: State, size: int, align: int) -> int {
    if usable(m, 0, size, align) {
        PAGE_SIZE as int
    } else {
        0
    }
}

/// An allocation takes the lowest place that can be used, but for the page at address 0,
/// and fails just if there is none. This is for an allocation that does not have to move
/// the reservation list.
pub proof fn allocation_takes_the_lowest_place<T: AddressTranslator<()>>(
    m: State,
    size: int,
    align: int,
)
    requires
        state_wf(m),
        nonempty(m.res),
        size > 0,
        align > 0,
        !res_tight(m),
        !res_tight(take_slot::<T>(m, size, align).0),
    ensures
        match alloc_block::<T>(m, size, align).1 {
            Ok(a) => {
                &&& a > 0
                &&& lowest_allowed(m, size, align) <= a
                &&& usable(m, a, size, align)
                &&& forall|b: int|
                    lowest_allowed(m, size, align) <= b < a ==> !#[trigger] usable(
                        m,
                        b,
                        size,
                        align,
                    )
            },
            Err(e) => {
                &&& e == KernelError::NoMemory
                &&& forall|b: int|
                    lowest_allowed(m, size, align) <= b ==> !#[trigger] usable(m, b, size, align)
            },
        },
{
    assert forall|b: int| #[trigger]
        usable(m, b, size, align) <==> is_slot(m.mem, m.res, b, size, align) by {
        lemma_usable(m, b, size, align);
    }
    assert forall|b: int| #[trigger] usable(m, b, size, align) implies b >= 0 by {
        let i = choose|i: int|
            0 <= i < m.mem.len() && (#[trigger] m.mem[i]).start() <= b && b + size
                <= m.mem[i].end();
        PhysMemoryRegion::bounds(m.mem[i], m.mem[i]);
    }
    if lowest_slot(m.mem, m.res, size, align) is Some {
        lemma_lowest_exists(m.mem, m.res, size, align);
        let first = lowest_slot(m.mem, m.res, size, align).unwrap();
        assert(usable(m, first, size, align));
        if usable(m, 0, size, align) {
            assert(is_slot(m.mem, m.res, 0, size, align));
            assert(first == 0);
        }
        if first == 0 {
            let m1 = reserve(m, null_page());
            if m.res.len() > 0 {
                PhysMemoryRegion::bounds(m.res[0], m.res[0]);
            }
            lemma_insert_span(m.res, null_page(), -1);
            assert forall|b: int| #[trigger]
                is_slot(m1.mem, m1.res, b, size, align) implies usable(m, b, size, align) && b
                >= PAGE_SIZE by {
                let i = choose|i: int|
                    0 <= i < m1.mem.len() && slot_in(#[trigger] m1.mem[i], m1.res, b, size, align);
                PhysMemoryRegion::bounds(m.mem[i], m.mem[i]);
                assert(m.mem[i].start() <= b && b + size <= m.mem[i].end());
                assert forall|addr: int| b <= addr < b + size implies !#[trigger] covered(
                    m.res,
                    addr,
                ) by {
                    lemma_slot_not_reserved(m1.mem, m1.res, b, size, align, addr);
                    insert_span_covers(m.res, null_page(), addr);
                }
                lemma_slot_not_reserved(m1.mem, m1.res, b, size, align, b);
                insert_span_covers(m.res, null_page(), b);
            }
            assert forall|b: int| b >= PAGE_SIZE && #[trigger] usable(m, b, size, align) implies is_slot(
                m1.mem,
                m1.res,
                b,
                size,
                align,
            ) by {
                lemma_still_slot(m, b, size, align);
            }
            if lowest_slot(m1.mem, m1.res, size, align) is Some {
                lemma_lowest_exists(m1.mem, m1.res, size, align);
                let second = lowest_slot(m1.mem, m1.res, size, align).unwrap();
                assert(is_slot(m1.mem, m1.res, second, size, align));
                assert forall|b: int| PAGE_SIZE <= b < second implies !#[trigger] usable(
                    m,
                    b,
                    size,
                    align,
                ) by {
                    if usable(m, b, size, align) {
                        assert(is_slot(m1.mem, m1.res, b, size, align));
                    }
                }
            } else {
                assert forall|b: int| PAGE_SIZE <= b implies !#[trigger] usable(
                    m,
                    b,
                    size,
                    align,
                ) by {
                    if usable(m, b, size, align) {
                        assert(is_slot(m1.mem, m1.res, b, size, align));
                    }
                }
            }
        } else {
            assert forall|b: int| 0 <= b < first implies !#[trigger] usable(m, b, size, align) by {
                if usable(m, b, size, align) {
                    assert(is_slot(m.mem, m.res, b, size, align));
                }
            }
        }
    } else {
        assert forall|b: int| !#[trigger] usable(m, b, size, align) by {
            if usable(m, b, size, align) {
                assert(is_slot(m.mem, m.res, b, size, align));
            }
        }
    }
}

/// What can be used and is not in the page at address 0 is still a slot once that page is
/// reserved.
proof fn lemma_still_slot(m: State, b: int, size: int, align: int)
    requires
        state_wf(m),
        nonempty(m.res),
        size > 0,
        b >= PAGE_SIZE,
        usable(m, b, size, align),
    ensures
        is_slot(m.mem, insert_span(m.res, null_page()), b, size, align),
{
    let m1 = reserve(m, null_page());
    lemma_insert_nonempty(m.res, null_page());
    assert(usable(m1, b, size, align)) by {
        let i = choose|i: int|
            0 <= i < m.mem.len() && (#[trigger] m.mem[i]).start() <= b && b + size
                <= m.mem[i].end();
        assert(m1.mem[i].start() <= b && b + size <= m1.mem[i].end());
        assert forall|addr: int| b <= addr < b + size implies !#[trigger] covered(m1.res, addr) by {
            insert_span_covers(m.res, null_page(), addr);
            assert(!covered(m.res, addr));
        }
    }
    lemma_usable(m1, b, size, align);
}

/// Freeing a region is refused, and changes nothing, just if no single reservation covers
/// it. This is for a reservation list that does not have to move.
pub proof fn free_needs_a_reservation<T: AddressTranslator<()>>(m: State, region: PhysMemoryRegion)
    requires
        state_wf(m),
        !res_tight(m),
    ensures
        free_block::<T>(m, region).1 is Ok <==> in_one(m.res, region),
        !in_one(m.res, region) ==> free_block::<T>(m, region) == (
            m,
            Err::<(), KernelError>(KernelError::NoMemRegion),
        ),
{
    if in_one(m.res, region) {
        let i = choose|i: int|
            0 <= i < m.res.len() && (#[trigger] m.res[i]).start() <= region.start() && region.end()
                <= m.res[i].end();
        assert(m.res[i].covers(region));
    }
}

/// Claiming a region is refused, and changes nothing, just if no single memory region
/// covers it. This is for a list of memory regions that does not have to move.
pub proof fn claim_needs_memory<T: AddressTranslator<()>>(m: State, region: PhysMemoryRegion)
    requires
        state_wf(m),
        !mem_tight(m),
    ensures
        claim::<T>(m, region).1 is Ok <==> in_one(m.mem, region),
        !in_one(m.mem, region) ==> claim::<T>(m, region) == (
            m,
            Err::<(), KernelError>(KernelError::InvalidValue),
        ),
{
    if in_one(m.mem, region) {
        let i = choose|i: int|
            0 <= i < m.mem.len() && (#[trigger] m.mem[i]).start() <= region.start() && region.end()
                <= m.mem[i].end();
        assert(m.mem[i].covers(region));
    }
}

/// What is reserved once a list has moved from `old` to `new`: `new` in addition, and
/// `old` no more, if it was one reservation or a part of one.
pub open spec fn reserved_after_move(
    before: Seq<PhysMemoryRegion>,
    after: Seq<PhysMemoryRegion>,
    old: PhysMemoryRegion,
    new: PhysMemoryRegion,
    addr: int,
) -> bool {
    covered(after, addr) <==> new.has(addr) || covered(before, addr) && !(in_one(before, old)
        && old.has(addr))
}

/// The lists move only when they are short of room and may move. The reservation list then
/// has room for twice as many regions, in the lowest place that is large enough; that is
/// reserved, and where the list was is not any more. Nothing else changes. Where it may not
/// move or there is no place for it, the request fails, and nothing changes.
pub proof fn moving_the_reservation_list<T: AddressTranslator<()>>(m: State)
    requires
        state_wf(m),
        nonempty(m.res),
        2 * m.res_max * REGION_ENTRY_SIZE <= usize::MAX,
        m.res_base + m.res_max * REGION_ENTRY_SIZE <= usize::MAX,
        forall|a: int|
            usable(m, a, (2 * m.res_max * REGION_ENTRY_SIZE) as int, REGION_ENTRY_ALIGN as int)
                ==> #[trigger] T::virt_of(a as usize) + 2 * m.res_max * REGION_ENTRY_SIZE
                <= usize::MAX,
    ensures
        ({
            let (after, r) = ensure_res::<T>(m);
            let size = (2 * m.res_max * REGION_ENTRY_SIZE) as int;
            let align = REGION_ENTRY_ALIGN as int;
            if m.res.len() + 1 < m.res_max {
                after == m && r is Ok
            } else {
                match r {
                    Ok(_) => {
                        &&& m.permit
                        &&& after == (State {
                            res: after.res,
                            res_max: 2 * m.res_max,
                            res_base: after.res_base,
                            ..m
                        })
                        &&& exists|a: int|
                            {
                                &&& #[trigger] usable(m, a, size, align)
                                &&& forall|b: int| b < a ==> !#[trigger] usable(m, b, size, align)
                                &&& after.res_base == T::virt_of(a as usize)
                            }
                        &&& forall|addr: int|
                            #![trigger covered(after.res, addr)]
                            reserved_after_move(
                                m.res,
                                after.res,
                                PhysMemoryRegion::between(
                                    m.res_base as int,
                                    m.res_base + m.res_max * REGION_ENTRY_SIZE,
                                ),
                                PhysMemoryRegion::between(
                                    after.res_base as int,
                                    after.res_base + size,
                                ),
                                addr,
                            )
                    },
                    Err(e) => {
                        &&& e == KernelError::NoMemory
                        &&& after == m
                        &&& !m.permit || forall|b: int| !#[trigger] usable(m, b, size, align)
                    },
                }
            }
        }),
{
    let size = (2 * m.res_max * REGION_ENTRY_SIZE) as int;
    let align = REGION_ENTRY_ALIGN as int;
    let (after, r) = ensure_res::<T>(m);
    assert forall|b: int| #[trigger]
        usable(m, b, size, align) <==> is_slot(m.mem, m.res, b, size, align) by {
        lemma_usable(m, b, size, align);
    }
    if res_tight(m) && m.permit {
        match lowest_slot(m.mem, m.res, size, align) {
            Some(a) => {
                lemma_lowest_exists(m.mem, m.res, size, align);
                assert(usable(m, a, size, align));
                assert forall|b: int| b < a implies !#[trigger] usable(m, b, size, align) by {
                    if usable(m, b, size, align) {
                        assert(is_slot(m.mem, m.res, b, size, align));
                    }
                }
                let base = T::virt_of(a as usize);
                let old = list_memory(m.res_base, m.res_max);
                let new = list_memory(base, 2 * m.res_max);
                assert(new == PhysMemoryRegion::between(base as int, base + size));
                lemma_released(m.res, old);
                let res1 = taken_out(m.res, old);
                assert(after.res == insert_span(res1, new));
                assert forall|addr: int|
                    #![trigger covered(after.res, addr)]
                    reserved_after_move(m.res, after.res, old, new, addr) by {
                    insert_span_covers(res1, new, addr);
                    assert(covered(res1, addr) <==> covered(m.res, addr) && !(in_one(m.res, old)
                        && old.has(addr)));
                }
            },
            None => {
                assert forall|b: int| !#[trigger] usable(m, b, size, align) by {
                    if usable(m, b, size, align) {
                        assert(is_slot(m.mem, m.res, b, size, align));
                    }
                }
            },
        }
    }
}

/// The list without the region, if one of its regions covers that.
spec fn taken_out(s: Seq<PhysMemoryRegion>, region: PhysMemoryRegion) -> Seq<PhysMemoryRegion> {
    match containing(s, region) {
        None => s,
        Some(k) => punch(s, k, region),
    }
}

/// What is reserved once a region is taken out of the reservation that covers it.
proof fn lemma_released(res: Seq<PhysMemoryRegion>, old: PhysMemoryRegion)
    requires
        separated(res),
        old.fits(),
    ensures
        separated(taken_out(res, old)),
        forall|addr: int| #[trigger]
            covered(taken_out(res, old), addr) <==> covered(res, addr) && !(in_one(res, old)
                && old.has(addr)),
{
    if in_one(res, old) {
        let i = choose|i: int|
            0 <= i < res.len() && (#[trigger] res[i]).start() <= old.start() && old.end()
                <= res[i].end();
        assert(res[i].covers(old));
        lemma_containing_index(res, old);
        let k = containing(res, old).unwrap();
        lemma_punch(res, k, old);
        let res1 = punch(res, k, old);
        assert forall|addr: int| #[trigger]
            covered(res1, addr) <==> covered(res, addr) && !(in_one(res, old) && old.has(addr)) by {
            punch_uncovers(res, k, old, addr);
        }
    } else {
        if containing(res, old) is Some {
            lemma_containing_index(res, old);
            let k = containing(res, old).unwrap();
            assert(res[k].start() <= old.start() && old.end() <= res[k].end());
        }
    }
}

/// The list of memory regions has room for twice as many regions once it has moved, in the
/// lowest place that is large enough; that is reserved, and where the list was is not any
/// more. Nothing else changes. Where it may not move or there is no place for it, the
/// request fails, and nothing changes. This is for a reservation list that does not have to
/// move as well.
pub proof fn moving_the_memory_list<T: AddressTranslator<()>>(m: State)
    requires
        state_wf(m),
        nonempty(m.res),
        !res_tight(m),
        2 * m.mem_max * REGION_ENTRY_SIZE <= usize::MAX,
        m.mem_base + m.mem_max * REGION_ENTRY_SIZE <= usize::MAX,
        forall|a: int|
            usable(m, a, (2 * m.mem_max * REGION_ENTRY_SIZE) as int, REGION_ENTRY_ALIGN as int)
                ==> #[trigger] T::virt_of(a as usize) + 2 * m.mem_max * REGION_ENTRY_SIZE
                <= usize::MAX,
    ensures
        ({
            let (after, r) = ensure_mem::<T>(m);
            let size = (2 * m.mem_max * REGION_ENTRY_SIZE) as int;
            let align = REGION_ENTRY_ALIGN as int;
            if m.mem.len() + 1 < m.mem_max {
                after == m && r is Ok
            } else {
                match r {
                    Ok(_) => {
                        &&& m.permit
                        &&& after == (State {
                            res: after.res,
                            mem_max: 2 * m.mem_max,
                            mem_base: after.mem_base,
                            ..m
                        })
                        &&& exists|a: int|
                            {
                                &&& #[trigger] usable(m, a, size, align)
                                &&& forall|b: int| b < a ==> !#[trigger] usable(m, b, size, align)
                                &&& after.mem_base == T::virt_of(a as usize)
                            }
                        &&& forall|addr: int|
                            #![trigger covered(after.res, addr)]
                            reserved_after_move(
                                m.res,
                                after.res,
                                PhysMemoryRegion::between(
                                    m.mem_base as int,
                                    m.mem_base + m.mem_max * REGION_ENTRY_SIZE,
                                ),
                                PhysMemoryRegion::between(
                                    after.mem_base as int,
                                    after.mem_base + size,
                                ),
                                addr,
                            )
                    },
                    Err(e) => {
                        &&& e == KernelError::NoMemory
                        &&& after == m
                        &&& !m.permit || forall|b: int| !#[trigger] usable(m, b, size, align)
                    },
                }
            }
        }),
{
    let size = (2 * m.mem_max * REGION_ENTRY_SIZE) as int;
    let align = REGION_ENTRY_ALIGN as int;
    let (after, r) = ensure_mem::<T>(m);
    assert forall|b: int| #[trigger]
        usable(m, b, size, align) <==> is_slot(m.mem, m.res, b, size, align) by {
        lemma_usable(m, b, size, align);
    }
    if mem_tight(m) && m.permit {
        match lowest_slot(m.mem, m.res, size, align) {
            Some(a) => {
                lemma_lowest_exists(m.mem, m.res, size, align);
                assert(usable(m, a, size, align));
                assert forall|b: int| b < a implies !#[trigger] usable(m, b, size, align) by {
                    if usable(m, b, size, align) {
                        assert(is_slot(m.mem, m.res, b, size, align));
                    }
                }
                let base = T::virt_of(a as usize);
                let old = list_memory(m.mem_base, m.mem_max);
                let new = list_memory(base, 2 * m.mem_max);
                assert(new == PhysMemoryRegion::between(base as int, base + size));
                lemma_released(m.res, old);
                let res1 = taken_out(m.res, old);
                assert(after.res == insert_span(res1, new));
                assert forall|addr: int|
                    #![trigger covered(after.res, addr)]
                    reserved_after_move(m.res, after.res, old, new, addr) by {
                    insert_span_covers(res1, new, addr);
                    assert(covered(res1, addr) <==> covered(m.res, addr) && !(in_one(m.res, old)
                        && old.has(addr)));
                }
            },
            None => {
                assert forall|b: int| !#[trigger] usable(m, b, size, align) by {
                    if usable(m, b, size, align) {
                        assert(is_slot(m.mem, m.res, b, size, align));
                    }
                }
            },
        }
    }
}

/// A list that is short of room moves before anything else is done. If it cannot, that is
/// the failure; else what is done is what would have been done had it been there before.
pub proof fn a_short_list_moves_first<T: AddressTranslator<()>>(
    m: State,
    region: PhysMemoryRegion,
    size: int,
    align: int,
)
    ensures
        match ensure_res::<T>(m) {
            (after, Ok(_)) => !res_tight(after) ==> {
                &&& take_slot::<T>(m, size, align) == take_slot::<T>(after, size, align)
                &&& alloc_block::<T>(m, size, align) == alloc_block::<T>(after, size, align)
                &&& add_reservation::<T>(m, region) == add_reservation::<T>(after, region)
                &&& in_one(m.res, region) ==> free_block::<T>(m, region) == free_block::<T>(
                    after,
                    region,
                )
            },
            (after, Err(e)) => {
                &&& after == m
                &&& alloc_block::<T>(m, size, align) == (m, Err::<int, KernelError>(e))
                &&& add_reservation::<T>(m, region) == (m, Err::<(), KernelError>(e))
                &&& in_one(m.res, region) ==> free_block::<T>(m, region) == (
                    m,
                    Err::<(), KernelError>(e),
                )
            },
        },
        !in_one(m.res, region) ==> free_block::<T>(m, region) == (
            m,
            Err::<(), KernelError>(KernelError::NoMemRegion),
        ),
        match ensure_mem::<T>(m) {
            (after, Ok(_)) => !mem_tight(after) && after.mem == m.mem ==> {
                &&& add_memory::<T>(m, region) == add_memory::<T>(after, region)
                &&& claim::<T>(m, region).1 == claim::<T>(after, region).1
                &&& in_one(m.mem, region) ==> claim::<T>(m, region).0 == claim::<T>(
                    after,
                    region,
                ).0
            },
            (after, Err(e)) => {
                &&& after == m
                &&& add_memory::<T>(m, region) == (m, Err::<(), KernelError>(e))
                &&& in_one(m.mem, region) ==> claim::<T>(m, region) == (
                    m,
                    Err::<(), KernelError>(e),
                )
            },
        },
        !in_one(m.mem, region) ==> claim::<T>(m, region) == (
            m,
            Err::<(), KernelError>(KernelError::InvalidValue),
        ),
{
    if in_one(m.res, region) {
        let i = choose|i: int|
            0 <= i < m.res.len() && (#[trigger] m.res[i]).start() <= region.start() && region.end()
                <= m.res[i].end();
        assert(m.res[i].covers(region));
    }
    if in_one(m.mem, region) {
        let i = choose|i: int|
            0 <= i < m.mem.len() && (#[trigger] m.mem[i]).start() <= region.start() && region.end()
                <= m.mem[i].end();
        assert(m.mem[i].covers(region));
    }
}

} // verus!
