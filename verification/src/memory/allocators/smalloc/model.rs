//! What the operations of the allocator do, as functions.
use vstd::prelude::*;

use crate::error::{KernelError, Result};
use crate::memory::address::AddressTranslator;
use crate::memory::allocators::smalloc::region_list::{insert_span, separated};
use crate::memory::region::PhysMemoryRegion;
use crate::memory::PAGE_SIZE;

verus! {

/// The size in bytes of an entry of a region list: a start and a size.
pub const REGION_ENTRY_SIZE: usize = 16;

/// The alignment of an entry of a region list.
pub const REGION_ENTRY_ALIGN: usize = 8;

/// The state of the allocator.
#[verifier::ext_equal]
pub ghost struct State {
    /// The memory regions.
    pub mem: Seq<PhysMemoryRegion>,
    /// The number of memory regions that there is room for.
    pub mem_max: nat,
    /// Where the list of memory regions is kept.
    pub mem_base: usize,
    /// The reserved regions.
    pub res: Seq<PhysMemoryRegion>,
    /// The number of reserved regions that there is room for.
    pub res_max: nat,
    /// Where the list of reserved regions is kept.
    pub res_base: usize,
    /// Whether the lists may be moved to make room.
    pub permit: bool,
}

/// No reservation overlaps the `size` bytes at `a`.
pub open spec fn clear(res: Seq<PhysMemoryRegion>, a: int, size: int) -> bool {
    forall|k: int|
        0 <= k < res.len() ==> !(a < (#[trigger] res[k]).end() && res[k].start() < a + size)
}

/// The `size` bytes at `a` lie in the memory region, are aligned, and are not
/// reserved.
pub open spec fn slot_in(
    m: PhysMemoryRegion,
    res: Seq<PhysMemoryRegion>,
    a: int,
    size: int,
    align: int,
) -> bool {
    &&& m.start() <= a
    &&& a + size <= m.end()
    &&& a % align == 0
    &&& clear(res, a, size)
}

/// The `size` bytes at `a` can be allocated.
pub open spec fn is_slot(
    mem: Seq<PhysMemoryRegion>,
    res: Seq<PhysMemoryRegion>,
    a: int,
    size: int,
    align: int,
) -> bool {
    exists|i: int| 0 <= i < mem.len() && slot_in(#[trigger] mem[i], res, a, size, align)
}

/// `a` is the lowest address at which `size` bytes can be allocated.
pub open spec fn is_lowest_slot(
    mem: Seq<PhysMemoryRegion>,
    res: Seq<PhysMemoryRegion>,
    a: int,
    size: int,
    align: int,
) -> bool {
    &&& is_slot(mem, res, a, size, align)
    &&& forall|b: int| b < a ==> !#[trigger] is_slot(mem, res, b, size, align)
}

/// The lowest address at which `size` bytes can be allocated, if there is any.
pub open spec fn lowest_slot(
    mem: Seq<PhysMemoryRegion>,
    res: Seq<PhysMemoryRegion>,
    size: int,
    align: int,
) -> Option<int> {
    if exists|a: int| #[trigger] is_slot(mem, res, a, size, align) {
        Some(choose|a: int| #[trigger] is_lowest_slot(mem, res, a, size, align))
    } else {
        None
    }
}

/// The index of the region that contains `region`.
pub open spec fn containing(s: Seq<PhysMemoryRegion>, region: PhysMemoryRegion) -> Option<int> {
    if exists|i: int| 0 <= i < s.len() && (#[trigger] s[i]).covers(region) {
        Some(choose|i: int| 0 <= i < s.len() && (#[trigger] s[i]).covers(region))
    } else {
        None
    }
}

/// The list with the region at the index replaced by what is left of it outside
/// `hole`.
pub open spec fn punch(s: Seq<PhysMemoryRegion>, k: int, hole: PhysMemoryRegion) -> Seq<
    PhysMemoryRegion,
> {
    let old = s[k];
    let s0 = s.remove(k);
    let s1 = if old.start() < hole.start() {
        insert_span(s0, PhysMemoryRegion::between(old.start(), hole.start()))
    } else {
        s0
    };
    if hole.end() < old.end() {
        insert_span(s1, PhysMemoryRegion::between(hole.end(), old.end()))
    } else {
        s1
    }
}

/// Reserves a region.
pub open spec fn reserve(m: State, region: PhysMemoryRegion) -> State {
    State { res: insert_span(m.res, region), ..m }
}

/// Takes a region out of the reservation that contains it, if there is one.
pub open spec fn release(m: State, region: PhysMemoryRegion) -> (State, Result<()>) {
    match containing(m.res, region) {
        None => (m, Err(KernelError::NoMemRegion)),
        Some(k) => (State { res: punch(m.res, k, region), ..m }, Ok(())),
    }
}

/// Whether the reservation list might be too small for one more change.
pub open spec fn res_tight(m: State) -> bool {
    m.res.len() >= m.res_max - 1
}

/// Whether the list of memory regions might be too small for one more change.
pub open spec fn mem_tight(m: State) -> bool {
    m.mem.len() >= m.mem_max - 1
}

/// The memory of a list with room for `max` regions at `base`.
pub open spec fn list_memory(base: usize, max: nat) -> PhysMemoryRegion {
    PhysMemoryRegion::between(base as int, base + max * REGION_ENTRY_SIZE)
}

/// Moves the reservation list to new memory, with room for twice as many regions:
/// the new memory is reserved, and the old memory is not any more.
pub open spec fn grow_res<T: AddressTranslator<()>>(m: State) -> (State, Result<()>) {
    let max = 2 * m.res_max;
    let slot = lowest_slot(
        m.mem,
        m.res,
        (max * REGION_ENTRY_SIZE) as int,
        REGION_ENTRY_ALIGN as int,
    );
    if !m.permit || slot is None {
        (m, Err(KernelError::NoMemory))
    } else {
        let base = T::virt_of(slot.unwrap() as usize);
        let m1 = State { res_max: max, res_base: base, ..m };
        let (m2, _) = release(m1, list_memory(m.res_base, m.res_max));
        (reserve(m2, list_memory(base, max)), Ok(()))
    }
}

/// Makes sure that there is room for one more change of the reservations.
pub open spec fn ensure_res<T: AddressTranslator<()>>(m: State) -> (State, Result<()>) {
    if res_tight(m) {
        grow_res::<T>(m)
    } else {
        (m, Ok(()))
    }
}

/// Frees a region.
pub open spec fn free_block<T: AddressTranslator<()>>(m: State, region: PhysMemoryRegion) -> (
    State,
    Result<()>,
) {
    match containing(m.res, region) {
        None => (m, Err(KernelError::NoMemRegion)),
        Some(_) => {
            let (m1, r) = ensure_res::<T>(m);
            match r {
                Err(e) => (m1, Err(e)),
                Ok(_) => release(m1, region),
            }
        },
    }
}

/// Moves the list of memory regions to new memory, with room for twice as many
/// regions: the new memory is reserved, and the old memory is freed.
pub open spec fn grow_mem<T: AddressTranslator<()>>(m: State) -> (State, Result<()>) {
    let max = 2 * m.mem_max;
    let slot = lowest_slot(
        m.mem,
        m.res,
        (max * REGION_ENTRY_SIZE) as int,
        REGION_ENTRY_ALIGN as int,
    );
    if !m.permit || slot is None {
        (m, Err(KernelError::NoMemory))
    } else {
        let base = T::virt_of(slot.unwrap() as usize);
        let m1 = State { mem_max: max, mem_base: base, ..m };
        let (m2, _) = free_block::<T>(m1, list_memory(m.mem_base, m.mem_max));
        (reserve(m2, list_memory(base, max)), Ok(()))
    }
}

/// Makes sure that there is room for one more change of the memory regions.
pub open spec fn ensure_mem<T: AddressTranslator<()>>(m: State) -> (State, Result<()>) {
    if mem_tight(m) {
        grow_mem::<T>(m)
    } else {
        (m, Ok(()))
    }
}

/// The page at address 0.
pub open spec fn null_page() -> PhysMemoryRegion {
    PhysMemoryRegion::between(0, PAGE_SIZE as int)
}

/// Takes the lowest slot, once there is room for one more reservation. The result
/// is its address.
pub open spec fn take_slot<T: AddressTranslator<()>>(m: State, size: int, align: int) -> (
    State,
    Result<int>,
) {
    let (m1, r) = ensure_res::<T>(m);
    match r {
        Err(e) => (m1, Err(e)),
        Ok(_) => match lowest_slot(m1.mem, m1.res, size, align) {
            None => (m1, Err(KernelError::NoMemory)),
            Some(a) => (
                reserve(
                    m1,
                    if a == 0 {
                        null_page()
                    } else {
                        PhysMemoryRegion::between(a, a + size)
                    },
                ),
                Ok(a),
            ),
        },
    }
}

/// Allocates memory. Address 0 is never given out: where it would be, the page at
/// address 0 is reserved first.
pub open spec fn alloc_block<T: AddressTranslator<()>>(m: State, size: int, align: int) -> (
    State,
    Result<int>,
) {
    let (m1, r) = take_slot::<T>(m, size, align);
    if r == Ok::<int, KernelError>(0) {
        take_slot::<T>(m1, size, align)
    } else {
        (m1, r)
    }
}

/// Reserves a region, once there is room for one more reservation.
pub open spec fn add_reservation<T: AddressTranslator<()>>(
    m: State,
    region: PhysMemoryRegion,
) -> (State, Result<()>) {
    let (m1, r) = ensure_res::<T>(m);
    match r {
        Err(e) => (m1, Err(e)),
        Ok(_) => (reserve(m1, region), Ok(())),
    }
}

/// Adds a memory region, once there is room for one more.
pub open spec fn add_memory<T: AddressTranslator<()>>(m: State, region: PhysMemoryRegion) -> (
    State,
    Result<()>,
) {
    let (m1, r) = ensure_mem::<T>(m);
    match r {
        Err(e) => (m1, Err(e)),
        Ok(_) => (State { mem: insert_span(m1.mem, region), ..m1 }, Ok(())),
    }
}

/// Takes a region, which has to lie in one memory region, out of the memory.
pub open spec fn claim<T: AddressTranslator<()>>(m: State, region: PhysMemoryRegion) -> (
    State,
    Result<()>,
) {
    match containing(m.mem, region) {
        None => (m, Err(KernelError::InvalidValue)),
        Some(k) => {
            let (m1, r) = ensure_mem::<T>(m);
            match r {
                Err(e) => (m1, Err(e)),
                Ok(_) => (State { mem: punch(m1.mem, k, region), ..m1 }, Ok(())),
            }
        },
    }
}

/// The regions end at least `slack` bytes below the last address.
pub open spec fn ends_below(s: Seq<PhysMemoryRegion>, slack: int) -> bool {
    forall|i: int| 0 <= i < s.len() ==> (#[trigger] s[i]).end() + slack <= usize::MAX
}

/// The lists can be moved without leaving the address space: neither they nor
/// their new memory is larger than `g` bytes, all memory can be accessed, and all
/// regions, with those that become reserved, end at least `slack` bytes below the
/// last address.
pub open spec fn movable<T: AddressTranslator<()>>(m: State, g: int, slack: int) -> bool {
    &&& g + 7 <= slack
    &&& 2 * m.mem_max * REGION_ENTRY_SIZE <= g
    &&& 2 * m.res_max * REGION_ENTRY_SIZE <= g
    &&& m.mem_base + g <= usize::MAX
    &&& m.res_base + g <= usize::MAX
    &&& ends_below(m.mem, slack)
    &&& ends_below(m.res, slack)
    &&& forall|i: int, a: int|
        0 <= i < m.mem.len() && (#[trigger] m.mem[i]).has(a) ==> #[trigger] T::maps_phys(a as usize)
            && T::virt_of(a as usize) + g + slack <= usize::MAX
}

/// The largest memory of a list that an allocation can lead to.
pub open spec fn growth(m: State) -> int {
    4 * (m.mem_max + m.res_max) * REGION_ENTRY_SIZE
}

/// All addresses that operations on up to `extra` bytes lead to are machine words.
pub open spec fn in_range<T: AddressTranslator<()>>(m: State, extra: int) -> bool {
    &&& ends_below(m.mem, extra)
    &&& ends_below(m.res, extra)
    &&& m.permit ==> m.res_base != 0 && movable::<T>(m, growth(m), growth(m) + 7 + extra)
}

/// If there is memory at address 0, whose page gets reserved when it would be given
/// out, the addresses that this leads to are machine words.
pub open spec fn null_in_range(m: State, extra: int) -> bool {
    (exists|i: int| 0 <= i < m.mem.len() && (#[trigger] m.mem[i]).start() == 0) ==> PAGE_SIZE
        + extra + (if m.permit {
        growth(m) + 7
    } else {
        0
    }) <= usize::MAX
}

/// If the reservation list has to be moved, it is long enough for that.
pub open spec fn res_room(m: State) -> bool {
    res_tight(m) && m.permit ==> m.res.len() + 2 < 2 * m.res_max
}

/// If the list of memory regions has to be moved, there is room for the
/// reservations that this takes.
pub open spec fn mem_room(m: State) -> bool {
    mem_tight(m) && m.permit ==> m.res.len() < m.res_max && (res_tight(m) ==> m.res.len() + 3 < 2
        * m.res_max)
}

/// The lists are well-formed.
pub open spec fn state_wf(m: State) -> bool {
    &&& separated(m.mem)
    &&& separated(m.res)
    &&& m.mem.len() <= m.mem_max
    &&& m.res.len() <= m.res_max
    &&& 0 < m.mem_max <= usize::MAX
    &&& 0 < m.res_max <= usize::MAX
}

} // verus!
