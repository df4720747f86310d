//! Facts about the model of the allocator.
use vstd::prelude::*;

use crate::error::KernelError;
use crate::memory::address::AddressTranslator;
use crate::memory::allocators::smalloc::model::{
    containing, ends_below, ensure_res, free_block, grow_res, growth, in_range, is_lowest_slot,
    is_slot, list_memory, lowest_slot, movable, null_in_range, null_page, punch, release, res_room,
    res_tight, reserve, slot_in, state_wf, take_slot, State, REGION_ENTRY_ALIGN, REGION_ENTRY_SIZE,
};
use crate::memory::allocators::smalloc::region_list::{
    covered, hull, insert_span, insert_span_covers, lemma_insert_span, lemma_remove, lemma_skip,
    separated,
};
use crate::memory::region::PhysMemoryRegion;

verus! {

/// The lowest slot is the only lowest slot.
pub proof fn lemma_lowest(
    mem: Seq<PhysMemoryRegion>,
    res: Seq<PhysMemoryRegion>,
    a: int,
    size: int,
    align: int,
)
    requires
        is_lowest_slot(mem, res, a, size, align),
    ensures
        lowest_slot(mem, res, size, align) == Some(a),
{
    let b = choose|b: int| #[trigger] is_lowest_slot(mem, res, b, size, align);
    assert(is_slot(mem, res, b, size, align));
    assert(is_slot(mem, res, a, size, align));
}

/// A region of a separated list that contains `region` is the only one.
pub proof fn lemma_containing(s: Seq<PhysMemoryRegion>, region: PhysMemoryRegion, k: int)
    requires
        separated(s),
        0 <= k < s.len(),
        s[k].covers(region),
    ensures
        containing(s, region) == Some(k),
{
    let i = choose|i: int| 0 <= i < s.len() && (#[trigger] s[i]).covers(region);
    assert(s[k].covers(region));
    if i < k {
        assert(s[i].end() < s[k].start());
    } else if k < i {
        assert(s[k].end() < s[i].start());
    }
}

/// Punching a hole keeps the regions apart, and makes the list at most one longer.
pub proof fn lemma_punch(s: Seq<PhysMemoryRegion>, k: int, hole: PhysMemoryRegion)
    requires
        separated(s),
        0 <= k < s.len(),
        s[k].covers(hole),
    ensures
        separated(punch(s, k, hole)),
        punch(s, k, hole).len() <= s.len() + 1,
{
    lemma_remove(s, k);
    let old = s[k];
    assert(old.fits());
    let s0 = s.remove(k);
    let left = PhysMemoryRegion::between(old.start(), hole.start());
    let right = PhysMemoryRegion::between(hole.end(), old.end());
    if old.start() < hole.start() {
        lemma_insert_span(s0, left, -1);
        if hole.end() < old.end() {
            lemma_insert_span(insert_span(s0, left), right, -1);
        }
    } else if hole.end() < old.end() {
        lemma_insert_span(s0, right, -1);
    }
}

/// What a list without one of its regions covers.
pub proof fn lemma_remove_covers(s: Seq<PhysMemoryRegion>, k: int, addr: int)
    requires
        separated(s),
        0 <= k < s.len(),
    ensures
        covered(s.remove(k), addr) <==> covered(s, addr) && !s[k].has(addr),
{
    let t = s.remove(k);
    if covered(t, addr) {
        let j = choose|j: int| 0 <= j < t.len() && (#[trigger] t[j]).has(addr);
        let i = if j < k {
            j
        } else {
            j + 1
        };
        assert(s[i].has(addr));
        if i < k {
            assert(s[i].end() < s[k].start());
        } else {
            assert(s[k].end() < s[i].start());
        }
    }
    if covered(s, addr) && !s[k].has(addr) {
        let i = choose|i: int| 0 <= i < s.len() && (#[trigger] s[i]).has(addr);
        let j = if i < k {
            i
        } else {
            i - 1
        };
        assert(t[j].has(addr));
    }
}

/// Punching a hole takes out just its addresses.
pub proof fn punch_uncovers(s: Seq<PhysMemoryRegion>, k: int, hole: PhysMemoryRegion, addr: int)
    requires
        separated(s),
        0 <= k < s.len(),
        s[k].covers(hole),
    ensures
        covered(punch(s, k, hole), addr) <==> covered(s, addr) && !hole.has(addr),
{
    lemma_remove(s, k);
    lemma_remove_covers(s, k, addr);
    let old = s[k];
    assert(old.fits());
    let s0 = s.remove(k);
    let left = PhysMemoryRegion::between(old.start(), hole.start());
    let right = PhysMemoryRegion::between(hole.end(), old.end());
    if old.start() < hole.start() {
        insert_span_covers(s0, left, addr);
        lemma_insert_span(s0, left, -1);
        if hole.end() < old.end() {
            insert_span_covers(insert_span(s0, left), right, addr);
        }
    } else if hole.end() < old.end() {
        insert_span_covers(s0, right, addr);
    }
    if old.has(addr) {
        assert(s[k].has(addr));
    }
}

/// Putting in a region leaves room below the last address.
pub proof fn lemma_insert_below(s: Seq<PhysMemoryRegion>, region: PhysMemoryRegion, slack: int)
    requires
        separated(s),
        region.fits(),
        ends_below(s, slack),
        region.end() + slack <= usize::MAX,
    ensures
        ends_below(insert_span(s, region), slack),
    decreases s.len(),
{
    let r = insert_span(s, region);
    if s.len() > 0 {
        let t = s.skip(1);
        lemma_skip(s);
        assert(s[0].fits());
        assert(s[0].end() + slack <= usize::MAX);
        assert forall|i: int| 0 <= i < t.len() implies (#[trigger] t[i]).end() + slack
            <= usize::MAX by {
            assert(t[i] == s[i + 1]);
        }
        if s[0].end() < region.start() {
            lemma_insert_below(t, region, slack);
            let u = insert_span(t, region);
            assert forall|i: int| 0 <= i < r.len() implies (#[trigger] r[i]).end() + slack
                <= usize::MAX by {
                if i > 0 {
                    assert(r[i] == u[i - 1]);
                }
            }
        } else if region.end() < s[0].start() {
            assert forall|i: int| 0 <= i < r.len() implies (#[trigger] r[i]).end() + slack
                <= usize::MAX by {
                if i > 0 {
                    assert(r[i] == s[i - 1]);
                }
            }
        } else {
            lemma_insert_below(t, hull(s[0], region), slack);
        }
    }
}

/// Punching a hole leaves room below the last address.
pub proof fn lemma_punch_below(
    s: Seq<PhysMemoryRegion>,
    k: int,
    hole: PhysMemoryRegion,
    slack: int,
)
    requires
        separated(s),
        0 <= k < s.len(),
        s[k].covers(hole),
        ends_below(s, slack),
    ensures
        ends_below(punch(s, k, hole), slack),
{
    lemma_remove(s, k);
    let old = s[k];
    assert(old.fits());
    assert(old.end() + slack <= usize::MAX);
    let s0 = s.remove(k);
    assert forall|i: int| 0 <= i < s0.len() implies (#[trigger] s0[i]).end() + slack
        <= usize::MAX by {
        let i2 = if i < k {
            i
        } else {
            i + 1
        };
        assert(s0[i] == s[i2]);
    }
    let left = PhysMemoryRegion::between(old.start(), hole.start());
    let right = PhysMemoryRegion::between(hole.end(), old.end());
    if old.start() < hole.start() {
        lemma_insert_below(s0, left, slack);
        lemma_insert_span(s0, left, -1);
        if hole.end() < old.end() {
            lemma_insert_below(insert_span(s0, left), right, slack);
        }
    } else if hole.end() < old.end() {
        lemma_insert_below(s0, right, slack);
    }
}

/// A slot of at least one byte covers no reserved address; where address 0 is
/// reserved, it is no slot.
pub proof fn lemma_slot_not_reserved(
    mem: Seq<PhysMemoryRegion>,
    res: Seq<PhysMemoryRegion>,
    a: int,
    size: int,
    align: int,
    addr: int,
)
    requires
        is_slot(mem, res, a, size, align),
        a <= addr < a + size,
    ensures
        !covered(res, addr),
        covered(mem, addr),
{
    let i = choose|i: int| 0 <= i < mem.len() && slot_in(#[trigger] mem[i], res, a, size, align);
    assert(mem[i].has(addr));
    if covered(res, addr) {
        let k = choose|k: int| 0 <= k < res.len() && (#[trigger] res[k]).has(addr);
        assert(!(a < res[k].end() && res[k].start() < a + size));
    }
}

/// What moving the reservation list keeps.
pub proof fn lemma_grow_res<T: AddressTranslator<()>>(m: State, g: int, slack: int)
    requires
        state_wf(m),
        m.permit,
        movable::<T>(m, g, slack),
        m.res.len() + 2 < 2 * m.res_max,
    ensures
        ({
            let (m1, r) = grow_res::<T>(m);
            &&& state_wf(m1)
            &&& m1.mem == m.mem
            &&& m1.mem_max == m.mem_max
            &&& m1.mem_base == m.mem_base
            &&& m1.permit
            &&& ends_below(m1.res, slack)
            &&& r is Err ==> m1 == m
            &&& r is Ok ==> {
                &&& m1.res_max == 2 * m.res_max
                &&& m1.res.len() <= m.res.len() + 2
                &&& m1.res.len() < m1.res_max
                &&& m1.res_base + g <= usize::MAX
                &&& m1.res_base == 0 ==> covered(m1.res, 0)
                &&& covered(m.res, 0) && m.res_base != 0 ==> covered(m1.res, 0)
            }
        }),
{
    let max = 2 * m.res_max;
    let size = (max * REGION_ENTRY_SIZE) as int;
    let align = REGION_ENTRY_ALIGN as int;
    let slot = lowest_slot(m.mem, m.res, size, align);
    if slot is Some {
        let a = slot.unwrap();
        lemma_lowest_exists(m.mem, m.res, size, align);
        lemma_slot_in_memory::<T>(m, g, slack, a, size, align);
        let base = T::virt_of(a as usize);
        let old_memory = list_memory(m.res_base, m.res_max);
        let m1 = State { res_max: max, res_base: base, ..m };
        let (m2, r2) = release(m1, old_memory);
        if let Some(k) = containing(m.res, old_memory) {
            lemma_containing_index(m.res, old_memory);
            lemma_punch(m.res, k, old_memory);
            lemma_punch_below(m.res, k, old_memory, slack);
            punch_uncovers(m.res, k, old_memory, 0);
        }
        let new_memory = list_memory(base, max);
        lemma_insert_span(m2.res, new_memory, -1);
        lemma_insert_below(m2.res, new_memory, slack);
        insert_span_covers(m2.res, new_memory, 0);
    }
}

/// Where there is a slot, the lowest slot is one.
pub proof fn lemma_lowest_exists(
    mem: Seq<PhysMemoryRegion>,
    res: Seq<PhysMemoryRegion>,
    size: int,
    align: int,
)
    requires
        lowest_slot(mem, res, size, align) is Some,
        size >= 0,
    ensures
        is_lowest_slot(mem, res, lowest_slot(mem, res, size, align).unwrap(), size, align),
{
    let a = choose|a: int| #[trigger] is_slot(mem, res, a, size, align);
    lemma_least(mem, res, size, align, a);
}

/// Below a slot there is a lowest slot.
proof fn lemma_least(
    mem: Seq<PhysMemoryRegion>,
    res: Seq<PhysMemoryRegion>,
    size: int,
    align: int,
    a: int,
)
    requires
        is_slot(mem, res, a, size, align),
    ensures
        exists|b: int| #[trigger] is_lowest_slot(mem, res, b, size, align),
    decreases a,
{
    let i = choose|i: int| 0 <= i < mem.len() && slot_in(#[trigger] mem[i], res, a, size, align);
    assert(mem[i].start() >= 0);
    if exists|b: int| b < a && #[trigger] is_slot(mem, res, b, size, align) {
        let b = choose|b: int| b < a && #[trigger] is_slot(mem, res, b, size, align);
        let j = choose|j: int|
            0 <= j < mem.len() && slot_in(#[trigger] mem[j], res, b, size, align);
        assert(mem[j].start() >= 0);
        lemma_least(mem, res, size, align, b);
    } else {
        assert(is_lowest_slot(mem, res, a, size, align));
    }
}

/// A slot lies in accessible memory.
pub proof fn lemma_slot_in_memory<T: AddressTranslator<()>>(
    m: State,
    g: int,
    slack: int,
    a: int,
    size: int,
    align: int,
)
    requires
        movable::<T>(m, g, slack),
        is_slot(m.mem, m.res, a, size, align),
        size > 0,
    ensures
        0 <= a <= usize::MAX,
        T::maps_phys(a as usize),
        T::virt_of(a as usize) + g + slack <= usize::MAX,
{
    let i = choose|i: int|
        0 <= i < m.mem.len() && slot_in(#[trigger] m.mem[i], m.res, a, size, align);
    assert(m.mem[i].end() + slack <= usize::MAX);
    assert(m.mem[i].has(a));
    assert(T::maps_phys(a as usize));
}

/// The index of the region that contains `region`.
pub proof fn lemma_containing_index(s: Seq<PhysMemoryRegion>, region: PhysMemoryRegion)
    requires
        containing(s, region) is Some,
    ensures
        0 <= containing(s, region).unwrap() < s.len(),
        s[containing(s, region).unwrap()].covers(region),
{
}

/// A slot at address 0 is the lowest slot.
pub proof fn lemma_slot_zero(m: State, size: int, align: int)
    requires
        lowest_slot(m.mem, m.res, size, align) == Some(0int),
        size >= 0,
    ensures
        is_slot(m.mem, m.res, 0, size, align),
        exists|i: int| 0 <= i < m.mem.len() && (#[trigger] m.mem[i]).start() == 0,
{
    lemma_lowest_exists(m.mem, m.res, size, align);
    let i = choose|i: int| 0 <= i < m.mem.len() && slot_in(#[trigger] m.mem[i], m.res, 0, size, align);
    assert(m.mem[i].start() == 0);
}

/// The state once there is room for one more reservation.
pub proof fn lemma_ensure_res<T: AddressTranslator<()>>(m: State, g: int, slack: int, extra: int)
    requires
        state_wf(m),
        extra >= 0,
        ends_below(m.mem, extra),
        ends_below(m.res, extra),
        slack >= extra,
        m.permit ==> movable::<T>(m, g, slack) && 4 * m.res_max * REGION_ENTRY_SIZE <= g,
        res_room(m),
    ensures
        ({
            let (m1, r) = ensure_res::<T>(m);
            &&& state_wf(m1)
            &&& m1.mem == m.mem
            &&& m1.permit == m.permit
            &&& ends_below(m1.res, extra)
            &&& m.permit ==> movable::<T>(m1, g, slack)
            &&& r is Ok ==> {
                &&& m1.res.len() < m1.res_max
                &&& m1.res.len() + 3 < 2 * m1.res_max
                &&& m.res_base != 0 && m1.res_base == 0 ==> covered(m1.res, 0)
                &&& covered(m.res, 0) && m.res_base != 0 ==> covered(m1.res, 0)
            }
        }),
{
    if res_tight(m) && m.permit {
        lemma_grow_res::<T>(m, g, slack);
        let m1 = grow_res::<T>(m).0;
        assert forall|i: int| 0 <= i < m1.res.len() implies (#[trigger] m1.res[i]).end() + extra
            <= usize::MAX by {
            assert(m1.res[i].end() + slack <= usize::MAX);
        }
    }
}

/// Where address 0 would have been given out, its page is reserved, and a second
/// try, for which there is room, does not end at address 0.
pub proof fn lemma_after_null<T: AddressTranslator<()>>(m: State, size: int, align: int)
    requires
        state_wf(m),
        size >= 0,
        align >= 1,
        size == 0 ==> forall|i: int| 0 <= i < m.mem.len() ==> (#[trigger] m.mem[i]).start() > 0,
        in_range::<T>(m, align - 1 + size),
        null_in_range(m, align - 1 + size),
        res_room(m),
        take_slot::<T>(m, size, align).1 == Ok::<int, KernelError>(0),
    ensures
        ({
            let m2 = take_slot::<T>(m, size, align).0;
            let g = growth(m);
            let slack = g + 7 + align - 1 + size;
            &&& state_wf(m2)
            &&& res_room(m2)
            &&& ends_below(m2.mem, align - 1 + size)
            &&& ends_below(m2.res, align - 1 + size)
            &&& m2.permit ==> movable::<T>(m2, g, slack)
            &&& take_slot::<T>(m2, size, align).1 != Ok::<int, KernelError>(0)
        }),
{
    let g = growth(m);
    let extra = align - 1 + size;
    let slack = g + 7 + extra;
    lemma_ensure_res::<T>(m, g, slack, extra);
    let m1 = ensure_res::<T>(m).0;
    lemma_slot_zero(m1, size, align);
    assert(size > 0);
    if covered(m1.res, 0) {
        lemma_slot_not_reserved(m1.mem, m1.res, 0, size, align, 0);
    }
    let m2 = reserve(m1, null_page());
    insert_span_covers(m1.res, null_page(), 0);
    lemma_insert_span(m1.res, null_page(), -1);
    lemma_insert_below(m1.res, null_page(), extra);
    if m.permit {
        assert(m1.res_base != 0);
        lemma_insert_below(m1.res, null_page(), slack);
        assert(movable::<T>(m2, g, slack));
    }
    assert(res_room(m2));
    let m3 = ensure_res::<T>(m2).0;
    if res_tight(m2) && m2.permit {
        lemma_grow_res::<T>(m2, g, slack);
    }
    if take_slot::<T>(m2, size, align).1 == Ok::<int, KernelError>(0) {
        assert(covered(m3.res, 0));
        lemma_slot_zero(m3, size, align);
        lemma_slot_not_reserved(m3.mem, m3.res, 0, size, align, 0);
    }
}

/// What moving the list of memory regions to `base` takes: it can be done, and there
/// is room for the reservation of the new memory once the old memory is freed.
pub proof fn lemma_grow_mem<T: AddressTranslator<()>>(m: State, base: usize)
    requires
        state_wf(m),
        movable::<T>(m, growth(m), growth(m) + 7),
        base + growth(m) <= usize::MAX,
        m.res.len() < m.res_max,
        res_tight(m) ==> m.res.len() + 3 < 2 * m.res_max,
    ensures
        ({
            let m1 = State { mem_max: 2 * m.mem_max, mem_base: base, ..m };
            let m2 = free_block::<T>(m1, list_memory(m.mem_base, m.mem_max)).0;
            &&& movable::<T>(m1, growth(m), growth(m) + 7)
            &&& res_room(m1)
            &&& m2.mem == m.mem
            &&& m2.res.len() < m2.res_max
        }),
{
    let g = growth(m);
    let slack = g + 7;
    let m1 = State { mem_max: 2 * m.mem_max, mem_base: base, ..m };
    let old_memory = list_memory(m.mem_base, m.mem_max);
    assert(movable::<T>(m1, g, slack)) by {
        assert(m1.mem == m.mem);
        assert(m1.res == m.res);
    }
    if m.permit && res_tight(m1) {
        lemma_grow_res::<T>(m1, g, slack);
    }
    let m2 = ensure_res::<T>(m1).0;
    if let Some(k) = containing(m2.res, old_memory) {
        lemma_containing_index(m2.res, old_memory);
        lemma_punch(m2.res, k, old_memory);
    }
}

} // verus!
