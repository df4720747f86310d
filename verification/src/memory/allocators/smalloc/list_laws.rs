//! What holds of the lists of regions as a whole.
use vstd::prelude::*;

use crate::memory::address::AddressTranslator;
use crate::memory::allocators::smalloc::model::{add_memory, punch, state_wf, State};
use crate::memory::allocators::smalloc::region_list::{
    covered, hull, insert_span, insert_span_covers, lemma_covered_skip, lemma_insert_span,
    lemma_skip, separated,
};
use crate::memory::region::PhysMemoryRegion;

verus! {

/// None of the regions is empty.
pub open spec fn nonempty(s: Seq<PhysMemoryRegion>) -> bool {
    forall|i: int| 0 <= i < s.len() ==> (#[trigger] s[i]).len() > 0
}

/// The regions are added to the memory, one after the other.
pub open spec fn add_all<T: AddressTranslator<()>>(m: State, regions: Seq<PhysMemoryRegion>) -> State
    decreases regions.len(),
{
    if regions.len() == 0 {
        m
    } else {
        add_memory::<T>(add_all::<T>(m, regions.drop_last()), regions.last()).0
    }
}

/// The address at which a list starts is the lowest one that it covers, and the one
/// at which its first region ends is not covered.
proof fn lemma_first(s: Seq<PhysMemoryRegion>)
    requires
        separated(s),
        nonempty(s),
        s.len() > 0,
    ensures
        covered(s, s[0].start()),
        !covered(s, s[0].end()),
        forall|addr: int| #[trigger] covered(s, addr) ==> s[0].start() <= addr,
        forall|addr: int| #[trigger]
            covered(s.skip(1), addr) <==> covered(s, addr) && !s[0].has(addr),
{
    assert(s[0].has(s[0].start()));
    assert forall|addr: int| #[trigger] covered(s, addr) implies s[0].start() <= addr && addr
        != s[0].end() by {
        let i = choose|i: int| 0 <= i < s.len() && (#[trigger] s[i]).has(addr);
        if i > 0 {
            assert(s[0].end() < s[i].start());
        }
    }
    assert forall|addr: int| #[trigger]
        covered(s.skip(1), addr) <==> covered(s, addr) && !s[0].has(addr) by {
        lemma_covered_skip(s, addr);
        if covered(s.skip(1), addr) {
            let t = s.skip(1);
            let i = choose|i: int| 0 <= i < t.len() && (#[trigger] t[i]).has(addr);
            assert(s[0].end() < s[i + 1].start());
        }
    }
}

/// Lists that cover the same addresses are the same: there is just one way to write
/// a set of addresses as regions that are in order and do not touch.
pub proof fn covered_addresses_determine_the_list(
    s: Seq<PhysMemoryRegion>,
    t: Seq<PhysMemoryRegion>,
)
    requires
        separated(s),
        separated(t),
        nonempty(s),
        nonempty(t),
        forall|addr: int| #[trigger] covered(s, addr) <==> covered(t, addr),
    ensures
        s == t,
    decreases s.len(),
{
    if s.len() == 0 {
        if t.len() > 0 {
            lemma_first(t);
            assert(!covered(s, t[0].start()));
        }
        assert(s =~= t);
    } else {
        lemma_first(s);
        assert(covered(t, s[0].start()));
        lemma_first(t);
        assert(covered(s, t[0].start()));
        assert(s[0].start() == t[0].start());
        assert(s[0].end() == t[0].end()) by {
            if s[0].end() < t[0].end() {
                assert(t[0].has(s[0].end()));
                assert(!covered(s, s[0].end()));
                assert(covered(t, s[0].end()));
            }
            if t[0].end() < s[0].end() {
                assert(s[0].has(t[0].end()));
                assert(covered(s, t[0].end()));
                assert(!covered(t, t[0].end()));
            }
        }
        PhysMemoryRegion::bounds(s[0], t[0]);
        lemma_skip(s);
        lemma_skip(t);
        assert forall|addr: int| #[trigger] covered(s.skip(1), addr) <==> covered(t.skip(1), addr) by {
            assert(covered(s, addr) <==> covered(t, addr));
        }
        assert(nonempty(s.skip(1)));
        assert(nonempty(t.skip(1)));
        covered_addresses_determine_the_list(s.skip(1), t.skip(1));
        assert(s =~= seq![s[0]] + s.skip(1));
        assert(t =~= seq![t[0]] + t.skip(1));
    }
}

/// Putting in a region that is not empty makes no region empty.
pub(super) proof fn lemma_insert_nonempty(s: Seq<PhysMemoryRegion>, region: PhysMemoryRegion)
    requires
        separated(s),
        nonempty(s),
        region.fits(),
        region.len() > 0,
    ensures
        nonempty(insert_span(s, region)),
    decreases s.len(),
{
    if s.len() > 0 {
        let t = s.skip(1);
        lemma_skip(s);
        assert(nonempty(t));
        assert(s[0].fits());
        if s[0].end() < region.start() {
            lemma_insert_nonempty(t, region);
        } else if region.end() < s[0].start() {
        } else {
            lemma_insert_nonempty(t, hull(s[0], region));
        }
    }
}

/// The addresses of a list are those of its last region, and those of the others.
proof fn lemma_covered_last(s: Seq<PhysMemoryRegion>, addr: int)
    requires
        s.len() > 0,
    ensures
        covered(s, addr) <==> covered(s.drop_last(), addr) || s.last().has(addr),
{
    let t = s.drop_last();
    if covered(t, addr) {
        let i = choose|i: int| 0 <= i < t.len() && (#[trigger] t[i]).has(addr);
        assert(s[i].has(addr));
    }
    if covered(s, addr) && !s.last().has(addr) {
        let i = choose|i: int| 0 <= i < s.len() && (#[trigger] s[i]).has(addr);
        assert(t[i].has(addr));
    }
    if s.last().has(addr) {
        assert(s[s.len() - 1].has(addr));
    }
}

/// Adding regions one after the other, where the list does not have to move: each
/// call succeeds, and just the addresses of the regions become memory.
#[verifier::rlimit(40)]
pub proof fn additions_are_the_union<T: AddressTranslator<()>>(
    m: State,
    regions: Seq<PhysMemoryRegion>,
)
    requires
        state_wf(m),
        nonempty(m.mem),
        nonempty(regions),
        forall|i: int| 0 <= i < regions.len() ==> (#[trigger] regions[i]).fits(),
        m.mem.len() + regions.len() < m.mem_max,
    ensures
        ({
            let after = add_all::<T>(m, regions);
            &&& after == (State { mem: after.mem, ..m })
            &&& state_wf(after)
            &&& nonempty(after.mem)
            &&& after.mem.len() <= m.mem.len() + regions.len()
            &&& forall|addr: int| #[trigger]
                covered(after.mem, addr) <==> covered(m.mem, addr) || covered(regions, addr)
        }),
        forall|i: int|
            0 <= i < regions.len() ==> add_memory::<T>(
                add_all::<T>(m, regions.take(i)),
                #[trigger] regions[i],
            ).1 is Ok,
    decreases regions.len(),
{
    let after = add_all::<T>(m, regions);
    if regions.len() == 0 {
        assert forall|addr: int| !#[trigger] covered(regions, addr) by {}
    } else {
        let front = regions.drop_last();
        let last = regions.last();
        assert forall|i: int| 0 <= i < front.len() implies front[i] == #[trigger] regions[i] by {}
        additions_are_the_union::<T>(m, front);
        let before = add_all::<T>(m, front);
        assert(last == regions[regions.len() - 1]);
        PhysMemoryRegion::bounds(last, last);
        if before.mem.len() > 0 {
            PhysMemoryRegion::bounds(before.mem[0], before.mem[0]);
        }
        lemma_insert_span(before.mem, last, -1);
        lemma_insert_nonempty(before.mem, last);
        assert forall|addr: int| #[trigger]
            covered(after.mem, addr) <==> covered(m.mem, addr) || covered(regions, addr) by {
            insert_span_covers(before.mem, last, addr);
            lemma_covered_last(regions, addr);
            assert(covered(before.mem, addr) <==> covered(m.mem, addr) || covered(front, addr));
        }
        assert forall|i: int| 0 <= i < regions.len() implies add_memory::<T>(
            add_all::<T>(m, regions.take(i)),
            #[trigger] regions[i],
        ).1 is Ok by {
            if i < front.len() {
                assert(front.take(i) =~= regions.take(i));
                assert(front[i] == regions[i]);
            } else {
                assert(regions.take(i) =~= front);
            }
        }
    }
}

/// The memory does not depend on the order in which its regions are added, nor on
/// how often each is.
pub proof fn order_of_additions_does_not_matter<T: AddressTranslator<()>>(
    m: State,
    a: Seq<PhysMemoryRegion>,
    b: Seq<PhysMemoryRegion>,
)
    requires
        state_wf(m),
        nonempty(m.mem),
        nonempty(a),
        forall|i: int| 0 <= i < a.len() ==> (#[trigger] a[i]).fits(),
        forall|r: PhysMemoryRegion| #[trigger] a.contains(r) <==> b.contains(r),
        m.mem.len() + a.len() < m.mem_max,
        m.mem.len() + b.len() < m.mem_max,
    ensures
        add_all::<T>(m, a) == add_all::<T>(m, b),
{
    assert forall|j: int| 0 <= j < b.len() implies (#[trigger] b[j]).fits() && b[j].len() > 0 by {
        assert(b.contains(b[j]));
        assert(a.contains(b[j]));
        let i = choose|i: int| 0 <= i < a.len() && a[i] == b[j];
        assert(a[i].fits());
    }
    additions_are_the_union::<T>(m, a);
    additions_are_the_union::<T>(m, b);
    let s = add_all::<T>(m, a).mem;
    let t = add_all::<T>(m, b).mem;
    assert forall|addr: int| #[trigger] covered(s, addr) <==> covered(t, addr) by {
        assert(covered(t, addr) <==> covered(m.mem, addr) || covered(b, addr));
        if covered(a, addr) {
            let i = choose|i: int| 0 <= i < a.len() && (#[trigger] a[i]).has(addr);
            assert(a.contains(a[i]));
            assert(b.contains(a[i]));
            let j = choose|j: int| 0 <= j < b.len() && b[j] == a[i];
            assert(b[j].has(addr));
        }
        if covered(b, addr) {
            let j = choose|j: int| 0 <= j < b.len() && (#[trigger] b[j]).has(addr);
            assert(b.contains(b[j]));
            assert(a.contains(b[j]));
            let i = choose|i: int| 0 <= i < a.len() && a[i] == b[j];
            assert(a[i].has(addr));
        }
    }
    covered_addresses_determine_the_list(s, t);
}

/// Putting in a block that overlaps no region, and then punching it out again, gives
/// the list back. The result is where the block lies in between.
pub proof fn lemma_punch_undoes_insert(s: Seq<PhysMemoryRegion>, block: PhysMemoryRegion) -> (k: int)
    requires
        separated(s),
        block.fits(),
        block.len() > 0,
        forall|i: int|
            0 <= i < s.len() ==> (#[trigger] s[i]).end() <= block.start() || block.end()
                <= s[i].start(),
        forall|i: int|
            0 <= i < s.len() && (#[trigger] s[i]).len() == 0 ==> s[i].start() != block.start()
                && s[i].start() != block.end(),
    ensures
        0 <= k < insert_span(s, block).len(),
        insert_span(s, block)[k].covers(block),
        punch(insert_span(s, block), k, block) == s,
    decreases s.len(),
{
    let r = insert_span(s, block);
    PhysMemoryRegion::bounds(block, block);
    if s.len() == 0 {
        assert(r.remove(0) =~= s);
        0
    } else {
        let t = s.skip(1);
        lemma_skip(s);
        assert(s[0].fits());
        PhysMemoryRegion::bounds(s[0], s[0]);
        assert(s =~= seq![s[0]] + t);
        assert forall|i: int| 0 <= i < t.len() implies t[i] == s[i + 1] && s[0].end() < (
        #[trigger] t[i]).start() by {}
        if s[0].end() < block.start() {
            let k = lemma_punch_undoes_insert(t, block);
            let u = insert_span(t, block);
            assert(r =~= seq![s[0]] + u);
            lemma_insert_span(t, block, s[0].end());
            lemma_punch_behind(s[0], u, k, block);
            k + 1
        } else if block.end() < s[0].start() {
            assert(r =~= seq![block] + s);
            assert(r.remove(0) =~= s);
            0
        } else if s[0].end() == block.start() && s[0].start() < block.start() {
            let h = hull(s[0], block);
            PhysMemoryRegion::between_bounds(s[0].start(), block.end());
            let left = PhysMemoryRegion::between(h.start(), block.start());
            PhysMemoryRegion::bounds(left, s[0]);
            if t.len() > 0 && t[0].start() == block.end() {
                assert(t[0] == s[1] && s[1].fits());
                assert(s[1].len() > 0);
                let rest = t.skip(1);
                assert(t =~= seq![t[0]] + rest);
                let h2 = hull(t[0], h);
                PhysMemoryRegion::between_bounds(s[0].start(), t[0].end());
                if rest.len() > 0 {
                    assert(rest[0] == s[2]);
                    assert(s[1].end() < s[2].start());
                }
                lemma_insert_front(rest, h2);
                assert(r == insert_span(t, h));
                assert(insert_span(t, h) == insert_span(rest, h2));
                assert(r == seq![h2] + rest);
                assert(r.remove(0) =~= rest);
                lemma_insert_front(rest, left);
                let right = PhysMemoryRegion::between(block.end(), h2.end());
                PhysMemoryRegion::bounds(right, t[0]);
                let s1 = seq![left] + rest;
                assert(s1.skip(1) =~= rest);
                lemma_insert_front(rest, right);
                assert(insert_span(s1, right) == seq![left] + (seq![right] + rest));
                assert(s =~= seq![left] + (seq![right] + rest));
            } else {
                lemma_insert_front(t, h);
                assert(r == seq![h] + t);
                assert(r.remove(0) =~= t);
                lemma_insert_front(t, left);
            }
            0
        } else {
            assert(s[0].start() == block.end() && s[0].len() > 0);
            let h = hull(s[0], block);
            PhysMemoryRegion::between_bounds(block.start(), s[0].end());
            lemma_insert_front(t, h);
            assert(r == seq![h] + t);
            assert(r.remove(0) =~= t);
            let right = PhysMemoryRegion::between(block.end(), h.end());
            PhysMemoryRegion::bounds(right, s[0]);
            lemma_insert_front(t, right);
            0
        }
    }
}

/// A region that ends before the first one goes to the front.
proof fn lemma_insert_front(s: Seq<PhysMemoryRegion>, region: PhysMemoryRegion)
    requires
        s.len() > 0 ==> region.end() < s[0].start(),
    ensures
        insert_span(s, region) == seq![region] + s,
{
    PhysMemoryRegion::bounds(region, region);
    if s.len() > 0 {
        PhysMemoryRegion::bounds(s[0], s[0]);
    } else {
        assert(seq![region] + s =~= seq![region]);
    }
}

/// A region in front of the list does not change how a hole is punched behind it.
proof fn lemma_punch_behind(
    first: PhysMemoryRegion,
    u: Seq<PhysMemoryRegion>,
    k: int,
    hole: PhysMemoryRegion,
)
    requires
        separated(u),
        0 <= k < u.len(),
        u[k].covers(hole),
        first.end() < u[0].start(),
        hole.fits(),
    ensures
        punch(seq![first] + u, k + 1, hole) == seq![first] + punch(u, k, hole),
{
    let v = seq![first] + u;
    let old = u[k];
    assert(old.fits());
    PhysMemoryRegion::bounds(hole, old);
    PhysMemoryRegion::bounds(old, old);
    if k > 0 {
        PhysMemoryRegion::bounds(u[0], u[0]);
        assert(u[0].end() < u[k].start());
    }
    assert(v[k + 1] == old);
    let u0 = u.remove(k);
    assert(v.remove(k + 1) =~= seq![first] + u0);
    assert((seq![first] + u0).skip(1) =~= u0);
    let u1 = if old.start() < hole.start() {
        insert_span(u0, PhysMemoryRegion::between(old.start(), hole.start()))
    } else {
        u0
    };
    assert((seq![first] + u1).skip(1) =~= u1);
}

} // verus!
