//! The order of the free regions.
use vstd::prelude::*;

use crate::memory::allocators::smalloc::free_regions::{free_prefix, free_runs, subtract};
use crate::memory::allocators::smalloc::region_list::{lemma_skip, separated};
use crate::memory::region::PhysMemoryRegion;

verus! {

/// Each region ends before the next ones start.
pub open spec fn ordered(s: Seq<PhysMemoryRegion>) -> bool {
    forall|i: int, j: int| 0 <= i < j < s.len() ==> (#[trigger] s[i]).end() <= (#[trigger] s[j]).start()
}

/// The regions lie between the two addresses.
pub open spec fn bounded(s: Seq<PhysMemoryRegion>, low: int, high: int) -> bool {
    forall|i: int| 0 <= i < s.len() ==> low <= (#[trigger] s[i]).start() && s[i].end() <= high
}

/// Two ordered lists of which the first lies below the second.
proof fn lemma_ordered_add(
    a: Seq<PhysMemoryRegion>,
    b: Seq<PhysMemoryRegion>,
    low: int,
    mid: int,
    high: int,
)
    requires
        ordered(a),
        ordered(b),
        bounded(a, low, mid),
        bounded(b, mid, high),
        low <= mid <= high,
    ensures
        ordered(a + b),
        bounded(a + b, low, high),
{
    let c = a + b;
    assert forall|i: int, j: int| 0 <= i < j < c.len() implies (#[trigger] c[i]).end() <= (
    #[trigger] c[j]).start() by {
        if j < a.len() {
            assert(c[i] == a[i] && c[j] == a[j]);
        } else if i >= a.len() {
            assert(c[i] == b[i - a.len()] && c[j] == b[j - a.len()]);
        } else {
            assert(c[i] == a[i] && c[j] == b[j - a.len()]);
        }
    }
    assert forall|i: int| 0 <= i < c.len() implies low <= (#[trigger] c[i]).start() && c[i].end()
        <= high by {
        if i < a.len() {
            assert(c[i] == a[i]);
        } else {
            assert(c[i] == b[i - a.len()]);
        }
    }
}

/// What is left of a region is ordered.
proof fn lemma_subtract_ordered(fragment: PhysMemoryRegion, res: Seq<PhysMemoryRegion>)
    requires
        fragment.fits(),
        separated(res),
    ensures
        ordered(subtract(fragment, res)),
        bounded(subtract(fragment, res), fragment.start(), fragment.end()),
    decreases res.len(),
{
    PhysMemoryRegion::bounds(fragment, fragment);
    if res.len() > 0 {
        let r = res[0];
        let t = res.skip(1);
        assert(r.fits());
        PhysMemoryRegion::bounds(r, r);
        lemma_skip(res);
        if r.end() <= fragment.start() {
            lemma_subtract_ordered(fragment, t);
        } else if r.start() < fragment.end() {
            let prefix = free_prefix(fragment, r);
            if r.end() < fragment.end() {
                let rest_region = PhysMemoryRegion::between(r.end(), fragment.end());
                lemma_subtract_ordered(rest_region, t);
                let rest = subtract(rest_region, t);
                assert(bounded(prefix, fragment.start(), r.end()));
                lemma_ordered_add(prefix, rest, fragment.start(), r.end(), fragment.end());
            } else {
                assert(subtract(fragment, res) =~= prefix);
            }
        }
    }
}

/// The free regions are in ascending order, and lie within the bounds of the
/// memory.
pub proof fn free_runs_are_ordered(
    mem: Seq<PhysMemoryRegion>,
    res: Seq<PhysMemoryRegion>,
    low: int,
    high: int,
)
    requires
        separated(mem),
        separated(res),
        bounded(mem, low, high),
        low <= high,
    ensures
        ordered(free_runs(mem, res)),
        bounded(free_runs(mem, res), low, high),
    decreases mem.len(),
{
    if mem.len() > 0 {
        let m = mem[0];
        let t = mem.skip(1);
        assert(m.fits());
        PhysMemoryRegion::bounds(m, m);
        lemma_skip(mem);
        lemma_subtract_ordered(m, res);
        assert forall|i: int| 0 <= i < t.len() implies m.end() <= (#[trigger] t[i]).start()
            && t[i].end() <= high by {
            assert(t[i] == mem[i + 1]);
        }
        free_runs_are_ordered(t, res, m.end(), high);
        let first = subtract(m, res);
        assert(bounded(first, low, m.end()));
        lemma_ordered_add(first, free_runs(t, res), low, m.end(), high);
    }
}

/// The regions are not empty.
pub open spec fn none_empty(s: Seq<PhysMemoryRegion>) -> bool {
    forall|i: int| 0 <= i < s.len() ==> (#[trigger] s[i]).len() > 0
}

/// Two lists of separated regions with a gap between them.
proof fn lemma_separated_add(
    a: Seq<PhysMemoryRegion>,
    b: Seq<PhysMemoryRegion>,
    low: int,
    mid: int,
    next: int,
    high: int,
)
    requires
        separated(a),
        separated(b),
        none_empty(a),
        none_empty(b),
        bounded(a, low, mid),
        bounded(b, next, high),
        mid < next,
    ensures
        separated(a + b),
        none_empty(a + b),
{
    let c = a + b;
    assert forall|i: int| 0 <= i < c.len() implies (#[trigger] c[i]).fits() && c[i].len() > 0 by {
        if i < a.len() {
            assert(c[i] == a[i]);
        } else {
            assert(c[i] == b[i - a.len()]);
        }
    }
    assert forall|i: int, j: int| 0 <= i < j < c.len() implies (#[trigger] c[i]).end() < (
    #[trigger] c[j]).start() by {
        if j < a.len() {
            assert(c[i] == a[i] && c[j] == a[j]);
        } else if i >= a.len() {
            assert(c[i] == b[i - a.len()] && c[j] == b[j - a.len()]);
        } else {
            assert(c[i] == a[i] && c[j] == b[j - a.len()]);
        }
    }
}

/// What is left of a region is separated by what is reserved.
proof fn lemma_subtract_separated(fragment: PhysMemoryRegion, res: Seq<PhysMemoryRegion>)
    requires
        fragment.fits(),
        fragment.len() > 0,
        separated(res),
        none_empty(res),
    ensures
        separated(subtract(fragment, res)),
        none_empty(subtract(fragment, res)),
    decreases res.len(),
{
    PhysMemoryRegion::bounds(fragment, fragment);
    if res.len() > 0 {
        let r = res[0];
        let t = res.skip(1);
        assert(r.fits() && r.len() > 0);
        PhysMemoryRegion::bounds(r, r);
        lemma_skip(res);
        assert forall|i: int| 0 <= i < t.len() implies (#[trigger] t[i]).len() > 0 by {
            assert(t[i] == res[i + 1]);
        }
        if r.end() <= fragment.start() {
            lemma_subtract_separated(fragment, t);
        } else if r.start() < fragment.end() {
            let prefix = free_prefix(fragment, r);
            if r.end() < fragment.end() {
                let rest_region = PhysMemoryRegion::between(r.end(), fragment.end());
                lemma_subtract_ordered(rest_region, t);
                lemma_subtract_separated(rest_region, t);
                let rest = subtract(rest_region, t);
                assert(bounded(prefix, fragment.start(), r.start()));
                lemma_separated_add(
                    prefix,
                    rest,
                    fragment.start(),
                    r.start(),
                    r.end(),
                    fragment.end(),
                );
            } else {
                assert(subtract(fragment, res) =~= prefix);
            }
        }
    }
}

/// The free regions are as large as they can be: where no memory and no reservation is
/// empty, none of them is, and between any two of them there is something that is not free.
pub proof fn free_runs_are_maximal(mem: Seq<PhysMemoryRegion>, res: Seq<PhysMemoryRegion>)
    requires
        separated(mem),
        separated(res),
        none_empty(mem),
        none_empty(res),
    ensures
        separated(free_runs(mem, res)),
        none_empty(free_runs(mem, res)),
    decreases mem.len(),
{
    if mem.len() > 0 {
        let m = mem[0];
        let t = mem.skip(1);
        assert(m.fits() && m.len() > 0);
        PhysMemoryRegion::bounds(m, m);
        lemma_skip(mem);
        assert forall|i: int| 0 <= i < t.len() implies (#[trigger] t[i]).len() > 0 && t[i].fits()
            && m.end() + 1 <= t[i].start() by {
            assert(t[i] == mem[i + 1]);
        }
        lemma_subtract_ordered(m, res);
        lemma_subtract_separated(m, res);
        free_runs_are_maximal(t, res);
        if t.len() > 0 {
            assert(t[0].fits() && m.end() + 1 <= t[0].start());
            PhysMemoryRegion::bounds(t[0], t[0]);
        }
        let high = if t.len() > 0 {
            usize::MAX as int
        } else {
            m.end() + 1
        };
        free_runs_are_ordered(t, res, m.end() + 1, high);
        lemma_separated_add(
            subtract(m, res),
            free_runs(t, res),
            m.start(),
            m.end(),
            m.end() + 1,
            high,
        );
    }
}

} // verus!
