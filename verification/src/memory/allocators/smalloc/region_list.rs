//! Lists of physical memory regions that do not touch each other.
use vstd::prelude::*;

use crate::memory::region::{imax, imin, PhysMemoryRegion};

verus! {

/// The regions are in order, and there is a gap between each and the next.
pub open spec fn separated(s: Seq<PhysMemoryRegion>) -> bool {
    &&& forall|i: int| 0 <= i < s.len() ==> (#[trigger] s[i]).fits()
    &&& forall|i: int, j: int|
        0 <= i < j < s.len() ==> (#[trigger] s[i]).end() < (#[trigger] s[j]).start()
}

/// Some region has the address.
pub open spec fn covered(s: Seq<PhysMemoryRegion>, addr: int) -> bool {
    exists|i: int| 0 <= i < s.len() && (#[trigger] s[i]).has(addr)
}

/// The smallest region that contains both.
pub open spec fn hull(a: PhysMemoryRegion, b: PhysMemoryRegion) -> PhysMemoryRegion {
    PhysMemoryRegion::between(imin(a.start(), b.start()), imax(a.end(), b.end()))
}

/// The list with `region` put in: merged with the regions that it touches or
/// overlaps, and in order.
pub open spec fn insert_span(s: Seq<PhysMemoryRegion>, region: PhysMemoryRegion) -> Seq<
    PhysMemoryRegion,
>
    decreases s.len(),
{
    if s.len() == 0 {
        seq![region]
    } else if s[0].end() < region.start() {
        seq![s[0]] + insert_span(s.skip(1), region)
    } else if region.end() < s[0].start() {
        seq![region] + s
    } else {
        insert_span(s.skip(1), hull(s[0], region))
    }
}

/// Putting in a region keeps the regions apart, and makes the list at most one
/// longer.
pub proof fn lemma_insert_span(s: Seq<PhysMemoryRegion>, region: PhysMemoryRegion, low: int)
    requires
        separated(s),
        region.fits(),
        low < region.start(),
        s.len() > 0 ==> low < s[0].start(),
    ensures
        separated(insert_span(s, region)),
        1 <= insert_span(s, region).len() <= s.len() + 1,
        low < insert_span(s, region)[0].start(),
    decreases s.len(),
{
    if s.len() > 0 {
        let t = s.skip(1);
        assert(separated(t)) by {
            assert forall|i: int| 0 <= i < t.len() implies (#[trigger] t[i]).fits() by {
                assert(t[i] == s[i + 1]);
            }
            assert forall|i: int, j: int| 0 <= i < j < t.len() implies (#[trigger] t[i]).end() < (
            #[trigger] t[j]).start() by {
                assert(s[i + 1].end() < s[j + 1].start());
            }
        }
        if t.len() > 0 {
            assert(t[0] == s[1]);
            assert(s[0].end() < s[1].start());
        }
        assert(s[0].fits());
        if s[0].end() < region.start() {
            lemma_insert_span(t, region, s[0].end());
            let u = insert_span(t, region);
            let r = insert_span(s, region);
            assert(r =~= seq![s[0]] + u);
            assert forall|i: int, j: int| 0 <= i < j < r.len() implies (#[trigger] r[i]).end() < (
            #[trigger] r[j]).start() by {
                assert(r[j] == u[j - 1]);
                if i == 0 {
                    if j > 1 {
                        assert(u[0].end() < u[j - 1].start());
                    }
                } else {
                    assert(r[i] == u[i - 1]);
                    assert(u[i - 1].end() < u[j - 1].start());
                }
            }
            assert forall|i: int| 0 <= i < r.len() implies (#[trigger] r[i]).fits() by {
                if i > 0 {
                    assert(r[i] == u[i - 1]);
                }
            }
        } else if region.end() < s[0].start() {
            let r = insert_span(s, region);
            assert(r =~= seq![region] + s);
            assert forall|i: int, j: int| 0 <= i < j < r.len() implies (#[trigger] r[i]).end() < (
            #[trigger] r[j]).start() by {
                assert(r[j] == s[j - 1]);
                if i == 0 {
                    if j > 1 {
                        assert(s[0].end() < s[j - 1].start());
                    }
                } else {
                    assert(r[i] == s[i - 1]);
                    assert(s[i - 1].end() < s[j - 1].start());
                }
            }
            assert forall|i: int| 0 <= i < r.len() implies (#[trigger] r[i]).fits() by {
                if i > 0 {
                    assert(r[i] == s[i - 1]);
                }
            }
        } else {
            lemma_insert_span(t, hull(s[0], region), low);
        }
    }
}

/// Putting in a region adds just its addresses.
pub proof fn insert_span_covers(s: Seq<PhysMemoryRegion>, region: PhysMemoryRegion, addr: int)
    requires
        separated(s),
        region.fits(),
    ensures
        covered(insert_span(s, region), addr) <==> covered(s, addr) || region.has(addr),
    decreases s.len(),
{
    let r = insert_span(s, region);
    if s.len() == 0 {
        assert(r[0] == region);
        if region.has(addr) {
            assert(r[0].has(addr));
        }
    } else {
        let t = s.skip(1);
        lemma_skip(s);
        lemma_covered_skip(s, addr);
        assert(s[0].fits());
        if s[0].end() < region.start() {
            insert_span_covers(t, region, addr);
            assert(r =~= seq![s[0]] + insert_span(t, region));
            lemma_covered_skip(r, addr);
            assert(r.skip(1) =~= insert_span(t, region));
        } else if region.end() < s[0].start() {
            lemma_covered_skip(r, addr);
            assert(r.skip(1) =~= s);
        } else {
            insert_span_covers(t, hull(s[0], region), addr);
        }
    }
}

/// What a list covers is what its first region and the rest cover.
pub proof fn lemma_covered_skip(s: Seq<PhysMemoryRegion>, addr: int)
    requires
        s.len() > 0,
    ensures
        covered(s, addr) <==> s[0].has(addr) || covered(s.skip(1), addr),
{
    let t = s.skip(1);
    if covered(s, addr) {
        let i = choose|i: int| 0 <= i < s.len() && (#[trigger] s[i]).has(addr);
        if i > 0 {
            assert(t[i - 1].has(addr));
        }
    }
    if covered(t, addr) {
        let i = choose|i: int| 0 <= i < t.len() && (#[trigger] t[i]).has(addr);
        assert(s[i + 1].has(addr));
    }
    if s[0].has(addr) {
        assert(s[0].has(addr));
    }
}

/// The rest of a separated list is separated.
pub proof fn lemma_skip(s: Seq<PhysMemoryRegion>)
    requires
        separated(s),
        s.len() > 0,
    ensures
        separated(s.skip(1)),
{
    let t = s.skip(1);
    assert forall|i: int| 0 <= i < t.len() implies (#[trigger] t[i]).fits() by {
        assert(t[i] == s[i + 1]);
    }
    assert forall|i: int, j: int| 0 <= i < j < t.len() implies (#[trigger] t[i]).end() < (
    #[trigger] t[j]).start() by {
        assert(s[i + 1].end() < s[j + 1].start());
    }
}

/// A separated list without one of its regions is separated.
pub proof fn lemma_remove(s: Seq<PhysMemoryRegion>, k: int)
    requires
        separated(s),
        0 <= k < s.len(),
    ensures
        separated(s.remove(k)),
{
    let t = s.remove(k);
    assert forall|i: int| 0 <= i < t.len() implies (#[trigger] t[i]).fits() by {
        let i2 = if i < k {
            i
        } else {
            i + 1
        };
        assert(t[i] == s[i2]);
    }
    assert forall|i: int, j: int| 0 <= i < j < t.len() implies (#[trigger] t[i]).end() < (
    #[trigger] t[j]).start() by {
        let i2 = if i < k {
            i
        } else {
            i + 1
        };
        let j2 = if j < k {
            j
        } else {
            j + 1
        };
        assert(s[i2].end() < s[j2].start());
    }
}

/// A list of non-touching physical memory regions, with a limit on its length and
/// an address at which it is kept.
pub struct RegionList {
    regions: Vec<PhysMemoryRegion>,
    max: usize,
    base: usize,
}

impl RegionList {
    /// The regions.
    pub closed spec fn spans(self) -> Seq<PhysMemoryRegion> {
        self.regions@
    }

    /// The number of regions that the list has room for.
    pub closed spec fn limit(self) -> nat {
        self.max as nat
    }

    /// The address of the memory that the list is kept in.
    pub closed spec fn address(self) -> usize {
        self.base
    }

    /// The regions do not touch, and there is room for all of them.
    pub open spec fn wf(self) -> bool {
        &&& separated(self.spans())
        &&& self.spans().len() <= self.limit()
        &&& self.limit() <= usize::MAX
    }

    /// Returns `true` if the list contains no regions.
    pub fn is_empty(&self) -> (r: bool)
        ensures
            r == (self.spans().len() == 0),
    {
        self.regions.len() == 0
    }

    /// Creates a new region list with room for `max` regions, kept at the address
    /// `region_ptr`.
    pub fn new(max: usize, region_ptr: usize) -> (r: Self)
        ensures
            r.wf(),
            r.spans().len() == 0,
            r.limit() == max,
            r.address() == region_ptr,
    {
        Self { regions: Vec::new(), max, base: region_ptr }
    }

    /// Returns the number of regions.
    pub fn count(&self) -> (r: usize)
        ensures
            r == self.spans().len(),
    {
        self.regions.len()
    }

    /// Returns the number of regions that the list has room for.
    pub fn max(&self) -> (r: usize)
        ensures
            r == self.limit(),
    {
        self.max
    }

    /// Returns the address of the memory that the list is kept in.
    pub fn base(&self) -> (r: usize)
        ensures
            r == self.address(),
    {
        self.base
    }

    /// Returns the region at the index.
    pub fn get(&self, index: usize) -> (r: PhysMemoryRegion)
        requires
            index < self.spans().len(),
        ensures
            r == self.spans()[index as int],
    {
        self.regions[index]
    }

    /// Moves the list to another address, with another limit.
    pub(super) fn rehome(&mut self, max: usize, base: usize)
        ensures
            final(self).spans() == old(self).spans(),
            final(self).limit() == max,
            final(self).address() == base,
    {
        self.max = max;
        self.base = base;
    }

    /// Takes out the region at the index.
    pub(super) fn remove_at(&mut self, index: usize)
        requires
            old(self).wf(),
        ensures
            final(self).wf(),
            final(self).limit() == old(self).limit(),
            final(self).address() == old(self).address(),
            final(self).spans() == (if index < old(self).spans().len() {
                old(self).spans().remove(index as int)
            } else {
                old(self).spans()
            }),
    {
        if index >= self.regions.len() {
            return ;
        }
        proof {
            lemma_remove(self.regions@, index as int);
        }
        let _ = self.regions.remove(index);
    }

    /// Inserts a region, merging it with neighbours that it touches.
    pub fn insert_region(&mut self, new_region: PhysMemoryRegion)
        requires
            old(self).wf(),
            new_region.fits(),
            old(self).spans().len() < old(self).limit(),
        ensures
            final(self).wf(),
            final(self).limit() == old(self).limit(),
            final(self).address() == old(self).address(),
            final(self).spans() == insert_span(old(self).spans(), new_region),
            final(self).spans().len() <= old(self).spans().len() + 1,
    {
        let ghost s0 = self.regions@;
        proof {
            lemma_insert_span(s0, new_region, -1);
        }
        let mut region = new_region;
        let mut i: usize = 0;
        assert(s0.take(0) =~= Seq::empty());
        assert(s0.skip(0) =~= s0);
        assert(insert_span(s0, new_region) =~= s0.take(0) + insert_span(s0, new_region));
        while i < self.regions.len()
            invariant_except_break
                i <= self.regions@.len() <= s0.len(),
                separated(self.regions@),
                region.fits(),
                insert_span(s0, new_region) == self.regions@.take(i as int) + insert_span(
                    self.regions@.skip(i as int),
                    region,
                ),
                self.max == old(self).max,
                self.base == old(self).base,
            ensures
                i <= self.regions@.len() <= s0.len(),
                self.max == old(self).max,
                self.base == old(self).base,
                insert_span(s0, new_region) == self.regions@.take(i as int) + seq![region]
                    + self.regions@.skip(i as int),
            decreases self.regions@.len() - i,
        {
            let ghost s = self.regions@;
            let existing = self.regions[i];
            assert(s.skip(i as int)[0] == existing);
            assert(s.skip(i as int).skip(1) =~= s.skip(i + 1));
            assert(existing.fits());
            if let Some(merged) = existing.merge(region) {
                proof {
                    lemma_remove(s, i as int);
                    assert(merged == hull(existing, region));
                }
                region = merged;
                let _ = self.regions.remove(i);
                assert(self.regions@.take(i as int) =~= s.take(i as int));
                assert(self.regions@.skip(i as int) =~= s.skip(i + 1));
            } else if existing.start_address().value() > region.start_address().value() {
                assert(insert_span(s.skip(i as int), region) == seq![region] + s.skip(i as int));
                assert(s.take(i as int) + (seq![region] + s.skip(i as int)) =~= s.take(i as int)
                    + seq![region] + s.skip(i as int));
                break;
            } else {
                assert(s.take(i + 1) + insert_span(s.skip(i + 1), region) =~= s.take(i as int) + (
                seq![existing] + insert_span(s.skip(i + 1), region)));
                i = i + 1;
            }
            proof {
                if i == self.regions@.len() {
                    assert(self.regions@.skip(i as int) =~= Seq::empty());
                    assert(self.regions@.take(i as int) + seq![region] =~= self.regions@.take(
                        i as int,
                    ) + seq![region] + self.regions@.skip(i as int));
                }
            }
        }
        self.regions.insert(i, region);
        assert(self.regions@ =~= insert_span(s0, new_region));
    }

    /// Returns the regions of this list, in order.
    pub fn iter(&self) -> (r: Vec<PhysMemoryRegion>)
        ensures
            r@ == self.spans(),
    {
        let mut all: Vec<PhysMemoryRegion> = Vec::new();
        let mut i: usize = 0;
        while i < self.regions.len()
            invariant
                i <= self.regions@.len(),
                all@ == self.regions@.take(i as int),
            decreases self.regions@.len() - i,
        {
            all.push(self.regions[i]);
            i = i + 1;
            assert(all@ =~= self.regions@.take(i as int));
        }
        assert(all@ =~= self.regions@);
        all
    }

    /// Returns a copy of this list.
    pub fn copy(&self) -> (r: Self)
        ensures
            r.spans() == self.spans(),
            r.limit() == self.limit(),
            r.address() == self.address(),
    {
        Self { regions: self.iter(), max: self.max, base: self.base }
    }

    /// The position of the first region that contains `region`.
    pub fn position_containing(&self, region: PhysMemoryRegion) -> (r: Option<usize>)
        requires
            self.wf(),
            region.fits(),
        ensures
            match r {
                Some(i) => {
                    &&& i < self.spans().len()
                    &&& self.spans()[i as int].covers(region)
                    &&& forall|j: int| 0 <= j < i ==> !(#[trigger] self.spans()[j]).covers(region)
                },
                None => forall|j: int|
                    0 <= j < self.spans().len() ==> !(#[trigger] self.spans()[j]).covers(region),
            },
    {
        let mut i: usize = 0;
        while i < self.regions.len()
            invariant
                i <= self.regions@.len(),
                separated(self.regions@),
                region.fits(),
                forall|j: int| 0 <= j < i ==> !(#[trigger] self.regions@[j]).covers(region),
            decreases self.regions@.len() - i,
        {
            assert(self.regions@[i as int].fits());
            if self.regions[i].contains(region) {
                return Some(i);
            }
            i = i + 1;
        }
        None
    }

    /// Whether the list might be too small for one more change: freeing the middle
    /// of a merged region takes an extra slot for the second fragment.
    pub open spec fn tight(self) -> bool {
        self.spans().len() >= self.limit() - 1
    }

    /// Checks whether the list needs to be expanded before it is changed.
    pub(super) fn requires_reallocation(&self) -> (r: bool)
        requires
            self.limit() > 0,
        ensures
            r == self.tight(),
    {
        self.regions.len() >= self.max - 1
    }
}

} // verus!
