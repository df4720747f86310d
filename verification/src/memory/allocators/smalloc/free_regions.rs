//! The free (unreserved) parts of the memory.
use vstd::prelude::*;

use crate::memory::address::AddressTranslator;
use crate::memory::allocators::smalloc::region_list::{
    covered, lemma_covered_skip, lemma_skip, separated,
};
use crate::memory::allocators::smalloc::Smalloc;
use crate::memory::region::PhysMemoryRegion;

verus! {

/// What is left of a fragment of memory outside the reservations, in order.
pub open spec fn subtract(fragment: PhysMemoryRegion, res: Seq<PhysMemoryRegion>) -> Seq<
    PhysMemoryRegion,
>
    decreases res.len(),
{
    if res.len() == 0 {
        seq![fragment]
    } else if res[0].end() <= fragment.start() {
        subtract(fragment, res.skip(1))
    } else if fragment.end() <= res[0].start() {
        seq![fragment]
    } else {
        free_prefix(fragment, res[0]) + (if res[0].end() < fragment.end() {
            subtract(PhysMemoryRegion::between(res[0].end(), fragment.end()), res.skip(1))
        } else {
            Seq::empty()
        })
    }
}

/// What is free of a fragment before a reservation.
pub open spec fn free_prefix(fragment: PhysMemoryRegion, r: PhysMemoryRegion) -> Seq<
    PhysMemoryRegion,
> {
    if fragment.start() < r.start() {
        seq![PhysMemoryRegion::between(fragment.start(), r.start())]
    } else {
        Seq::empty()
    }
}

/// The free parts of the memory regions, in order.
pub open spec fn free_runs(mem: Seq<PhysMemoryRegion>, res: Seq<PhysMemoryRegion>) -> Seq<
    PhysMemoryRegion,
>
    decreases mem.len(),
{
    if mem.len() == 0 {
        Seq::empty()
    } else {
        subtract(mem[0], res) + free_runs(mem.skip(1), res)
    }
}

/// A reservation that ends before all memory makes no difference.
proof fn lemma_skip_reservation(mem: Seq<PhysMemoryRegion>, res: Seq<PhysMemoryRegion>)
    requires
        res.len() > 0,
        forall|i: int| 0 <= i < mem.len() ==> res[0].end() <= (#[trigger] mem[i]).start(),
    ensures
        free_runs(mem, res) == free_runs(mem, res.skip(1)),
    decreases mem.len(),
{
    if mem.len() > 0 {
        let t = mem.skip(1);
        assert forall|i: int| 0 <= i < t.len() implies res[0].end() <= (#[trigger] t[i]).start() by {
            assert(t[i] == mem[i + 1]);
        }
        lemma_skip_reservation(t, res);
    }
}

/// Gives out the free parts of the memory one by one.
pub struct FreeRegionsIter {
    mem: Vec<PhysMemoryRegion>,
    mem_next: usize,
    res: Vec<PhysMemoryRegion>,
    res_next: usize,
    current_fragment: Option<PhysMemoryRegion>,
}

impl FreeRegionsIter {
    /// The memory regions that are still to be looked at.
    closed spec fn mem_left(self) -> Seq<PhysMemoryRegion> {
        self.mem@.skip(self.mem_next as int)
    }

    /// The reservations that may still matter.
    closed spec fn res_left(self) -> Seq<PhysMemoryRegion> {
        self.res@.skip(self.res_next as int)
    }

    /// The free parts that are still to be given out.
    pub closed spec fn remaining(self) -> Seq<PhysMemoryRegion> {
        (match self.current_fragment {
            Some(fragment) => subtract(fragment, self.res_left()),
            None => Seq::empty(),
        }) + free_runs(self.mem_left(), self.res_left())
    }

    /// The lists are separated, and the current fragment lies before the memory
    /// that is still to be looked at.
    pub closed spec fn wf(self) -> bool {
        &&& self.mem_next <= self.mem@.len()
        &&& self.res_next <= self.res@.len()
        &&& separated(self.mem@)
        &&& separated(self.res@)
        &&& self.current_fragment matches Some(f) ==> {
            &&& f.fits()
            &&& forall|i: int|
                self.mem_next <= i < self.mem@.len() ==> f.end() < (#[trigger] self.mem@[i]).start()
        }
    }

    /// Starts with the given memory and reservations.
    pub fn new(mem: Vec<PhysMemoryRegion>, res: Vec<PhysMemoryRegion>) -> (r: Self)
        requires
            separated(mem@),
            separated(res@),
        ensures
            r.wf(),
            r.remaining() == free_runs(mem@, res@),
    {
        let r = Self { mem, mem_next: 0, res, res_next: 0, current_fragment: None };
        assert(r.mem_left() =~= mem@);
        assert(r.res_left() =~= res@);
        assert(r.remaining() =~= free_runs(mem@, res@));
        r
    }

    /// Returns the next free part, if there is one.
    #[verifier::rlimit(60)]
    pub fn next(&mut self) -> (r: Option<PhysMemoryRegion>)
        requires
            old(self).wf(),
        ensures
            final(self).wf(),
            match r {
                Some(region) => old(self).remaining() == seq![region] + final(self).remaining(),
                None => old(self).remaining().len() == 0 && final(self).remaining().len() == 0,
            },
    {
        let ghost all = self.remaining();
        loop
            invariant
                self.wf(),
                self.remaining() == all,
                all == old(self).remaining(),
            decreases
                self.mem@.len() - self.mem_next,
                if self.current_fragment is Some { 1int } else { 0int },
                self.res@.len() - self.res_next,
        {
            let ghost before = *self;
            let fragment = match self.current_fragment {
                Some(fragment) => fragment,
                None => {
                    if self.mem_next >= self.mem.len() {
                        assert(self.mem_left() =~= Seq::empty());
                        return None;
                    }
                    let fragment = self.mem[self.mem_next];
                    assert(self.mem_left()[0] == fragment);
                    assert(self.mem_left().skip(1) =~= self.mem@.skip(self.mem_next + 1));
                    self.mem_next = self.mem_next + 1;
                    self.current_fragment = Some(fragment);
                    proof {
                        assert(fragment.fits());
                        assert forall|i: int|
                            self.mem_next <= i < self.mem@.len() implies fragment.end() < (
                        #[trigger] self.mem@[i]).start() by {
                            assert(self.mem@[self.mem_next - 1].end() < self.mem@[i].start());
                        }
                        assert(self.remaining() =~= all);
                    }
                    fragment
                },
            };

            // Skip the reservations that lie before the fragment: they do not matter
            // for it or for what comes after it.
            while self.res_next < self.res.len() && self.res[self.res_next].is_before(fragment)
                invariant
                    self.wf(),
                    self.current_fragment == Some(fragment),
                    self.remaining() == all,
                    self.mem@ == before.mem@,
                    self.res@ == before.res@,
                    before.mem_next <= self.mem_next,
                    before.current_fragment is None ==> before.mem_next < self.mem_next,
                    before.res_next <= self.res_next,
                    forall|i: int| 0 <= i < self.res@.len() ==> (#[trigger] self.res@[i]).fits(),
                decreases self.res@.len() - self.res_next,
            {
                proof {
                    assert(self.res_left()[0] == self.res@[self.res_next as int]);
                    assert(self.res_left().skip(1) =~= self.res@.skip(self.res_next + 1));
                    let left = self.mem_left();
                    assert forall|i: int| 0 <= i < left.len() implies self.res_left()[0].end() <= (
                    #[trigger] left[i]).start() by {
                        assert(left[i] == self.mem@[self.mem_next + i]);
                    }
                    lemma_skip_reservation(left, self.res_left());
                }
                self.res_next = self.res_next + 1;
            }
            let ghost now = *self;

            if self.res_next >= self.res.len() {
                // No reservations are left.
                assert(self.res_left() =~= Seq::empty());
                self.current_fragment = None;
                assert(all =~= seq![fragment] + self.remaining());
                return Some(fragment);
            }
            let res_region = self.res[self.res_next];
            assert(self.res_left()[0] == res_region);
            assert(self.res_left().skip(1) =~= self.res@.skip(self.res_next + 1));
            assert(res_region.fits());

            if res_region.is_after(fragment) {
                // The fragment lies before the next reservation.
                self.current_fragment = None;
                assert(all =~= seq![fragment] + self.remaining());
                return Some(fragment);
            }
            // What lies after the reservation is dealt with later. A reservation that
            // reaches beyond the fragment may matter for the memory after it.
            if res_region.end_address().value() < fragment.end_address().value() {
                let rest = PhysMemoryRegion::from_start_end_address(
                    res_region.end_address(),
                    fragment.end_address(),
                );
                self.res_next = self.res_next + 1;
                self.current_fragment = Some(rest);
                proof {
                    let left = now.mem_left();
                    assert forall|i: int| 0 <= i < left.len() implies res_region.end() <= (
                    #[trigger] left[i]).start() by {
                        assert(left[i] == self.mem@[self.mem_next + i]);
                    }
                    lemma_skip_reservation(left, now.res_left());
                }
            } else {
                self.current_fragment = None;
            }
            if fragment.start_address().value() < res_region.start_address().value() {
                let prefix = PhysMemoryRegion::from_start_end_address(
                    fragment.start_address(),
                    res_region.start_address(),
                );
                assert(all =~= seq![prefix] + self.remaining());
                return Some(prefix);
            }
            assert(all =~= self.remaining());
        }
    }
}

impl<T: AddressTranslator<()>> Smalloc<T> {
    /// Returns all free memory regions, in order: the memory regions without what
    /// is reserved.
    pub fn iter_free(&self) -> (r: Vec<PhysMemoryRegion>)
        requires
            self.wf(),
        ensures
            r@ == free_runs(self@.mem, self@.res),
    {
        let mut iter = FreeRegionsIter::new(self.memory.iter(), self.res.iter());
        let mut found: Vec<PhysMemoryRegion> = Vec::new();
        assert(found@ + iter.remaining() =~= iter.remaining());
        loop
            invariant
                iter.wf(),
                found@ + iter.remaining() == free_runs(self@.mem, self@.res),
            decreases iter.remaining().len(),
        {
            let ghost before = found@;
            match iter.next() {
                Some(region) => {
                    found.push(region);
                    assert(found@ + iter.remaining() =~= before + (seq![region]
                        + iter.remaining()));
                },
                None => {
                    assert(found@ =~= free_runs(self@.mem, self@.res));
                    return found;
                },
            }
        }
    }
}

/// What is left of a fragment is what it has outside the reservations.
proof fn lemma_subtract_covers(
    fragment: PhysMemoryRegion,
    res: Seq<PhysMemoryRegion>,
    addr: int,
)
    requires
        fragment.fits(),
        separated(res),
    ensures
        covered(subtract(fragment, res), addr) <==> fragment.has(addr) && !covered(res, addr),
    decreases res.len(),
{
    let out = subtract(fragment, res);
    if res.len() == 0 {
        assert(out[0] == fragment);
    } else {
        let r = res[0];
        let t = res.skip(1);
        assert(r.fits());
        lemma_skip(res);
        lemma_covered_skip(res, addr);
        if r.end() <= fragment.start() {
            lemma_subtract_covers(fragment, t, addr);
        } else if fragment.end() <= r.start() {
            assert(out[0] == fragment);
            if fragment.has(addr) && covered(t, addr) {
                let i = choose|i: int| 0 <= i < t.len() && (#[trigger] t[i]).has(addr);
                assert(t[i] == res[i + 1]);
                assert(res[0].end() < res[i + 1].start());
            }
        } else {
            let prefix = free_prefix(fragment, r);
            let rest_region = PhysMemoryRegion::between(r.end(), fragment.end());
            let rest = if r.end() < fragment.end() {
                subtract(rest_region, t)
            } else {
                Seq::empty()
            };
            assert(out == prefix + rest);
            if r.end() < fragment.end() {
                lemma_subtract_covers(rest_region, t, addr);
            }
            lemma_covered_add(prefix, rest, addr);
            assert(covered(prefix, addr) <==> fragment.start() <= addr < r.start()) by {
                if fragment.start() <= addr < r.start() {
                    assert(prefix[0].has(addr));
                }
            }
            if covered(t, addr) {
                let i = choose|i: int| 0 <= i < t.len() && (#[trigger] t[i]).has(addr);
                assert(t[i] == res[i + 1]);
                assert(res[0].end() < res[i + 1].start());
            }
            assert(!covered(Seq::<PhysMemoryRegion>::empty(), addr));
        }
    }
}

/// What two lists cover together.
proof fn lemma_covered_add(a: Seq<PhysMemoryRegion>, b: Seq<PhysMemoryRegion>, addr: int)
    ensures
        covered(a + b, addr) <==> covered(a, addr) || covered(b, addr),
{
    let c = a + b;
    if covered(a, addr) {
        let i = choose|i: int| 0 <= i < a.len() && (#[trigger] a[i]).has(addr);
        assert(c[i].has(addr));
    }
    if covered(b, addr) {
        let i = choose|i: int| 0 <= i < b.len() && (#[trigger] b[i]).has(addr);
        assert(c[a.len() + i].has(addr));
    }
    if covered(c, addr) {
        let i = choose|i: int| 0 <= i < c.len() && (#[trigger] c[i]).has(addr);
        if i < a.len() {
            assert(a[i].has(addr));
        } else {
            assert(b[i - a.len()].has(addr));
        }
    }
}

/// The free regions have exactly the addresses of the memory that are not
/// reserved.
pub proof fn free_runs_are_the_unreserved_memory(
    mem: Seq<PhysMemoryRegion>,
    res: Seq<PhysMemoryRegion>,
    addr: int,
)
    requires
        separated(mem),
        separated(res),
    ensures
        covered(free_runs(mem, res), addr) <==> covered(mem, addr) && !covered(res, addr),
    decreases mem.len(),
{
    if mem.len() > 0 {
        lemma_skip(mem);
        assert(mem[0].fits());
        lemma_covered_skip(mem, addr);
        lemma_subtract_covers(mem[0], res, addr);
        free_runs_are_the_unreserved_memory(mem.skip(1), res, addr);
        lemma_covered_add(subtract(mem[0], res), free_runs(mem.skip(1), res), addr);
    }
}

} // verus!
