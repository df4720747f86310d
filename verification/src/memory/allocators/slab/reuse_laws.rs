//! Which slabs are used, kept and given back.
use vstd::arithmetic::power2::pow2;
use vstd::prelude::*;

use crate::memory::address::AddressTranslator;
use crate::memory::allocators::frame::FrameUse;
use crate::memory::allocators::phys::buddy::Buddy;
use crate::memory::allocators::phys::laws::alloc_takes_unused_pages;
use crate::memory::allocators::slab::laws::{
    allocated_object_was_free, lemma_first_free, lemma_locate,
};
use crate::memory::allocators::slab::pool::{
    accessible, alloc_object, can_alloc, free_object, in_use, is_slab, lemma_alloc_new,
    lemma_drop_slabs, lemma_free_object, lemma_try_alloc, placed, slab_at, slab_of, Pool,
    BATCH, MAX_FREE_SLABS,
};
use crate::memory::allocators::slab::slab::{SlabModel, SlabState};
use crate::memory::allocators::slab::{
    SLAB_FRAME_ALLOC_ORDER, SLAB_MAX_OBJ_SHIFT, SLAB_SIZE_BYTES,
};
use crate::memory::PAGE_SIZE;

verus! {

/// The frame is the head of a slab of the size class that is used in the given way.
pub open spec fn used_as(b: Buddy, shift: nat, usage: SlabState, p: int) -> bool {
    b.has(p) && is_slab(b.at(p), shift) && slab_at(b, p).usage() == usage
}

/// There is a slab of the size class that is used in the given way.
pub open spec fn some_slab(b: Buddy, shift: nat, usage: SlabState) -> bool {
    exists|p: int| #[trigger] used_as(b, shift, usage, p)
}

/// No frame differs but for the one given.
pub open spec fn only_changes(b: Buddy, after: Buddy, h: int) -> bool {
    &&& after.base == b.base
    &&& after.frames.len() == b.frames.len()
    &&& after.free_pages == b.free_pages
    &&& forall|q: int| b.has(q) && q != h ==> #[trigger] after.at(q) == b.at(q)
}

/// The lists tell whether there are slabs with free objects.
pub(super) proof fn lemma_some_slab(b: Buddy, m: Pool)
    requires
        m.ok(b),
    ensures
        some_slab(b, m.shift, SlabState::Partial) <==> m.partial.len() > 0,
        some_slab(b, m.shift, SlabState::Free) <==> m.free.len() > 0,
{
    if some_slab(b, m.shift, SlabState::Partial) {
        let p = choose|p: int| #[trigger] used_as(b, m.shift, SlabState::Partial, p);
        assert(b.has(p) && m.partial.contains(p));
    }
    if m.partial.len() > 0 {
        assert(used_as(b, m.shift, SlabState::Partial, m.partial[0]));
    }
    if some_slab(b, m.shift, SlabState::Free) {
        let p = choose|p: int| #[trigger] used_as(b, m.shift, SlabState::Free, p);
        assert(b.has(p) && m.free.contains(p));
    }
    if m.free.len() > 0 {
        assert(used_as(b, m.shift, SlabState::Free, m.free[0]));
    }
}

/// An object comes from a partially used slab where there is one, else from an unused
/// one, and only where there is neither from a new slab, which takes a block of pages.
/// No other slab changes, and one object more is in use.
pub proof fn used_slabs_come_first<T: AddressTranslator<()>>(b: Buddy, m: Pool)
    requires
        b.wf(),
        m.ok(b),
        1 <= m.shift <= SLAB_MAX_OBJ_SHIFT,
        placed::<T>(b),
        accessible::<T>(b),
        can_alloc(b, m),
    ensures
        ({
            let (after, rest, addr) = alloc_object::<T>(b, m);
            let h = slab_of::<T>(after, addr);
            let k = m.shift;
            &&& is_slab(after.at(h), k)
            &&& if some_slab(b, k, SlabState::Partial) {
                &&& used_as(b, k, SlabState::Partial, h)
                &&& only_changes(b, after, h)
                &&& slab_at(after, h).free.len() == slab_at(b, h).free.len() - 1
            } else if some_slab(b, k, SlabState::Free) {
                &&& used_as(b, k, SlabState::Free, h)
                &&& only_changes(b, after, h)
                &&& slab_at(after, h).free.len() == slab_at(b, h).free.len() - 1
            } else {
                &&& b.at(h) !is Slab
                &&& after.free_pages == b.free_pages - SLAB_SIZE_BYTES / PAGE_SIZE
                &&& slab_at(after, h).free.len() == slab_at(after, h).objects() - 1
                &&& forall|q: int| #[trigger]
                    b.has(q) && b.at(q) is Slab ==> after.at(q) == b.at(q)
            }
        }),
{
    let k = m.shift;
    let (after, rest, addr) = alloc_object::<T>(b, m);
    lemma_some_slab(b, m);
    lemma_try_alloc(b, m);
    allocated_object_was_free::<T>(b, m);
    if m.partial.len() > 0 || m.free.len() > 0 {
        let p = if m.partial.len() > 0 {
            assert(used_as(b, k, SlabState::Partial, m.partial[m.partial.len() - 1]));
            m.partial.last()
        } else {
            assert(used_as(b, k, SlabState::Free, m.free[m.free.len() - 1]));
            m.free.last()
        };
        let slab = slab_at(b, p);
        assert(b.block_ok(p, SLAB_FRAME_ALLOC_ORDER as nat));
        lemma_first_free(slab);
        assert(after.at(p) == FrameUse::Slab(slab.after_alloc()));
        lemma_locate::<T>(after, p, addr);
    } else {
        let o = SLAB_FRAME_ALLOC_ORDER as nat;
        let (taken, block) = b.alloc_block(o);
        let p = block->Some_0;
        lemma_alloc_new::<T>(b, m);
        alloc_takes_unused_pages(b, o);
        b.lemma_alloc_slabs(o);
        vstd::arithmetic::power2::lemma2_to64();
        assert(pow2(o) == 4);
        let slab = SlabModel::fresh(k, T::virt_of((p * PAGE_SIZE) as usize) as int);
        slab.bounds();
        lemma_first_free(slab);
        assert(after.at(p) == FrameUse::Slab(slab.after_alloc()));
        lemma_locate::<T>(after, p, addr);
        assert(b.has(p));
        assert(taken.at(p) is AllocatedHead);
        assert(b.at(p) !is Slab) by {
            if b.at(p) is Slab {
                assert(taken.at(p) == b.at(p));
            }
        }
        assert forall|q: int| #[trigger] b.has(q) && b.at(q) is Slab implies after.at(q) == b.at(
            q,
        ) by {
            assert(taken.at(q) == b.at(q));
        }
    }
}

/// When an object is taken back, its slab stays a slab, with one more free object. Where
/// this makes one unused slab too many, the unused slabs that were added last are given
/// back to the frame allocator; all other slabs stay.
pub proof fn unused_slabs_are_given_back<T: AddressTranslator<()>>(b: Buddy, m: Pool, addr: int)
    requires
        b.wf(),
        m.ok(b),
        placed::<T>(b),
        accessible::<T>(b),
        in_use::<T>(b, m.shift, addr),
    ensures
        ({
            let (after, rest) = free_object::<T>(b, m, addr);
            let h = slab_of::<T>(b, addr);
            let n = m.free.len() as int;
            let unused = slab_at(b, h).free.len() + 1 == slab_at(b, h).objects();
            &&& is_slab(after.at(h), m.shift)
            &&& slab_at(after, h).free.len() == slab_at(b, h).free.len() + 1
            &&& unused ==> rest.free.last() == h
            &&& if unused && n == MAX_FREE_SLABS {
                &&& after.free_pages == b.free_pages + (n / 2) * (SLAB_SIZE_BYTES / PAGE_SIZE)
                &&& forall|i: int|
                    n / 2 <= i < n ==> after.at(#[trigger] m.free[i]) !is Slab
                &&& forall|q: int| #[trigger]
                    b.has(q) && b.at(q) is Slab && q != h && !m.free.skip(n / 2).contains(q)
                        ==> after.at(q) == b.at(q)
                &&& rest.free == m.free.take(n / 2).push(h)
            } else {
                &&& only_changes(b, after, h)
                &&& rest.free == (if unused {
                    m.free.push(h)
                } else {
                    m.free
                })
            }
        }),
{
    lemma_free_object::<T>(b, m, addr);
    let h = slab_of::<T>(b, addr);
    let n = m.free.len() as int;
    let old = slab_at(b, h);
    let new = old.after_put(addr);
    let put = b.set(h, FrameUse::Slab(new));
    let (after, rest) = free_object::<T>(b, m, addr);
    assert(b.block_ok(h, SLAB_FRAME_ALLOC_ORDER as nat));
    old.lemma_in_use(addr);
    old.bounds();
    new.bounds();
    assert(new.free.len() == old.free.len() + 1);
    assert(put.at(h) == FrameUse::Slab(new));
    if new.usage() == SlabState::Free && n == MAX_FREE_SLABS {
        let gone = m.free.skip(n / 2);
        vstd::arithmetic::power2::lemma2_to64();
        lemma_drop_slabs(put, m.free, BATCH as nat, m.shift);
        assert(n - BATCH == n / 2);
        assert forall|q: int| gone.contains(q) implies m.free.contains(q) by {
            let i = choose|i: int| 0 <= i < gone.len() && gone[i] == q;
            assert(m.free[n / 2 + i] == q);
        }
        assert(!gone.contains(h));
        assert(after.at(h) == put.at(h));
        assert forall|i: int| n / 2 <= i < n implies after.at(#[trigger] m.free[i]) !is Slab by {
            assert(gone[i - n / 2] == m.free[i]);
            assert(gone.contains(m.free[i]));
            assert(put.has(m.free[i]));
        }
        assert forall|q: int| #[trigger]
            b.has(q) && b.at(q) is Slab && q != h && !gone.contains(q) implies after.at(q) == b.at(
            q,
        ) by {
            assert(put.has(q) && put.at(q) == b.at(q));
        }
    }
}

} // verus!
