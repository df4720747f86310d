//! What the slab allocator guarantees to its users.
use vstd::arithmetic::power2::pow2;
use vstd::prelude::*;

use crate::memory::address::AddressTranslator;
use crate::memory::allocators::frame::FrameUse;
use crate::memory::allocators::phys::buddy::Buddy;
use crate::memory::allocators::phys::laws::alloc_takes_unused_pages;
use crate::memory::allocators::slab::pool::{
    accessible, alloc_new, alloc_object, can_alloc, free_object, in_use, is_slab, lemma_alloc_new,
    lemma_drop_slabs, lemma_free_object, lemma_try_alloc, placed, reaches, slab_at, slab_of,
    try_alloc, Pool, BATCH, MAX_FREE_SLABS,
};
use crate::memory::allocators::slab::slab::{put_undoes_alloc, SlabModel, SlabState};
use crate::memory::allocators::slab::{
    SLAB_FRAME_ALLOC_ORDER, SLAB_MAX_OBJ_SHIFT, SLAB_SIZE_BYTES,
};
use crate::memory::PAGE_SIZE;

verus! {

/// The address of an object leads back to its slab.
pub(super) proof fn lemma_locate<T: AddressTranslator<()>>(b: Buddy, p: int, addr: int)
    requires
        b.wf(),
        b.has(p),
        b.at(p) is Slab,
        placed::<T>(b),
        accessible::<T>(b),
        slab_at(b, p).start <= addr < slab_at(b, p).start + SLAB_SIZE_BYTES,
    ensures
        T::maps_virt(addr as usize),
        b.has(T::phys_of(addr as usize) as int / PAGE_SIZE as int),
        slab_of::<T>(b, addr) == p,
{
    let o = SLAB_FRAME_ALLOC_ORDER as nat;
    vstd::arithmetic::power2::lemma2_to64();
    assert(pow2(o) == 4);
    assert(b.block_ok(p, o));
    assert(reaches::<T>(p));
    let start = slab_at(b, p).start;
    assert(slab_at(b, p).ok());
    assert(T::maps_virt(addr as usize));
    let q = T::phys_of(addr as usize) as int / PAGE_SIZE as int;
    assert(T::phys_of(addr as usize) == p * PAGE_SIZE + (addr - start));
    assert(p <= q < p + 4);
    if q > p {
        assert(Buddy::fits_in(b.at(p), p, b.at(q)));
    }
}

/// Slabs stay where they are.
proof fn lemma_placed_set<T: AddressTranslator<()>>(b: Buddy, p: int, slab: SlabModel)
    requires
        b.has(p),
        placed::<T>(b),
        slab.start == T::virt_of((p * PAGE_SIZE) as usize),
    ensures
        placed::<T>(b.set(p, FrameUse::Slab(slab))),
{
    let after = b.set(p, FrameUse::Slab(slab));
    assert forall|q: int| #[trigger] after.has(q) implies match after.at(q) {
        FrameUse::Slab(s) => s.start == T::virt_of((q * PAGE_SIZE) as usize),
        _ => true,
    } by {
        assert(b.has(q));
    }
}

/// Objects in use stay in use when frames of their slab stay as they are, and no
/// object that is in use becomes free.
proof fn lemma_in_use_kept<T: AddressTranslator<()>>(b: Buddy, after: Buddy, k: nat, addr: int)
    requires
        in_use::<T>(b, k, addr),
        after.base == b.base,
        after.frames.len() == b.frames.len(),
        ({
            let q = T::phys_of(addr as usize) as int / PAGE_SIZE as int;
            let h = slab_of::<T>(b, addr);
            &&& q != h ==> after.at(q) == b.at(q)
            &&& is_slab(after.at(h), k)
            &&& slab_at(after, h).start == slab_at(b, h).start
            &&& slab_at(after, h).in_use(addr)
        }),
    ensures
        in_use::<T>(after, k, addr),
{
}

/// Objects are where the size class says.
pub(super) proof fn lemma_first_free(slab: SlabModel)
    requires
        slab.ok(),
        slab.free.len() > 0,
    ensures
        ({
            let addr = slab.object_addr(slab.free[0] as int);
            &&& slab.start <= addr < slab.start + SLAB_SIZE_BYTES
            &&& slab.index_at(addr) == slab.free[0]
            &&& !slab.in_use(addr)
            &&& slab.after_alloc().in_use(addr)
        }),
{
    slab.bounds();
    slab.lemma_object_addr(slab.free[0] as int);
    put_undoes_alloc(slab);
}

/// An object of a slab that is not given out stays in use.
proof fn lemma_others_in_use(slab: SlabModel, addr: int)
    requires
        slab.ok(),
        slab.in_use(addr),
        slab.free.len() > 0,
    ensures
        slab.after_alloc().in_use(addr),
{
    let t = slab.after_alloc();
    let i = slab.index_at(addr) as u16;
    if t.free.contains(i) {
        let k = choose|k: int| 0 <= k < t.free.len() && t.free[k] == i;
        assert(slab.free[k + 1] == i);
    }
}

/// An object that is given out by a used slab was not in use, is in use afterwards,
/// and all other objects that were in use still are.
pub proof fn reused_object_was_free<T: AddressTranslator<()>>(b: Buddy, m: Pool)
    requires
        b.wf(),
        m.ok(b),
        placed::<T>(b),
        accessible::<T>(b),
        m.partial.len() > 0 || m.free.len() > 0,
    ensures
        ({
            let (after, rest, object) = try_alloc(b, m);
            let addr = object->Some_0;
            &&& placed::<T>(after)
            &&& in_use::<T>(after, m.shift, addr)
            &&& forall|k: nat| !#[trigger] in_use::<T>(b, k, addr)
            &&& forall|k: nat, a: int| #[trigger]
                in_use::<T>(b, k, a) ==> in_use::<T>(after, k, a)
        }),
{
    lemma_try_alloc(b, m);
    let p = if m.partial.len() > 0 {
        m.partial.last()
    } else {
        m.free.last()
    };
    let (after, rest, object) = try_alloc(b, m);
    let addr = object->Some_0;
    let slab = slab_at(b, p);
    let next = slab.after_alloc();
    assert(b.block_ok(p, SLAB_FRAME_ALLOC_ORDER as nat));
    lemma_first_free(slab);
    assert(after.at(p) == FrameUse::Slab(next));
    lemma_placed_set::<T>(b, p, next);
    lemma_locate::<T>(b, p, addr);
    lemma_locate::<T>(after, p, addr);
    assert forall|k: nat, a: int| #[trigger] in_use::<T>(b, k, a) implies in_use::<T>(after, k, a) by {
        let h = slab_of::<T>(b, a);
        let q = T::phys_of(a as usize) as int / PAGE_SIZE as int;
        assert(after.at(h) == (if h == p {
            FrameUse::Slab(next)
        } else {
            b.at(h)
        }));
        if q != h {
            assert(b.at(q) is AllocatedTail);
            assert(q != p);
        }
        if h == p {
            lemma_others_in_use(slab, a);
        }
        lemma_in_use_kept::<T>(b, after, k, a);
    }
}

/// The first object of a new slab was not in use, is in use afterwards, and all
/// other objects that were in use still are.
pub proof fn new_slab_object_was_free<T: AddressTranslator<()>>(b: Buddy, m: Pool)
    requires
        b.wf(),
        m.ok(b),
        1 <= m.shift <= SLAB_MAX_OBJ_SHIFT,
        placed::<T>(b),
        accessible::<T>(b),
        b.alloc_block(SLAB_FRAME_ALLOC_ORDER as nat).1 is Some,
    ensures
        ({
            let (after, rest, addr) = alloc_new::<T>(b, m);
            &&& placed::<T>(after)
            &&& in_use::<T>(after, m.shift, addr)
            &&& forall|k: nat| !#[trigger] in_use::<T>(b, k, addr)
            &&& forall|k: nat, a: int| #[trigger]
                in_use::<T>(b, k, a) ==> in_use::<T>(after, k, a)
        }),
{
    let o = SLAB_FRAME_ALLOC_ORDER as nat;
    let (taken, block) = b.alloc_block(o);
    let p = block->Some_0;
    let (after, rest, addr) = alloc_new::<T>(b, m);
    lemma_alloc_new::<T>(b, m);
    alloc_takes_unused_pages(b, o);
    b.lemma_alloc_slabs(o);
    vstd::arithmetic::power2::lemma2_to64();
    assert(pow2(o) == 4);
    let start = T::virt_of((p * PAGE_SIZE) as usize) as int;
    let slab = SlabModel::fresh(m.shift, start);
    slab.bounds();
    lemma_first_free(slab);
    let next = slab.after_alloc();
    assert(after.at(p) == FrameUse::Slab(next));
    assert(placed::<T>(taken)) by {
        assert forall|q: int| #[trigger] taken.has(q) implies match taken.at(q) {
            FrameUse::Slab(s) => s.start == T::virt_of((q * PAGE_SIZE) as usize),
            _ => true,
        } by {
            assert(b.has(q));
        }
    }
    lemma_placed_set::<T>(taken, p, next);
    lemma_locate::<T>(after, p, addr);
    assert(addr == start) by {
        assert(slab.free[0] == 0);
        assert(0 * pow2(m.shift) == 0);
    }
    assert(taken.allocated(p));
    assert(!b.allocated(p));
    assert(T::phys_of(start as usize) == p * PAGE_SIZE) by {
        assert(reaches::<T>(p));
        assert(T::maps_virt(start as usize));
    }
    assert forall|k: nat| !#[trigger] in_use::<T>(b, k, addr) by {
        if in_use::<T>(b, k, addr) {
            let h = slab_of::<T>(b, addr);
            assert(b.has(p));
            if h == p {
                assert(taken.at(p) == b.at(p));
            } else {
                assert(b.at(p) is AllocatedTail);
                assert(taken.at(p) == b.at(p));
            }
        }
    }
    assert forall|k: nat, a: int| #[trigger] in_use::<T>(b, k, a) implies in_use::<T>(after, k, a) by {
        let h = slab_of::<T>(b, a);
        let q = T::phys_of(a as usize) as int / PAGE_SIZE as int;
        assert(b.has(h) && b.at(h) is Slab);
        assert(taken.at(h) == b.at(h));
        assert(h != p);
        assert(after.at(h) == b.at(h));
        if q != h {
            assert(b.at(q) is AllocatedTail);
            assert(taken.at(q) == b.at(q));
            assert(q != p);
            assert(after.at(q) == b.at(q));
        }
        lemma_in_use_kept::<T>(b, after, k, a);
    }
}

/// An object that is given out was not in use before, is in use afterwards, and all
/// other objects that were in use still are: objects in use are never given out
/// again.
pub proof fn allocated_object_was_free<T: AddressTranslator<()>>(b: Buddy, m: Pool)
    requires
        b.wf(),
        m.ok(b),
        1 <= m.shift <= SLAB_MAX_OBJ_SHIFT,
        placed::<T>(b),
        accessible::<T>(b),
        can_alloc(b, m),
    ensures
        ({
            let (after, rest, addr) = alloc_object::<T>(b, m);
            &&& placed::<T>(after)
            &&& in_use::<T>(after, m.shift, addr)
            &&& forall|k: nat| !#[trigger] in_use::<T>(b, k, addr)
            &&& forall|k: nat, a: int| #[trigger]
                in_use::<T>(b, k, a) ==> in_use::<T>(after, k, a)
        }),
{
    lemma_try_alloc(b, m);
    if m.partial.len() > 0 || m.free.len() > 0 {
        reused_object_was_free::<T>(b, m);
    } else {
        new_slab_object_was_free::<T>(b, m);
    }
}

/// An object that is taken back is not in use any more, and of the other objects
/// exactly those are in use that were.
pub proof fn freed_object_is_free<T: AddressTranslator<()>>(b: Buddy, m: Pool, addr: int)
    requires
        b.wf(),
        m.ok(b),
        placed::<T>(b),
        accessible::<T>(b),
        in_use::<T>(b, m.shift, addr),
    ensures
        ({
            let (after, rest) = free_object::<T>(b, m, addr);
            &&& placed::<T>(after)
            &&& forall|k: nat| !#[trigger] in_use::<T>(after, k, addr)
            &&& forall|k: nat, a: int| #[trigger]
                in_use::<T>(b, k, a) && a != addr ==> in_use::<T>(after, k, a)
            &&& forall|k: nat, a: int| #[trigger]
                in_use::<T>(after, k, a) ==> in_use::<T>(b, k, a)
        }),
{
    lemma_free_object::<T>(b, m, addr);
    let h = slab_of::<T>(b, addr);
    let old = slab_at(b, h);
    let new = old.after_put(addr);
    let put = b.set(h, FrameUse::Slab(new));
    let (after, rest) = free_object::<T>(b, m, addr);
    assert(b.block_ok(h, SLAB_FRAME_ALLOC_ORDER as nat));
    old.lemma_in_use(addr);
    new.bounds();
    assert(put.at(h) == FrameUse::Slab(new));
    lemma_placed_set::<T>(b, h, new);
    let drops = new.usage() == SlabState::Free && m.free.len() == MAX_FREE_SLABS;
    let gone = if drops {
        m.free.skip(m.free.len() - BATCH)
    } else {
        Seq::empty()
    };
    if drops {
        lemma_drop_slabs(put, m.free, BATCH as nat, m.shift);
    }
    assert forall|q: int| gone.contains(q) implies m.free.contains(q) by {
        let i = choose|i: int| 0 <= i < gone.len() && gone[i] == q;
        assert(m.free[m.free.len() - BATCH + i] == q);
    }
    assert(!gone.contains(h));
    assert(put.head_of(h) == h);
    assert(after.at(h) == put.at(h));
    assert(placed::<T>(after)) by {
        assert forall|q: int| #[trigger] after.has(q) implies match after.at(q) {
            FrameUse::Slab(s) => s.start == T::virt_of((q * PAGE_SIZE) as usize),
            _ => true,
        } by {
            assert(put.has(q));
            if after.at(q) is Slab {
                assert(after.at(q) == put.at(q));
            }
        }
    }
    lemma_locate::<T>(after, h, addr);
    assert forall|k: nat| !#[trigger] in_use::<T>(after, k, addr) by {
        assert(new.free[0] == new.index_at(addr) as u16);
        assert(new.free.contains(new.free[0]));
    }
    assert forall|k: nat, a: int| #[trigger] in_use::<T>(b, k, a) && a != addr implies in_use::<T>(
        after,
        k,
        a,
    ) by {
        let g = slab_of::<T>(b, a);
        let q = T::phys_of(a as usize) as int / PAGE_SIZE as int;
        let slab = slab_at(b, g);
        assert(b.has(g));
        assert(b.block_ok(g, SLAB_FRAME_ALLOC_ORDER as nat));
        slab.lemma_in_use(a);
        slab.bounds();
        assert(put.at(g) == (if g == h {
            FrameUse::Slab(new)
        } else {
            b.at(g)
        }));
        if gone.contains(g) {
            assert(m.free.contains(g));
            let i = choose|i: int| 0 <= i < m.free.len() && m.free[i] == g;
            assert(slab_at(b, m.free[i]).usage() == SlabState::Free);
        }
        assert(put.head_of(g) == g);
        assert(after.at(g) == put.at(g));
        if q != h && q != g {
            assert(put.at(q) == b.at(q));
        }
        if q != g {
            assert(b.at(q) is AllocatedTail);
            assert(put.at(q) == b.at(q));
            assert(put.head_of(q) == g);
            assert(after.at(q) == put.at(q));
        }
        if g == h {
            let (i, j) = (old.index_at(addr), old.index_at(a));
            assert(i != j);
            assert(!new.free.contains(j as u16)) by {
                if new.free.contains(j as u16) {
                    let x = choose|x: int| 0 <= x < new.free.len() && new.free[x] == j as u16;
                    if x > 0 {
                        assert(old.free[x - 1] == j as u16);
                    }
                }
            }
        }
        lemma_in_use_kept::<T>(b, after, k, a);
    }
    assert forall|k: nat, a: int| #[trigger] in_use::<T>(after, k, a) implies in_use::<T>(b, k, a) by {
        let g = slab_of::<T>(after, a);
        let s = slab_at(after, g);
        assert(after.has(g));
        assert(after.block_ok(g, SLAB_FRAME_ALLOC_ORDER as nat));
        s.lemma_in_use(a);
        s.bounds();
        assert(put.has(g) && after.at(g) == put.at(g));
        assert(put.at(g) == (if g == h {
            FrameUse::Slab(new)
        } else {
            b.at(g)
        }));
        lemma_locate::<T>(b, g, a);
        if g == h {
            let i = old.index_at(a) as u16;
            if old.free.contains(i) {
                let x = choose|x: int| 0 <= x < old.free.len() && old.free[x] == i;
                assert(new.free[x + 1] == i);
            }
        }
    }
}

/// Taking back an object right after a used slab gave it out restores the state.
pub proof fn free_undoes_try_alloc<T: AddressTranslator<()>>(b: Buddy, m: Pool)
    requires
        b.wf(),
        m.ok(b),
        placed::<T>(b),
        accessible::<T>(b),
        m.partial.len() > 0 || m.free.len() > 0,
    ensures
        ({
            let (after, rest, addr) = try_alloc(b, m);
            free_object::<T>(after, rest, addr->Some_0) == (b, m)
        }),
{
    lemma_try_alloc(b, m);
    reused_object_was_free::<T>(b, m);
    let (after, rest, object) = try_alloc(b, m);
    let addr = object->Some_0;
    let p = if m.partial.len() > 0 {
        m.partial.last()
    } else {
        m.free.last()
    };
    let slab = slab_at(b, p);
    assert(b.block_ok(p, SLAB_FRAME_ALLOC_ORDER as nat));
    put_undoes_alloc(slab);
    lemma_first_free(slab);
    assert(after.at(p) == FrameUse::Slab(slab.after_alloc()));
    lemma_locate::<T>(after, p, addr);
    lemma_free_object::<T>(after, rest, addr);
    let put = after.set(p, FrameUse::Slab(slab));
    assert(put =~= b) by {
        assert(put.frames =~= b.frames);
    }
    if m.partial.len() > 0 {
        assert(slab_at(b, m.partial[m.partial.len() - 1]).usage() == SlabState::Partial);
        if slab.after_alloc().usage() == SlabState::Full {
            assert(m.partial.drop_last().push(p) =~= m.partial);
        }
    } else {
        assert(slab_at(b, m.free[m.free.len() - 1]).usage() == SlabState::Free);
        assert(m.free.drop_last().push(p) =~= m.free);
        if slab.after_alloc().usage() == SlabState::Partial {
            let l = m.partial.push(p);
            let k = l.index_of(p);
            assert(l[m.partial.len() as int] == p);
            assert(0 <= k < l.len() && l[k] == p);
            assert(k == 0);
            assert(l.remove(k) =~= m.partial);
        }
    }
    assert(free_object::<T>(after, rest, addr).1 =~= m);
}

} // verus!
