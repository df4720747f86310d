//! The slabs of one size class, and what the operations on them keep.
use vstd::arithmetic::power2::pow2;
use vstd::prelude::*;

use crate::memory::address::AddressTranslator;
use crate::memory::allocators::frame::FrameUse;
use crate::memory::allocators::phys::buddy::Buddy;
use crate::memory::allocators::phys::laws::alloc_takes_unused_pages;
use crate::memory::allocators::slab::slab::{SlabModel, SlabState};
use crate::memory::allocators::slab::{
    SLAB_FRAME_ALLOC_ORDER, SLAB_MAX_OBJ_SHIFT, SLAB_SIZE_BYTES,
};
use crate::memory::PAGE_SIZE;

verus! {

/// The number of unused slabs from which on some of them are freed.
pub const MAX_FREE_SLABS: usize = 32;

/// The number of slabs that are freed at a time.
pub const BATCH: usize = 16;

/// The frames of the slabs of one size class that have free objects. The frame that
/// was added last comes last.
#[verifier::ext_equal]
pub ghost struct Pool {
    pub shift: nat,
    /// Slabs of which all objects are free.
    pub free: Seq<int>,
    /// Slabs of which some objects are free.
    pub partial: Seq<int>,
}

/// The slab at the frame.
pub open spec fn slab_at(b: Buddy, p: int) -> SlabModel {
    b.at(p)->Slab_0
}

/// The frame is the head of a slab of the size class.
pub open spec fn is_slab(s: FrameUse, shift: nat) -> bool {
    s matches FrameUse::Slab(slab) && slab.shift == shift
}

/// The frames are different, and are heads of slabs of the size class that are used
/// in the given way.
pub open spec fn all_slabs(b: Buddy, frames: Seq<int>, shift: nat, usage: SlabState) -> bool {
    &&& frames.no_duplicates()
    &&& forall|i: int|
        0 <= i < frames.len() ==> b.has(#[trigger] frames[i]) && is_slab(b.at(frames[i]), shift)
            && slab_at(b, frames[i]).usage() == usage
}

impl Pool {
    /// The lists hold all slabs of the size class that have free objects, each in the
    /// list that it belongs to.
    pub open spec fn ok(self, b: Buddy) -> bool {
        &&& self.free.len() <= MAX_FREE_SLABS
        &&& all_slabs(b, self.free, self.shift, SlabState::Free)
        &&& all_slabs(b, self.partial, self.shift, SlabState::Partial)
        &&& forall|p: int| #[trigger]
            b.has(p) && is_slab(b.at(p), self.shift) ==> match slab_at(b, p).usage() {
                SlabState::Free => self.free.contains(p),
                SlabState::Partial => self.partial.contains(p),
                SlabState::Full => true,
            }
    }
}

/// The first free object of the slab at the frame is given out.
pub open spec fn take_object(b: Buddy, p: int) -> Buddy {
    b.set(p, FrameUse::Slab(slab_at(b, p).after_alloc()))
}

/// The address of the first free object of the slab at the frame.
pub open spec fn next_object(b: Buddy, p: int) -> int {
    slab_at(b, p).object_addr(slab_at(b, p).free[0] as int)
}

/// An object is given out by a slab that has been used before, preferably by a
/// partially used one.
pub open spec fn try_alloc(b: Buddy, m: Pool) -> (Buddy, Pool, Option<int>) {
    if m.partial.len() > 0 {
        let p = m.partial.last();
        let after = take_object(b, p);
        let partial = if slab_at(after, p).usage() == SlabState::Partial {
            m.partial
        } else {
            m.partial.drop_last()
        };
        (after, Pool { partial, ..m }, Some(next_object(b, p)))
    } else if m.free.len() > 0 {
        let p = m.free.last();
        let after = take_object(b, p);
        let partial = if slab_at(after, p).usage() == SlabState::Partial {
            m.partial.push(p)
        } else {
            m.partial
        };
        (after, Pool { partial, free: m.free.drop_last(), ..m }, Some(next_object(b, p)))
    } else {
        (b, m, None)
    }
}

/// The first object of a new slab is given out.
pub open spec fn alloc_new<T: AddressTranslator<()>>(b: Buddy, m: Pool) -> (Buddy, Pool, int) {
    let (after, block) = b.alloc_block(SLAB_FRAME_ALLOC_ORDER as nat);
    let p = block->Some_0;
    let slab = SlabModel::fresh(m.shift, T::virt_of((p * PAGE_SIZE) as usize) as int);
    let partial = if slab.after_alloc().usage() == SlabState::Partial {
        m.partial.push(p)
    } else {
        m.partial
    };
    (
        after.set(p, FrameUse::Slab(slab.after_alloc())),
        Pool { partial, ..m },
        slab.object_addr(slab.free[0] as int),
    )
}

/// An object is given out, if need be by a new slab.
pub open spec fn alloc_object<T: AddressTranslator<()>>(b: Buddy, m: Pool) -> (Buddy, Pool, int) {
    match try_alloc(b, m) {
        (after, rest, Some(addr)) => (after, rest, addr),
        _ => alloc_new::<T>(b, m),
    }
}

/// There is a slab with a free object, or memory for a new one.
pub open spec fn can_alloc(b: Buddy, m: Pool) -> bool {
    m.partial.len() > 0 || m.free.len() > 0 || b.alloc_block(SLAB_FRAME_ALLOC_ORDER as nat).1 is Some
}

/// The last `n` of the slabs are freed.
pub open spec fn drop_slabs(b: Buddy, free: Seq<int>, n: nat) -> Buddy
    decreases n,
{
    if n == 0 {
        b
    } else {
        drop_slabs(b.free_slab(free.last()), free.drop_last(), (n - 1) as nat)
    }
}

/// The head of the slab that holds the address.
pub open spec fn slab_of<T: AddressTranslator<()>>(b: Buddy, addr: int) -> int {
    b.head_of(T::phys_of(addr as usize) as int / PAGE_SIZE as int)
}

/// The address is that of an object in use of a slab of the size class.
pub open spec fn in_use<T: AddressTranslator<()>>(b: Buddy, shift: nat, addr: int) -> bool {
    &&& T::maps_virt(addr as usize)
    &&& b.has(T::phys_of(addr as usize) as int / PAGE_SIZE as int)
    &&& b.has(slab_of::<T>(b, addr))
    &&& is_slab(b.at(slab_of::<T>(b, addr)), shift)
    &&& slab_at(b, slab_of::<T>(b, addr)).in_use(addr)
}

/// An object is taken back. When this leaves too many unused slabs, some of the
/// others are freed.
pub open spec fn free_object<T: AddressTranslator<()>>(b: Buddy, m: Pool, addr: int) -> (
    Buddy,
    Pool,
) {
    let h = slab_of::<T>(b, addr);
    let old = slab_at(b, h);
    let new = old.after_put(addr);
    let put = b.set(h, FrameUse::Slab(new));
    if new.usage() == SlabState::Free {
        let (after, free) = if m.free.len() == MAX_FREE_SLABS {
            (drop_slabs(put, m.free, BATCH as nat), m.free.take(m.free.len() - BATCH))
        } else {
            (put, m.free)
        };
        let partial = if old.usage() == SlabState::Full {
            m.partial
        } else {
            m.partial.remove(m.partial.index_of(h))
        };
        (after, Pool { free: free.push(h), partial, ..m })
    } else if old.usage() == SlabState::Full {
        (put, Pool { partial: m.partial.push(h), ..m })
    } else {
        (put, m)
    }
}

/// Slabs of other size classes are the same in both states.
pub open spec fn others_kept(b: Buddy, after: Buddy, shift: nat) -> bool {
    &&& after.base == b.base
    &&& after.frames.len() == b.frames.len()
    &&& forall|p: int, k: nat|
        #![trigger is_slab(b.at(p), k)]
        #![trigger is_slab(after.at(p), k)]
        b.has(p) && k != shift && (is_slab(b.at(p), k) || is_slab(after.at(p), k)) ==> after.at(p)
            == b.at(p)
}

/// Each slab is where the translator maps its frames to.
pub open spec fn placed<T: AddressTranslator<()>>(b: Buddy) -> bool {
    forall|p: int| #[trigger]
        b.has(p) ==> match b.at(p) {
            FrameUse::Slab(slab) => slab.start == T::virt_of((p * PAGE_SIZE) as usize),
            _ => true,
        }
}

/// The translator maps the memory of the slab at the frame to a run of addresses,
/// and back.
pub open spec fn reaches<T: AddressTranslator<()>>(p: int) -> bool {
    let start = T::virt_of((p * PAGE_SIZE) as usize);
    &&& T::maps_phys((p * PAGE_SIZE) as usize)
    &&& start + SLAB_SIZE_BYTES <= usize::MAX
    &&& forall|a: usize|
        start <= a < start + SLAB_SIZE_BYTES ==> #[trigger] T::maps_virt(a) && T::phys_of(a) == p
            * PAGE_SIZE + (a - start)
}

/// All memory that slabs can be made of can be accessed.
pub open spec fn accessible<T: AddressTranslator<()>>(b: Buddy) -> bool {
    forall|p: int|
        b.base <= p && p % 4 == 0 && p + 4 <= b.base + b.frames.len() ==> #[trigger] reaches::<T>(p)
}

/// A size class is not affected by operations on other size classes.
pub proof fn other_classes_are_kept(b: Buddy, after: Buddy, m: Pool, shift: nat)
    requires
        m.ok(b),
        others_kept(b, after, shift),
        m.shift != shift,
    ensures
        m.ok(after),
{
    assert forall|p: int| #[trigger] after.has(p) && is_slab(after.at(p), m.shift) implies match slab_at(
        after,
        p,
    ).usage() {
        SlabState::Free => m.free.contains(p),
        SlabState::Partial => m.partial.contains(p),
        SlabState::Full => true,
    } by {
        assert(b.has(p));
    }
    assert forall|i: int| 0 <= i < m.free.len() implies after.has(#[trigger] m.free[i]) && is_slab(
        after.at(m.free[i]),
        m.shift,
    ) && slab_at(after, m.free[i]).usage() == SlabState::Free by {
        assert(is_slab(b.at(m.free[i]), m.shift));
    }
    assert forall|i: int| 0 <= i < m.partial.len() implies after.has(#[trigger] m.partial[i])
        && is_slab(after.at(m.partial[i]), m.shift) && slab_at(after, m.partial[i]).usage()
        == SlabState::Partial by {
        assert(is_slab(b.at(m.partial[i]), m.shift));
    }
}

/// Changing one slab of the size class.
pub proof fn lemma_set_slab(b: Buddy, p: int, slab: SlabModel, shift: nat)
    requires
        b.wf(),
        b.has(p),
        is_slab(b.at(p), shift),
        slab.shift == shift,
        slab.ok(),
    ensures
        b.set(p, FrameUse::Slab(slab)).wf(),
        others_kept(b, b.set(p, FrameUse::Slab(slab)), shift),
        forall|q: int|
            b.has(q) ==> #[trigger] b.set(p, FrameUse::Slab(slab)).at(q) == (if q == p {
                FrameUse::Slab(slab)
            } else {
                b.at(q)
            }),
{
    b.lemma_rehead(p, FrameUse::Slab(slab));
}

/// The frame of a slab is not in the other list.
proof fn lemma_one_list(b: Buddy, m: Pool, p: int)
    requires
        m.ok(b),
    ensures
        m.partial.contains(p) ==> b.has(p) && is_slab(b.at(p), m.shift) && slab_at(b, p).usage()
            == SlabState::Partial && !m.free.contains(p),
        m.free.contains(p) ==> b.has(p) && is_slab(b.at(p), m.shift) && slab_at(b, p).usage()
            == SlabState::Free && !m.partial.contains(p),
{
    if m.partial.contains(p) {
        let i = choose|i: int| 0 <= i < m.partial.len() && m.partial[i] == p;
        assert(b.has(m.partial[i]));
    }
    if m.free.contains(p) {
        let i = choose|i: int| 0 <= i < m.free.len() && m.free[i] == p;
        assert(b.has(m.free[i]));
    }
}

/// Facts about the values of a sequence of different values.
proof fn lemma_unique_ends(s: Seq<int>)
    requires
        s.no_duplicates(),
        s.len() > 0,
    ensures
        s.drop_last().no_duplicates(),
        s.contains(s.last()),
        forall|x: int| #[trigger] s.drop_last().contains(x) <==> s.contains(x) && x != s.last(),
{
    let t = s.drop_last();
    assert forall|x: int| #[trigger] t.contains(x) <==> s.contains(x) && x != s.last() by {
        if t.contains(x) {
            let i = choose|i: int| 0 <= i < t.len() && t[i] == x;
            assert(s[i] == x);
        }
        if s.contains(x) && x != s.last() {
            let i = choose|i: int| 0 <= i < s.len() && s[i] == x;
            assert(t[i] == x);
        }
    }
}

/// Adding a new value to a sequence of different values.
proof fn lemma_unique_push(s: Seq<int>, v: int)
    requires
        s.no_duplicates(),
        !s.contains(v),
    ensures
        s.push(v).no_duplicates(),
        forall|x: int| #[trigger] s.push(v).contains(x) <==> s.contains(x) || x == v,
{
    let t = s.push(v);
    assert forall|i: int, j: int| 0 <= i < t.len() && 0 <= j < t.len() && i != j implies t[i]
        != t[j] by {
        if i == s.len() {
            assert(s.contains(s[j]));
        } else if j == s.len() {
            assert(s.contains(s[i]));
        }
    }
    assert forall|x: int| #[trigger] t.contains(x) <==> s.contains(x) || x == v by {
        if t.contains(x) {
            let i = choose|i: int| 0 <= i < t.len() && t[i] == x;
            if i < s.len() {
                assert(s[i] == x);
            }
        }
        if s.contains(x) {
            let i = choose|i: int| 0 <= i < s.len() && s[i] == x;
            assert(t[i] == x);
        }
        assert(t[s.len() as int] == v);
    }
}

/// The lists are the right ones if they hold the right frames.
proof fn lemma_ok(b: Buddy, m: Pool)
    requires
        m.free.len() <= MAX_FREE_SLABS,
        m.free.no_duplicates(),
        m.partial.no_duplicates(),
        forall|p: int|
            #![trigger b.has(p)]
            #![trigger m.free.contains(p)]
            m.free.contains(p) <==> b.has(p) && is_slab(b.at(p), m.shift) && slab_at(b, p).usage()
                == SlabState::Free,
        forall|p: int|
            #![trigger b.has(p)]
            #![trigger m.partial.contains(p)]
            m.partial.contains(p) <==> b.has(p) && is_slab(b.at(p), m.shift) && slab_at(
                b,
                p,
            ).usage() == SlabState::Partial,
    ensures
        m.ok(b),
{
    assert forall|i: int| 0 <= i < m.free.len() implies b.has(#[trigger] m.free[i]) && is_slab(
        b.at(m.free[i]),
        m.shift,
    ) && slab_at(b, m.free[i]).usage() == SlabState::Free by {
        assert(m.free.contains(m.free[i]));
    }
    assert forall|i: int| 0 <= i < m.partial.len() implies b.has(#[trigger] m.partial[i]) && is_slab(
        b.at(m.partial[i]),
        m.shift,
    ) && slab_at(b, m.partial[i]).usage() == SlabState::Partial by {
        assert(m.partial.contains(m.partial[i]));
    }
}

/// Giving out an object of a used slab.
pub proof fn lemma_try_alloc(b: Buddy, m: Pool)
    requires
        b.wf(),
        m.ok(b),
    ensures
        ({
            let (after, rest, addr) = try_alloc(b, m);
            &&& after.wf()
            &&& rest.ok(after)
            &&& rest.shift == m.shift
            &&& others_kept(b, after, m.shift)
            &&& addr is Some <==> m.partial.len() > 0 || m.free.len() > 0
        }),
        m.partial.len() > 0 ==> b.has(m.partial.last()) && is_slab(b.at(m.partial.last()), m.shift)
            && slab_at(b, m.partial.last()).free.len() > 0,
        m.free.len() > 0 ==> b.has(m.free.last()) && is_slab(b.at(m.free.last()), m.shift)
            && slab_at(b, m.free.last()).free.len() > 0,
{
    if m.free.len() > 0 {
        let p = m.free.last();
        assert(b.has(m.free[m.free.len() - 1]));
        assert(b.block_ok(p, SLAB_FRAME_ALLOC_ORDER as nat));
        slab_at(b, p).bounds();
    }
    if m.partial.len() > 0 {
        let p = m.partial.last();
        assert(b.has(m.partial[m.partial.len() - 1]));
    }
    if m.partial.len() > 0 || m.free.len() > 0 {
        let p = if m.partial.len() > 0 {
            m.partial.last()
        } else {
            m.free.last()
        };
        let (after, rest, addr) = try_alloc(b, m);
        assert(b.has(p));
        assert(b.block_ok(p, SLAB_FRAME_ALLOC_ORDER as nat));
        let slab = slab_at(b, p);
        let next = slab.after_alloc();
        slab.bounds();
        assert(next.ok()) by {
            assert forall|k: int| 0 <= k < next.free.len() implies (#[trigger] next.free[k])
                < next.objects() by {
                assert(next.free[k] == slab.free[k + 1]);
            }
        }
        lemma_set_slab(b, p, next, m.shift);
        lemma_one_list(b, m, p);
        if m.partial.len() > 0 {
            lemma_unique_ends(m.partial);
        } else {
            lemma_unique_ends(m.free);
            lemma_unique_push(m.partial, p);
        }
        assert forall|q: int|
            #![trigger after.has(q)]
            #![trigger rest.free.contains(q)]
            #![trigger rest.partial.contains(q)]
            (rest.free.contains(q) <==> after.has(q) && is_slab(after.at(q), m.shift) && slab_at(
                after,
                q,
            ).usage() == SlabState::Free) && (rest.partial.contains(q) <==> after.has(q) && is_slab(
                after.at(q),
                m.shift,
            ) && slab_at(after, q).usage() == SlabState::Partial) by {
            lemma_one_list(b, m, q);
            lemma_one_list(b, m, p);
            assert(after.has(q) == b.has(q));
        }
        lemma_ok(after, rest);
    } else {
        assert(others_kept(b, b, m.shift));
    }
}

/// Giving out an object of a new slab.
pub proof fn lemma_alloc_new<T: AddressTranslator<()>>(b: Buddy, m: Pool)
    requires
        b.wf(),
        m.ok(b),
        1 <= m.shift <= SLAB_MAX_OBJ_SHIFT,
        b.alloc_block(SLAB_FRAME_ALLOC_ORDER as nat).1 is Some,
        accessible::<T>(b),
    ensures
        ({
            let (after, rest, addr) = alloc_new::<T>(b, m);
            let (taken, block) = b.alloc_block(SLAB_FRAME_ALLOC_ORDER as nat);
            let p = block->Some_0;
            &&& after.wf()
            &&& rest.ok(after)
            &&& rest.shift == m.shift
            &&& others_kept(b, after, m.shift)
            &&& reaches::<T>(p)
            &&& p % 4 == 0
            &&& after.has(p)
            &&& taken.wf()
            &&& SlabModel::fresh(m.shift, T::virt_of((p * PAGE_SIZE) as usize) as int).ok()
        }),
{
    let o = SLAB_FRAME_ALLOC_ORDER as nat;
    let (after, rest, addr) = alloc_new::<T>(b, m);
    let (taken, block) = b.alloc_block(o);
    let p = block->Some_0;
    vstd::arithmetic::power2::lemma2_to64();
    assert(pow2(o) == 4);
    alloc_takes_unused_pages(b, o);
    b.lemma_alloc_slabs(o);
    assert(reaches::<T>(p));
    let slab = SlabModel::fresh(m.shift, T::virt_of((p * PAGE_SIZE) as usize) as int);
    let n = slab.objects();
    assert(slab.ok()) by {
        crate::memory::allocators::slab::slab::lemma_objects_per_slab(m.shift);
        assert forall|i: int, j: int|
            0 <= i < slab.free.len() && 0 <= j < slab.free.len() && i != j implies slab.free[i]
            != slab.free[j] by {}
    }
    slab.bounds();
    let next = slab.after_alloc();
    assert(next.ok()) by {
        assert forall|k: int| 0 <= k < next.free.len() implies (#[trigger] next.free[k])
            < next.objects() by {
            assert(next.free[k] == slab.free[k + 1]);
        }
    }
    taken.lemma_rehead(p, FrameUse::Slab(next));
    assert(taken.allocated(p));
    assert(!b.allocated(p));
    assert(b.has(p));
    assert(b.at(p) !is Slab) by {
        if b.at(p) is Slab {
            assert(taken.at(p) == b.at(p));
        }
    }
    assert forall|q: int| b.has(q) && (b.at(q) is Slab || after.at(q) is Slab) && q
        != p implies #[trigger] after.at(q) == b.at(q) by {
        assert(after.at(q) == taken.at(q));
    }
    assert(others_kept(b, after, m.shift));
    assert(!m.partial.contains(p)) by {
        lemma_one_list(b, m, p);
    }
    lemma_unique_push(m.partial, p);
    assert(next.usage() != SlabState::Free);
    assert forall|q: int|
        #![trigger after.has(q)]
        #![trigger rest.free.contains(q)]
        #![trigger rest.partial.contains(q)]
        (rest.free.contains(q) <==> after.has(q) && is_slab(after.at(q), m.shift) && slab_at(
            after,
            q,
        ).usage() == SlabState::Free) && (rest.partial.contains(q) <==> after.has(q) && is_slab(
            after.at(q),
            m.shift,
        ) && slab_at(after, q).usage() == SlabState::Partial) by {
        lemma_one_list(b, m, q);
        assert(after.has(q) == b.has(q));
        if q == p {
            assert(after.at(p) == FrameUse::Slab(next));
        } else if b.has(q) && (b.at(q) is Slab || after.at(q) is Slab) {
            assert(after.at(q) == b.at(q));
        }
    }
    lemma_ok(after, rest);
}

/// Freeing some of the unused slabs.
pub proof fn lemma_drop_slabs(b: Buddy, free: Seq<int>, n: nat, shift: nat)
    requires
        b.wf(),
        n <= free.len(),
        free.no_duplicates(),
        forall|i: int| 0 <= i < free.len() ==> b.has(#[trigger] free[i]) && is_slab(
            b.at(free[i]),
            shift,
        ),
    ensures
        ({
            let after = drop_slabs(b, free, n);
            &&& after.wf()
            &&& after.base == b.base
            &&& after.frames.len() == b.frames.len()
            &&& forall|q: int|
                b.has(q) && b.at(q) is Slab && !free.skip(free.len() - n).contains(q)
                    ==> #[trigger] after.at(q) == b.at(q)
            &&& forall|q: int|
                b.has(q) && #[trigger] after.at(q) is Slab ==> after.at(q) == b.at(q) && !free.skip(
                    free.len() - n,
                ).contains(q)
            &&& after.free_pages == b.free_pages + n * pow2(SLAB_FRAME_ALLOC_ORDER as nat)
            &&& forall|q: int|
                b.has(q) && b.has(b.head_of(q)) && b.at(b.head_of(q)) is Slab && !free.skip(
                    free.len() - n,
                ).contains(b.head_of(q)) ==> #[trigger] after.at(q) == b.at(q)
        }),
    decreases n,
{
    let dropped = free.skip(free.len() - n);
    if n > 0 {
        let p = free.last();
        assert(b.has(free[free.len() - 1]));
        b.lemma_free_slab(p);
        let b1 = b.free_slab(p);
        let front = free.drop_last();
        assert forall|i: int| 0 <= i < front.len() implies b1.has(#[trigger] front[i]) && is_slab(
            b1.at(front[i]),
            shift,
        ) by {
            assert(front[i] == free[i]);
            assert(b.has(free[i]));
            assert(free[i] != free[free.len() - 1]);
        }
        lemma_unique_ends(free);
        lemma_drop_slabs(b1, front, (n - 1) as nat, shift);
        let after = drop_slabs(b, free, n);
        assert(after == drop_slabs(b1, front, (n - 1) as nat));
        let rest = front.skip(front.len() - (n - 1));
        assert(dropped =~= rest.push(p));
        assert forall|q: int| #[trigger] dropped.contains(q) <==> rest.contains(q) || q == p by {
            assert(rest.push(p)[rest.len() as int] == p);
            if rest.contains(q) {
                let i = choose|i: int| 0 <= i < rest.len() && rest[i] == q;
                assert(dropped[i] == q);
            }
            if dropped.contains(q) {
                let i = choose|i: int| 0 <= i < dropped.len() && dropped[i] == q;
                if i < rest.len() {
                    assert(rest[i] == q);
                }
            }
        }
        assert forall|q: int| b.has(q) && b.at(q) is Slab && !dropped.contains(q) implies #[trigger] after.at(
            q,
        ) == b.at(q) by {
            assert(b1.has(q) && b1.at(q) == b.at(q));
        }
        assert forall|q: int| b.has(q) && #[trigger] after.at(q) is Slab implies after.at(q) == b.at(
            q,
        ) && !dropped.contains(q) by {
            assert(b1.has(q) && after.at(q) == b1.at(q));
        }
        assert forall|q: int|
            b.has(q) && b.has(b.head_of(q)) && b.at(b.head_of(q)) is Slab && !dropped.contains(
                b.head_of(q),
            ) implies #[trigger] after.at(q) == b.at(q) by {
            let h = b.head_of(q);
            assert(b1.has(q) && b1.at(q) == b.at(q));
            assert(b1.has(h) && b1.at(h) == b.at(h));
            assert(b1.head_of(q) == h);
        }
        let w = pow2(SLAB_FRAME_ALLOC_ORDER as nat) as int;
        assert(n * w == (n - 1) * w + w) by (nonlinear_arith);
    } else {
        assert(dropped =~= Seq::empty());
    }
}

/// Removing a value from a sequence of different values.
proof fn lemma_unique_remove(s: Seq<int>, v: int)
    requires
        s.no_duplicates(),
        s.contains(v),
    ensures
        0 <= s.index_of(v) < s.len(),
        s[s.index_of(v)] == v,
        s.remove(s.index_of(v)).no_duplicates(),
        forall|x: int| #[trigger] s.remove(s.index_of(v)).contains(x) <==> s.contains(x) && x != v,
{
    let k = s.index_of(v);
    let j = choose|j: int| 0 <= j < s.len() && s[j] == v;
    assert(0 <= k < s.len() && s[k] == v);
    let t = s.remove(k);
    assert forall|i: int| 0 <= i < t.len() implies #[trigger] t[i] == (if i < k {
        s[i]
    } else {
        s[i + 1]
    }) by {}
    assert forall|x: int| #[trigger] t.contains(x) <==> s.contains(x) && x != v by {
        if t.contains(x) {
            let i = choose|i: int| 0 <= i < t.len() && t[i] == x;
            if i < k {
                assert(s[i] == x);
            } else {
                assert(s[i + 1] == x);
            }
        }
        if s.contains(x) && x != v {
            let i = choose|i: int| 0 <= i < s.len() && s[i] == x;
            if i < k {
                assert(t[i] == x);
            } else {
                assert(t[i - 1] == x);
            }
        }
    }
}

/// Taking an object back.
pub proof fn lemma_free_object<T: AddressTranslator<()>>(b: Buddy, m: Pool, addr: int)
    requires
        b.wf(),
        m.ok(b),
        in_use::<T>(b, m.shift, addr),
    ensures
        ({
            let h = slab_of::<T>(b, addr);
            let put = b.set(h, FrameUse::Slab(slab_at(b, h).after_put(addr)));
            let (after, rest) = free_object::<T>(b, m, addr);
            &&& after.wf()
            &&& rest.ok(after)
            &&& rest.shift == m.shift
            &&& others_kept(b, after, m.shift)
            &&& put.wf()
            &&& slab_at(b, h).usage() != SlabState::Free
            &&& slab_at(b, h).after_put(addr).usage() != SlabState::Full
            &&& slab_at(b, h).usage() == SlabState::Partial ==> m.partial.contains(h)
            &&& !m.free.contains(h)
            &&& forall|i: int| 0 <= i < m.free.len() ==> put.has(#[trigger] m.free[i]) && is_slab(
                put.at(m.free[i]),
                m.shift,
            )
        }),
{
    let h = slab_of::<T>(b, addr);
    let old = slab_at(b, h);
    let new = old.after_put(addr);
    let put = b.set(h, FrameUse::Slab(new));
    let (after, rest) = free_object::<T>(b, m, addr);
    assert(b.has(h));
    assert(b.block_ok(h, SLAB_FRAME_ALLOC_ORDER as nat));
    old.bounds();
    old.lemma_in_use(addr);
    new.bounds();
    assert(new.free.len() == old.free.len() + 1);
    lemma_set_slab(b, h, new, m.shift);
    lemma_one_list(b, m, h);
    assert forall|i: int| 0 <= i < m.free.len() implies put.has(#[trigger] m.free[i]) && is_slab(
        put.at(m.free[i]),
        m.shift,
    ) by {
        assert(b.has(m.free[i]));
        assert(m.free.contains(m.free[i]));
    }
    if m.partial.contains(h) {
        lemma_unique_remove(m.partial, h);
    } else {
        lemma_unique_push(m.partial, h);
    }
    let keep = m.free.len() - BATCH;
    let kept = if new.usage() == SlabState::Free && m.free.len() == MAX_FREE_SLABS {
        m.free.take(keep)
    } else {
        m.free
    };
    let gone = if new.usage() == SlabState::Free && m.free.len() == MAX_FREE_SLABS {
        m.free.skip(keep)
    } else {
        Seq::empty()
    };
    assert forall|q: int| #![trigger kept.contains(q)] #![trigger gone.contains(q)]
        (m.free.contains(q) <==> kept.contains(q) || gone.contains(q)) && !(kept.contains(q)
            && gone.contains(q)) by {
        if kept.contains(q) {
            let i = choose|i: int| 0 <= i < kept.len() && kept[i] == q;
            assert(m.free[i] == q);
            if gone.contains(q) {
                let j = choose|j: int| 0 <= j < gone.len() && gone[j] == q;
                assert(m.free[keep + j] == q);
            }
        }
        if gone.contains(q) {
            let j = choose|j: int| 0 <= j < gone.len() && gone[j] == q;
            assert(m.free[keep + j] == q);
        }
        if m.free.contains(q) {
            let i = choose|i: int| 0 <= i < m.free.len() && m.free[i] == q;
            if i < kept.len() {
                assert(kept[i] == q);
            } else {
                assert(gone[i - keep] == q);
            }
        }
    }
    assert(kept.no_duplicates());
    assert(!kept.contains(h));
    lemma_unique_push(kept, h);
    if new.usage() == SlabState::Free && m.free.len() == MAX_FREE_SLABS {
        lemma_drop_slabs(put, m.free, BATCH as nat, m.shift);
    }
    assert forall|q: int| #![trigger after.at(q)]
        b.has(q) && (put.at(q) is Slab || after.at(q) is Slab) implies (if gone.contains(q) {
        after.at(q) !is Slab && put.at(q) is Slab
    } else {
        after.at(q) == put.at(q)
    }) by {
        assert(put.has(q));
        if gone.contains(q) {
            assert(m.free.contains(q));
            lemma_one_list(b, m, q);
        }
    }
    assert(others_kept(b, after, m.shift)) by {
        assert forall|q: int, k: nat|
            #![trigger is_slab(b.at(q), k)]
            #![trigger is_slab(after.at(q), k)]
            b.has(q) && k != m.shift && (is_slab(b.at(q), k) || is_slab(
                after.at(q),
                k,
            )) implies after.at(q) == b.at(q) by {
            assert(put.at(q) == (if q == h {
                FrameUse::Slab(new)
            } else {
                b.at(q)
            }));
            if gone.contains(q) {
                assert(m.free.contains(q));
                lemma_one_list(b, m, q);
            }
        }
    }
    assert forall|q: int|
        #![trigger after.has(q)]
        #![trigger rest.free.contains(q)]
        #![trigger rest.partial.contains(q)]
        (rest.free.contains(q) <==> after.has(q) && is_slab(after.at(q), m.shift) && slab_at(
            after,
            q,
        ).usage() == SlabState::Free) && (rest.partial.contains(q) <==> after.has(q) && is_slab(
            after.at(q),
            m.shift,
        ) && slab_at(after, q).usage() == SlabState::Partial) by {
        lemma_one_list(b, m, q);
        assert(after.has(q) == b.has(q));
        if b.has(q) {
            assert(put.at(q) == (if q == h {
                FrameUse::Slab(new)
            } else {
                b.at(q)
            }));
            assert(after.at(q) == after.at(q));
        }
        assert(kept.contains(q) || !kept.contains(q));
    }
    lemma_ok(after, rest);
}

} // verus!
