//! Per-object-size slab cache management.
use vstd::prelude::*;

use crate::memory::address::{AddressTranslator, VA};
use crate::memory::allocators::phys::buddy::Buddy;
use crate::memory::allocators::phys::FrameAllocator;
use crate::memory::allocators::slab::allocator::{pools_ok, SlabAllocator, SlabManager};
use crate::memory::allocators::slab::laws::{freed_object_is_free, reused_object_was_free};
use crate::memory::allocators::slab::pool::{
    accessible, free_object, in_use, is_slab, lemma_free_object, lemma_try_alloc, other_classes_are_kept,
    others_kept, placed, try_alloc, Pool,
};
use crate::memory::allocators::slab::{alloc_order, is_class, size_class, SLAB_MAX_OBJ_SHIFT};

verus! {

/// The number of pointers that a cache holds.
pub const PTRS_PER_SZ_CLASS: usize = 32;

/// The addresses are those of different objects in use of the size class.
pub open spec fn cached_ok<T: AddressTranslator<()>>(b: Buddy, shift: nat, c: Seq<int>) -> bool {
    &&& c.no_duplicates()
    &&& forall|i: int| 0 <= i < c.len() ==> in_use::<T>(b, shift, #[trigger] c[i])
}

/// The cache is filled with objects of used slabs, as far as there are any.
pub open spec fn fill(b: Buddy, m: Pool, c: Seq<int>) -> (Buddy, Pool, Seq<int>)
    decreases PTRS_PER_SZ_CLASS - c.len(),
{
    if c.len() < PTRS_PER_SZ_CLASS {
        match try_alloc(b, m) {
            (after, rest, Some(addr)) => fill(after, rest, c.push(addr)),
            _ => (b, m, c),
        }
    } else {
        (b, m, c)
    }
}

/// The last `n` objects of the cache are freed, the last one first.
pub open spec fn drain<T: AddressTranslator<()>>(b: Buddy, m: Pool, c: Seq<int>, n: nat) -> (
    Buddy,
    Pool,
    Seq<int>,
)
    decreases n,
{
    if n == 0 {
        (b, m, c)
    } else {
        let (after, rest) = free_object::<T>(b, m, c.last());
        drain::<T>(after, rest, c.drop_last(), (n - 1) as nat)
    }
}

/// All objects of the cache are freed, the first one first.
pub open spec fn purge<T: AddressTranslator<()>>(b: Buddy, m: Pool, c: Seq<int>) -> (Buddy, Pool)
    decreases c.len(),
{
    if c.len() == 0 {
        (b, m)
    } else {
        let (after, rest) = purge::<T>(b, m, c.drop_last());
        free_object::<T>(after, rest, c.last())
    }
}

/// The objects of the first `n` caches are freed.
pub open spec fn purge_all<T: AddressTranslator<()>>(
    b: Buddy,
    pools: Seq<Pool>,
    caches: Seq<Seq<int>>,
    n: nat,
) -> (Buddy, Seq<Pool>)
    decreases n,
{
    if n == 0 {
        (b, pools)
    } else {
        let k = n - 1;
        let (b1, pools1) = purge_all::<T>(b, pools, caches, k as nat);
        let (after, m) = purge::<T>(b1, pools1[k], caches[k]);
        (after, pools1.update(k, m))
    }
}

/// Filling a cache keeps the objects in it in use and different.
pub proof fn lemma_fill_step<T: AddressTranslator<()>>(b: Buddy, m: Pool, c: Seq<int>)
    requires
        b.wf(),
        m.ok(b),
        placed::<T>(b),
        accessible::<T>(b),
        cached_ok::<T>(b, m.shift, c),
        m.partial.len() > 0 || m.free.len() > 0,
    ensures
        ({
            let (after, rest, addr) = try_alloc(b, m);
            &&& placed::<T>(after)
            &&& accessible::<T>(after)
            &&& cached_ok::<T>(after, m.shift, c.push(addr->Some_0))
            &&& forall|k: nat, a: int| #[trigger]
                in_use::<T>(b, k, a) ==> in_use::<T>(after, k, a)
        }),
{
    lemma_try_alloc(b, m);
    reused_object_was_free::<T>(b, m);
    let (after, rest, object) = try_alloc(b, m);
    let addr = object->Some_0;
    let d = c.push(addr);
    assert(!in_use::<T>(b, m.shift, addr));
    assert forall|i: int| 0 <= i < d.len() implies in_use::<T>(after, m.shift, #[trigger] d[i]) by {
        if i < c.len() {
            assert(in_use::<T>(b, m.shift, c[i]));
        }
    }
    assert forall|i: int, j: int| 0 <= i < d.len() && 0 <= j < d.len() && i != j implies d[i]
        != d[j] by {
        if i < c.len() {
            assert(in_use::<T>(b, m.shift, c[i]));
        }
        if j < c.len() {
            assert(in_use::<T>(b, m.shift, c[j]));
        }
    }
}

/// Freeing one object of a cache keeps the others in use.
pub proof fn lemma_free_step<T: AddressTranslator<()>>(b: Buddy, m: Pool, addr: int)
    requires
        b.wf(),
        m.ok(b),
        placed::<T>(b),
        accessible::<T>(b),
        in_use::<T>(b, m.shift, addr),
    ensures
        ({
            let (after, rest) = free_object::<T>(b, m, addr);
            &&& placed::<T>(after)
            &&& accessible::<T>(after)
            &&& forall|k: nat, c: Seq<int>| #[trigger]
                cached_ok::<T>(b, k, c) && (k != m.shift || !c.contains(addr)) ==> cached_ok::<T>(
                    after,
                    k,
                    c,
                )
        }),
{
    lemma_free_object::<T>(b, m, addr);
    freed_object_is_free::<T>(b, m, addr);
    let (after, rest) = free_object::<T>(b, m, addr);
    assert forall|k: nat, c: Seq<int>| #[trigger]
        cached_ok::<T>(b, k, c) && (k != m.shift || !c.contains(addr)) implies cached_ok::<T>(
        after,
        k,
        c,
    ) by {
        assert forall|i: int| 0 <= i < c.len() implies in_use::<T>(after, k, #[trigger] c[i]) by {
            assert(in_use::<T>(b, k, c[i]));
            assert(c.contains(c[i]));
        }
    }
}

/// A fixed-size cache of recently freed pointers for a single size class.
pub struct PtrCache {
    pub(crate) ptrs: Vec<VA>,
}

impl View for PtrCache {
    type V = Seq<int>;

    open(crate) spec fn view(&self) -> Seq<int> {
        Seq::new(self.ptrs@.len(), |i: int| self.ptrs@[i].addr() as int)
    }
}

impl PtrCache {
    /// There are not too many pointers.
    pub open spec fn wf(self) -> bool {
        self@.len() <= PTRS_PER_SZ_CLASS
    }

    /// Creates an empty pointer cache.
    pub fn new() -> (r: Self)
        ensures
            r.wf(),
            r@ == Seq::<int>::empty(),
    {
        let r = Self { ptrs: Vec::new() };
        assert(r@ =~= Seq::empty());
        r
    }

    /// Returns `true` if no pointers are cached.
    pub fn is_empty(&self) -> (r: bool)
        ensures
            r == (self@.len() == 0),
    {
        self.ptrs.len() == 0
    }

    /// Returns `true` if the cache has no remaining capacity.
    pub fn is_full(&self) -> (r: bool)
        ensures
            r == (self@.len() == PTRS_PER_SZ_CLASS),
    {
        self.ptrs.len() == PTRS_PER_SZ_CLASS
    }

    /// Caches as many allocations from the slabs as possible.
    pub fn fill_from<T: AddressTranslator<()>>(
        &mut self,
        slab_alloc: &mut SlabManager<T>,
        frames: &mut FrameAllocator,
    )
        requires
            old(self).wf(),
            old(slab_alloc).wf(),
            old(frames).wf(),
            old(slab_alloc)@.ok(old(frames)@),
            placed::<T>(old(frames)@),
            accessible::<T>(old(frames)@),
            cached_ok::<T>(old(frames)@, old(slab_alloc)@.shift, old(self)@),
        ensures
            final(self).wf(),
            final(slab_alloc).wf(),
            final(frames).wf(),
            final(slab_alloc)@.ok(final(frames)@),
            final(slab_alloc)@.shift == old(slab_alloc)@.shift,
            placed::<T>(final(frames)@),
            accessible::<T>(final(frames)@),
            cached_ok::<T>(final(frames)@, old(slab_alloc)@.shift, final(self)@),
            others_kept(old(frames)@, final(frames)@, old(slab_alloc)@.shift),
            (final(frames)@, final(slab_alloc)@, final(self)@) == fill(
                old(frames)@,
                old(slab_alloc)@,
                old(self)@,
            ),
            forall|k: nat, a: int| #[trigger]
                in_use::<T>(old(frames)@, k, a) ==> in_use::<T>(final(frames)@, k, a),
    {
        let ghost b0 = frames@;
        let ghost m0 = slab_alloc@;
        let ghost c0 = self@;
        while !self.is_full()
            invariant
                self.wf(),
                slab_alloc.wf(),
                frames.wf(),
                slab_alloc@.ok(frames@),
                slab_alloc@.shift == m0.shift,
                placed::<T>(frames@),
                accessible::<T>(frames@),
                cached_ok::<T>(frames@, m0.shift, self@),
                others_kept(b0, frames@, m0.shift),
                fill(frames@, slab_alloc@, self@) == fill(b0, m0, c0),
                b0 == old(frames)@,
                m0 == old(slab_alloc)@,
                c0 == old(self)@,
                forall|k: nat, a: int| #[trigger]
                    in_use::<T>(b0, k, a) ==> in_use::<T>(frames@, k, a),
            decreases PTRS_PER_SZ_CLASS - self@.len(),
        {
            let ghost b = frames@;
            let ghost m = slab_alloc@;
            let ghost c = self@;
            proof {
                lemma_try_alloc(b, m);
                if m.partial.len() > 0 || m.free.len() > 0 {
                    lemma_fill_step::<T>(b, m, c);
                }
            }
            match slab_alloc.try_alloc(frames) {
                Some(ptr) => {
                    self.ptrs.push(ptr);
                    assert(self@ =~= c.push(ptr.addr() as int));
                    proof {
                        lemma_others_kept_twice(b0, b, frames@, m0.shift);
                    }
                },
                None => {
                    return ;
                },
            }
        }
    }

    /// Frees half of the cached allocations into `slab_alloc`.
    pub fn drain_into<T: AddressTranslator<()>>(
        &mut self,
        slab_alloc: &mut SlabManager<T>,
        frames: &mut FrameAllocator,
    )
        requires
            old(self).wf(),
            old(slab_alloc).wf(),
            old(frames).wf(),
            old(slab_alloc)@.ok(old(frames)@),
            placed::<T>(old(frames)@),
            accessible::<T>(old(frames)@),
            cached_ok::<T>(old(frames)@, old(slab_alloc)@.shift, old(self)@),
        ensures
            final(self).wf(),
            final(slab_alloc).wf(),
            final(frames).wf(),
            final(slab_alloc)@.ok(final(frames)@),
            final(slab_alloc)@.shift == old(slab_alloc)@.shift,
            placed::<T>(final(frames)@),
            accessible::<T>(final(frames)@),
            cached_ok::<T>(final(frames)@, old(slab_alloc)@.shift, final(self)@),
            others_kept(old(frames)@, final(frames)@, old(slab_alloc)@.shift),
            (final(frames)@, final(slab_alloc)@, final(self)@) == drain::<T>(
                old(frames)@,
                old(slab_alloc)@,
                old(self)@,
                old(self)@.len() / 2,
            ),
            forall|k: nat, c: Seq<int>| #[trigger]
                cached_ok::<T>(old(frames)@, k, c) && k != old(slab_alloc)@.shift ==> cached_ok::<T>(
                    final(frames)@,
                    k,
                    c,
                ),
    {
        let ghost b0 = frames@;
        let ghost m0 = slab_alloc@;
        let ghost c0 = self@;
        let half: usize = self.ptrs.len() / 2;
        let mut i: usize = 0;
        while i < half
            invariant
                i <= half,
                half == c0.len() / 2,
                self@.len() == c0.len() - i,
                self.wf(),
                slab_alloc.wf(),
                frames.wf(),
                slab_alloc@.ok(frames@),
                slab_alloc@.shift == m0.shift,
                placed::<T>(frames@),
                accessible::<T>(frames@),
                cached_ok::<T>(frames@, m0.shift, self@),
                others_kept(b0, frames@, m0.shift),
                drain::<T>(frames@, slab_alloc@, self@, (half - i) as nat) == drain::<T>(
                    b0,
                    m0,
                    c0,
                    half as nat,
                ),
                forall|k: nat, c: Seq<int>| #[trigger]
                    cached_ok::<T>(b0, k, c) && k != m0.shift ==> cached_ok::<T>(frames@, k, c),
            decreases half - i,
        {
            let ghost b = frames@;
            let ghost m = slab_alloc@;
            let ghost c = self@;
            let last: usize = self.ptrs.len() - 1;
            let ptr = self.ptrs[last];
            assert(c.last() == ptr.addr());
            assert(in_use::<T>(b, m.shift, c[c.len() - 1]));
            proof {
                lemma_free_step::<T>(b, m, ptr.addr() as int);
            }
            let _ = self.ptrs.pop();
            assert(self@ =~= c.drop_last());
            slab_alloc.free(frames, ptr);
            proof {
                let d = c.drop_last();
                assert(cached_ok::<T>(b, m.shift, d)) by {
                    assert forall|j: int| 0 <= j < d.len() implies in_use::<T>(
                        b,
                        m.shift,
                        #[trigger] d[j],
                    ) by {
                        assert(d[j] == c[j]);
                    }
                }
                assert(!d.contains(c.last())) by {
                    if d.contains(c.last()) {
                        let j = choose|j: int| 0 <= j < d.len() && d[j] == c.last();
                        assert(c[j] == c[c.len() - 1]);
                    }
                }
                lemma_others_kept_twice(b0, b, frames@, m0.shift);
            }
            i = i + 1;
        }
    }

    /// Returns a cached pointer, or `None` if the cache is empty.
    pub fn allocate(&mut self) -> (r: Option<VA>)
        requires
            old(self).wf(),
        ensures
            final(self).wf(),
            match r {
                Some(ptr) => old(self)@.len() > 0 && ptr.addr() == old(self)@.last() && final(self)@
                    == old(self)@.drop_last(),
                None => old(self)@.len() == 0 && final(self)@ == old(self)@,
            },
    {
        let ghost c = self@;
        if self.is_empty() {
            return None;
        }
        let r = self.ptrs.pop();
        assert(self@ =~= c.drop_last());
        r
    }

    /// Caches the allocation at `ptr`.
    ///
    /// Returns `Err(ptr)` if the cache is full, `Ok(())` if `ptr` was cached.
    pub fn free(&mut self, ptr: VA) -> (r: core::result::Result<(), VA>)
        requires
            old(self).wf(),
        ensures
            final(self).wf(),
            match r {
                Ok(_) => old(self)@.len() < PTRS_PER_SZ_CLASS && final(self)@ == old(self)@.push(
                    ptr.addr() as int,
                ),
                Err(p) => old(self)@.len() == PTRS_PER_SZ_CLASS && p == ptr && final(self)@ == old(
                    self,
                )@,
            },
    {
        let ghost c = self@;
        if self.is_full() {
            return Err(ptr);
        }
        self.ptrs.push(ptr);
        assert(self@ =~= c.push(ptr.addr() as int));
        Ok(())
    }
}

impl Default for PtrCache {
    fn default() -> (r: Self)
        ensures
            r.wf(),
            r@ == Seq::<int>::empty(),
    {
        Self::new()
    }
}

/// Keeping the slabs of other size classes is transitive.
pub proof fn lemma_others_kept_twice(a: Buddy, b: Buddy, c: Buddy, shift: nat)
    requires
        others_kept(a, b, shift),
        others_kept(b, c, shift),
    ensures
        others_kept(a, c, shift),
{
    assert forall|p: int, k: nat|
        #![trigger is_slab(a.at(p), k)]
        #![trigger is_slab(c.at(p), k)]
        a.has(p) && k != shift && (is_slab(a.at(p), k)
            || is_slab(c.at(p), k)) implies c.at(p)
        == a.at(p) by {
        assert(b.has(p));
        assert(is_slab(b.at(p), k));
    }
}

impl PtrCache {
    /// Frees all cached allocations into `slab_alloc`.
    fn purge_into<T: AddressTranslator<()>>(
        &mut self,
        slab_alloc: &mut SlabManager<T>,
        frames: &mut FrameAllocator,
    )
        requires
            old(self).wf(),
            old(slab_alloc).wf(),
            old(frames).wf(),
            old(slab_alloc)@.ok(old(frames)@),
            placed::<T>(old(frames)@),
            accessible::<T>(old(frames)@),
            cached_ok::<T>(old(frames)@, old(slab_alloc)@.shift, old(self)@),
        ensures
            final(self).wf(),
            final(self)@ == Seq::<int>::empty(),
            final(slab_alloc).wf(),
            final(frames).wf(),
            final(slab_alloc)@.ok(final(frames)@),
            final(slab_alloc)@.shift == old(slab_alloc)@.shift,
            placed::<T>(final(frames)@),
            accessible::<T>(final(frames)@),
            others_kept(old(frames)@, final(frames)@, old(slab_alloc)@.shift),
            (final(frames)@, final(slab_alloc)@) == purge::<T>(
                old(frames)@,
                old(slab_alloc)@,
                old(self)@,
            ),
            forall|k: nat, c: Seq<int>| #[trigger]
                cached_ok::<T>(old(frames)@, k, c) && k != old(slab_alloc)@.shift ==> cached_ok::<T>(
                    final(frames)@,
                    k,
                    c,
                ),
    {
        let ghost b0 = frames@;
        let ghost m0 = slab_alloc@;
        let ghost c0 = self@;
        let mut i: usize = 0;
        assert(c0.take(0) =~= Seq::empty());
        assert(c0.skip(0) =~= c0);
        while i < self.ptrs.len()
            invariant
                i <= c0.len(),
                self@ == c0,
                c0.no_duplicates(),
                slab_alloc.wf(),
                frames.wf(),
                slab_alloc@.ok(frames@),
                slab_alloc@.shift == m0.shift,
                placed::<T>(frames@),
                accessible::<T>(frames@),
                cached_ok::<T>(frames@, m0.shift, c0.skip(i as int)),
                others_kept(b0, frames@, m0.shift),
                (frames@, slab_alloc@) == purge::<T>(b0, m0, c0.take(i as int)),
                forall|k: nat, c: Seq<int>| #[trigger]
                    cached_ok::<T>(b0, k, c) && k != m0.shift ==> cached_ok::<T>(frames@, k, c),
            decreases c0.len() - i,
        {
            let ghost b = frames@;
            let ghost m = slab_alloc@;
            let ghost c = c0.skip(i as int);
            let ptr = self.ptrs[i];
            assert(c0[i as int] == ptr.addr());
            assert(in_use::<T>(b, m.shift, c[0]));
            proof {
                lemma_free_step::<T>(b, m, ptr.addr() as int);
            }
            slab_alloc.free(frames, ptr);
            proof {
                let d = c0.skip(i + 1);
                assert(cached_ok::<T>(b, m.shift, d)) by {
                    assert forall|j: int| 0 <= j < d.len() implies in_use::<T>(
                        b,
                        m.shift,
                        #[trigger] d[j],
                    ) by {
                        assert(d[j] == c[j + 1]);
                    }
                }
                assert(!d.contains(c0[i as int])) by {
                    if d.contains(c0[i as int]) {
                        let j = choose|j: int| 0 <= j < d.len() && d[j] == c0[i as int];
                        assert(c0[i + 1 + j] == c0[i as int]);
                    }
                }
                lemma_others_kept_twice(b0, b, frames@, m0.shift);
                assert(c0.take(i + 1).drop_last() =~= c0.take(i as int));
            }
            i = i + 1;
        }
        proof {
            assert(c0.take(i as int) =~= c0);
        }
        self.ptrs.clear();
        assert(self@ =~= Seq::empty());
    }
}

/// A slab cache.
///
/// Used for per-CPU (thereby lock-free) caching of allocations from slabs: one
/// [`PtrCache`] for each size class.
pub struct SlabCache {
    pub(crate) caches: Vec<PtrCache>,
}

impl View for SlabCache {
    type V = Seq<Seq<int>>;

    open(crate) spec fn view(&self) -> Seq<Seq<int>> {
        Seq::new(self.caches@.len(), |k: int| self.caches@[k]@)
    }
}

/// The caches hold objects in use of their size classes.
pub open spec fn caches_ok<T: AddressTranslator<()>>(b: Buddy, caches: Seq<Seq<int>>) -> bool {
    &&& caches.len() == SLAB_MAX_OBJ_SHIFT + 1
    &&& forall|k: int|
        0 <= k < caches.len() ==> cached_ok::<T>(b, k as nat, #[trigger] caches[k])
}

impl SlabCache {
    /// There is a cache for each size class.
    pub open(crate) spec fn wf(self) -> bool {
        &&& self.caches@.len() == SLAB_MAX_OBJ_SHIFT + 1
        &&& forall|k: int| 0 <= k < self.caches@.len() ==> (#[trigger] self.caches@[k]).wf()
    }

    /// Creates a cache that holds nothing.
    pub fn new() -> (r: Self)
        ensures
            r.wf(),
            r@ == Seq::new((SLAB_MAX_OBJ_SHIFT + 1) as nat, |k: int| Seq::<int>::empty()),
    {
        let mut caches: Vec<PtrCache> = Vec::new();
        while caches.len() <= SLAB_MAX_OBJ_SHIFT
            invariant
                caches@.len() <= SLAB_MAX_OBJ_SHIFT + 1,
                forall|k: int|
                    0 <= k < caches@.len() ==> (#[trigger] caches@[k]).wf() && caches@[k]@
                        == Seq::<int>::empty(),
            decreases SLAB_MAX_OBJ_SHIFT + 1 - caches@.len(),
        {
            caches.push(PtrCache::new());
        }
        let r = Self { caches };
        assert(r@ =~= Seq::new((SLAB_MAX_OBJ_SHIFT + 1) as nat, |k: int| Seq::<int>::empty()));
        r
    }

    /// Returns the cache for the given size and alignment; `None` if they are too
    /// large for a slab.
    pub fn get_cache(&mut self, size: usize, align: usize) -> (r: Option<&mut PtrCache>)
        requires
            old(self).wf(),
        ensures
            match r {
                Some(cache) => {
                    let k = size_class(size as int, align as int)->Some_0;
                    &&& size_class(size as int, align as int) is Some
                    &&& is_class(size as int, align as int, k)
                    &&& cache.wf()
                    &&& cache@ == old(self)@[k]
                    &&& final(self)@ == old(self)@.update(k, final(cache)@)
                    &&& final(cache).wf() ==> final(self).wf()
                },
                None => size_class(size as int, align as int) is None && final(self)@ == old(self)@
                    && final(self).wf(),
            },
    {
        let ghost before = self@;
        match alloc_order(size, align) {
            Some(k) => {
                let cache = &mut self.caches[k];
                proof {
                    let c = (*final(cache))@;
                    assert(Seq::new(
                        before.len(),
                        |i: int|
                            if i == k {
                                c
                            } else {
                                before[i]
                            },
                    ) =~= before.update(k as int, c));
                }
                Some(cache)
            },
            None => None,
        }
    }

    /// Flushes all cache lines back into the slab allocator.
    pub fn purge_into<T: AddressTranslator<()>>(
        &mut self,
        slab_alloc: &mut SlabAllocator<T>,
        frames: &mut FrameAllocator,
    )
        requires
            old(self).wf(),
            old(slab_alloc).wf(),
            old(frames).wf(),
            pools_ok(old(slab_alloc)@, old(frames)@),
            placed::<T>(old(frames)@),
            accessible::<T>(old(frames)@),
            caches_ok::<T>(old(frames)@, old(self)@),
        ensures
            final(self).wf(),
            final(self)@ == Seq::new((SLAB_MAX_OBJ_SHIFT + 1) as nat, |k: int| Seq::<int>::empty()),
            final(slab_alloc).wf(),
            final(frames).wf(),
            pools_ok(final(slab_alloc)@, final(frames)@),
            placed::<T>(final(frames)@),
            accessible::<T>(final(frames)@),
            (final(frames)@, final(slab_alloc)@) == purge_all::<T>(
                old(frames)@,
                old(slab_alloc)@,
                old(self)@,
                (SLAB_MAX_OBJ_SHIFT + 1) as nat,
            ),
    {
        let ghost b0 = frames@;
        let ghost pools0 = slab_alloc@;
        let ghost caches0 = self@;
        let mut k: usize = 0;
        while k <= SLAB_MAX_OBJ_SHIFT
            invariant
                k <= SLAB_MAX_OBJ_SHIFT + 1,
                self.wf(),
                slab_alloc.wf(),
                frames.wf(),
                pools_ok(slab_alloc@, frames@),
                placed::<T>(frames@),
                accessible::<T>(frames@),
                caches0.len() == SLAB_MAX_OBJ_SHIFT + 1,
                forall|j: int| 0 <= j < k ==> #[trigger] self@[j] == Seq::<int>::empty(),
                forall|j: int| k <= j <= SLAB_MAX_OBJ_SHIFT ==> #[trigger] self@[j] == caches0[j],
                forall|j: int|
                    k <= j <= SLAB_MAX_OBJ_SHIFT ==> cached_ok::<T>(
                        frames@,
                        j as nat,
                        #[trigger] caches0[j],
                    ),
                (frames@, slab_alloc@) == purge_all::<T>(b0, pools0, caches0, k as nat),
            decreases SLAB_MAX_OBJ_SHIFT + 1 - k,
        {
            let ghost b = frames@;
            let ghost pools = slab_alloc@;
            let ghost caches = self@;
            assert(pools[k as int].shift == k && pools[k as int].ok(b));
            assert(self@[k as int] == caches0[k as int]);
            assert(slab_alloc.managers@[k as int].wf());
            assert(self.caches@[k as int].wf());
            self.caches[k].purge_into(&mut slab_alloc.managers[k], frames);
            proof {
                assert(slab_alloc@ =~= pools.update(k as int, slab_alloc@[k as int]));
                assert(self@ =~= caches.update(k as int, Seq::empty()));
                assert forall|j: int| 0 <= j < slab_alloc@.len() implies (
                #[trigger] slab_alloc@[j]).shift == j && slab_alloc@[j].ok(frames@) by {
                    if j != k {
                        assert(pools[j].shift == j && pools[j].ok(b));
                        other_classes_are_kept(b, frames@, pools[j], k as nat);
                    }
                }
                assert forall|j: int| k + 1 <= j <= SLAB_MAX_OBJ_SHIFT implies cached_ok::<T>(
                    frames@,
                    j as nat,
                    #[trigger] caches0[j],
                ) by {
                    assert(cached_ok::<T>(b, j as nat, caches0[j]));
                }
                assert forall|j: int| k + 1 <= j <= SLAB_MAX_OBJ_SHIFT implies #[trigger] self@[j]
                    == caches0[j] by {
                    assert(caches[j] == caches0[j]);
                }
                assert forall|j: int| 0 <= j < k + 1 implies #[trigger] self@[j]
                    == Seq::<int>::empty() by {
                    if j < k {
                        assert(caches[j] == Seq::<int>::empty());
                    }
                }
            }
            k = k + 1;
        }
        assert(self@ =~= Seq::new(
            (SLAB_MAX_OBJ_SHIFT + 1) as nat,
            |k: int| Seq::<int>::empty(),
        ));
    }
}

} // verus!
