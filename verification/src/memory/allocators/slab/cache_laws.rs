//! How the heap uses its caches, and which memory it takes for large allocations.
use vstd::arithmetic::power2::pow2;
use vstd::prelude::*;

use crate::memory::address::AddressTranslator;
use crate::memory::allocators::phys::buddy::{is_free, Buddy};
use crate::memory::allocators::phys::laws::{
    alloc_succeeds_with_a_large_enough_block, alloc_takes_unused_pages, free_undoes_alloc,
};
use crate::memory::allocators::phys::MAX_ORDER;
use crate::memory::allocators::slab::allocator::pools_ok;
use crate::memory::allocators::slab::cache::{
    cached_ok, caches_ok, drain, fill, lemma_free_step, lemma_others_kept_twice, purge, purge_all,
    PTRS_PER_SZ_CLASS,
};
use crate::memory::allocators::slab::heap::{
    heap_alloc, heap_can_alloc, heap_can_free, heap_free, heap_ok, huge_order, lemma_has_class,
    lemma_huge_block, owned,
};
use crate::memory::allocators::slab::heap_laws::{drain_frees_cached_objects, lemma_one_class};
use crate::memory::allocators::slab::laws::freed_object_is_free;
use crate::memory::allocators::slab::pool::{
    accessible, alloc_object, free_object, in_use, lemma_alloc_new, lemma_free_object,
    lemma_try_alloc, other_classes_are_kept, others_kept, placed, try_alloc, Pool,
};
use crate::memory::allocators::slab::reuse_laws::{lemma_some_slab, some_slab};
use crate::memory::allocators::slab::slab::SlabState;
use crate::memory::allocators::slab::{
    is_class, size_class, SLAB_FRAME_ALLOC_ORDER, SLAB_MAX_OBJ_SHIFT, SLAB_SIZE_BYTES,
};
use crate::memory::region::imax;
use crate::memory::PAGE_SIZE;

verus! {

/// No slab of the size class has a free object.
pub open spec fn used_up(b: Buddy, shift: nat) -> bool {
    !some_slab(b, shift, SlabState::Partial) && !some_slab(b, shift, SlabState::Free)
}

/// A cache is filled until it is full or the slabs are used up, and keeps what it holds.
pub proof fn fill_goes_on_while_it_can(b: Buddy, m: Pool, c: Seq<int>)
    requires
        b.wf(),
        m.ok(b),
        c.len() <= PTRS_PER_SZ_CLASS,
    ensures
        ({
            let (after, rest, all) = fill(b, m, c);
            &&& all.len() == PTRS_PER_SZ_CLASS || used_up(after, m.shift)
            &&& c.len() <= all.len() <= PTRS_PER_SZ_CLASS
            &&& all.take(c.len() as int) == c
            &&& after.free_pages == b.free_pages
        }),
    decreases PTRS_PER_SZ_CLASS - c.len(),
{
    lemma_try_alloc(b, m);
    let (after, rest, object) = try_alloc(b, m);
    if c.len() < PTRS_PER_SZ_CLASS {
        match object {
            Some(addr) => {
                fill_goes_on_while_it_can(after, rest, c.push(addr));
                let all = fill(b, m, c).2;
                assert(all.take(c.len() as int) =~= all.take(c.len() as int + 1).take(
                    c.len() as int,
                ));
                assert(c.push(addr).take(c.len() as int) =~= c);
            },
            None => {
                lemma_some_slab(b, m);
                assert(c.take(c.len() as int) =~= c);
            },
        }
    } else {
        assert(c.take(c.len() as int) =~= c);
    }
}

/// An object is the one that was cached last. Only when there is none in the cache of
/// its size class it comes from the slabs, and the cache is filled. No other cache is
/// touched.
pub proof fn allocation_uses_the_cache<T: AddressTranslator<()>>(
    b: Buddy,
    pools: Seq<Pool>,
    caches: Seq<Seq<int>>,
    size: int,
    align: int,
)
    requires
        heap_ok::<T>(b, pools, caches),
        size_class(size, align) is Some,
        heap_can_alloc::<T>(b, pools, caches, size, align),
    ensures
        ({
            let k = size_class(size, align)->Some_0;
            let (after, pools2, caches2, addr) = heap_alloc::<T>(b, pools, caches, size, align);
            &&& caches2.len() == caches.len()
            &&& forall|j: int| 0 <= j < caches.len() && j != k ==> #[trigger] caches2[j] == caches[j]
            &&& forall|j: int| 0 <= j < pools.len() && j != k ==> #[trigger] pools2[j] == pools[j]
            &&& if caches[k].len() > 0 {
                &&& caches2[k].push(addr) == caches[k]
                &&& after == b
                &&& pools2[k] == pools[k]
            } else {
                &&& caches2[k].len() == PTRS_PER_SZ_CLASS || used_up(after, k as nat)
                &&& after.free_pages == alloc_object::<T>(b, pools[k]).0.free_pages
                &&& addr == alloc_object::<T>(b, pools[k]).2
            }
        }),
{
    assert(exists|k: int| #[trigger] is_class(size, align, k));
    let k = size_class(size, align)->Some_0;
    assert(is_class(size, align, k));
    assert(pools[k].shift == k && pools[k].ok(b));
    if caches[k].len() > 0 {
        assert(caches[k].drop_last().push(caches[k].last()) =~= caches[k]);
    } else {
        lemma_try_alloc(b, pools[k]);
        if pools[k].partial.len() == 0 && pools[k].free.len() == 0 {
            lemma_alloc_new::<T>(b, pools[k]);
        }
        let (b1, m1, addr) = alloc_object::<T>(b, pools[k]);
        fill_goes_on_while_it_can(b1, m1, caches[k]);
    }
}

/// A freed object is the next one that is allocated in its size class, unless the cache
/// is full: then the object and the half of the cache that was added last go back to the
/// slabs, and the other half stays. No other cache is touched.
pub proof fn freeing_uses_the_cache<T: AddressTranslator<()>>(
    b: Buddy,
    pools: Seq<Pool>,
    caches: Seq<Seq<int>>,
    addr: int,
    size: int,
    align: int,
)
    requires
        heap_ok::<T>(b, pools, caches),
        size_class(size, align) is Some,
        owned::<T>(b, caches, size_class(size, align)->Some_0, addr),
    ensures
        ({
            let k = size_class(size, align)->Some_0;
            let (after, pools2, caches2) = heap_free::<T>(b, pools, caches, addr, size, align);
            &&& caches2.len() == caches.len()
            &&& forall|j: int| 0 <= j < caches.len() && j != k ==> #[trigger] caches2[j] == caches[j]
            &&& forall|j: int| 0 <= j < pools.len() && j != k ==> #[trigger] pools2[j] == pools[j]
            &&& if caches[k].len() < PTRS_PER_SZ_CLASS {
                &&& heap_alloc::<T>(after, pools2, caches2, size, align) == (
                    b,
                    pools,
                    caches,
                    addr,
                )
                &&& in_use::<T>(after, k as nat, addr)
            } else {
                let half = caches[k].len() as int / 2;
                &&& caches2[k].len() == caches[k].len() - half
                &&& forall|i: int|
                    0 <= i < caches[k].len() - half ==> caches2[k][i] == #[trigger] caches[k][i]
                        && in_use::<T>(after, k as nat, caches[k][i])
                &&& forall|i: int|
                    caches[k].len() - half <= i < caches[k].len() ==> !in_use::<T>(
                        after,
                        k as nat,
                        #[trigger] caches[k][i],
                    )
                &&& !in_use::<T>(after, k as nat, addr)
            }
        }),
{
    assert(exists|k: int| #[trigger] is_class(size, align, k));
    let k = size_class(size, align)->Some_0;
    assert(is_class(size, align, k));
    let m = pools[k];
    let c = caches[k];
    assert(m.shift == k && m.ok(b));
    assert(cached_ok::<T>(b, k as nat, c));
    let (after, pools2, caches2) = heap_free::<T>(b, pools, caches, addr, size, align);
    if c.len() < PTRS_PER_SZ_CLASS {
        assert(c.push(addr).drop_last() =~= c);
        assert(caches2.update(k, c) =~= caches);
    } else {
        lemma_free_object::<T>(b, m, addr);
        lemma_free_step::<T>(b, m, addr);
        freed_object_is_free::<T>(b, m, addr);
        let (b1, m1) = free_object::<T>(b, m, addr);
        let half = c.len() / 2;
        assert(cached_ok::<T>(b1, k as nat, c)) by {
            assert forall|i: int| 0 <= i < c.len() implies in_use::<T>(b1, k as nat, #[trigger] c[i]) by {
                assert(c.contains(c[i]));
                assert(in_use::<T>(b, k as nat, c[i]));
            }
        }
        drain_frees_cached_objects::<T>(b1, m1, c, half);
        lemma_drained::<T>(b1, m1, c, half);
        if in_use::<T>(after, k as nat, addr) {
            assert(in_use::<T>(b1, k as nat, addr));
        }
    }
}

/// Draining a cache frees the objects that were added last, and no others.
proof fn lemma_drained<T: AddressTranslator<()>>(b: Buddy, m: Pool, c: Seq<int>, n: nat)
    requires
        b.wf(),
        m.ok(b),
        placed::<T>(b),
        accessible::<T>(b),
        cached_ok::<T>(b, m.shift, c),
        n <= c.len(),
    ensures
        ({
            let after = drain::<T>(b, m, c, n).0;
            &&& forall|i: int|
                0 <= i < c.len() - n ==> in_use::<T>(after, m.shift, #[trigger] c[i])
            &&& forall|i: int|
                c.len() - n <= i < c.len() ==> !in_use::<T>(after, m.shift, #[trigger] c[i])
        }),
    decreases n,
{
    let after = drain::<T>(b, m, c, n).0;
    if n == 0 {
    } else {
        let addr = c.last();
        let d = c.drop_last();
        assert(in_use::<T>(b, m.shift, c[c.len() - 1]));
        lemma_free_object::<T>(b, m, addr);
        lemma_free_step::<T>(b, m, addr);
        freed_object_is_free::<T>(b, m, addr);
        let (b1, m1) = free_object::<T>(b, m, addr);
        assert(cached_ok::<T>(b1, m.shift, d)) by {
            assert forall|i: int| 0 <= i < d.len() implies in_use::<T>(b1, m.shift, #[trigger] d[i]) by {
                assert(d[i] == c[i] && c[i] != c[c.len() - 1]);
                assert(in_use::<T>(b, m.shift, c[i]));
            }
        }
        lemma_drained::<T>(b1, m1, d, (n - 1) as nat);
        drain_frees_cached_objects::<T>(b1, m1, d, (n - 1) as nat);
        assert forall|i: int| 0 <= i < c.len() - n implies in_use::<T>(after, m.shift, #[trigger] c[i]) by {
            assert(d[i] == c[i]);
        }
        assert forall|i: int| c.len() - n <= i < c.len() implies !in_use::<T>(
            after,
            m.shift,
            #[trigger] c[i],
        ) by {
            if i < d.len() {
                assert(d[i] == c[i]);
            } else if in_use::<T>(after, m.shift, c[i]) {
                assert(in_use::<T>(b1, m.shift, c[i]));
            }
        }
    }
}

/// The size class is the smallest one whose objects are large enough, and there is none
/// exactly where an object would be larger than a slab.
pub proof fn the_size_class_is_the_smallest(size: int, align: int)
    ensures
        match size_class(size, align) {
            Some(k) => {
                &&& 1 <= k <= SLAB_MAX_OBJ_SHIFT
                &&& imax(size, align) <= pow2(k as nat)
                &&& k > 1 ==> pow2((k - 1) as nat) < imax(size, align)
            },
            None => imax(size, align) > SLAB_SIZE_BYTES,
        },
{
    vstd::arithmetic::power2::lemma2_to64();
    if exists|k: int| #[trigger] is_class(size, align, k) {
        let k = size_class(size, align)->Some_0;
        assert(is_class(size, align, k));
        if k > 1 {
            assert(size > pow2((k - 1) as nat) || align > pow2((k - 1) as nat));
        }
    } else if imax(size, align) <= SLAB_SIZE_BYTES {
        lemma_has_class(size, align, SLAB_MAX_OBJ_SHIFT as int);
    }
}

/// Larger memory is a block of pages: the smallest that is large enough. Neither caches nor
/// slabs are touched, and freeing it restores the heap.
pub proof fn large_memory_is_a_block<T: AddressTranslator<()>>(
    b: Buddy,
    pools: Seq<Pool>,
    caches: Seq<Seq<int>>,
    size: int,
    align: int,
)
    requires
        heap_ok::<T>(b, pools, caches),
        size_class(size, align) is None,
        heap_can_alloc::<T>(b, pools, caches, size, align),
        size <= usize::MAX,
        align <= usize::MAX,
    ensures
        ({
            let (after, pools2, caches2, addr) = heap_alloc::<T>(b, pools, caches, size, align);
            let p = T::phys_of(addr as usize) as int / PAGE_SIZE as int;
            let o = huge_order(size, align);
            &&& pools2 == pools
            &&& caches2 == caches
            &&& T::phys_of(addr as usize) == p * PAGE_SIZE
            &&& imax(size, align) <= pow2(o) * PAGE_SIZE
            &&& pow2((o - 1) as nat) * PAGE_SIZE < imax(size, align)
            &&& after.free_pages == b.free_pages - pow2(o)
            &&& forall|q: int|
                p <= q < p + pow2(o) ==> #[trigger] after.allocated(q) && !b.allocated(q)
            &&& heap_can_free::<T>(after, caches, addr, size, align)
            &&& heap_free::<T>(after, pools, caches, addr, size, align) == (b, pools, caches)
        }),
{
    let o = huge_order(size, align);
    let (after, block) = b.alloc_block(o);
    let p = block->Some_0;
    let start = T::virt_of((p * PAGE_SIZE) as usize);
    lemma_huge_block::<T>(b, size, align);
    alloc_takes_unused_pages(b, o);
    free_undoes_alloc(b, o);
    vstd::arithmetic::power2::lemma_pow2_pos(o);
    vstd::arithmetic::power2::lemma2_to64();
    the_size_class_is_the_smallest(size, align);
    assert(o > 0) by {
        if o == 0 {
            assert(imax(size, align) <= PAGE_SIZE);
        }
    }
    assert(start < start + SLAB_SIZE_BYTES);
    assert(T::maps_virt(start));
    assert(T::phys_of(start) == p * PAGE_SIZE);
    assert(after.allocated(p) && after.head_of(p) == p);
}

/// There is memory for an object exactly if one is cached, a slab has a free one, or there is
/// a free block that a slab can be made of; and for larger memory exactly if there is a free
/// block that is large enough.
pub proof fn there_is_memory_if_there_is_any<T: AddressTranslator<()>>(
    b: Buddy,
    pools: Seq<Pool>,
    caches: Seq<Seq<int>>,
    size: int,
    align: int,
)
    requires
        heap_ok::<T>(b, pools, caches),
        size <= usize::MAX,
        align <= usize::MAX,
    ensures
        heap_can_alloc::<T>(b, pools, caches, size, align) <==> match size_class(size, align) {
            Some(k) => {
                ||| caches[k].len() > 0
                ||| !used_up(b, k as nat)
                ||| some_block(b, SLAB_FRAME_ALLOC_ORDER as nat)
            },
            None => huge_order(size, align) <= MAX_ORDER && some_block(b, huge_order(size, align)),
        },
{
    match size_class(size, align) {
        Some(k) => {
            assert(is_class(size, align, k));
            assert(pools[k].shift == k && pools[k].ok(b));
            lemma_some_slab(b, pools[k]);
            alloc_succeeds_with_a_large_enough_block(b, SLAB_FRAME_ALLOC_ORDER as nat);
        },
        None => {
            let o = huge_order(size, align);
            if o <= MAX_ORDER {
                alloc_succeeds_with_a_large_enough_block(b, o);
                if b.alloc_block(o).1 is Some {
                    lemma_huge_block::<T>(b, size, align);
                }
            }
        },
    }
}

/// There is a free block of at least the given order.
pub open spec fn some_block(b: Buddy, o: nat) -> bool {
    exists|p: int, x: nat| o <= x && b.has(p) && #[trigger] is_free(b.at(p), x)
}

/// Purging a cache frees its objects, and no others.
proof fn lemma_purged<T: AddressTranslator<()>>(b: Buddy, m: Pool, c: Seq<int>, n: int)
    requires
        b.wf(),
        m.ok(b),
        placed::<T>(b),
        accessible::<T>(b),
        cached_ok::<T>(b, m.shift, c),
        0 <= n <= c.len(),
    ensures
        ({
            let (after, rest) = purge::<T>(b, m, c.take(n));
            &&& after.wf()
            &&& rest.ok(after)
            &&& rest.shift == m.shift
            &&& placed::<T>(after)
            &&& accessible::<T>(after)
            &&& others_kept(b, after, m.shift)
            &&& forall|k: nat, a: int| #[trigger]
                in_use::<T>(after, k, a) <==> in_use::<T>(b, k, a) && !(k == m.shift
                    && c.take(n).contains(a))
        }),
    decreases n,
{
    let s = c.take(n);
    if n > 0 {
        let t = c.take(n - 1);
        assert(s.drop_last() =~= t);
        lemma_purged::<T>(b, m, c, n - 1);
        let (b1, m1) = purge::<T>(b, m, t);
        let addr = c[n - 1];
        assert(s.last() == addr);
        assert(in_use::<T>(b, m.shift, c[n - 1]));
        assert(!t.contains(addr)) by {
            if t.contains(addr) {
                let i = choose|i: int| 0 <= i < t.len() && t[i] == addr;
                assert(c[i] == c[n - 1]);
            }
        }
        assert(in_use::<T>(b1, m.shift, addr));
        lemma_free_object::<T>(b1, m1, addr);
        lemma_free_step::<T>(b1, m1, addr);
        freed_object_is_free::<T>(b1, m1, addr);
        let (after, rest) = purge::<T>(b, m, s);
        assert((after, rest) == free_object::<T>(b1, m1, addr));
        lemma_others_kept_twice(b, b1, after, m.shift);
        assert forall|a: int| #[trigger] s.contains(a) <==> t.contains(a) || a == addr by {
            if s.contains(a) {
                let i = choose|i: int| 0 <= i < s.len() && s[i] == a;
                if i < n - 1 {
                    assert(t[i] == a);
                }
            }
            if t.contains(a) {
                let i = choose|i: int| 0 <= i < t.len() && t[i] == a;
                assert(s[i] == a);
            }
            assert(s[n - 1] == addr);
        }
        assert forall|k: nat, a: int| #[trigger]
            in_use::<T>(after, k, a) <==> in_use::<T>(b, k, a) && !(k == m.shift && s.contains(a)) by {
            if in_use::<T>(after, k, a) {
                assert(in_use::<T>(b1, k, a));
            }
            if in_use::<T>(b, k, a) && !(k == m.shift && s.contains(a)) {
                assert(in_use::<T>(b1, k, a));
                if a == addr {
                    lemma_one_class::<T>(b1, k, m.shift, a);
                }
            }
        }
    }
}

/// Flushing the caches frees exactly the objects in them.
pub proof fn purging_frees_what_is_cached<T: AddressTranslator<()>>(
    b: Buddy,
    pools: Seq<Pool>,
    caches: Seq<Seq<int>>,
    n: nat,
)
    requires
        b.wf(),
        pools_ok(pools, b),
        placed::<T>(b),
        accessible::<T>(b),
        caches_ok::<T>(b, caches),
        n <= SLAB_MAX_OBJ_SHIFT + 1,
    ensures
        ({
            let (after, pools2) = purge_all::<T>(b, pools, caches, n);
            &&& after.wf()
            &&& pools_ok(pools2, after)
            &&& placed::<T>(after)
            &&& accessible::<T>(after)
            &&& forall|k: nat, a: int| #[trigger]
                in_use::<T>(after, k, a) <==> in_use::<T>(b, k, a) && !(k < n
                    && caches[k as int].contains(a))
        }),
    decreases n,
{
    if n > 0 {
        let k = n - 1;
        let c = caches[k];
        purging_frees_what_is_cached::<T>(b, pools, caches, k as nat);
        let (b1, pools1) = purge_all::<T>(b, pools, caches, k as nat);
        assert(pools1[k].shift == k && pools1[k].ok(b1));
        assert(cached_ok::<T>(b, k as nat, c));
        assert(cached_ok::<T>(b1, k as nat, c)) by {
            assert forall|i: int| 0 <= i < c.len() implies in_use::<T>(b1, k as nat, #[trigger] c[i]) by {
                assert(in_use::<T>(b, k as nat, c[i]));
            }
        }
        lemma_purged::<T>(b1, pools1[k], c, c.len() as int);
        assert(c.take(c.len() as int) =~= c);
        let (after, m) = purge::<T>(b1, pools1[k], c);
        let pools2 = pools1.update(k, m);
        assert forall|j: int| 0 <= j < pools2.len() implies (#[trigger] pools2[j]).shift == j
            && pools2[j].ok(after) by {
            if j != k {
                assert(pools1[j].shift == j && pools1[j].ok(b1));
                other_classes_are_kept(b1, after, pools1[j], k as nat);
            }
        }
        assert forall|j: nat, a: int| #[trigger]
            in_use::<T>(after, j, a) <==> in_use::<T>(b, j, a) && !(j < n
                && caches[j as int].contains(a)) by {
            assert(in_use::<T>(b1, j, a) <==> in_use::<T>(b, j, a) && !(j < k
                && caches[j as int].contains(a)));
        }
    }
}

} // verus!
