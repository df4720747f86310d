//! What the kernel heap guarantees to its users.
use vstd::arithmetic::power2::{is_pow2, pow2};
use vstd::prelude::*;

use crate::memory::address::AddressTranslator;
use crate::memory::allocators::phys::buddy::Buddy;
use crate::memory::allocators::slab::cache::{
    cached_ok, drain, fill, lemma_fill_step, lemma_free_step, PTRS_PER_SZ_CLASS,
};
use crate::memory::allocators::phys::laws::alloc_takes_unused_pages;
use crate::memory::allocators::slab::heap::{
    heap_alloc, heap_can_alloc, heap_free, heap_ok, huge_order, lemma_huge_block,
    lemma_smaller_power, owned, pages_needed,
};
use crate::memory::allocators::slab::laws::{
    allocated_object_was_free, freed_object_is_free, reused_object_was_free,
};
use crate::memory::allocators::slab::pool::{
    accessible, alloc_object, free_object, in_use, lemma_alloc_new, lemma_free_object,
    lemma_try_alloc, placed, reaches, slab_at, slab_of, try_alloc, Pool,
};
use crate::memory::allocators::slab::{
    is_class, size_class, SLAB_FRAME_ALLOC_ORDER, SLAB_MAX_OBJ_SHIFT, SLAB_SIZE_BYTES,
};
use crate::memory::page::lemma_is_pow2_order;
use crate::memory::region::imax;
use crate::memory::PAGE_SIZE;

verus! {

/// A cache is filled with objects that were not in use, and the objects in use stay
/// in use.
pub proof fn fill_takes_unused_objects<T: AddressTranslator<()>>(b: Buddy, m: Pool, c: Seq<int>)
    requires
        b.wf(),
        m.ok(b),
        placed::<T>(b),
        accessible::<T>(b),
        cached_ok::<T>(b, m.shift, c),
    ensures
        forall|a: int| #[trigger]
            fill(b, m, c).2.contains(a) && !c.contains(a) ==> !in_use::<T>(b, m.shift, a),
        forall|k: nat, a: int| #[trigger]
            in_use::<T>(b, k, a) ==> in_use::<T>(fill(b, m, c).0, k, a),
    decreases PTRS_PER_SZ_CLASS - c.len(),
{
    lemma_try_alloc(b, m);
    if c.len() < PTRS_PER_SZ_CLASS && (m.partial.len() > 0 || m.free.len() > 0) {
        lemma_fill_step::<T>(b, m, c);
        reused_object_was_free::<T>(b, m);
        let (after, rest, object) = try_alloc(b, m);
        let addr = object->Some_0;
        let d = c.push(addr);
        fill_takes_unused_objects::<T>(after, rest, d);
        let all = fill(b, m, c).2;
        assert(all == fill(after, rest, d).2);
        assert forall|a: int| #[trigger] all.contains(a) && !c.contains(a) implies !in_use::<T>(
            b,
            m.shift,
            a,
        ) by {
            if d.contains(a) {
                let i = choose|i: int| 0 <= i < d.len() && d[i] == a;
                if i < c.len() {
                    assert(c[i] == a);
                }
            } else {
                assert(!in_use::<T>(after, m.shift, a));
            }
        }
        assert forall|k: nat, a: int| #[trigger] in_use::<T>(b, k, a) implies in_use::<T>(
            fill(b, m, c).0,
            k,
            a,
        ) by {
            assert(in_use::<T>(after, k, a));
        }
    }
}

/// Draining a cache frees objects of the cache alone.
pub proof fn drain_frees_cached_objects<T: AddressTranslator<()>>(
    b: Buddy,
    m: Pool,
    c: Seq<int>,
    n: nat,
)
    requires
        b.wf(),
        m.ok(b),
        placed::<T>(b),
        accessible::<T>(b),
        cached_ok::<T>(b, m.shift, c),
        n <= c.len(),
    ensures
        drain::<T>(b, m, c, n).2 == c.take(c.len() - n),
        forall|k: nat, a: int| #[trigger]
            in_use::<T>(b, k, a) && !(k == m.shift && c.contains(a)) ==> in_use::<T>(
                drain::<T>(b, m, c, n).0,
                k,
                a,
            ),
        forall|k: nat, a: int| #[trigger]
            in_use::<T>(drain::<T>(b, m, c, n).0, k, a) ==> in_use::<T>(b, k, a),
    decreases n,
{
    if n == 0 {
        assert(c.take(c.len() as int) =~= c);
    } else {
        let addr = c.last();
        let d = c.drop_last();
        assert(in_use::<T>(b, m.shift, c[c.len() - 1]));
        lemma_free_object::<T>(b, m, addr);
        lemma_free_step::<T>(b, m, addr);
        freed_object_is_free::<T>(b, m, addr);
        let (after, rest) = free_object::<T>(b, m, addr);
        assert(cached_ok::<T>(b, m.shift, d)) by {
            assert forall|i: int| 0 <= i < d.len() implies in_use::<T>(b, m.shift, #[trigger] d[i]) by {
                assert(d[i] == c[i]);
            }
        }
        assert(!d.contains(addr)) by {
            if d.contains(addr) {
                let i = choose|i: int| 0 <= i < d.len() && d[i] == addr;
                assert(c[i] == c[c.len() - 1]);
            }
        }
        drain_frees_cached_objects::<T>(after, rest, d, (n - 1) as nat);
        assert(d.take(d.len() - (n - 1)) =~= c.take(c.len() - n));
        let end = drain::<T>(b, m, c, n).0;
        assert(end == drain::<T>(after, rest, d, (n - 1) as nat).0);
        assert forall|k: nat, a: int| #[trigger]
            in_use::<T>(b, k, a) && !(k == m.shift && c.contains(a)) implies in_use::<T>(end, k, a) by {
            if a == addr {
                assert(c.contains(c[c.len() - 1]));
                assert(k != m.shift);
                lemma_one_class::<T>(b, k, m.shift, addr);
            }
            assert(in_use::<T>(after, k, a));
            if k == m.shift && d.contains(a) {
                let i = choose|i: int| 0 <= i < d.len() && d[i] == a;
                assert(c[i] == a);
            }
        }
        assert forall|k: nat, a: int| #[trigger] in_use::<T>(end, k, a) implies in_use::<T>(b, k, a) by {
            assert(in_use::<T>(after, k, a));
        }
    }
}

/// An object belongs to one size class.
pub(super) proof fn lemma_one_class<T: AddressTranslator<()>>(b: Buddy, j: nat, k: nat, addr: int)
    requires
        in_use::<T>(b, j, addr),
        in_use::<T>(b, k, addr),
    ensures
        j == k,
{
}

/// The heap gives out an object that nobody owned, its new owner owns it then, and
/// all other owners keep what they own.
pub proof fn allocated_memory_was_not_owned<T: AddressTranslator<()>>(
    b: Buddy,
    pools: Seq<Pool>,
    caches: Seq<Seq<int>>,
    size: int,
    align: int,
)
    requires
        heap_ok::<T>(b, pools, caches),
        size_class(size, align) is Some,
        1 <= size_class(size, align)->Some_0 <= SLAB_MAX_OBJ_SHIFT,
        heap_can_alloc::<T>(b, pools, caches, size, align),
    ensures
        ({
            let k = size_class(size, align)->Some_0;
            let (after, pools2, caches2, addr) = heap_alloc::<T>(b, pools, caches, size, align);
            &&& owned::<T>(after, caches2, k, addr)
            &&& forall|j: int| 0 <= j <= SLAB_MAX_OBJ_SHIFT ==> !#[trigger] owned::<T>(
                b,
                caches,
                j,
                addr,
            )
            &&& forall|j: int, a: int|
                0 <= j <= SLAB_MAX_OBJ_SHIFT && #[trigger] owned::<T>(b, caches, j, a) ==> owned::<
                    T,
                >(after, caches2, j, a)
        }),
{
    let k = size_class(size, align)->Some_0;
    let (after, pools2, caches2, addr) = heap_alloc::<T>(b, pools, caches, size, align);
    let m = pools[k];
    let c = caches[k];
    assert(m.shift == k && m.ok(b));
    assert(cached_ok::<T>(b, k as nat, c));
    if c.len() > 0 {
        let d = c.drop_last();
        assert(in_use::<T>(b, k as nat, c[c.len() - 1]));
        assert(c.contains(c[c.len() - 1]));
        assert(!d.contains(addr)) by {
            if d.contains(addr) {
                let i = choose|i: int| 0 <= i < d.len() && d[i] == addr;
                assert(c[i] == c[c.len() - 1]);
            }
        }
        assert forall|j: int| 0 <= j <= SLAB_MAX_OBJ_SHIFT implies !#[trigger] owned::<T>(
            b,
            caches,
            j,
            addr,
        ) by {
            if owned::<T>(b, caches, j, addr) {
                lemma_one_class::<T>(b, j as nat, k as nat, addr);
            }
        }
        assert forall|j: int, a: int|
            0 <= j <= SLAB_MAX_OBJ_SHIFT && #[trigger] owned::<T>(b, caches, j, a) implies owned::<T>(
            after,
            caches2,
            j,
            a,
        ) by {
            if j == k && d.contains(a) {
                let i = choose|i: int| 0 <= i < d.len() && d[i] == a;
                assert(c[i] == a);
            }
        }
    } else {
        lemma_try_alloc(b, m);
        if m.partial.len() == 0 && m.free.len() == 0 {
            lemma_alloc_new::<T>(b, m);
        }
        allocated_object_was_free::<T>(b, m);
        let (b1, m1, _) = alloc_object::<T>(b, m);
        assert(accessible::<T>(b1));
        fill_takes_unused_objects::<T>(b1, m1, c);
        let c2 = fill(b1, m1, c).2;
        assert(in_use::<T>(b1, k as nat, addr));
        assert(!c2.contains(addr));
        assert(in_use::<T>(after, k as nat, addr));
        assert forall|j: int| 0 <= j <= SLAB_MAX_OBJ_SHIFT implies !#[trigger] owned::<T>(
            b,
            caches,
            j,
            addr,
        ) by {
            assert(!in_use::<T>(b, j as nat, addr));
        }
        assert forall|j: int, a: int|
            0 <= j <= SLAB_MAX_OBJ_SHIFT && #[trigger] owned::<T>(b, caches, j, a) implies owned::<T>(
            after,
            caches2,
            j,
            a,
        ) by {
            assert(in_use::<T>(b, j as nat, a));
            assert(in_use::<T>(b1, j as nat, a));
            assert(in_use::<T>(after, j as nat, a));
            if j == k {
                assert(!c2.contains(a));
            }
        }
    }
}

/// Nobody owns an object that was freed, and all other owners keep what they own.
pub proof fn freed_memory_is_not_owned<T: AddressTranslator<()>>(
    b: Buddy,
    pools: Seq<Pool>,
    caches: Seq<Seq<int>>,
    addr: int,
    size: int,
    align: int,
)
    requires
        heap_ok::<T>(b, pools, caches),
        size_class(size, align) is Some,
        1 <= size_class(size, align)->Some_0 <= SLAB_MAX_OBJ_SHIFT,
        owned::<T>(b, caches, size_class(size, align)->Some_0, addr),
    ensures
        ({
            let (after, pools2, caches2) = heap_free::<T>(b, pools, caches, addr, size, align);
            &&& forall|j: int| 0 <= j <= SLAB_MAX_OBJ_SHIFT ==> !#[trigger] owned::<T>(
                after,
                caches2,
                j,
                addr,
            )
            &&& forall|j: int, a: int|
                0 <= j <= SLAB_MAX_OBJ_SHIFT && a != addr && #[trigger] owned::<T>(b, caches, j, a)
                    ==> owned::<T>(after, caches2, j, a)
        }),
{
    let k = size_class(size, align)->Some_0;
    let (after, pools2, caches2) = heap_free::<T>(b, pools, caches, addr, size, align);
    let m = pools[k];
    let c = caches[k];
    assert(m.shift == k && m.ok(b));
    assert(cached_ok::<T>(b, k as nat, c));
    if c.len() < PTRS_PER_SZ_CLASS {
        let d = c.push(addr);
        assert(d[c.len() as int] == addr);
        assert forall|j: int| 0 <= j <= SLAB_MAX_OBJ_SHIFT implies !#[trigger] owned::<T>(
            after,
            caches2,
            j,
            addr,
        ) by {
            if j == k {
                assert(d.contains(addr));
            } else if owned::<T>(after, caches2, j, addr) {
                lemma_one_class::<T>(b, j as nat, k as nat, addr);
            }
        }
        assert forall|j: int, a: int|
            0 <= j <= SLAB_MAX_OBJ_SHIFT && a != addr && #[trigger] owned::<T>(
                b,
                caches,
                j,
                a,
            ) implies owned::<T>(after, caches2, j, a) by {
            if j == k && d.contains(a) {
                let i = choose|i: int| 0 <= i < d.len() && d[i] == a;
                assert(c[i] == a);
            }
        }
    } else {
        lemma_free_object::<T>(b, m, addr);
        lemma_free_step::<T>(b, m, addr);
        freed_object_is_free::<T>(b, m, addr);
        let (b1, m1) = free_object::<T>(b, m, addr);
        assert(cached_ok::<T>(b1, k as nat, c));
        drain_frees_cached_objects::<T>(b1, m1, c, c.len() / 2);
        let c2 = drain::<T>(b1, m1, c, c.len() / 2).2;
        assert forall|j: int| 0 <= j <= SLAB_MAX_OBJ_SHIFT implies !#[trigger] owned::<T>(
            after,
            caches2,
            j,
            addr,
        ) by {
            if in_use::<T>(after, j as nat, addr) {
                assert(in_use::<T>(b1, j as nat, addr));
            }
        }
        assert forall|j: int, a: int|
            0 <= j <= SLAB_MAX_OBJ_SHIFT && a != addr && #[trigger] owned::<T>(
                b,
                caches,
                j,
                a,
            ) implies owned::<T>(after, caches2, j, a) by {
            assert(in_use::<T>(b, j as nat, a));
            assert(in_use::<T>(b1, j as nat, a));
            assert(in_use::<T>(after, j as nat, a));
            if j == k && c2.contains(a) {
                let i = choose|i: int| 0 <= i < c2.len() && c2[i] == a;
                assert(c[i] == a);
            }
        }
    }
}

/// The physical address of an object in use is a multiple of its size.
pub proof fn objects_are_aligned<T: AddressTranslator<()>>(b: Buddy, k: nat, addr: int)
    requires
        b.wf(),
        placed::<T>(b),
        accessible::<T>(b),
        in_use::<T>(b, k, addr),
    ensures
        T::phys_of(addr as usize) as int % pow2(k) as int == 0,
{
    let h = slab_of::<T>(b, addr);
    let slab = slab_at(b, h);
    let index = slab.index_at(addr);
    let size = pow2(k) as int;
    vstd::arithmetic::power2::lemma2_to64();
    assert(b.block_ok(h, SLAB_FRAME_ALLOC_ORDER as nat));
    slab.bounds();
    assert(reaches::<T>(h));
    let n = slab.objects();
    assert(0 <= index * size && index * size + size <= n * size) by (nonlinear_arith)
        requires
            0 <= index,
            index + 1 <= n,
            size > 0,
    ;
    let a = addr as usize;
    assert(a == addr);
    assert(T::maps_virt(a) && T::phys_of(a) == h * PAGE_SIZE + (a - slab.start));
    let q = h / 4;
    assert(h * PAGE_SIZE == q * (n * size)) by {
        assert(h == 4 * q);
        assert(n * size == SLAB_SIZE_BYTES);
    }
    assert(q * (n * size) + index * size == (q * n + index) * size) by (nonlinear_arith);
    vstd::arithmetic::div_mod::lemma_mod_multiples_basic(q * n + index, size);
}

/// Memory that is handed out is at a physical address that is aligned as asked for, and
/// there is enough of it: the objects of the size class, or the block of pages, are large
/// enough.
pub proof fn allocated_memory_is_aligned<T: AddressTranslator<()>>(
    b: Buddy,
    pools: Seq<Pool>,
    caches: Seq<Seq<int>>,
    size: int,
    align: int,
)
    requires
        heap_ok::<T>(b, pools, caches),
        heap_can_alloc::<T>(b, pools, caches, size, align),
        0 <= size <= usize::MAX,
        0 <= align <= usize::MAX,
        is_pow2(align),
    ensures
        T::phys_of(heap_alloc::<T>(b, pools, caches, size, align).3 as usize) as int % align == 0,
        match size_class(size, align) {
            Some(k) => size <= pow2(k as nat),
            None => size <= pow2(huge_order(size, align)) * PAGE_SIZE,
        },
{
    let a = lemma_is_pow2_order(align);
    let addr = heap_alloc::<T>(b, pools, caches, size, align).3;
    vstd::arithmetic::power2::lemma2_to64();
    match size_class(size, align) {
        Some(k) => {
            assert(is_class(size, align, k));
            let m = pools[k];
            let c = caches[k];
            assert(m.shift == k && m.ok(b));
            assert(cached_ok::<T>(b, k as nat, c));
            if c.len() > 0 {
                assert(in_use::<T>(b, k as nat, c[c.len() - 1]));
                objects_are_aligned::<T>(b, k as nat, addr);
            } else {
                lemma_try_alloc(b, m);
                if m.partial.len() == 0 && m.free.len() == 0 {
                    lemma_alloc_new::<T>(b, m);
                }
                allocated_object_was_free::<T>(b, m);
                let b1 = alloc_object::<T>(b, m).0;
                assert(accessible::<T>(b1));
                objects_are_aligned::<T>(b1, k as nat, addr);
            }
            lemma_smaller_power(T::phys_of(addr as usize) as int, a, k as nat);
        },
        None => {
            let pages = pages_needed(size, align);
            let o = huge_order(size, align);
            let p = b.alloc_block(o).1->Some_0;
            lemma_huge_block::<T>(b, size, align);
            alloc_takes_unused_pages(b, o);
            vstd::arithmetic::power2::lemma_pow2_pos(o);
            let start = T::virt_of((p * PAGE_SIZE) as usize);
            assert(start < start + SLAB_SIZE_BYTES);
            assert(T::maps_virt(start));
            assert(T::phys_of(start) == p * PAGE_SIZE);
            assert(imax(size, align) <= pages * PAGE_SIZE);
            assert(pages * PAGE_SIZE <= pow2(o) * PAGE_SIZE) by (nonlinear_arith)
                requires
                    pages <= pow2(o),
            ;
            // The block is aligned to its size in bytes.
            vstd::arithmetic::power2::lemma_pow2_adds(o, 12);
            let n = pow2(o) as int;
            let q = p / n;
            vstd::arithmetic::div_mod::lemma_fundamental_div_mod(p, n);
            assert(p * PAGE_SIZE == q * (n * 4096)) by (nonlinear_arith)
                requires
                    p == n * q,
                    PAGE_SIZE == 4096,
            ;
            vstd::arithmetic::div_mod::lemma_mod_multiples_basic(q, n * 4096);
            lemma_smaller_power(p * PAGE_SIZE, a, o + 12);
        },
    }
}

} // verus!
