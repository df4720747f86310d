//! Kernel heap built on top of the slab allocator.
use core::marker::PhantomData;
use vstd::arithmetic::power2::pow2;
use vstd::prelude::*;

use crate::memory::address::{AddressTranslator, VA};
use crate::memory::allocators::frame::FrameUse;
use crate::memory::allocators::phys::buddy::{head_order, is_idle, Buddy};
use crate::memory::allocators::phys::laws::alloc_takes_unused_pages;
use crate::memory::allocators::phys::{FrameAllocator, MAX_ORDER};
use crate::memory::allocators::slab::allocator::{pools_ok, SlabAllocator};
use crate::memory::allocators::slab::cache::{
    cached_ok, caches_ok, drain, fill, lemma_free_step, lemma_others_kept_twice, SlabCache,
    PTRS_PER_SZ_CLASS,
};
use crate::memory::allocators::slab::laws::allocated_object_was_free;
use crate::memory::allocators::slab::pool::{
    accessible, alloc_object, can_alloc, free_object, in_use, other_classes_are_kept, others_kept,
    placed, reaches, slab_of, Pool,
};
use crate::memory::allocators::slab::{
    alloc_order, is_class, size_class, SLAB_FRAME_ALLOC_ORDER, SLAB_MAX_OBJ_SHIFT,
};
use crate::memory::page::lemma_one_shl;
use crate::memory::region::{imax, PhysMemoryRegion};
use crate::memory::PAGE_SIZE;

verus! {

/// The number of pages that a large allocation needs.
pub open spec fn pages_needed(size: int, align: int) -> int {
    (imax(size, align) + PAGE_SIZE - 1) / PAGE_SIZE as int
}

/// `o` is the smallest order of blocks that have at least the given number of pages.
pub open spec fn is_order_for(pages: int, o: nat) -> bool {
    &&& pages <= pow2(o)
    &&& o > 0 ==> pow2((o - 1) as nat) < pages
}

/// The smallest order of blocks that are large enough.
pub open spec fn huge_order(size: int, align: int) -> nat {
    choose|o: nat| #[trigger] is_order_for(pages_needed(size, align), o)
}

/// There is only one smallest order.
proof fn lemma_order_for(pages: int, a: nat, b: nat)
    requires
        is_order_for(pages, a),
        is_order_for(pages, b),
    ensures
        a == b,
{
    if a < b {
        if a < b - 1 {
            vstd::arithmetic::power2::lemma_pow2_strictly_increases(a, (b - 1) as nat);
        }
    }
    if b < a {
        if b < a - 1 {
            vstd::arithmetic::power2::lemma_pow2_strictly_increases(b, (a - 1) as nat);
        }
    }
}

/// What an allocation does: objects come from the cache of their size class, which
/// is filled from the slabs when it is empty, and larger memory from the frame
/// allocator. The last part of the result is the address.
pub open spec fn heap_alloc<T: AddressTranslator<()>>(
    b: Buddy,
    pools: Seq<Pool>,
    caches: Seq<Seq<int>>,
    size: int,
    align: int,
) -> (Buddy, Seq<Pool>, Seq<Seq<int>>, int) {
    match size_class(size, align) {
        None => {
            let (after, block) = b.alloc_block(huge_order(size, align));
            (after, pools, caches, T::virt_of((block->Some_0 * PAGE_SIZE) as usize) as int)
        },
        Some(k) => if caches[k].len() > 0 {
            (b, pools, caches.update(k, caches[k].drop_last()), caches[k].last())
        } else {
            let (b1, m1, addr) = alloc_object::<T>(b, pools[k]);
            let (b2, m2, c2) = fill(b1, m1, caches[k]);
            (b2, pools.update(k, m2), caches.update(k, c2), addr)
        },
    }
}

/// There is memory for the allocation.
pub open spec fn heap_can_alloc<T: AddressTranslator<()>>(
    b: Buddy,
    pools: Seq<Pool>,
    caches: Seq<Seq<int>>,
    size: int,
    align: int,
) -> bool {
    match size_class(size, align) {
        None => {
            let o = huge_order(size, align);
            &&& o <= MAX_ORDER
            &&& b.alloc_block(o).1 matches Some(p) && T::maps_phys((p * PAGE_SIZE) as usize)
        },
        Some(k) => caches[k].len() > 0 || can_alloc(b, pools[k]),
    }
}

/// What freeing does: objects go to the cache of their size class, of which half is
/// given back to the slabs when it is full, and larger memory goes to the frame
/// allocator.
pub open spec fn heap_free<T: AddressTranslator<()>>(
    b: Buddy,
    pools: Seq<Pool>,
    caches: Seq<Seq<int>>,
    addr: int,
    size: int,
    align: int,
) -> (Buddy, Seq<Pool>, Seq<Seq<int>>) {
    match size_class(size, align) {
        None => (b.drop_ref(slab_of::<T>(b, addr)), pools, caches),
        Some(k) => if caches[k].len() < PTRS_PER_SZ_CLASS {
            (b, pools, caches.update(k, caches[k].push(addr)))
        } else {
            let (b1, m1) = free_object::<T>(b, pools[k], addr);
            let (b2, m2, c2) = drain::<T>(b1, m1, caches[k], caches[k].len() / 2);
            (b2, pools.update(k, m2), caches.update(k, c2))
        },
    }
}

/// The memory was allocated, and has not been freed.
pub open spec fn heap_can_free<T: AddressTranslator<()>>(
    b: Buddy,
    caches: Seq<Seq<int>>,
    addr: int,
    size: int,
    align: int,
) -> bool {
    match size_class(size, align) {
        None => T::maps_virt(addr as usize) && b.allocated(
            T::phys_of(addr as usize) as int / PAGE_SIZE as int,
        ),
        Some(k) => owned::<T>(b, caches, k, addr),
    }
}

/// The object is in use, and not just held by the cache.
pub open spec fn owned<T: AddressTranslator<()>>(
    b: Buddy,
    caches: Seq<Seq<int>>,
    k: int,
    addr: int,
) -> bool {
    in_use::<T>(b, k as nat, addr) && !caches[k].contains(addr)
}

/// What holds of the heap between calls.
pub open spec fn heap_ok<T: AddressTranslator<()>>(
    b: Buddy,
    pools: Seq<Pool>,
    caches: Seq<Seq<int>>,
) -> bool {
    &&& b.wf()
    &&& pools_ok(pools, b)
    &&& caches_ok::<T>(b, caches)
    &&& placed::<T>(b)
    &&& accessible::<T>(b)
}

/// No frame of a slab changes.
pub open spec fn slabs_kept(b: Buddy, after: Buddy) -> bool {
    &&& after.base == b.base
    &&& after.frames.len() == b.frames.len()
    &&& forall|q: int|
        b.has(q) && b.has(b.head_of(q)) && b.at(b.head_of(q)) is Slab ==> #[trigger] after.at(q)
            == b.at(q)
    &&& forall|q: int| b.has(q) && #[trigger] after.at(q) is Slab ==> after.at(q) == b.at(q)
}

/// What is said of slabs still holds when no slab changes.
proof fn lemma_slabs_kept<T: AddressTranslator<()>>(
    b: Buddy,
    after: Buddy,
    pools: Seq<Pool>,
    caches: Seq<Seq<int>>,
)
    requires
        heap_ok::<T>(b, pools, caches),
        after.wf(),
        slabs_kept(b, after),
    ensures
        heap_ok::<T>(after, pools, caches),
        forall|k: nat, a: int| #[trigger] in_use::<T>(b, k, a) ==> in_use::<T>(after, k, a),
{
    let out = (SLAB_MAX_OBJ_SHIFT + 1) as nat;
    assert forall|q: int| b.has(q) && (b.at(q) is Slab || after.at(q) is Slab) implies after.at(q)
        == b.at(q) by {
        if b.at(q) is Slab {
            assert(b.head_of(q) == q);
        }
    }
    assert(others_kept(b, after, out));
    assert forall|k: int| 0 <= k < pools.len() implies (#[trigger] pools[k]).shift == k
        && pools[k].ok(after) by {
        other_classes_are_kept(b, after, pools[k], out);
    }
    assert(placed::<T>(after)) by {
        assert forall|q: int| #[trigger] after.has(q) implies match after.at(q) {
            FrameUse::Slab(s) => s.start == T::virt_of((q * PAGE_SIZE) as usize),
            _ => true,
        } by {
            assert(b.has(q));
        }
    }
    assert forall|k: nat, a: int| #[trigger] in_use::<T>(b, k, a) implies in_use::<T>(after, k, a) by {
        let q = T::phys_of(a as usize) as int / PAGE_SIZE as int;
        let h = slab_of::<T>(b, a);
        assert(after.at(q) == b.at(q));
        assert(after.at(h) == b.at(h));
    }
    assert forall|k: int| 0 <= k < caches.len() implies cached_ok::<T>(
        after,
        k as nat,
        #[trigger] caches[k],
    ) by {
        assert(cached_ok::<T>(b, k as nat, caches[k]));
        let c = caches[k];
        assert forall|i: int| 0 <= i < c.len() implies in_use::<T>(after, k as nat, #[trigger] c[i]) by {
            assert(in_use::<T>(b, k as nat, c[i]));
        }
    }
}

/// Allocating a block changes no slab.
proof fn lemma_alloc_keeps_slabs(b: Buddy, o: nat)
    requires
        b.wf(),
        o <= MAX_ORDER,
        b.alloc_block(o).1 is Some,
    ensures
        b.alloc_block(o).0.wf(),
        slabs_kept(b, b.alloc_block(o).0),
{
    alloc_takes_unused_pages(b, o);
    b.lemma_alloc_slabs(o);
    let after = b.alloc_block(o).0;
    assert forall|q: int|
        b.has(q) && b.has(b.head_of(q)) && b.at(b.head_of(q)) is Slab implies #[trigger] after.at(q)
        == b.at(q) by {}
}

/// Giving up a reference to an allocated block changes no slab.
proof fn lemma_drop_keeps_slabs(b: Buddy, p: int)
    requires
        b.wf(),
        b.allocated(p),
    ensures
        b.drop_ref(b.head_of(p)).wf(),
        slabs_kept(b, b.drop_ref(b.head_of(p))),
{
    let h = b.head_of(p);
    assert(b.has(h)) by {
        assert(b.has(p));
        if let FrameUse::AllocatedTail(t) = b.at(p) {
            assert(b.owns(t.head.pfn() as int, p));
        }
    }
    let info = b.at(h)->AllocatedHead_0;
    let o = info.order as nat;
    let after = b.drop_ref(h);
    assert(head_order(b.at(h)) == Some(o));
    assert(b.block_ok(h, o));
    if info.ref_count > 1 {
        b.lemma_rehead(h, after.at(h));
        assert(after =~= b.set(h, after.at(h)));
        assert forall|q: int|
            b.has(q) && b.has(b.head_of(q)) && b.at(b.head_of(q)) is Slab implies #[trigger] after.at(
            q,
        ) == b.at(q) by {
            assert(q != h);
        }
    } else {
        b.lemma_clear(h, o);
        let c = b.clear(h, h + pow2(o));
        c.lemma_merge(h, o);
        assert(after == c.merge(h, o));
        assert forall|q: int|
            b.has(q) && b.has(b.head_of(q)) && b.at(b.head_of(q)) is Slab implies #[trigger] after.at(
            q,
        ) == b.at(q) by {
            if h < q < h + pow2(o) {
                assert(Buddy::fits_in(b.at(h), h, b.at(q)));
            }
            assert(c.has(q) && c.at(q) == b.at(q));
        }
        assert forall|q: int| b.has(q) && #[trigger] after.at(q) is Slab implies after.at(q)
            == b.at(q) by {
            assert(c.has(q));
            if is_idle(c.at(q)) || c.at(q) is Free {
                assert(is_idle(after.at(q)) || after.at(q) is Free);
            } else {
                assert(after.at(q) == c.at(q));
            }
        }
    }
}

/// What is divided by a power of two is divided by smaller ones.
pub(crate) proof fn lemma_smaller_power(x: int, a: nat, k: nat)
    requires
        x % pow2(k) as int == 0,
        pow2(a) <= pow2(k),
    ensures
        x % pow2(a) as int == 0,
{
    vstd::arithmetic::power2::lemma_pow2_pos(a);
    vstd::arithmetic::power2::lemma_pow2_pos(k);
    if k < a {
        vstd::arithmetic::power2::lemma_pow2_strictly_increases(k, a);
    }
    let rest = (k - a) as nat;
    vstd::arithmetic::power2::lemma_pow2_adds(a, rest);
    let (large, small, f) = (pow2(k) as int, pow2(a) as int, pow2(rest) as int);
    let m = x / large;
    vstd::arithmetic::div_mod::lemma_fundamental_div_mod(x, large);
    assert(x == (f * m) * small) by (nonlinear_arith)
        requires
            x == large * m,
            large == small * f,
    ;
    vstd::arithmetic::div_mod::lemma_mod_multiples_basic(f * m, small);
}

/// There is a smallest order of blocks that are large enough.
proof fn lemma_has_order(pages: int, n: nat)
    requires
        pages <= pow2(n),
    ensures
        exists|o: nat| #[trigger] is_order_for(pages, o),
    decreases n,
{
    if n > 0 && pages <= pow2((n - 1) as nat) {
        lemma_has_order(pages, (n - 1) as nat);
    } else {
        assert(is_order_for(pages, n));
    }
}

/// What is not larger than a power of two has a size class.
pub(crate) proof fn lemma_has_class(size: int, align: int, n: int)
    requires
        1 <= n <= SLAB_MAX_OBJ_SHIFT,
        size <= pow2(n as nat),
        align <= pow2(n as nat),
    ensures
        size_class(size, align) is Some,
    decreases n,
{
    if n > 1 && size <= pow2((n - 1) as nat) && align <= pow2((n - 1) as nat) {
        lemma_has_class(size, align, n - 1);
    } else {
        assert forall|j: int| 1 <= j < n implies size > #[trigger] pow2(j as nat) || align > pow2(
            j as nat,
        ) by {
            if j < n - 1 {
                vstd::arithmetic::power2::lemma_pow2_strictly_increases(j as nat, (n - 1) as nat);
            }
        }
        assert(is_class(size, align, n));
    }
}

/// Large allocations are made of blocks that can be accessed.
pub(crate) proof fn lemma_huge_block<T: AddressTranslator<()>>(b: Buddy, size: int, align: int)
    requires
        b.wf(),
        accessible::<T>(b),
        size_class(size, align) is None,
        size <= usize::MAX,
        align <= usize::MAX,
        huge_order(size, align) <= MAX_ORDER,
        b.alloc_block(huge_order(size, align)).1 is Some,
    ensures
        is_order_for(pages_needed(size, align), huge_order(size, align)),
        reaches::<T>(b.alloc_block(huge_order(size, align)).1->Some_0),
{
    let pages = pages_needed(size, align);
    vstd::arithmetic::power2::lemma2_to64();
    vstd::arithmetic::power2::lemma2_to64_rest();
    assert(pages <= pow2(64));
    lemma_has_order(pages, 64);
    let o = huge_order(size, align);
    assert(is_order_for(pages, o));
    alloc_takes_unused_pages(b, o);
    let p = b.alloc_block(o).1->Some_0;
    // Smaller allocations have a size class.
    assert(o >= 2) by {
        if o < 2 {
            assert(o == 0 || o == 1);
            assert(imax(size, align) <= 2 * PAGE_SIZE);
            lemma_has_class(size, align, SLAB_MAX_OBJ_SHIFT as int);
        }
    }
    lemma_smaller_power(p, 2, o);
    assert(p + 4 <= b.base + b.frames.len()) by {
        if o > 2 {
            vstd::arithmetic::power2::lemma_pow2_strictly_increases(2, o);
        }
    }
}

/// The kernel heap allocator backed by the slab allocator and frame allocator.
pub struct KHeap<T: AddressTranslator<()>> {
    translator: PhantomData<T>,
}

impl<T: AddressTranslator<()>> Default for KHeap<T> {
    fn default() -> Self {
        Self::new()
    }
}

impl<T: AddressTranslator<()>> KHeap<T> {
    /// Creates a new kernel heap instance.
    pub fn new() -> Self {
        Self { translator: PhantomData }
    }

    /// Calculates the frame allocator order required for a large allocation.
    pub fn calculate_huge_order(size: usize, align: usize) -> (r: usize)
        ensures
            r == huge_order(size as int, align as int),
            is_order_for(pages_needed(size as int, align as int), r as nat),
            r < usize::BITS,
    {
        // Ensure we cover the size, rounding UP to the nearest page.
        let size: usize = if size < align {
            align
        } else {
            size
        };
        let pages: usize = if size % PAGE_SIZE == 0 {
            size / PAGE_SIZE
        } else {
            size / PAGE_SIZE + 1
        };
        let mut order: usize = 0;
        proof {
            vstd::arithmetic::power2::lemma2_to64();
            vstd::arithmetic::power2::lemma2_to64_rest();
            lemma_one_shl(0);
            assert(pages <= pow2((usize::BITS - 1) as nat)) by {
                assert(pages <= usize::MAX / 4096 + 1);
            }
        }
        while (1usize << order) < pages
            invariant
                order < usize::BITS,
                pages <= pow2((usize::BITS - 1) as nat),
                order > 0 ==> pow2((order - 1) as nat) < pages,
                1usize << order == pow2(order as nat),
            decreases usize::BITS - order,
        {
            assert(order < usize::BITS - 1);
            order = order + 1;
            proof {
                lemma_one_shl(order);
            }
        }
        proof {
            let o = huge_order(size as int, align as int);
            let pages = pages_needed(size as int, align as int);
            assert(is_order_for(pages, order as nat));
            lemma_order_for(pages, o, order as nat);
        }
        order
    }

    /// Returns whether there is memory for an allocation of the given size and alignment.
    pub fn can_allocate(
        cache: &SlabCache,
        slabs: &SlabAllocator<T>,
        frames: &FrameAllocator,
        size: usize,
        align: usize,
    ) -> (r: bool)
        requires
            cache.wf(),
            slabs.wf(),
            frames.wf(),
            heap_ok::<T>(frames@, slabs@, cache@),
        ensures
            r == heap_can_alloc::<T>(frames@, slabs@, cache@, size as int, align as int),
    {
        match alloc_order(size, align) {
            Some(k) => {
                assert(slabs@[k as int] == slabs.managers@[k as int]@);
                assert(cache@[k as int] == cache.caches@[k as int]@);
                !cache.caches[k].is_empty() || slabs.managers[k].partial_slabs() > 0
                    || slabs.managers[k].free_slabs() > 0 || frames.has_block(
                    SLAB_FRAME_ALLOC_ORDER,
                )
            },
            None => {
                let order: usize = Self::calculate_huge_order(size, align);
                let r = order <= MAX_ORDER && frames.has_block(order);
                proof {
                    if r {
                        lemma_huge_block::<T>(frames@, size as int, align as int);
                    }
                }
                r
            },
        }
    }

    /// Allocates memory of the given size and alignment. There has to be memory for
    /// it.
    pub fn allocate(
        cache: &mut SlabCache,
        slabs: &mut SlabAllocator<T>,
        frames: &mut FrameAllocator,
        size: usize,
        align: usize,
    ) -> (r: VA)
        requires
            old(cache).wf(),
            old(slabs).wf(),
            old(frames).wf(),
            heap_ok::<T>(old(frames)@, old(slabs)@, old(cache)@),
            heap_can_alloc::<T>(
                old(frames)@,
                old(slabs)@,
                old(cache)@,
                size as int,
                align as int,
            ),
        ensures
            final(cache).wf(),
            final(slabs).wf(),
            final(frames).wf(),
            heap_ok::<T>(final(frames)@, final(slabs)@, final(cache)@),
            (final(frames)@, final(slabs)@, final(cache)@, r.addr() as int) == heap_alloc::<T>(
                old(frames)@,
                old(slabs)@,
                old(cache)@,
                size as int,
                align as int,
            ),
    {
        let ghost b = frames@;
        let ghost pools = slabs@;
        let ghost caches = cache@;
        let ghost class = size_class(size as int, align as int);
        match cache.get_cache(size, align) {
            None => {
                // Allocation is too big for a slab. Defer to using the frame allocator
                // directly.
                let order: usize = Self::calculate_huge_order(size, align);
                proof {
                    lemma_alloc_keeps_slabs(b, order as nat);
                    lemma_slabs_kept::<T>(b, b.alloc_block(order as nat).0, pools, caches);
                }
                match frames.alloc_frames(order as u8) {
                    Ok(allocation) => allocation.leak().start_address().to_va::<T>(),
                    Err(_) => vstd::pervasive::unreached(),
                }
            },
            Some(cache_line) => {
                let ghost k = class->Some_0;
                assert(pools[k].shift == k && pools[k].ok(b));
                assert(cached_ok::<T>(b, k as nat, caches[k]));
                match cache_line.allocate() {
                    Some(ptr) => {
                        // Fast path, cache-hit.
                        proof {
                            let d = caches[k].drop_last();
                            assert(cached_ok::<T>(b, k as nat, d)) by {
                                assert forall|i: int| 0 <= i < d.len() implies in_use::<T>(
                                    b,
                                    k as nat,
                                    #[trigger] d[i],
                                ) by {
                                    assert(d[i] == caches[k][i]);
                                }
                            }
                            lemma_caches_update::<T>(b, caches, k, d);
                        }
                        ptr
                    },
                    None => {
                        // Fall back to the slab allocator.
                        match slabs.allocator_for_layout(size, align) {
                            Some(slab) => {
                                proof {
                                    allocated_object_was_free::<T>(b, pools[k]);
                                }
                                let ptr = slab.allocate(frames);
                                let ghost b1 = frames@;
                                // Fill up our cache with objects from the (maybe
                                // freshly allocated) slab.
                                cache_line.fill_from(slab, frames);
                                proof {
                                    let b2 = frames@;
                                    lemma_others_kept_twice(b, b1, b2, k as nat);
                                    lemma_pools_update(b, b2, pools, k, slab@);
                                    lemma_caches_kept::<T>(b, b2, caches);
                                    lemma_caches_update::<T>(b2, caches, k, cache_line@);
                                }
                                ptr
                            },
                            None => vstd::pervasive::unreached(),
                        }
                    },
                }
            },
        }
    }

    /// Frees memory that was allocated with the same size and alignment.
    pub fn dealloc(
        cache: &mut SlabCache,
        slabs: &mut SlabAllocator<T>,
        frames: &mut FrameAllocator,
        ptr: VA,
        size: usize,
        align: usize,
    )
        requires
            old(cache).wf(),
            old(slabs).wf(),
            old(frames).wf(),
            heap_ok::<T>(old(frames)@, old(slabs)@, old(cache)@),
            heap_can_free::<T>(
                old(frames)@,
                old(cache)@,
                ptr.addr() as int,
                size as int,
                align as int,
            ),
        ensures
            final(cache).wf(),
            final(slabs).wf(),
            final(frames).wf(),
            heap_ok::<T>(final(frames)@, final(slabs)@, final(cache)@),
            (final(frames)@, final(slabs)@, final(cache)@) == heap_free::<T>(
                old(frames)@,
                old(slabs)@,
                old(cache)@,
                ptr.addr() as int,
                size as int,
                align as int,
            ),
    {
        let ghost b = frames@;
        let ghost pools = slabs@;
        let ghost caches = cache@;
        let ghost addr = ptr.addr() as int;
        let ghost class = size_class(size as int, align as int);
        match cache.get_cache(size, align) {
            None => {
                // If the allocation didn't fit in the slab, we must have used the frame
                // allocator directly.
                let pa = ptr.to_pa::<T>();
                proof {
                    let p = T::phys_of(addr as usize) as int / PAGE_SIZE as int;
                    lemma_drop_keeps_slabs(b, p);
                    lemma_slabs_kept::<T>(b, b.drop_ref(b.head_of(p)), pools, caches);
                }
                let region = PhysMemoryRegion::new(pa, PAGE_SIZE);
                let allocation = frames.alloc_from_region(region);
                frames.release(allocation);
            },
            Some(cache_line) => {
                let ghost k = class->Some_0;
                assert(pools[k].shift == k && pools[k].ok(b));
                assert(cached_ok::<T>(b, k as nat, caches[k]));
                match cache_line.free(ptr) {
                    Ok(_) => {
                        proof {
                            let c = caches[k];
                            let d = c.push(addr);
                            assert(cached_ok::<T>(b, k as nat, d)) by {
                                assert forall|i: int, j: int|
                                    0 <= i < d.len() && 0 <= j < d.len() && i != j implies d[i]
                                    != d[j] by {
                                    if i < c.len() {
                                        assert(c.contains(c[i]));
                                    }
                                    if j < c.len() {
                                        assert(c.contains(c[j]));
                                    }
                                }
                                assert forall|i: int| 0 <= i < d.len() implies in_use::<T>(
                                    b,
                                    k as nat,
                                    #[trigger] d[i],
                                ) by {
                                    if i < c.len() {
                                        assert(d[i] == c[i]);
                                    }
                                }
                            }
                            lemma_caches_update::<T>(b, caches, k, d);
                        }
                    },
                    Err(_) => {
                        // The cache is full. Return some memory back to the slab
                        // allocator.
                        match slabs.allocator_for_layout(size, align) {
                            Some(slab) => {
                                proof {
                                    lemma_free_step::<T>(b, pools[k], addr);
                                }
                                slab.free(frames, ptr);
                                let ghost b1 = frames@;
                                assert(cached_ok::<T>(b1, k as nat, caches[k]));
                                cache_line.drain_into(slab, frames);
                                proof {
                                    let b2 = frames@;
                                    lemma_others_kept_twice(b, b1, b2, k as nat);
                                    lemma_pools_update(b, b2, pools, k, slab@);
                                    assert forall|j: int|
                                        0 <= j < caches.len() && j != k implies cached_ok::<T>(
                                        b2,
                                        j as nat,
                                        #[trigger] caches[j],
                                    ) by {
                                        assert(cached_ok::<T>(b, j as nat, caches[j]));
                                        assert(cached_ok::<T>(b1, j as nat, caches[j]));
                                    }
                                    lemma_caches_update::<T>(b2, caches, k, cache_line@);
                                }
                            },
                            None => {},
                        }
                    },
                }
            },
        }
    }
}

/// One cache is changed.
proof fn lemma_caches_update<T: AddressTranslator<()>>(
    b: Buddy,
    caches: Seq<Seq<int>>,
    k: int,
    c: Seq<int>,
)
    requires
        caches.len() == SLAB_MAX_OBJ_SHIFT + 1,
        0 <= k < caches.len(),
        forall|j: int|
            0 <= j < caches.len() && j != k ==> cached_ok::<T>(b, j as nat, #[trigger] caches[j]),
        cached_ok::<T>(b, k as nat, c),
    ensures
        caches_ok::<T>(b, caches.update(k, c)),
{
    let d = caches.update(k, c);
    assert forall|j: int| 0 <= j < d.len() implies cached_ok::<T>(b, j as nat, #[trigger] d[j]) by {
        if j != k {
            assert(d[j] == caches[j]);
        }
    }
}

/// Caches hold objects in use as long as those stay in use.
proof fn lemma_caches_kept<T: AddressTranslator<()>>(b: Buddy, after: Buddy, caches: Seq<Seq<int>>)
    requires
        caches_ok::<T>(b, caches),
        forall|k: nat, a: int| #[trigger] in_use::<T>(b, k, a) ==> in_use::<T>(after, k, a),
    ensures
        caches_ok::<T>(after, caches),
{
    assert forall|k: int| 0 <= k < caches.len() implies cached_ok::<T>(
        after,
        k as nat,
        #[trigger] caches[k],
    ) by {
        assert(cached_ok::<T>(b, k as nat, caches[k]));
        let c = caches[k];
        assert forall|i: int| 0 <= i < c.len() implies in_use::<T>(after, k as nat, #[trigger] c[i]) by {
            assert(in_use::<T>(b, k as nat, c[i]));
        }
    }
}

/// One size class is changed.
proof fn lemma_pools_update(b: Buddy, after: Buddy, pools: Seq<Pool>, k: int, m: Pool)
    requires
        pools_ok(pools, b),
        0 <= k < pools.len(),
        others_kept(b, after, k as nat),
        m.ok(after),
        m.shift == k,
    ensures
        pools_ok(pools.update(k, m), after),
{
    let d = pools.update(k, m);
    assert forall|j: int| 0 <= j < d.len() implies (#[trigger] d[j]).shift == j && d[j].ok(after) by {
        if j != k {
            assert(d[j] == pools[j]);
            other_classes_are_kept(b, after, pools[j], k as nat);
        }
    }
}

} // verus!
