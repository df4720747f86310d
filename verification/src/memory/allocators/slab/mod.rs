//! Allocation of small objects.
//!
//! Objects of one size class, a power of two, come from slabs: blocks of page
//! frames that are divided into objects.
use vstd::arithmetic::power2::pow2;
use vstd::prelude::*;

use crate::memory::page::lemma_one_shl;

pub mod allocator;
pub mod cache;
pub mod cache_laws;
pub mod heap;
pub mod heap_laws;
pub mod laws;
pub mod pool;
pub mod reuse_laws;
#[allow(clippy::module_inception)]
pub mod slab;

verus! {

/// The order of the block of page frames that makes up a slab.
pub const SLAB_FRAME_ALLOC_ORDER: usize = 2;

/// The size of a slab in bytes.
pub const SLAB_SIZE_BYTES: usize = 16384;

/// The largest objects, of two to this power bytes, take up a whole slab.
pub const SLAB_MAX_OBJ_SHIFT: usize = 14;

/// The size class of objects of the given size and alignment: the smallest power of
/// two, of at least two bytes, that covers both.
pub open spec fn size_class(size: int, align: int) -> Option<int> {
    if exists|k: int| #[trigger] is_class(size, align, k) {
        Some(choose|k: int| #[trigger] is_class(size, align, k))
    } else {
        None
    }
}

/// `k` is the smallest shift from 1 to [`SLAB_MAX_OBJ_SHIFT`] whose power of two
/// covers the size and the alignment.
pub open spec fn is_class(size: int, align: int, k: int) -> bool {
    &&& 1 <= k <= SLAB_MAX_OBJ_SHIFT
    &&& size <= pow2(k as nat)
    &&& align <= pow2(k as nat)
    &&& forall|j: int| 1 <= j < k ==> size > #[trigger] pow2(j as nat) || align > pow2(j as nat)
}

/// Returns the size class for the given size and alignment; `None` if they are too
/// large for a slab.
pub fn alloc_order(size: usize, align: usize) -> (r: Option<usize>)
    ensures
        match r {
            Some(k) => is_class(size as int, align as int, k as int) && size_class(
                size as int,
                align as int,
            ) == Some(k as int),
            None => size_class(size as int, align as int) is None && (size > SLAB_SIZE_BYTES
                || align > SLAB_SIZE_BYTES),
        },
{
    let mut k: usize = 1;
    while k <= SLAB_MAX_OBJ_SHIFT
        invariant
            1 <= k <= SLAB_MAX_OBJ_SHIFT + 1,
            forall|j: int|
                1 <= j < k ==> size > #[trigger] pow2(j as nat) || align > pow2(j as nat),
        decreases SLAB_MAX_OBJ_SHIFT + 1 - k,
    {
        proof {
            lemma_one_shl(k);
        }
        let object: usize = 1usize << k;
        if size <= object && align <= object {
            proof {
                assert(is_class(size as int, align as int, k as int));
                let c = choose|c: int| #[trigger] is_class(size as int, align as int, c);
                assert(c == k) by {
                    assert(is_class(size as int, align as int, c));
                    if c < k {
                        assert(size > pow2(c as nat) || align > pow2(c as nat));
                    }
                    if k < c {
                        assert(size > pow2(k as nat) || align > pow2(k as nat));
                    }
                }
            }
            return Some(k);
        }
        k = k + 1;
    }
    proof {
        vstd::arithmetic::power2::lemma2_to64();
        let top: int = SLAB_MAX_OBJ_SHIFT as int;
        assert(size > pow2(top as nat) || align > pow2(top as nat));
        if exists|c: int| #[trigger] is_class(size as int, align as int, c) {
            let c = choose|c: int| #[trigger] is_class(size as int, align as int, c);
            assert(size > pow2(c as nat) || align > pow2(c as nat));
        }
    }
    None
}

} // verus!
