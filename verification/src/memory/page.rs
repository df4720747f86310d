//! Page frame numbers.
//!
//! A [`PageFrame`] is a lightweight handle for a physical page, identified by
//! its page frame number (PFN).
use vstd::arithmetic::power2::{is_pow2, pow2};
use vstd::prelude::*;

use crate::memory::address::PA;
use crate::memory::region::PhysMemoryRegion;
use crate::memory::PAGE_SIZE;

verus! {

/// A page frame number (PFN): an index into physical memory in units of
/// [`PAGE_SIZE`].
#[derive(Clone, Copy, PartialEq, Eq, PartialOrd, Ord, Debug, Structural)]
pub struct PageFrame {
    pub(crate) n: usize,
}

/// The start of the buddy of the block of `2^order` page frames at `n`: the
/// neighbour with which it forms an aligned block of twice the size.
pub open spec fn buddy_of(n: int, order: nat) -> int {
    if (n / pow2(order) as int) % 2 == 0 {
        n + pow2(order)
    } else {
        n - pow2(order)
    }
}

impl PageFrame {
    /// The page frame number.
    pub open(crate) spec fn pfn(self) -> usize {
        self.n
    }

    /// The page frame with the given number.
    pub open(crate) spec fn numbered(n: int) -> Self {
        Self { n: n as usize }
    }

    /// Creates a `PageFrame` from a raw page frame number.
    pub fn from_pfn(n: usize) -> (r: Self)
        ensures
            r.pfn() == n,
    {
        Self { n }
    }

    /// Returns the physical address of the start of this page frame. An address
    /// that is wider than a machine word loses its high bits.
    pub fn pa(&self) -> (r: PA)
        ensures
            r.addr() == (self.pfn() * PAGE_SIZE) % (usize::MAX + 1),
            self.pfn() * PAGE_SIZE <= usize::MAX ==> r.addr() == self.pfn() * PAGE_SIZE,
    {
        proof {
            let wide = self.n * PAGE_SIZE;
            if wide <= usize::MAX {
                vstd::arithmetic::div_mod::lemma_small_mod(wide as nat, (usize::MAX + 1) as nat);
            }
        }
        PA::from_value(self.n.wrapping_mul(PAGE_SIZE))
    }

    /// Returns this page frame as a single-page physical memory region.
    pub fn as_phys_range(&self) -> (r: PhysMemoryRegion)
        ensures
            r.start() == (self.pfn() * PAGE_SIZE) % (usize::MAX + 1),
            r.len() == PAGE_SIZE,
    {
        PhysMemoryRegion::new(self.pa(), PAGE_SIZE)
    }

    /// Returns the raw page frame number.
    pub fn value(&self) -> (r: usize)
        ensures
            r == self.pfn(),
    {
        self.n
    }

    /// Returns the first frame of the buddy of the block of `2^order` frames
    /// that starts here.
    pub(crate) fn buddy(self, order: usize) -> (r: Self)
        requires
            order < usize::BITS,
        ensures
            r.pfn() == buddy_of(self.pfn() as int, order as nat),
    {
        let n = self.n;
        let bit: usize = 1usize << order;
        proof {
            lemma_flip_bit(n, order);
        }
        Self { n: n ^ bit }
    }

    /// Returns the frame `n` pages further up.
    #[must_use]
    pub fn add_pages(self, n: usize) -> (r: Self)
        requires
            self.pfn() + n <= usize::MAX,
        ensures
            r.pfn() == self.pfn() + n,
    {
        Self { n: self.n + n }
    }
}

/// `2^order` is a power of two.
pub proof fn lemma_pow2_is_pow2(order: nat)
    ensures
        is_pow2(pow2(order) as int),
{
    vstd::arithmetic::power2::lemma_pow2(order);
    vstd::arithmetic::power2::is_pow2_equiv(pow2(order) as int);
}

/// A power of two is positive, and is `2^order` for some `order`.
pub proof fn lemma_is_pow2_order(n: int) -> (order: nat)
    requires
        is_pow2(n),
    ensures
        n == pow2(order),
        n > 0,
{
    vstd::arithmetic::power2::is_pow2_equiv(n);
    let order = choose|i: nat| vstd::arithmetic::power::pow(2, i) == n;
    vstd::arithmetic::power2::lemma_pow2(order);
    vstd::arithmetic::power2::lemma_pow2_pos(order);
    order
}

/// Shifting one left by `order` gives `2^order`.
pub(crate) proof fn lemma_one_shl(order: usize)
    requires
        order < usize::BITS,
    ensures
        1usize << order == pow2(order as nat),
        0 < pow2(order as nat) <= usize::MAX,
{
    vstd::arithmetic::power2::lemma_pow2_pos(order as nat);
    lemma_pow2_fits(order as nat);
    vstd::bits::lemma_usize_shl_is_mul(1, order);
}

/// Powers of two below the word size fit in a word.
pub(crate) proof fn lemma_pow2_fits(order: nat)
    requires
        order < usize::BITS,
    ensures
        0 < pow2(order) <= usize::MAX,
{
    vstd::arithmetic::power2::lemma_pow2_pos(order);
    vstd::arithmetic::power2::lemma2_to64_rest();
    vstd::arithmetic::power2::lemma2_to64();
    if order < 63 {
        if usize::BITS == 64 {
            vstd::arithmetic::power2::lemma_pow2_strictly_increases(order, 64);
        } else if order < 32 {
            vstd::arithmetic::power2::lemma_pow2_strictly_increases(order, 32);
        }
    }
}

proof fn lemma_flip_bit(n: usize, order: usize)
    requires
        order < usize::BITS,
    ensures
        n ^ (1usize << order) == buddy_of(n as int, order as nat),
{
    lemma_one_shl(order);
    vstd::bits::lemma_usize_shr_is_div(n, order);
    let q: usize = n >> order;
    assert(q & 1 == q % 2) by (bit_vector);
    assert(((n >> order) & 1 == 0 ==> n ^ (1usize << order) == n + (1usize << order)) && ((n
        >> order) & 1 != 0 ==> n ^ (1usize << order) == n - (1usize << order))) by (bit_vector)
        requires
            order < usize::BITS,
    ;
}

} // verus!
