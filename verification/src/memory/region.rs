//! Contiguous memory regions.
//!
//! A [`MemoryRegion`] is a start address and a size in bytes. Contracts speak of
//! the integers [`MemoryRegion::start`], [`MemoryRegion::len`] and
//! [`MemoryRegion::end`]; the end of a region may lie beyond the last machine
//! word, and only a region that [`fits`](MemoryRegion::fits) has an end address.
use vstd::prelude::*;

use crate::memory::address::{
    aligned_down, aligned_down_is_floor, aligned_up, aligned_up_is_ceiling, Address,
    AddressTranslator, MemKind, Physical, User, Virtual,
};
use crate::memory::page::{lemma_pow2_is_pow2, PageFrame};
use crate::memory::{PAGE_MASK, PAGE_SHIFT, PAGE_SIZE};

verus! {

/// The smaller of two integers.
pub open spec fn imin(a: int, b: int) -> int {
    if a <= b {
        a
    } else {
        b
    }
}

/// The larger of two integers.
pub open spec fn imax(a: int, b: int) -> int {
    if a >= b {
        a
    } else {
        b
    }
}

fn min_usize(a: usize, b: usize) -> (r: usize)
    ensures
        r == imin(a as int, b as int),
{
    if a <= b {
        a
    } else {
        b
    }
}

fn max_usize(a: usize, b: usize) -> (r: usize)
    ensures
        r == imax(a as int, b as int),
{
    if a >= b {
        a
    } else {
        b
    }
}

/// A contiguous memory region of one address kind.
#[derive(Debug, PartialEq, Eq)]
pub struct MemoryRegion<T: MemKind> {
    pub(crate) address: Address<T, ()>,
    pub(crate) size: usize,
}

impl<T: MemKind> Clone for MemoryRegion<T> {
    fn clone(&self) -> (r: Self)
        ensures
            r == *self,
    {
        *self
    }
}

impl<T: MemKind> Copy for MemoryRegion<T> {

}

impl<T: MemKind> MemoryRegion<T> {
    /// The first address of the region.
    pub open(crate) spec fn start(self) -> int {
        self.address.addr() as int
    }

    /// The size of the region in bytes.
    pub open(crate) spec fn len(self) -> int {
        self.size as int
    }

    /// The first address after the region.
    pub open spec fn end(self) -> int {
        self.start() + self.len()
    }

    /// Whether the end of the region is an address.
    pub open spec fn fits(self) -> bool {
        self.end() <= usize::MAX
    }

    /// Whether the address lies in the region.
    pub open spec fn has(self, addr: int) -> bool {
        self.start() <= addr < self.end()
    }

    /// Whether the two regions meet: [`MemoryRegion::overlaps`]. Nothing meets an empty
    /// region.
    pub open spec fn meets(self, other: Self) -> bool {
        &&& self.len() > 0
        &&& other.len() > 0
        &&& self.start() < other.end()
        &&& other.start() < self.end()
    }

    /// Whether `other` lies within this region: [`MemoryRegion::contains`].
    pub open spec fn covers(self, other: Self) -> bool {
        self.start() <= other.start() && other.end() <= self.end()
    }

    /// The region from `start` up to, not including, `end`.
    pub open(crate) spec fn between(start: int, end: int) -> Self {
        MemoryRegion { address: Address::at(start as usize), size: (end - start) as usize }
    }

    /// Start and size are machine words, and they determine the region.
    pub proof fn bounds(a: Self, b: Self)
        ensures
            0 <= a.start() <= usize::MAX,
            0 <= a.len() <= usize::MAX,
            a.start() == b.start() && a.len() == b.len() ==> a == b,
    {
    }

    /// The bounds of [`MemoryRegion::between`].
    pub proof fn between_bounds(start: int, end: int)
        requires
            0 <= start <= end <= usize::MAX,
        ensures
            Self::between(start, end).start() == start,
            Self::between(start, end).end() == end,
    {
    }

    /// Creates a region from a start address and a size in bytes.
    pub fn new(address: Address<T, ()>, size: usize) -> (r: Self)
        ensures
            r.start() == address.addr(),
            r.len() == size,
    {
        Self { address, size }
    }

    /// Creates an empty region at address 0.
    pub fn empty() -> (r: Self)
        ensures
            r.start() == 0,
            r.len() == 0,
    {
        Self { address: Address::from_value(0), size: 0 }
    }

    /// Creates a region from a start and an end address.
    ///
    /// The size is `end - start`. No alignment is enforced.
    pub fn from_start_end_address(start: Address<T, ()>, end: Address<T, ()>) -> (r: Self)
        requires
            start.addr() <= end.addr(),
        ensures
            r == Self::between(start.addr() as int, end.addr() as int),
            r.start() == start.addr(),
            r.end() == end.addr(),
    {
        Self { address: start, size: end.value() - start.value() }
    }

    /// Returns a region of the same size at a different start address.
    pub fn with_start_address(self, new_start: Address<T, ()>) -> (r: Self)
        ensures
            r.start() == new_start.addr(),
            r.len() == self.len(),
    {
        Self { address: new_start, size: self.size }
    }

    /// Returns the start address of the region.
    pub fn start_address(self) -> (r: Address<T, ()>)
        ensures
            r.addr() == self.start(),
    {
        self.address
    }

    /// Returns the size of the region in bytes.
    pub fn size(self) -> (r: usize)
        ensures
            r == self.len(),
    {
        self.size
    }

    /// Returns the end address (exclusive) of the region.
    pub fn end_address(self) -> (r: Address<T, ()>)
        requires
            self.fits(),
        ensures
            r.addr() == self.end(),
    {
        Address::from_value(self.address.value() + self.size)
    }

    /// Returns the end address (inclusive) of the region; that of an empty
    /// region is its start.
    pub fn end_address_inclusive(self) -> (r: Address<T, ()>)
        requires
            self.end() - 1 <= usize::MAX,
        ensures
            r.addr() == imax(self.end() - 1, self.start()),
    {
        Address::from_value(self.address.value() + self.size.saturating_sub(1))
    }

    /// Checks whether the start address is page-aligned.
    pub fn is_page_aligned(self) -> (r: bool)
        ensures
            r == (self.start() % PAGE_SIZE as int == 0),
    {
        self.address.is_page_aligned()
    }

    /// Returns a region of the given size at the same start address.
    pub fn with_size(self, size: usize) -> (r: Self)
        ensures
            r.start() == self.start(),
            r.len() == size,
    {
        Self { address: self.address, size }
    }

    /// Checks whether any portion of the two address ranges intersects.
    pub fn overlaps(self, other: Self) -> (r: bool)
        requires
            self.fits(),
            other.fits(),
        ensures
            r == self.meets(other),
    {
        let start1: usize = self.start_address().value();
        let end1: usize = self.end_address().value();
        let start2: usize = other.start_address().value();
        let end2: usize = other.end_address().value();

        start1 < end1 && start2 < end2 && !(end1 <= start2 || end2 <= start1)
    }

    /// Checks whether this region lies before `other`, possibly adjacent to it.
    pub fn is_before(self, other: Self) -> (r: bool)
        requires
            self.fits(),
        ensures
            r == (self.end() <= other.start()),
    {
        self.end_address().value() <= other.start_address().value()
    }

    /// Checks whether this region lies after `other`, possibly adjacent to it.
    pub fn is_after(self, other: Self) -> (r: bool)
        requires
            other.fits(),
        ensures
            r == (other.end() <= self.start()),
    {
        self.start_address().value() >= other.end_address().value()
    }

    /// Merges two regions that overlap or are contiguous into one.
    ///
    /// Returns `None` for regions that do not touch.
    pub fn merge(self, other: Self) -> (r: Option<Self>)
        requires
            self.fits(),
            other.fits(),
        ensures
            r == (if self.start() <= other.end() && other.start() <= self.end() {
                Some(
                    Self::between(
                        imin(self.start(), other.start()),
                        imax(self.end(), other.end()),
                    ),
                )
            } else {
                None
            }),
            r matches Some(m) ==> forall|addr: int| #[trigger]
                m.has(addr) <==> self.has(addr) || other.has(addr),
    {
        let start1: usize = self.address.value();
        let end1: usize = self.end_address().value();
        let start2: usize = other.address.value();
        let end2: usize = other.end_address().value();

        if end1 >= start2 && start1 <= end2 {
            let merged_start: usize = min_usize(start1, start2);
            let merged_end: usize = max_usize(end1, end2);

            Some(
                Self::from_start_end_address(
                    Address::from_value(merged_start),
                    Address::from_value(merged_end),
                ),
            )
        } else {
            None
        }
    }

    /// What is left of this region below `other`.
    pub open spec fn left_of(self, other: Self) -> Option<Self> {
        if self.start() < imin(self.end(), other.start()) {
            Some(Self::between(self.start(), imin(self.end(), other.start())))
        } else {
            None
        }
    }

    /// What is left of this region above `other`.
    pub open spec fn right_of(self, other: Self) -> Option<Self> {
        if imax(self.start(), other.end()) < self.end() {
            Some(Self::between(imax(self.start(), other.end()), self.end()))
        } else {
            None
        }
    }

    /// Punches a hole (`other`) into the region: returns what is left below the
    /// hole and what is left above it.
    pub fn punch_hole(self, other: Self) -> (r: (Option<Self>, Option<Self>))
        requires
            self.fits(),
            other.fits(),
        ensures
            r.0 == self.left_of(other),
            r.1 == self.right_of(other),
    {
        let s_start: usize = self.start_address().value();
        let s_end: usize = self.end_address().value();
        let o_start: usize = other.start_address().value();
        let o_end: usize = other.end_address().value();

        let left = if s_start < o_start {
            let end: usize = min_usize(s_end, o_start);
            if end > s_start {
                Some(
                    Self::from_start_end_address(
                        Address::from_value(s_start),
                        Address::from_value(end),
                    ),
                )
            } else {
                None
            }
        } else {
            None
        };

        let right = if s_end > o_end {
            let start: usize = max_usize(s_start, o_end);
            if start < s_end {
                Some(
                    Self::from_start_end_address(
                        Address::from_value(start),
                        Address::from_value(s_end),
                    ),
                )
            } else {
                None
            }
        } else {
            None
        };

        (left, right)
    }

    /// Checks whether this region fully contains `other`.
    pub fn contains(self, other: Self) -> (r: bool)
        requires
            self.fits(),
            other.fits(),
        ensures
            r == self.covers(other),
    {
        self.start_address().value() <= other.start_address().value() && self.end_address().value()
            >= other.end_address().value()
    }

    /// Checks whether this region contains the given address.
    pub fn contains_address(self, addr: Address<T, ()>) -> (r: bool)
        requires
            self.fits(),
        ensures
            r == self.has(addr.addr() as int),
    {
        let val: usize = addr.value();
        val >= self.start_address().value() && val < self.end_address().value()
    }

    /// Shifts the region forward by `n` pages, and shrinks it by as many bytes,
    /// down to an empty region. A distance that is wider than a machine word
    /// loses its high bits.
    #[must_use]
    pub fn add_pages(self, n: usize) -> (r: Self)
        requires
            self.start() + (n * PAGE_SIZE) % (usize::MAX + 1) <= usize::MAX,
        ensures
            r.start() == self.start() + (n * PAGE_SIZE) % (usize::MAX + 1),
            r.len() == imax(self.len() - (n * PAGE_SIZE) % (usize::MAX + 1), 0),
    {
        let offset: usize = n.wrapping_mul(PAGE_SIZE);
        Self {
            address: Address::from_value(self.address.value() + offset),
            size: self.size.saturating_sub(offset),
        }
    }

    /// Converts this region into a [`MappableRegion`]: the smallest page-aligned
    /// region that contains it, and the offset of its start in that region.
    pub fn to_mappable_region(self) -> (r: MappableRegion<T>)
        requires
            self.end() + PAGE_SIZE - 1 <= usize::MAX,
        ensures
            r.aligned() == Self::between(
                aligned_down(self.start(), PAGE_SIZE as int),
                aligned_up(self.end(), PAGE_SIZE as int),
            ),
            r.start_offset() == self.start() % PAGE_SIZE as int,
            r.aligned().start() % PAGE_SIZE as int == 0,
            r.aligned().start() + r.start_offset() == self.start(),
            r.aligned().covers(self),
    {
        proof {
            aligned_down_is_floor(self.start(), PAGE_SIZE as int);
            aligned_up_is_ceiling(self.end(), PAGE_SIZE as int);
        }
        MappableRegion {
            region: self.align_to_page_boundary(),
            offset_from_page_start: self.start_address().page_offset(),
        }
    }

    /// Increases the size of the region by `size` bytes, a whole number of
    /// pages.
    pub(crate) fn expand_by(&mut self, size: usize)
        requires
            size % PAGE_SIZE == 0,
            old(self).len() + size <= usize::MAX,
        ensures
            final(self).start() == old(self).start(),
            final(self).len() == old(self).len() + size,
    {
        self.size = self.size + size;
    }

    /// The region shared by `self` and `other`; `None` if they are merely
    /// adjacent or do not overlap at all.
    pub open spec fn common(self, other: Self) -> Option<Self> {
        let start = imax(self.start(), other.start());
        let end = imin(self.end(), other.end());
        if start < end {
            Some(Self::between(start, end))
        } else {
            None
        }
    }

    /// Calculates the common overlapping region between `self` and `other`.
    pub fn intersection(self, other: Self) -> (r: Option<Self>)
        requires
            self.fits(),
            other.fits(),
        ensures
            r == self.common(other),
    {
        let start: usize = max_usize(self.start_address().value(), other.start_address().value());
        let end: usize = min_usize(self.end_address().value(), other.end_address().value());

        if start < end {
            Some(
                Self::from_start_end_address(Address::from_value(start), Address::from_value(end)),
            )
        } else {
            None
        }
    }

    /// Returns the smallest page-aligned region that contains the original.
    #[must_use]
    pub fn align_to_page_boundary(self) -> (r: Self)
        requires
            self.end() + PAGE_SIZE - 1 <= usize::MAX,
        ensures
            r == Self::between(
                aligned_down(self.start(), PAGE_SIZE as int),
                aligned_up(self.end(), PAGE_SIZE as int),
            ),
            r.start() % PAGE_SIZE as int == 0,
            r.end() % PAGE_SIZE as int == 0,
            r.start() <= self.start() < r.start() + PAGE_SIZE,
            r.end() - PAGE_SIZE < self.end() <= r.end(),
    {
        proof {
            lemma_page_size_pow2();
            aligned_down_is_floor(self.start(), PAGE_SIZE as int);
            aligned_up_is_ceiling(self.end(), PAGE_SIZE as int);
        }
        let aligned_start = self.start_address().align(PAGE_SIZE);
        let aligned_end = self.end_address().align_up(PAGE_SIZE);

        Self::from_start_end_address(aligned_start, aligned_end)
    }

    /// Returns the start address of each whole page of the region, in order.
    ///
    /// The first is the start of the region. A trailing fragment that is no full
    /// page is ignored.
    pub fn iter_pages(self) -> (r: Vec<Address<T, ()>>)
        requires
            self.start() + self.len() / PAGE_SIZE as int * PAGE_SIZE <= usize::MAX,
        ensures
            r@.len() == self.len() / PAGE_SIZE as int,
            forall|i: int| #![trigger r@[i]] 0 <= i < r@.len() ==> r@[i].addr() == self.start() + i * PAGE_SIZE,
    {
        let pages_count: usize = self.size / PAGE_SIZE;
        let mut pages: Vec<Address<T, ()>> = Vec::new();
        let mut count: usize = 0;
        while count < pages_count
            invariant
                count <= pages_count,
                pages_count == self.len() / PAGE_SIZE as int,
                self.start() + pages_count * PAGE_SIZE <= usize::MAX,
                pages@.len() == count,
                forall|i: int| #![trigger pages@[i]] 0 <= i < count ==> pages@[i].addr() == self.start() + i * PAGE_SIZE,
            decreases pages_count - count,
        {
            pages.push(self.start_address().add_pages(count));
            count = count + 1;
        }
        pages
    }
}

/// [`PAGE_SIZE`] is the power of two that [`PAGE_SHIFT`] says, and
/// [`PAGE_MASK`] selects what is below it.
pub proof fn lemma_page_size_pow2()
    ensures
        PAGE_SIZE == vstd::arithmetic::power2::pow2(PAGE_SHIFT as nat),
        vstd::arithmetic::power2::is_pow2(PAGE_SIZE as int),
        PAGE_MASK == PAGE_SIZE - 1,
{
    vstd::arithmetic::power2::lemma2_to64();
    lemma_pow2_is_pow2(12);
}

/// Punching a hole keeps exactly the addresses that are outside the hole.
pub proof fn punch_hole_keeps_the_rest<T: MemKind>(
    region: MemoryRegion<T>,
    hole: MemoryRegion<T>,
    addr: int,
)
    requires
        region.fits(),
        hole.fits(),
    ensures
        ((region.left_of(hole) matches Some(l) && l.has(addr)) || (region.right_of(
            hole,
        ) matches Some(r) && r.has(addr))) <==> region.has(addr) && !hole.has(addr),
{
}

/// The intersection holds exactly the addresses that both regions hold.
pub proof fn intersection_is_common<T: MemKind>(
    a: MemoryRegion<T>,
    b: MemoryRegion<T>,
    addr: int,
)
    requires
        a.fits(),
        b.fits(),
    ensures
        a.common(b) matches Some(c) ==> (c.has(addr) <==> a.has(addr) && b.has(addr)),
        a.common(b) is None ==> !(a.has(addr) && b.has(addr)),
        a.common(b) == b.common(a),
        a.common(b) is Some <==> a.meets(b),
{
}

/// Regions overlap exactly if there is an address in both of them.
pub proof fn overlapping_regions_share_an_address<T: MemKind>(
    a: MemoryRegion<T>,
    b: MemoryRegion<T>,
)
    ensures
        a.meets(b) <==> exists|addr: int| #[trigger] a.has(addr) && b.has(addr),
        a.meets(b) == b.meets(a),
{
    if a.meets(b) {
        let addr = imax(a.start(), b.start());
        assert(a.has(addr) && b.has(addr));
    }
}

/// A region contains another one that is not empty exactly if it holds each address of it.
pub proof fn containing_is_holding_each_address<T: MemKind>(a: MemoryRegion<T>, b: MemoryRegion<T>)
    requires
        b.len() > 0,
    ensures
        a.covers(b) <==> forall|addr: int| #[trigger] b.has(addr) ==> a.has(addr),
{
    if forall|addr: int| #[trigger] b.has(addr) ==> a.has(addr) {
        assert(b.has(b.start()));
        assert(b.has(b.end() - 1));
    }
}

/// A memory region in physical address space.
pub type PhysMemoryRegion = MemoryRegion<Physical>;

impl PhysMemoryRegion {
    /// Maps the physical region to virtual space by a translator.
    pub fn map_via<T: AddressTranslator<()>>(self) -> (r: VirtMemoryRegion)
        requires
            T::maps_phys(self.start() as usize),
        ensures
            r.start() == T::virt_of(self.start() as usize),
            r.len() == self.len(),
    {
        VirtMemoryRegion::new(self.address.to_va::<T>(), self.size)
    }

    /// Returns the page frames of the region, in order: the frame that holds its
    /// start, and as many as the region has whole pages.
    pub fn iter_pfns(self) -> (r: Vec<PageFrame>)
        ensures
            r@.len() == self.len() / PAGE_SIZE as int,
            forall|i: int| #![trigger r@[i]] 0 <= i < r@.len() ==> r@[i].pfn() == self.start() / PAGE_SIZE as int + i,
    {
        let pages_count: usize = self.size / PAGE_SIZE;
        let start: usize = self.start_address().to_pfn().value();
        let mut pfns: Vec<PageFrame> = Vec::new();
        let mut count: usize = 0;
        while count < pages_count
            invariant
                count <= pages_count,
                pages_count == self.len() / PAGE_SIZE as int,
                start == self.start() / PAGE_SIZE as int,
                pages_count <= usize::MAX / 4096,
                start <= usize::MAX / 4096,
                pfns@.len() == count,
                forall|i: int| #![trigger pfns@[i]] 0 <= i < count ==> pfns@[i].pfn() == self.start() / PAGE_SIZE as int + i,
            decreases pages_count - count,
        {
            pfns.push(PageFrame::from_pfn(start + count));
            count = count + 1;
        }
        pfns
    }
}

/// A memory region in virtual address space.
pub type VirtMemoryRegion = MemoryRegion<Virtual>;

impl VirtMemoryRegion {
    /// Maps the virtual region to physical space by a translator.
    pub fn map_via<T: AddressTranslator<()>>(self) -> (r: PhysMemoryRegion)
        requires
            T::maps_virt(self.start() as usize),
        ensures
            r.start() == T::phys_of(self.start() as usize),
            r.len() == self.len(),
    {
        PhysMemoryRegion::new(self.address.to_pa::<T>(), self.size)
    }
}

/// A memory region of user-space addresses.
pub type UserMemoryRegion = MemoryRegion<User>;

/// A [`MemoryRegion`] that has been expanded to be page-aligned.
///
/// It holds the page-aligned region and the byte offset of the original
/// region's start in it: what is mapped is whole pages, what is used may start
/// anywhere in the first of them.
#[derive(Debug)]
pub struct MappableRegion<T: MemKind> {
    pub(crate) region: MemoryRegion<T>,
    pub(crate) offset_from_page_start: usize,
}

impl<T: MemKind> Clone for MappableRegion<T> {
    fn clone(&self) -> (r: Self)
        ensures
            r == *self,
    {
        *self
    }
}

impl<T: MemKind> Copy for MappableRegion<T> {

}

impl<T: MemKind> MappableRegion<T> {
    /// The page-aligned region.
    pub open(crate) spec fn aligned(self) -> MemoryRegion<T> {
        self.region
    }

    /// The offset of the original region's start in the page-aligned region.
    pub open(crate) spec fn start_offset(self) -> int {
        self.offset_from_page_start as int
    }

    /// Returns the full, page-aligned region that is suitable for mapping.
    pub fn region(&self) -> (r: MemoryRegion<T>)
        ensures
            r == self.aligned(),
    {
        self.region
    }

    /// Returns the offset of the original data within the aligned region.
    pub fn offset(&self) -> (r: usize)
        ensures
            r == self.start_offset(),
    {
        self.offset_from_page_start
    }
}

} // verus!
