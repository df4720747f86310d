//! Type-safe handling of virtual, physical and user addresses.
//!
//! An [`Address`] is a machine word tagged with the address space it belongs to
//! and with the type of what it points at. Contracts speak of the word itself,
//! [`Address::addr`]; two addresses of one type are equal exactly when their
//! words are.
use core::marker::PhantomData;
use vstd::arithmetic::power2::is_pow2;
use vstd::prelude::*;

use crate::memory::page::{lemma_is_pow2_order, PageFrame};
use crate::memory::region::MemoryRegion;
use crate::memory::sealed::Sealed;
use crate::memory::{PAGE_MASK, PAGE_SIZE};

verus! {

/// The largest multiple of `align` that is not above `x`.
pub open spec fn aligned_down(x: int, align: int) -> int {
    x - x % align
}

/// The smallest multiple of `align` that is not below `x`.
pub open spec fn aligned_up(x: int, align: int) -> int {
    aligned_down(x + align - 1, align)
}

/// Rounding down gives the only multiple of `align` in `(x - align, x]`.
pub proof fn aligned_down_is_floor(x: int, align: int)
    requires
        align > 0,
    ensures
        aligned_down(x, align) % align == 0,
        aligned_down(x, align) <= x < aligned_down(x, align) + align,
        forall|m: int| #[trigger] (m % align) == 0 && m <= x ==> m <= aligned_down(x, align),
{
    vstd::arithmetic::div_mod::lemma_fundamental_div_mod(x, align);
    vstd::arithmetic::div_mod::lemma_mod_bound(x, align);
    let q = x / align;
    assert(aligned_down(x, align) == align * q);
    vstd::arithmetic::div_mod::lemma_mod_multiples_basic(q, align);
    vstd::arithmetic::mul::lemma_mul_is_commutative(align, q);
    assert forall|m: int| #[trigger] (m % align) == 0 && m <= x implies m <= aligned_down(x, align) by {
        vstd::arithmetic::div_mod::lemma_fundamental_div_mod(m, align);
        vstd::arithmetic::div_mod::lemma_div_is_ordered(m, x, align);
        vstd::arithmetic::mul::lemma_mul_inequality(m / align, q, align);
        vstd::arithmetic::mul::lemma_mul_is_commutative(align, m / align);
    }
}

/// Rounding up gives the only multiple of `align` in `[x, x + align)`.
pub proof fn aligned_up_is_ceiling(x: int, align: int)
    requires
        align > 0,
    ensures
        aligned_up(x, align) % align == 0,
        x <= aligned_up(x, align) < x + align,
        forall|m: int| #[trigger] (m % align) == 0 && x <= m ==> aligned_up(x, align) <= m,
{
    let u = aligned_up(x, align);
    aligned_down_is_floor(x + align - 1, align);
    assert forall|m: int| #[trigger] (m % align) == 0 && x <= m implies u <= m by {
        if m < u {
            // Both are multiples, so they differ by at least `align`.
            vstd::arithmetic::div_mod::lemma_fundamental_div_mod(m, align);
            vstd::arithmetic::div_mod::lemma_fundamental_div_mod(u, align);
            assert(u / align >= m / align + 1) by (nonlinear_arith)
                requires
                    m == align * (m / align),
                    u == align * (u / align),
                    m < u,
                    align > 0,
            ;
            assert(u >= m + align) by (nonlinear_arith)
                requires
                    m == align * (m / align),
                    u == align * (u / align),
                    u / align >= m / align + 1,
                    align > 0,
            ;
        }
    }
}

/// Marks a kind of memory address.
///
/// Implemented by [`Virtual`], [`Physical`] and [`User`] only.
pub trait MemKind: Sealed + Ord + Clone + Copy + PartialEq + Eq {

}

/// Marks virtual addresses.
#[derive(Debug, Clone, Copy, PartialEq, Eq, PartialOrd, Ord)]
pub struct Virtual;

/// Marks physical addresses.
#[derive(Debug, Clone, Copy, PartialEq, Eq, PartialOrd, Ord)]
pub struct Physical;

/// Marks user addresses.
#[derive(Debug, Clone, Copy, PartialEq, Eq, PartialOrd, Ord)]
pub struct User;

impl Sealed for Virtual {

}

impl Sealed for Physical {

}

impl Sealed for User {

}

impl MemKind for Virtual {

}

impl MemKind for Physical {

}

impl MemKind for User {

}

/// A memory address of kind `K` that points at a `T`.
#[derive(Debug, PartialEq, Eq, PartialOrd, Ord)]
pub struct Address<K: MemKind, T> {
    pub(crate) inner: usize,
    pub(crate) _phantom: PhantomData<K>,
    pub(crate) _phantom_type: PhantomData<T>,
}

impl<K: MemKind, T> Clone for Address<K, T> {
    fn clone(&self) -> (r: Self)
        ensures
            r == *self,
    {
        *self
    }
}

impl<K: MemKind, T> Copy for Address<K, T> {

}

impl<K: MemKind, T> Address<K, T> {
    /// The address as a machine word.
    pub open(crate) spec fn addr(self) -> usize {
        self.inner
    }

    /// The address whose machine word is `addr`.
    pub open(crate) spec fn at(addr: usize) -> Self {
        Address { inner: addr, _phantom: PhantomData, _phantom_type: PhantomData }
    }

    /// An address and its machine word determine each other.
    pub proof fn at_addr(a: Self, addr: usize)
        ensures
            Self::at(addr).addr() == addr,
            Self::at(a.addr()) == a,
    {
    }

    /// Constructs an address from a raw value.
    pub fn from_value(addr: usize) -> (r: Self)
        ensures
            r == Self::at(addr),
            r.addr() == addr,
    {
        Self { inner: addr, _phantom: PhantomData, _phantom_type: PhantomData }
    }

    /// Returns the underlying raw value.
    pub fn value(self) -> (r: usize)
        ensures
            r == self.addr(),
    {
        self.inner
    }

    /// Checks whether the address is the start of a page.
    pub fn is_page_aligned(self) -> (r: bool)
        ensures
            r == (self.addr() % PAGE_SIZE == 0),
    {
        let inner = self.inner;
        assert(inner & 4095 == inner % 4096) by (bit_vector);
        self.inner & PAGE_MASK == 0
    }

    /// Adds `count` pages to the address.
    #[must_use]
    pub fn add_pages(self, count: usize) -> (r: Self)
        requires
            self.addr() + PAGE_SIZE * count <= usize::MAX,
        ensures
            r.addr() == self.addr() + PAGE_SIZE * count,
    {
        Self::from_value(self.inner + (PAGE_SIZE * count))
    }

    /// Returns the address rounded down to a multiple of `align`, a power of
    /// two.
    #[must_use]
    pub fn align(self, align: usize) -> (r: Self)
        requires
            is_pow2(align as int),
        ensures
            r.addr() == aligned_down(self.addr() as int, align as int),
    {
        proof {
            lemma_is_pow2_order(align as int);
            aligned_down_is_floor(self.inner as int, align as int);
            vstd::arithmetic::div_mod::lemma_mod_decreases(self.inner as nat, align as nat);
        }
        Self::from_value(self.inner - self.inner % align)
    }

    /// Returns the address rounded down to the start of its page.
    #[must_use]
    pub fn page_aligned(self) -> (r: Self)
        ensures
            r.addr() == aligned_down(self.addr() as int, PAGE_SIZE as int),
    {
        Self::from_value(self.inner - self.inner % PAGE_SIZE)
    }

    /// Returns the address rounded up to a multiple of `align`, a power of two.
    #[must_use]
    pub fn align_up(self, align: usize) -> (r: Self)
        requires
            is_pow2(align as int),
            self.addr() + align - 1 <= usize::MAX,
        ensures
            r.addr() == aligned_up(self.addr() as int, align as int),
    {
        proof {
            lemma_is_pow2_order(align as int);
        }
        Self::from_value(self.inner + (align - 1)).align(align)
    }

    /// Returns the offset of the address within its page.
    pub fn page_offset(self) -> (r: usize)
        ensures
            r == self.addr() % PAGE_SIZE,
    {
        let inner = self.inner;
        assert(inner & 4095 == inner % 4096) by (bit_vector);
        self.inner & PAGE_MASK
    }

    /// The null address.
    pub fn null() -> (r: Self)
        ensures
            r.addr() == 0,
    {
        Self::from_value(0)
    }

    /// Adds `n` bytes to the address.
    #[must_use]
    pub fn add_bytes(self, n: usize) -> (r: Self)
        requires
            self.addr() + n <= usize::MAX,
        ensures
            r.addr() == self.addr() + n,
    {
        Self::from_value(self.value() + n)
    }

    /// Subtracts `n` bytes from the address.
    #[must_use]
    pub fn sub_bytes(self, n: usize) -> (r: Self)
        requires
            n <= self.addr(),
        ensures
            r.addr() == self.addr() - n,
    {
        Self::from_value(self.value() - n)
    }

    /// Checks whether this is the null address.
    pub fn is_null(self) -> (r: bool)
        ensures
            r == (self.addr() == 0),
    {
        self.inner == 0
    }
}

impl<K: MemKind, T: Sized> Address<K, T> {
    /// Moves the address up by `n` objects of type `T`.
    #[must_use]
    pub fn add_objs(self, n: usize) -> (r: Self)
        requires
            self.addr() + vstd::layout::size_of::<T>() * n <= usize::MAX,
        ensures
            r.addr() == self.addr() + vstd::layout::size_of::<T>() * n,
    {
        Self::from_value(self.value() + core::mem::size_of::<T>() * n)
    }

    /// Moves the address down by `n` objects of type `T`.
    #[must_use]
    pub fn sub_objs(self, n: usize) -> (r: Self)
        requires
            vstd::layout::size_of::<T>() * n <= self.addr(),
        ensures
            r.addr() == self.addr() - vstd::layout::size_of::<T>() * n,
    {
        Self::from_value(self.value() - core::mem::size_of::<T>() * n)
    }
}

/// A typed physical address.
pub type TPA<T> = Address<Physical, T>;

/// A typed virtual address.
pub type TVA<T> = Address<Virtual, T>;

/// A typed user address.
pub type TUA<T> = Address<User, T>;

/// An untyped physical address.
pub type PA = Address<Physical, ()>;

/// An untyped virtual address.
pub type VA = Address<Virtual, ()>;

/// An untyped user address.
pub type UA = Address<User, ()>;

impl<T> TPA<T> {
    /// Converts to an untyped physical address.
    pub fn to_untyped(self) -> (r: PA)
        ensures
            r.addr() == self.addr(),
    {
        PA::from_value(self.value())
    }

    /// Converts to a virtual address by a translator.
    pub fn to_va<A: AddressTranslator<T>>(self) -> (r: TVA<T>)
        requires
            A::maps_phys(self.addr()),
        ensures
            r.addr() == A::virt_of(self.addr()),
    {
        A::phys_to_virt(self)
    }
}

impl<T> TVA<T> {
    /// Converts to an untyped virtual address.
    pub fn to_untyped(self) -> (r: VA)
        ensures
            r.addr() == self.addr(),
    {
        VA::from_value(self.value())
    }

    /// Converts to a physical address by a translator.
    pub fn to_pa<A: AddressTranslator<T>>(self) -> (r: TPA<T>)
        requires
            A::maps_virt(self.addr()),
        ensures
            r.addr() == A::phys_of(self.addr()),
    {
        A::virt_to_phys(self)
    }
}

impl<T> TUA<T> {
    /// Converts to an untyped user address.
    pub fn to_untyped(self) -> (r: UA)
        ensures
            r.addr() == self.addr(),
    {
        UA::from_value(self.value())
    }
}

impl UA {
    /// Casts to a typed user address.
    pub fn cast<T>(self) -> (r: TUA<T>)
        ensures
            r.addr() == self.addr(),
    {
        TUA::from_value(self.value())
    }
}

impl VA {
    /// Casts to a typed virtual address.
    pub fn cast<T>(self) -> (r: TVA<T>)
        ensures
            r.addr() == self.addr(),
    {
        TVA::from_value(self.value())
    }

    /// Returns the page that holds this address.
    pub fn page_region(self) -> (r: MemoryRegion<Virtual>)
        ensures
            r.start() == aligned_down(self.addr() as int, PAGE_SIZE as int),
            r.len() == PAGE_SIZE,
    {
        MemoryRegion::new(self.page_aligned().cast(), PAGE_SIZE)
    }
}

impl PA {
    /// Casts to a typed physical address.
    pub fn cast<T>(self) -> (r: TPA<T>)
        ensures
            r.addr() == self.addr(),
    {
        TPA::from_value(self.value())
    }

    /// Returns the page frame that holds this address.
    pub fn to_pfn(&self) -> (r: PageFrame)
        ensures
            r.pfn() == self.addr() / PAGE_SIZE,
    {
        PageFrame::from_pfn(self.inner / PAGE_SIZE)
    }
}

/// Translates between physical and virtual addresses.
pub trait AddressTranslator<T>: 'static + Send + Sync {
    /// Whether the physical address has a virtual one.
    spec fn maps_phys(pa: usize) -> bool;

    /// Whether the virtual address has a physical one.
    spec fn maps_virt(va: usize) -> bool;

    /// The physical address of `va`.
    spec fn phys_of(va: usize) -> usize;

    /// The virtual address of `pa`.
    spec fn virt_of(pa: usize) -> usize;

    /// Translates a virtual address to a physical one.
    fn virt_to_phys(va: TVA<T>) -> (r: TPA<T>)
        requires
            Self::maps_virt(va.addr()),
        ensures
            r.addr() == Self::phys_of(va.addr()),
    ;

    /// Translates a physical address to a virtual one.
    fn phys_to_virt(pa: TPA<T>) -> (r: TVA<T>)
        requires
            Self::maps_phys(pa.addr()),
        ensures
            r.addr() == Self::virt_of(pa.addr()),
    ;
}

/// Translates every address to itself.
pub struct IdentityTranslator {}

impl<T> AddressTranslator<T> for IdentityTranslator {
    open spec fn maps_phys(pa: usize) -> bool {
        true
    }

    open spec fn maps_virt(va: usize) -> bool {
        true
    }

    open spec fn phys_of(va: usize) -> usize {
        va
    }

    open spec fn virt_of(pa: usize) -> usize {
        pa
    }

    fn virt_to_phys(va: TVA<T>) -> (r: TPA<T>) {
        TPA::from_value(va.value())
    }

    fn phys_to_virt(pa: TPA<T>) -> (r: TVA<T>) {
        TVA::from_value(pa.value())
    }
}

/// Going through the identity translator and back gives the address back.
pub proof fn identity_round_trip<T>(pa: usize, va: usize)
    ensures
        <IdentityTranslator as AddressTranslator<T>>::phys_of(
            <IdentityTranslator as AddressTranslator<T>>::virt_of(pa),
        ) == pa,
        <IdentityTranslator as AddressTranslator<T>>::virt_of(
            <IdentityTranslator as AddressTranslator<T>>::phys_of(va),
        ) == va,
{
}

} // verus!
