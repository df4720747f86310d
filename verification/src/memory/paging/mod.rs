//! Page tables.
//!
//! Page tables form a tree: a table has [`DESCRIPTORS_PER_PAGE`] entries, each of
//! which leads to a table of the next level, maps memory, or is not in use.
use core::marker::PhantomData;
use vstd::arithmetic::power2::pow2;
use vstd::prelude::*;

use crate::error::{KernelError, Result};
use crate::memory::address::{PA, VA};
use crate::memory::page::lemma_one_shl;
use crate::memory::paging::permissions::PtePermissions;
use crate::memory::region::PhysMemoryRegion;

pub mod permissions;
pub mod smalloc_page_allocator;
pub mod tear_down;
pub mod tear_down_laws;
pub mod walk;
pub mod walk_laws;

verus! {

/// Number of page table descriptors that fit in a single page.
pub const DESCRIPTORS_PER_PAGE: usize = 512;

/// What an entry of a page table stands for.
#[derive(Clone, Copy)]
pub enum Descriptor {
    /// A table of the next level.
    Table(PA),
    /// Memory at an address.
    Mapped(PA, PtePermissions),
    /// Neither a table nor memory, though the entry is in use.
    Reserved,
    /// The entry is not in use.
    Invalid,
}

/// Common behavior across different types of page table entries.
pub trait PageTableEntry: Sized + Copy {
    /// The raw type used for the descriptor.
    type RawDescriptor: Sized + Copy;

    /// The raw value of an entry.
    spec fn raw(self) -> Self::RawDescriptor;

    /// The entry with the given raw value.
    spec fn of_raw(v: Self::RawDescriptor) -> Self;

    /// Whether the entry is in use.
    spec fn valid(self) -> bool;

    /// The raw value of an entry that is not in use.
    spec fn invalid_raw() -> Self::RawDescriptor;

    /// The shift used for indexing at this descriptor level.
    spec fn shift() -> usize;

    /// Returns the shift of virtual addresses used for indexing at this descriptor
    /// level.
    fn map_shift() -> (r: usize)
        ensures
            r == Self::shift(),
            r < usize::BITS,
    ;

    /// Returns the raw value of an invalid (not present) descriptor.
    fn raw_invalid() -> (r: Self::RawDescriptor)
        ensures
            r == Self::invalid_raw(),
    ;

    /// Returns `true` if the entry is valid.
    fn is_valid(self) -> (r: bool)
        ensures
            r == self.valid(),
    ;

    /// Returns the raw value of this page descriptor.
    fn as_raw(self) -> (r: Self::RawDescriptor)
        ensures
            r == self.raw(),
    ;

    /// Returns a representation of the page descriptor from a raw value.
    fn from_raw(v: Self::RawDescriptor) -> (r: Self)
        ensures
            r == Self::of_raw(v),
    ;

    /// Returns a new invalid page descriptor.
    fn invalid() -> (r: Self)
        ensures
            r == Self::of_raw(Self::invalid_raw()),
    {
        Self::from_raw(Self::raw_invalid())
    }
}

/// Descriptors that can point to a next-level table.
pub trait TableMapper: PageTableEntry {
    /// The address of the next-level table, if the entry points to one.
    spec fn next_table(self) -> Option<PA>;

    /// Returns the physical address of the next-level table, if this descriptor is a
    /// table descriptor.
    fn next_table_address(self) -> (r: Option<PA>)
        ensures
            r == self.next_table(),
    ;

    /// Creates a new descriptor that points to the given next-level table.
    fn new_next_table(pa: PA) -> (r: Self)
        ensures
            r.next_table() == Some(pa),
            r.valid(),
    ;
}

/// A descriptor that maps a physical address at the page and block level.
pub trait PaMapper: PageTableEntry {
    /// The memory attribute type for this descriptor's architecture.
    type MemoryType: Copy;

    /// The address and permissions of the mapped memory, if the entry maps any.
    spec fn mapping(self) -> Option<(PA, PtePermissions)>;

    /// Whether a part of the region could be mapped by one entry.
    spec fn mappable(region: PhysMemoryRegion, va: usize) -> bool;

    /// Constructs a new valid page descriptor that maps a physical address.
    fn new_map_pa(page_address: PA, memory_type: Self::MemoryType, perms: PtePermissions) -> (r:
        Self)
        ensures
            r.mapping() == Some((page_address, perms)),
            r.valid(),
    ;

    /// Whether a subsection of the region could be mapped via this type of page.
    fn could_map(region: PhysMemoryRegion, va: VA) -> (r: bool)
        ensures
            r == Self::mappable(region, va.addr()),
    ;

    /// Returns the mapped physical address.
    fn mapped_address(self) -> (r: Option<PA>)
        ensures
            r == (match self.mapping() {
                Some(m) => Some(m.0),
                None => None,
            }),
    ;

    /// Returns the permissions set on the entry.
    fn permissions(self) -> (r: Option<PtePermissions>)
        ensures
            r == (match self.mapping() {
                Some(m) => Some(m.1),
                None => None,
            }),
    ;
}

/// What an entry stands for: it is looked at as a table first, then as a mapping.
pub open spec fn meaning<D: TableMapper + PaMapper>(desc: D) -> Descriptor {
    match desc.next_table() {
        Some(pa) => Descriptor::Table(pa),
        None => match desc.mapping() {
            Some(m) => Descriptor::Mapped(m.0, m.1),
            None => if desc.valid() {
                Descriptor::Reserved
            } else {
                Descriptor::Invalid
            },
        },
    }
}

/// Returns what an entry stands for.
pub fn describe<D: TableMapper + PaMapper>(desc: D) -> (r: Descriptor)
    ensures
        r == meaning(desc),
{
    match desc.next_table_address() {
        Some(pa) => Descriptor::Table(pa),
        None => match (desc.mapped_address(), desc.permissions()) {
            (Some(pa), Some(perms)) => Descriptor::Mapped(pa, perms),
            _ => if desc.is_valid() {
                Descriptor::Reserved
            } else {
                Descriptor::Invalid
            },
        },
    }
}

/// An entry that points to a table is a table; else one that maps memory is that memory;
/// else it is invalid exactly if it is not in use.
pub proof fn entries_stand_for_what_they_hold<D: TableMapper + PaMapper>(
    desc: D,
    pa: PA,
    perms: PtePermissions,
)
    ensures
        desc.next_table() == Some(pa) <==> meaning(desc) == Descriptor::Table(pa),
        desc.next_table() is None ==> (desc.mapping() == Some((pa, perms)) <==> meaning(desc)
            == Descriptor::Mapped(pa, perms)),
        desc.next_table() is None && desc.mapping() is None ==> (meaning(desc) is Invalid
            <==> !desc.valid()) && (meaning(desc) is Reserved <==> desc.valid()),
{
}

/// The index of the entry for the address in a table whose entries cover two to the
/// power of `shift` bytes each.
pub open spec fn entry_index(va: int, shift: nat) -> int {
    (va / pow2(shift) as int) % DESCRIPTORS_PER_PAGE as int
}

/// Computes the index into a page table whose entries cover two to the power of
/// `shift` bytes each.
pub fn index_at(va: VA, shift: usize) -> (r: usize)
    requires
        shift < usize::BITS,
    ensures
        r == entry_index(va.addr() as int, shift as nat),
        r < DESCRIPTORS_PER_PAGE,
{
    proof {
        lemma_one_shl(shift);
    }
    (va.value() / (1usize << shift)) % DESCRIPTORS_PER_PAGE
}

/// A single level of the page table hierarchy.
pub trait PgTable: Sized {
    /// The descriptor (page table entry) type for this level.
    type Descriptor: PageTableEntry;

    /// The entries of the table.
    spec fn entries(&self) -> Seq<Self::Descriptor>;

    /// Returns the descriptor for a given index.
    fn get_idx(&self, idx: usize) -> (r: Self::Descriptor)
        requires
            idx < self.entries().len(),
        ensures
            r == self.entries()[idx as int],
    ;

    /// Computes the index into this page table from a virtual address.
    fn pg_index(va: VA) -> (r: usize)
        ensures
            r == entry_index(va.addr() as int, Self::Descriptor::shift() as nat),
            r < DESCRIPTORS_PER_PAGE,
    {
        index_at(va, Self::Descriptor::map_shift())
    }

    /// Returns the descriptor for a given virtual address.
    fn get_desc(&self, va: VA) -> (r: Self::Descriptor)
        requires
            self.entries().len() == DESCRIPTORS_PER_PAGE,
        ensures
            r == self.entries()[entry_index(va.addr() as int, Self::Descriptor::shift() as nat)],
    {
        self.get_idx(Self::pg_index(va))
    }

    /// Sets the value of the descriptor for a particular virtual address.
    fn set_desc<I: TLBInvalidator>(&mut self, va: VA, desc: Self::Descriptor, invalidator: &I)
        requires
            old(self).entries().len() == DESCRIPTORS_PER_PAGE,
        ensures
            final(self).entries() == old(self).entries().update(
                entry_index(va.addr() as int, Self::Descriptor::shift() as nat),
                Self::Descriptor::of_raw(desc.raw()),
            ),
    ;
}

/// An array of raw page table entries for a given table level.
pub struct PgTableArray<D: PageTableEntry> {
    pages: Vec<D::RawDescriptor>,
    entry: PhantomData<D>,
}

impl<D: PageTableEntry> PgTableArray<D> {
    /// The raw values of the entries.
    pub closed spec fn raws(self) -> Seq<D::RawDescriptor> {
        self.pages@
    }

    /// Creates a page table array all of whose entries are invalid.
    pub fn new() -> (r: Self)
        ensures
            r.raws() == Seq::new(DESCRIPTORS_PER_PAGE as nat, |i: int| D::invalid_raw()),
            r.entries() == Seq::new(
                DESCRIPTORS_PER_PAGE as nat,
                |i: int| D::of_raw(D::invalid_raw()),
            ),
    {
        let mut pages: Vec<D::RawDescriptor> = Vec::new();
        while pages.len() < DESCRIPTORS_PER_PAGE
            invariant
                pages@.len() <= DESCRIPTORS_PER_PAGE,
                forall|i: int| 0 <= i < pages@.len() ==> #[trigger] pages@[i] == D::invalid_raw(),
            decreases DESCRIPTORS_PER_PAGE - pages@.len(),
        {
            pages.push(D::raw_invalid());
        }
        let r = Self { pages, entry: PhantomData };
        assert(r.raws() =~= Seq::new(DESCRIPTORS_PER_PAGE as nat, |i: int| D::invalid_raw()));
        assert(r.entries() =~= Seq::new(
            DESCRIPTORS_PER_PAGE as nat,
            |i: int| D::of_raw(D::invalid_raw()),
        ));
        r
    }
}

impl<D: PageTableEntry> Default for PgTableArray<D> {
    fn default() -> (r: Self)
        ensures
            r.raws() == Seq::new(DESCRIPTORS_PER_PAGE as nat, |i: int| D::invalid_raw()),
    {
        Self::new()
    }
}

impl<D: PageTableEntry> PgTable for PgTableArray<D> {
    type Descriptor = D;

    closed spec fn entries(&self) -> Seq<D> {
        Seq::new(self.pages@.len(), |i: int| D::of_raw(self.pages@[i]))
    }

    fn get_idx(&self, idx: usize) -> (r: D) {
        D::from_raw(self.pages[idx])
    }

    fn set_desc<I: TLBInvalidator>(&mut self, va: VA, desc: D, _invalidator: &I) {
        let ghost before = self.entries();
        let index: usize = Self::pg_index(va);
        self.pages.set(index, desc.as_raw());
        assert(self.entries() =~= before.update(index as int, D::of_raw(desc.raw())));
    }
}

/// The page tables that can be reached by physical address: their entries, and the
/// tables that cannot be accessed.
#[verifier::ext_equal]
pub ghost struct Tables {
    pub entries: Map<(usize, int), Descriptor>,
    pub faults: Map<usize, KernelError>,
}

impl Tables {
    /// Whether the table can be accessed.
    pub open spec fn access(self, table: usize) -> Result<()> {
        if self.faults.dom().contains(table) {
            Err(self.faults[table])
        } else {
            Ok(())
        }
    }

    /// What reading an entry gives.
    pub open spec fn read(self, table: usize, index: int) -> Result<Descriptor> {
        if self.faults.dom().contains(table) {
            Err(self.faults[table])
        } else {
            Ok(self.entries[(table, index)])
        }
    }

    /// The tables once the entry is invalid.
    pub open spec fn cleared(self, table: usize, index: int) -> Self {
        Tables { entries: self.entries.insert((table, index), Descriptor::Invalid), ..self }
    }
}

/// Access to page tables by their physical address.
///
/// During early boot, there are multiple mechanisms for accessing page table memory:
/// - Identity mapping: active very early when VA = PA.
/// - Fixmap: a small, reserved region of virtual memory used to map arbitrary
///   addresses temporarily.
/// - Page-offset (linear map): when VA = PA + offset, typically used after the MMU is
///   set up.
///
/// This trait abstracts over those mechanisms.
pub trait PageTableMapper {
    /// The page tables.
    spec fn tables(&self) -> Tables;

    /// Reads the entry of the table at the physical address. Fails if the table cannot
    /// be mapped.
    fn read_entry(&mut self, table: PA, index: usize) -> (r: Result<Descriptor>)
        requires
            index < DESCRIPTORS_PER_PAGE,
        ensures
            final(self).tables() == old(self).tables(),
            r == old(self).tables().read(table.addr(), index as int),
    ;
}

/// Allocates new page tables during address space setup.
pub trait PageAllocator {
    /// Whether a page table can be asked for.
    spec fn ready(&self) -> bool;

    /// Allocates a new page table and returns its physical address.
    fn allocate_page_table(&mut self) -> (r: Result<PA>)
        requires
            old(self).ready(),
    ;
}

/// Invalidates TLB entries after page table modifications.
pub trait TLBInvalidator {

}

/// A no-op TLB invalidator used when invalidation is unnecessary.
pub struct NullTlbInvalidator {}

impl TLBInvalidator for NullTlbInvalidator {

}

} // verus!
