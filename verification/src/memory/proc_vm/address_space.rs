//! Kernel and user address-space interfaces.
//!
//! What an address space does with the page tables is up to the architecture.
//! The memory map decides which operations it is asked for, and what follows
//! from its replies. So what is known of an address space is the [`Step`]s that it
//! has been asked for, each with the reply it gave.
use vstd::prelude::*;

use crate::error::{KernelError, Result};
use crate::memory::address::VA;
use crate::memory::page::PageFrame;
use crate::memory::paging::permissions::PtePermissions;
use crate::memory::region::{PhysMemoryRegion, VirtMemoryRegion};

verus! {

/// An architecture-independent representation of a page table entry (PTE).
#[derive(Clone, Copy, Debug, PartialEq, Eq)]
pub struct PageInfo {
    /// The physical page.
    pub pfn: PageFrame,
    /// The permission bits of the entry.
    pub perms: PtePermissions,
}

/// An operation that an address space is asked for.
pub ghost enum Call {
    /// Map the page at the address.
    MapPage(PageFrame, VA, PtePermissions),
    /// Unmap the page at the address.
    Unmap(VA),
    /// Map another page at the address.
    Remap(VA, PageFrame, PtePermissions),
    /// Look up what is mapped at the address.
    Translate(VA),
    /// Change the permissions of a range.
    ProtectRange(VirtMemoryRegion, PtePermissions),
    /// Unmap a range.
    UnmapRange(VirtMemoryRegion),
    /// Protect a range and share it with another address space.
    ShareRange(VirtMemoryRegion, PtePermissions),
}

/// The reply to a [`Call`].
pub ghost enum Reply {
    /// The operation succeeded, and yields these page frames (none, for
    /// operations that yield nothing).
    Pages(Seq<PageFrame>),
    /// The operation failed.
    Failed(KernelError),
    /// What the lookup found.
    Found(Option<PageInfo>),
}

/// A [`Call`] together with the [`Reply`] to it.
pub ghost struct Step {
    /// What was asked for.
    pub call: Call,
    /// What came back.
    pub reply: Reply,
}

/// The reply that a result without a value stands for.
pub open spec fn done(r: Result<()>) -> Reply {
    match r {
        Ok(_) => Reply::Pages(Seq::empty()),
        Err(e) => Reply::Failed(e),
    }
}

/// The reply that a page frame stands for.
pub open spec fn one_page(r: Result<PageFrame>) -> Reply {
    match r {
        Ok(p) => Reply::Pages(seq![p]),
        Err(e) => Reply::Failed(e),
    }
}

/// The reply that a list of page frames stands for.
pub open spec fn pages(r: Result<Vec<PageFrame>>) -> Reply {
    match r {
        Ok(p) => Reply::Pages(p@),
        Err(e) => Reply::Failed(e),
    }
}

/// The steps that an address space has been asked for, in order.
pub type Record = Seq<Step>;

/// A process's memory context, which abstracts the hardware-specific details of
/// page tables, address translation, and TLB management.
///
/// Each supported architecture provides an implementation. It keeps a record of
/// what it has been asked for, with its replies. Nothing is promised of whether an
/// operation succeeds.
pub trait UserAddressSpace: Send + Sync + Sized {
    /// What the address space has been asked for.
    spec fn steps(&self) -> Record;

    /// Creates a new, empty page table hierarchy for a new process.
    fn new() -> (r: Result<Self>)
        ensures
            r matches Ok(space) ==> space.steps() == Seq::<Step>::empty(),
    ;

    /// Activates this address space for the current CPU.
    fn activate(&self);

    /// Deactivates this address space for the current CPU.
    fn deactivate(&self);

    /// Maps a single physical page frame to a virtual address.
    fn map_page(&mut self, page: PageFrame, va: VA, perms: PtePermissions) -> (r: Result<()>)
        ensures
            final(self).steps() == old(self).steps().push(
                (Step { call: Call::MapPage(page, va, perms), reply: done(r) }),
            ),
    ;

    /// Unmaps a single virtual page, returning the physical page it was mapped
    /// to.
    fn unmap(&mut self, va: VA) -> (r: Result<PageFrame>)
        ensures
            final(self).steps() == old(self).steps().push(
                (Step { call: Call::Unmap(va), reply: one_page(r) }),
            ),
    ;

    /// Unmaps the page at `va` and maps a new page in its place, returning the
    /// page that was mapped before.
    fn remap(&mut self, va: VA, new_page: PageFrame, perms: PtePermissions) -> (r: Result<
        PageFrame,
    >)
        ensures
            final(self).steps() == old(self).steps().push(
                (Step { call: Call::Remap(va, new_page, perms), reply: one_page(r) }),
            ),
    ;

    /// Changes the protection flags for a range of virtual addresses.
    fn protect_range(&mut self, va_range: VirtMemoryRegion, perms: PtePermissions) -> (r: Result<
        (),
    >)
        ensures
            final(self).steps() == old(self).steps().push(
                (Step { call: Call::ProtectRange(va_range, perms), reply: done(r) }),
            ),
    ;

    /// Unmaps an entire range of virtual addresses, returning all the physical
    /// frames that were unmapped.
    fn unmap_range(&mut self, va_range: VirtMemoryRegion) -> (r: Result<Vec<PageFrame>>)
        ensures
            final(self).steps() == old(self).steps().push(
                (Step { call: Call::UnmapRange(va_range), reply: pages(r) }),
            ),
    ;

    /// Translates a virtual address to its page table entry. A lookup is recorded
    /// like the other operations.
    fn translate(&mut self, va: VA) -> (r: Option<PageInfo>)
        ensures
            final(self).steps() == old(self).steps().push(
                (Step { call: Call::Translate(va), reply: Reply::Found(r) }),
            ),
    ;

    /// Protects a region and clones its mappings into another address space.
    ///
    /// Each mapped page of the region becomes shared: it is mapped with `perms`
    /// in both address spaces, which both record it.
    fn protect_and_clone_region(
        &mut self,
        region: VirtMemoryRegion,
        other: &mut Self,
        perms: PtePermissions,
    ) -> (r: Result<()>)
        ensures
            final(self).steps() == old(self).steps().push(
                (Step { call: Call::ShareRange(region, perms), reply: done(r) }),
            ),
            final(other).steps() == old(other).steps().push(
                (Step { call: Call::ShareRange(region, perms), reply: done(r) }),
            ),
    ;
}

/// `made` is what came of creating an address space.
pub open spec fn created<AS: UserAddressSpace>(made: Result<AS>) -> bool {
    call_ensures(AS::new, (), made)
}

/// The kernel's memory context.
pub trait KernAddressSpace: Send {
    /// Maps the given region as MMIO memory.
    fn map_mmio(&mut self, region: PhysMemoryRegion) -> Result<VA>;

    /// Maps the given region as normal memory.
    fn map_normal(
        &mut self,
        phys_range: PhysMemoryRegion,
        virt_range: VirtMemoryRegion,
        perms: PtePermissions,
    ) -> Result<()>;
}

} // verus!
