//! Memory map management for a process address space.
use vstd::prelude::*;

use crate::error::{KernelError, Result};
use crate::memory::address::{aligned_down, aligned_up, VA};
use crate::memory::page::PageFrame;
use crate::memory::paging::permissions::PtePermissions;
use crate::memory::proc_vm::address_space::{created, pages, Reply, Step, UserAddressSpace};
use crate::memory::proc_vm::memory_map::lemmas::{
    agree, extends, lemma_affected, lemma_carve_all_extends, lemma_carve_all_fails,
    lemma_carve_all_local, lemma_copy_pages_extends, lemma_copy_pages_fails,
    lemma_copy_pages_local, lemma_insert_local, lemma_merge, lemma_parts, lemma_replies,
    lemma_undo_extends, lemma_undo_local, paged,
};
use crate::memory::proc_vm::memory_map::model::{
    affected, carve_all, copy_pages, find, fixup_call, free_region, gap_end, insert, insert_part,
    is_free, join_next, map_region, merge, munmapped, page_run, protect, protect_part, protect_whole, put_all,
    put_parts, replies, undo, unmap, World,
};
use crate::memory::proc_vm::memory_map::table::{
    all_wf, cut_vma, find_floor, find_rank, lemma_rank, put_vma, sorted,
};
use crate::memory::proc_vm::vmarea::{VMAPermissions, VMArea, VMAreaKind};
use crate::memory::region::VirtMemoryRegion;
use crate::memory::{PAGE_MASK, PAGE_SIZE};

pub mod failure_laws;
pub mod laws;
pub mod lemmas;
pub mod model;
pub mod move_laws;
pub mod remap;
pub mod remap_laws;
pub mod request_laws;
pub mod step_laws;
pub mod table;

verus! {

/// Mappings at no particular address are placed below this address.
pub const MMAP_BASE: usize = 0x4000_0000_0000u64 as usize;

/// Manages mappings in a process's address space.
pub struct MemoryMap<AS: UserAddressSpace> {
    vmas: Vec<VMArea>,
    address_space: AS,
}

/// How the kernel chooses the virtual address for a mapping.
#[derive(Clone, Copy, Debug, PartialEq, Eq)]
pub enum AddressRequest {
    /// Any suitable address.
    Any,
    /// The given address, or else any free region.
    Hint(VA),
    /// Exactly the given address.
    Fixed {
        /// The exact virtual address to map at.
        address: VA,
        /// If `true`, existing mappings in the range may be replaced.
        permit_overlap: bool,
    },
}

/// Where a remap operation may place the remapped VMA.
#[derive(Debug, Clone, Copy, PartialEq, Eq)]
pub enum RemapDestination {
    /// Resize in place only.
    InPlaceOnly,
    /// Resize in place if possible, otherwise move to any free region.
    MayMove,
    /// Move the mapping to exactly this address.
    Fixed(VA),
}

/// The result with its page frames as a sequence.
pub open spec fn frames(r: Result<Vec<PageFrame>>) -> Result<Seq<PageFrame>> {
    match r {
        Ok(v) => Ok(v@),
        Err(e) => Err(e),
    }
}

/// The result with its page frames as a sequence.
pub open spec fn placed_frames(r: Result<(VA, Vec<PageFrame>)>) -> Result<(VA, Seq<PageFrame>)> {
    match r {
        Ok((va, v)) => Ok((va, v@)),
        Err(e) => Err(e),
    }
}

/// Whether all addresses that a map request leads to are machine words.
pub open spec fn map_in_range(request: AddressRequest, len: usize) -> bool {
    let size = aligned_up(len as int, PAGE_SIZE as int);
    &&& size <= usize::MAX
    &&& match request {
        AddressRequest::Any => true,
        AddressRequest::Hint(a) => aligned_down(a.addr() as int, PAGE_SIZE as int) + size
            <= usize::MAX,
        AddressRequest::Fixed { address, permit_overlap } => address.addr() % PAGE_SIZE != 0
            || address.addr() + size <= usize::MAX,
    }
}

/// Whether the VMA's backing, mapped on a region of `len` bytes, has offsets that
/// are machine words.
pub open spec fn backing_in_range(kind: VMAreaKind, len: int) -> bool {
    kind matches VMAreaKind::File(m) ==> m.offset + len <= u64::MAX
}

impl<AS: UserAddressSpace> View for MemoryMap<AS> {
    type V = World;

    closed spec fn view(&self) -> World {
        World { vmas: self.vmas@, log: self.address_space.steps() }
    }
}

impl<AS: UserAddressSpace> MemoryMap<AS> {
    /// The VMAs are in order, and each is well-formed.
    pub open spec fn wf(self) -> bool {
        &&& sorted(self@.vmas)
        &&& all_wf(self@.vmas)
    }

    /// The address space.
    pub closed spec fn space(self) -> AS {
        self.address_space
    }

    /// The record of a map is that of its address space.
    pub proof fn log_is_the_record(self)
        ensures
            self@.log == self.space().steps(),
    {
    }

    /// What is built on what came of creating an address space: a map of the VMAs on the
    /// new address space, which has not been asked for anything yet, or the same failure.
    pub open spec fn built_on(made: Result<AS>, vmas: Seq<VMArea>, r: Result<Self>) -> bool {
        match made {
            Ok(space) => r matches Ok(map) && {
                &&& map.wf()
                &&& map@ == (World { vmas, log: Seq::empty() })
                &&& map.space() == space
            },
            Err(e) => r == Err::<Self, KernelError>(e),
        }
    }

    /// Creates a new, empty address space. Fails if that cannot be created.
    pub fn new() -> (r: Result<Self>)
        ensures
            exists|made: Result<AS>| #[trigger]
                created(made) && Self::built_on(made, Seq::empty(), r),
    {
        let made = AS::new();
        assert(created(made));
        match made {
            Ok(address_space) => Ok(Self::with_addr_spc(address_space)),
            Err(e) => Err(e),
        }
    }

    /// Creates an empty memory map on an address space.
    pub(crate) fn with_addr_spc(address_space: AS) -> (r: Self)
        ensures
            r.wf(),
            r@ == (World { vmas: Seq::empty(), log: address_space.steps() }),
            r.space() == address_space,
    {
        Self { vmas: Vec::new(), address_space }
    }

    /// Creates a memory map from a list of VMAs; of VMAs with the same start the
    /// last one counts. Fails if its address space cannot be created.
    pub fn from_vmas(vmas: Vec<VMArea>) -> (r: Result<Self>)
        requires
            all_wf(vmas@),
        ensures
            exists|made: Result<AS>| #[trigger]
                created(made) && Self::built_on(made, put_all(vmas@), r),
    {
        let mut table: Vec<VMArea> = Vec::new();
        let mut i: usize = 0;
        while i < vmas.len()
            invariant
                i <= vmas@.len(),
                all_wf(vmas@),
                sorted(table@),
                all_wf(table@),
                table@ == put_all(vmas@.take(i as int)),
            decreases vmas@.len() - i,
        {
            put_vma(&mut table, vmas[i].clone());
            assert(vmas@.take(i + 1).drop_last() =~= vmas@.take(i as int));
            i = i + 1;
        }
        assert(vmas@.take(i as int) =~= vmas@);
        let made = AS::new();
        assert(created(made));
        match made {
            Ok(address_space) => Ok(
                Self { vmas: table, address_space },
            ),
            Err(e) => Err(e),
        }
    }

    /// Finds the `VMArea` that contains the given virtual address; `None` if the
    /// address is in a hole in the address space.
    pub fn find_vma(&self, addr: VA) -> (r: Option<&VMArea>)
        requires
            self.wf(),
        ensures
            match r {
                Some(vma) => find(self@.vmas, addr.addr() as int) == Some(*vma),
                None => find(self@.vmas, addr.addr() as int) is None,
            },
    {
        let n: usize = find_floor(&self.vmas, addr.value());
        if n == 0 {
            return None;
        }
        let vma = &self.vmas[n - 1];
        if vma.contains_address(addr) {
            Some(vma)
        } else {
            None
        }
    }

    /// Maps a region of memory.
    pub fn mmap(
        &mut self,
        requested_address: AddressRequest,
        len: usize,
        perms: VMAPermissions,
        kind: VMAreaKind,
        name: String,
    ) -> (r: Result<VA>)
        requires
            old(self).wf(),
            len > 0 ==> map_in_range(requested_address, len),
            backing_in_range(kind, aligned_up(len as int, PAGE_SIZE as int)),
        ensures
            final(self).wf(),
            (final(self)@, r) == map_region(
                old(self)@,
                requested_address,
                MMAP_BASE as int,
                len as int,
                perms,
                kind,
                name,
                replies(final(self)@.log),
            ),
    {
        if len == 0 {
            return Err(KernelError::InvalidValue);
        }
        let len: usize = Self::align_len(len);

        let region = match requested_address {
            AddressRequest::Any => match self.find_free_region(len) {
                Some(region) => region,
                None => return Err(KernelError::NoMemory),
            },
            AddressRequest::Hint(address) => {
                let region = VirtMemoryRegion::new(address.page_aligned(), len);

                if self.is_region_free(region) {
                    region
                } else {
                    match self.find_free_region(len) {
                        Some(region) => region,
                        None => return Err(KernelError::NoMemory),
                    }
                }
            },
            AddressRequest::Fixed { address, permit_overlap } => {
                if !address.is_page_aligned() {
                    return Err(KernelError::InvalidValue);
                }
                let region = VirtMemoryRegion::new(address, len);

                if !permit_overlap && !self.is_region_free(region) {
                    return Err(KernelError::InvalidValue);
                }
                region
            },
        };

        assert(paged(region) && region.len() == len);
        let mut new_vma = VMArea::new(region, kind, perms);
        new_vma.set_name(name);

        self.insert_and_merge(new_vma);

        Ok(region.start_address())
    }

    /// Unmaps a region of memory.
    ///
    /// The start of the range must be page-aligned, its length is rounded up.
    /// Returns the page frames that were unmapped.
    pub fn munmap(&mut self, range: VirtMemoryRegion) -> (r: Result<Vec<PageFrame>>)
        requires
            old(self).wf(),
            range.end() + PAGE_SIZE - 1 <= usize::MAX,
        ensures
            final(self).wf(),
            (final(self)@, frames(r)) == munmapped(old(self)@, range, replies(final(self)@.log)),
    {
        if !range.is_page_aligned() {
            return Err(KernelError::InvalidValue);
        }
        if range.size() == 0 {
            return Err(KernelError::InvalidValue);
        }
        let region = range.align_to_page_boundary();
        proof {
            crate::memory::address::aligned_up_is_ceiling(range.end(), PAGE_SIZE as int);
        }
        assert(region.start() == range.start());
        assert(region.end() == aligned_up(range.end(), PAGE_SIZE as int));
        proof {
            lemma_whole_pages(region.end(), region.start());
        }
        self.unmap_region(region, None)
    }

    /// Changes the memory protection flags for a page-aligned region, whose length is a
    /// whole number of pages.
    ///
    /// A region over several VMAs is not supported: the call fails, and the VMA that the
    /// region starts in is not in the map any more.
    pub fn mprotect(&mut self, protect_region: VirtMemoryRegion, new_perms: VMAPermissions) -> (r:
        Result<()>)
        requires
            old(self).wf(),
            protect_region.fits(),
            protect_region.len() % PAGE_SIZE as int == 0,
        ensures
            final(self).wf(),
            (final(self)@, r) == protect(
                old(self)@,
                protect_region,
                new_perms,
                replies(final(self)@.log),
            ),
    {
        if !protect_region.is_page_aligned() {
            return Err(KernelError::InvalidValue);
        }
        if protect_region.size() == 0 {
            return Err(KernelError::InvalidValue);
        }
        let affected_vma = match self.find_vma(protect_region.start_address()) {
            Some(vma) => vma.clone(),
            None => return Err(KernelError::NoMemory),
        };
        proof {
            lemma_rank(self@.vmas, protect_region.start() + 1);
        }
        let _ = cut_vma(&mut self.vmas, affected_vma.region.start_address().value());

        let same_start = affected_vma.region.start_address().value()
            == protect_region.start_address().value();
        if same_start && affected_vma.region.size() == protect_region.size() {
            // The entire VMA is changing.
            self.protect_whole_vma(affected_vma, new_perms)
        } else if affected_vma.region.contains(protect_region) {
            // A sub-region of a VMA is changing.
            self.protect_vma_part(affected_vma, protect_region, new_perms)
        } else {
            Err(KernelError::NoMemory)
        }
    }

    /// Puts in a VMA, which has been taken out, with other permissions.
    fn protect_whole_vma(&mut self, vma: VMArea, new_perms: VMAPermissions) -> (r: Result<()>)
        requires
            old(self).wf(),
            vma.wf(),
        ensures
            final(self).wf(),
            (final(self)@, r) == protect_whole(
                old(self)@,
                vma,
                new_perms,
                replies(final(self)@.log),
            ),
    {
        let region = vma.region;
        let mut new_vma = vma;
        new_vma.permissions = new_perms;
        let ghost w0 = self@;
        let ghost protected = new_vma;

        self.insert_and_merge(new_vma);
        let ghost w1 = self@;
        let r = self.address_space.protect_range(region, PtePermissions::from(new_perms));
        proof {
            lemma_replies(w1.log, self@.log);
            lemma_insert_local(w0, protected, replies(w1.log), replies(self@.log));
        }
        match r {
            Ok(_) => Ok(()),
            Err(e) => Err(e),
        }
    }

    /// Puts in a VMA, which has been taken out, with other permissions for a part
    /// of it.
    fn protect_vma_part(
        &mut self,
        vma: VMArea,
        region: VirtMemoryRegion,
        new_perms: VMAPermissions,
    ) -> (r: Result<()>)
        requires
            old(self).wf(),
            vma.wf(),
            paged(region),
            vma.region.covers(region),
        ensures
            final(self).wf(),
            (final(self)@, r) == protect_part(
                old(self)@,
                vma,
                region,
                new_perms,
                replies(final(self)@.log),
            ),
    {
        let (left, right) = vma.region.punch_hole(region);
        let mut new_vma = vma.shrink_to(region);
        new_vma.permissions = new_perms;
        let ghost w0 = self@;
        let ghost protected = new_vma;

        self.insert_vma_part(&vma, left);
        let ghost w1 = self@;
        let ghost split = vma.region.left_of(region);
        let r = self.address_space.protect_range(region, PtePermissions::from(new_perms));
        let ghost w2 = self@;
        proof {
            lemma_replies(w1.log, w2.log);
            lemma_insert_part_local(w0, vma, split, replies(w1.log), replies(w2.log));
        }
        if r.is_err() {
            return r;
        }
        self.insert_and_merge(new_vma);
        let ghost w3 = self@;
        proof {
            lemma_insert_local(w2, protected, replies(w3.log), replies(w3.log));
        }

        self.insert_vma_part(&vma, right);
        let ghost w4 = self@;
        proof {
            let last = vma.region.right_of(region);
            lemma_insert_part_local(w3, vma, last, replies(w4.log), replies(w4.log));
            lemma_replies(w3.log, w4.log);
            lemma_insert_local(w2, protected, replies(w3.log), replies(w4.log));
            lemma_replies(w1.log, w4.log);
            lemma_insert_part_local(w0, vma, split, replies(w1.log), replies(w4.log));
        }
        Ok(())
    }

    /// Puts in what a VMA holds at `part`, if there is such a part.
    fn insert_vma_part(&mut self, vma: &VMArea, part: Option<VirtMemoryRegion>)
        requires
            old(self).wf(),
            vma.wf(),
            part matches Some(p) ==> paged(p) && vma.region.covers(p),
        ensures
            final(self).wf(),
            final(self)@ == insert_part(old(self)@, *vma, part, replies(final(self)@.log)),
    {
        if let Some(part) = part {
            self.insert_and_merge(vma.shrink_to(part));
        }
    }

    /// Inserts a new VMA in place of what is mapped in its region, merging it with
    /// its neighbours if possible.
    pub fn insert_and_merge(&mut self, vma: VMArea)
        requires
            old(self).wf(),
            vma.wf(),
        ensures
            final(self).wf(),
            final(self)@ == insert(old(self)@, vma, replies(final(self)@.log)),
    {
        proof {
            reveal(insert);
        }
        let _ = self.unmap_region(vma.region, Some(vma.clone()));
        self.merge_vma(vma);
    }

    /// Rounds a length up to whole pages.
    fn align_len(len: usize) -> (r: usize)
        requires
            aligned_up(len as int, PAGE_SIZE as int) <= usize::MAX,
        ensures
            r == aligned_up(len as int, PAGE_SIZE as int),
    {
        assert(len & 4095 == len % 4096) by (bit_vector);
        if len & PAGE_MASK != 0 {
            (len - len % PAGE_SIZE) + PAGE_SIZE
        } else {
            len
        }
    }

    /// Checks whether a given virtual memory region is completely free.
    fn is_region_free(&self, region: VirtMemoryRegion) -> (r: bool)
        requires
            self.wf(),
            region.fits(),
        ensures
            r == is_free(self@.vmas, region),
    {
        let start: usize = region.start_address().value();
        let at_or_below: usize = find_floor(&self.vmas, start);
        if at_or_below > 0 && self.vmas[at_or_below - 1].region.end_address().value() > start {
            return false;
        }
        let above: usize = find_rank(&self.vmas, start);
        !(above < self.vmas.len() && self.vmas[above].region.start_address().value()
            < region.end_address().value())
    }

    /// Finds a free region of `len` bytes, searching downwards from
    /// [`MMAP_BASE`].
    fn find_free_region(&self, len: usize) -> (r: Option<VirtMemoryRegion>)
        requires
            self.wf(),
        ensures
            r == free_region(self@.vmas, MMAP_BASE as int, len as int),
            r matches Some(region) ==> region.fits() && region.len() == len,
            r matches Some(region) ==> (len % PAGE_SIZE == 0 ==> paged(region)),
    {
        let mut last_vma_end: usize = MMAP_BASE;
        let mut n: usize = self.vmas.len();
        proof {
            lemma_mmap_base_aligned();
            assert(self.vmas@.take(n as int) =~= self.vmas@);
        }
        while n > 0
            invariant
                self.wf(),
                last_vma_end % PAGE_SIZE == 0,
                n <= self.vmas@.len(),
                gap_end(self.vmas@, MMAP_BASE as int, len as int) == gap_end(
                    self.vmas@.take(n as int),
                    last_vma_end as int,
                    len as int,
                ),
            decreases n,
        {
            let vma = &self.vmas[n - 1];
            assert(self@.vmas[n - 1].wf());
            assert(self.vmas@.take(n as int).drop_last() =~= self.vmas@.take(n - 1));
            let vma_start: usize = vma.region.start_address().value();
            let vma_end: usize = vma.region.end_address().value();

            if last_vma_end >= vma_end && last_vma_end - vma_end >= len {
                return Some(VirtMemoryRegion::new(VA::from_value(last_vma_end - len), len));
            }
            if vma_start < last_vma_end {
                last_vma_end = vma_start;
            }
            n = n - 1;
        }
        if last_vma_end >= len {
            Some(VirtMemoryRegion::new(VA::from_value(last_vma_end - len), len))
        } else {
            None
        }
    }

    /// Puts in a VMA, merged with the VMAs next to it where they are compatible.
    fn merge_vma(&mut self, vma: VMArea)
        requires
            old(self).wf(),
            vma.wf(),
        ensures
            final(self).wf(),
            final(self)@.vmas == merge(old(self)@.vmas, vma),
            final(self)@.log == old(self)@.log,
            final(self).space() == old(self).space(),
    {
        proof {
            reveal(merge);
            lemma_merge(self@.vmas, vma);
        }
        let ghost s0 = self.vmas@;
        let ghost vma0 = vma;
        let mut vma = vma;
        let end: usize = vma.region.end_address().value();

        // Try to merge with the next VMA.
        let next: usize = find_rank(&self.vmas, end);
        if next < self.vmas.len() && self.vmas[next].region.start_address().value() == end
            && vma.can_merge_with(&self.vmas[next]) {
            assert(self@.vmas[next as int].wf());
            vma.join(&self.vmas[next]);
            let _ = cut_vma(&mut self.vmas, end);
        }
        assert((self.vmas@, vma) == join_next(s0, vma0));
        assert(vma.wf());

        // Try to merge with the previous VMA.
        let start: usize = vma.region.start_address().value();
        let n: usize = find_rank(&self.vmas, start);
        if n > 0 {
            assert(self.vmas@[n - 1].wf());
            if self.vmas[n - 1].region.end_address().value() == start
                && self.vmas[n - 1].can_merge_with(&vma) {
                let mut prev = self.vmas[n - 1].clone();
                prev.join(&vma);
                self.vmas.set(n - 1, prev);
                return ;
            }
        }
        put_vma(&mut self.vmas, vma);
    }

    /// Adapts the underlying page tables where `fixup_region` takes the place of a
    /// part of `old_vma`.
    fn fixup_pg_tables(
        &mut self,
        fixup_region: VirtMemoryRegion,
        old_vma: &VMArea,
        new_vma: &Option<VMArea>,
    ) -> (r: Result<Vec<PageFrame>>)
        requires
            fixup_region.fits(),
            old_vma.region.fits(),
        ensures
            final(self)@.vmas == old(self)@.vmas,
            match fixup_call(fixup_region, *old_vma, *new_vma) {
                None => final(self)@.log == old(self)@.log && frames(r) == Ok::<
                    Seq<PageFrame>,
                    KernelError,
                >(Seq::empty()),
                Some(call) => final(self)@.log == old(self)@.log.push(
                    (Step { call, reply: pages(r) }),
                ),
            },
    {
        let intersection = match fixup_region.intersection(old_vma.region) {
            Some(intersection) => intersection,
            None => return Ok(Vec::new()),
        };
        match new_vma {
            Some(new_vma) => {
                // File-backed contents are always unmapped.
                if old_vma.is_file_backed() || new_vma.is_file_backed() {
                    self.address_space.unmap_range(intersection)
                } else if new_vma.permissions != old_vma.permissions {
                    // Anonymous contents are preserved.
                    match self.address_space.protect_range(
                        intersection,
                        PtePermissions::from(new_vma.permissions),
                    ) {
                        Ok(_) => Ok(Vec::new()),
                        Err(e) => Err(e),
                    }
                } else {
                    Ok(Vec::new())
                }
            },
            None => self.address_space.unmap_range(intersection),
        }
    }

    /// The VMAs that a change of the region affects.
    fn affected_vmas(&self, region: VirtMemoryRegion) -> (r: Vec<VMArea>)
        requires
            self.wf(),
            region.fits(),
        ensures
            r@ == affected(self@.vmas, region),
    {
        let start: usize = region.start_address().value();
        let within: usize = find_rank(&self.vmas, start);
        let end: usize = find_rank(&self.vmas, region.end_address().value());
        proof {
            lemma_rank(self@.vmas, region.start());
            lemma_rank(self@.vmas, region.end());
            if end < within {
                assert(self@.vmas[end as int].start() < region.start());
            }
        }
        let first: usize = if within > 0 && self.vmas[within - 1].region.end_address().value()
            > start {
            within - 1
        } else {
            within
        };
        let mut found: Vec<VMArea> = Vec::new();
        let mut i: usize = first;
        while i < end
            invariant
                first <= i <= end <= self.vmas@.len(),
                found@ == self.vmas@.subrange(first as int, i as int),
            decreases end - i,
        {
            found.push(self.vmas[i].clone());
            i = i + 1;
            assert(found@ =~= self.vmas@.subrange(first as int, i as int));
        }
        found
    }

    /// Creates a hole in the address space. VMAs that overlap the region are
    /// shrunk, those that lie inside it are removed.
    ///
    /// The underlying page tables are adapted to what takes the place of the
    /// region, `replace_with`. Returns all pages that were unmapped.
    fn unmap_region(&mut self, unmap_region: VirtMemoryRegion, replace_with: Option<VMArea>) -> (r:
        Result<Vec<PageFrame>>)
        requires
            old(self).wf(),
            paged(unmap_region),
        ensures
            final(self).wf(),
            (final(self)@, frames(r)) == unmap(
                old(self)@,
                unmap_region,
                replace_with,
                replies(final(self)@.log),
            ),
            extends(old(self)@.log, final(self)@.log),
    {
        let ghost w0 = self@;
        let mut pages_unmapped: Vec<PageFrame> = Vec::new();
        let affected_vmas = self.affected_vmas(unmap_region);
        let ghost todo = affected_vmas@;

        let mut i: usize = 0;
        while i < affected_vmas.len()
            invariant
                i <= affected_vmas@.len(),
                affected_vmas@ == todo,
                todo == affected(w0.vmas, unmap_region),
                w0 == old(self)@,
                sorted(w0.vmas),
                all_wf(w0.vmas),
                self.wf(),
                paged(unmap_region),
                carve_all(w0, todo.take(i as int), unmap_region, replace_with, replies(self@.log))
                    == (self@, Ok::<Seq<PageFrame>, KernelError>(pages_unmapped@)),
            decreases affected_vmas@.len() - i,
        {
            let ghost w1 = self@;
            let vma = affected_vmas[i].clone();
            proof {
                lemma_affected(w0.vmas, unmap_region, i as int);
                assert(todo.take(i + 1).drop_last() =~= todo.take(i as int));
                assert(todo.take(i + 1).last() == vma);
            }
            let _ = cut_vma(&mut self.vmas, vma.region.start_address().value());

            let fixed = self.fixup_pg_tables(unmap_region, &vma, &replace_with);
            let ghost w2 = self@;
            proof {
                assert(extends(w1.log, w2.log));
                lemma_replies(w1.log, w2.log);
                lemma_carve_all_local(
                    w0,
                    todo.take(i as int),
                    unmap_region,
                    replace_with,
                    replies(w1.log),
                    replies(w2.log),
                );
            }
            let mut freed = match fixed {
                Ok(freed) => freed,
                Err(e) => {
                    proof {
                        lemma_carve_all_fails(
                            w0,
                            todo,
                            i + 1,
                            unmap_region,
                            replace_with,
                            replies(w2.log),
                        );
                        lemma_carve_all_extends(
                            w0,
                            todo,
                            unmap_region,
                            replace_with,
                            replies(w2.log),
                        );
                    }
                    return Err(e);
                },
            };
            let ghost before = pages_unmapped@;
            let ghost freed_now = freed@;
            pages_unmapped.append(&mut freed);
            assert(before + Seq::<PageFrame>::empty() =~= before);

            put_vma_parts(&mut self.vmas, &vma, unmap_region);
            i = i + 1;
        }
        proof {
            assert(todo.take(i as int) =~= todo);
            lemma_carve_all_extends(w0, todo, unmap_region, replace_with, replies(self@.log));
        }
        Ok(pages_unmapped)
    }

    /// Maps every page that is mapped in the first `n` pages of `old_region` at the
    /// same place in `new_region` too. If that fails, it is undone.
    fn copy_mapped_pages(
        &mut self,
        old_region: VirtMemoryRegion,
        new_region: VirtMemoryRegion,
        n: usize,
    ) -> (r: Result<()>)
        requires
            old_region.fits(),
            new_region.fits(),
            n * PAGE_SIZE <= old_region.len(),
            n * PAGE_SIZE <= new_region.len(),
        ensures
            final(self)@.vmas == old(self)@.vmas,
            ({
                let (w1, res) = copy_pages(
                    old(self)@,
                    page_run(old_region.start(), n as int),
                    page_run(new_region.start(), n as int),
                    n as int,
                    replies(final(self)@.log),
                );
                &&& final(self)@ == w1
                &&& r is Ok <==> res is Ok
                &&& r matches Err(e) ==> res->Err_0 == e
            }),
            extends(old(self)@.log, final(self)@.log),
    {
        let ghost w0 = self@;
        let ghost from = page_run(old_region.start(), n as int);
        let ghost to = page_run(new_region.start(), n as int);
        let mut newly_mapped: Vec<VA> = Vec::new();
        let mut i: usize = 0;
        proof {
            reveal(copy_pages);
        }
        while i < n
            invariant
                i <= n,
                w0 == old(self)@,
                old_region.fits(),
                new_region.fits(),
                n * PAGE_SIZE <= old_region.len(),
                n * PAGE_SIZE <= new_region.len(),
                from == page_run(old_region.start(), n as int),
                to == page_run(new_region.start(), n as int),
                self@.vmas == w0.vmas,
                copy_pages(w0, from, to, i as int, replies(self@.log)) == (self@, Ok::<
                    Seq<VA>,
                    KernelError,
                >(newly_mapped@)),
            decreases n - i,
        {
            let old_page = old_region.start_address().add_pages(i);
            let new_page = new_region.start_address().add_pages(i);
            let ghost w1 = self@;
            let ghost o1 = replies(w1.log);
            assert(old_page == from[i as int]);
            assert(new_page == to[i as int]);
            let entry = self.address_space.translate(old_page);
            if let Some(page_info) = entry {
                let mapped = self.address_space.map_page(page_info.pfn, new_page, page_info.perms);
                let ghost w3 = self@;
                if let Err(err) = mapped {
                    self.unmap_pages(&newly_mapped);
                    let ghost o4 = replies(self@.log);
                    proof {
                        assert(extends(w1.log, self@.log));
                        lemma_replies(w1.log, self@.log);
                        lemma_replies(w3.log, self@.log);
                        lemma_copy_pages_local(w0, from, to, i as int, o1, o4);
                        reveal(copy_pages);
                        assert(copy_pages(w0, from, to, i + 1, o4) == (self@, Err::<
                            Seq<VA>,
                            KernelError,
                        >(err)));
                        lemma_copy_pages_fails(w0, from, to, i + 1, n as int, o4);
                        lemma_copy_pages_extends(w0, from, to, n as int, o4);
                    }
                    return Err(err);
                }
                newly_mapped.push(new_page);
            }
            proof {
                assert(extends(w1.log, self@.log));
                lemma_replies(w1.log, self@.log);
                lemma_copy_pages_local(w0, from, to, i as int, o1, replies(self@.log));
                reveal(copy_pages);
            }
            i = i + 1;
        }
        proof {
            lemma_copy_pages_extends(w0, from, to, n as int, replies(self@.log));
        }
        Ok(())
    }

    /// Unmaps pages, whatever the address space replies.
    fn unmap_pages(&mut self, mapped: &Vec<VA>)
        ensures
            final(self)@ == undo(
                old(self)@,
                mapped@,
                mapped@.len() as int,
                replies(final(self)@.log),
            ),
            extends(old(self)@.log, final(self)@.log),
            final(self)@.vmas == old(self)@.vmas,
    {
        let ghost w0 = self@;
        let mut i: usize = 0;
        while i < mapped.len()
            invariant
                i <= mapped@.len(),
                w0 == old(self)@,
                self@ == undo(w0, mapped@, i as int, replies(self@.log)),
            decreases mapped@.len() - i,
        {
            let ghost w1 = self@;
            let _ = self.address_space.unmap(mapped[i]);
            proof {
                lemma_replies(w1.log, self@.log);
                lemma_undo_local(w0, mapped@, i as int, replies(w1.log), replies(self@.log));
            }
            i = i + 1;
        }
        proof {
            lemma_undo_extends(w0, mapped@, i as int, replies(self@.log));
        }
    }
}

/// Puts in what is left of a VMA outside the region.
fn put_vma_parts(vmas: &mut Vec<VMArea>, vma: &VMArea, region: VirtMemoryRegion)
    requires
        sorted(old(vmas)@),
        all_wf(old(vmas)@),
        vma.wf(),
        paged(region),
        vma.start() < region.start() ==> vma.end() > region.start(),
        vma.start() >= region.start() ==> vma.start() < region.end(),
    ensures
        final(vmas)@ == put_parts(old(vmas)@, *vma, region),
        sorted(final(vmas)@),
        all_wf(final(vmas)@),
{
    proof {
        reveal(put_parts);
        lemma_parts(*vma, region);
    }
    let vma_start: usize = vma.region.start_address().value();
    let vma_end: usize = vma.region.end_address().value();
    let region_start: usize = region.start_address().value();
    let region_end: usize = region.end_address().value();

    if vma_start < region_start {
        // The VMA is truncated at the end.
        let left = VirtMemoryRegion::from_start_end_address(
            vma.region.start_address(),
            region.start_address(),
        );
        put_vma(vmas, vma.shrink_to(left));

        if vma_end > region_end {
            // The VMA is split.
            let right = VirtMemoryRegion::from_start_end_address(
                region.end_address(),
                vma.region.end_address(),
            );
            put_vma(vmas, vma.shrink_to(right));
        }
    } else if vma_end > region_end {
        // The VMA is truncated at the beginning.
        let right = VirtMemoryRegion::from_start_end_address(
            region.end_address(),
            vma.region.end_address(),
        );
        put_vma(vmas, vma.shrink_to(right));
    }
}

/// What lies between page boundaries is a whole number of pages.
pub proof fn lemma_whole_pages(high: int, low: int)
    requires
        high % PAGE_SIZE as int == 0,
        low % PAGE_SIZE as int == 0,
    ensures
        (high - low) % PAGE_SIZE as int == 0,
        (high + low) % PAGE_SIZE as int == 0,
{
}

/// [`MMAP_BASE`] is the start of a page.
pub(crate) proof fn lemma_mmap_base_aligned()
    ensures
        MMAP_BASE % PAGE_SIZE == 0,
{
    assert((0x4000_0000_0000u64 as usize) % 4096 == 0) by (bit_vector);
}

/// Putting in a part needs only the replies to its own steps.
proof fn lemma_insert_part_local(
    w: World,
    vma: VMArea,
    part: Option<VirtMemoryRegion>,
    o1: Seq<Reply>,
    o2: Seq<Reply>,
)
    requires
        agree(
            o1,
            o2,
            insert_part(w, vma, part, o1).log.len(),
        ),
    ensures
        insert_part(w, vma, part, o2) == insert_part(w, vma, part, o1),
        extends(w.log, insert_part(w, vma, part, o1).log),
{
    if let Some(part) = part {
        lemma_insert_local(w, vma.shrunk(part), o1, o2);
    }
}

} // verus!
