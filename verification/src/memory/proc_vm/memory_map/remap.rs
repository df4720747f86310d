//! Resizing, moving and cloning of mappings.
use vstd::prelude::*;

use crate::error::{KernelError, Result};
use crate::memory::address::{aligned_up, VA};
use crate::memory::page::PageFrame;
use crate::memory::paging::permissions::PtePermissions;
use crate::memory::proc_vm::address_space::{created, Reply, UserAddressSpace};
use crate::memory::proc_vm::memory_map::lemmas::{
    extends, lemma_carve_all_local, lemma_copy_pages_local, lemma_replies, lemma_share_fails,
    lemma_share_local, paged,
};
use crate::memory::proc_vm::memory_map::model::{
    affected, can_grow, cow_cloned, find, grow, merge_above, merge_below, move_mapping, move_pages,
    page_run, relocated, remap_by, remap_plan, replies, share, shrink, World,
};
use crate::memory::proc_vm::memory_map::table::{cut_vma, lemma_rank};
use crate::memory::proc_vm::memory_map::{
    frames, placed_frames, MemoryMap, RemapDestination, MMAP_BASE,
};
use crate::memory::proc_vm::vmarea::{VMArea, VMAreaKind, VMFileMapping};
use crate::memory::region::VirtMemoryRegion;
use crate::memory::PAGE_SIZE;

verus! {

/// Whether all addresses and file offsets that a remap request leads to are
/// machine words.
pub open spec fn remap_in_range(
    s: Seq<VMArea>,
    old_addr: int,
    old_len: int,
    new_len: int,
    destination: RemapDestination,
) -> bool {
    let old_size = aligned_up(old_len, PAGE_SIZE as int);
    let new_size = aligned_up(new_len, PAGE_SIZE as int);
    &&& old_size <= usize::MAX
    &&& new_size <= usize::MAX
    &&& find(s, old_addr) matches Some(vma) ==> {
        &&& old_addr + old_size <= usize::MAX
        &&& old_addr + old_size <= vma.end() ==> {
            &&& match destination {
                RemapDestination::Fixed(a) => a.addr() % PAGE_SIZE == 0 ==> a.addr() + new_size
                    <= usize::MAX,
                _ => new_size > old_size ==> old_addr + new_size <= usize::MAX,
            }
            &&& vma.kind matches VMAreaKind::File(m) ==> m.offset + (old_addr - vma.start())
                + new_size <= u64::MAX
        }
    }
}

/// The part of a well-formed VMA at whole pages is well-formed.
proof fn lemma_shrunk_wf(vma: VMArea, part: VirtMemoryRegion)
    requires
        vma.wf(),
        paged(part),
        vma.region.covers(part),
    ensures
        vma.shrunk(part).wf(),
        vma.shrunk(part).region == part,
{
}

/// What a remap request does: it is refused for its arguments, or for want of a
/// mapping, or the plan for it is carried out.
pub open spec fn remapped(
    w: World,
    old_addr: int,
    old_len: int,
    new_len: int,
    destination: RemapDestination,
    o: Seq<Reply>,
) -> (World, Result<(VA, Seq<PageFrame>)>) {
    let old_size = aligned_up(old_len, PAGE_SIZE as int);
    let new_size = aligned_up(new_len, PAGE_SIZE as int);
    if old_addr % PAGE_SIZE as int != 0 || old_len == 0 || new_len == 0 {
        (w, Err(KernelError::InvalidValue))
    } else {
        match find(w.vmas, old_addr) {
            None => (w, Err(KernelError::Fault)),
            Some(vma) => {
                let old = VirtMemoryRegion::between(old_addr, old_addr + old_size);
                let plan = remap_plan(
                    w.vmas,
                    vma,
                    old_addr,
                    old_size,
                    new_size,
                    destination,
                    MMAP_BASE as int,
                );
                remap_by(w, vma, old, new_size, plan, o)
            },
        }
    }
}

impl<AS: UserAddressSpace> MemoryMap<AS> {
    /// Remaps an existing mapping of `old_len` bytes at `old_addr` to `new_len`
    /// bytes.
    ///
    /// Returns the address of the mapping and the page frames that were unmapped.
    pub fn mremap(
        &mut self,
        old_addr: VA,
        old_len: usize,
        new_len: usize,
        destination: RemapDestination,
    ) -> (r: Result<(VA, Vec<PageFrame>)>)
        requires
            old(self).wf(),
            old_addr.addr() % PAGE_SIZE == 0 && old_len > 0 && new_len > 0 ==> remap_in_range(
                old(self)@.vmas,
                old_addr.addr() as int,
                old_len as int,
                new_len as int,
                destination,
            ),
        ensures
            final(self).wf(),
            (final(self)@, placed_frames(r)) == remapped(
                old(self)@,
                old_addr.addr() as int,
                old_len as int,
                new_len as int,
                destination,
                replies(final(self)@.log),
            ),
    {
        let ghost w0 = self@;
        if !old_addr.is_page_aligned() || old_len == 0 || new_len == 0 {
            return Err(KernelError::InvalidValue);
        }
        let old_len: usize = Self::align_len(old_len);
        let new_len: usize = Self::align_len(new_len);
        let old_region = VirtMemoryRegion::new(old_addr, old_len);

        let source_vma = match self.find_vma(old_addr) {
            Some(vma) => vma.clone(),
            None => {
                return Err(KernelError::Fault);
            },
        };
        proof {
            lemma_rank(w0.vmas, old_addr.addr() + 1);
        }

        if old_region.end_address().value() > source_vma.region.end_address().value() {
            return Err(KernelError::Fault);
        }
        if let RemapDestination::Fixed(new_addr) = destination {
            if !new_addr.is_page_aligned() {
                return Err(KernelError::InvalidValue);
            }
            let new_region = VirtMemoryRegion::new(new_addr, new_len);

            if new_region.overlaps(old_region) || new_region.overlaps(source_vma.region) {
                return Err(KernelError::InvalidValue);
            }
            let r = self.move_selected_mapping(
                source_vma,
                old_region,
                new_region,
                true,
            );
            return r;
        }
        if old_len == new_len {
            let r = Ok((old_addr, Vec::new()));
            assert(placed_frames(r) == Ok::<(VA, Seq<PageFrame>), KernelError>((old_addr, Seq::<PageFrame>::empty())));
            return r;
        }
        if new_len < old_len {
            let r = self.shrink_in_place(source_vma, old_region, new_len);
            return r;
        }
        if self.can_expand_in_place(&source_vma, old_region, new_len) {
            self.expand_in_place(source_vma, old_region, new_len);
            let r = Ok((old_addr, Vec::new()));
            assert(placed_frames(r) == Ok::<(VA, Seq<PageFrame>), KernelError>((old_addr, Seq::<PageFrame>::empty())));
            return r;
        }
        let in_place_only = match destination {
            RemapDestination::InPlaceOnly => true,
            _ => false,
        };
        if in_place_only {
            return Err(KernelError::NoMemory);
        }
        let new_region = match self.find_free_region(new_len) {
            Some(region) => region,
            None => {
                return Err(KernelError::NoMemory);
            },
        };

        let r = self.move_selected_mapping(
            source_vma,
            old_region,
            new_region,
            false,
        );
        r
    }

    /// Checks whether the part of a VMA from `old_region` on can be `new_len` bytes
    /// long.
    fn can_expand_in_place(
        &self,
        source_vma: &VMArea,
        old_region: VirtMemoryRegion,
        new_len: usize,
    ) -> (r: bool)
        requires
            self.wf(),
            source_vma.region.fits(),
            old_region.start() + new_len <= usize::MAX,
        ensures
            r == can_grow(self@.vmas, *source_vma, old_region.start(), new_len as int),
    {
        let new_end = old_region.start_address().add_bytes(new_len);

        if new_end.value() <= source_vma.region.end_address().value() {
            return true;
        }
        self.is_region_free(
            VirtMemoryRegion::from_start_end_address(source_vma.region.end_address(), new_end),
        )
    }

    /// Makes the part of a VMA from `old_region` on `new_len` bytes long.
    fn expand_in_place(
        &mut self,
        source_vma: VMArea,
        old_region: VirtMemoryRegion,
        new_len: usize,
    )
        requires
            old(self).wf(),
            source_vma.wf(),
            paged(old_region),
            new_len % PAGE_SIZE == 0,
            source_vma.start() <= old_region.start(),
            old_region.start() + new_len <= usize::MAX,
            source_vma.kind matches VMAreaKind::File(m) ==> m.offset + (old_region.start()
                - source_vma.start()) + new_len <= u64::MAX,
        ensures
            final(self).wf(),
            final(self)@.vmas == grow(
                old(self)@.vmas,
                source_vma,
                old_region.start(),
                new_len as int,
            ),
            final(self)@.log == old(self)@.log,
    {
        proof {
            reveal(grow);
        }
        let new_end = old_region.start_address().add_bytes(new_len);

        if new_end.value() <= source_vma.region.end_address().value() {
            return ;
        }
        let _ = cut_vma(&mut self.vmas, source_vma.region.start_address().value());

        let mut expanded_vma = source_vma;
        expanded_vma.region =
        VirtMemoryRegion::from_start_end_address(expanded_vma.region.start_address(), new_end);

        self.merge_vma(expanded_vma);
    }

    /// Puts in what is left of a VMA below a region.
    fn merge_vma_below(&mut self, vma: &VMArea, region: VirtMemoryRegion)
        requires
            old(self).wf(),
            vma.wf(),
            paged(region),
            vma.region.covers(region),
        ensures
            final(self).wf(),
            final(self)@.vmas == merge_below(old(self)@.vmas, *vma, region),
            final(self)@.log == old(self)@.log,
    {
        if vma.region.start_address().value() < region.start_address().value() {
            let part = VirtMemoryRegion::from_start_end_address(
                vma.region.start_address(),
                region.start_address(),
            );
            proof {
                lemma_shrunk_wf(*vma, part);
            }
            self.merge_vma(vma.shrink_to(part));
        }
    }

    /// Puts in what is left of a VMA above a region.
    fn merge_vma_above(&mut self, vma: &VMArea, region: VirtMemoryRegion)
        requires
            old(self).wf(),
            vma.wf(),
            paged(region),
            vma.region.covers(region),
        ensures
            final(self).wf(),
            final(self)@.vmas == merge_above(old(self)@.vmas, *vma, region),
            final(self)@.log == old(self)@.log,
    {
        if region.end_address().value() < vma.region.end_address().value() {
            let part = VirtMemoryRegion::from_start_end_address(
                region.end_address(),
                vma.region.end_address(),
            );
            proof {
                lemma_shrunk_wf(*vma, part);
            }
            self.merge_vma(vma.shrink_to(part));
        }
    }

    /// Shrinks the part `old_region` of a VMA to its first `new_len` bytes.
    fn shrink_in_place(
        &mut self,
        source_vma: VMArea,
        old_region: VirtMemoryRegion,
        new_len: usize,
    ) -> (r: Result<(VA, Vec<PageFrame>)>)
        requires
            old(self).wf(),
            source_vma.wf(),
            paged(old_region),
            source_vma.region.covers(old_region),
            new_len % PAGE_SIZE == 0,
            new_len < old_region.len(),
        ensures
            final(self).wf(),
            ({
                let (w, res) = shrink(
                    old(self)@,
                    source_vma,
                    old_region,
                    new_len as int,
                    replies(final(self)@.log),
                );
                &&& final(self)@ == w
                &&& placed_frames(r) == (match res {
                    Ok(p) => Ok((VA::at(old_region.start() as usize), p)),
                    Err(e) => Err(e),
                })
            }),
    {
        proof {
            reveal(shrink);
        }
        let new_region = VirtMemoryRegion::new(old_region.start_address(), new_len);
        let removed_region = VirtMemoryRegion::from_start_end_address(
            new_region.end_address(),
            old_region.end_address(),
        );

        let freed_pages = match self.address_space.unmap_range(removed_region) {
            Ok(freed_pages) => freed_pages,
            Err(e) => return Err(e),
        };

        let _ = cut_vma(&mut self.vmas, source_vma.region.start_address().value());
        self.merge_vma_below(&source_vma, old_region);
        proof {
            lemma_shrunk_wf(source_vma, new_region);
        }
        self.merge_vma(source_vma.shrink_to(new_region));
        self.merge_vma_above(&source_vma, old_region);

        Ok((old_region.start_address(), freed_pages))
    }

    /// Returns the VMA on another region. File data is cut to the size of the
    /// region.
    fn relocate_vma(vma: VMArea, new_region: VirtMemoryRegion) -> (r: VMArea)
        ensures
            r == relocated(vma, new_region),
    {
        let mut moved_vma = vma;
        moved_vma.region = new_region;

        if let VMAreaKind::File(mapping) = moved_vma.kind {
            let size: u64 = new_region.size() as u64;
            moved_vma.kind =
            VMAreaKind::File(
                VMFileMapping {
                    file: mapping.file,
                    offset: mapping.offset,
                    len: if mapping.len <= size {
                        mapping.len
                    } else {
                        size
                    },
                },
            );
        }
        moved_vma
    }

    /// Moves the pages of `old_region` to `new_region`, as far as they fit, and
    /// unmaps the rest of `old_region`.
    fn move_region_pages(
        &mut self,
        old_region: VirtMemoryRegion,
        new_region: VirtMemoryRegion,
    ) -> (r: Result<Vec<PageFrame>>)
        requires
            paged(old_region),
            paged(new_region),
            old_region.len() > 0,
            new_region.len() > 0,
        ensures
            final(self)@.vmas == old(self)@.vmas,
            (final(self)@, frames(r)) == move_pages(
                old(self)@,
                old_region,
                new_region,
                replies(final(self)@.log),
            ),
            extends(old(self)@.log, final(self)@.log),
    {
        let ghost w0 = self@;
        let kept: usize = if old_region.size() <= new_region.size() {
            old_region.size()
        } else {
            new_region.size()
        };
        let n: usize = kept / PAGE_SIZE;
        let ghost from = page_run(old_region.start(), n as int);
        let ghost to = page_run(new_region.start(), n as int);

        let copied = self.copy_mapped_pages(
            old_region,
            new_region,
            n,
        );
        let ghost w1 = self@;
        if let Err(e) = copied {
            return Err(e);
        }
        let preserved_old = old_region.with_size(kept);
        assert(preserved_old == VirtMemoryRegion::between(
            old_region.start(),
            old_region.start() + kept,
        ));
        let unmapped = self.address_space.unmap_range(preserved_old);
        let ghost w2 = self@;
        proof {
            lemma_replies(w1.log, w2.log);
            lemma_copy_pages_local(w0, from, to, n as int, replies(w1.log), replies(w2.log));
        }
        if let Err(e) = unmapped {
            return Err(e);
        }
        if old_region.size() > kept {
            let rest = VirtMemoryRegion::from_start_end_address(
                old_region.start_address().add_bytes(kept),
                old_region.end_address(),
            );
            let freed = self.address_space.unmap_range(rest);
            proof {
                let w3 = self@;
                lemma_replies(w1.log, w3.log);
                lemma_copy_pages_local(w0, from, to, n as int, replies(w1.log), replies(w3.log));
            }
            return freed;
        }
        Ok(Vec::new())
    }

    /// Moves the part `old_region` of a VMA to `new_region`, after clearing that if
    /// `clobber_target`.
    fn move_selected_mapping(
        &mut self,
        source_vma: VMArea,
        old_region: VirtMemoryRegion,
        new_region: VirtMemoryRegion,
        clobber_target: bool,
    ) -> (r: Result<(VA, Vec<PageFrame>)>)
        requires
            old(self).wf(),
            source_vma.wf(),
            paged(old_region),
            paged(new_region),
            old_region.len() > 0,
            new_region.len() > 0,
            source_vma.region.covers(old_region),
            source_vma.kind matches VMAreaKind::File(m) ==> m.offset + (old_region.start()
                - source_vma.start()) + new_region.len() <= u64::MAX,
        ensures
            final(self).wf(),
            ({
                let o = replies(final(self)@.log);
                let (w, res) = move_mapping(
                    old(self)@,
                    source_vma,
                    old_region,
                    new_region,
                    clobber_target,
                    o,
                );
                &&& final(self)@ == w
                &&& placed_frames(r) == (match res {
                    Ok(p) => Ok((VA::at(new_region.start() as usize), p)),
                    Err(e) => Err(e),
                })
            }),
    {
        proof {
            reveal(move_mapping);
        }
        let ghost w0 = self@;
        let mut freed_pages: Vec<PageFrame> = Vec::new();

        if clobber_target {
            match self.unmap_region(new_region, None) {
                Ok(freed) => {
                    freed_pages = freed;
                },
                Err(e) => {
                    return Err(e);
                },
            }
        }
        let ghost w1 = self@;

        let moved_pages = self.move_region_pages(
            old_region,
            new_region,
        );
        let ghost w2 = self@;
        proof {
            lemma_replies(w1.log, w2.log);
            if clobber_target {
                lemma_carve_all_local(
                    w0,
                    affected(w0.vmas, new_region),
                    new_region,
                    None,
                    replies(w1.log),
                    replies(w2.log),
                );
            }
        }
        let mut rest = match moved_pages {
            Ok(rest) => rest,
            Err(e) => return Err(e),
        };
        freed_pages.append(&mut rest);

        let _ = cut_vma(&mut self.vmas, source_vma.region.start_address().value());
        self.merge_vma_below(&source_vma, old_region);
        self.merge_vma_above(&source_vma, old_region);

        let selected_vma = source_vma.shrink_to(old_region);
        self.merge_vma(Self::relocate_vma(selected_vma, new_region));

        Ok((new_region.start_address(), freed_pages))
    }

    /// Clones this memory map, sharing all mapped pages. Pages of writable VMAs
    /// become copy-on-write in both.
    ///
    /// Fails if the new address space cannot be created, and then nothing has
    /// changed; or with the first failure to share a VMA.
    pub fn clone_as_cow(&mut self) -> (r: Result<Self>)
        requires
            old(self).wf(),
        ensures
            final(self).wf(),
            r matches Ok(map) ==> map.wf(),
            exists|made: Result<AS>| #[trigger]
                created(made) && cow_cloned(
                    old(self)@,
                    made,
                    final(self)@,
                    match r {
                        Ok(map) => Ok(map@),
                        Err(e) => Err(e),
                    },
                ),
    {
        let made = AS::new();
        let ghost creation = made;
        assert(created(creation));
        let mut new_as = match made {
            Ok(new_as) => new_as,
            Err(e) => return Err(e),
        };
        let ghost w0 = self@;
        let ghost n0 = w0.log.len() as int;
        let mut new_vmas: Vec<VMArea> = Vec::new();
        let mut i: usize = 0;
        assert(w0.log.skip(n0) =~= Seq::empty());
        while i < self.vmas.len()
            invariant
                i <= self.vmas@.len(),
                created(creation),
                creation is Ok,
                w0 == old(self)@,
                n0 == w0.log.len(),
                self.wf(),
                self@.vmas == w0.vmas,
                new_vmas@ == w0.vmas.take(i as int),
                new_as.steps() == self@.log.skip(n0),
                n0 <= self@.log.len(),
                share(w0, i as int, replies(self@.log)) == (self@, Ok::<(), KernelError>(())),
            decreases self.vmas@.len() - i,
        {
            let vma = self.vmas[i].clone();
            assert(self@.vmas[i as int].wf());
            let ghost w1 = self@;
            let mut pte_perms = PtePermissions::from(vma.permissions);

            // Mark all writable pages as CoW.
            if pte_perms.is_write() {
                pte_perms = pte_perms.into_cow();
            }
            let shared = self.address_space.protect_and_clone_region(
                vma.region,
                &mut new_as,
                pte_perms,
            );
            proof {
                assert(self@.log.skip(n0) =~= w1.log.skip(n0).push(self@.log.last()));
                lemma_replies(w1.log, self@.log);
                lemma_share_local(w0, i as int, replies(w1.log), replies(self@.log));
            }
            if let Err(e) = shared {
                proof {
                    lemma_share_fails(w0, i + 1, self.vmas@.len() as int, replies(self@.log));
                }
                return Err(e);
            }
            new_vmas.push(vma);
            assert(new_vmas@ =~= w0.vmas.take(i + 1));
            i = i + 1;
        }
        assert(new_vmas@ =~= w0.vmas);
        Ok(Self { vmas: new_vmas, address_space: new_as })
    }

    /// Returns a mutable reference to the underlying address space.
    pub fn address_space_mut(&mut self) -> (r: &mut AS)
        ensures
            *r == old(self).space(),
            final(self).space() == *final(r),
            final(self)@ == (World { log: final(r).steps(), ..old(self)@ }),
    {
        &mut self.address_space
    }

    /// Returns the number of VMAs in this memory map.
    pub fn vma_count(&self) -> (r: usize)
        ensures
            r == self@.vmas.len(),
    {
        self.vmas.len()
    }

    /// Returns all VMAs in address order.
    pub fn iter_vmas(&self) -> (r: &Vec<VMArea>)
        ensures
            r@ == self@.vmas,
    {
        &self.vmas
    }
}

} // verus!
