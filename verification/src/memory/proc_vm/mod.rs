//! Manages the virtual memory address space of a process.
use vstd::prelude::*;

use crate::error::{KernelError, Result};
use crate::memory::address::{aligned_up, aligned_up_is_ceiling, VA};
use crate::memory::proc_vm::address_space::{created, Reply, UserAddressSpace};
use crate::memory::proc_vm::memory_map::lemmas::paged;
use crate::memory::proc_vm::memory_map::model::{
    cow_cloned, find, insert, map_region, replies, unmap, World,
};
use crate::memory::proc_vm::memory_map::{
    lemma_whole_pages, AddressRequest, MemoryMap, MMAP_BASE,
};
use crate::memory::proc_vm::vmarea::{
    AccessKind, FaultValidation, VMAPermissions, VMArea, VMAreaKind,
};
use crate::memory::region::{lemma_page_size_pow2, VirtMemoryRegion};
use crate::memory::PAGE_SIZE;

pub mod address_space;
pub mod brk_laws;
pub mod memory_map;
pub mod pg_offset;
pub mod vmarea;

verus! {

/// The permissions of the heap.
pub open spec fn brk_permissions() -> VMAPermissions {
    VMAPermissions { read: true, write: true, execute: false }
}

/// The virtual memory of a process: its mappings, and the program break.
pub struct ProcessVM<AS: UserAddressSpace> {
    mm: MemoryMap<AS>,
    brk: VirtMemoryRegion,
}

/// What a request to move the end of the heap does: the VMAs, the heap, and the
/// result.
///
/// The heap cannot end below its start. It ends at a page boundary; a break within
/// the last page changes nothing. Growth must not run into another mapping. `name`
/// is that of the new mapping.
pub open spec fn brk_resized(
    w: World,
    heap: VirtMemoryRegion,
    new_end: int,
    name: String,
    o: Seq<Reply>,
) -> (World, VirtMemoryRegion, Result<VA>) {
    let end = aligned_up(new_end, PAGE_SIZE as int);
    let resized = VirtMemoryRegion::between(heap.start(), end);
    let done = Ok(VA::at(new_end as usize));
    if new_end < heap.start() {
        (w, heap, Err(KernelError::InvalidValue))
    } else if end == heap.end() {
        (w, heap, done)
    } else if end > heap.end() {
        let request = AddressRequest::Fixed {
            address: VA::at(heap.end() as usize),
            permit_overlap: false,
        };
        let (w1, r) = map_region(
            w,
            request,
            MMAP_BASE as int,
            end - heap.end(),
            brk_permissions(),
            VMAreaKind::Anon,
            name,
            o,
        );
        match r {
            Ok(_) => (w1, resized, done),
            Err(e) => (w1, heap, Err(e)),
        }
    } else {
        let (w1, r) = unmap(w, VirtMemoryRegion::between(end, heap.end()), None, o);
        match r {
            Ok(_) => (w1, resized, done),
            Err(e) => (w1, heap, Err(e)),
        }
    }
}

/// Whether a request to move the end of the heap came to this outcome. A new
/// mapping has no name.
pub open spec fn brk_outcome(
    w: World,
    heap: VirtMemoryRegion,
    new_end: int,
    name: String,
    outcome: (World, VirtMemoryRegion, Result<VA>),
) -> bool {
    &&& name@ == Seq::<char>::empty()
    &&& outcome == brk_resized(w, heap, new_end, name, replies(outcome.0.log))
}

impl<AS: UserAddressSpace> ProcessVM<AS> {
    /// The memory map.
    pub closed spec fn map(self) -> MemoryMap<AS> {
        self.mm
    }

    /// The heap: the region that ends at the program break.
    pub closed spec fn heap(self) -> VirtMemoryRegion {
        self.brk
    }

    /// The memory map is well-formed, and the heap is made of whole pages.
    pub open spec fn wf(self) -> bool {
        &&& self.map().wf()
        &&& paged(self.heap())
    }

    /// Constructs a process VM from the given VMA and an address space in which no
    /// other pages than those of the VMA are mapped. The heap is placed after the
    /// VMA.
    pub fn from_vma_and_address_space(vma: VMArea, addr_spc: AS) -> (r: Self)
        requires
            vma.wf(),
        ensures
            r.wf(),
            r.map()@ == insert(
                (World { vmas: Seq::empty(), log: addr_spc.steps() }),
                vma,
                replies(r.map()@.log),
            ),
            r.heap().start() == vma.end(),
            r.heap().len() == 0,
    {
        let mut mm = MemoryMap::with_addr_spc(addr_spc);
        let brk = Self::heap_after(vma.region);
        mm.insert_and_merge(vma);

        Self { mm, brk }
    }

    /// Constructs a process VM from the given VMA. The heap is placed after the
    /// VMA. Fails if its address space cannot be created.
    pub fn from_vma(vma: VMArea) -> (r: Result<Self>)
        requires
            vma.wf(),
        ensures
            exists|made: Result<AS>| #[trigger]
                created(made) && match made {
                    Ok(_) => r matches Ok(vm) && {
                        &&& vm.wf()
                        &&& vm.map()@ == insert(
                            (World { vmas: Seq::empty(), log: Seq::empty() }),
                            vma,
                            replies(vm.map()@.log),
                        )
                        &&& vm.heap().start() == vma.end()
                        &&& vm.heap().len() == 0
                    },
                    Err(e) => r == Err::<Self, KernelError>(e),
                },
    {
        let mut mm = match MemoryMap::new() {
            Ok(mm) => mm,
            Err(e) => return Err(e),
        };
        let brk = Self::heap_after(vma.region);
        mm.insert_and_merge(vma);

        Ok(Self { mm, brk })
    }

    /// Constructs a process VM from a memory map that is not empty. The heap is
    /// placed after the VMA with the highest address.
    pub fn from_map(map: MemoryMap<AS>) -> (r: Self)
        requires
            map.wf(),
            map@.vmas.len() > 0,
        ensures
            r.wf(),
            r.map() == map,
            r.heap().start() == map@.vmas.last().end(),
            r.heap().len() == 0,
    {
        let vmas = map.iter_vmas();
        let last = &vmas[vmas.len() - 1];
        assert(map@.vmas.last().wf());
        let brk = Self::heap_after(last.region);

        Self { mm: map, brk }
    }

    /// Constructs a process VM without mappings. Fails if its address space cannot be
    /// created.
    pub fn empty() -> (r: Result<Self>)
        ensures
            exists|made: Result<AS>| #[trigger]
                created(made) && match made {
                    Ok(space) => r matches Ok(vm) && {
                        &&& vm.wf()
                        &&& vm.map()@ == (World { vmas: Seq::empty(), log: Seq::empty() })
                        &&& vm.map().space() == space
                        &&& vm.heap().start() == 0
                        &&& vm.heap().len() == 0
                    },
                    Err(e) => r == Err::<Self, KernelError>(e),
                },
    {
        match MemoryMap::new() {
            Ok(mm) => Ok(Self { mm, brk: VirtMemoryRegion::empty() }),
            Err(e) => Err(e),
        }
    }

    /// The empty heap after a region of whole pages.
    fn heap_after(region: VirtMemoryRegion) -> (r: VirtMemoryRegion)
        requires
            paged(region),
        ensures
            paged(r),
            r.start() == region.end(),
            r.len() == 0,
    {
        proof {
            lemma_page_size_pow2();
        }
        VirtMemoryRegion::new(region.end_address().align_up(PAGE_SIZE), 0)
    }

    /// Finds the VMA that permits the access at the faulting address.
    pub fn find_vma_for_fault(&self, addr: VA, access_type: AccessKind) -> (r: Option<&VMArea>)
        requires
            self.wf(),
        ensures
            match (find(self.map()@.vmas, addr.addr() as int), r) {
                (Some(vma), Some(found)) => *found == vma && vma.permissions.permits(access_type),
                (Some(vma), None) => !vma.permissions.permits(access_type),
                (None, found) => found is None,
            },
    {
        let vma = match self.mm.find_vma(addr) {
            Some(vma) => vma,
            None => return None,
        };
        proof {
            memory_map::table::lemma_rank(self.mm@.vmas, addr.addr() + 1);
        }
        match vma.validate_fault(addr, access_type) {
            FaultValidation::Valid => Some(vma),
            _ => None,
        }
    }

    /// Returns a mutable reference to the memory map.
    pub fn mm_mut(&mut self) -> (r: &mut MemoryMap<AS>)
        ensures
            *r == old(self).map(),
            final(self).map() == *final(r),
            final(self).heap() == old(self).heap(),
    {
        &mut self.mm
    }

    /// Returns the program break, the end of the heap.
    pub fn current_brk(&self) -> (r: VA)
        requires
            self.heap().fits(),
        ensures
            r.addr() == self.heap().end(),
    {
        self.brk.end_address()
    }

    /// Returns the heap.
    pub fn brk_region(&self) -> (r: VirtMemoryRegion)
        ensures
            r == self.heap(),
    {
        self.brk
    }

    /// Resizes the program break (the heap), growing or shrinking the heap area.
    ///
    /// Fails if the requested region conflicts with an existing mapping, if the
    /// break would be below the start of the heap, or if the address space fails.
    pub fn resize_brk(&mut self, new_end_addr: VA) -> (r: Result<VA>)
        requires
            old(self).wf(),
            new_end_addr.addr() + PAGE_SIZE - 1 <= usize::MAX,
        ensures
            final(self).wf(),
            exists|name: String| #[trigger]
                brk_outcome(
                    old(self).map()@,
                    old(self).heap(),
                    new_end_addr.addr() as int,
                    name,
                    (final(self).map()@, final(self).heap(), r),
                ),
    {
        let ghost w0 = self.mm@;
        let ghost heap = self.brk;
        let ghost new_end = new_end_addr.addr() as int;
        let name: String = String::new();
        let ghost unnamed = name;

        if new_end_addr.value() < self.brk.start_address().value() {
            let r = Err(KernelError::InvalidValue);
            assert(brk_outcome(w0, heap, new_end, unnamed, (self.mm@, self.brk, r)));
            return r;
        }
        proof {
            lemma_page_size_pow2();
            aligned_up_is_ceiling(new_end, PAGE_SIZE as int);
        }
        let end = new_end_addr.align_up(PAGE_SIZE);
        let current_end = self.brk.end_address();

        let r = if end.value() == current_end.value() {
            // The break stays within the last page.
            Ok(())
        } else if end.value() > current_end.value() {
            self.grow_brk(end, name)
        } else {
            self.shrink_brk(end)
        };
        match r {
            Ok(_) => {
                let r = Ok(new_end_addr);
                assert(brk_outcome(w0, heap, new_end, unnamed, (self.mm@, self.brk, r)));
                r
            },
            Err(e) => {
                let r = Err(e);
                assert(brk_outcome(w0, heap, new_end, unnamed, (self.mm@, self.brk, r)));
                r
            },
        }
    }

    /// Grows the heap up to `end`.
    fn grow_brk(&mut self, end: VA, name: String) -> (r: Result<()>)
        requires
            old(self).wf(),
            end.addr() % PAGE_SIZE == 0,
            end.addr() > old(self).heap().end(),
        ensures
            final(self).wf(),
            ({
                let request = AddressRequest::Fixed {
                    address: VA::at(old(self).heap().end() as usize),
                    permit_overlap: false,
                };
                let (w, mapped) = map_region(
                    old(self).map()@,
                    request,
                    MMAP_BASE as int,
                    end.addr() - old(self).heap().end(),
                    brk_permissions(),
                    VMAreaKind::Anon,
                    name,
                    replies(final(self).map()@.log),
                );
                &&& final(self).map()@ == w
                &&& match mapped {
                    Ok(_) => r is Ok && final(self).heap() == VirtMemoryRegion::between(
                        old(self).heap().start(),
                        end.addr() as int,
                    ),
                    Err(e) => r == Err::<(), KernelError>(e) && final(self).heap() == old(
                        self,
                    ).heap(),
                }
            }),
    {
        let current_end = self.brk.end_address();
        proof {
            lemma_whole_pages(self.brk.start(), self.brk.len());
            lemma_whole_pages(end.addr() as int, self.brk.end());
            lemma_whole_pages(end.addr() as int, self.brk.start());
        }
        let growth_size: usize = end.value() - current_end.value();
        let request = AddressRequest::Fixed { address: current_end, permit_overlap: false };
        let perms = VMAPermissions::rw();
        match self.mm.mmap(request, growth_size, perms, VMAreaKind::Anon, name) {
            Ok(_) => {
                self.brk =
                VirtMemoryRegion::from_start_end_address(self.brk.start_address(), end);
                Ok(())
            },
            Err(e) => Err(e),
        }
    }

    /// Shrinks the heap down to `end`.
    #[verifier::rlimit(60)]
    fn shrink_brk(&mut self, end: VA) -> (r: Result<()>)
        requires
            old(self).wf(),
            end.addr() % PAGE_SIZE == 0,
            old(self).heap().start() <= end.addr() < old(self).heap().end(),
        ensures
            final(self).wf(),
            ({
                let (w, unmapped) = unmap(
                    old(self).map()@,
                    VirtMemoryRegion::between(end.addr() as int, old(self).heap().end()),
                    None,
                    replies(final(self).map()@.log),
                );
                &&& final(self).map()@ == w
                &&& match unmapped {
                    Ok(_) => r is Ok && final(self).heap() == VirtMemoryRegion::between(
                        old(self).heap().start(),
                        end.addr() as int,
                    ),
                    Err(e) => r == Err::<(), KernelError>(e) && final(self).heap() == old(
                        self,
                    ).heap(),
                }
            }),
    {
        let current_end = self.brk.end_address();
        proof {
            lemma_whole_pages(self.brk.start(), self.brk.len());
            lemma_whole_pages(self.brk.end(), end.addr() as int);
            lemma_whole_pages(end.addr() as int, self.brk.start());
        }
        let region = VirtMemoryRegion::from_start_end_address(end, current_end);
        assert(region == VirtMemoryRegion::between(end.addr() as int, self.brk.end()));
        match self.mm.munmap(region) {
            Ok(_) => {
                self.brk =
                VirtMemoryRegion::from_start_end_address(self.brk.start_address(), end);
                Ok(())
            },
            Err(e) => Err(e),
        }
    }

    /// Clones this process VM, sharing all mapped pages as
    /// [`MemoryMap::clone_as_cow`] does.
    pub fn clone_as_cow(&mut self) -> (r: Result<Self>)
        requires
            old(self).wf(),
        ensures
            final(self).wf(),
            final(self).heap() == old(self).heap(),
            r matches Ok(vm) ==> vm.wf() && vm.heap() == old(self).heap(),
            exists|made: Result<AS>| #[trigger]
                created(made) && cow_cloned(
                    old(self).map()@,
                    made,
                    final(self).map()@,
                    match r {
                        Ok(vm) => Ok(vm.map()@),
                        Err(e) => Err(e),
                    },
                ),
    {
        match self.mm.clone_as_cow() {
            Ok(mm) => Ok(Self { mm, brk: self.brk }),
            Err(e) => Err(e),
        }
    }
}

} // verus!
