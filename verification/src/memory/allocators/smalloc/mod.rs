//! A simple physical memory allocator for early boot and kernel use.
//!
//! The allocator manages a list of memory regions and a list of reservations, and
//! supports basic allocation and freeing of physical memory blocks.
//!
//! - [`RegionList`]: a list of non-touching [`PhysMemoryRegion`]s, which merges
//!   what is put in.
//! - [`Smalloc`]: the allocator; allocated blocks do not overlap reservations.
use core::marker::PhantomData;
use vstd::arithmetic::power2::is_pow2;
use vstd::prelude::*;

use crate::error::{KernelError, Result};
use crate::memory::address::{aligned_up_is_ceiling, AddressTranslator, PA};
use crate::memory::allocators::smalloc::lemmas::{
    lemma_containing, lemma_grow_mem, lemma_grow_res, lemma_lowest, lemma_after_null,
    lemma_slot_in_memory, lemma_punch,
};
use crate::memory::allocators::smalloc::model::{
    add_memory, add_reservation, alloc_block, claim, clear, containing, ends_below, ensure_mem,
    ensure_res, free_block, growth, grow_mem, grow_res, in_range, is_slot, list_memory,
    lowest_slot, mem_room, mem_tight, movable, null_in_range, release, res_room, res_tight,
    slot_in, state_wf, take_slot, State, REGION_ENTRY_ALIGN, REGION_ENTRY_SIZE,
};
use crate::memory::allocators::smalloc::region_list::{lemma_remove, RegionList};
use crate::memory::page::{lemma_is_pow2_order, lemma_pow2_is_pow2, PageFrame};
use crate::memory::region::{lemma_page_size_pow2, PhysMemoryRegion};
use crate::memory::PAGE_SIZE;

pub mod free_order;
pub mod free_regions;
pub mod laws;
pub mod lemmas;
pub mod list_laws;
pub mod model;
pub mod place_laws;
pub mod region_list;

verus! {

/// A simple physical memory allocator that tracks free and reserved regions.
pub struct Smalloc<T: AddressTranslator<()>> {
    /// Available memory regions.
    pub memory: RegionList,
    /// Reserved memory regions (e.g. firmware tables, device memory).
    pub res: RegionList,
    /// Whether the lists may be moved to make room.
    pub permit_region_realloc: bool,
    /// How physical memory is accessed.
    pub translator: PhantomData<T>,
}

impl<T: AddressTranslator<()>> View for Smalloc<T> {
    type V = State;

    open spec fn view(&self) -> State {
        State {
            mem: self.memory.spans(),
            mem_max: self.memory.limit(),
            mem_base: self.memory.address(),
            res: self.res.spans(),
            res_max: self.res.limit(),
            res_base: self.res.address(),
            permit: self.permit_region_realloc,
        }
    }
}

impl<T: AddressTranslator<()>> Smalloc<T> {
    /// The lists are well-formed.
    pub open spec fn wf(self) -> bool {
        &&& self.memory.wf()
        &&& self.res.wf()
        &&& self.memory.limit() > 0
        &&& self.res.limit() > 0
    }

    /// Creates a new allocator with the given memory and reservation lists.
    pub fn new(memory: RegionList, reserved_list: RegionList) -> (r: Self)
        ensures
            r.memory == memory,
            r.res == reserved_list,
            !r@.permit,
    {
        Self {
            memory,
            res: reserved_list,
            permit_region_realloc: false,
            translator: PhantomData,
        }
    }

    /// Allows the allocator to move the region lists to make room.
    ///
    /// Memory has to be added, and all necessary reservations have to be made,
    /// before; and the physical memory has to be accessible.
    pub fn permit_region_list_reallocs(&mut self)
        ensures
            final(self)@ == (State { permit: true, ..old(self)@ }),
            final(self).memory == old(self).memory,
            final(self).res == old(self).res,
    {
        self.permit_region_realloc = true;
    }

    /// Finds the lowest address at which `size` bytes with the given alignment can
    /// be allocated.
    fn find_allocation_location(&self, size: usize, align: usize) -> (r: Option<PA>)
        requires
            self.wf(),
            is_pow2(align as int),
            ends_below(self@.mem, align - 1 + size),
            ends_below(self@.res, align - 1 + size),
        ensures
            match r {
                Some(a) => {
                    &&& lowest_slot(self@.mem, self@.res, size as int, align as int) == Some(
                        a.addr() as int,
                    )
                    &&& is_slot(self@.mem, self@.res, a.addr() as int, size as int, align as int)
                },
                None => lowest_slot(self@.mem, self@.res, size as int, align as int) is None,
            },
    {
        proof {
            lemma_is_pow2_order(align as int);
        }
        let ghost mem = self@.mem;
        let ghost res = self@.res;
        let mut res_idx: usize = 0;
        let mut i: usize = 0;
        while i < self.memory.count()
            invariant
                self.wf(),
                mem == self@.mem,
                res == self@.res,
                is_pow2(align as int),
                align > 0,
                ends_below(mem, align - 1 + size),
                ends_below(res, align - 1 + size),
                i <= mem.len(),
                res_idx <= res.len(),
                forall|k: int|
                    0 <= k < res_idx ==> i > 0 && (#[trigger] res[k]).end() <= mem[i - 1].end(),
                forall|j: int, b: int|
                    0 <= j < i ==> !#[trigger] slot_in(mem[j], res, b, size as int, align as int),
            decreases mem.len() - i,
        {
            let mem_region = self.memory.get(i);
            let end: usize = mem_region.end_address().value();
            let mut candidate: usize = mem_region.start_address().align_up(align).value();
            proof {
                aligned_up_is_ceiling(mem_region.start(), align as int);
                if i > 0 {
                    assert(mem[i - 1].end() < mem[i as int].start());
                }
                assert forall|b: int| b < candidate implies !#[trigger] slot_in(
                    mem[i as int],
                    res,
                    b,
                    size as int,
                    align as int,
                ) by {}
            }
            while candidate + size <= end
                invariant
                    self.wf(),
                    mem == self@.mem,
                    res == self@.res,
                    is_pow2(align as int),
                    align > 0,
                    ends_below(res, align - 1 + size),
                    i < mem.len(),
                    mem[i as int] == mem_region,
                    mem_region.end() == end,
                    mem_region.start() <= candidate,
                    candidate + size <= usize::MAX,
                    candidate % align == 0,
                    res_idx <= res.len(),
                    forall|k: int| 0 <= k < res_idx ==> (#[trigger] res[k]).end() <= candidate,
                    forall|k: int| 0 <= k < res_idx ==> (#[trigger] res[k]).end() <= end,
                    forall|j: int, b: int|
                        0 <= j < i ==> !#[trigger] slot_in(
                            mem[j],
                            res,
                            b,
                            size as int,
                            align as int,
                        ),
                    forall|b: int|
                        b < candidate ==> !#[trigger] slot_in(
                            mem[i as int],
                            res,
                            b,
                            size as int,
                            align as int,
                        ),
                decreases usize::MAX - candidate,
            {
                // Skip over reservations that end before the candidate.
                while res_idx < self.res.count() && self.res.get(
                    res_idx,
                ).end_address().value() <= candidate
                    invariant
                        self.wf(),
                        res == self@.res,
                        res_idx <= res.len(),
                        candidate + size <= end,
                        forall|k: int| 0 <= k < res_idx ==> (#[trigger] res[k]).end() <= candidate,
                        forall|k: int| 0 <= k < res_idx ==> (#[trigger] res[k]).end() <= end,
                        forall|k: int| 0 <= k < res.len() ==> (#[trigger] res[k]).fits(),
                    decreases res.len() - res_idx,
                {
                    res_idx = res_idx + 1;
                }
                if res_idx < self.res.count() {
                    let res_region = self.res.get(res_idx);
                    assert(res_region.end() + align - 1 + size <= usize::MAX);
                    if res_region.start_address().value() < candidate + size {
                        // Move past the reservation that is in the way.
                        let next: usize = res_region.end_address().align_up(align).value();
                        proof {
                            aligned_up_is_ceiling(res_region.end(), align as int);
                            assert forall|b: int| b < next implies !#[trigger] slot_in(
                                mem[i as int],
                                res,
                                b,
                                size as int,
                                align as int,
                            ) by {
                                if b >= candidate && slot_in(
                                    mem[i as int],
                                    res,
                                    b,
                                    size as int,
                                    align as int,
                                ) {
                                    assert(b % align as int == 0);
                                    assert(b < res_region.end());
                                    assert(!(b < res[res_idx as int].end()
                                        && res[res_idx as int].start() < b + size));
                                }
                            }
                        }
                        candidate = next;
                        continue;
                    }
                }
                proof {
                    let c = candidate as int;
                    assert(clear(res, c, size as int)) by {
                        assert forall|k: int| 0 <= k < res.len() implies !(c < (
                        #[trigger] res[k]).end() && res[k].start() < c + size) by {
                            if k > res_idx {
                                assert(res[res_idx as int].end() < res[k].start());
                                assert(res[res_idx as int].fits());
                            }
                        }
                    }
                    assert(slot_in(mem[i as int], res, c, size as int, align as int));
                    assert(is_slot(mem, res, c, size as int, align as int));
                    assert forall|b: int| b < c implies !#[trigger] is_slot(
                        mem,
                        res,
                        b,
                        size as int,
                        align as int,
                    ) by {
                        if is_slot(mem, res, b, size as int, align as int) {
                            let j = choose|j: int|
                                0 <= j < mem.len() && slot_in(
                                    #[trigger] mem[j],
                                    res,
                                    b,
                                    size as int,
                                    align as int,
                                );
                            if j > i {
                                assert(mem[i as int].end() < mem[j].start());
                            }
                        }
                    }
                    lemma_lowest(mem, res, c, size as int, align as int);
                }
                return Some(PA::from_value(candidate));
            }
            proof {
                assert forall|b: int| !#[trigger] slot_in(
                    mem[i as int],
                    res,
                    b,
                    size as int,
                    align as int,
                ) by {}
            }
            i = i + 1;
        }
        None
    }

    /// Takes a region out of the reservation that contains it.
    fn release_region(&mut self, region: PhysMemoryRegion) -> (r: Result<()>)
        requires
            old(self).wf(),
            region.fits(),
            old(self)@.res.len() < old(self)@.res_max,
        ensures
            final(self).wf(),
            (final(self)@, r) == release(old(self)@, region),
            final(self).memory == old(self).memory,
            final(self)@.res.len() <= old(self)@.res.len() + 1,
    {
        let ghost s0 = self@.res;
        let index: usize = match self.res.position_containing(region) {
            Some(index) => index,
            None => return Err(KernelError::NoMemRegion),
        };
        proof {
            lemma_containing(s0, region, index as int);
            lemma_punch(s0, index as int, region);
            lemma_remove(s0, index as int);
        }
        let old = self.res.get(index);
        assert(old.fits());
        self.res.remove_at(index);

        if old.start_address().value() < region.start_address().value() {
            let left = PhysMemoryRegion::from_start_end_address(
                old.start_address(),
                region.start_address(),
            );
            self.res.insert_region(left);
        }
        if region.end_address().value() < old.end_address().value() {
            let right = PhysMemoryRegion::from_start_end_address(
                region.end_address(),
                old.end_address(),
            );
            self.res.insert_region(right);
        }
        Ok(())
    }

    /// Moves the reservation list to new memory, with room for twice as many
    /// regions.
    fn grow_res_list(&mut self) -> (r: Result<()>)
        requires
            old(self).wf(),
            old(self)@.permit ==> exists|g: int, slack: int| #[trigger]
                movable::<T>(old(self)@, g, slack),
            old(self)@.permit ==> old(self)@.res.len() + 2 < 2 * old(self)@.res_max,
        ensures
            final(self).wf(),
            (final(self)@, r) == grow_res::<T>(old(self)@),
    {
        if !self.permit_region_realloc {
            return Err(KernelError::NoMemory);
        }
        let ghost m = self@;
        let ghost (g, slack) = choose|g: int, slack: int| #[trigger] movable::<T>(m, g, slack);
        proof {
            lemma_grow_res::<T>(m, g, slack);
            lemma_entry_align();
        }
        let old_max: usize = self.res.max();
        let new_max: usize = old_max * 2;
        let new_size: usize = new_max * REGION_ENTRY_SIZE;

        let addr = match self.find_allocation_location(new_size, REGION_ENTRY_ALIGN) {
            Some(addr) => addr,
            None => return Err(KernelError::NoMemory),
        };
        proof {
            lemma_slot_in_memory::<T>(
                m,
                g,
                slack,
                addr.addr() as int,
                new_size as int,
                REGION_ENTRY_ALIGN as int,
            );
        }
        let base: usize = addr.to_va::<T>().value();
        let old_memory = PhysMemoryRegion::new(
            PA::from_value(self.res.base()),
            old_max * REGION_ENTRY_SIZE,
        );
        assert(old_memory == list_memory(m.res_base, m.res_max));
        self.res.rehome(new_max, base);

        // Free the old memory, and reserve the new memory.
        let _ = self.release_region(old_memory);
        let new_memory = PhysMemoryRegion::new(PA::from_value(base), new_size);
        assert(new_memory == list_memory(base, 2 * m.res_max));
        self.res.insert_region(new_memory);
        Ok(())
    }

    /// Makes sure that there is room for one more change of the reservations.
    fn ensure_res_room(&mut self) -> (r: Result<()>)
        requires
            old(self).wf(),
            old(self)@.permit ==> exists|g: int, slack: int| #[trigger]
                movable::<T>(old(self)@, g, slack),
            res_room(old(self)@),
        ensures
            final(self).wf(),
            (final(self)@, r) == ensure_res::<T>(old(self)@),
    {
        if self.res.requires_reallocation() {
            self.grow_res_list()
        } else {
            Ok(())
        }
    }

    /// Reserves the lowest slot for the request, or the page at address 0 if the
    /// slot is there.
    fn take_lowest_slot(&mut self, size: usize, align: usize) -> (r: Result<usize>)
        requires
            old(self).wf(),
            is_pow2(align as int),
            res_room(old(self)@),
            ends_below(old(self)@.mem, align - 1 + size),
            ends_below(old(self)@.res, align - 1 + size),
            old(self)@.permit ==> exists|g: int, slack: int|
                slack >= align - 1 + size && #[trigger] movable::<T>(old(self)@, g, slack),
        ensures
            final(self).wf(),
            ({
                let (m, taken) = take_slot::<T>(old(self)@, size as int, align as int);
                &&& final(self)@ == m
                &&& match taken {
                    Ok(a) => r is Ok && r->Ok_0 == a,
                    Err(e) => r == Err::<usize, KernelError>(e),
                }
            }),
    {
        let ghost m = self@;
        let ghost (g, slack) = choose|g: int, slack: int|
            slack >= align - 1 + size && #[trigger] movable::<T>(m, g, slack);
        proof {
            lemma_is_pow2_order(align as int);
            if m.permit && res_tight(m) {
                lemma_grow_res::<T>(m, g, slack);
            }
        }
        match self.ensure_res_room() {
            Ok(_) => {},
            Err(e) => return Err(e),
        }
        let address = match self.find_allocation_location(size, align) {
            Some(address) => address,
            None => return Err(KernelError::NoMemory),
        };
        let a: usize = address.value();
        let region = if a == 0 {
            PhysMemoryRegion::new(address, PAGE_SIZE)
        } else {
            assert(is_slot(self@.mem, self@.res, a as int, size as int, align as int));
            proof {
                let i = choose|i: int|
                    0 <= i < self@.mem.len() && slot_in(
                        #[trigger] self@.mem[i],
                        self@.res,
                        a as int,
                        size as int,
                        align as int,
                    );
                assert(self@.mem[i].fits());
            }
            PhysMemoryRegion::new(address, size)
        };
        self.res.insert_region(region);
        Ok(a)
    }

    /// Allocates a region of the given size and alignment. Returns the base
    /// physical address, which is never 0.
    pub fn allocate(&mut self, size: usize, align: usize) -> (r: Result<PA>)
        requires
            old(self).wf(),
            is_pow2(align as int),
            size == 0 ==> forall|i: int|
                0 <= i < old(self)@.mem.len() ==> (#[trigger] old(self)@.mem[i]).start() > 0,
            in_range::<T>(old(self)@, align - 1 + size),
            null_in_range(old(self)@, align - 1 + size),
            res_room(old(self)@),
        ensures
            final(self).wf(),
            ({
                let (m, taken) = alloc_block::<T>(old(self)@, size as int, align as int);
                &&& final(self)@ == m
                &&& match taken {
                    Ok(a) => r is Ok && r->Ok_0.addr() == a && a != 0,
                    Err(e) => r == Err::<PA, KernelError>(e),
                }
            }),
    {
        let ghost m = self@;
        let ghost g = growth(m);
        let ghost slack = g + 7 + align - 1 + size;
        proof {
            lemma_is_pow2_order(align as int);
            if m.permit {
                assert(movable::<T>(m, g, slack));
            }
        }
        let a: usize = match self.take_lowest_slot(size, align) {
            Ok(a) => a,
            Err(e) => return Err(e),
        };
        if a != 0 {
            return Ok(PA::from_value(a));
        }
        // The page at address 0 is reserved now: take another slot.
        proof {
            lemma_after_null::<T>(m, size as int, align as int);
        }
        match self.take_lowest_slot(size, align) {
            Ok(b) => Ok(PA::from_value(b)),
            Err(e) => Err(e),
        }
    }

    /// Frees a previously allocated region at `addr` with the given size.
    pub fn free(&mut self, addr: PA, size: usize) -> (r: Result<()>)
        requires
            old(self).wf(),
            addr.addr() + size <= usize::MAX,
            in_range::<T>(old(self)@, 0),
            res_room(old(self)@),
        ensures
            final(self).wf(),
            (final(self)@, r) == free_block::<T>(
                old(self)@,
                PhysMemoryRegion::between(addr.addr() as int, addr.addr() + size),
            ),
    {
        let region = PhysMemoryRegion::new(addr, size);
        assert(region == PhysMemoryRegion::between(addr.addr() as int, addr.addr() + size));
        self.free_region(region)
    }

    /// Frees a region.
    fn free_region(&mut self, region: PhysMemoryRegion) -> (r: Result<()>)
        requires
            old(self).wf(),
            region.fits(),
            old(self)@.permit ==> exists|g: int, slack: int| #[trigger]
                movable::<T>(old(self)@, g, slack),
            res_room(old(self)@),
        ensures
            final(self).wf(),
            (final(self)@, r) == free_block::<T>(old(self)@, region),
    {
        let ghost m = self@;
        match self.res.position_containing(region) {
            Some(index) => {
                proof {
                    lemma_containing(m.res, region, index as int);
                }
            },
            None => {
                assert(containing(m.res, region) is None);
                return Err(KernelError::NoMemRegion);
            },
        }
        proof {
            if m.permit && res_tight(m) {
                let (g, slack) = choose|g: int, slack: int| #[trigger] movable::<T>(m, g, slack);
                lemma_grow_res::<T>(m, g, slack);
            }
        }
        // Freeing the middle of a reservation takes one more entry.
        match self.ensure_res_room() {
            Ok(_) => {},
            Err(e) => return Err(e),
        }
        self.release_region(region)
    }

    /// Moves the list of memory regions to new memory, with room for twice as many
    /// regions.
    fn grow_mem_list(&mut self) -> (r: Result<()>)
        requires
            old(self).wf(),
            in_range::<T>(old(self)@, 0),
            old(self)@.permit ==> old(self)@.res.len() < old(self)@.res_max && (res_tight(
                old(self)@,
            ) ==> old(self)@.res.len() + 3 < 2 * old(self)@.res_max),
        ensures
            final(self).wf(),
            (final(self)@, r) == grow_mem::<T>(old(self)@),
    {
        if !self.permit_region_realloc {
            return Err(KernelError::NoMemory);
        }
        let ghost m = self@;
        let ghost g = growth(m);
        let ghost slack = g + 7;
        assert(movable::<T>(m, g, slack));
        proof {
            lemma_entry_align();
        }
        let old_max: usize = self.memory.max();
        let new_max: usize = old_max * 2;
        let new_size: usize = new_max * REGION_ENTRY_SIZE;

        let addr = match self.find_allocation_location(new_size, REGION_ENTRY_ALIGN) {
            Some(addr) => addr,
            None => return Err(KernelError::NoMemory),
        };
        proof {
            lemma_slot_in_memory::<T>(
                m,
                g,
                slack,
                addr.addr() as int,
                new_size as int,
                REGION_ENTRY_ALIGN as int,
            );
        }
        let base: usize = addr.to_va::<T>().value();
        let old_memory = PhysMemoryRegion::new(
            PA::from_value(self.memory.base()),
            old_max * REGION_ENTRY_SIZE,
        );
        assert(old_memory == list_memory(m.mem_base, m.mem_max));
        self.memory.rehome(new_max, base);

        proof {
            lemma_grow_mem::<T>(m, base);
        }
        // Free the old memory, and reserve the new memory.
        let _ = self.free_region(old_memory);
        let new_memory = PhysMemoryRegion::new(PA::from_value(base), new_size);
        assert(new_memory == list_memory(base, 2 * m.mem_max));
        self.res.insert_region(new_memory);
        Ok(())
    }

    /// Makes sure that there is room for one more change of the memory regions.
    fn ensure_mem_room(&mut self) -> (r: Result<()>)
        requires
            old(self).wf(),
            in_range::<T>(old(self)@, 0),
            mem_room(old(self)@),
        ensures
            final(self).wf(),
            (final(self)@, r) == ensure_mem::<T>(old(self)@),
    {
        if self.memory.requires_reallocation() {
            self.grow_mem_list()
        } else {
            Ok(())
        }
    }

    /// Marks a physical region as reserved without allocating from free memory.
    pub fn add_reservation(&mut self, region: PhysMemoryRegion) -> (r: Result<()>)
        requires
            old(self).wf(),
            region.fits(),
            in_range::<T>(old(self)@, 0),
            res_room(old(self)@),
        ensures
            final(self).wf(),
            (final(self)@, r) == add_reservation::<T>(old(self)@, region),
    {
        let ghost m = self@;
        proof {
            if m.permit && res_tight(m) {
                lemma_grow_res::<T>(m, growth(m), growth(m) + 7);
            }
        }
        match self.ensure_res_room() {
            Ok(_) => {},
            Err(e) => return Err(e),
        }
        self.res.insert_region(region);
        Ok(())
    }

    /// Returns the base address of the first memory region, if any.
    pub fn base_ram_base_address(&self) -> (r: Option<PA>)
        ensures
            match r {
                Some(pa) => self@.mem.len() > 0 && pa.addr() == self@.mem[0].start(),
                None => self@.mem.len() == 0,
            },
    {
        if self.memory.is_empty() {
            None
        } else {
            Some(self.memory.get(0).start_address())
        }
    }

    /// Adds a new physical memory region to the allocator.
    pub fn add_memory(&mut self, region: PhysMemoryRegion) -> (r: Result<()>)
        requires
            old(self).wf(),
            region.fits(),
            in_range::<T>(old(self)@, 0),
            mem_room(old(self)@),
        ensures
            final(self).wf(),
            (final(self)@, r) == add_memory::<T>(old(self)@, region),
    {
        proof {
            lemma_grow_mem_keeps::<T>(self@);
        }
        match self.ensure_mem_room() {
            Ok(_) => {},
            Err(e) => return Err(e),
        }
        self.memory.insert_region(region);
        Ok(())
    }

    /// Removes `region` from the memory, so that a downstream allocator can use it.
    ///
    /// The region is not added to the reservations, and the reservations within it
    /// remain. Fails with [`KernelError::InvalidValue`] if no single memory region
    /// covers the region.
    pub fn claim_region(&mut self, region: PhysMemoryRegion) -> (r: Result<()>)
        requires
            old(self).wf(),
            region.fits(),
            in_range::<T>(old(self)@, 0),
            mem_room(old(self)@),
        ensures
            final(self).wf(),
            (final(self)@, r) == claim::<T>(old(self)@, region),
    {
        let ghost m = self@;
        let index: usize = match self.memory.position_containing(region) {
            Some(index) => index,
            None => {
                assert(containing(m.mem, region) is None);
                return Err(KernelError::InvalidValue);
            },
        };
        proof {
            lemma_containing(m.mem, region, index as int);
            lemma_grow_mem_keeps::<T>(m);
        }
        // The hole may turn one entry into two.
        match self.ensure_mem_room() {
            Ok(_) => {},
            Err(e) => return Err(e),
        }
        let containing_region = self.memory.get(index);
        assert(containing_region.fits());
        self.memory.remove_at(index);

        let (left, right) = containing_region.punch_hole(region);
        if let Some(l) = left {
            self.memory.insert_region(l);
        }
        if let Some(r) = right {
            self.memory.insert_region(r);
        }
        Ok(())
    }

    /// Allocates a single page-aligned page and returns its frame.
    pub fn alloc_page(&mut self) -> (r: Result<PageFrame>)
        requires
            old(self).wf(),
            in_range::<T>(old(self)@, PAGE_SIZE - 1 + PAGE_SIZE),
            null_in_range(old(self)@, PAGE_SIZE - 1 + PAGE_SIZE),
            res_room(old(self)@),
        ensures
            final(self).wf(),
            ({
                let (m, taken) = alloc_block::<T>(
                    old(self)@,
                    PAGE_SIZE as int,
                    PAGE_SIZE as int,
                );
                &&& final(self)@ == m
                &&& match taken {
                    Ok(a) => r is Ok && r->Ok_0.pfn() == a / PAGE_SIZE as int && a != 0,
                    Err(e) => r == Err::<PageFrame, KernelError>(e),
                }
            }),
    {
        proof {
            lemma_page_size_pow2();
        }
        match self.allocate(PAGE_SIZE, PAGE_SIZE) {
            Ok(pa) => Ok(pa.to_pfn()),
            Err(e) => Err(e),
        }
    }

    /// Returns all memory regions known to the allocator, in order.
    pub fn iter_memory(&self) -> (r: Vec<PhysMemoryRegion>)
        ensures
            r@ == self@.mem,
    {
        self.memory.iter()
    }

    /// Returns a copy of the memory region list.
    pub fn get_memory_list(&self) -> (r: RegionList)
        ensures
            r.spans() == self@.mem,
            r.limit() == self@.mem_max,
            r.address() == self@.mem_base,
    {
        self.memory.copy()
    }
}

/// The alignment of list entries is a power of two.
proof fn lemma_entry_align()
    ensures
        is_pow2(REGION_ENTRY_ALIGN as int),
{
    vstd::arithmetic::power2::lemma2_to64();
    lemma_pow2_is_pow2(3);
}

/// Moving the list of memory regions keeps the regions.
proof fn lemma_grow_mem_keeps<T: AddressTranslator<()>>(m: State)
    requires
        state_wf(m),
        in_range::<T>(m, 0),
        mem_room(m),
    ensures
        ({
            let (m1, r) = ensure_mem::<T>(m);
            &&& m1.mem == m.mem
            &&& r is Ok ==> m1.mem.len() < m1.mem_max
        }),
{
    if mem_tight(m) && m.permit {
        let base_of = |a: int| T::virt_of(a as usize);
        let slot = lowest_slot(
            m.mem,
            m.res,
            (2 * m.mem_max * REGION_ENTRY_SIZE) as int,
            REGION_ENTRY_ALIGN as int,
        );
        if slot is Some {
            let m1 = State { mem_max: 2 * m.mem_max, mem_base: base_of(slot.unwrap()), ..m };
            assert(free_block::<T>(m1, list_memory(m.mem_base, m.mem_max)).0.mem == m.mem);
        }
    }
}

} // verus!
