//! A [`PageAllocator`] backed by a [`Smalloc`] allocator.
use vstd::prelude::*;

use crate::error::{KernelError, Result};
use crate::memory::address::{AddressTranslator, PA};
use crate::memory::allocators::smalloc::model::{
    alloc_block, in_range, null_in_range, res_room,
};
use crate::memory::allocators::smalloc::Smalloc;
use crate::memory::paging::PageAllocator;
use crate::memory::PAGE_SIZE;

verus! {

/// A [`PageAllocator`] that satisfies page table allocations from a [`Smalloc`].
pub struct SmallocPageAlloc<'a, A: AddressTranslator<()>> {
    pub smalloc: &'a mut Smalloc<A>,
}

impl<'a, A: AddressTranslator<()>> SmallocPageAlloc<'a, A> {
    /// Creates a new `SmallocPageAlloc` wrapping the given [`Smalloc`].
    pub fn new(smalloc: &'a mut Smalloc<A>) -> (r: Self)
        ensures
            *r.smalloc == *old(smalloc),
            *final(r.smalloc) == *final(smalloc),
    {
        Self { smalloc }
    }
}

impl<A: AddressTranslator<()>> PageAllocator for SmallocPageAlloc<'_, A> {
    open spec fn ready(&self) -> bool {
        &&& self.smalloc.wf()
        &&& in_range::<A>(self.smalloc@, PAGE_SIZE - 1 + PAGE_SIZE)
        &&& null_in_range(self.smalloc@, PAGE_SIZE - 1 + PAGE_SIZE)
        &&& res_room(self.smalloc@)
    }

    /// The page table is a page of the early allocator.
    fn allocate_page_table(&mut self) -> (r: Result<PA>)
        ensures
            final(self).smalloc.wf(),
            ({
                let (m, taken) = alloc_block::<A>(
                    old(self).smalloc@,
                    PAGE_SIZE as int,
                    PAGE_SIZE as int,
                );
                &&& final(self).smalloc@ == m
                &&& match taken {
                    Ok(a) => r is Ok && r->Ok_0.addr() == a && a != 0,
                    Err(e) => r == Err::<PA, KernelError>(e),
                }
            }),
    {
        proof {
            crate::memory::region::lemma_page_size_pow2();
        }
        self.smalloc.allocate(PAGE_SIZE, PAGE_SIZE)
    }
}

} // verus!
