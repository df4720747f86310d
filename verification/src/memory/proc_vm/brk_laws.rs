//! What moving the program break does to the heap and to the addresses.
use vstd::prelude::*;

use crate::error::{KernelError, Result};
use crate::memory::address::{aligned_up, aligned_up_is_ceiling, VA};
use crate::memory::proc_vm::address_space::Reply;
use crate::memory::proc_vm::memory_map::laws::{
    clear_of, mapping_free_memory, tidy, unmap_clears_the_region,
};
use crate::memory::proc_vm::memory_map::lemmas::{extends, paged};
use crate::memory::proc_vm::memory_map::model::{find, map_region, replies, unmap, World};
use crate::memory::proc_vm::memory_map::move_laws::lemma_ceiling;
use crate::memory::proc_vm::memory_map::remap_laws::{contents_at, Contents};
use crate::memory::proc_vm::memory_map::request_laws::mapping_does_what_was_asked;
use crate::memory::proc_vm::memory_map::step_laws::{
    all_done, in_step, new_steps, unmapping_asks_for_what_it_takes,
};
use crate::memory::proc_vm::memory_map::{
    lemma_mmap_base_aligned, lemma_whole_pages, AddressRequest, MMAP_BASE,
};
use crate::memory::proc_vm::vmarea::{VMAPermissions, VMAreaKind};
use crate::memory::proc_vm::{brk_outcome, brk_resized};
use crate::memory::region::VirtMemoryRegion;
use crate::memory::PAGE_SIZE;

verus! {

/// Anonymous memory that can be read and written.
pub open spec fn heap_contents() -> Contents {
    Contents {
        permissions: VMAPermissions { read: true, write: true, execute: false },
        source: None,
    }
}

/// The break is at `new_end`: the heap ends at the first page boundary that is not below
/// it. What was added to the heap is anonymous memory that can be read and written, where
/// nothing was mapped before; what was taken away is unmapped; all other addresses hold
/// what they held. The address space was asked to unmap what was taken away, and for
/// nothing else.
pub open spec fn break_moved(
    w: World,
    heap: VirtMemoryRegion,
    new_end: int,
    after: World,
    resized: VirtMemoryRegion,
) -> bool {
    let steps = new_steps(w.log, after.log);
    &&& new_end >= heap.start()
    &&& resized.start() == heap.start()
    &&& resized.end() % PAGE_SIZE as int == 0
    &&& new_end <= resized.end() < new_end + PAGE_SIZE
    &&& tidy(after.vmas)
    &&& extends(w.log, after.log)
    &&& if resized.end() < heap.end() {
        &&& all_done(steps)
        &&& in_step(
            w.vmas,
            VirtMemoryRegion::between(resized.end(), heap.end()),
            None,
            steps,
        )
    } else {
        after.log == w.log
    }
    &&& resized.end() > heap.end() ==> clear_of(
        w.vmas,
        VirtMemoryRegion::between(heap.end(), resized.end()),
    )
    &&& forall|addr: int| #[trigger]
        contents_at(after.vmas, addr) == (if heap.end() <= addr < resized.end() {
            Some(heap_contents())
        } else if resized.end() <= addr < heap.end() {
            None
        } else {
            contents_at(w.vmas, addr)
        })
}

/// The break could not be moved to `new_end`: because that is below the start of the heap
/// or because something is mapped where the heap would grow, and then nothing has changed;
/// or because the address space failed to unmap what was to be taken away.
pub open spec fn break_refused(
    w: World,
    heap: VirtMemoryRegion,
    new_end: int,
    after: World,
    error: KernelError,
) -> bool {
    let steps = new_steps(w.log, after.log);
    if new_end < heap.start() {
        after == w && error == KernelError::InvalidValue
    } else if new_end > heap.end() {
        &&& after == w
        &&& error == KernelError::InvalidValue
        &&& forall|end: int|
            end % PAGE_SIZE as int == 0 && new_end <= end < new_end + PAGE_SIZE ==> !clear_of(
                w.vmas,
                #[trigger] VirtMemoryRegion::between(heap.end(), end),
            )
    } else {
        &&& steps.len() > 0
        &&& steps.last().reply == Reply::Failed(error)
    }
}

/// Moving the break keeps the start of the heap, and puts its end at the first page
/// boundary that is not below the break; see [`break_moved`]. If that fails, the heap is
/// what it was; see [`break_refused`].
pub proof fn the_heap_ends_at_the_break(
    w: World,
    heap: VirtMemoryRegion,
    new_end: int,
    name: String,
    o: Seq<Reply>,
)
    requires
        tidy(w.vmas),
        paged(heap),
        0 <= new_end,
        new_end + PAGE_SIZE - 1 <= usize::MAX,
    ensures
        ({
            let (after, resized, r) = brk_resized(w, heap, new_end, name, o);
            match r {
                Ok(a) => a.addr() == new_end && break_moved(w, heap, new_end, after, resized),
                Err(e) => resized == heap && break_refused(w, heap, new_end, after, e),
            }
        }),
{
    let end = aligned_up(new_end, PAGE_SIZE as int);
    aligned_up_is_ceiling(new_end, PAGE_SIZE as int);
    VirtMemoryRegion::bounds(heap, heap);
    lemma_whole_pages(heap.start(), heap.len());
    if new_end >= heap.start() {
        if end > heap.end() {
            lemma_grow(w, heap, new_end, name, o);
        } else if end < heap.end() {
            lemma_shrink(w, heap, new_end, name, o);
        }
    }
}

/// A request to move the break has moved it, or has been refused; what it maps has no name.
pub proof fn the_break_is_moved_or_refused(
    w: World,
    heap: VirtMemoryRegion,
    new_end: int,
    name: String,
    outcome: (World, VirtMemoryRegion, Result<VA>),
)
    requires
        tidy(w.vmas),
        paged(heap),
        0 <= new_end,
        new_end + PAGE_SIZE - 1 <= usize::MAX,
        brk_outcome(w, heap, new_end, name, outcome),
    ensures
        ({
            let (after, resized, r) = outcome;
            match r {
                Ok(a) => {
                    &&& a.addr() == new_end
                    &&& break_moved(w, heap, new_end, after, resized)
                    &&& resized.end() > heap.end() ==> {
                        let new = find(after.vmas, heap.end());
                        new matches Some(v) && (v.start() == heap.end() ==> v.name@.len() == 0)
                    }
                },
                Err(e) => resized == heap && break_refused(w, heap, new_end, after, e),
            }
        }),
{
    the_heap_ends_at_the_break(w, heap, new_end, name, replies(outcome.0.log));
    if outcome.1.end() > heap.end() {
        lemma_grow(w, heap, new_end, name, replies(outcome.0.log));
    }
}

/// The heap grows.
#[verifier::rlimit(40)]
proof fn lemma_grow(w: World, heap: VirtMemoryRegion, new_end: int, name: String, o: Seq<Reply>)
    requires
        tidy(w.vmas),
        paged(heap),
        heap.start() <= new_end,
        new_end + PAGE_SIZE - 1 <= usize::MAX,
        aligned_up(new_end, PAGE_SIZE as int) > heap.end(),
    ensures
        ({
            let (after, resized, r) = brk_resized(w, heap, new_end, name, o);
            match r {
                Ok(a) => {
                    &&& a.addr() == new_end
                    &&& break_moved(w, heap, new_end, after, resized)
                    &&& find(after.vmas, heap.end()) matches Some(v) && (v.start() == heap.end()
                        ==> v.name == name)
                },
                Err(e) => resized == heap && break_refused(w, heap, new_end, after, e),
            }
        }),
{
    let (after, resized, r) = brk_resized(w, heap, new_end, name, o);
    let end = aligned_up(new_end, PAGE_SIZE as int);
    aligned_up_is_ceiling(new_end, PAGE_SIZE as int);
    VirtMemoryRegion::bounds(heap, heap);
    lemma_whole_pages(heap.start(), heap.len());
    lemma_whole_pages(end, heap.end());
    lemma_mmap_base_aligned();
    let request = AddressRequest::Fixed {
        address: VA::at(heap.end() as usize),
        permit_overlap: false,
    };
    let size = end - heap.end();
    let perms = VMAPermissions { read: true, write: true, execute: false };
    let base = MMAP_BASE as int;
    lemma_ceiling(size, size);
    mapping_does_what_was_asked(w, request, base, size, size, perms, VMAreaKind::Anon, name, o);
    let (w1, mapped) = map_region(w, request, base, size, perms, VMAreaKind::Anon, name, o);
    let region = VirtMemoryRegion::between(heap.end(), end);
    assert(region.start() == heap.end() && region.end() == end);
    if mapped is Ok {
        mapping_free_memory(w, request, base, size, perms, VMAreaKind::Anon, name, o, 0);
        assert(new_steps(w.log, after.log) =~= Seq::empty());
    } else {
        assert forall|e: int| e % PAGE_SIZE as int == 0 && new_end <= e < new_end + PAGE_SIZE implies !clear_of(
            w.vmas,
            #[trigger] VirtMemoryRegion::between(heap.end(), e),
        ) by {
            lemma_ceiling(new_end, e);
        }
        assert(new_end > heap.end()) by {
            if new_end <= heap.end() {
                lemma_ceiling_of_multiple(new_end, heap.end());
            }
        }
    }
}

/// The heap shrinks.
#[verifier::rlimit(40)]
proof fn lemma_shrink(w: World, heap: VirtMemoryRegion, new_end: int, name: String, o: Seq<Reply>)
    requires
        tidy(w.vmas),
        paged(heap),
        heap.start() <= new_end,
        new_end + PAGE_SIZE - 1 <= usize::MAX,
        aligned_up(new_end, PAGE_SIZE as int) < heap.end(),
    ensures
        ({
            let (after, resized, r) = brk_resized(w, heap, new_end, name, o);
            match r {
                Ok(a) => a.addr() == new_end && break_moved(w, heap, new_end, after, resized),
                Err(e) => resized == heap && break_refused(w, heap, new_end, after, e),
            }
        }),
{
    let (after, resized, r) = brk_resized(w, heap, new_end, name, o);
    let end = aligned_up(new_end, PAGE_SIZE as int);
    aligned_up_is_ceiling(new_end, PAGE_SIZE as int);
    VirtMemoryRegion::bounds(heap, heap);
    lemma_whole_pages(heap.start(), heap.len());
    lemma_whole_pages(heap.end(), end);
    let region = VirtMemoryRegion::between(end, heap.end());
    unmapping_asks_for_what_it_takes(w, region, None, o);
    if unmap(w, region, None, o).1 is Ok {
        unmap_clears_the_region(w, region, None, o, 0);
        assert forall|addr: int| #[trigger] contents_at(after.vmas, addr) == (if heap.end() <= addr
            < resized.end() {
            Some(heap_contents())
        } else if resized.end() <= addr < heap.end() {
            None
        } else {
            contents_at(w.vmas, addr)
        }) by {
            unmap_clears_the_region(w, region, None, o, addr);
        }
    }
}

/// Rounding up to whole pages does not go beyond a page boundary.
proof fn lemma_ceiling_of_multiple(x: int, boundary: int)
    requires
        0 <= x <= boundary,
        boundary % PAGE_SIZE as int == 0,
    ensures
        aligned_up(x, PAGE_SIZE as int) <= boundary,
{
    aligned_up_is_ceiling(x, PAGE_SIZE as int);
    let up = aligned_up(x, PAGE_SIZE as int);
    let (a, b) = (up / PAGE_SIZE as int, boundary / PAGE_SIZE as int);
    assert(up == a * PAGE_SIZE && boundary == b * PAGE_SIZE);
}

} // verus!
