//! What requests to map, unmap, protect, remap and clone memory come to, address by
//! address.
use vstd::prelude::*;

use crate::error::{KernelError, Result};
use crate::fs::InodeHandle;
use crate::memory::address::{aligned_down_is_floor, aligned_up_is_ceiling, VA};
use crate::memory::page::PageFrame;
use crate::memory::proc_vm::address_space::{Call, Reply};
use crate::memory::proc_vm::memory_map::laws::{
    chosen_region_is_the_highest_free_one, clear_of, free_region_is_unmapped,
    insert_maps_the_region, inserting_keeps_the_names, lemma_gap, lemma_gap_aligned, tidy,
    unmap_clears_the_region,
};
use crate::memory::proc_vm::memory_map::lemma_whole_pages;
use crate::memory::proc_vm::memory_map::lemmas::{extends, paged};
use crate::memory::proc_vm::memory_map::model::{
    choose_region, cow_cloned, find, free_region, gap_end, insert, is_free, map_region,
    munmapped, replies, share, unmap, World,
};
use crate::memory::proc_vm::memory_map::remap_laws::{
    contents_at, lemma_clear_unaffected, Contents,
};
use crate::memory::proc_vm::memory_map::step_laws::{
    all_done, frames_of, in_step, inserting_asks_for_what_it_takes, new_steps,
    unmapping_asks_for_what_it_takes,
};
use crate::memory::proc_vm::memory_map::AddressRequest;
use crate::memory::proc_vm::vmarea::{VMAPermissions, VMArea, VMAreaKind};
use crate::memory::region::VirtMemoryRegion;
use crate::memory::PAGE_SIZE;

verus! {

/// Where memory of the kind has its contents from, at a distance from its start.
pub open spec fn backing_at(kind: VMAreaKind, distance: int) -> Option<(InodeHandle, int)> {
    match kind {
        VMAreaKind::Anon => None,
        VMAreaKind::File(m) => if distance < m.len {
            Some((m.file, m.offset + distance))
        } else {
            None
        },
    }
}

/// No VMA meets the region, it lies below the base, and no other such region of the same
/// length ends higher.
pub open spec fn highest_free(s: Seq<VMArea>, base: int, region: VirtMemoryRegion) -> bool {
    &&& clear_of(s, region)
    &&& region.end() <= base
    &&& forall|other: VirtMemoryRegion| #[trigger]
        clear_of(s, other) && other.len() == region.len() && other.end() <= base ==> other.end()
            <= region.end()
}

/// There is no room for `size` bytes below the base.
pub open spec fn no_room(s: Seq<VMArea>, base: int, size: int) -> bool {
    forall|other: VirtMemoryRegion|
        other.len() == size && other.end() <= base ==> !#[trigger] clear_of(s, other)
}

/// The `size` bytes from the page of the address on.
pub open spec fn wished(address: VA, size: int) -> VirtMemoryRegion {
    let start = address.addr() - address.addr() % PAGE_SIZE;
    VirtMemoryRegion::between(start, start + size)
}

/// The region is where the request wants it.
pub open spec fn well_placed(
    s: Seq<VMArea>,
    request: AddressRequest,
    base: int,
    region: VirtMemoryRegion,
) -> bool {
    match request {
        AddressRequest::Any => highest_free(s, base, region),
        AddressRequest::Hint(address) => if clear_of(s, wished(address, region.len())) {
            region == wished(address, region.len())
        } else {
            highest_free(s, base, region)
        },
        AddressRequest::Fixed { address, permit_overlap } => {
            &&& region.start() == address.addr()
            &&& permit_overlap || clear_of(s, region)
        },
    }
}

/// The request for `size` bytes has to be refused with the error.
pub open spec fn refused(
    s: Seq<VMArea>,
    request: AddressRequest,
    base: int,
    size: int,
    error: KernelError,
) -> bool {
    match request {
        AddressRequest::Any => no_room(s, base, size) && error == KernelError::NoMemory,
        AddressRequest::Hint(address) => {
            &&& !clear_of(s, wished(address, size))
            &&& no_room(s, base, size)
            &&& error == KernelError::NoMemory
        },
        AddressRequest::Fixed { address, permit_overlap } => {
            &&& error == KernelError::InvalidValue
            &&& address.addr() % PAGE_SIZE != 0 || !permit_overlap && !clear_of(
                s,
                VirtMemoryRegion::between(address.addr() as int, address.addr() + size),
            )
        },
    }
}

/// A region that is said to be free is one that no VMA meets.
pub(super) proof fn lemma_free_is_clear(s: Seq<VMArea>, region: VirtMemoryRegion)
    requires
        tidy(s),
        region.len() > 0,
    ensures
        is_free(s, region) <==> clear_of(s, region),
{
    if is_free(s, region) {
        free_region_is_unmapped(s, region);
    }
    if clear_of(s, region) {
        lemma_clear_unaffected(s, region);
    }
}

/// Facts about the region that is found for a mapping at no particular address.
pub(super) proof fn lemma_found_region(s: Seq<VMArea>, base: int, size: int)
    requires
        tidy(s),
        0 < size,
        size % PAGE_SIZE as int == 0,
        0 <= base <= usize::MAX,
        base % PAGE_SIZE as int == 0,
    ensures
        match free_region(s, base, size) {
            Some(region) => {
                &&& highest_free(s, base, region)
                &&& paged(region)
                &&& region.len() == size
                &&& 0 <= region.start()
            },
            None => no_room(s, base, size),
        },
{
    chosen_region_is_the_highest_free_one(s, base, size);
    if free_region(s, base, size) is Some {
        assert(s.take(s.len() as int) =~= s);
        lemma_gap(s, s.len() as int, base, size);
        lemma_gap_aligned(s, s.len() as int, base, size);
        lemma_whole_pages(gap_end(s, base, size).unwrap(), size);
    }
}

/// A map request maps whole pages, as many as it takes, where the request wants them: with
/// the permissions, and with the contents of the backing from its start on, under the name
/// unless the VMA before it is continued. With the replies of the address space all good,
/// nothing else is mapped differently afterwards, and the address space has been asked for
/// what that takes; after a step that fails it is asked for nothing more. A request that
/// cannot be met is refused, and changes nothing.
pub proof fn mapping_does_what_was_asked(
    w: World,
    request: AddressRequest,
    base: int,
    len: int,
    size: int,
    perms: VMAPermissions,
    kind: VMAreaKind,
    name: String,
    o: Seq<Reply>,
)
    requires
        tidy(w.vmas),
        0 <= base <= usize::MAX,
        base % PAGE_SIZE as int == 0,
        size % PAGE_SIZE as int == 0,
        0 <= len <= size < len + PAGE_SIZE,
        size <= usize::MAX,
        request matches AddressRequest::Hint(a) ==> a.addr() + size <= usize::MAX,
        request matches AddressRequest::Fixed { address, permit_overlap } ==> address.addr() + size
            <= usize::MAX,
        kind matches VMAreaKind::File(m) ==> m.offset + size <= u64::MAX,
    ensures
        ({
            let (after, r) = map_region(w, request, base, len, perms, kind, name, o);
            let steps = new_steps(w.log, after.log);
            match r {
                Err(e) => {
                    &&& after == w
                    &&& if len == 0 {
                        e == KernelError::InvalidValue
                    } else {
                        refused(w.vmas, request, base, size, e)
                    }
                },
                Ok(a) => {
                    let start = a.addr() as int;
                    let region = VirtMemoryRegion::between(start, start + size);
                    &&& len > 0
                    &&& start % PAGE_SIZE as int == 0
                    &&& start + size <= usize::MAX
                    &&& well_placed(w.vmas, request, base, region)
                    &&& extends(w.log, after.log)
                    &&& !all_done(steps) ==> steps.last().reply is Failed && all_done(
                        steps.drop_last(),
                    )
                    &&& all_done(steps) ==> {
                        &&& tidy(after.vmas)
                        &&& find(after.vmas, start) matches Some(x) && (x.start() == start
                            ==> x.name == name)
                        &&& in_step(
                            w.vmas,
                            region,
                            Some(VMArea { region, kind, permissions: perms, name }),
                            steps,
                        )
                        &&& forall|addr: int| #[trigger]
                            contents_at(after.vmas, addr) == (if region.has(addr) {
                                Some(
                                    Contents {
                                        permissions: perms,
                                        source: backing_at(kind, addr - start),
                                    },
                                )
                            } else {
                                contents_at(w.vmas, addr)
                            })
                    }
                },
            }
        }),
{
    if len > 0 {
        let s = w.vmas;
        aligned_up_is_ceiling(len, PAGE_SIZE as int);
        let up = crate::memory::address::aligned_up(len, PAGE_SIZE as int);
        assert(up == size) by {
            let (x, y) = (up / PAGE_SIZE as int, size / PAGE_SIZE as int);
            assert(up == x * PAGE_SIZE && size == y * PAGE_SIZE);
        }
        lemma_found_region(s, base, size);
        match request {
            AddressRequest::Any => {},
            AddressRequest::Hint(a) => {
                aligned_down_is_floor(a.addr() as int, PAGE_SIZE as int);
                lemma_free_is_clear(s, wished(a, size));
            },
            AddressRequest::Fixed { address, permit_overlap } => {
                lemma_free_is_clear(
                    s,
                    VirtMemoryRegion::between(address.addr() as int, address.addr() + size),
                );
            },
        }
        let (after, r) = map_region(w, request, base, len, perms, kind, name, o);
        if let Ok(region) = choose_region(s, request, base, size) {
            let new = VMArea { region, kind, permissions: perms, name };
            assert(region.fits() && region.start() % PAGE_SIZE as int == 0 && region.len() == size);
            VirtMemoryRegion::bounds(region, region);
            VirtMemoryRegion::bounds(
                region,
                VirtMemoryRegion::between(region.start(), region.start() + size),
            );
            assert(after == insert(w, new, o));
            reveal(insert);
            unmapping_asks_for_what_it_takes(w, region, Some(new), o);
            if all_done(new_steps(w.log, after.log)) {
                inserting_asks_for_what_it_takes(w, new, o);
                insert_maps_the_region(w, new, o, 0);
                inserting_keeps_the_names(w, new, o);
                assert forall|addr: int| #[trigger] contents_at(after.vmas, addr) == (
                if region.has(addr) {
                    Some(
                        Contents {
                            permissions: perms,
                            source: backing_at(kind, addr - region.start()),
                        },
                    )
                } else {
                    contents_at(s, addr)
                }) by {
                    insert_maps_the_region(w, new, o, addr);
                    assert(new.source(addr) == backing_at(kind, addr - region.start()));
                }
            }
        }
    }
}

/// The start of the page of the address.
pub open spec fn page_start(addr: int) -> int {
    addr - addr % PAGE_SIZE as int
}

/// An unmap request unmaps every page that the range touches, and nothing else. Its result
/// are the page frames that the address space gives up, or the failure that ended it. A
/// range that is empty or does not start at a page is refused, and nothing changes.
pub proof fn unmapping_does_what_was_asked(w: World, range: VirtMemoryRegion, o: Seq<Reply>)
    requires
        tidy(w.vmas),
        range.end() + PAGE_SIZE - 1 <= usize::MAX,
    ensures
        ({
            let (after, r) = munmapped(w, range, o);
            let steps = new_steps(w.log, after.log);
            if range.start() % PAGE_SIZE as int != 0 || range.len() == 0 {
                after == w && r == Err::<Seq<PageFrame>, KernelError>(KernelError::InvalidValue)
            } else {
                &&& extends(w.log, after.log)
                &&& match r {
                    Ok(freed) => {
                        &&& tidy(after.vmas)
                        &&& all_done(steps)
                        &&& freed == frames_of(steps)
                        &&& forall|pages: VirtMemoryRegion|
                            #![trigger in_step(w.vmas, pages, None, steps)]
                            pages.start() == range.start() && pages.len() % PAGE_SIZE as int == 0
                                && range.len() <= pages.len() < range.len() + PAGE_SIZE ==> in_step(
                                w.vmas,
                                pages,
                                None,
                                steps,
                            )
                        &&& forall|addr: int| #[trigger]
                            contents_at(after.vmas, addr) == (if range.start() <= addr
                                && page_start(addr) < range.end() {
                                None
                            } else {
                                contents_at(w.vmas, addr)
                            })
                    },
                    Err(e) => {
                        &&& steps.len() > 0
                        &&& steps.last().reply == Reply::Failed(e)
                        &&& all_done(steps.drop_last())
                    },
                }
            }
        }),
{
    let (after, r) = munmapped(w, range, o);
    let steps = new_steps(w.log, after.log);
    VirtMemoryRegion::bounds(range, range);
    if range.start() % PAGE_SIZE as int == 0 && range.len() > 0 {
        aligned_up_is_ceiling(range.end(), PAGE_SIZE as int);
        let end = crate::memory::address::aligned_up(range.end(), PAGE_SIZE as int);
        let region = VirtMemoryRegion::between(range.start(), end);
        lemma_whole_pages(end, range.start());
        unmapping_asks_for_what_it_takes(w, region, None, o);
        if r is Ok {
            unmap_clears_the_region(w, region, None, o, 0);
            assert forall|pages: VirtMemoryRegion|
                #![trigger in_step(w.vmas, pages, None, steps)]
                pages.start() == range.start() && pages.len() % PAGE_SIZE as int == 0 && range.len()
                    <= pages.len() < range.len() + PAGE_SIZE implies in_step(
                w.vmas,
                pages,
                None,
                steps,
            ) by {
                VirtMemoryRegion::bounds(pages, region);
            }
            assert forall|addr: int| #[trigger] contents_at(after.vmas, addr) == (if range.start()
                <= addr && page_start(addr) < range.end() {
                None
            } else {
                contents_at(w.vmas, addr)
            }) by {
                unmap_clears_the_region(w, region, None, o, addr);
            }
        }
    }
}

/// Sharing the first `n` VMAs, up to the first failure.
proof fn lemma_share_steps(w: World, n: int, o: Seq<Reply>)
    requires
        0 <= n <= w.vmas.len(),
    ensures
        ({
            let (after, r) = share(w, n, o);
            let steps = new_steps(w.log, after.log);
            &&& after.vmas == w.vmas
            &&& extends(w.log, after.log)
            &&& steps.len() <= n
            &&& forall|k: int|
                0 <= k < steps.len() ==> shares((#[trigger] steps[k]).call, w.vmas[k])
            &&& match r {
                Ok(_) => steps.len() == n && all_done(steps),
                Err(e) => {
                    &&& steps.len() > 0
                    &&& steps.last().reply == Reply::Failed(e)
                    &&& all_done(steps.drop_last())
                },
            }
        }),
    decreases n,
{
    let (after, r) = share(w, n, o);
    let steps = new_steps(w.log, after.log);
    if n == 0 {
        assert(steps =~= Seq::empty());
    } else {
        lemma_share_steps(w, n - 1, o);
        let (w1, r1) = share(w, n - 1, o);
        let steps1 = new_steps(w.log, w1.log);
        if r1 is Ok {
            assert(steps =~= steps1.push(after.log.last()));
            assert(steps.drop_last() =~= steps1);
            assert forall|k: int| 0 <= k < steps.len() implies shares(
                (#[trigger] steps[k]).call,
                w.vmas[k],
            ) by {
                if k < steps1.len() {
                    assert(steps[k] == steps1[k]);
                }
            }
        }
    }
}

/// The call shares just the region of the VMA. The pages are not writable in either
/// address space: those of a writable VMA are copy-on-write. Otherwise their permissions
/// are those of the VMA, from user space.
pub open spec fn shares(call: Call, vma: VMArea) -> bool {
    call matches Call::ShareRange(range, p) && {
        &&& range == vma.region
        &&& !p.writes()
        &&& p.cows() == vma.permissions.write
        &&& p.reads() == vma.permissions.read
        &&& p.executes() == vma.permissions.execute
        &&& p.users()
    }
}

/// Cloning a map shares every VMA with the clone, whatever its backing, once and in order;
/// both address spaces are asked for just that, and both maps have the VMAs. It fails
/// where the new address space could not be created, and then changes nothing; or with the
/// first VMA that could not be shared, and then no VMA changes.
pub proof fn cloning_shares_every_vma<AS>(
    w: World,
    made: Result<AS>,
    after: World,
    r: Result<World>,
)
    requires
        cow_cloned(w, made, after, r),
    ensures
        after.vmas == w.vmas,
        extends(w.log, after.log),
        made matches Err(e) ==> after == w && r == Err::<World, KernelError>(e),
        made is Ok ==> {
            let steps = new_steps(w.log, after.log);
            &&& forall|k: int|
                0 <= k < steps.len() ==> shares((#[trigger] steps[k]).call, w.vmas[k])
            &&& match r {
                Ok(clone) => {
                    &&& clone.vmas == w.vmas
                    &&& clone.log == steps
                    &&& steps.len() == w.vmas.len()
                    &&& all_done(steps)
                },
                Err(e) => {
                    &&& 0 < steps.len() <= w.vmas.len()
                    &&& steps.last().reply == Reply::Failed(e)
                    &&& all_done(steps.drop_last())
                },
            }
        },
{
    if made is Ok {
        lemma_share_steps(w, w.vmas.len() as int, replies(after.log));
    }
}

} // verus!
