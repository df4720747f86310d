//! What is left of a map when the address space fails.
use vstd::prelude::*;

use crate::memory::proc_vm::address_space::Reply;
use crate::memory::proc_vm::memory_map::laws::{
    lemma_disjoint, lemma_failed_unmap, lemma_find_held, tidy, unmap_clears_the_region,
};
use crate::memory::proc_vm::memory_map::lemma_whole_pages;
use crate::memory::proc_vm::memory_map::lemmas::paged;
use crate::memory::proc_vm::memory_map::model::{
    cleared, find, move_mapping, protect, shrink, unmap, with_vmas, World,
};
use crate::memory::proc_vm::memory_map::move_laws::moving_carries_the_pages;
use crate::memory::proc_vm::memory_map::remap_laws::{
    contents_at, contents_of, lemma_cut_contents, lemma_found, lemma_insert_contents, lemma_part,
    unmapped, Contents,
};
use crate::memory::proc_vm::memory_map::step_laws::range_of;
use crate::memory::proc_vm::memory_map::table::cut;
use crate::memory::proc_vm::vmarea::{VMAPermissions, VMArea};
use crate::memory::region::VirtMemoryRegion;
use crate::memory::PAGE_SIZE;

verus! {

/// When the address space fails to clear a part of a region, the VMA that this part is of is
/// gone from the map. What was to be cleared below that VMA is cleared. All other addresses
/// hold what they held.
pub proof fn a_failed_unmap_stops_there(
    w: World,
    region: VirtMemoryRegion,
    new: Option<VMArea>,
    o: Seq<Reply>,
)
    requires
        tidy(w.vmas),
        paged(region),
        region.len() > 0,
        unmap(w, region, new, o).1 is Err,
    ensures
        ({
            let after = unmap(w, region, new, o).0;
            let failed = range_of(after.log.last());
            &&& tidy(after.vmas)
            &&& region.covers(failed)
            &&& find(w.vmas, failed.start()) matches Some(v) && {
                &&& v.region.covers(failed)
                &&& forall|addr: int| #[trigger]
                    contents_at(after.vmas, addr) == (if v.region.has(addr) || region.has(addr)
                        && addr < v.start() {
                        None
                    } else {
                        contents_at(w.vmas, addr)
                    })
            }
        }),
{
    let after = unmap(w, region, new, o).0;
    let v = lemma_failed_unmap(w, region, new, o);
    let failed = range_of(after.log.last());
    lemma_disjoint(w.vmas, v, v);
    VirtMemoryRegion::bounds(region, v.region);
    assert(region.common(v.region) == Some(failed));
    lemma_find_held(w.vmas, v, failed.start());
}

/// When a protect request leaves the VMA that it starts in, that VMA is gone from the map.
/// When the address space fails to protect a part of a VMA, the VMA is gone from the start of
/// the part on; when it fails to protect all of it, the map has the new permissions all the
/// same. All other addresses hold what they held.
pub proof fn a_failed_protect_leaves_a_part(
    w: World,
    region: VirtMemoryRegion,
    perms: VMAPermissions,
    o: Seq<Reply>,
)
    requires
        tidy(w.vmas),
        region.fits(),
        region.len() > 0,
        region.len() % PAGE_SIZE as int == 0,
        region.start() % PAGE_SIZE as int == 0,
        find(w.vmas, region.start()) is Some,
        protect(w, region, perms, o).1 is Err,
    ensures
        ({
            let after = protect(w, region, perms, o).0.vmas;
            let vma = find(w.vmas, region.start())->Some_0;
            &&& tidy(after)
            &&& forall|addr: int| #[trigger]
                contents_at(after, addr) == (if !vma.region.has(addr) {
                    contents_at(w.vmas, addr)
                } else if region.end() > vma.end() {
                    None
                } else if region.start() == vma.start() && region.end() == vma.end() {
                    Some(Contents { permissions: perms, source: vma.source(addr) })
                } else if addr < region.start() {
                    contents_at(w.vmas, addr)
                } else {
                    None
                })
        }),
{
    let s = w.vmas;
    let vma = find(s, region.start()).unwrap();
    lemma_found(s, region.start());
    lemma_cut_contents(s, vma);
    let w0 = with_vmas(w, cut(s, vma.start()));
    let after = protect(w, region, perms, o).0.vmas;
    VirtMemoryRegion::bounds(vma.region, region);
    VirtMemoryRegion::bounds(region, region);
    if vma.region == region {
        let new = vma.permitting(perms);
        assert forall|addr: int| region.has(addr) implies #[trigger] contents_at(
            w0.vmas,
            addr,
        ) is None by {}
        lemma_insert_contents(w0, new, o);
        assert forall|addr: int| region.has(addr) implies #[trigger] contents_at(after, addr)
            == Some(Contents { permissions: perms, source: vma.source(addr) }) by {
            assert(contents_of(new, addr).source == vma.source(addr));
        }
    } else if region.end() <= vma.end() {
        lemma_whole_pages(vma.start(), vma.region.len());
        lemma_whole_pages(region.start(), region.len());
        if let Some(l) = vma.region.left_of(region) {
            lemma_whole_pages(l.end(), l.start());
            lemma_part(vma, l);
            assert(unmapped(w0.vmas, l));
            lemma_insert_contents(w0, vma.shrunk(l), o);
            assert forall|addr: int| l.has(addr) implies #[trigger] contents_at(after, addr)
                == contents_at(s, addr) by {
                assert(contents_of(vma.shrunk(l), addr) == contents_of(vma, addr));
                assert(contents_at(s, addr) == Some(contents_of(vma, addr)));
            }
        }
    }
}

/// When the address space fails to shrink a mapping, or to move one to free memory, the map is
/// what it was. When it fails to move one over what is mapped at the target, this may be
/// cleared; what no VMA holds that meets the target is as it was, and if the target could be
/// cleared, all else is.
pub proof fn a_failed_remap_keeps_the_map(
    w: World,
    vma: VMArea,
    old: VirtMemoryRegion,
    new: VirtMemoryRegion,
    len: int,
    clobber: bool,
    o: Seq<Reply>,
)
    requires
        tidy(w.vmas),
        paged(old),
        paged(new),
        new.len() > 0,
    ensures
        shrink(w, vma, old, len, o).1 is Err ==> shrink(w, vma, old, len, o).0.vmas == w.vmas,
        move_mapping(w, vma, old, new, clobber, o).1 is Err ==> {
            let after = move_mapping(w, vma, old, new, clobber, o).0.vmas;
            &&& !clobber ==> after == w.vmas
            &&& tidy(after)
            &&& forall|addr: int|
                !new.has(addr) && !(find(w.vmas, addr) matches Some(v) && v.region.meets(new))
                    ==> #[trigger] contents_at(after, addr) == contents_at(w.vmas, addr)
            &&& clobber && unmap(w, new, None, o).1 is Ok ==> forall|addr: int| #[trigger]
                contents_at(after, addr) == (if new.has(addr) {
                    None
                } else {
                    contents_at(w.vmas, addr)
                })
        },
{
    reveal(shrink);
    reveal(move_mapping);
    if move_mapping(w, vma, old, new, clobber, o).1 is Err {
        let after = move_mapping(w, vma, old, new, clobber, o).0.vmas;
        let (w1, r) = cleared(w, new, clobber, o);
        if r is Ok {
            moving_carries_the_pages(w1, old, new, o);
            assert(after == w1.vmas);
        }
        if clobber {
            if unmap(w, new, None, o).1 is Ok {
                unmap_clears_the_region(w, new, None, o, 0);
                assert forall|addr: int| #[trigger] contents_at(after, addr) == (if new.has(addr) {
                    None
                } else {
                    contents_at(w.vmas, addr)
                }) by {
                    unmap_clears_the_region(w, new, None, o, addr);
                }
            } else {
                a_failed_unmap_stops_there(w, new, None, o);
                let gone = lemma_failed_unmap(w, new, None, o);
                assert forall|addr: int|
                    !new.has(addr) && !(find(w.vmas, addr) matches Some(x) && x.region.meets(
                        new,
                    )) implies #[trigger] contents_at(after, addr) == contents_at(w.vmas, addr) by {
                    if gone.region.has(addr) {
                        lemma_find_held(w.vmas, gone, addr);
                    }
                }
            }
        }
    }
}

} // verus!
