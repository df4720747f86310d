//! What protecting, resizing and moving mappings does to the permissions and the
//! contents of each address.
use vstd::prelude::*;

use crate::error::KernelError;
use crate::fs::InodeHandle;
use crate::memory::proc_vm::address_space::{Call, Reply};
use crate::memory::proc_vm::memory_map::laws::{
    clear_of, holds, lemma_cut_tidy, lemma_disjoint, lemma_find, lemma_find_held, lemma_holds_at,
    lemma_tidy_sorted, merge_maps_the_region, tidy, free_region_is_unmapped,
    unmap_clears_the_region,
};
use crate::memory::proc_vm::memory_map::lemmas::{lemma_copy_pages_extends, paged};
use crate::memory::proc_vm::memory_map::model::{
    affected, ask_protect, can_grow, cleared, find, grow, insert, insert_part, is_free, kept_len,
    merge, merge_above, merge_below, move_mapping, moved, page_run, protect, relocated, shrink,
    with_vmas, World,
};
use crate::memory::proc_vm::memory_map::table::{cut, lemma_rank, rank};
use crate::memory::proc_vm::memory_map::lemma_whole_pages;
use crate::memory::proc_vm::vmarea::{VMAPermissions, VMArea, VMAreaKind};
use crate::memory::region::VirtMemoryRegion;
use crate::memory::PAGE_SIZE;

verus! {

/// What a mapped address holds.
pub ghost struct Contents {
    /// The permissions.
    pub permissions: VMAPermissions,
    /// The file, and the position in it; none for anonymous memory.
    pub source: Option<(InodeHandle, int)>,
}

/// What the VMA holds at the address.
pub open spec fn contents_of(vma: VMArea, addr: int) -> Contents {
    Contents { permissions: vma.permissions, source: vma.source(addr) }
}

/// What the address holds; none if it is not mapped.
pub open spec fn contents_at(s: Seq<VMArea>, addr: int) -> Option<Contents> {
    match find(s, addr) {
        Some(vma) => Some(contents_of(vma, addr)),
        None => None,
    }
}

/// The permissions of the address; none if it is not mapped.
pub open spec fn perms_at(s: Seq<VMArea>, addr: int) -> Option<VMAPermissions> {
    match contents_at(s, addr) {
        Some(contents) => Some(contents.permissions),
        None => None,
    }
}

/// No address of the region is mapped.
pub open spec fn unmapped(s: Seq<VMArea>, region: VirtMemoryRegion) -> bool {
    forall|addr: int| region.has(addr) ==> #[trigger] contents_at(s, addr) is None
}

/// The table maps the addresses as `before` does, but for the region, where they
/// hold what `f` says.
pub open spec fn redrawn(
    before: Seq<VMArea>,
    after: Seq<VMArea>,
    region: VirtMemoryRegion,
    f: spec_fn(int) -> Option<Contents>,
) -> bool {
    &&& tidy(after)
    &&& forall|addr: int| #[trigger]
        contents_at(after, addr) == (if region.has(addr) {
            f(addr)
        } else {
            contents_at(before, addr)
        })
}

/// The table maps the addresses as `before` does, but for the region, which has
/// the permissions `perms`.
pub open spec fn remapped_to(
    before: Seq<VMArea>,
    after: Seq<VMArea>,
    region: VirtMemoryRegion,
    perms: Option<VMAPermissions>,
) -> bool {
    &&& tidy(after)
    &&& forall|addr: int| #[trigger]
        perms_at(after, addr) == (if region.has(addr) {
            perms
        } else {
            perms_at(before, addr)
        })
    &&& forall|addr: int|
        !region.has(addr) ==> #[trigger] contents_at(after, addr) == contents_at(before, addr)
}

/// A region of which no address is mapped meets no VMA.
pub(super) proof fn lemma_unmapped_clear(s: Seq<VMArea>, region: VirtMemoryRegion)
    requires
        tidy(s),
        region.len() > 0,
    ensures
        unmapped(s, region) <==> clear_of(s, region),
{
    if unmapped(s, region) {
        assert forall|x: VMArea| #[trigger] holds(s, x) implies !x.region.meets(region) by {
            lemma_disjoint(s, x, x);
            if x.region.meets(region) {
                let a = if x.start() >= region.start() {
                    x.start()
                } else {
                    region.start()
                };
                lemma_find_held(s, x, a);
                assert(contents_at(s, a) is Some);
            }
        }
    }
    if clear_of(s, region) {
        assert forall|addr: int| region.has(addr) implies #[trigger] contents_at(s, addr) is None by {
            lemma_find(s, addr);
        }
    }
}

/// A region that meets no VMA affects none.
pub(super) proof fn lemma_clear_unaffected(s: Seq<VMArea>, region: VirtMemoryRegion)
    requires
        tidy(s),
        region.len() > 0,
        clear_of(s, region),
    ensures
        affected(s, region).len() == 0,
        is_free(s, region),
{
    lemma_tidy_sorted(s);
    lemma_rank(s, region.start());
    lemma_rank(s, region.start() + 1);
    lemma_rank(s, region.end());
    let below = rank(s, region.start() + 1);
    let above = rank(s, region.start());
    if below > 0 {
        lemma_holds_at(s, below - 1);
        assert(s[below - 1].start() < s[below - 1].end());
    }
    if above < s.len() {
        lemma_holds_at(s, above);
        assert(s[above].start() < s[above].end());
    }
    if above > 0 {
        lemma_holds_at(s, above - 1);
    }
    if rank(s, region.end()) > above {
        assert(s[above].start() < region.end());
    }
}

/// Merging a VMA in makes its region hold what it holds.
proof fn lemma_merge_contents(s: Seq<VMArea>, vma: VMArea)
    requires
        tidy(s),
        vma.wf(),
        vma.region.len() > 0,
        unmapped(s, vma.region),
    ensures
        redrawn(s, merge(s, vma), vma.region, |a: int| Some(contents_of(vma, a))),
{
    lemma_unmapped_clear(s, vma.region);
    merge_maps_the_region(s, vma);
    let t = merge(s, vma);
    assert forall|addr: int| #[trigger] contents_at(t, addr) == (if vma.region.has(addr) {
        Some(contents_of(vma, addr))
    } else {
        contents_at(s, addr)
    }) by {
        assert(find(t, addr) == find(t, addr));
    }
}

/// Taking a VMA out unmaps its region.
pub(super) proof fn lemma_cut_contents(s: Seq<VMArea>, vma: VMArea)
    requires
        tidy(s),
        holds(s, vma),
    ensures
        redrawn(s, cut(s, vma.start()), vma.region, |a: int| None),
        forall|addr: int|
            vma.region.has(addr) ==> #[trigger] contents_at(s, addr) == Some(
                contents_of(vma, addr),
            ),
{
    lemma_cut_tidy(s, vma);
    let t = cut(s, vma.start());
    assert forall|addr: int| #[trigger] contents_at(t, addr) == (if vma.region.has(addr) {
        None
    } else {
        contents_at(s, addr)
    }) by {
        lemma_find(s, addr);
        lemma_find(t, addr);
        if vma.region.has(addr) {
            lemma_find_held(s, vma, addr);
            if let Some(x) = find(t, addr) {
                assert(holds(t, x));
                lemma_find_held(s, x, addr);
            }
        } else if let Some(x) = find(s, addr) {
            assert(holds(t, x));
            lemma_find_held(t, x, addr);
        } else if let Some(x) = find(t, addr) {
            assert(holds(t, x));
            lemma_find_held(s, x, addr);
        }
    }
    assert forall|addr: int| vma.region.has(addr) implies #[trigger] contents_at(s, addr) == Some(
        contents_of(vma, addr),
    ) by {
        lemma_find_held(s, vma, addr);
    }
}

/// Putting a VMA where nothing is mapped asks nothing of the address space.
pub(super) proof fn lemma_insert_contents(w: World, vma: VMArea, o: Seq<Reply>)
    requires
        tidy(w.vmas),
        vma.wf(),
        vma.region.len() > 0,
        unmapped(w.vmas, vma.region),
    ensures
        insert(w, vma, o).log == w.log,
        redrawn(
            w.vmas,
            insert(w, vma, o).vmas,
            vma.region,
            |a: int| Some(contents_of(vma, a)),
        ),
{
    reveal(insert);
    lemma_unmapped_clear(w.vmas, vma.region);
    lemma_clear_unaffected(w.vmas, vma.region);
    lemma_merge_contents(w.vmas, vma);
}

/// Merging a VMA in gives its region its permissions.
proof fn lemma_merge_perms(s: Seq<VMArea>, vma: VMArea)
    requires
        tidy(s),
        vma.wf(),
        vma.region.len() > 0,
        unmapped(s, vma.region),
    ensures
        remapped_to(s, merge(s, vma), vma.region, Some(vma.permissions)),
{
    lemma_merge_contents(s, vma);
    lemma_redrawn_perms(s, merge(s, vma), vma);
}

/// Taking a VMA out unmaps its region.
proof fn lemma_cut_perms(s: Seq<VMArea>, vma: VMArea)
    requires
        tidy(s),
        holds(s, vma),
    ensures
        remapped_to(s, cut(s, vma.start()), vma.region, None),
        forall|addr: int|
            vma.region.has(addr) ==> #[trigger] perms_at(s, addr) == Some(vma.permissions),
{
    lemma_cut_contents(s, vma);
    let t = cut(s, vma.start());
    assert forall|addr: int| #[trigger] perms_at(t, addr) == (if vma.region.has(addr) {
        None
    } else {
        perms_at(s, addr)
    }) by {
        assert(contents_at(t, addr) == contents_at(t, addr));
    }
}

/// Putting a VMA where nothing is mapped gives its region its permissions.
proof fn lemma_insert_perms(w: World, vma: VMArea, o: Seq<Reply>)
    requires
        tidy(w.vmas),
        vma.wf(),
        vma.region.len() > 0,
        unmapped(w.vmas, vma.region),
    ensures
        insert(w, vma, o).log == w.log,
        remapped_to(w.vmas, insert(w, vma, o).vmas, vma.region, Some(vma.permissions)),
{
    lemma_insert_contents(w, vma, o);
    lemma_redrawn_perms(w.vmas, insert(w, vma, o).vmas, vma);
}

/// A table in which the region of a VMA holds what the VMA holds has its permissions there.
proof fn lemma_redrawn_perms(s: Seq<VMArea>, t: Seq<VMArea>, vma: VMArea)
    requires
        redrawn(s, t, vma.region, |a: int| Some(contents_of(vma, a))),
    ensures
        remapped_to(s, t, vma.region, Some(vma.permissions)),
{
    assert forall|addr: int| #[trigger] perms_at(t, addr) == (if vma.region.has(addr) {
        Some(vma.permissions)
    } else {
        perms_at(s, addr)
    }) by {
        assert(contents_at(t, addr) == contents_at(t, addr));
    }
}

/// The part of a VMA holds what the VMA holds there, and is well-formed.
pub(super) proof fn lemma_part(vma: VMArea, part: VirtMemoryRegion)
    requires
        vma.wf(),
        paged(part),
        vma.region.covers(part),
    ensures
        vma.shrunk(part).wf(),
        vma.shrunk(part).region == part,
        forall|addr: int|
            part.has(addr) ==> #[trigger] contents_of(vma.shrunk(part), addr) == contents_of(
                vma,
                addr,
            ),
{
}

/// What is found is a VMA of the table.
pub(super) proof fn lemma_found(s: Seq<VMArea>, addr: int)
    requires
        tidy(s),
        find(s, addr) is Some,
    ensures
        holds(s, find(s, addr).unwrap()),
        find(s, addr).unwrap().wf(),
        find(s, addr).unwrap().region.has(addr),
{
    lemma_find(s, addr);
    lemma_disjoint(s, find(s, addr).unwrap(), find(s, addr).unwrap());
}

/// Protecting a region gives its addresses the new permissions, leaves all other
/// addresses as they were, and what all of them hold. The address space is asked for
/// one thing: to give the range these permissions, from user space.
#[verifier::rlimit(60)]
pub proof fn protect_changes_the_region(
    w: World,
    region: VirtMemoryRegion,
    perms: VMAPermissions,
    o: Seq<Reply>,
)
    requires
        tidy(w.vmas),
        region.fits(),
        region.len() % PAGE_SIZE as int == 0,
        protect(w, region, perms, o).1 is Ok,
    ensures
        remapped_to(w.vmas, protect(w, region, perms, o).0.vmas, region, Some(perms)),
        protect(w, region, perms, o).0.log == ask_protect(w, region, perms, o).log,
        forall|addr: int|
            region.has(addr) ==> contents_at(w.vmas, addr) is Some && #[trigger] contents_at(
                protect(w, region, perms, o).0.vmas,
                addr,
            ) == Some(
                Contents {
                    permissions: perms,
                    source: contents_at(w.vmas, addr)->Some_0.source,
                },
            ),
        ({
            let log = protect(w, region, perms, o).0.log;
            &&& log.len() == w.log.len() + 1
            &&& log.drop_last() == w.log
            &&& !(log.last().reply is Failed)
            &&& log.last().call matches Call::ProtectRange(range, p) && {
                &&& range == region
                &&& p.reads() == perms.read
                &&& p.writes() == perms.write
                &&& p.executes() == perms.execute
                &&& p.users()
                &&& !p.cows()
            }
        }),
{
    let s = w.vmas;
    let vma = find(s, region.start()).unwrap();
    lemma_found(s, region.start());
    lemma_cut_contents(s, vma);
    let w0 = with_vmas(w, cut(s, vma.start()));
    let after = protect(w, region, perms, o).0.vmas;
    if vma.region == region {
        let new = vma.permitting(perms);
        assert forall|addr: int| region.has(addr) implies #[trigger] contents_at(
            w0.vmas,
            addr,
        ) is None by {}
        lemma_insert_contents(w0, new, o);
        lemma_insert_perms(w0, new, o);
    } else {
        let left = vma.region.left_of(region);
        let right = vma.region.right_of(region);
        lemma_whole_pages(vma.start(), vma.region.len());
        lemma_whole_pages(region.start(), region.len());
        let w1 = insert_part(w0, vma, left, o);
        if let Some(l) = left {
            lemma_whole_pages(l.end(), l.start());
            lemma_part(vma, l);
            assert(unmapped(w0.vmas, l));
            lemma_insert_contents(w0, vma.shrunk(l), o);
        }
        let w2 = ask_protect(w1, region, perms, o);
        let new = vma.shrunk(region).permitting(perms);
        lemma_part(vma, region);
        assert(unmapped(w2.vmas, region));
        lemma_insert_contents(w2, new, o);
        let w3 = insert(w2, new, o);
        if let Some(r) = right {
            lemma_whole_pages(r.end(), r.start());
            lemma_part(vma, r);
            assert(unmapped(w3.vmas, r));
            lemma_insert_contents(w3, vma.shrunk(r), o);
        }
    }
    assert forall|addr: int| #[trigger] contents_at(after, addr) == (if region.has(addr) {
        Some(Contents { permissions: perms, source: vma.source(addr) })
    } else {
        contents_at(s, addr)
    }) by {
        if vma.region.has(addr) {
            assert(contents_at(s, addr) == Some(contents_of(vma, addr)));
        }
        if region.has(addr) && vma.region != region {
            assert(contents_of(vma.shrunk(region), addr) == contents_of(vma, addr));
        }
        assert(contents_at(w0.vmas, addr) == contents_at(w0.vmas, addr));
    }
    assert forall|addr: int| #[trigger] perms_at(after, addr) == (if region.has(addr) {
        Some(perms)
    } else {
        perms_at(s, addr)
    }) by {
        assert(contents_at(after, addr) == contents_at(after, addr));
    }
    assert(protect(w, region, perms, o).0.log.drop_last() =~= w.log);
}

/// A protect request for a range that is empty or does not start at a page is refused, and
/// so is one where nothing is mapped at its start; nothing changes then. One that leaves
/// the VMA that it starts in is refused too, and asks nothing. For all others the address
/// space decides: it is asked for one thing, and the request fails just if that does.
pub proof fn protecting_is_refused_or_tried(
    w: World,
    region: VirtMemoryRegion,
    perms: VMAPermissions,
    o: Seq<Reply>,
)
    requires
        tidy(w.vmas),
        region.fits(),
        region.len() % PAGE_SIZE as int == 0,
    ensures
        ({
            let (after, r) = protect(w, region, perms, o);
            if region.start() % PAGE_SIZE as int != 0 || region.len() == 0 {
                after == w && r == Err::<(), KernelError>(KernelError::InvalidValue)
            } else {
                match find(w.vmas, region.start()) {
                    None => after == w && r == Err::<(), KernelError>(KernelError::NoMemory),
                    Some(vma) => if region.end() > vma.end() {
                        after.log == w.log && r == Err::<(), KernelError>(KernelError::NoMemory)
                    } else {
                        &&& after.log.len() == w.log.len() + 1
                        &&& after.log.drop_last() == w.log
                        &&& after.log.last().call matches Call::ProtectRange(range, _) && range
                            == region
                        &&& match r {
                            Ok(_) => !(after.log.last().reply is Failed),
                            Err(e) => after.log.last().reply == Reply::Failed(e),
                        }
                    },
                }
            }
        }),
{
    let s = w.vmas;
    let (after, r) = protect(w, region, perms, o);
    lemma_find(s, region.start());
    VirtMemoryRegion::bounds(region, region);
    if region.start() % PAGE_SIZE as int == 0 && region.len() > 0 && find(
        s,
        region.start(),
    ) is Some {
        let vma = find(s, region.start()).unwrap();
        if region.end() <= vma.end() {
            if r is Ok {
                protect_changes_the_region(w, region, perms, o);
            } else {
                lemma_found(s, region.start());
                lemma_cut_contents(s, vma);
                let w0 = with_vmas(w, cut(s, vma.start()));
                if vma.region == region {
                    assert(unmapped(w0.vmas, region));
                    lemma_insert_contents(w0, vma.permitting(perms), o);
                } else {
                    lemma_whole_pages(vma.start(), vma.region.len());
                    lemma_whole_pages(region.start(), region.len());
                    if let Some(l) = vma.region.left_of(region) {
                        lemma_whole_pages(l.end(), l.start());
                        lemma_part(vma, l);
                        assert(unmapped(w0.vmas, l));
                        lemma_insert_contents(w0, vma.shrunk(l), o);
                    }
                }
                assert(after.log.drop_last() =~= w.log);
            }
        }
    }
}

/// What is left of a VMA around one of its regions, once the VMA is taken out,
/// merged in again: all of it but the region.
proof fn lemma_around(s: Seq<VMArea>, vma: VMArea, region: VirtMemoryRegion)
    requires
        tidy(s),
        vma.wf(),
        paged(region),
        vma.region.covers(region),
    ensures
        unmapped(s, VirtMemoryRegion::between(vma.start(), region.start())) ==> redrawn(
            s,
            merge_below(s, vma, region),
            VirtMemoryRegion::between(vma.start(), region.start()),
            |a: int| Some(contents_of(vma, a)),
        ),
        unmapped(s, VirtMemoryRegion::between(region.end(), vma.end())) ==> redrawn(
            s,
            merge_above(s, vma, region),
            VirtMemoryRegion::between(region.end(), vma.end()),
            |a: int| Some(contents_of(vma, a)),
        ),
{
    lemma_whole_pages(vma.start(), vma.region.len());
    lemma_whole_pages(region.start(), region.len());
    let below = VirtMemoryRegion::between(vma.start(), region.start());
    let above = VirtMemoryRegion::between(region.end(), vma.end());
    lemma_whole_pages(region.start(), vma.start());
    lemma_whole_pages(vma.end(), region.end());
    if below.len() > 0 && unmapped(s, below) {
        lemma_part(vma, below);
        lemma_merge_contents(s, vma.shrunk(below));
    }
    if above.len() > 0 && unmapped(s, above) {
        lemma_part(vma, above);
        lemma_merge_contents(s, vma.shrunk(above));
    }
}

/// Shrinking a part of a mapping unmaps what is cut off, and nothing else changes.
pub proof fn shrink_unmaps_the_end(
    w: World,
    vma: VMArea,
    old: VirtMemoryRegion,
    len: int,
    o: Seq<Reply>,
)
    requires
        tidy(w.vmas),
        holds(w.vmas, vma),
        paged(old),
        vma.region.covers(old),
        0 < len < old.len(),
        len % PAGE_SIZE as int == 0,
        shrink(w, vma, old, len, o).1 is Ok,
    ensures
        remapped_to(
            w.vmas,
            shrink(w, vma, old, len, o).0.vmas,
            VirtMemoryRegion::between(old.start() + len, old.end()),
            None,
        ),
        ({
            let (after, r) = shrink(w, vma, old, len, o);
            &&& after.log.len() == w.log.len() + 1
            &&& after.log.drop_last() == w.log
            &&& after.log.last().call == Call::UnmapRange(
                VirtMemoryRegion::between(old.start() + len, old.end()),
            )
            &&& after.log.last().reply matches Reply::Pages(p) ==> r->Ok_0 == p
        }),
{
    reveal(shrink);
    let s = w.vmas;
    lemma_disjoint(s, vma, vma);
    lemma_cut_contents(s, vma);
    let kept = VirtMemoryRegion::between(old.start(), old.start() + len);
    let gone = VirtMemoryRegion::between(old.start() + len, old.end());
    let s0 = cut(s, vma.start());
    let below = VirtMemoryRegion::between(vma.start(), old.start());
    let above = VirtMemoryRegion::between(old.end(), vma.end());
    assert(unmapped(s0, below));
    lemma_around(s0, vma, old);
    let s1 = merge_below(s0, vma, old);
    lemma_whole_pages(old.start(), len);
    lemma_part(vma, kept);
    assert(unmapped(s1, kept));
    lemma_merge_contents(s1, vma.shrunk(kept));
    let s2 = merge(s1, vma.shrunk(kept));
    assert(unmapped(s2, above));
    lemma_around(s2, vma, old);
    let s3 = merge_above(s2, vma, old);
    assert forall|addr: int| #[trigger] contents_at(s3, addr) == (if gone.has(addr) {
        None
    } else {
        contents_at(s, addr)
    }) by {
        if kept.has(addr) {
            assert(contents_of(vma.shrunk(kept), addr) == contents_of(vma, addr));
        }
        assert(contents_at(s2, addr) == contents_at(s2, addr));
        assert(contents_at(s1, addr) == contents_at(s1, addr));
        assert(contents_at(s0, addr) == contents_at(s0, addr));
    }
    assert(shrink(w, vma, old, len, o).0.log.drop_last() =~= w.log);
}

/// Growing a mapping where it is maps what is added with its permissions, and as the
/// continuation of its contents; nothing else changes.
pub proof fn grow_maps_the_end(s: Seq<VMArea>, vma: VMArea, start: int, len: int)
    requires
        tidy(s),
        holds(s, vma),
        vma.region.has(start),
        start % PAGE_SIZE as int == 0,
        0 < len,
        len % PAGE_SIZE as int == 0,
        start + len <= usize::MAX,
        vma.kind matches VMAreaKind::File(m) ==> m.offset + (start - vma.start()) + len <= u64::MAX,
        can_grow(s, vma, start, len),
    ensures
        remapped_to(
            s,
            grow(s, vma, start, len),
            VirtMemoryRegion::between(start, start + len),
            Some(vma.permissions),
        ),
        forall|addr: int|
            start <= addr < start + len ==> #[trigger] contents_at(
                grow(s, vma, start, len),
                addr,
            ) == Some(contents_of(vma, addr)),
{
    reveal(grow);
    let t = grow(s, vma, start, len);
    let part = VirtMemoryRegion::between(start, start + len);
    lemma_disjoint(s, vma, vma);
    lemma_cut_contents(s, vma);
    if start + len > vma.end() {
        let added = VirtMemoryRegion::between(vma.end(), start + len);
        free_region_is_unmapped(s, added);
        lemma_unmapped_clear(s, added);
        let s0 = cut(s, vma.start());
        let whole = vma.on(VirtMemoryRegion::between(vma.start(), start + len));
        lemma_whole_pages(start, len);
        lemma_whole_pages(start + len, vma.start());
        assert forall|addr: int| whole.region.has(addr) implies #[trigger] contents_at(
            s0,
            addr,
        ) is None by {
            if !vma.region.has(addr) {
                assert(added.has(addr));
                assert(contents_at(s, addr) is None);
            }
        }
        lemma_merge_contents(s0, whole);
        assert forall|addr: int| #[trigger] contents_at(t, addr) == (if part.has(addr) {
            Some(contents_of(vma, addr))
        } else {
            contents_at(s, addr)
        }) by {
            assert(contents_of(whole, addr) == contents_of(vma, addr));
            assert(contents_at(s0, addr) == contents_at(s0, addr));
        }
        lemma_merge_perms(s0, whole);
    }
    lemma_cut_perms(s, vma);
    assert forall|addr: int| #[trigger] perms_at(t, addr) == (if part.has(addr) {
        Some(vma.permissions)
    } else {
        perms_at(s, addr)
    }) by {
        assert(perms_at(cut(s, vma.start()), addr) == perms_at(cut(s, vma.start()), addr));
    }
}

/// What the part `old` of `vma` holds once it has moved to `new`: the same at the same
/// distance from the start. What is added at the end is anonymous.
pub open spec fn moved_contents(
    vma: VMArea,
    old: VirtMemoryRegion,
    new: VirtMemoryRegion,
    addr: int,
) -> Contents {
    let from = old.start() + (addr - new.start());
    if old.has(from) {
        contents_of(vma, from)
    } else {
        Contents { permissions: vma.permissions, source: None }
    }
}

/// Moving a part of a mapping to where nothing is mapped unmaps it where it was
/// and maps it, with its permissions and contents, where it goes; nothing else changes.
proof fn lemma_moved(s: Seq<VMArea>, vma: VMArea, old: VirtMemoryRegion, new: VirtMemoryRegion)
    requires
        tidy(s),
        holds(s, vma),
        paged(old),
        paged(new),
        new.len() > 0,
        vma.region.covers(old),
        !new.meets(vma.region),
        unmapped(s, new),
        vma.kind matches VMAreaKind::File(m) ==> m.offset + (old.start() - vma.start()) + new.len()
            <= u64::MAX,
    ensures
        tidy(moved(s, vma, old, new)),
        forall|addr: int| #[trigger]
            contents_at(moved(s, vma, old, new), addr) == (if new.has(addr) {
                Some(moved_contents(vma, old, new, addr))
            } else if old.has(addr) {
                None
            } else {
                contents_at(s, addr)
            }),
{
    lemma_disjoint(s, vma, vma);
    lemma_cut_contents(s, vma);
    let s0 = cut(s, vma.start());
    let below = VirtMemoryRegion::between(vma.start(), old.start());
    let above = VirtMemoryRegion::between(old.end(), vma.end());
    assert(unmapped(s0, below));
    lemma_around(s0, vma, old);
    let s1 = merge_below(s0, vma, old);
    assert(unmapped(s1, above));
    lemma_around(s1, vma, old);
    let s2 = merge_above(s1, vma, old);
    lemma_part(vma, old);
    let placed = relocated(vma.shrunk(old), new);
    assert forall|addr: int| new.has(addr) implies #[trigger] contents_at(s2, addr) is None by {
        assert(contents_at(s1, addr) == contents_at(s1, addr));
        assert(contents_at(s0, addr) == contents_at(s0, addr));
        assert(contents_at(s, addr) is None);
    }
    lemma_merge_contents(s2, placed);
    let t = moved(s, vma, old, new);
    assert forall|addr: int| #[trigger] contents_at(t, addr) == (if new.has(addr) {
        Some(moved_contents(vma, old, new, addr))
    } else if old.has(addr) {
        None
    } else {
        contents_at(s, addr)
    }) by {
        if new.has(addr) {
            let from = old.start() + (addr - new.start());
            assert(contents_of(placed, addr).source == contents_of(vma.shrunk(old), from).source);
            assert(contents_of(placed, addr) == moved_contents(vma, old, new, addr));
        }
        assert(contents_at(s2, addr) == contents_at(s2, addr));
        assert(contents_at(s1, addr) == contents_at(s1, addr));
        assert(contents_at(s0, addr) == contents_at(s0, addr));
    }
}

/// Moving a part of a mapping unmaps it where it was and maps it, with its
/// permissions and contents, where it goes, in place of what was there; nothing else
/// changes.
pub proof fn move_relocates_the_region(
    w: World,
    vma: VMArea,
    old: VirtMemoryRegion,
    new: VirtMemoryRegion,
    clobber: bool,
    o: Seq<Reply>,
)
    requires
        tidy(w.vmas),
        holds(w.vmas, vma),
        paged(old),
        paged(new),
        new.len() > 0,
        vma.region.covers(old),
        !new.meets(vma.region),
        clobber || is_free(w.vmas, new),
        vma.kind matches VMAreaKind::File(m) ==> m.offset + (old.start() - vma.start()) + new.len()
            <= u64::MAX,
        move_mapping(w, vma, old, new, clobber, o).1 is Ok,
    ensures
        tidy(move_mapping(w, vma, old, new, clobber, o).0.vmas),
        forall|addr: int| #[trigger]
            perms_at(move_mapping(w, vma, old, new, clobber, o).0.vmas, addr) == (
            if new.has(addr) {
                Some(vma.permissions)
            } else if old.has(addr) {
                None
            } else {
                perms_at(w.vmas, addr)
            }),
        forall|addr: int| #[trigger]
            contents_at(move_mapping(w, vma, old, new, clobber, o).0.vmas, addr) == (
            if new.has(addr) {
                Some(moved_contents(vma, old, new, addr))
            } else if old.has(addr) {
                None
            } else {
                contents_at(w.vmas, addr)
            }),
{
    reveal(move_mapping);
    let s = w.vmas;
    lemma_disjoint(s, vma, vma);
    let w1 = cleared(w, new, clobber, o).0;
    if clobber {
        assert forall|addr: int| #[trigger] contents_at(w1.vmas, addr) == (if new.has(addr) {
            None
        } else {
            contents_at(s, addr)
        }) by {
            unmap_clears_the_region(w, new, None, o, addr);
        }
        unmap_clears_the_region(w, new, None, o, 0);
        crate::memory::proc_vm::memory_map::laws::unmap_keeps_others(w, new, None, o, vma);
    } else {
        free_region_is_unmapped(s, new);
        lemma_unmapped_clear(s, new);
    }
    let n = kept_len(old, new) / PAGE_SIZE as int;
    lemma_copy_pages_extends(w1, page_run(old.start(), n), page_run(new.start(), n), n, o);
    lemma_moved(w1.vmas, vma, old, new);
    let t = move_mapping(w, vma, old, new, clobber, o).0.vmas;
    assert(t == moved(w1.vmas, vma, old, new));
    assert forall|addr: int| #[trigger] contents_at(t, addr) == (if new.has(addr) {
        Some(moved_contents(vma, old, new, addr))
    } else if old.has(addr) {
        None
    } else {
        contents_at(s, addr)
    }) by {
        assert(contents_at(w1.vmas, addr) == contents_at(w1.vmas, addr));
    }
    assert forall|addr: int| #[trigger] perms_at(t, addr) == (if new.has(addr) {
        Some(vma.permissions)
    } else if old.has(addr) {
        None
    } else {
        perms_at(s, addr)
    }) by {
        assert(contents_at(t, addr) == contents_at(t, addr));
    }
}

} // verus!
