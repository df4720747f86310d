//! What the operations of a memory map do, as functions.
//!
//! The state of a memory map is a [`World`]: its VMAs, and the steps that its
//! address space has been asked for. What an operation does depends on how the
//! address space replies. So each function takes the replies: the one at index
//! `i` is the reply to the `i`-th step of the log. For an operation that has
//! happened they are the replies in the log it left behind.
use vstd::prelude::*;

use crate::error::{KernelError, Result};
use crate::memory::address::{aligned_down, aligned_up, VA};
use crate::memory::page::PageFrame;
use crate::memory::paging::permissions::PtePermissions;
use crate::memory::proc_vm::address_space::{Call, Reply, Step};
use crate::memory::proc_vm::memory_map::table::{cut, has_key, put, rank};
use crate::memory::proc_vm::memory_map::{AddressRequest, RemapDestination};
use crate::memory::proc_vm::vmarea::{VMAPermissions, VMArea, VMAreaKind, VMFileMapping};
use crate::memory::region::{imin, VirtMemoryRegion};
use crate::memory::PAGE_SIZE;

verus! {

/// The state of a memory map.
#[verifier::ext_equal]
pub ghost struct World {
    /// The VMAs, ordered by their start addresses.
    pub vmas: Seq<VMArea>,
    /// The steps that the address space has been asked for.
    pub log: Seq<Step>,
}

/// The replies in a log.
pub open spec fn replies(log: Seq<Step>) -> Seq<Reply> {
    Seq::new(log.len(), |i: int| log[i].reply)
}

/// Asks the address space for a step.
pub open spec fn ask(w: World, call: Call, o: Seq<Reply>) -> World {
    World { log: w.log.push(Step { call, reply: o[w.log.len() as int] }), ..w }
}

/// The reply to the latest step.
pub open spec fn answer(w: World) -> Reply {
    w.log.last().reply
}

/// The page frames that a step yields.
pub open spec fn yielded(reply: Reply) -> Seq<PageFrame> {
    match reply {
        Reply::Pages(p) => p,
        _ => Seq::empty(),
    }
}

/// Changes the VMAs.
pub open spec fn with_vmas(w: World, vmas: Seq<VMArea>) -> World {
    World { vmas, ..w }
}

/// The VMA that contains the address: of those that start at or below it only
/// the last one can.
pub open spec fn find(s: Seq<VMArea>, addr: int) -> Option<VMArea> {
    let r = rank(s, addr + 1);
    if r > 0 && s[r - 1].region.has(addr) {
        Some(s[r - 1])
    } else {
        None
    }
}

/// Whether no VMA is in the way of the region.
pub open spec fn is_free(s: Seq<VMArea>, region: VirtMemoryRegion) -> bool {
    let at_or_below = rank(s, region.start() + 1);
    let above = rank(s, region.start());
    &&& !(at_or_below > 0 && s[at_or_below - 1].end() > region.start())
    &&& !(above < s.len() && s[above].start() < region.end())
}

/// Where the highest gap of `len` bytes below `top` ends, searching downwards
/// from VMA to VMA; the room for the mapping is the `len` bytes below that.
pub open spec fn gap_end(s: Seq<VMArea>, top: int, len: int) -> Option<int>
    decreases s.len(),
{
    if s.len() == 0 {
        if top >= len {
            Some(top)
        } else {
            None
        }
    } else if top - s.last().end() >= len && top >= s.last().end() {
        Some(top)
    } else {
        gap_end(s.drop_last(), imin(top, s.last().start()), len)
    }
}

/// The region for a mapping of `len` bytes at no particular address.
pub open spec fn free_region(s: Seq<VMArea>, base: int, len: int) -> Option<VirtMemoryRegion> {
    match gap_end(s, base, len) {
        Some(end) => Some(VirtMemoryRegion::between(end - len, end)),
        None => None,
    }
}

/// The VMAs that a change of the region affects, in order: the one that reaches
/// into it from below, and those that start within it.
pub open spec fn affected(s: Seq<VMArea>, region: VirtMemoryRegion) -> Seq<VMArea> {
    let within = rank(s, region.start());
    let first = if within > 0 && s[within - 1].end() > region.start() {
        within - 1
    } else {
        within
    };
    s.subrange(first, rank(s, region.end()))
}

/// What the address space is asked for where `region` takes the place of a part
/// of `old`: nothing where they do not meet. File contents are always unmapped.
/// Anonymous contents stay when anonymous memory takes their place, and get its
/// permissions if those differ.
pub open spec fn fixup_call(
    region: VirtMemoryRegion,
    old: VMArea,
    new: Option<VMArea>,
) -> Option<Call> {
    match region.common(old.region) {
        None => None,
        Some(part) => match new {
            None => Some(Call::UnmapRange(part)),
            Some(new) => if old.kind is File || new.kind is File {
                Some(Call::UnmapRange(part))
            } else if new.permissions != old.permissions {
                Some(Call::ProtectRange(part, PtePermissions::of_vma(new.permissions)))
            } else {
                None
            },
        },
    }
}

/// What is left of a VMA below the region.
pub open spec fn left_part(vma: VMArea, region: VirtMemoryRegion) -> VMArea {
    vma.shrunk(VirtMemoryRegion::between(vma.start(), region.start()))
}

/// What is left of a VMA above the region.
pub open spec fn right_part(vma: VMArea, region: VirtMemoryRegion) -> VMArea {
    vma.shrunk(VirtMemoryRegion::between(region.end(), vma.end()))
}

/// Puts in what is left of a VMA outside the region.
#[verifier::opaque]
pub open spec fn put_parts(s: Seq<VMArea>, vma: VMArea, region: VirtMemoryRegion) -> Seq<VMArea> {
    if vma.start() < region.start() && vma.end() > region.end() {
        put(put(s, left_part(vma, region)), right_part(vma, region))
    } else if vma.start() < region.start() {
        put(s, left_part(vma, region))
    } else if vma.end() > region.end() {
        put(s, right_part(vma, region))
    } else {
        s
    }
}

/// Replaces a VMA by what is left of it outside the region.
pub open spec fn carve(s: Seq<VMArea>, vma: VMArea, region: VirtMemoryRegion) -> Seq<VMArea> {
    put_parts(cut(s, vma.start()), vma, region)
}

/// Deals with one affected VMA, when `freed` have been unmapped before it. Where
/// the address space fails, the VMA is gone.
pub open spec fn carve_one(
    w: World,
    vma: VMArea,
    region: VirtMemoryRegion,
    new: Option<VMArea>,
    freed: Seq<PageFrame>,
    o: Seq<Reply>,
) -> (World, Result<Seq<PageFrame>>) {
    match fixup_call(region, vma, new) {
        None => (with_vmas(w, carve(w.vmas, vma, region)), Ok(freed)),
        Some(call) => {
            let w1 = ask(w, call, o);
            match answer(w1) {
                Reply::Failed(e) => (with_vmas(w1, cut(w.vmas, vma.start())), Err(e)),
                reply => (with_vmas(w1, carve(w.vmas, vma, region)), Ok(freed + yielded(reply))),
            }
        },
    }
}

/// Deals with the affected VMAs one by one, up to the first failure.
pub open spec fn carve_all(
    w: World,
    vmas: Seq<VMArea>,
    region: VirtMemoryRegion,
    new: Option<VMArea>,
    o: Seq<Reply>,
) -> (World, Result<Seq<PageFrame>>)
    decreases vmas.len(),
{
    if vmas.len() == 0 {
        (w, Ok(Seq::empty()))
    } else {
        let (w1, r) = carve_all(w, vmas.drop_last(), region, new, o);
        match r {
            Err(e) => (w1, Err(e)),
            Ok(freed) => carve_one(w1, vmas.last(), region, new, freed, o),
        }
    }
}

/// Makes a hole in the address space.
pub open spec fn unmap(
    w: World,
    region: VirtMemoryRegion,
    new: Option<VMArea>,
    o: Seq<Reply>,
) -> (World, Result<Seq<PageFrame>>) {
    carve_all(w, affected(w.vmas, region), region, new, o)
}

/// Unmaps all pages that the range touches.
pub open spec fn munmapped(
    w: World,
    range: VirtMemoryRegion,
    o: Seq<Reply>,
) -> (World, Result<Seq<PageFrame>>) {
    if range.start() % PAGE_SIZE as int != 0 || range.len() == 0 {
        (w, Err(KernelError::InvalidValue))
    } else {
        let pages = VirtMemoryRegion::between(
            range.start(),
            aligned_up(range.end(), PAGE_SIZE as int),
        );
        unmap(w, pages, None, o)
    }
}

/// Whether the VMA that starts where `vma` ends continues it.
pub open spec fn joins_next(s: Seq<VMArea>, vma: VMArea) -> bool {
    has_key(s, vma.end()) && vma.mergeable(s[rank(s, vma.end())])
}

/// Merges `vma` with the VMA after it.
pub open spec fn join_next(s: Seq<VMArea>, vma: VMArea) -> (Seq<VMArea>, VMArea) {
    if joins_next(s, vma) {
        (cut(s, vma.end()), vma.joined(s[rank(s, vma.end())]))
    } else {
        (s, vma)
    }
}

/// Whether `vma` continues the VMA before it.
pub open spec fn joins_prev(s: Seq<VMArea>, vma: VMArea) -> bool {
    let r = rank(s, vma.start());
    r > 0 && s[r - 1].end() == vma.start() && s[r - 1].mergeable(vma)
}

/// Puts in a VMA, merged with the VMAs next to it where they are compatible.
#[verifier::opaque]
pub open spec fn merge(s: Seq<VMArea>, vma: VMArea) -> Seq<VMArea> {
    let (s1, vma1) = join_next(s, vma);
    if joins_prev(s1, vma1) {
        let r = rank(s1, vma1.start());
        s1.update(r - 1, s1[r - 1].joined(vma1))
    } else {
        put(s1, vma1)
    }
}

/// Puts in a VMA in place of what was mapped in its region. Failures of the
/// address space end the clearing of the region early.
#[verifier::opaque]
pub open spec fn insert(w: World, vma: VMArea, o: Seq<Reply>) -> World {
    let (w1, _) = unmap(w, vma.region, Some(vma), o);
    with_vmas(w1, merge(w1.vmas, vma))
}

/// The region that a request for `len` bytes gets.
pub open spec fn choose_region(
    s: Seq<VMArea>,
    request: AddressRequest,
    base: int,
    len: int,
) -> Result<VirtMemoryRegion> {
    match request {
        AddressRequest::Any => match free_region(s, base, len) {
            Some(region) => Ok(region),
            None => Err(KernelError::NoMemory),
        },
        AddressRequest::Hint(address) => {
            let start = aligned_down(address.addr() as int, PAGE_SIZE as int);
            let region = VirtMemoryRegion::between(start, start + len);
            if is_free(s, region) {
                Ok(region)
            } else {
                match free_region(s, base, len) {
                    Some(region) => Ok(region),
                    None => Err(KernelError::NoMemory),
                }
            }
        },
        AddressRequest::Fixed { address, permit_overlap } => {
            let start = address.addr() as int;
            let region = VirtMemoryRegion::between(start, start + len);
            if start % PAGE_SIZE as int != 0 || (!permit_overlap && !is_free(s, region)) {
                Err(KernelError::InvalidValue)
            } else {
                Ok(region)
            }
        },
    }
}

/// Maps a region of memory.
pub open spec fn map_region(
    w: World,
    request: AddressRequest,
    base: int,
    len: int,
    perms: VMAPermissions,
    kind: VMAreaKind,
    name: String,
    o: Seq<Reply>,
) -> (World, Result<VA>) {
    if len == 0 {
        (w, Err(KernelError::InvalidValue))
    } else {
        match choose_region(w.vmas, request, base, aligned_up(len, PAGE_SIZE as int)) {
            Err(e) => (w, Err(e)),
            Ok(region) => (
                insert(w, VMArea { region, kind, permissions: perms, name }, o),
                Ok(VA::at(region.start() as usize)),
            ),
        }
    }
}

/// Asks for other permissions of a range.
pub open spec fn ask_protect(
    w: World,
    region: VirtMemoryRegion,
    perms: VMAPermissions,
    o: Seq<Reply>,
) -> World {
    ask(w, Call::ProtectRange(region, PtePermissions::of_vma(perms)), o)
}

/// Puts in what a VMA holds at `part`, if there is such a part.
pub open spec fn insert_part(
    w: World,
    vma: VMArea,
    part: Option<VirtMemoryRegion>,
    o: Seq<Reply>,
) -> World {
    match part {
        Some(part) => insert(w, vma.shrunk(part), o),
        None => w,
    }
}

/// Changes the permissions of a whole VMA, which has been taken out.
pub open spec fn protect_whole(
    w: World,
    vma: VMArea,
    perms: VMAPermissions,
    o: Seq<Reply>,
) -> (World, Result<()>) {
    let w1 = ask_protect(insert(w, vma.permitting(perms), o), vma.region, perms, o);
    match answer(w1) {
        Reply::Failed(e) => (w1, Err(e)),
        _ => (w1, Ok(())),
    }
}

/// Changes the permissions of a part of a VMA, which has been taken out: what is
/// below, the part and what is above become VMAs of their own.
pub open spec fn protect_part(
    w: World,
    vma: VMArea,
    region: VirtMemoryRegion,
    perms: VMAPermissions,
    o: Seq<Reply>,
) -> (World, Result<()>) {
    let w1 = ask_protect(
        insert_part(w, vma, vma.region.left_of(region), o),
        region,
        perms,
        o,
    );
    match answer(w1) {
        Reply::Failed(e) => (w1, Err(e)),
        _ => {
            let w2 = insert(w1, vma.shrunk(region).permitting(perms), o);
            (insert_part(w2, vma, vma.region.right_of(region), o), Ok(()))
        },
    }
}

/// Changes the permissions of a region, which has to lie in one VMA. A VMA that the
/// region starts in and leaves is taken out of the map.
pub open spec fn protect(
    w: World,
    region: VirtMemoryRegion,
    perms: VMAPermissions,
    o: Seq<Reply>,
) -> (World, Result<()>) {
    if region.start() % PAGE_SIZE as int != 0 || region.len() == 0 {
        (w, Err(KernelError::InvalidValue))
    } else {
        match find(w.vmas, region.start()) {
            None => (w, Err(KernelError::NoMemory)),
            Some(vma) => {
                let w0 = with_vmas(w, cut(w.vmas, vma.start()));
                if vma.region == region {
                    protect_whole(w0, vma, perms, o)
                } else if vma.region.covers(region) {
                    protect_part(w0, vma, region, perms, o)
                } else {
                    (w0, Err(KernelError::NoMemory))
                }
            },
        }
    }
}

/// What is left of `vma` below the region, if anything, merged in.
pub open spec fn merge_below(s: Seq<VMArea>, vma: VMArea, region: VirtMemoryRegion) -> Seq<VMArea> {
    if vma.start() < region.start() {
        merge(s, vma.shrunk(VirtMemoryRegion::between(vma.start(), region.start())))
    } else {
        s
    }
}

/// What is left of `vma` above the region, if anything, merged in.
pub open spec fn merge_above(s: Seq<VMArea>, vma: VMArea, region: VirtMemoryRegion) -> Seq<VMArea> {
    if region.end() < vma.end() {
        merge(s, vma.shrunk(VirtMemoryRegion::between(region.end(), vma.end())))
    } else {
        s
    }
}

/// Shrinks the part `old` of `vma` to its first `len` bytes.
#[verifier::opaque]
pub open spec fn shrink(
    w: World,
    vma: VMArea,
    old: VirtMemoryRegion,
    len: int,
    o: Seq<Reply>,
) -> (World, Result<Seq<PageFrame>>) {
    let kept = VirtMemoryRegion::between(old.start(), old.start() + len);
    let w1 = ask(w, Call::UnmapRange(VirtMemoryRegion::between(kept.end(), old.end())), o);
    match answer(w1) {
        Reply::Failed(e) => (w1, Err(e)),
        reply => {
            let s0 = cut(w.vmas, vma.start());
            let s1 = merge(merge_below(s0, vma, old), vma.shrunk(kept));
            (with_vmas(w1, merge_above(s1, vma, old)), Ok(yielded(reply)))
        },
    }
}

/// Whether the part of `vma` from `start` on can be `len` bytes long.
pub open spec fn can_grow(s: Seq<VMArea>, vma: VMArea, start: int, len: int) -> bool {
    start + len <= vma.end() || is_free(s, VirtMemoryRegion::between(vma.end(), start + len))
}

/// Makes the part of `vma` from `start` on `len` bytes long.
#[verifier::opaque]
pub open spec fn grow(s: Seq<VMArea>, vma: VMArea, start: int, len: int) -> Seq<VMArea> {
    if start + len <= vma.end() {
        s
    } else {
        merge(
            cut(s, vma.start()),
            vma.on(VirtMemoryRegion::between(vma.start(), start + len)),
        )
    }
}

/// The VMA on another region. File data is cut to the size of the region.
pub open spec fn relocated(vma: VMArea, region: VirtMemoryRegion) -> VMArea {
    VMArea {
        region,
        kind: match vma.kind {
            VMAreaKind::Anon => VMAreaKind::Anon,
            VMAreaKind::File(m) => VMAreaKind::File(
                VMFileMapping { len: imin(m.len as int, region.len()) as u64, ..m },
            ),
        },
        ..vma
    }
}

/// Unmaps the first `n` of the pages, whatever the address space replies.
pub open spec fn undo(w: World, pages: Seq<VA>, n: int, o: Seq<Reply>) -> World
    decreases n,
{
    if n <= 0 {
        w
    } else {
        ask(undo(w, pages, n - 1, o), Call::Unmap(pages[n - 1]), o)
    }
}

/// Looks up each of the first `n` old pages, maps what is found there at the new page
/// too, and gives the new pages that got mapped. Where that fails, it is undone.
#[verifier::opaque]
pub open spec fn copy_pages(
    w: World,
    old_pages: Seq<VA>,
    new_pages: Seq<VA>,
    n: int,
    o: Seq<Reply>,
) -> (World, Result<Seq<VA>>)
    decreases n,
{
    if n <= 0 {
        (w, Ok(Seq::empty()))
    } else {
        let (w1, r) = copy_pages(w, old_pages, new_pages, n - 1, o);
        match r {
            Err(e) => (w1, Err(e)),
            Ok(mapped) => {
                let w2 = ask(w1, Call::Translate(old_pages[n - 1]), o);
                match answer(w2) {
                    Reply::Found(Some(info)) => {
                        let w3 = ask(w2, Call::MapPage(info.pfn, new_pages[n - 1], info.perms), o);
                        match answer(w3) {
                            Reply::Failed(e) => (undo(w3, mapped, mapped.len() as int, o), Err(e)),
                            _ => (w3, Ok(mapped.push(new_pages[n - 1]))),
                        }
                    },
                    _ => (w2, Ok(mapped)),
                }
            },
        }
    }
}

/// The start addresses of the first `n` pages from `start` on.
pub open spec fn page_run(start: int, n: int) -> Seq<VA> {
    Seq::new(n as nat, |i: int| VA::at((start + i * PAGE_SIZE) as usize))
}

/// The number of bytes that a move keeps.
pub open spec fn kept_len(old: VirtMemoryRegion, new: VirtMemoryRegion) -> int {
    imin(old.len(), new.len())
}

/// Moves the pages of `old` to `new`, as far as they fit, and unmaps the rest of
/// `old`; gives the frames of the rest.
pub open spec fn move_pages(
    w: World,
    old: VirtMemoryRegion,
    new: VirtMemoryRegion,
    o: Seq<Reply>,
) -> (World, Result<Seq<PageFrame>>) {
    let kept = kept_len(old, new);
    let n = kept / PAGE_SIZE as int;
    let (w1, r) = copy_pages(w, page_run(old.start(), n), page_run(new.start(), n), n, o);
    match r {
        Err(e) => (w1, Err(e)),
        Ok(_) => {
            let w2 = ask(
                w1,
                Call::UnmapRange(VirtMemoryRegion::between(old.start(), old.start() + kept)),
                o,
            );
            match answer(w2) {
                Reply::Failed(e) => (w2, Err(e)),
                _ => if old.len() > kept {
                    let w3 = ask(
                        w2,
                        Call::UnmapRange(VirtMemoryRegion::between(old.start() + kept, old.end())),
                        o,
                    );
                    match answer(w3) {
                        Reply::Failed(e) => (w3, Err(e)),
                        reply => (w3, Ok(yielded(reply))),
                    }
                } else {
                    (w2, Ok(Seq::empty()))
                },
            }
        },
    }
}

/// The VMAs once the part `old` of `vma` has moved to `new`.
pub open spec fn moved(
    s: Seq<VMArea>,
    vma: VMArea,
    old: VirtMemoryRegion,
    new: VirtMemoryRegion,
) -> Seq<VMArea> {
    let s1 = merge_above(merge_below(cut(s, vma.start()), vma, old), vma, old);
    merge(s1, relocated(vma.shrunk(old), new))
}

/// Clears the target of a move, if `clobber`.
pub open spec fn cleared(
    w: World,
    new: VirtMemoryRegion,
    clobber: bool,
    o: Seq<Reply>,
) -> (World, Result<Seq<PageFrame>>) {
    if clobber {
        unmap(w, new, None, o)
    } else {
        (w, Ok(Seq::empty()))
    }
}

/// Moves the part `old` of `vma` to `new`, after clearing `new` if `clobber`.
#[verifier::opaque]
pub open spec fn move_mapping(
    w: World,
    vma: VMArea,
    old: VirtMemoryRegion,
    new: VirtMemoryRegion,
    clobber: bool,
    o: Seq<Reply>,
) -> (World, Result<Seq<PageFrame>>) {
    let (w1, r) = cleared(w, new, clobber, o);
    match r {
        Err(e) => (w1, Err(e)),
        Ok(freed) => {
            let (w2, r) = move_pages(w1, old, new, o);
            match r {
                Err(e) => (w2, Err(e)),
                Ok(rest) => (with_vmas(w2, moved(w2.vmas, vma, old, new)), Ok(freed + rest)),
            }
        },
    }
}

/// What a remap request comes down to.
pub ghost enum RemapPlan {
    /// The request is refused.
    Refuse(KernelError),
    /// Nothing changes.
    Keep,
    /// The mapping is shortened.
    Shrink,
    /// The mapping is extended where it is.
    Grow,
    /// The mapping moves. The target is cleared first if the flag is set.
    Move(VirtMemoryRegion, bool),
}

/// Decides what to do on a remap request of `old_len` bytes at `old_addr` to
/// `new_len` bytes; the lengths are whole pages. The VMA is the one at
/// `old_addr`.
pub open spec fn remap_plan(
    s: Seq<VMArea>,
    vma: VMArea,
    old_addr: int,
    old_len: int,
    new_len: int,
    destination: RemapDestination,
    base: int,
) -> RemapPlan {
    let old = VirtMemoryRegion::between(old_addr, old_addr + old_len);
    if old.end() > vma.end() {
        RemapPlan::Refuse(KernelError::Fault)
    } else {
        match destination {
            RemapDestination::Fixed(new_addr) => {
                let new = VirtMemoryRegion::between(
                    new_addr.addr() as int,
                    new_addr.addr() + new_len,
                );
                if new_addr.addr() % PAGE_SIZE != 0 || new.meets(old) || new.meets(vma.region) {
                    RemapPlan::Refuse(KernelError::InvalidValue)
                } else {
                    RemapPlan::Move(new, true)
                }
            },
            _ => if old_len == new_len {
                RemapPlan::Keep
            } else if new_len < old_len {
                RemapPlan::Shrink
            } else if can_grow(s, vma, old_addr, new_len) {
                RemapPlan::Grow
            } else if destination is InPlaceOnly {
                RemapPlan::Refuse(KernelError::NoMemory)
            } else {
                match free_region(s, base, new_len) {
                    None => RemapPlan::Refuse(KernelError::NoMemory),
                    Some(new) => RemapPlan::Move(new, false),
                }
            },
        }
    }
}

/// Carries out a plan.
pub open spec fn remap_by(
    w: World,
    vma: VMArea,
    old: VirtMemoryRegion,
    new_len: int,
    plan: RemapPlan,
    o: Seq<Reply>,
) -> (World, Result<(VA, Seq<PageFrame>)>) {
    let here = VA::at(old.start() as usize);
    match plan {
        RemapPlan::Refuse(e) => (w, Err(e)),
        RemapPlan::Keep => (w, Ok((here, Seq::empty()))),
        RemapPlan::Shrink => {
            let (w1, r) = shrink(w, vma, old, new_len, o);
            match r {
                Err(e) => (w1, Err(e)),
                Ok(p) => (w1, Ok((here, p))),
            }
        },
        RemapPlan::Grow => (
            with_vmas(w, grow(w.vmas, vma, old.start(), new_len)),
            Ok((here, Seq::empty())),
        ),
        RemapPlan::Move(new, clobber) => {
            let (w1, r) = move_mapping(w, vma, old, new, clobber, o);
            match r {
                Err(e) => (w1, Err(e)),
                Ok(p) => (w1, Ok((VA::at(new.start() as usize), p))),
            }
        },
    }
}

/// Shares each of the first `n` VMAs with a new address space: all that are
/// writable become copy-on-write.
pub open spec fn share(w: World, n: int, o: Seq<Reply>) -> (World, Result<()>)
    decreases n,
{
    if n <= 0 {
        (w, Ok(()))
    } else {
        let (w1, r) = share(w, n - 1, o);
        match r {
            Err(e) => (w1, Err(e)),
            Ok(_) => {
                let w2 = ask(
                    w1,
                    Call::ShareRange(w.vmas[n - 1].region, shared_perms(w.vmas[n - 1].permissions)),
                    o,
                );
                match answer(w2) {
                    Reply::Failed(e) => (w2, Err(e)),
                    _ => (w2, Ok(())),
                }
            },
        }
    }
}

/// What cloning a memory map comes to, where `made` is what came of creating the new
/// address space, and `r` is the state of the clone. If there is no new address space,
/// nothing has changed. Otherwise all VMAs are shared, or that failed.
pub open spec fn cow_cloned<AS>(
    w: World,
    made: Result<AS>,
    after: World,
    r: Result<World>,
) -> bool {
    match made {
        Err(e) => after == w && r == Err::<World, KernelError>(e),
        Ok(_) => {
            let (shared, outcome) = share(w, w.vmas.len() as int, replies(after.log));
            &&& after == shared
            &&& r == (match outcome {
                Ok(_) => Ok(
                    World { vmas: w.vmas, log: shared.log.skip(w.log.len() as int) },
                ),
                Err(e) => Err(e),
            })
        },
    }
}

/// The permissions of a shared page.
pub open spec fn shared_perms(perms: VMAPermissions) -> PtePermissions {
    if perms.write {
        PtePermissions::of_vma(perms).as_cow()
    } else {
        PtePermissions::of_vma(perms)
    }
}

/// The VMAs of a list, of which later ones replace earlier ones with the same
/// start.
pub open spec fn put_all(vmas: Seq<VMArea>) -> Seq<VMArea>
    decreases vmas.len(),
{
    if vmas.len() == 0 {
        Seq::empty()
    } else {
        put(put_all(vmas.drop_last()), vmas.last())
    }
}

} // verus!
