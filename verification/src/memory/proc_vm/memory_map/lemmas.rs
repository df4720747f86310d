//! Facts about the model of a memory map.
use vstd::prelude::*;

use crate::memory::proc_vm::address_space::{Call, Reply, Step};
use crate::memory::proc_vm::memory_map::model::{
    affected, answer, ask, carve_all, copy_pages, insert, join_next, joins_next,
    joins_prev, left_part, merge, replies, right_part, share, undo, World,
};
use crate::memory::proc_vm::memory_map::table::{
    all_wf, lemma_cut, lemma_put, lemma_rank, rank, sorted,
};
use crate::memory::proc_vm::vmarea::VMArea;
use crate::memory::region::VirtMemoryRegion;
use crate::memory::PAGE_SIZE;
use crate::memory::address::VA;

verus! {

/// `a` is the beginning of `b`.
pub open spec fn extends(a: Seq<Step>, b: Seq<Step>) -> bool {
    &&& a.len() <= b.len()
    &&& forall|i: int| 0 <= i < a.len() ==> #[trigger] b[i] == a[i]
}

/// The first `n` replies are the same.
pub open spec fn agree(o1: Seq<Reply>, o2: Seq<Reply>, n: nat) -> bool {
    forall|i: int| 0 <= i < n ==> #[trigger] o1[i] == o2[i]
}

/// A region of whole pages.
pub open spec fn paged(region: VirtMemoryRegion) -> bool {
    &&& region.fits()
    &&& region.start() % PAGE_SIZE as int == 0
    &&& region.len() % PAGE_SIZE as int == 0
}

/// A longer log begins with the same replies.
pub proof fn lemma_replies(a: Seq<Step>, b: Seq<Step>)
    requires
        extends(a, b),
    ensures
        agree(replies(a), replies(b), a.len()),
{
}

/// Carving needs only the replies to its own steps.
pub proof fn lemma_carve_all_local(
    w: World,
    vmas: Seq<VMArea>,
    region: VirtMemoryRegion,
    new: Option<VMArea>,
    o1: Seq<Reply>,
    o2: Seq<Reply>,
)
    requires
        agree(o1, o2, carve_all(w, vmas, region, new, o1).0.log.len()),
    ensures
        carve_all(w, vmas, region, new, o2) == carve_all(w, vmas, region, new, o1),
        extends(w.log, carve_all(w, vmas, region, new, o1).0.log),
    decreases vmas.len(),
{
    if vmas.len() > 0 {
        lemma_carve_all_local(w, vmas.drop_last(), region, new, o1, o2);
    }
}

/// Carving only adds to the log.
pub proof fn lemma_carve_all_extends(
    w: World,
    vmas: Seq<VMArea>,
    region: VirtMemoryRegion,
    new: Option<VMArea>,
    o: Seq<Reply>,
)
    ensures
        extends(w.log, carve_all(w, vmas, region, new, o).0.log),
{
    lemma_carve_all_local(w, vmas, region, new, o, o);
}

/// A failure ends the carving.
pub proof fn lemma_carve_all_fails(
    w: World,
    vmas: Seq<VMArea>,
    n: int,
    region: VirtMemoryRegion,
    new: Option<VMArea>,
    o: Seq<Reply>,
)
    requires
        0 <= n <= vmas.len(),
        carve_all(w, vmas.take(n), region, new, o).1 is Err,
    ensures
        carve_all(w, vmas, region, new, o) == carve_all(w, vmas.take(n), region, new, o),
    decreases vmas.len() - n,
{
    if n < vmas.len() {
        let t = vmas.take(n + 1);
        assert(t.drop_last() =~= vmas.take(n));
        lemma_carve_all_fails(w, vmas, n + 1, region, new, o);
    } else {
        assert(vmas.take(n) =~= vmas);
    }
}

/// Putting in needs only the replies to its own steps.
pub proof fn lemma_insert_local(w: World, vma: VMArea, o1: Seq<Reply>, o2: Seq<Reply>)
    requires
        agree(o1, o2, insert(w, vma, o1).log.len()),
    ensures
        insert(w, vma, o2) == insert(w, vma, o1),
        extends(w.log, insert(w, vma, o1).log),
{
    reveal(insert);
    lemma_carve_all_local(w, affected(w.vmas, vma.region), vma.region, Some(vma), o1, o2);
}

/// Copying only adds to the log, and needs only the replies to its own steps.
pub proof fn lemma_undo_local(w: World, pages: Seq<VA>, n: int, o1: Seq<Reply>, o2: Seq<Reply>)
    requires
        agree(o1, o2, undo(w, pages, n, o1).log.len()),
    ensures
        undo(w, pages, n, o2) == undo(w, pages, n, o1),
        extends(w.log, undo(w, pages, n, o1).log),
        undo(w, pages, n, o1).vmas == w.vmas,
    decreases n,
{
    if n > 0 {
        lemma_undo_local(w, pages, n - 1, o1, o2);
    }
}

/// Copying only adds to the log, and needs only the replies to its own steps.
pub proof fn lemma_copy_pages_local(
    w: World,
    old_pages: Seq<VA>,
    new_pages: Seq<VA>,
    n: int,
    o1: Seq<Reply>,
    o2: Seq<Reply>,
)
    requires
        agree(o1, o2, copy_pages(w, old_pages, new_pages, n, o1).0.log.len()),
    ensures
        copy_pages(w, old_pages, new_pages, n, o2) == copy_pages(w, old_pages, new_pages, n, o1),
        extends(w.log, copy_pages(w, old_pages, new_pages, n, o1).0.log),
    decreases n,
{
    reveal(copy_pages);
    if n > 0 {
        let (w1, r) = copy_pages(w, old_pages, new_pages, n - 1, o1);
        if r is Ok {
            let w2 = ask(w1, Call::Translate(old_pages[n - 1]), o1);
            if let Reply::Found(Some(info)) = answer(w2) {
                let w3 = ask(w2, Call::MapPage(info.pfn, new_pages[n - 1], info.perms), o1);
                if answer(w3) is Failed {
                    let mapped = r->Ok_0;
                    lemma_undo_extends(w3, mapped, mapped.len() as int, o1);
                    lemma_undo_local(w3, mapped, mapped.len() as int, o1, o2);
                }
            }
        }
        lemma_copy_pages_local(w, old_pages, new_pages, n - 1, o1, o2);
    }
}

/// Undoing only adds to the log.
pub proof fn lemma_undo_extends(w: World, pages: Seq<VA>, n: int, o: Seq<Reply>)
    ensures
        extends(w.log, undo(w, pages, n, o).log),
        undo(w, pages, n, o).vmas == w.vmas,
{
    lemma_undo_local(w, pages, n, o, o);
}

/// Copying more pages only adds to the log.
pub proof fn lemma_copy_pages_extends(
    w: World,
    old_pages: Seq<VA>,
    new_pages: Seq<VA>,
    n: int,
    o: Seq<Reply>,
)
    ensures
        extends(w.log, copy_pages(w, old_pages, new_pages, n, o).0.log),
        copy_pages(w, old_pages, new_pages, n, o).0.vmas == w.vmas,
    decreases n,
{
    reveal(copy_pages);
    lemma_copy_pages_local(w, old_pages, new_pages, n, o, o);
    if n > 0 {
        lemma_copy_pages_extends(w, old_pages, new_pages, n - 1, o);
        let (w1, r) = copy_pages(w, old_pages, new_pages, n - 1, o);
        if r is Ok {
            let w2 = ask(w1, Call::Translate(old_pages[n - 1]), o);
            if let Reply::Found(Some(info)) = answer(w2) {
                let w3 = ask(w2, Call::MapPage(info.pfn, new_pages[n - 1], info.perms), o);
                let mapped = r->Ok_0;
                lemma_undo_extends(w3, mapped, mapped.len() as int, o);
            }
        }
    }
}

/// A failure ends the copying.
pub proof fn lemma_copy_pages_fails(
    w: World,
    old_pages: Seq<VA>,
    new_pages: Seq<VA>,
    n: int,
    m: int,
    o: Seq<Reply>,
)
    requires
        0 <= n <= m,
        copy_pages(w, old_pages, new_pages, n, o).1 is Err,
    ensures
        copy_pages(w, old_pages, new_pages, m, o) == copy_pages(w, old_pages, new_pages, n, o),
    decreases m - n,
{
    reveal(copy_pages);
    if n < m {
        lemma_copy_pages_fails(w, old_pages, new_pages, n, m - 1, o);
    }
}

/// Sharing only adds to the log, and needs only the replies to its own steps.
pub proof fn lemma_share_local(w: World, n: int, o1: Seq<Reply>, o2: Seq<Reply>)
    requires
        agree(o1, o2, share(w, n, o1).0.log.len()),
    ensures
        share(w, n, o2) == share(w, n, o1),
        extends(w.log, share(w, n, o1).0.log),
        share(w, n, o1).0.vmas == w.vmas,
    decreases n,
{
    if n > 0 {
        lemma_share_local(w, n - 1, o1, o2);
    }
}

/// A failure ends the sharing.
pub proof fn lemma_share_fails(w: World, n: int, m: int, o: Seq<Reply>)
    requires
        0 <= n <= m,
        share(w, n, o).1 is Err,
    ensures
        share(w, m, o) == share(w, n, o),
    decreases m - n,
{
    if n < m {
        lemma_share_fails(w, n, m - 1, o);
    }
}

/// The parts that are left of a VMA are well-formed.
pub proof fn lemma_parts(vma: VMArea, region: VirtMemoryRegion)
    requires
        vma.wf(),
        paged(region),
    ensures
        vma.start() < region.start() < vma.end() ==> left_part(vma, region).wf(),
        vma.start() <= region.end() < vma.end() ==> right_part(vma, region).wf(),
{
}

/// The affected VMAs are VMAs of the table that meet the region, or are empty and
/// start in it.
pub proof fn lemma_affected(s: Seq<VMArea>, region: VirtMemoryRegion, i: int)
    requires
        sorted(s),
        all_wf(s),
        region.fits(),
        0 <= i < affected(s, region).len(),
    ensures
        ({
            let v = affected(s, region)[i];
            &&& v.wf()
            &&& v.start() < region.start() ==> v.end() > region.start()
            &&& v.start() >= region.start() ==> v.start() < region.end()
        }),
{
    lemma_rank(s, region.start());
    lemma_rank(s, region.end());
    let within = rank(s, region.start());
    let first = if within > 0 && s[within - 1].end() > region.start() {
        within - 1
    } else {
        within
    };
    assert(affected(s, region)[i] == s[first + i]);
}

/// Two adjacent VMAs that can be merged make up a well-formed one.
pub proof fn lemma_joined(low: VMArea, high: VMArea)
    requires
        low.wf(),
        high.wf(),
        low.end() == high.start(),
        low.mergeable(high),
    ensures
        low.joined(high).wf(),
        low.joined(high).start() == low.start(),
        low.joined(high).end() == high.end(),
{
}

/// Merging in a VMA keeps the table a table.
pub proof fn lemma_merge(s: Seq<VMArea>, vma: VMArea)
    requires
        sorted(s),
        all_wf(s),
        vma.wf(),
    ensures
        sorted(merge(s, vma)),
        all_wf(merge(s, vma)),
{
    reveal(merge);
    let (s1, v1) = join_next(s, vma);
    lemma_rank(s, vma.end());
    if joins_next(s, vma) {
        lemma_joined(vma, s[rank(s, vma.end())]);
        lemma_cut(s, vma.end());
    }
    assert(sorted(s1) && all_wf(s1) && v1.wf());
    lemma_rank(s1, v1.start());
    if joins_prev(s1, v1) {
        let r = rank(s1, v1.start());
        lemma_joined(s1[r - 1], v1);
        let t = s1.update(r - 1, s1[r - 1].joined(v1));
        assert forall|i: int, j: int| 0 <= i < j < t.len() implies #[trigger] t[i].start()
            < #[trigger] t[j].start() by {
            assert(s1[i].start() < s1[j].start());
        }
    } else {
        lemma_put(s1, v1);
    }
}

} // verus!
