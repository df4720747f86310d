//! What resizing and moving mappings comes to, page by page and address by address.
use vstd::prelude::*;

use crate::error::KernelError;
use crate::memory::address::{aligned_up, aligned_up_is_ceiling, VA};
use crate::memory::page::PageFrame;
use crate::memory::proc_vm::address_space::{Call, Reply, Step};
use crate::memory::proc_vm::memory_map::laws::{
    clear_of, holds, lemma_disjoint, lemma_find, lemma_find_held, tidy,
};
use crate::memory::proc_vm::memory_map::lemmas::{
    extends, lemma_copy_pages_extends, lemma_undo_extends, paged,
};
use crate::memory::proc_vm::memory_map::model::{
    answer, ask, can_grow, cleared, copy_pages, find, free_region, is_free, kept_len, move_mapping,
    move_pages, page_run, shrink, undo, World,
};
use crate::memory::proc_vm::memory_map::remap::{remap_in_range, remapped};
use crate::memory::proc_vm::memory_map::remap_laws::{
    contents_at, contents_of, grow_maps_the_end, move_relocates_the_region, moved_contents,
    perms_at, shrink_unmaps_the_end,
};
use crate::memory::proc_vm::memory_map::request_laws::{
    highest_free, lemma_found_region, lemma_free_is_clear, no_room,
};
use crate::memory::proc_vm::memory_map::step_laws::{
    all_done, frames_of, in_step, new_steps, unmapping_asks_for_what_it_takes,
};
use crate::memory::proc_vm::memory_map::{
    lemma_mmap_base_aligned, RemapDestination, MMAP_BASE,
};
use crate::memory::proc_vm::vmarea::{VMArea, VMAreaKind};
use crate::memory::region::VirtMemoryRegion;
use crate::memory::PAGE_SIZE;

verus! {

/// A lookup of one of the old pages. If a page frame is found there, the next step maps
/// that frame, with its permissions, at the new page with the same number.
pub open spec fn carries(steps: Seq<Step>, k: int, old_pages: Seq<VA>, new_pages: Seq<VA>) -> bool {
    exists|i: int|
        0 <= i < old_pages.len() && steps[k].call == Call::Translate(#[trigger] old_pages[i])
            && match steps[k].reply {
            Reply::Found(Some(info)) => {
                &&& k + 1 < steps.len()
                &&& steps[k + 1].call == Call::MapPage(info.pfn, new_pages[i], info.perms)
            },
            _ => true,
        }
}

/// A page frame is mapped, which the step before has found.
pub open spec fn is_carried(steps: Seq<Step>, k: int) -> bool {
    &&& steps[k].call is MapPage
    &&& k > 0
    &&& steps[k - 1].call is Translate
    &&& steps[k - 1].reply matches Reply::Found(Some(_))
}

/// The steps look up all old pages, and map the frames found there, with their
/// permissions, at the new pages with the same numbers. They do nothing else.
pub open spec fn all_carried(steps: Seq<Step>, old_pages: Seq<VA>, new_pages: Seq<VA>) -> bool {
    &&& forall|k: int|
        0 <= k < steps.len() ==> #[trigger] carries(steps, k, old_pages, new_pages) || is_carried(
            steps,
            k,
        )
    &&& forall|i: int|
        0 <= i < old_pages.len() ==> exists|k: int|
            0 <= k < steps.len() && (#[trigger] steps[k]).call == Call::Translate(
                #[trigger] old_pages[i],
            )
}

/// The step could not map a page.
pub open spec fn map_failed(step: Step) -> bool {
    step.call is MapPage && step.reply is Failed
}

/// All pages that the steps were to map got mapped.
pub open spec fn all_mapped(steps: Seq<Step>) -> bool {
    forall|k: int| 0 <= k < steps.len() ==> !map_failed(#[trigger] steps[k])
}

/// The step maps a page at the address.
pub open spec fn maps_at(step: Step, va: VA) -> bool {
    match step.call {
        Call::MapPage(_, at, _) => at == va,
        _ => false,
    }
}

/// The step unmaps a page that was mapped before step `f`.
pub open spec fn unmaps_mapped(steps: Seq<Step>, f: int, step: Step) -> bool {
    match step.call {
        Call::Unmap(va) => mapped_before(steps, f, va),
        _ => false,
    }
}

/// A page was mapped before step `f`.
pub open spec fn mapped_before(steps: Seq<Step>, f: int, va: VA) -> bool {
    exists|k: int|
        0 <= k < f && maps_at(#[trigger] steps[k], va)
}

/// The steps after step `f` unmap all pages that were mapped before it, and no others.
pub open spec fn undone_after(steps: Seq<Step>, f: int) -> bool {
    &&& forall|k: int|
        f < k < steps.len() ==> unmaps_mapped(steps, f, #[trigger] steps[k])
    &&& forall|va: VA| #[trigger]
        mapped_before(steps, f, va) ==> exists|k: int|
            f < k < steps.len() && (#[trigger] steps[k]).call == Call::Unmap(va)
}

/// Unmapping pages, one by one.
proof fn lemma_undo_steps(w: World, pages: Seq<VA>, n: int, o: Seq<Reply>)
    requires
        0 <= n <= pages.len(),
    ensures
        ({
            let steps = new_steps(w.log, undo(w, pages, n, o).log);
            &&& steps.len() == n
            &&& forall|k: int| 0 <= k < n ==> (#[trigger] steps[k]).call == Call::Unmap(pages[k])
        }),
    decreases n,
{
    let steps = new_steps(w.log, undo(w, pages, n, o).log);
    lemma_undo_extends(w, pages, n, o);
    if n > 0 {
        lemma_undo_steps(w, pages, n - 1, o);
        lemma_undo_extends(w, pages, n - 1, o);
        let steps1 = new_steps(w.log, undo(w, pages, n - 1, o).log);
        assert(steps =~= steps1.push(undo(w, pages, n, o).log.last()));
    } else {
        assert(steps =~= Seq::empty());
    }
}

/// Copying the first `n` pages.
#[verifier::rlimit(60)]
proof fn lemma_copy_steps(
    w: World,
    old_pages: Seq<VA>,
    new_pages: Seq<VA>,
    n: int,
    o: Seq<Reply>,
)
    requires
        0 <= n <= old_pages.len(),
        old_pages.len() == new_pages.len(),
    ensures
        ({
            let (after, r) = copy_pages(w, old_pages, new_pages, n, o);
            let steps = new_steps(w.log, after.log);
            &&& extends(w.log, after.log)
            &&& match r {
                Ok(mapped) => {
                    &&& all_mapped(steps)
                    &&& all_carried(steps, old_pages.take(n), new_pages.take(n))
                    &&& forall|va: VA| #[trigger]
                        mapped_before(steps, steps.len() as int, va) <==> mapped.contains(va)
                },
                Err(e) => exists|f: int|
                    0 <= f < steps.len() && (#[trigger] steps[f]).call is MapPage && steps[f].reply
                        == Reply::Failed(e) && all_mapped(steps.take(f)) && undone_after(steps, f),
            }
        }),
    decreases n,
{
    reveal(copy_pages);
    lemma_copy_pages_extends(w, old_pages, new_pages, n, o);
    let (after, r) = copy_pages(w, old_pages, new_pages, n, o);
    let steps = new_steps(w.log, after.log);
    let (olds, news) = (old_pages.take(n), new_pages.take(n));
    if n == 0 {
        assert(steps =~= Seq::empty());
        assert forall|va: VA| !#[trigger] mapped_before(steps, steps.len() as int, va) by {}
    } else {
        lemma_copy_steps(w, old_pages, new_pages, n - 1, o);
        lemma_copy_pages_extends(w, old_pages, new_pages, n - 1, o);
        let (w1, r1) = copy_pages(w, old_pages, new_pages, n - 1, o);
        let steps1 = new_steps(w.log, w1.log);
        let (olds1, news1) = (old_pages.take(n - 1), new_pages.take(n - 1));
        assert forall|i: int| 0 <= i < n - 1 implies olds[i] == olds1[i] && news[i] == news1[i] by {}
        if let Ok(mapped) = r1 {
            let m = steps1.len() as int;
            let w2 = ask(w1, Call::Translate(old_pages[n - 1]), o);
            let looked = w2.log.last();
            match answer(w2) {
                Reply::Found(Some(info)) => {
                    let w3 = ask(w2, Call::MapPage(info.pfn, new_pages[n - 1], info.perms), o);
                    let placed = w3.log.last();
                    let steps3 = steps1.push(looked).push(placed);
                    assert(new_steps(w.log, w3.log) =~= steps3);
                    assert forall|k: int| 0 <= k < m implies steps3[k] == #[trigger] steps1[k] by {}
                    assert forall|va: VA| #[trigger]
                        mapped_before(steps3, m + 1, va) <==> mapped.contains(va) by {
                        if mapped_before(steps3, m + 1, va) {
                            let k = choose|k: int|
                                0 <= k < m + 1 && maps_at(#[trigger] steps3[k], va);
                            assert(k < m);
                            assert(steps1[k] == steps3[k]);
                            assert(mapped_before(steps1, m, va));
                        }
                        if mapped.contains(va) {
                            assert(mapped_before(steps1, m, va));
                            let k = choose|k: int|
                                0 <= k < m && maps_at(#[trigger] steps1[k], va);
                            assert(steps3[k] == steps1[k]);
                        }
                    }
                    if answer(w3) is Failed {
                        lemma_undo_steps(w3, mapped, mapped.len() as int, o);
                        lemma_undo_extends(w3, mapped, mapped.len() as int, o);
                        let f = m + 1;
                        let undoing = new_steps(w3.log, after.log);
                        assert(steps =~= steps3 + undoing);
                        assert(steps[f] == placed);
                        assert(all_mapped(steps.take(f))) by {
                            assert forall|k: int| 0 <= k < f implies !map_failed(
                                #[trigger] steps.take(f)[k],
                            ) by {
                                if k < m {
                                    assert(steps.take(f)[k] == steps1[k]);
                                }
                            }
                        }
                        assert forall|va: VA| #[trigger]
                            mapped_before(steps, f, va) <==> mapped.contains(va) by {
                            if mapped_before(steps, f, va) {
                                let k = choose|k: int|
                                    0 <= k < f && maps_at(#[trigger] steps[k], va);
                                assert(steps3[k] == steps[k]);
                                assert(mapped_before(steps3, f, va));
                            }
                            if mapped.contains(va) {
                                assert(mapped_before(steps3, f, va));
                                let k = choose|k: int|
                                    0 <= k < f && maps_at(#[trigger] steps3[k], va);
                                assert(steps[k] == steps3[k]);
                            }
                        }
                        assert(undone_after(steps, f)) by {
                            assert forall|k: int| f < k < steps.len() implies unmaps_mapped(steps, f, #[trigger] steps[k]) by {
                                assert(steps[k] == undoing[k - f - 1]);
                                assert(mapped.contains(mapped[k - f - 1]));
                            }
                            assert forall|va: VA| #[trigger] mapped_before(steps, f, va) implies (
                            exists|k: int|
                                f < k < steps.len() && (#[trigger] steps[k]).call == Call::Unmap(
                                    va,
                                )) by {
                                let i = choose|i: int| 0 <= i < mapped.len() && mapped[i] == va;
                                assert(undoing[i].call == Call::Unmap(mapped[i]));
                                assert(steps[f + 1 + i] == undoing[i]);
                            }
                        }
                        assert(steps[f].call is MapPage);
                    } else {
                        assert(steps == steps3);
                        let more = mapped.push(new_pages[n - 1]);
                        assert forall|va: VA| #[trigger]
                            mapped_before(steps, steps.len() as int, va) <==> more.contains(va) by {
                            if mapped_before(steps, steps.len() as int, va) {
                                let k = choose|k: int|
                                    0 <= k < steps.len() && maps_at(#[trigger] steps[k], va);
                                if k <= m {
                                    assert(mapped_before(steps, m + 1, va));
                                    let i = choose|i: int|
                                        0 <= i < mapped.len() && mapped[i] == va;
                                    assert(more[i] == va);
                                } else {
                                    assert(more[mapped.len() as int] == va);
                                }
                            }
                            if more.contains(va) {
                                let i = choose|i: int| 0 <= i < more.len() && more[i] == va;
                                if i < mapped.len() {
                                    assert(mapped[i] == va);
                                    assert(mapped_before(steps, m + 1, va));
                                    let k = choose|k: int|
                                        0 <= k < m + 1 && maps_at(#[trigger] steps[k], va);
                                    assert(steps[k].call is MapPage);
                                } else {
                                    assert(steps[m + 1] == placed);
                                    assert(steps[m + 1].call is MapPage);
                                }
                            }
                        }
                        assert(olds[n - 1] == old_pages[n - 1] && news[n - 1] == new_pages[n - 1]);
                        assert(carries(steps, m, olds, news)) by {
                            assert(steps[m] == looked && steps[m + 1] == placed);
                            assert(steps[m].call == Call::Translate(olds[n - 1]));
                        }
                        assert(is_carried(steps, m + 1)) by {
                            assert(steps[m] == looked && steps[m + 1] == placed);
                        }
                        lemma_carried_more(steps1, steps, m, olds1, news1, olds, news);
                        assert(steps[m].call == Call::Translate(olds[n - 1]));
                        assert(all_carried(steps, olds, news));
                        assert(all_mapped(steps)) by {
                            assert forall|k: int| 0 <= k < steps.len() implies !map_failed(#[trigger] steps[k]) by {
                                if k < m {
                                    assert(steps[k] == steps1[k]);
                                }
                            }
                        }
                    }
                },
                _ => {
                    assert(steps =~= steps1.push(looked));
                    assert(olds[n - 1] == old_pages[n - 1]);
                    assert(carries(steps, m, olds, news)) by {
                        assert(steps[m] == looked);
                        assert(steps[m].call == Call::Translate(olds[n - 1]));
                    }
                    lemma_carried_more(steps1, steps, m, olds1, news1, olds, news);
                    assert(steps[m].call == Call::Translate(olds[n - 1]));
                    assert(all_carried(steps, olds, news));
                    assert forall|va: VA| #[trigger]
                        mapped_before(steps, steps.len() as int, va) <==> mapped.contains(va) by {
                        if mapped_before(steps, steps.len() as int, va) {
                            let k = choose|k: int|
                                0 <= k < steps.len() && maps_at(#[trigger] steps[k], va);
                            assert(k < m);
                            assert(steps1[k] == steps[k]);
                            assert(mapped_before(steps1, m, va));
                        }
                        if mapped.contains(va) {
                            assert(mapped_before(steps1, m, va));
                            let k = choose|k: int|
                                0 <= k < m && maps_at(#[trigger] steps1[k], va);
                            assert(steps[k] == steps1[k]);
                        }
                    }
                    assert(all_mapped(steps)) by {
                        assert forall|k: int| 0 <= k < steps.len() implies !map_failed(#[trigger] steps[k]) by {
                            if k < m {
                                assert(steps[k] == steps1[k]);
                            }
                        }
                    }
                },
            }
        }
    }
}

/// What has been carried stays carried when steps and pages are added.
proof fn lemma_carried_more(
    steps1: Seq<Step>,
    steps: Seq<Step>,
    m: int,
    olds1: Seq<VA>,
    news1: Seq<VA>,
    olds: Seq<VA>,
    news: Seq<VA>,
)
    requires
        m == steps1.len() <= steps.len(),
        forall|k: int| 0 <= k < m ==> steps[k] == #[trigger] steps1[k],
        olds1.len() == news1.len() <= olds.len() == news.len(),
        forall|i: int| 0 <= i < olds1.len() ==> olds[i] == #[trigger] olds1[i],
        forall|i: int| 0 <= i < olds1.len() ==> news[i] == #[trigger] news1[i],
        all_carried(steps1, olds1, news1),
    ensures
        forall|k: int|
            0 <= k < m ==> #[trigger] carries(steps, k, olds, news) || is_carried(steps, k),
        forall|i: int|
            0 <= i < olds1.len() ==> exists|k: int|
                0 <= k < steps.len() && (#[trigger] steps[k]).call == Call::Translate(
                    #[trigger] olds[i],
                ),
{
    assert forall|k: int| 0 <= k < m implies #[trigger] carries(steps, k, olds, news) || is_carried(
        steps,
        k,
    ) by {
        assert(steps[k] == steps1[k]);
        if carries(steps1, k, olds1, news1) {
            let i = choose|i: int|
                0 <= i < olds1.len() && steps1[k].call == Call::Translate(#[trigger] olds1[i])
                    && match steps1[k].reply {
                    Reply::Found(Some(info)) => {
                        &&& k + 1 < steps1.len()
                        &&& steps1[k + 1].call == Call::MapPage(info.pfn, news1[i], info.perms)
                    },
                    _ => true,
                };
            assert(olds[i] == olds1[i] && news[i] == news1[i]);
            if k + 1 < m {
                assert(steps[k + 1] == steps1[k + 1]);
            }
            assert(steps[k].call == Call::Translate(olds[i]));
        } else {
            assert(is_carried(steps1, k));
            assert(steps[k - 1] == steps1[k - 1]);
        }
    }
    assert forall|i: int| 0 <= i < olds1.len() implies exists|k: int|
        0 <= k < steps.len() && (#[trigger] steps[k]).call == Call::Translate(#[trigger] olds[i]) by {
        assert(olds[i] == olds1[i]);
        let k = choose|k: int|
            0 <= k < steps1.len() && (#[trigger] steps1[k]).call == Call::Translate(olds1[i]);
        assert(steps[k] == steps1[k]);
    }
}

/// The number of bytes of the old region that fit into the new one.
pub open spec fn fitting(old: VirtMemoryRegion, new: VirtMemoryRegion) -> int {
    if old.len() <= new.len() {
        old.len()
    } else {
        new.len()
    }
}

/// The number of steps it takes to unmap the old region: what fits, and the rest.
pub open spec fn closing_steps(old: VirtMemoryRegion, new: VirtMemoryRegion) -> int {
    if fitting(old, new) < old.len() {
        2
    } else {
        1
    }
}

/// The steps carry the frames of the first `n` pages of the old region to the pages of the
/// new region with the same numbers, and do nothing else.
pub open spec fn carry_over(
    steps: Seq<Step>,
    old: VirtMemoryRegion,
    new: VirtMemoryRegion,
    n: int,
) -> bool {
    exists|olds: Seq<VA>, news: Seq<VA>|
        {
            &&& olds.len() == n
            &&& news.len() == n
            &&& #[trigger] all_carried(steps, olds, news)
            &&& forall|i: int|
                0 <= i < n ==> (#[trigger] olds[i]).addr() == old.start() + i * PAGE_SIZE
            &&& forall|i: int|
                0 <= i < n ==> (#[trigger] news[i]).addr() == new.start() + i * PAGE_SIZE
        }
}

/// Step `f` failed with the error, after all pages before it got mapped. If it was to map
/// a page, all that were mapped before are unmapped again; otherwise it is the last step.
pub open spec fn fails_at(steps: Seq<Step>, f: int, error: KernelError) -> bool {
    &&& steps[f].reply == Reply::Failed(error)
    &&& all_mapped(steps.take(f))
    &&& if steps[f].call is MapPage {
        undone_after(steps, f)
    } else {
        f == steps.len() - 1
    }
}

/// The steps carry the page frames of the old region over as far as they fit, and then
/// unmap the old region; `rest` are the frames that did not fit.
pub open spec fn pages_moved(
    steps: Seq<Step>,
    old: VirtMemoryRegion,
    new: VirtMemoryRegion,
    rest: Seq<PageFrame>,
) -> bool {
    let kept = fitting(old, new);
    let m = steps.len() - closing_steps(old, new);
    &&& m >= 0
    &&& all_mapped(steps)
    &&& carry_over(steps.take(m), old, new, kept / PAGE_SIZE as int)
    &&& steps[m].call == Call::UnmapRange(
        VirtMemoryRegion::between(old.start(), old.start() + kept),
    )
    &&& !(steps[m].reply is Failed)
    &&& if kept < old.len() {
        &&& steps[m + 1].call == Call::UnmapRange(
            VirtMemoryRegion::between(old.start() + kept, old.end()),
        )
        &&& !(steps[m + 1].reply is Failed)
        &&& steps[m + 1].reply matches Reply::Pages(p) ==> rest == p
    } else {
        rest.len() == 0
    }
}

/// The first `c` steps clear the new region, if `clobber`; there are none otherwise. The
/// others move the pages. The result are the frames that were cleared away and those that
/// did not fit.
pub open spec fn cleared_and_moved(
    s: Seq<VMArea>,
    steps: Seq<Step>,
    c: int,
    old: VirtMemoryRegion,
    new: VirtMemoryRegion,
    clobber: bool,
    rest: Seq<PageFrame>,
    freed: Seq<PageFrame>,
) -> bool {
    &&& 0 <= c <= steps.len()
    &&& if clobber {
        in_step(s, new, None, steps.take(c)) && all_done(steps.take(c))
    } else {
        c == 0
    }
    &&& pages_moved(steps.skip(c), old, new, rest)
    &&& freed == frames_of(steps.take(c)) + rest
}

/// The steps clear the new region, if `clobber`, and then move the pages of the old region
/// there; `freed` are the frames that were cleared away and those that did not fit.
pub open spec fn moved_by(
    s: Seq<VMArea>,
    steps: Seq<Step>,
    old: VirtMemoryRegion,
    new: VirtMemoryRegion,
    clobber: bool,
    freed: Seq<PageFrame>,
) -> bool {
    exists|c: int, rest: Seq<PageFrame>| #[trigger]
        cleared_and_moved(s, steps, c, old, new, clobber, rest, freed)
}

/// Moving the pages of a region carries the page frames, with their permissions, to the
/// pages at the same distance from the start of the new region, as far as they fit; only
/// then the old region is unmapped, and the frames that did not fit are the result. Where
/// a page cannot be mapped, all that were mapped are unmapped again.
pub proof fn moving_carries_the_pages(
    w: World,
    old: VirtMemoryRegion,
    new: VirtMemoryRegion,
    o: Seq<Reply>,
)
    requires
        paged(old),
        paged(new),
    ensures
        ({
            let (after, r) = move_pages(w, old, new, o);
            let steps = new_steps(w.log, after.log);
            &&& after.vmas == w.vmas
            &&& extends(w.log, after.log)
            &&& match r {
                Ok(rest) => pages_moved(steps, old, new, rest),
                Err(e) => exists|f: int|
                    0 <= f < steps.len() && #[trigger] fails_at(steps, f, e),
            }
        }),
{
    let (after, r) = move_pages(w, old, new, o);
    let steps = new_steps(w.log, after.log);
    let kept = kept_len(old, new);
    let n = kept / PAGE_SIZE as int;
    VirtMemoryRegion::bounds(old, new);
    VirtMemoryRegion::bounds(new, old);
    assert(n * PAGE_SIZE == kept);
    let (olds, news) = (page_run(old.start(), n), page_run(new.start(), n));
    lemma_copy_steps(w, olds, news, n, o);
    lemma_copy_pages_extends(w, olds, news, n, o);
    let (w1, r1) = copy_pages(w, olds, news, n, o);
    let steps1 = new_steps(w.log, w1.log);
    let m = steps1.len() as int;
    assert(olds.take(n) =~= olds && news.take(n) =~= news);
    if r1 is Ok {
        assert forall|i: int| 0 <= i < n implies #[trigger] (i * PAGE_SIZE) <= kept by {
            assert(i * PAGE_SIZE <= kept) by (nonlinear_arith)
                requires
                    i < n,
                    n * PAGE_SIZE == kept,
                    PAGE_SIZE > 0,
            ;
        }
        assert forall|i: int| 0 <= i < n implies (#[trigger] olds[i]).addr() == old.start() + i
            * PAGE_SIZE by {}
        assert forall|i: int| 0 <= i < n implies (#[trigger] news[i]).addr() == new.start() + i
            * PAGE_SIZE by {}
        assert forall|k: int| 0 <= k < m implies steps[k] == #[trigger] steps1[k] by {}
        assert(steps.take(m) =~= steps1);
        assert(all_mapped(steps)) by {
            assert forall|k: int| 0 <= k < steps.len() implies !map_failed(#[trigger] steps[k]) by {
                if k < m {
                    assert(!map_failed(steps1[k]));
                }
            }
        }
        if r is Err {
            let f = steps.len() - 1;
            assert(all_mapped(steps.take(f))) by {
                assert forall|k: int| 0 <= k < f implies !map_failed(#[trigger] steps.take(f)[k]) by {
                    assert(!map_failed(steps[k]));
                }
            }
            assert(fails_at(steps, f, r->Err_0));
        } else {
            assert(all_carried(steps.take(m), olds, news));
            assert(carry_over(steps.take(m), old, new, n));
        }
    } else {
        assert(steps == steps1);
        let e = r->Err_0;
        let f = choose|f: int|
            0 <= f < steps.len() && (#[trigger] steps[f]).call is MapPage && steps[f].reply
                == Reply::Failed(e) && all_mapped(steps.take(f)) && undone_after(steps, f);
        assert(fails_at(steps, f, e));
    }
}

/// The mapping of `vma` from `start` on can be `size` bytes long where it is.
pub open spec fn fits_in_place(s: Seq<VMArea>, vma: VMArea, start: int, size: int) -> bool {
    start + size <= vma.end() || clear_of(s, VirtMemoryRegion::between(vma.end(), start + size))
}

/// The error that a remap request is refused with: for its arguments, for want of a
/// mapping, or for want of room. `old_size` and `new_size` are the lengths in whole pages.
pub open spec fn remap_refusal(
    s: Seq<VMArea>,
    old_addr: int,
    old_size: int,
    new_size: int,
    destination: RemapDestination,
    base: int,
) -> Option<KernelError> {
    if old_addr % PAGE_SIZE as int != 0 || old_size == 0 || new_size == 0 {
        Some(KernelError::InvalidValue)
    } else {
        match find(s, old_addr) {
            None => Some(KernelError::Fault),
            Some(vma) => if old_addr + old_size > vma.end() {
                Some(KernelError::Fault)
            } else {
                match destination {
                    RemapDestination::Fixed(a) => if a.addr() % PAGE_SIZE != 0 || vma.region.meets(
                        VirtMemoryRegion::between(a.addr() as int, a.addr() + new_size),
                    ) {
                        Some(KernelError::InvalidValue)
                    } else {
                        None
                    },
                    _ => if new_size <= old_size || fits_in_place(s, vma, old_addr, new_size) {
                        None
                    } else if destination is InPlaceOnly || no_room(s, base, new_size) {
                        Some(KernelError::NoMemory)
                    } else {
                        None
                    },
                }
            },
        }
    }
}

/// The mapping, at `start` with `new_size` bytes, is where the request wants it.
pub open spec fn remapped_where_wanted(
    s: Seq<VMArea>,
    vma: VMArea,
    old_addr: int,
    old_size: int,
    new_size: int,
    destination: RemapDestination,
    base: int,
    start: int,
) -> bool {
    match destination {
        RemapDestination::Fixed(a) => start == a.addr(),
        _ => if new_size <= old_size || fits_in_place(s, vma, old_addr, new_size) {
            start == old_addr
        } else {
            &&& destination is MayMove
            &&& highest_free(s, base, VirtMemoryRegion::between(start, start + new_size))
        },
    }
}

/// A remap request keeps what the mapping holds: the bytes up to the smaller of both
/// lengths have the same permissions and the same contents at the same distance from the
/// start, wherever the mapping is afterwards. What is added has the same permissions. What
/// is left of the old mapping elsewhere is unmapped, and all else is mapped as it was,
/// except where a mapping is moved to a given address over what was there. The mapping is
/// where the request wants it. A request that cannot be met is refused, and changes
/// nothing; all others fail only if the address space does.
#[verifier::rlimit(60)]
pub proof fn remapping_keeps_the_contents(
    w: World,
    old_addr: int,
    old_len: int,
    new_len: int,
    old_size: int,
    new_size: int,
    destination: RemapDestination,
    o: Seq<Reply>,
)
    requires
        tidy(w.vmas),
        0 <= old_addr,
        old_size % PAGE_SIZE as int == 0,
        new_size % PAGE_SIZE as int == 0,
        0 <= old_len <= old_size < old_len + PAGE_SIZE,
        0 <= new_len <= new_size < new_len + PAGE_SIZE,
        remap_in_range(w.vmas, old_addr, old_len, new_len, destination),
    ensures
        ({
            let (after, r) = remapped(w, old_addr, old_len, new_len, destination, o);
            let s = w.vmas;
            let base = MMAP_BASE as int;
            match remap_refusal(s, old_addr, old_size, new_size, destination, base) {
                Some(e) => after == w && r == Err::<(VA, Seq<PageFrame>), KernelError>(e),
                None => match r {
                    Ok((a, freed)) => {
                        let start = a.addr() as int;
                        let vma = find(s, old_addr)->Some_0;
                        &&& tidy(after.vmas)
                        &&& remapped_where_wanted(
                            s,
                            vma,
                            old_addr,
                            old_size,
                            new_size,
                            destination,
                            base,
                            start,
                        )
                        &&& if start != old_addr || destination is Fixed {
                            moved_by(
                                s,
                                new_steps(w.log, after.log),
                                VirtMemoryRegion::between(old_addr, old_addr + old_size),
                                VirtMemoryRegion::between(start, start + new_size),
                                destination is Fixed,
                                freed,
                            )
                        } else if new_size < old_size {
                            &&& after.log.len() == w.log.len() + 1
                            &&& after.log.last().call == Call::UnmapRange(
                                VirtMemoryRegion::between(start + new_size, start + old_size),
                            )
                            &&& after.log.last().reply matches Reply::Pages(p) ==> freed == p
                        } else {
                            after.log == w.log && freed.len() == 0
                        }
                        &&& forall|addr: int|
                            start <= addr < start + new_size ==> (#[trigger] contents_at(
                                after.vmas,
                                addr,
                            ) matches Some(c) && c.permissions == vma.permissions)
                        &&& forall|addr: int|
                            start <= addr < start + new_size && addr < start + old_size ==> #[trigger]
                            contents_at(after.vmas, addr) == contents_at(s, old_addr + (addr - start))
                        &&& forall|addr: int|
                            !(start <= addr < start + new_size) && old_addr <= addr < old_addr
                                + old_size ==> #[trigger] contents_at(after.vmas, addr) is None
                        &&& forall|addr: int|
                            !(start <= addr < start + new_size) && !(old_addr <= addr < old_addr
                                + old_size) ==> #[trigger] contents_at(after.vmas, addr)
                                == contents_at(s, addr)
                    },
                    Err(e) => exists|k: int|
                        w.log.len() <= k < after.log.len() && (#[trigger] after.log[k]).reply
                            == Reply::Failed(e),
                },
            }
        }),
{
    let s = w.vmas;
    let base = MMAP_BASE as int;
    let (after, r) = remapped(w, old_addr, old_len, new_len, destination, o);
    if old_len > 0 && new_len > 0 && old_addr % PAGE_SIZE as int == 0 && find(s, old_addr) is Some {
        lemma_ceiling(old_len, old_size);
        lemma_ceiling(new_len, new_size);
        let vma = find(s, old_addr)->Some_0;
        lemma_find(s, old_addr);
        lemma_disjoint(s, vma, vma);
        let old = VirtMemoryRegion::between(old_addr, old_addr + old_size);
        VirtMemoryRegion::bounds(vma.region, vma.region);
        if old_addr + old_size <= vma.end() {
            assert forall|addr: int| old.has(addr) implies #[trigger] contents_at(s, addr) == Some(
                contents_of(vma, addr),
            ) by {
                lemma_find_held(s, vma, addr);
            }
            match destination {
                RemapDestination::Fixed(a) => {
                    let new = VirtMemoryRegion::between(a.addr() as int, a.addr() + new_size);
                    if a.addr() % PAGE_SIZE == 0 && !vma.region.meets(new) {
                        assert(!new.meets(old) && !new.meets(vma.region));
                        lemma_moved_or_failed(w, vma, old, new, true, o);
                    }
                },
                _ => {
                    if new_size < old_size {
                        reveal(shrink);
                        if shrink(w, vma, old, new_size, o).1 is Ok {
                            shrink_unmaps_the_end(w, vma, old, new_size, o);
                            let t = after.vmas;
                            assert forall|addr: int|
                                old_addr + new_size <= addr < old_addr + old_size implies #[trigger] contents_at(
                                t,
                                addr,
                            ) is None by {
                                assert(perms_at(t, addr) is None);
                            }
                        } else {
                            assert(after.log[w.log.len() as int].reply is Failed);
                        }
                    } else if new_size > old_size {
                        let end = old_addr + new_size;
                        if end > vma.end() {
                            lemma_free_is_clear(s, VirtMemoryRegion::between(vma.end(), end));
                        }
                        assert(can_grow(s, vma, old_addr, new_size) == fits_in_place(
                            s,
                            vma,
                            old_addr,
                            new_size,
                        ));
                        if can_grow(s, vma, old_addr, new_size) {
                            grow_maps_the_end(s, vma, old_addr, new_size);
                        } else if destination is MayMove {
                            lemma_mmap_base_aligned();
                            lemma_found_region(s, base, new_size);
                            if let Some(new) = free_region(s, base, new_size) {
                                lemma_free_is_clear(s, new);
                                lemma_holds_disjoint(s, vma, new);
                                VirtMemoryRegion::bounds(
                                    new,
                                    VirtMemoryRegion::between(new.start(), new.start() + new_size),
                                );
                                VirtMemoryRegion::bounds(new, new);
                                lemma_moved_or_failed(w, vma, old, new, false, o);
                            }
                        }
                    }
                },
            }
        }
    }
}

/// A VMA does not meet a region that no VMA meets.
proof fn lemma_holds_disjoint(s: Seq<VMArea>, vma: VMArea, region: VirtMemoryRegion)
    requires
        holds(s, vma),
        clear_of(s, region),
    ensures
        !region.meets(vma.region),
{
}

/// There is just one way to round up to whole pages.
pub(crate) proof fn lemma_ceiling(len: int, size: int)
    requires
        size % PAGE_SIZE as int == 0,
        0 <= len <= size < len + PAGE_SIZE,
    ensures
        aligned_up(len, PAGE_SIZE as int) == size,
{
    aligned_up_is_ceiling(len, PAGE_SIZE as int);
    let up = aligned_up(len, PAGE_SIZE as int);
    let (x, y) = (up / PAGE_SIZE as int, size / PAGE_SIZE as int);
    assert(up == x * PAGE_SIZE && size == y * PAGE_SIZE);
}

/// A move succeeds, and then relocates the region, or one of its steps fails.
proof fn lemma_moved_or_failed(
    w: World,
    vma: VMArea,
    old: VirtMemoryRegion,
    new: VirtMemoryRegion,
    clobber: bool,
    o: Seq<Reply>,
)
    requires
        tidy(w.vmas),
        holds(w.vmas, vma),
        paged(old),
        paged(new),
        new.len() > 0,
        vma.region.covers(old),
        !new.meets(vma.region),
        clobber || is_free(w.vmas, new),
        vma.kind matches VMAreaKind::File(m) ==> m.offset + (old.start() - vma.start()) + new.len()
            <= u64::MAX,
    ensures
        ({
            let (after, r) = move_mapping(w, vma, old, new, clobber, o);
            match r {
                Ok(freed) => {
                    &&& moved_by(
                        w.vmas,
                        new_steps(w.log, after.log),
                        old,
                        new,
                        clobber,
                        freed,
                    )
                    &&& tidy(after.vmas)
                    &&& forall|addr: int| #[trigger]
                        contents_at(after.vmas, addr) == (if new.has(addr) {
                            Some(moved_contents(vma, old, new, addr))
                        } else if old.has(addr) {
                            None
                        } else {
                            contents_at(w.vmas, addr)
                        })
                },
                Err(e) => exists|k: int|
                    w.log.len() <= k < after.log.len() && (#[trigger] after.log[k]).reply
                        == Reply::Failed(e),
            }
        }),
{
    let (after, r) = move_mapping(w, vma, old, new, clobber, o);
    reveal(move_mapping);
    let (w1, r1) = cleared(w, new, clobber, o);
    if clobber {
        unmapping_asks_for_what_it_takes(w, new, None, o);
    }
    if r is Ok {
        move_relocates_the_region(w, vma, old, new, clobber, o);
        moving_carries_the_pages(w1, old, new, o);
        let steps = new_steps(w.log, after.log);
        let first = new_steps(w.log, w1.log);
        let c = first.len() as int;
        let rest = move_pages(w1, old, new, o).1->Ok_0;
        assert(steps.take(c) =~= first);
        assert(steps.skip(c) =~= new_steps(w1.log, after.log));
        if !clobber {
            assert(first =~= Seq::empty());
        }
        assert(cleared_and_moved(w.vmas, steps, c, old, new, clobber, rest, r->Ok_0));
    } else {
        let e = r->Err_0;
        if r1 is Err {
            let steps = new_steps(w.log, w1.log);
            assert(steps[steps.len() - 1].reply == Reply::Failed(e));
            assert(after.log[w.log.len() + steps.len() - 1] == steps[steps.len() - 1]);
        } else {
            moving_carries_the_pages(w1, old, new, o);
            let steps = new_steps(w1.log, after.log);
            let f = choose|f: int| 0 <= f < steps.len() && #[trigger] fails_at(steps, f, e);
            assert(after.log[w1.log.len() + f] == steps[f]);
        }
    }
}

} // verus!
