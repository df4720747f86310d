//! What the operations of a memory map ask of the address space.
use vstd::prelude::*;

use crate::memory::proc_vm::address_space::{Call, Reply, Step};
use crate::memory::page::PageFrame;
use crate::memory::proc_vm::memory_map::laws::{
    lemma_affected_distinct, lemma_find, lemma_find_held, lemma_holds_index, meets_region, tidy,
};
use crate::memory::proc_vm::memory_map::lemmas::{extends, lemma_carve_all_extends, paged};
use crate::memory::proc_vm::memory_map::model::{
    affected, carve_all, fixup_call, find, insert, unmap, World,
};
use crate::memory::proc_vm::vmarea::{VMAPermissions, VMArea};
use crate::memory::region::VirtMemoryRegion;

verus! {

/// The steps that `after` has in addition to `before`.
pub open spec fn new_steps(before: Seq<Step>, after: Seq<Step>) -> Seq<Step> {
    after.skip(before.len() as int)
}

/// None of the steps failed.
pub open spec fn all_done(steps: Seq<Step>) -> bool {
    forall|k: int| 0 <= k < steps.len() ==> !((#[trigger] steps[k]).reply is Failed)
}

/// All page frames that the steps yield, in order.
pub open spec fn frames_of(steps: Seq<Step>) -> Seq<PageFrame>
    decreases steps.len(),
{
    if steps.len() == 0 {
        Seq::empty()
    } else {
        frames_of(steps.drop_last()) + (match steps.last().reply {
            Reply::Pages(p) => p,
            _ => Seq::empty(),
        })
    }
}

/// The step unmaps a range or changes its permissions.
pub open spec fn is_change(step: Step) -> bool {
    step.call is UnmapRange || step.call is ProtectRange
}

/// The range of the step; empty for other steps.
pub open spec fn range_of(step: Step) -> VirtMemoryRegion {
    match step.call {
        Call::UnmapRange(range) => range,
        Call::ProtectRange(range, _) => range,
        _ => VirtMemoryRegion::between(0, 0),
    }
}

/// The step unmaps the address.
pub open spec fn unmaps(step: Step, addr: int) -> bool {
    step.call matches Call::UnmapRange(range) && range.has(addr)
}

/// The step gives the address the permissions, from user space.
pub open spec fn protects(step: Step, addr: int, perms: VMAPermissions) -> bool {
    step.call matches Call::ProtectRange(range, p) && {
        &&& range.has(addr)
        &&& p.reads() == perms.read
        &&& p.writes() == perms.write
        &&& p.executes() == perms.execute
        &&& p.users()
        &&& !p.cows()
    }
}

/// One of the steps unmaps the address.
pub open spec fn unmapped_by(steps: Seq<Step>, addr: int) -> bool {
    exists|k: int| 0 <= k < steps.len() && unmaps(#[trigger] steps[k], addr)
}

/// One of the steps gives the address the permissions.
pub open spec fn protected_by(steps: Seq<Step>, addr: int, perms: VMAPermissions) -> bool {
    exists|k: int| 0 <= k < steps.len() && protects(#[trigger] steps[k], addr, perms)
}

/// No step is about the address.
pub open spec fn left_alone(steps: Seq<Step>, addr: int) -> bool {
    forall|k: int| 0 <= k < steps.len() ==> !range_of(#[trigger] steps[k]).has(addr)
}

/// The steps do to the address what it takes to put `new` in place of what was mapped in
/// the region. What was mapped there is unmapped. Only where anonymous memory takes the
/// place of anonymous memory the pages stay, and get the new permissions if these are
/// others. No step is about an address outside the region, or where nothing was mapped.
pub open spec fn treated(
    s: Seq<VMArea>,
    region: VirtMemoryRegion,
    new: Option<VMArea>,
    steps: Seq<Step>,
    addr: int,
) -> bool {
    match find(s, addr) {
        Some(old) => if !region.has(addr) {
            left_alone(steps, addr)
        } else if new is None || new->Some_0.kind is File || old.kind is File {
            unmapped_by(steps, addr)
        } else if new->Some_0.permissions != old.permissions {
            protected_by(steps, addr, new->Some_0.permissions)
        } else {
            left_alone(steps, addr)
        },
        None => left_alone(steps, addr),
    }
}

/// The steps do what it takes to put `new` in place of what was mapped in the region, and
/// nothing else; each address is dealt with once.
pub open spec fn in_step(
    s: Seq<VMArea>,
    region: VirtMemoryRegion,
    new: Option<VMArea>,
    steps: Seq<Step>,
) -> bool {
    &&& forall|k: int| 0 <= k < steps.len() ==> is_change(#[trigger] steps[k])
    &&& forall|j: int, k: int|
        0 <= j < k < steps.len() ==> range_of(#[trigger] steps[j]).end() <= range_of(
            #[trigger] steps[k],
        ).start()
    &&& forall|addr: int| #[trigger] treated(s, region, new, steps, addr)
}

/// What the steps have to do with the first `n` of the affected VMAs.
spec fn steps_for(
    vmas: Seq<VMArea>,
    n: int,
    region: VirtMemoryRegion,
    new: Option<VMArea>,
    steps: Seq<Step>,
) -> bool {
    &&& forall|k: int| 0 <= k < steps.len() ==> #[trigger] stems(vmas, n, region, new, steps[k])
    &&& forall|i: int|
        0 <= i < n ==> #[trigger] answered(fixup_call(region, vmas[i], new), steps)
    &&& forall|j: int, k: int|
        0 <= j < k < steps.len() ==> range_of(#[trigger] steps[j]).end() <= range_of(
            #[trigger] steps[k],
        ).start()
}

/// The step is the one for one of the VMAs.
spec fn stems(
    vmas: Seq<VMArea>,
    n: int,
    region: VirtMemoryRegion,
    new: Option<VMArea>,
    step: Step,
) -> bool {
    exists|i: int| 0 <= i < n && fixup_call(region, #[trigger] vmas[i], new) == Some(step.call)
}

/// What was to be asked for is one of the steps.
spec fn answered(call: Option<Call>, steps: Seq<Step>) -> bool {
    call matches Some(c) ==> exists|k: int| 0 <= k < steps.len() && (#[trigger] steps[k]).call == c
}

/// What an address space is asked for where a VMA meets the region.
proof fn lemma_fixup(region: VirtMemoryRegion, old: VMArea, new: Option<VMArea>, step: Step)
    requires
        region.fits(),
        old.region.fits(),
        fixup_call(region, old, new) == Some(step.call),
    ensures
        is_change(step),
        forall|addr: int| #[trigger]
            range_of(step).has(addr) <==> region.has(addr) && old.region.has(addr),
        old.start() <= range_of(step).start(),
        range_of(step).end() <= old.end(),
{
}

/// The steps for the first `n` of the affected VMAs.
proof fn lemma_carve_steps(
    w: World,
    vmas: Seq<VMArea>,
    n: int,
    region: VirtMemoryRegion,
    new: Option<VMArea>,
    o: Seq<Reply>,
)
    requires
        region.fits(),
        0 <= n <= vmas.len(),
        forall|i: int| 0 <= i < vmas.len() ==> (#[trigger] vmas[i]).region.fits(),
        forall|i: int, j: int|
            0 <= i < j < vmas.len() ==> (#[trigger] vmas[i]).end() <= (#[trigger] vmas[j]).start(),
    ensures
        ({
            let (after, r) = carve_all(w, vmas.take(n), region, new, o);
            let steps = new_steps(w.log, after.log);
            &&& extends(w.log, after.log)
            &&& match r {
                Ok(freed) => {
                    &&& all_done(steps)
                    &&& freed == frames_of(steps)
                    &&& steps_for(vmas, n, region, new, steps)
                },
                Err(e) => {
                    &&& steps.len() > 0
                    &&& steps.last().reply == Reply::Failed(e)
                    &&& all_done(steps.drop_last())
                },
            }
        }),
    decreases n,
{
    lemma_carve_all_extends(w, vmas.take(n), region, new, o);
    let (after, r) = carve_all(w, vmas.take(n), region, new, o);
    let steps = new_steps(w.log, after.log);
    if n == 0 {
        assert(steps =~= Seq::empty());
    } else {
        assert(vmas.take(n).drop_last() =~= vmas.take(n - 1));
        let v = vmas[n - 1];
        assert(vmas.take(n).last() == v);
        lemma_carve_steps(w, vmas, n - 1, region, new, o);
        let (w1, r1) = carve_all(w, vmas.take(n - 1), region, new, o);
        let steps1 = new_steps(w.log, w1.log);
        if r1 is Ok {
            match fixup_call(region, v, new) {
                None => {
                    assert(steps == steps1);
                },
                Some(call) => {
                    let step = after.log.last();
                    assert(steps =~= steps1.push(step));
                    assert(steps.drop_last() =~= steps1);
                    assert(step.call == call);
                    lemma_fixup(region, v, new, step);
                },
            }
            if r is Ok {
                assert forall|k: int| 0 <= k < steps.len() implies #[trigger] stems(
                    vmas,
                    n,
                    region,
                    new,
                    steps[k],
                ) by {
                    if k < steps1.len() {
                        assert(steps[k] == steps1[k]);
                        assert(stems(vmas, n - 1, region, new, steps1[k]));
                        let i = choose|i: int|
                            0 <= i < n - 1 && fixup_call(region, #[trigger] vmas[i], new) == Some(
                                steps1[k].call,
                            );
                        assert(fixup_call(region, vmas[i], new) == Some(steps[k].call));
                    } else {
                        assert(fixup_call(region, vmas[n - 1], new) == Some(steps[k].call));
                    }
                }
                assert forall|i: int| 0 <= i < n implies #[trigger] answered(
                    fixup_call(region, vmas[i], new),
                    steps,
                ) by {
                    if i < n - 1 {
                        assert(answered(fixup_call(region, vmas[i], new), steps1));
                        if let Some(c) = fixup_call(region, vmas[i], new) {
                            let k = choose|k: int|
                                0 <= k < steps1.len() && (#[trigger] steps1[k]).call == c;
                            assert(steps[k].call == c);
                        }
                    } else if let Some(c) = fixup_call(region, v, new) {
                        assert(steps[steps.len() - 1].call == c);
                    }
                }
                assert forall|j: int, k: int| 0 <= j < k < steps.len() implies range_of(
                    #[trigger] steps[j],
                ).end() <= range_of(#[trigger] steps[k]).start() by {
                    assert(steps[j] == steps1[j]);
                    if k < steps1.len() {
                        assert(steps[k] == steps1[k]);
                    } else {
                        assert(stems(vmas, n - 1, region, new, steps1[j]));
                        let i = choose|i: int|
                            0 <= i < n - 1 && fixup_call(region, #[trigger] vmas[i], new) == Some(
                                steps1[j].call,
                            );
                        lemma_fixup(region, vmas[i], new, steps1[j]);
                        assert(vmas[i].end() <= vmas[n - 1].start());
                    }
                }
                assert(all_done(steps)) by {
                    assert forall|k: int| 0 <= k < steps.len() implies !((
                    #[trigger] steps[k]).reply is Failed) by {
                        if k < steps1.len() {
                            assert(steps[k] == steps1[k]);
                        }
                    }
                }
            }
        }
    }
}

/// Making a hole in a map, for nothing or for a new VMA: the address space is asked for
/// what it takes and for nothing else, the frames that come back are those that it yields,
/// and the first step that fails is the last one.
pub proof fn unmapping_asks_for_what_it_takes(
    w: World,
    region: VirtMemoryRegion,
    new: Option<VMArea>,
    o: Seq<Reply>,
)
    requires
        tidy(w.vmas),
        paged(region),
        region.len() > 0,
    ensures
        ({
            let (after, r) = unmap(w, region, new, o);
            let steps = new_steps(w.log, after.log);
            &&& extends(w.log, after.log)
            &&& match r {
                Ok(freed) => {
                    &&& all_done(steps)
                    &&& freed == frames_of(steps)
                    &&& in_step(w.vmas, region, new, steps)
                },
                Err(e) => {
                    &&& steps.len() > 0
                    &&& steps.last().reply == Reply::Failed(e)
                    &&& all_done(steps.drop_last())
                },
            }
        }),
{
    let s = w.vmas;
    let first = lemma_affected_distinct(s, region);
    let vmas = affected(s, region);
    let n = vmas.len() as int;
    assert(vmas.take(n) =~= vmas);
    assert forall|i: int, j: int| 0 <= i < j < n implies (#[trigger] vmas[i]).end() <= (
    #[trigger] vmas[j]).start() by {
        assert(vmas[i] == s[first + i] && vmas[j] == s[first + j]);
    }
    assert forall|i: int| 0 <= i < n implies (#[trigger] vmas[i]).region.fits() by {
        assert(vmas[i] == s[first + i]);
        assert(s[first + i].wf());
    }
    lemma_carve_steps(w, vmas, n, region, new, o);
    let (after, r) = unmap(w, region, new, o);
    let steps = new_steps(w.log, after.log);
    if r is Ok {
        assert forall|k: int| 0 <= k < steps.len() implies is_change(#[trigger] steps[k]) by {
            assert(stems(vmas, n, region, new, steps[k]));
            let i = choose|i: int|
                0 <= i < n && fixup_call(region, #[trigger] vmas[i], new) == Some(steps[k].call);
            lemma_fixup(region, vmas[i], new, steps[k]);
        }
        assert forall|addr: int| #[trigger] treated(s, region, new, steps, addr) by {
            lemma_find(s, addr);
            assert forall|k: int| 0 <= k < steps.len() && range_of(#[trigger] steps[k]).has(addr) implies {
                &&& region.has(addr)
                &&& find(s, addr) matches Some(old) && fixup_call(region, old, new) == Some(
                    steps[k].call,
                )
            } by {
                assert(stems(vmas, n, region, new, steps[k]));
                let i = choose|i: int|
                    0 <= i < n && fixup_call(region, #[trigger] vmas[i], new) == Some(steps[k].call);
                lemma_fixup(region, vmas[i], new, steps[k]);
                lemma_find_held(s, vmas[i], addr);
            }
            if let Some(old) = find(s, addr) {
                if region.has(addr) {
                    let x = lemma_holds_index(s, old);
                    assert(s[x] == old);
                    let i = x - first;
                    assert(vmas[i] == old);
                    assert(meets_region(vmas[i], region));
                    assert(answered(fixup_call(region, vmas[i], new), steps));
                    if let Some(c) = fixup_call(region, old, new) {
                        let k = choose|k: int|
                            0 <= k < steps.len() && (#[trigger] steps[k]).call == c;
                        lemma_fixup(region, old, new, steps[k]);
                        assert(range_of(steps[k]).has(addr));
                    }
                }
            }
        }
    }
}

/// Putting in a VMA, with all steps done: the address space is asked for what it takes to
/// put it in place of what was mapped there, and for nothing else.
pub proof fn inserting_asks_for_what_it_takes(w: World, vma: VMArea, o: Seq<Reply>)
    requires
        tidy(w.vmas),
        vma.wf(),
        vma.region.len() > 0,
        all_done(new_steps(w.log, insert(w, vma, o).log)),
    ensures
        extends(w.log, insert(w, vma, o).log),
        in_step(w.vmas, vma.region, Some(vma), new_steps(w.log, insert(w, vma, o).log)),
        unmap(w, vma.region, Some(vma), o).1 is Ok,
{
    reveal(insert);
    unmapping_asks_for_what_it_takes(w, vma.region, Some(vma), o);
    let (after, r) = unmap(w, vma.region, Some(vma), o);
    let steps = new_steps(w.log, after.log);
    assert(insert(w, vma, o).log == after.log);
    if r is Err {
        assert(steps[steps.len() - 1].reply is Failed);
    }
}

} // verus!
