//! What holds of the operations of a memory map, address by address.
//!
//! A memory map is tidy if its VMAs are not empty and do not overlap. Then what
//! is mapped at an address is one VMA, and the operations can be described by what
//! they do to each address.
use vstd::prelude::*;

use crate::error::KernelError;
use crate::memory::address::{aligned_down, aligned_up, aligned_up_is_ceiling};
use crate::memory::page::PageFrame;
use crate::memory::proc_vm::address_space::Reply;
use crate::memory::proc_vm::memory_map::lemmas::{lemma_joined, lemma_parts, paged};
use crate::memory::proc_vm::memory_map::model::{
    affected, carve, carve_all, choose_region, find, fixup_call, free_region, gap_end, insert,
    is_free, join_next, joins_next, joins_prev, left_part, map_region, merge, put_all, put_parts,
    right_part, unmap, World,
};
use crate::memory::proc_vm::memory_map::table::{
    all_wf, cut, has_key, lemma_put, lemma_rank, lemma_rank_at, lemma_rank_unique, put, rank,
    sorted,
};
use crate::memory::proc_vm::memory_map::{lemma_whole_pages, AddressRequest};
use crate::memory::proc_vm::vmarea::{VMAPermissions, VMArea, VMAreaKind};
use crate::memory::region::{imin, VirtMemoryRegion};
use crate::memory::PAGE_SIZE;

verus! {

/// The VMAs are in order, well-formed, not empty, and do not overlap.
pub open spec fn tidy(s: Seq<VMArea>) -> bool {
    &&& all_wf(s)
    &&& forall|i: int| 0 <= i < s.len() ==> (#[trigger] s[i]).start() < s[i].end()
    &&& forall|i: int, j: int|
        0 <= i < j < s.len() ==> (#[trigger] s[i]).end() <= (#[trigger] s[j]).start()
}

/// Both VMAs map the address with the same permissions, and with the same contents:
/// from no file, or from the same position in the same file.
pub open spec fn alike(a: VMArea, b: VMArea, addr: int) -> bool {
    &&& a.region.has(addr)
    &&& b.region.has(addr)
    &&& a.permissions == b.permissions
    &&& a.source(addr) == b.source(addr)
}

/// The address is mapped alike in both, or in neither.
pub open spec fn mapped_alike(s: Seq<VMArea>, t: Seq<VMArea>, addr: int) -> bool {
    match (find(s, addr), find(t, addr)) {
        (Some(a), Some(b)) => alike(a, b, addr),
        (None, None) => true,
        _ => false,
    }
}

/// A tidy table is sorted.
pub proof fn lemma_tidy_sorted(s: Seq<VMArea>)
    requires
        tidy(s),
    ensures
        sorted(s),
{
    assert forall|i: int, j: int| 0 <= i < j < s.len() implies #[trigger] s[i].start()
        < #[trigger] s[j].start() by {
        assert(s[i].start() < s[i].end());
        assert(s[i].end() <= s[j].start());
    }
}

/// The VMA is one of the table.
#[verifier::opaque]
pub open spec fn holds(s: Seq<VMArea>, v: VMArea) -> bool {
    exists|i: int| 0 <= i < s.len() && s[i] == v
}

pub proof fn lemma_holds_at(s: Seq<VMArea>, i: int)
    requires
        0 <= i < s.len(),
    ensures
        holds(s, s[i]),
{
    reveal(holds);
}

pub proof fn lemma_holds_index(s: Seq<VMArea>, v: VMArea) -> (i: int)
    requires
        holds(s, v),
    ensures
        0 <= i < s.len(),
        s[i] == v,
{
    reveal(holds);
    choose|i: int| 0 <= i < s.len() && s[i] == v
}

/// What is found is one of the table, and has the address.
pub proof fn lemma_find(s: Seq<VMArea>, addr: int)
    requires
        tidy(s),
    ensures
        find(s, addr) matches Some(v) ==> v.region.has(addr) && holds(s, v),
{
    lemma_tidy_sorted(s);
    lemma_rank(s, addr + 1);
    let r = rank(s, addr + 1);
    if r > 0 {
        lemma_holds_at(s, r - 1);
    }
}

/// In a tidy table the VMA that has the address is found.
pub proof fn lemma_find_held(s: Seq<VMArea>, v: VMArea, addr: int)
    requires
        tidy(s),
        holds(s, v),
        v.region.has(addr),
    ensures
        find(s, addr) == Some(v),
{
    let i = lemma_holds_index(s, v);
    lemma_tidy_sorted(s);
    if i + 1 < s.len() {
        assert(s[i].end() <= s[i + 1].start());
    }
    lemma_rank_unique(s, addr + 1, i + 1);
}

/// Two VMAs of a tidy table are the same or do not overlap.
pub proof fn lemma_disjoint(s: Seq<VMArea>, a: VMArea, b: VMArea)
    requires
        tidy(s),
        holds(s, a),
        holds(s, b),
    ensures
        a.wf(),
        a.start() < a.end(),
        a == b || a.end() <= b.start() || b.end() <= a.start(),
{
    let i = lemma_holds_index(s, a);
    let j = lemma_holds_index(s, b);
    if i < j {
        assert(s[i].end() <= s[j].start());
    } else if j < i {
        assert(s[j].end() <= s[i].start());
    }
}

/// What carving does to a tidy table, by index.
proof fn lemma_carve_at(s: Seq<VMArea>, k: int, region: VirtMemoryRegion)
    requires
        tidy(s),
        paged(region),
        0 <= k < s.len(),
        s[k].start() < region.end(),
        region.start() < s[k].end(),
    ensures
        carve(s, s[k], region) == (if s[k].start() < region.start() && s[k].end() > region.end() {
            s.update(k, left_part(s[k], region)).insert(k + 1, right_part(s[k], region))
        } else if s[k].start() < region.start() {
            s.update(k, left_part(s[k], region))
        } else if s[k].end() > region.end() {
            s.update(k, right_part(s[k], region))
        } else {
            s.remove(k)
        }),
{
    reveal(put_parts);
    let v = s[k];
    lemma_tidy_sorted(s);
    lemma_rank_at(s, k);
    let s0 = s.remove(k);
    assert(cut(s, v.start()) == s0);
    assert(sorted(s0)) by {
        assert forall|i: int, j: int| 0 <= i < j < s0.len() implies #[trigger] s0[i].start()
            < #[trigger] s0[j].start() by {
            let i2 = if i < k {
                i
            } else {
                i + 1
            };
            let j2 = if j < k {
                j
            } else {
                j + 1
            };
            assert(s[i2].start() < s[j2].start());
        }
    }
    if k > 0 {
        assert(s[k - 1].end() <= v.start());
        assert(s[k - 1].start() < s[k - 1].end());
        assert(s0[k - 1] == s[k - 1]);
    }
    if k + 1 < s.len() {
        assert(v.end() <= s[k + 1].start());
        assert(s0[k] == s[k + 1]);
    }
    let left = left_part(v, region);
    if v.start() < region.start() {
        lemma_rank_unique(s0, left.start(), k);
        let s1 = s.update(k, left);
        assert(put(s0, left) =~= s1);
        if v.end() > region.end() {
            let right = right_part(v, region);
            assert(sorted(s1)) by {
                assert forall|i: int, j: int| 0 <= i < j < s1.len() implies #[trigger] s1[i].start()
                    < #[trigger] s1[j].start() by {
                    assert(s[i].start() < s[j].start());
                }
            }
            lemma_rank_unique(s1, right.start(), k + 1);
            assert(put(s1, right) =~= s1.insert(k + 1, right));
        }
    } else if v.end() > region.end() {
        let right = right_part(v, region);
        lemma_rank_unique(s0, right.start(), k);
        assert(put(s0, right) =~= s.update(k, right));
    }
}

/// A part of a VMA that carving leaves.
spec fn is_part(v: VMArea, region: VirtMemoryRegion, x: VMArea) -> bool {
    ||| v.start() < region.start() && x == left_part(v, region)
    ||| v.end() > region.end() && x == right_part(v, region)
}

/// Carving one VMA of a tidy table replaces it by its parts.
#[verifier::rlimit(60)]
proof fn lemma_carve_tidy(s: Seq<VMArea>, v: VMArea, region: VirtMemoryRegion)
    requires
        tidy(s),
        paged(region),
        holds(s, v),
        v.start() < region.end(),
        region.start() < v.end(),
    ensures
        tidy(carve(s, v, region)),
        forall|x: VMArea| #[trigger]
            holds(carve(s, v, region), x) <==> is_part(v, region, x) || (holds(s, x) && x != v),
{
    let k = lemma_holds_index(s, v);
    let t = carve(s, v, region);
    lemma_carve_at(s, k, region);
    lemma_parts(v, region);
    let both = v.start() < region.start() && v.end() > region.end();
    let gone = v.start() >= region.start() && v.end() <= region.end();
    // Where each VMA of the result comes from.
    let source = |j: int|
        if j <= k {
            if gone && j == k {
                j + 1
            } else {
                j
            }
        } else if both {
            j - 1
        } else if gone {
            j + 1
        } else {
            j
        };
    assert(v.start() < v.end());
    assert forall|j: int| 0 <= j < t.len() implies ({
        let i = #[trigger] source(j);
        &&& 0 <= i < s.len()
        &&& t[j].wf()
        &&& t[j].start() < t[j].end()
        &&& s[i].start() <= t[j].start() && t[j].end() <= s[i].end()
        &&& i != k ==> t[j] == s[i]
        &&& i == k ==> is_part(v, region, t[j])
    }) by {
        let i = source(j);
        assert(s[i].start() < s[i].end());
    }
    assert(all_wf(t)) by {
        assert forall|j: int| 0 <= j < t.len() implies (#[trigger] t[j]).wf() by {
            assert(0 <= source(j) < s.len());
        }
    }
    assert forall|j: int| 0 <= j < t.len() implies (#[trigger] t[j]).start() < t[j].end() by {
        assert(0 <= source(j) < s.len());
    }
    assert forall|i: int, j: int| 0 <= i < j < t.len() implies (#[trigger] t[i]).end() <= (
    #[trigger] t[j]).start() by {
        let i2 = source(i);
        let j2 = source(j);
        assert(0 <= i2 < s.len() && 0 <= j2 < s.len());
        if i2 < j2 {
            assert(s[i2].end() <= s[j2].start());
        } else {
            assert(both && i == k && j == k + 1);
        }
    }
    assert forall|x: VMArea| #[trigger] holds(t, x) <==> is_part(v, region, x) || (holds(s, x) && x
        != v) by {
        if holds(t, x) {
            let j = lemma_holds_index(t, x);
            let i = source(j);
            assert(0 <= i < s.len());
            lemma_holds_at(s, i);
            if i < k {
                assert(s[i].end() <= s[k].start());
            } else if i > k {
                assert(s[k].end() <= s[i].start());
            }
        }
        if holds(s, x) && x != v {
            let i = lemma_holds_index(s, x);
            let j = if i < k {
                i
            } else if both {
                i + 1
            } else if gone {
                i - 1
            } else {
                i
            };
            assert(t[j] == s[i]);
            lemma_holds_at(t, j);
        }
        if is_part(v, region, x) {
            if x == right_part(v, region) && both {
                lemma_holds_at(t, k + 1);
            } else {
                lemma_holds_at(t, k);
            }
            if both {
                lemma_holds_at(t, k);
            }
        }
    }
}

/// What carving does to the address: it is cleared if the VMA has it in the
/// region, else it is mapped as before.
proof fn lemma_carve_find(s: Seq<VMArea>, v: VMArea, region: VirtMemoryRegion, addr: int)
    requires
        tidy(s),
        paged(region),
        holds(s, v),
        v.start() < region.end(),
        region.start() < v.end(),
    ensures
        ({
            let t = carve(s, v, region);
            if v.region.has(addr) {
                &&& region.has(addr) ==> find(t, addr) is None
                &&& !region.has(addr) ==> find(t, addr) is Some && find(t, addr).unwrap().name
                    == v.name && alike(v, find(t, addr).unwrap(), addr)
            } else {
                find(t, addr) == find(s, addr)
            }
        }),
{
    let t = carve(s, v, region);
    lemma_carve_tidy(s, v, region);
    lemma_disjoint(s, v, v);
    lemma_find(t, addr);
    lemma_find(s, addr);
    if v.region.has(addr) {
        if region.has(addr) {
            if let Some(x) = find(t, addr) {
                assert(holds(t, x));
                if holds(s, x) {
                    lemma_disjoint(s, x, v);
                }
            }
        } else {
            let part = if addr < region.start() {
                left_part(v, region)
            } else {
                right_part(v, region)
            };
            assert(holds(t, part));
            lemma_find_held(t, part, addr);
        }
    } else {
        if let Some(x) = find(s, addr) {
            assert(holds(t, x));
            lemma_find_held(t, x, addr);
        } else if let Some(x) = find(t, addr) {
            assert(holds(t, x));
            if holds(s, x) {
                lemma_find_held(s, x, addr);
            }
        }
    }
}

/// The affected VMAs of a tidy table are those that meet the region.
proof fn lemma_affected_tidy(s: Seq<VMArea>, region: VirtMemoryRegion) -> (first: int)
    requires
        tidy(s),
        region.fits(),
        region.len() > 0,
    ensures
        0 <= first <= first + affected(s, region).len() <= s.len(),
        affected(s, region) == s.subrange(first, first + affected(s, region).len()),
        forall|i: int| #![trigger s[i]]
            0 <= i < s.len() ==> (first <= i < first + affected(s, region).len() <==> (
            s[i].start() < region.end() && region.start() < s[i].end())),
{
    lemma_tidy_sorted(s);
    lemma_rank(s, region.start());
    lemma_rank(s, region.end());
    let within = rank(s, region.start());
    let hi = rank(s, region.end());
    let first = if within > 0 && s[within - 1].end() > region.start() {
        within - 1
    } else {
        within
    };
    if hi < within {
        assert(s[hi].start() < region.start());
    }
    assert forall|i: int| #![trigger s[i]] 0 <= i < s.len() implies (first <= i < hi <==> (
    s[i].start() < region.end() && region.start() < s[i].end())) by {
        assert(s[i].start() < s[i].end());
        if i < within - 1 {
            assert(s[i].end() <= s[within - 1].start());
        }
    }
    assert(affected(s, region) =~= s.subrange(first, hi));
    first
}

/// Whether the VMA meets the region.
pub(super) open spec fn meets_region(v: VMArea, region: VirtMemoryRegion) -> bool {
    v.start() < region.end() && region.start() < v.end()
}

/// The VMA is one of the first `n`.
spec fn among(vmas: Seq<VMArea>, n: int, v: VMArea) -> bool {
    exists|i: int| 0 <= i < n && #[trigger] vmas[i] == v
}

/// What becomes of the address when the region is cleared in the first `n` of the
/// VMAs.
spec fn cleared_at(
    s: Seq<VMArea>,
    t: Seq<VMArea>,
    region: VirtMemoryRegion,
    vmas: Seq<VMArea>,
    n: int,
    addr: int,
) -> bool {
    match find(s, addr) {
        None => find(t, addr) is None,
        Some(v) => if among(vmas, n, v) {
            if region.has(addr) {
                find(t, addr) is None
            } else {
                &&& find(t, addr) is Some
                &&& find(t, addr).unwrap().name == v.name
                &&& alike(v, find(t, addr).unwrap(), addr)
            }
        } else {
            find(t, addr) == Some(v)
        },
    }
}

/// The state after dealing with the first `n` of the affected VMAs of a tidy
/// table.
proof fn lemma_carve_all_tidy(
    w: World,
    vmas: Seq<VMArea>,
    n: int,
    region: VirtMemoryRegion,
    new: Option<VMArea>,
    o: Seq<Reply>,
)
    requires
        tidy(w.vmas),
        paged(region),
        region.len() > 0,
        0 <= n <= vmas.len(),
        forall|i: int| 0 <= i < vmas.len() ==> holds(w.vmas, #[trigger] vmas[i]),
        forall|i: int| 0 <= i < vmas.len() ==> meets_region(#[trigger] vmas[i], region),
        forall|i: int, j: int| 0 <= i < j < vmas.len() ==> #[trigger] vmas[i] != #[trigger] vmas[j],
        carve_all(w, vmas.take(n), region, new, o).1 is Ok,
    ensures
        ({
            let t = carve_all(w, vmas.take(n), region, new, o).0.vmas;
            &&& tidy(t)
            &&& forall|v: VMArea| holds(w.vmas, v) && !among(vmas, n, v) ==> #[trigger] holds(t, v)
            &&& forall|addr: int| #[trigger] cleared_at(w.vmas, t, region, vmas, n, addr)
        }),
    decreases n,
{
    let s = w.vmas;
    let t = carve_all(w, vmas.take(n), region, new, o).0.vmas;
    if n == 0 {
        assert forall|addr: int| #[trigger] cleared_at(s, t, region, vmas, n, addr) by {}
    } else {
        assert(vmas.take(n).drop_last() =~= vmas.take(n - 1));
        let v = vmas[n - 1];
        assert(vmas.take(n).last() == v);
        lemma_carve_all_tidy(w, vmas, n - 1, region, new, o);
        let t0 = carve_all(w, vmas.take(n - 1), region, new, o).0.vmas;
        assert(!among(vmas, n - 1, v));
        assert(holds(t0, v));
        assert(t == carve(t0, v, region));
        assert(meets_region(v, region));
        lemma_carve_tidy(t0, v, region);
        assert forall|x: VMArea| holds(s, x) && !among(vmas, n, x) implies #[trigger] holds(
            t,
            x,
        ) by {
            assert(!among(vmas, n - 1, x));
            assert(holds(t0, x));
            assert(vmas[n - 1] != x);
        }
        assert forall|addr: int| #[trigger] cleared_at(s, t, region, vmas, n, addr) by {
            assert(cleared_at(s, t0, region, vmas, n - 1, addr));
            lemma_carve_find(t0, v, region, addr);
            lemma_find(s, addr);
            if v.region.has(addr) {
                lemma_find_held(s, v, addr);
                lemma_find_held(t0, v, addr);
                assert(vmas[n - 1] == v);
            } else if let Some(x) = find(s, addr) {
                assert(x != v);
                assert(among(vmas, n, x) == among(vmas, n - 1, x));
            }
        }
    }
}

/// The affected VMAs of a tidy table are different VMAs of the table, and meet the
/// region.
pub(super) proof fn lemma_affected_distinct(s: Seq<VMArea>, region: VirtMemoryRegion) -> (first: int)
    requires
        tidy(s),
        region.fits(),
        region.len() > 0,
    ensures
        0 <= first <= first + affected(s, region).len() <= s.len(),
        affected(s, region) == s.subrange(first, first + affected(s, region).len()),
        forall|i: int| #![trigger s[i]]
            0 <= i < s.len() ==> (first <= i < first + affected(s, region).len() <==> (
            s[i].start() < region.end() && region.start() < s[i].end())),
        forall|i: int|
            0 <= i < affected(s, region).len() ==> holds(s, #[trigger] affected(s, region)[i]),
        forall|i: int|
            0 <= i < affected(s, region).len() ==> meets_region(
                #[trigger] affected(s, region)[i],
                region,
            ),
        forall|i: int, j: int|
            0 <= i < j < affected(s, region).len() ==> #[trigger] affected(s, region)[i]
                != #[trigger] affected(s, region)[j],
{
    let first = lemma_affected_tidy(s, region);
    let vmas = affected(s, region);
    let n = vmas.len() as int;
    assert forall|i: int| 0 <= i < n implies holds(s, #[trigger] vmas[i]) && meets_region(
        vmas[i],
        region,
    ) by {
        assert(vmas[i] == s[first + i]);
        lemma_holds_at(s, first + i);
    }
    assert forall|i: int, j: int| 0 <= i < j < n implies #[trigger] vmas[i] != #[trigger] vmas[j] by {
        assert(s[first + i].start() < s[first + i].end());
        assert(s[first + i].end() <= s[first + j].start());
    }
    first
}

/// Unmapping a region that the address space agrees to unmap clears the region,
/// and leaves the rest as it was: every address outside is mapped alike, under the
/// same name. What was tidy stays tidy.
pub proof fn unmap_clears_the_region(
    w: World,
    region: VirtMemoryRegion,
    new: Option<VMArea>,
    o: Seq<Reply>,
    addr: int,
)
    requires
        tidy(w.vmas),
        paged(region),
        region.len() > 0,
        unmap(w, region, new, o).1 is Ok,
    ensures
        tidy(unmap(w, region, new, o).0.vmas),
        region.has(addr) ==> find(unmap(w, region, new, o).0.vmas, addr) is None,
        !region.has(addr) ==> match (find(w.vmas, addr), find(
            unmap(w, region, new, o).0.vmas,
            addr,
        )) {
            (Some(v), Some(x)) => alike(v, x, addr) && v.name == x.name,
            (None, None) => true,
            _ => false,
        },
{
    let s = w.vmas;
    let first = lemma_affected_distinct(s, region);
    let vmas = affected(s, region);
    let n = vmas.len() as int;
    assert(vmas.take(n) =~= vmas);
    lemma_carve_all_tidy(w, vmas, n, region, new, o);
    let t = unmap(w, region, new, o).0.vmas;
    assert(cleared_at(s, t, region, vmas, n, addr));
    lemma_find(s, addr);
    lemma_find(t, addr);
    if let Some(v) = find(s, addr) {
        let i = lemma_holds_index(s, v);
        assert(s[i] == v);
        if region.has(addr) {
            assert(vmas[i - first] == v);
        }
    }
}

/// Where a failure ends the clearing of the first `n` of the VMAs.
proof fn lemma_carve_stops(
    w: World,
    vmas: Seq<VMArea>,
    n: int,
    region: VirtMemoryRegion,
    new: Option<VMArea>,
    o: Seq<Reply>,
) -> (k: int)
    requires
        0 <= n <= vmas.len(),
        carve_all(w, vmas.take(n), region, new, o).1 is Err,
    ensures
        0 <= k < n,
        ({
            let (w1, r) = carve_all(w, vmas.take(k), region, new, o);
            let after = carve_all(w, vmas.take(n), region, new, o).0;
            &&& r is Ok
            &&& fixup_call(region, vmas[k], new) == Some(after.log.last().call)
            &&& after.vmas == cut(w1.vmas, vmas[k].start())
        }),
    decreases n,
{
    if n == 0 {
        assert(vmas.take(0) =~= Seq::empty());
        0
    } else {
        assert(vmas.take(n).drop_last() =~= vmas.take(n - 1));
        assert(vmas.take(n).last() == vmas[n - 1]);
        if carve_all(w, vmas.take(n - 1), region, new, o).1 is Err {
            lemma_carve_stops(w, vmas, n - 1, region, new, o)
        } else {
            n - 1
        }
    }
}

/// What is left of the map when the address space fails to clear a region: the VMA that it
/// failed at is gone, what was to be cleared below that is cleared, and all else is mapped
/// alike. What was tidy stays tidy.
pub(super) proof fn lemma_failed_unmap(
    w: World,
    region: VirtMemoryRegion,
    new: Option<VMArea>,
    o: Seq<Reply>,
) -> (v: VMArea)
    requires
        tidy(w.vmas),
        paged(region),
        region.len() > 0,
        unmap(w, region, new, o).1 is Err,
    ensures
        holds(w.vmas, v),
        v.region.meets(region),
        fixup_call(region, v, new) == Some(unmap(w, region, new, o).0.log.last().call),
        tidy(unmap(w, region, new, o).0.vmas),
        forall|addr: int| #![trigger find(unmap(w, region, new, o).0.vmas, addr)]
            if v.region.has(addr) || region.has(addr) && addr < v.start() {
                find(unmap(w, region, new, o).0.vmas, addr) is None
            } else {
                mapped_alike(w.vmas, unmap(w, region, new, o).0.vmas, addr)
            },
{
    let s = w.vmas;
    let first = lemma_affected_distinct(s, region);
    let vmas = affected(s, region);
    let n = vmas.len() as int;
    assert(vmas.take(n) =~= vmas);
    let k = lemma_carve_stops(w, vmas, n, region, new, o);
    lemma_carve_all_tidy(w, vmas, k, region, new, o);
    let t = carve_all(w, vmas.take(k), region, new, o).0.vmas;
    let v = vmas[k];
    assert(!among(vmas, k, v));
    assert(holds(t, v));
    lemma_cut_tidy(t, v);
    lemma_disjoint(s, v, v);
    let u = unmap(w, region, new, o).0.vmas;
    assert(u == cut(t, v.start()));
    assert(meets_region(vmas[k], region));
    assert forall|addr: int| #![trigger find(u, addr)] if v.region.has(addr) || region.has(addr)
        && addr < v.start() {
        find(u, addr) is None
    } else {
        mapped_alike(s, u, addr)
    } by {
        assert(cleared_at(s, t, region, vmas, k, addr));
        lemma_find(s, addr);
        lemma_find(t, addr);
        lemma_find(u, addr);
        if let Some(x) = find(s, addr) {
            let i = lemma_holds_index(s, x);
            assert(s[i] == x);
            lemma_disjoint(s, x, v);
            if region.has(addr) {
                assert(vmas[i - first] == x);
            }
            if among(vmas, k, x) {
                let j = choose|j: int| 0 <= j < k && #[trigger] vmas[j] == x;
                assert(s[first + j].end() <= s[first + k].start());
            } else if region.has(addr) && addr < v.start() {
                if i - first >= k {
                    if i - first > k {
                        assert(s[first + k].end() <= s[i].start());
                    }
                }
            }
        }
        if let Some(y) = find(t, addr) {
            if y != v {
                assert(holds(u, y));
                lemma_find_held(u, y, addr);
                lemma_disjoint(t, y, v);
            }
        }
        if let Some(z) = find(u, addr) {
            assert(holds(t, z));
            lemma_find_held(t, z, addr);
        }
        if v.region.has(addr) {
            lemma_find_held(t, v, addr);
        }
    }
    v
}

/// Unmapping a region keeps the VMAs that do not meet it.
pub proof fn unmap_keeps_others(
    w: World,
    region: VirtMemoryRegion,
    new: Option<VMArea>,
    o: Seq<Reply>,
    vma: VMArea,
)
    requires
        tidy(w.vmas),
        paged(region),
        region.len() > 0,
        unmap(w, region, new, o).1 is Ok,
        holds(w.vmas, vma),
        !vma.region.meets(region),
    ensures
        holds(unmap(w, region, new, o).0.vmas, vma),
{
    let s = w.vmas;
    let vmas = affected(s, region);
    let n = vmas.len() as int;
    lemma_affected_distinct(s, region);
    assert(vmas.take(n) =~= vmas);
    lemma_carve_all_tidy(w, vmas, n, region, new, o);
    if among(vmas, n, vma) {
        let i = choose|i: int| 0 <= i < n && #[trigger] vmas[i] == vma;
        assert(meets_region(vmas[i], region));
    }
}

/// No VMA of the table meets the region.
pub open spec fn clear_of(s: Seq<VMArea>, region: VirtMemoryRegion) -> bool {
    forall|v: VMArea| #[trigger] holds(s, v) ==> !v.region.meets(region)
}

/// Taking out a VMA of a tidy table takes out just that.
pub proof fn lemma_cut_tidy(s: Seq<VMArea>, v: VMArea)
    requires
        tidy(s),
        holds(s, v),
    ensures
        tidy(cut(s, v.start())),
        forall|x: VMArea| #[trigger]
            holds(cut(s, v.start()), x) <==> holds(s, x) && x != v,
{
    let k = lemma_holds_index(s, v);
    lemma_tidy_sorted(s);
    lemma_rank_at(s, k);
    let t = s.remove(k);
    assert(cut(s, v.start()) == t);
    assert forall|j: int| 0 <= j < t.len() implies (#[trigger] t[j]).wf() && t[j].start()
        < t[j].end() by {
        let i = if j < k {
            j
        } else {
            j + 1
        };
        assert(t[j] == s[i]);
    }
    assert forall|i: int, j: int| 0 <= i < j < t.len() implies (#[trigger] t[i]).end() <= (
    #[trigger] t[j]).start() by {
        let i2 = if i < k {
            i
        } else {
            i + 1
        };
        let j2 = if j < k {
            j
        } else {
            j + 1
        };
        assert(s[i2].end() <= s[j2].start());
    }
    assert forall|x: VMArea| #[trigger] holds(t, x) <==> holds(s, x) && x != v by {
        if holds(t, x) {
            let j = lemma_holds_index(t, x);
            let i = if j < k {
                j
            } else {
                j + 1
            };
            lemma_holds_at(s, i);
            assert(s[i].start() < s[i].end());
            if i < k {
                assert(s[i].end() <= s[k].start());
            } else {
                assert(s[k].end() <= s[i].start());
            }
        }
        if holds(s, x) && x != v {
            let i = lemma_holds_index(s, x);
            let j = if i < k {
                i
            } else {
                i - 1
            };
            assert(t[j] == x);
            lemma_holds_at(t, j);
        }
    }
}

/// Putting a VMA where nothing is adds just that.
proof fn lemma_put_tidy(s: Seq<VMArea>, v: VMArea)
    requires
        tidy(s),
        v.wf(),
        v.start() < v.end(),
        clear_of(s, v.region),
    ensures
        tidy(put(s, v)),
        forall|x: VMArea| #[trigger] holds(put(s, v), x) <==> holds(s, x) || x == v,
{
    lemma_tidy_sorted(s);
    lemma_rank(s, v.start());
    let r = rank(s, v.start());
    assert forall|i: int| 0 <= i < s.len() implies (i < r ==> (#[trigger] s[i]).end() <= v.start())
        && (i >= r ==> v.end() <= s[i].start()) by {
        lemma_holds_at(s, i);
        assert(s[i].start() < s[i].end());
    }
    let t = s.insert(r, v);
    assert(!has_key(s, v.start()));
    assert(put(s, v) == t);
    assert forall|j: int| 0 <= j < t.len() implies (#[trigger] t[j]).wf() && t[j].start()
        < t[j].end() by {
        if j < r {
            assert(t[j] == s[j]);
        } else if j > r {
            assert(t[j] == s[j - 1]);
        }
    }
    assert forall|i: int, j: int| 0 <= i < j < t.len() implies (#[trigger] t[i]).end() <= (
    #[trigger] t[j]).start() by {
        if i < r && j < r {
            assert(s[i].end() <= s[j].start());
        } else if i < r && j > r {
            assert(s[i].end() <= s[j - 1].start());
        } else if i > r {
            assert(s[i - 1].end() <= s[j - 1].start());
        } else if i == r {
            assert(v.end() <= s[j - 1].start());
        }
    }
    assert forall|x: VMArea| #[trigger] holds(t, x) <==> holds(s, x) || x == v by {
        if holds(t, x) {
            let j = lemma_holds_index(t, x);
            if j < r {
                lemma_holds_at(s, j);
            } else if j > r {
                lemma_holds_at(s, j - 1);
            }
        }
        if x == v {
            assert(t[r] == v);
            lemma_holds_at(t, r);
        }
        if holds(s, x) {
            let i = lemma_holds_index(s, x);
            if i < r {
                assert(t[i] == x);
                lemma_holds_at(t, i);
            } else {
                assert(t[i + 1] == x);
                lemma_holds_at(t, i + 1);
            }
        }
    }
}

/// Replacing a VMA by one with the same start is taking it out and putting in the
/// other.
proof fn lemma_update_is_put(s: Seq<VMArea>, k: int, v: VMArea)
    requires
        tidy(s),
        0 <= k < s.len(),
        v.start() == s[k].start(),
    ensures
        s.update(k, v) == put(cut(s, s[k].start()), v),
{
    lemma_tidy_sorted(s);
    lemma_rank_at(s, k);
    lemma_holds_at(s, k);
    lemma_cut_tidy(s, s[k]);
    let t = cut(s, s[k].start());
    lemma_tidy_sorted(t);
    assert(t == s.remove(k));
    if k > 0 {
        assert(s[k - 1].start() < s[k].start());
        assert(t[k - 1] == s[k - 1]);
    }
    if k + 1 < s.len() {
        assert(s[k].start() < s[k + 1].start());
        assert(t[k] == s[k + 1]);
    }
    lemma_rank_unique(t, v.start(), k);
    assert(s.update(k, v) =~= put(t, v));
}

/// What joining a VMA with the one after it does.
proof fn lemma_join_next(s: Seq<VMArea>, vma: VMArea) -> (r: Option<VMArea>)
    requires
        tidy(s),
        vma.wf(),
        vma.start() < vma.end(),
        clear_of(s, vma.region),
    ensures
        ({
            let (s1, v1) = join_next(s, vma);
            &&& tidy(s1)
            &&& v1.wf()
            &&& v1.start() == vma.start()
            &&& v1.start() < v1.end()
            &&& v1.name == vma.name
            &&& clear_of(s1, v1.region)
            &&& forall|x: VMArea| #[trigger] holds(s1, x) <==> holds(s, x) && r != Some(x)
            &&& forall|addr: int| #[trigger]
                v1.region.has(addr) <==> vma.region.has(addr) || (r matches Some(next)
                    && next.region.has(addr))
            &&& forall|addr: int| #[trigger] vma.region.has(addr) ==> alike(vma, v1, addr)
            &&& r matches Some(next) ==> {
                &&& holds(s, next)
                &&& next.start() == vma.end()
                &&& forall|addr: int| #[trigger] next.region.has(addr) ==> alike(next, v1, addr)
            }
        }),
        r is Some <==> joins_next(s, vma),
{
    lemma_tidy_sorted(s);
    let (s1, v1) = join_next(s, vma);
    lemma_rank(s, vma.end());
    let next = s[rank(s, vma.end())];
    if joins_next(s, vma) {
        lemma_holds_at(s, rank(s, vma.end()));
        lemma_joined(vma, next);
        lemma_disjoint(s, next, next);
        lemma_cut_tidy(s, next);
        assert forall|x: VMArea| #[trigger] holds(s1, x) implies !x.region.meets(v1.region) by {
            lemma_disjoint(s, x, next);
        }
        Some(next)
    } else {
        None
    }
}

/// The table with the VMA in it, joined with the one before it.
spec fn joined_prev(s: Seq<VMArea>, vma: VMArea) -> Seq<VMArea> {
    if joins_prev(s, vma) {
        let r = rank(s, vma.start());
        s.update(r - 1, s[r - 1].joined(vma))
    } else {
        put(s, vma)
    }
}

/// What joining a VMA with the one before it does.
proof fn lemma_join_prev(s: Seq<VMArea>, vma: VMArea) -> (r: (VMArea, Option<VMArea>))
    requires
        tidy(s),
        vma.wf(),
        vma.start() < vma.end(),
        clear_of(s, vma.region),
    ensures
        tidy(joined_prev(s, vma)),
        forall|x: VMArea| #[trigger]
            holds(joined_prev(s, vma), x) <==> x == r.0 || holds(s, x) && r.1 != Some(x),
        forall|addr: int| #[trigger]
            r.0.region.has(addr) <==> vma.region.has(addr) || (r.1 matches Some(prev)
                && prev.region.has(addr)),
        forall|addr: int| #[trigger] vma.region.has(addr) ==> alike(vma, r.0, addr),
        r.1 is Some <==> joins_prev(s, vma),
        r.1 is None ==> r.0 == vma,
        r.1 matches Some(prev) ==> {
            &&& holds(s, prev)
            &&& prev.end() == vma.start()
            &&& r.0.start() == prev.start()
            &&& r.0.name == prev.name
            &&& forall|addr: int| #[trigger] prev.region.has(addr) ==> alike(prev, r.0, addr)
        },
{
    lemma_tidy_sorted(s);
    lemma_rank(s, vma.start());
    let r = rank(s, vma.start());
    let prev = s[r - 1];
    if joins_prev(s, vma) {
        let whole = prev.joined(vma);
        let base = cut(s, prev.start());
        lemma_holds_at(s, r - 1);
        lemma_disjoint(s, prev, prev);
        lemma_joined(prev, vma);
        lemma_cut_tidy(s, prev);
        lemma_update_is_put(s, r - 1, whole);
        assert forall|x: VMArea| #[trigger] holds(base, x) implies !x.region.meets(
            whole.region,
        ) by {
            lemma_disjoint(s, x, prev);
        }
        lemma_put_tidy(base, whole);
        (whole, Some(prev))
    } else {
        lemma_put_tidy(s, vma);
        (vma, None)
    }
}

/// What merging a VMA in does to the table: the results are the VMA that comes in, and
/// those above and below that go out because they become part of it.
proof fn lemma_merge_shape(s: Seq<VMArea>, vma: VMArea) -> (r: (
    VMArea,
    Option<VMArea>,
    Option<VMArea>,
))
    requires
        tidy(s),
        vma.wf(),
        vma.start() < vma.end(),
        clear_of(s, vma.region),
    ensures
        tidy(merge(s, vma)),
        r.1 matches Some(next) ==> holds(s, next),
        r.2 matches Some(prev) ==> holds(s, prev),
        forall|x: VMArea| #[trigger]
            holds(merge(s, vma), x) <==> x == r.0 || holds(s, x) && r.1 != Some(x) && r.2 != Some(x),
        forall|addr: int| #[trigger]
            r.0.region.has(addr) <==> vma.region.has(addr) || (r.1 matches Some(next)
                && next.region.has(addr)) || (r.2 matches Some(prev) && prev.region.has(addr)),
        forall|addr: int| #[trigger] vma.region.has(addr) ==> alike(vma, r.0, addr),
        r.1 matches Some(next) ==> forall|addr: int| #[trigger]
            next.region.has(addr) ==> alike(next, r.0, addr),
        r.2 matches Some(prev) ==> forall|addr: int| #[trigger]
            prev.region.has(addr) ==> alike(prev, r.0, addr),
        r.1 is Some <==> joins_next(s, vma),
        r.1 matches Some(next) ==> next.start() == vma.end(),
        r.2 is Some <==> joins_prev(join_next(s, vma).0, join_next(s, vma).1),
        r.2 matches Some(prev) ==> prev.end() == vma.start(),
        r.2 is None ==> r.0.start() == vma.start() && r.0.name == vma.name,
        r.2 matches Some(prev) ==> r.0.start() == prev.start() && r.0.name == prev.name,
{
    reveal(merge);
    let (s1, v1) = join_next(s, vma);
    let next = lemma_join_next(s, vma);
    let (whole, prev) = lemma_join_prev(s1, v1);
    assert(merge(s, vma) == joined_prev(s1, v1));
    assert forall|addr: int| #[trigger] vma.region.has(addr) implies alike(vma, whole, addr) by {
        assert(alike(vma, v1, addr));
        assert(v1.region.has(addr));
    }
    if let Some(after) = next {
        assert forall|addr: int| #[trigger] after.region.has(addr) implies alike(
            after,
            whole,
            addr,
        ) by {
            assert(alike(after, v1, addr));
            assert(v1.region.has(addr));
        }
    }
    assert forall|addr: int| #[trigger]
        whole.region.has(addr) <==> vma.region.has(addr) || (next matches Some(after)
            && after.region.has(addr)) || (prev matches Some(before) && before.region.has(addr)) by {
        assert(v1.region.has(addr) <==> vma.region.has(addr) || (next matches Some(after)
            && after.region.has(addr)));
    }
    (whole, next, prev)
}

/// Merging a VMA in where nothing is maps its region, alike, and leaves the rest
/// mapped alike. What was tidy stays tidy.
pub proof fn merge_maps_the_region(s: Seq<VMArea>, vma: VMArea)
    requires
        tidy(s),
        vma.wf(),
        vma.start() < vma.end(),
        clear_of(s, vma.region),
    ensures
        tidy(merge(s, vma)),
        forall|addr: int| #![trigger find(merge(s, vma), addr)]
            if vma.region.has(addr) {
                find(merge(s, vma), addr) matches Some(x) && alike(vma, x, addr)
            } else {
                mapped_alike(s, merge(s, vma), addr)
            },
{
    let t = merge(s, vma);
    let (whole, next, prev) = lemma_merge_shape(s, vma);
    assert forall|addr: int| #![trigger find(t, addr)] if vma.region.has(addr) {
        find(t, addr) matches Some(x) && alike(vma, x, addr)
    } else {
        mapped_alike(s, t, addr)
    } by {
        lemma_find(s, addr);
        lemma_find(t, addr);
        if whole.region.has(addr) {
            assert(holds(t, whole));
            lemma_find_held(t, whole, addr);
            if !vma.region.has(addr) {
                if next is Some && next->Some_0.region.has(addr) {
                    lemma_find_held(s, next->Some_0, addr);
                } else {
                    lemma_find_held(s, prev->Some_0, addr);
                }
            }
        } else {
            if let Some(v) = find(s, addr) {
                assert(holds(t, v));
                lemma_find_held(t, v, addr);
            } else if let Some(x) = find(t, addr) {
                assert(holds(s, x));
                lemma_find_held(s, x, addr);
            }
        }
    }
}

/// What is in a table once a VMA has been put in.
proof fn lemma_put_holds(s: Seq<VMArea>, v: VMArea, x: VMArea)
    requires
        sorted(s),
    ensures
        holds(put(s, v), x) <==> x == v || holds(s, x) && x.start() != v.start(),
{
    let r = rank(s, v.start());
    let t = put(s, v);
    lemma_rank(s, v.start());
    assert(t[r] == v);
    lemma_holds_at(t, r);
    if holds(t, x) {
        let j = lemma_holds_index(t, x);
        let i = if has_key(s, v.start()) || j < r {
            j
        } else {
            j - 1
        };
        if j != r {
            assert(t[j] == s[i]);
            lemma_holds_at(s, i);
            if has_key(s, v.start()) {
                if i < r {
                    assert(s[i].start() < s[r].start());
                } else {
                    assert(s[r].start() < s[i].start());
                }
            } else if i >= r {
                assert(s[r].start() >= v.start());
                if i > r {
                    assert(s[r].start() < s[i].start());
                }
            }
        }
    }
    if holds(s, x) && x.start() != v.start() {
        let i = lemma_holds_index(s, x);
        let j = if has_key(s, v.start()) || i < r {
            i
        } else {
            i + 1
        };
        assert(t[j] == x);
        lemma_holds_at(t, j);
    }
}

/// A table that is made of a list holds the VMAs of the list, in order; but not one that is
/// followed in the list by another one with the same start.
pub proof fn a_list_makes_a_table(vmas: Seq<VMArea>, v: VMArea)
    requires
        all_wf(vmas),
    ensures
        sorted(put_all(vmas)),
        holds(put_all(vmas), v) <==> exists|i: int|
            0 <= i < vmas.len() && #[trigger] vmas[i] == v && forall|j: int|
                i < j < vmas.len() ==> (#[trigger] vmas[j]).start() != v.start(),
    decreases vmas.len(),
{
    if vmas.len() == 0 {
        if holds(put_all(vmas), v) {
            let i = lemma_holds_index(put_all(vmas), v);
        }
    } else {
        let less = vmas.drop_last();
        let s = put_all(less);
        let last = vmas.last();
        let n = vmas.len() - 1;
        assert forall|i: int| 0 <= i < less.len() implies (#[trigger] less[i]).wf() by {
            assert(less[i] == vmas[i]);
        }
        a_list_makes_a_table(less, v);
        lemma_put_all_wf(less);
        assert(vmas[n].wf());
        lemma_put(s, last);
        lemma_put_holds(s, last, v);
        if holds(s, v) && v.start() != last.start() {
            let i = choose|i: int|
                0 <= i < less.len() && #[trigger] less[i] == v && forall|j: int|
                    i < j < less.len() ==> (#[trigger] less[j]).start() != v.start();
            assert forall|j: int| i < j < vmas.len() implies (#[trigger] vmas[j]).start()
                != v.start() by {
                if j < n {
                    assert(less[j] == vmas[j]);
                }
            }
            assert(vmas[i] == v);
        }
        if v == last {
            assert(vmas[n] == v);
        }
        if exists|i: int|
            0 <= i < vmas.len() && #[trigger] vmas[i] == v && forall|j: int|
                i < j < vmas.len() ==> (#[trigger] vmas[j]).start() != v.start() {
            let i = choose|i: int|
                0 <= i < vmas.len() && #[trigger] vmas[i] == v && forall|j: int|
                    i < j < vmas.len() ==> (#[trigger] vmas[j]).start() != v.start();
            if i < n {
                assert(vmas[n].start() != v.start());
                assert(less[i] == v);
                assert forall|j: int| i < j < less.len() implies (#[trigger] less[j]).start()
                    != v.start() by {
                    assert(less[j] == vmas[j]);
                }
            }
        }
    }
}

/// A table that is made of well-formed VMAs is a table of well-formed VMAs.
proof fn lemma_put_all_wf(vmas: Seq<VMArea>)
    requires
        all_wf(vmas),
    ensures
        sorted(put_all(vmas)),
        all_wf(put_all(vmas)),
    decreases vmas.len(),
{
    if vmas.len() > 0 {
        let less = vmas.drop_last();
        assert forall|i: int| 0 <= i < less.len() implies (#[trigger] less[i]).wf() by {
            assert(less[i] == vmas[i]);
        }
        lemma_put_all_wf(less);
        assert(vmas[vmas.len() - 1].wf());
        lemma_put(put_all(less), vmas.last());
    }
}

/// A VMA is found at an address exactly if it is in the table and has the address.
pub proof fn the_vma_of_an_address_is_found(s: Seq<VMArea>, v: VMArea, addr: int)
    requires
        tidy(s),
    ensures
        find(s, addr) == Some(v) <==> holds(s, v) && v.region.has(addr),
{
    lemma_find(s, addr);
    if holds(s, v) && v.region.has(addr) {
        lemma_find_held(s, v, addr);
    }
}

/// A VMA that continues the one before it, or is continued by the one after it, becomes one
/// VMA with it.
pub proof fn what_continues_is_merged(s: Seq<VMArea>, vma: VMArea, other: VMArea)
    requires
        tidy(s),
        vma.wf(),
        vma.start() < vma.end(),
        clear_of(s, vma.region),
        holds(s, other),
    ensures
        other.end() == vma.start() && other.mergeable(vma) ==> (find(
            merge(s, vma),
            vma.start(),
        ) matches Some(x) && x.region.has(other.start())),
        vma.end() == other.start() && vma.mergeable(other) ==> (find(
            merge(s, vma),
            vma.start(),
        ) matches Some(x) && x.region.has(other.end() - 1)),
{
    let t = merge(s, vma);
    let (whole, next, prev) = lemma_merge_shape(s, vma);
    let i = lemma_holds_index(s, other);
    lemma_disjoint(s, other, other);
    lemma_tidy_sorted(s);
    assert(vma.region.has(vma.start()));
    assert(holds(t, whole));
    lemma_find_held(t, whole, vma.start());
    if vma.end() == other.start() && vma.mergeable(other) {
        lemma_rank_at(s, i);
        assert(joins_next(s, vma));
        lemma_disjoint(s, next->Some_0, other);
        lemma_disjoint(s, next->Some_0, next->Some_0);
        assert(next == Some(other));
        assert(other.region.has(other.end() - 1));
    }
    if other.end() == vma.start() && other.mergeable(vma) {
        let (s1, v1) = join_next(s, vma);
        if joins_next(s, vma) {
            lemma_rank(s, vma.end());
            let after = s[rank(s, vma.end())];
            lemma_holds_at(s, rank(s, vma.end()));
            lemma_cut_tidy(s, after);
            lemma_disjoint(s, after, after);
            assert(holds(s1, other));
        }
        let j = lemma_holds_index(s1, other);
        lemma_tidy_sorted(s1);
        assert(v1.start() == vma.start());
        if j + 1 < s1.len() {
            lemma_holds_at(s1, j + 1);
            assert(s1[j].end() <= s1[j + 1].start());
        }
        lemma_rank_unique(s1, v1.start(), j + 1);
        assert(joins_prev(s1, v1));
        lemma_disjoint(s, prev->Some_0, other);
        lemma_disjoint(s, prev->Some_0, prev->Some_0);
        assert(prev == Some(other));
        assert(other.region.has(other.start()));
    }
}

/// Once the region of a VMA has been cleared, nothing is in its way.
proof fn lemma_unmapped_is_clear(w: World, vma: VMArea, o: Seq<Reply>)
    requires
        tidy(w.vmas),
        vma.wf(),
        vma.start() < vma.end(),
        unmap(w, vma.region, Some(vma), o).1 is Ok,
    ensures
        tidy(unmap(w, vma.region, Some(vma), o).0.vmas),
        clear_of(unmap(w, vma.region, Some(vma), o).0.vmas, vma.region),
{
    let region = vma.region;
    let s1 = unmap(w, region, Some(vma), o).0.vmas;
    unmap_clears_the_region(w, region, Some(vma), o, vma.start());
    assert forall|x: VMArea| #[trigger] holds(s1, x) implies !x.region.meets(region) by {
        if x.region.meets(region) {
            lemma_disjoint(s1, x, x);
            let a = if x.start() >= region.start() {
                x.start()
            } else {
                region.start()
            };
            unmap_clears_the_region(w, region, Some(vma), o, a);
            lemma_find_held(s1, x, a);
        }
    }
}

/// A VMA that is mapped keeps its name, unless it continues the VMA before it, which then
/// keeps its own.
pub proof fn inserting_keeps_the_names(w: World, vma: VMArea, o: Seq<Reply>)
    requires
        tidy(w.vmas),
        vma.wf(),
        vma.start() < vma.end(),
        unmap(w, vma.region, Some(vma), o).1 is Ok,
    ensures
        find(insert(w, vma, o).vmas, vma.start()) matches Some(x) && if x.start() == vma.start() {
            x.name == vma.name
        } else {
            find(unmap(w, vma.region, Some(vma), o).0.vmas, vma.start() - 1) matches Some(prev)
                && x.name == prev.name
        },
{
    reveal(insert);
    let s = unmap(w, vma.region, Some(vma), o).0.vmas;
    lemma_unmapped_is_clear(w, vma, o);
    let t = merge(s, vma);
    let (whole, next, prev) = lemma_merge_shape(s, vma);
    assert(vma.region.has(vma.start()));
    assert(holds(t, whole));
    lemma_find_held(t, whole, vma.start());
    if let Some(v) = prev {
        lemma_disjoint(s, v, v);
        lemma_find_held(s, v, vma.start() - 1);
    }
}

/// Mapping a VMA whose region the address space agrees to clear maps its region,
/// alike, and leaves every other address mapped alike. What was tidy stays tidy.
pub proof fn insert_maps_the_region(w: World, vma: VMArea, o: Seq<Reply>, addr: int)
    requires
        tidy(w.vmas),
        vma.wf(),
        vma.start() < vma.end(),
        unmap(w, vma.region, Some(vma), o).1 is Ok,
    ensures
        tidy(insert(w, vma, o).vmas),
        vma.region.has(addr) ==> (find(insert(w, vma, o).vmas, addr) matches Some(x) && alike(
            vma,
            x,
            addr,
        )),
        !vma.region.has(addr) ==> mapped_alike(w.vmas, insert(w, vma, o).vmas, addr),
{
    reveal(insert);
    let region = vma.region;
    let s1 = unmap(w, region, Some(vma), o).0.vmas;
    unmap_clears_the_region(w, region, Some(vma), o, addr);
    lemma_unmapped_is_clear(w, vma, o);
    merge_maps_the_region(s1, vma);
    let t = merge(s1, vma);
    assert(insert(w, vma, o).vmas == t);
    assert(find(t, addr) == find(t, addr));
}

/// A region that is said to be free has no mapped address.
pub proof fn free_region_is_unmapped(s: Seq<VMArea>, region: VirtMemoryRegion)
    requires
        tidy(s),
        region.len() > 0,
        is_free(s, region),
    ensures
        clear_of(s, region),
        affected(s, region).len() == 0,
{
    lemma_tidy_sorted(s);
    lemma_rank(s, region.start());
    lemma_rank(s, region.start() + 1);
    lemma_rank(s, region.end());
    assert forall|v: VMArea| #[trigger] holds(s, v) implies !v.region.meets(region) by {
        let i = lemma_holds_index(s, v);
        let below = rank(s, region.start() + 1);
        let above = rank(s, region.start());
        if i < below - 1 {
            assert(s[i].end() <= s[below - 1].start());
            assert(s[below - 1].start() < s[below - 1].end());
        }
        if i > above {
            assert(s[above].start() < s[above].end());
            assert(s[above].end() <= s[i].start());
        }
    }
    let within = rank(s, region.start());
    let hi = rank(s, region.end());
    if within < hi {
        lemma_holds_at(s, within);
        assert(s[within].start() < s[within].end());
    }
    if within > 0 && s[within - 1].end() > region.start() {
        lemma_holds_at(s, within - 1);
    }
}

/// The region that is found for a mapping at no particular address is free, has the
/// length that was asked for, and lies below the base. No other such region ends
/// higher, and where none is found there is none.
pub proof fn chosen_region_is_the_highest_free_one(s: Seq<VMArea>, base: int, len: int)
    requires
        tidy(s),
        0 < len,
        0 <= base <= usize::MAX,
    ensures
        match free_region(s, base, len) {
            Some(region) => {
                &&& clear_of(s, region)
                &&& is_free(s, region)
                &&& region.len() == len
                &&& region.end() <= base
                &&& forall|other: VirtMemoryRegion| #[trigger]
                    clear_of(s, other) && other.len() == len && other.end() <= base ==> other.end()
                        <= region.end()
            },
            None => forall|other: VirtMemoryRegion|
                other.len() == len && other.end() <= base ==> !#[trigger] clear_of(s, other),
        },
{
    assert(s.take(s.len() as int) =~= s);
    assert forall|other: VirtMemoryRegion| #[trigger]
        clear_of(s, other) && other.len() == len && other.end() <= base implies (gap_end(
        s,
        base,
        len,
    ) matches Some(end) && other.end() <= end) by {
        VirtMemoryRegion::bounds(other, other);
        assert forall|i: int| 0 <= i < s.len() implies (#[trigger] s[i]).end() <= other.start()
            || other.end() <= s[i].start() by {
            lemma_holds_at(s, i);
        }
        lemma_gap_highest(s, s.len() as int, base, len, other.end());
    }
    if gap_end(s, base, len) is Some {
        lemma_gap_is_free(s, base, len);
    }
}

/// Where the search finds a gap, the region is free.
pub(super) proof fn lemma_gap_is_free(s: Seq<VMArea>, base: int, len: int)
    requires
        tidy(s),
        0 < len,
        0 <= base <= usize::MAX,
        free_region(s, base, len) is Some,
    ensures
        clear_of(s, free_region(s, base, len).unwrap()),
        is_free(s, free_region(s, base, len).unwrap()),
        free_region(s, base, len).unwrap().len() == len,
        free_region(s, base, len).unwrap().end() <= base,
        free_region(s, base, len).unwrap().end() == gap_end(s, base, len).unwrap(),
{
    assert(s.take(s.len() as int) =~= s);
    lemma_gap(s, s.len() as int, base, len);
    let end = gap_end(s, base, len).unwrap();
    let region = VirtMemoryRegion::between(end - len, end);
    assert forall|v: VMArea| #[trigger] holds(s, v) implies !v.region.meets(region) by {
        let i = lemma_holds_index(s, v);
    }
    lemma_tidy_sorted(s);
    lemma_rank(s, region.start());
    lemma_rank(s, region.start() + 1);
    let below = rank(s, region.start() + 1);
    let above = rank(s, region.start());
    if below > 0 {
        lemma_holds_at(s, below - 1);
    }
    if above < s.len() {
        lemma_holds_at(s, above);
        assert(s[above].start() < s[above].end());
    }
}

/// The search among the first `n` VMAs misses no gap: where the `len` bytes below `end`
/// are clear of them, it finds these or higher ones.
proof fn lemma_gap_highest(s: Seq<VMArea>, n: int, top: int, len: int, end: int)
    requires
        tidy(s),
        0 <= n <= s.len(),
        0 < len <= end <= top,
        forall|i: int|
            0 <= i < n ==> (#[trigger] s[i]).end() <= end - len || end <= s[i].start(),
    ensures
        gap_end(s.take(n), top, len) matches Some(found) && end <= found,
    decreases n,
{
    let t = s.take(n);
    if n > 0 {
        assert(t.last() == s[n - 1]);
        assert(t.drop_last() =~= s.take(n - 1));
        let last = s[n - 1];
        if !(top - last.end() >= len && top >= last.end()) {
            lemma_gap_highest(s, n - 1, imin(top, last.start()), len, end);
        }
    }
}

/// The search for a gap among the first `n` VMAs, with nothing between `top` and
/// the others.
pub(super) proof fn lemma_gap(s: Seq<VMArea>, n: int, top: int, len: int)
    requires
        tidy(s),
        0 <= n <= s.len(),
        0 < len,
        0 <= top <= usize::MAX,
        forall|i: int| n <= i < s.len() ==> top <= (#[trigger] s[i]).start(),
        gap_end(s.take(n), top, len) is Some,
    ensures
        ({
            let end = gap_end(s.take(n), top, len).unwrap();
            &&& len <= end <= top
            &&& forall|i: int|
                0 <= i < s.len() ==> (#[trigger] s[i]).end() <= end - len || end <= s[i].start()
        }),
    decreases n,
{
    let t = s.take(n);
    if n > 0 {
        assert(t.last() == s[n - 1]);
        assert(t.drop_last() =~= s.take(n - 1));
        let last = s[n - 1];
        assert(last.start() < last.end());
        if top - last.end() >= len && top >= last.end() {
            assert forall|i: int| 0 <= i < s.len() implies (#[trigger] s[i]).end() <= top - len
                || top <= s[i].start() by {
                if i < n - 1 {
                    assert(s[i].end() <= s[n - 1].start());
                }
            }
        } else {
            lemma_gap(s, n - 1, imin(top, last.start()), len);
        }
    }
}

/// Mapping memory at a free place asks nothing of the address space, maps the
/// region as requested, and leaves everything else mapped alike.
pub proof fn mapping_free_memory(
    w: World,
    request: AddressRequest,
    base: int,
    len: int,
    perms: VMAPermissions,
    kind: VMAreaKind,
    name: String,
    o: Seq<Reply>,
    addr: int,
)
    requires
        tidy(w.vmas),
        0 < len,
        0 <= base <= usize::MAX,
        base % PAGE_SIZE as int == 0,
        aligned_up(len, PAGE_SIZE as int) <= usize::MAX,
        request matches AddressRequest::Hint(a) ==> aligned_down(
            a.addr() as int,
            PAGE_SIZE as int,
        ) + aligned_up(len, PAGE_SIZE as int) <= usize::MAX,
        request matches AddressRequest::Fixed { address, permit_overlap } ==> !permit_overlap
            && address.addr() + aligned_up(len, PAGE_SIZE as int) <= usize::MAX,
        kind matches VMAreaKind::File(m) ==> m.offset + aligned_up(len, PAGE_SIZE as int)
            <= u64::MAX,
        map_region(w, request, base, len, perms, kind, name, o).1 is Ok,
    ensures
        ({
            let (after, r) = map_region(w, request, base, len, perms, kind, name, o);
            let start = r->Ok_0.addr() as int;
            let new = VMArea {
                region: VirtMemoryRegion::between(start, start + aligned_up(len, PAGE_SIZE as int)),
                kind,
                permissions: perms,
                name,
            };
            &&& after.log == w.log
            &&& tidy(after.vmas)
            &&& clear_of(w.vmas, new.region)
            &&& new.region.has(addr) ==> (find(after.vmas, addr) matches Some(x) && alike(
                new,
                x,
                addr,
            ))
            &&& !new.region.has(addr) ==> mapped_alike(w.vmas, after.vmas, addr)
        }),
{
    let size = aligned_up(len, PAGE_SIZE as int);
    aligned_up_is_ceiling(len, PAGE_SIZE as int);
    let region = choose_region(w.vmas, request, base, size)->Ok_0;
    let new = VMArea { region, kind, permissions: perms, name };
    if free_region(w.vmas, base, size) is Some {
        chosen_region_is_the_highest_free_one(w.vmas, base, size);
        assert(w.vmas.take(w.vmas.len() as int) =~= w.vmas);
        lemma_gap(w.vmas, w.vmas.len() as int, base, size);
        lemma_gap_aligned(w.vmas, w.vmas.len() as int, base, size);
        lemma_whole_pages(gap_end(w.vmas, base, size).unwrap(), size);
    }
    assert(region.fits() && region.start() % PAGE_SIZE as int == 0 && region.len() == size);
    assert(is_free(w.vmas, region));
    free_region_is_unmapped(w.vmas, region);
    assert(unmap(w, region, Some(new), o) == (w, Ok::<Seq<PageFrame>, KernelError>(Seq::empty())));
    reveal(insert);
    merge_maps_the_region(w.vmas, new);
    let t = merge(w.vmas, new);
    assert(find(t, addr) == find(t, addr));
}

/// The gap that is found ends at a page boundary.
pub(super) proof fn lemma_gap_aligned(s: Seq<VMArea>, n: int, top: int, len: int)
    requires
        tidy(s),
        0 <= n <= s.len(),
        top % PAGE_SIZE as int == 0,
        gap_end(s.take(n), top, len) is Some,
    ensures
        gap_end(s.take(n), top, len).unwrap() % PAGE_SIZE as int == 0,
    decreases n,
{
    if n > 0 {
        assert(s.take(n).last() == s[n - 1]);
        assert(s.take(n).drop_last() =~= s.take(n - 1));
        assert(s[n - 1].wf());
        if !(top - s[n - 1].end() >= len && top >= s[n - 1].end()) {
            lemma_gap_aligned(s, n - 1, imin(top, s[n - 1].start()), len);
        }
    }
}

} // verus!
