//! VMAs ordered by their start addresses.
//!
//! A table of VMAs is a sequence in which every VMA starts above the one before
//! it. A start address occurs at most once: putting in a VMA replaces the one
//! with the same start.
use vstd::prelude::*;

use crate::memory::proc_vm::vmarea::VMArea;

verus! {

/// Every VMA starts above the one before it.
pub open spec fn sorted(s: Seq<VMArea>) -> bool {
    forall|i: int, j: int| 0 <= i < j < s.len() ==> #[trigger] s[i].start() < #[trigger] s[j].start()
}

/// Every VMA is well-formed.
pub open spec fn all_wf(s: Seq<VMArea>) -> bool {
    forall|i: int| 0 <= i < s.len() ==> (#[trigger] s[i]).wf()
}

/// The number of VMAs that start below `key`.
pub open spec fn rank(s: Seq<VMArea>, key: int) -> int
    decreases s.len(),
{
    if s.len() == 0 {
        0
    } else if s.last().start() < key {
        s.len() as int
    } else {
        rank(s.drop_last(), key)
    }
}

/// Whether a VMA starts at `key`.
pub open spec fn has_key(s: Seq<VMArea>, key: int) -> bool {
    0 <= rank(s, key) < s.len() && s[rank(s, key)].start() == key
}

/// The table with `vma` in it.
pub open spec fn put(s: Seq<VMArea>, vma: VMArea) -> Seq<VMArea> {
    if has_key(s, vma.start()) {
        s.update(rank(s, vma.start()), vma)
    } else {
        s.insert(rank(s, vma.start()), vma)
    }
}

/// The table without the VMA that starts at `key`.
pub open spec fn cut(s: Seq<VMArea>, key: int) -> Seq<VMArea> {
    if has_key(s, key) {
        s.remove(rank(s, key))
    } else {
        s
    }
}

/// The rank splits a sorted table into what starts below `key` and what does
/// not.
pub proof fn lemma_rank(s: Seq<VMArea>, key: int)
    requires
        sorted(s),
    ensures
        0 <= rank(s, key) <= s.len(),
        forall|i: int| 0 <= i < rank(s, key) ==> (#[trigger] s[i]).start() < key,
        forall|i: int| rank(s, key) <= i < s.len() ==> (#[trigger] s[i]).start() >= key,
    decreases s.len(),
{
    if s.len() > 0 && s.last().start() >= key {
        let t = s.drop_last();
        assert(sorted(t)) by {
            assert forall|i: int, j: int| 0 <= i < j < t.len() implies #[trigger] t[i].start()
                < #[trigger] t[j].start() by {
                assert(s[i].start() < s[j].start());
            }
        }
        lemma_rank(t, key);
        assert forall|i: int| 0 <= i < rank(s, key) implies (#[trigger] s[i]).start() < key by {
            assert(t[i].start() < key);
        }
        assert forall|i: int| rank(s, key) <= i < s.len() implies (#[trigger] s[i]).start()
            >= key by {
            if i < t.len() {
                assert(t[i].start() >= key);
            }
        }
    }
}

/// The rank is the only index that splits a sorted table so.
pub proof fn lemma_rank_unique(s: Seq<VMArea>, key: int, r: int)
    requires
        sorted(s),
        0 <= r <= s.len(),
        r > 0 ==> s[r - 1].start() < key,
        r < s.len() ==> s[r].start() >= key,
    ensures
        rank(s, key) == r,
{
    lemma_rank(s, key);
    if rank(s, key) < r {
        assert(s[r - 1].start() >= key);
    }
    if rank(s, key) > r {
        assert(s[r].start() < key);
    }
}

/// A VMA of a sorted table has the rank of its start.
pub proof fn lemma_rank_at(s: Seq<VMArea>, i: int)
    requires
        sorted(s),
        0 <= i < s.len(),
    ensures
        rank(s, s[i].start()) == i,
        has_key(s, s[i].start()),
{
    if i > 0 {
        assert(s[i - 1].start() < s[i].start());
    }
    lemma_rank_unique(s, s[i].start(), i);
}

/// Putting in a well-formed VMA keeps the table a table.
pub proof fn lemma_put(s: Seq<VMArea>, vma: VMArea)
    requires
        sorted(s),
        all_wf(s),
        vma.wf(),
    ensures
        sorted(put(s, vma)),
        all_wf(put(s, vma)),
{
    lemma_rank(s, vma.start());
    let r = rank(s, vma.start());
    let t = put(s, vma);
    if has_key(s, vma.start()) {
        assert forall|i: int, j: int| 0 <= i < j < t.len() implies #[trigger] t[i].start()
            < #[trigger] t[j].start() by {
            assert(s[i].start() < s[j].start());
        }
    } else {
        assert forall|i: int, j: int| 0 <= i < j < t.len() implies #[trigger] t[i].start()
            < #[trigger] t[j].start() by {
            if j < r {
                assert(s[i].start() < s[j].start());
            } else if j == r {
                assert(s[i].start() < vma.start());
            } else if i == r {
                assert(s[j - 1].start() >= vma.start());
                assert(s[r].start() != vma.start());
                if j - 1 > r {
                    assert(s[r].start() < s[j - 1].start());
                }
            } else if i < r {
                assert(s[i].start() < s[j - 1].start());
            } else {
                assert(s[i - 1].start() < s[j - 1].start());
            }
        }
    }
    assert forall|i: int| 0 <= i < t.len() implies (#[trigger] t[i]).wf() by {
        if i < r {
            assert(t[i] == s[i]);
        } else if i > r {
            if has_key(s, vma.start()) {
                assert(t[i] == s[i]);
            } else {
                assert(t[i] == s[i - 1]);
            }
        }
    }
}

/// Taking out a VMA keeps the table a table.
pub proof fn lemma_cut(s: Seq<VMArea>, key: int)
    requires
        sorted(s),
        all_wf(s),
    ensures
        sorted(cut(s, key)),
        all_wf(cut(s, key)),
        !has_key(cut(s, key), key),
{
    lemma_rank(s, key);
    let r = rank(s, key);
    let t = cut(s, key);
    if has_key(s, key) {
        assert forall|i: int, j: int| 0 <= i < j < t.len() implies #[trigger] t[i].start()
            < #[trigger] t[j].start() by {
            let i2 = if i < r {
                i
            } else {
                i + 1
            };
            let j2 = if j < r {
                j
            } else {
                j + 1
            };
            assert(t[i] == s[i2] && t[j] == s[j2]);
            assert(s[i2].start() < s[j2].start());
        }
        assert forall|i: int| 0 <= i < t.len() implies (#[trigger] t[i]).wf() by {
            let i2 = if i < r {
                i
            } else {
                i + 1
            };
            assert(t[i] == s[i2]);
        }
        lemma_rank(t, key);
        if has_key(t, key) {
            let k = rank(t, key);
            let k2 = if k < r {
                k
            } else {
                k + 1
            };
            assert(t[k] == s[k2]);
            if k2 < r {
                assert(s[k2].start() < key);
            } else {
                assert(s[r].start() < s[k2].start());
            }
        }
    }
}

/// Finds the number of VMAs that start below `key`.
pub(super) fn find_rank(vmas: &Vec<VMArea>, key: usize) -> (r: usize)
    requires
        sorted(vmas@),
    ensures
        r == rank(vmas@, key as int),
        r <= vmas@.len(),
{
    let mut lo: usize = 0;
    let mut hi: usize = vmas.len();
    while lo < hi
        invariant
            sorted(vmas@),
            lo <= hi <= vmas@.len(),
            forall|i: int| 0 <= i < lo ==> (#[trigger] vmas@[i]).start() < key,
            forall|i: int| hi <= i < vmas@.len() ==> (#[trigger] vmas@[i]).start() >= key,
        decreases hi - lo,
    {
        let mid: usize = lo + (hi - lo) / 2;
        if vmas[mid].region.start_address().value() < key {
            proof {
                assert forall|i: int| 0 <= i < mid + 1 implies (#[trigger] vmas@[i]).start()
                    < key by {
                    if i < mid {
                        assert(vmas@[i].start() < vmas@[mid as int].start());
                    }
                }
            }
            lo = mid + 1;
        } else {
            proof {
                assert forall|i: int| mid <= i < vmas@.len() implies (#[trigger] vmas@[i]).start()
                    >= key by {
                    if i > mid {
                        assert(vmas@[mid as int].start() < vmas@[i].start());
                    }
                }
            }
            hi = mid;
        }
    }
    proof {
        lemma_rank_unique(vmas@, key as int, lo as int);
    }
    lo
}

/// Finds the number of VMAs that start at or below `key`.
pub(super) fn find_floor(vmas: &Vec<VMArea>, key: usize) -> (r: usize)
    requires
        sorted(vmas@),
    ensures
        r == rank(vmas@, key + 1),
        r <= vmas@.len(),
{
    let below: usize = find_rank(vmas, key);
    proof {
        lemma_rank(vmas@, key as int);
    }
    if below < vmas.len() && vmas[below].region.start_address().value() == key {
        proof {
            if below + 1 < vmas@.len() {
                assert(vmas@[below as int].start() < vmas@[below + 1].start());
            }
            lemma_rank_unique(vmas@, key + 1, below + 1);
        }
        below + 1
    } else {
        proof {
            if below > 0 {
                assert(vmas@[below - 1].start() < key);
            }
            lemma_rank_unique(vmas@, key + 1, below as int);
        }
        below
    }
}

/// Puts in a VMA.
pub(super) fn put_vma(vmas: &mut Vec<VMArea>, vma: VMArea)
    requires
        sorted(old(vmas)@),
        all_wf(old(vmas)@),
        vma.wf(),
    ensures
        final(vmas)@ == put(old(vmas)@, vma),
        sorted(final(vmas)@),
        all_wf(final(vmas)@),
{
    proof {
        lemma_put(vmas@, vma);
    }
    let key: usize = vma.region.start_address().value();
    let r: usize = find_rank(vmas, key);
    if r < vmas.len() && vmas[r].region.start_address().value() == key {
        vmas.set(r, vma);
    } else {
        vmas.insert(r, vma);
    }
}

/// Takes out the VMA that starts at `key`.
pub(super) fn cut_vma(vmas: &mut Vec<VMArea>, key: usize) -> (r: Option<VMArea>)
    requires
        sorted(old(vmas)@),
        all_wf(old(vmas)@),
    ensures
        final(vmas)@ == cut(old(vmas)@, key as int),
        sorted(final(vmas)@),
        all_wf(final(vmas)@),
        r == (if has_key(old(vmas)@, key as int) {
            Some(old(vmas)@[rank(old(vmas)@, key as int)])
        } else {
            None
        }),
{
    proof {
        lemma_cut(vmas@, key as int);
    }
    let r: usize = find_rank(vmas, key);
    if r < vmas.len() && vmas[r].region.start_address().value() == key {
        Some(vmas.remove(r))
    } else {
        None
    }
}

} // verus!
