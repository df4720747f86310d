//! Each step of the buddy allocator keeps its invariant.
use vstd::arithmetic::power2::pow2;
use vstd::prelude::*;

use crate::memory::allocators::phys::buddy::{
    free_state, head_order, is_free, is_idle, is_tail_of, lemma_buddy, lemma_weight_update, weight,
    Buddy,
};
use crate::memory::allocators::phys::MAX_ORDER;
use crate::memory::allocators::slab::SLAB_FRAME_ALLOC_ORDER;
use crate::memory::allocators::frame::{AllocatedInfo, FrameUse, TailInfo};
use crate::memory::page::{buddy_of, PageFrame};
use crate::memory::region::imin;

verus! {

/// Removing one of several different values leaves the others.
proof fn lemma_remove_unique(s: Seq<int>, k: int)
    requires
        s.no_duplicates(),
        0 <= k < s.len(),
    ensures
        s.remove(k).no_duplicates(),
        s.remove(k).len() == s.len() - 1,
        forall|x: int| #[trigger] s.remove(k).contains(x) <==> s.contains(x) && x != s[k],
{
    let t = s.remove(k);
    assert forall|i: int| 0 <= i < t.len() implies #[trigger] t[i] == (if i < k {
        s[i]
    } else {
        s[i + 1]
    }) by {}
    assert forall|x: int| #[trigger] t.contains(x) <==> s.contains(x) && x != s[k] by {
        if t.contains(x) {
            let i = choose|i: int| 0 <= i < t.len() && t[i] == x;
            if i < k {
                assert(s[i] == x);
            } else {
                assert(s[i + 1] == x);
            }
        }
        if s.contains(x) && x != s[k] {
            let i = choose|i: int| 0 <= i < s.len() && s[i] == x;
            if i < k {
                assert(t[i] == x);
            } else {
                assert(t[i - 1] == x);
            }
        }
    }
}

impl Buddy {
    /// A free block that is taken out of its list leaves frames that are in no block.
    pub proof fn lemma_take(self, o: nat, k: int)
        requires
            self.wf(),
            o <= MAX_ORDER,
            0 <= k < self.lists[o as int].len(),
        ensures
            self.take(o, k).wf(),
            ({
                let p = self.lists[o as int][k];
                &&& self.has(p)
                &&& p % pow2(o) as int == 0
                &&& p + pow2(o) <= self.base + self.frames.len()
                &&& self.take(o, k).blank_run(p, pow2(o) as int)
            }),
            forall|q: int| self.blank(q) ==> #[trigger] self.take(o, k).blank(q),
            pow2(o) <= self.free_pages,
    {
        let p = self.lists[o as int][k];
        let b = self.take(o, k);
        assert(self.has(p) && is_free(self.at(p), o));
        vstd::arithmetic::power2::lemma_pow2_pos(o);
        assert(self.block_ok(p, o));
        lemma_remove_unique(self.lists[o as int], k);
        assert forall|q: int| self.has(q) implies #[trigger] b.at(q) == (if q == p {
            FrameUse::Uninitialized
        } else {
            self.at(q)
        }) by {}
        assert forall|h: int, q: int| #[trigger] b.owns(h, q) implies self.owns(h, q) && h != p by {}
        assert(b.blocks_ok()) by {
            assert forall|h: int| #[trigger] b.has(h) implies match head_order(b.at(h)) {
                Some(ho) => b.block_ok(h, ho),
                None => true,
            } by {
                assert(self.has(h));
                if let Some(ho) = head_order(b.at(h)) {
                    assert(self.block_ok(h, ho));
                    assert forall|q: int| h < q < h + pow2(ho) implies Self::fits_in(
                        b.at(h),
                        h,
                        #[trigger] b.at(q),
                    ) by {
                        assert(Self::fits_in(self.at(h), h, self.at(q)));
                        assert(self.has(q));
                    }
                }
            }
        }
        assert(b.tails_ok()) by {
            assert forall|q: int| #[trigger] b.has(q) implies match b.at(q) {
                FrameUse::AllocatedTail(t) => b.owns(t.head.pfn() as int, q) && t.head.pfn() < q
                    && !(b.at(t.head.pfn() as int) is Free),
                _ => true,
            } by {
                assert(self.has(q));
            }
        }
        assert(b.lists_ok()) by {
            assert forall|x: int, i: int|
                0 <= x <= MAX_ORDER && 0 <= i < b.lists[x].len() implies b.has(
                #[trigger] b.lists[x][i],
            ) && is_free(b.at(b.lists[x][i]), x as nat) by {
                let v = b.lists[x][i];
                assert(b.lists[x].contains(v));
                assert(self.lists[x].contains(v));
                let j = choose|j: int| 0 <= j < self.lists[x].len() && self.lists[x][j] == v;
                assert(self.has(self.lists[x][j]) && is_free(self.at(self.lists[x][j]), x as nat));
            }
            assert forall|q: int| #[trigger] b.has(q) implies match b.at(q) {
                FrameUse::Free { order } => order <= MAX_ORDER && b.lists[order as int].contains(
                    q,
                ),
                _ => true,
            } by {
                assert(self.has(q));
            }
        }
        assert(b.coalesced()) by {
            assert forall|q: int| #[trigger] b.has(q) implies match b.at(q) {
                FrameUse::Free { order } => order < MAX_ORDER ==> !b.mergeable(q, order as nat),
                _ => true,
            } by {
                assert(self.has(q));
            }
        }
        assert(b.free_pages == weight(b.lists, (MAX_ORDER + 1) as nat)) by {
            lemma_weight_update(
                self.lists,
                o as int,
                self.lists[o as int].remove(k),
                (MAX_ORDER + 1) as nat,
            );
            let w = pow2(o) as int;
            assert((-1) * w == -w) by (nonlinear_arith);
        }
        assert forall|q: int| p <= q < p + pow2(o) implies #[trigger] b.blank(q) by {
            assert(self.has(q));
            if q > p {
                assert(Self::fits_in(self.at(p), p, self.at(q)));
            }
            assert forall|h: int| !#[trigger] b.owns(h, q) by {
                if b.owns(h, q) {
                    let ho = head_order(self.at(h))->Some_0;
                    assert(self.has(h));
                    assert(self.block_ok(h, ho));
                    if h < p {
                        assert(Self::fits_in(self.at(h), h, self.at(p)));
                    } else {
                        assert(Self::fits_in(self.at(p), p, self.at(h)));
                    }
                }
            }
        }
        assert forall|q: int| self.blank(q) implies #[trigger] b.blank(q) by {
            assert(self.has(q));
            assert forall|h: int| !#[trigger] b.owns(h, q) by {
                assert(!self.owns(h, q));
            }
        }
        b.lemma_free_pages_bound();
    }

    /// A block of frames that were in no block can become a free block.
    pub proof fn lemma_put(self, p: int, o: nat)
        requires
            self.wf(),
            o <= MAX_ORDER,
            p % pow2(o) as int == 0,
            self.blank_run(p, pow2(o) as int),
            o == MAX_ORDER || !self.mergeable(p, o),
        ensures
            self.put(p, o).wf(),
            forall|q: int|
                self.blank(q) && !(p <= q < p + pow2(o)) ==> #[trigger] self.put(p, o).blank(q),
            forall|q: int|
                self.loose(q) && !(p <= q < p + pow2(o)) ==> #[trigger] self.put(p, o).loose(q),
    {
        let b = self.put(p, o);
        vstd::arithmetic::power2::lemma_pow2_pos(o);
        assert(self.blank(p) && self.blank(p + pow2(o) - 1));
        assert forall|q: int| self.has(q) implies #[trigger] b.at(q) == (if q == p {
            free_state(o)
        } else {
            self.at(q)
        }) by {}
        assert(is_free(b.at(p), o));
        assert(head_order(b.at(p)) == Some(o));
        assert forall|h: int, q: int| h != p implies #[trigger] b.owns(h, q) == self.owns(h, q) by {}
        assert(b.blocks_ok()) by {
            assert forall|h: int| #[trigger] b.has(h) implies match head_order(b.at(h)) {
                Some(ho) => b.block_ok(h, ho),
                None => true,
            } by {
                assert(self.has(h));
                if h == p {
                    assert forall|q: int| h < q < h + pow2(o) implies Self::fits_in(
                        b.at(h),
                        h,
                        #[trigger] b.at(q),
                    ) by {
                        assert(self.blank(q));
                    }
                } else if let Some(ho) = head_order(b.at(h)) {
                    assert(self.block_ok(h, ho));
                    assert forall|q: int| h < q < h + pow2(ho) implies Self::fits_in(
                        b.at(h),
                        h,
                        #[trigger] b.at(q),
                    ) by {
                        assert(Self::fits_in(self.at(h), h, self.at(q)));
                        assert(self.has(q));
                        if q == p {
                            assert(self.owns(h, p));
                        }
                    }
                }
            }
        }
        assert(b.tails_ok()) by {
            assert forall|q: int| #[trigger] b.has(q) implies match b.at(q) {
                FrameUse::AllocatedTail(t) => b.owns(t.head.pfn() as int, q) && t.head.pfn() < q
                    && !(b.at(t.head.pfn() as int) is Free),
                _ => true,
            } by {
                assert(self.has(q));
                if let FrameUse::AllocatedTail(t) = b.at(q) {
                    assert(self.owns(t.head.pfn() as int, q));
                }
            }
        }
        let l = self.lists[o as int];
        assert(!l.contains(p)) by {
            if l.contains(p) {
                let j = choose|j: int| 0 <= j < l.len() && l[j] == p;
                assert(is_free(self.at(self.lists[o as int][j]), o));
            }
        }
        assert(b.lists_ok()) by {
            assert(l.push(p).no_duplicates()) by {
                assert forall|i: int, j: int|
                    0 <= i < l.push(p).len() && 0 <= j < l.push(p).len() && i != j implies l.push(
                    p,
                )[i] != l.push(p)[j] by {
                    if i == l.len() {
                        assert(l.contains(l[j]));
                    } else if j == l.len() {
                        assert(l.contains(l[i]));
                    }
                }
            }
            assert forall|x: int, i: int|
                0 <= x <= MAX_ORDER && 0 <= i < b.lists[x].len() implies b.has(
                #[trigger] b.lists[x][i],
            ) && is_free(b.at(b.lists[x][i]), x as nat) by {
                if i < self.lists[x].len() {
                    assert(self.has(self.lists[x][i]) && is_free(
                        self.at(self.lists[x][i]),
                        x as nat,
                    ));
                    assert(b.lists[x][i] == self.lists[x][i]);
                }
            }
            assert forall|q: int| #[trigger] b.has(q) implies match b.at(q) {
                FrameUse::Free { order } => order <= MAX_ORDER && b.lists[order as int].contains(
                    q,
                ),
                _ => true,
            } by {
                assert(self.has(q));
                if q == p {
                    assert(b.lists[o as int][l.len() as int] == p);
                } else if let FrameUse::Free { order } = b.at(q) {
                    let s = self.lists[order as int];
                    let j = choose|j: int| 0 <= j < s.len() && s[j] == q;
                    assert(b.lists[order as int][j] == q);
                }
            }
        }
        assert(b.coalesced()) by {
            lemma_buddy(p, o);
            assert forall|q: int| #[trigger] b.has(q) implies match b.at(q) {
                FrameUse::Free { order } => order < MAX_ORDER ==> !b.mergeable(q, order as nat),
                _ => true,
            } by {
                assert(self.has(q));
                if q == p {
                    if o < MAX_ORDER && b.mergeable(p, o) {
                        assert(self.mergeable(p, o));
                    }
                } else if let FrameUse::Free { order } = b.at(q) {
                    if order < MAX_ORDER && b.mergeable(q, order as nat) {
                        assert(self.block_ok(q, order as nat));
                        lemma_buddy(q, order as nat);
                        if buddy_of(q, order as nat) == p {
                            assert(order == o);
                            assert(self.mergeable(p, o));
                        } else {
                            assert(self.mergeable(q, order as nat));
                        }
                    }
                }
            }
        }
        assert(b.free_pages == weight(b.lists, (MAX_ORDER + 1) as nat)) by {
            lemma_weight_update(self.lists, o as int, l.push(p), (MAX_ORDER + 1) as nat);
            let w = pow2(o) as int;
            assert(1 * w == w) by (nonlinear_arith);
        }
        assert forall|q: int| self.blank(q) && !(p <= q < p + pow2(o)) implies #[trigger] b.blank(
            q,
        ) by {
            assert(self.has(q));
            assert forall|h: int| !#[trigger] b.owns(h, q) by {
                assert(!self.owns(h, q));
            }
        }
    }

    /// A block of frames that were in no block can become an allocated block.
    pub proof fn lemma_mark(self, p: int, o: nat)
        requires
            self.wf(),
            o <= MAX_ORDER,
            p % pow2(o) as int == 0,
            self.blank_run(p, pow2(o) as int),
        ensures
            self.mark(p, o).wf(),
            forall|q: int|
                self.blank(q) && !(p <= q < p + pow2(o)) ==> #[trigger] self.mark(p, o).blank(q),
    {
        let b = self.mark(p, o);
        let head = FrameUse::AllocatedHead(AllocatedInfo { ref_count: 1, order: o as u8 });
        let tail = FrameUse::AllocatedTail(TailInfo { head: PageFrame::numbered(p) });
        vstd::arithmetic::power2::lemma_pow2_pos(o);
        assert(self.blank(p) && self.blank(p + pow2(o) - 1));
        assert(p <= usize::MAX);
        assert forall|q: int| self.has(q) implies #[trigger] b.at(q) == (if q == p {
            head
        } else if p < q < p + pow2(o) {
            tail
        } else {
            self.at(q)
        }) by {}
        assert(is_tail_of(tail, p));
        assert forall|h: int, q: int| h != p && #[trigger] b.owns(h, q) implies self.owns(h, q) by {}
        assert forall|h: int, q: int| #[trigger] self.owns(h, q) implies b.owns(h, q) && h != p && !(p
            <= h < p + pow2(o)) by {
            if p <= h < p + pow2(o) {
                assert(self.blank(h));
            }
        }
        assert(b.blocks_ok()) by {
            assert forall|h: int| #[trigger] b.has(h) implies match head_order(b.at(h)) {
                Some(ho) => b.block_ok(h, ho),
                None => true,
            } by {
                assert(self.has(h));
                if h == p {
                    assert forall|q: int| h < q < h + pow2(o) implies Self::fits_in(
                        b.at(h),
                        h,
                        #[trigger] b.at(q),
                    ) by {
                        assert(self.blank(q));
                        assert(self.has(q));
                    }
                } else if let Some(ho) = head_order(b.at(h)) {
                    assert(self.block_ok(h, ho));
                    assert forall|q: int| h < q < h + pow2(ho) implies Self::fits_in(
                        b.at(h),
                        h,
                        #[trigger] b.at(q),
                    ) by {
                        assert(Self::fits_in(self.at(h), h, self.at(q)));
                        assert(self.has(q));
                        assert(self.owns(h, q));
                        if p <= q < p + pow2(o) {
                            assert(self.blank(q));
                        }
                    }
                }
            }
        }
        assert(b.tails_ok()) by {
            assert forall|q: int| #[trigger] b.has(q) implies match b.at(q) {
                FrameUse::AllocatedTail(t) => b.owns(t.head.pfn() as int, q) && t.head.pfn() < q
                    && !(b.at(t.head.pfn() as int) is Free),
                _ => true,
            } by {
                assert(self.has(q));
                if !(p < q < p + pow2(o)) {
                    if let FrameUse::AllocatedTail(t) = b.at(q) {
                        assert(self.owns(t.head.pfn() as int, q));
                    }
                }
            }
        }
        assert forall|q: int, x: nat| self.has(q) implies is_free(#[trigger] b.at(q), x)
            == #[trigger] is_free(self.at(q), x) by {
            if p <= q < p + pow2(o) {
                assert(self.blank(q));
            }
        }
        self.lemma_same_free(b);
        assert forall|q: int| self.blank(q) && !(p <= q < p + pow2(o)) implies #[trigger] b.blank(
            q,
        ) by {
            assert(self.has(q));
            assert forall|h: int| !#[trigger] b.owns(h, q) by {
                assert(!self.owns(h, q));
            }
        }
    }

    /// The invariants of the free lists depend on the free blocks alone.
    proof fn lemma_same_free(self, b: Self)
        requires
            self.wf(),
            b.base == self.base,
            b.frames.len() == self.frames.len(),
            b.lists == self.lists,
            b.free_pages == self.free_pages,
            forall|q: int, x: nat|
                self.has(q) ==> is_free(#[trigger] b.at(q), x) == #[trigger] is_free(self.at(q), x),
        ensures
            b.lists_ok(),
            b.coalesced(),
            b.free_pages == weight(b.lists, (MAX_ORDER + 1) as nat),
    {
        assert forall|x: int, i: int|
            0 <= x <= MAX_ORDER && 0 <= i < b.lists[x].len() implies b.has(#[trigger] b.lists[x][i])
            && is_free(b.at(b.lists[x][i]), x as nat) by {
            let v = self.lists[x][i];
            assert(self.has(v) && is_free(self.at(v), x as nat));
        }
        assert forall|q: int| #[trigger] b.has(q) implies match b.at(q) {
            FrameUse::Free { order } => order <= MAX_ORDER && b.lists[order as int].contains(q) && (
            order < MAX_ORDER ==> !b.mergeable(q, order as nat)),
            _ => true,
        } by {
            assert(self.has(q));
            if let FrameUse::Free { order } = b.at(q) {
                assert(is_free(b.at(q), order as nat));
                assert(is_free(self.at(q), order as nat));
                if order < MAX_ORDER && b.mergeable(q, order as nat) {
                    assert(self.mergeable(q, order as nat));
                }
            }
        }
    }

    /// The frames of an allocated block can be given up.
    pub proof fn lemma_clear(self, h: int, o: nat)
        requires
            self.wf(),
            self.has(h),
            head_order(self.at(h)) == Some(o),
            !(self.at(h) is Free),
        ensures
            self.clear(h, h + pow2(o)).wf(),
            self.clear(h, h + pow2(o)).blank_run(h, pow2(o) as int),
            o <= MAX_ORDER,
            h % pow2(o) as int == 0,
            forall|q: int| self.blank(q) ==> #[trigger] self.clear(h, h + pow2(o)).blank(q),
    {
        let b = self.clear(h, h + pow2(o));
        vstd::arithmetic::power2::lemma_pow2_pos(o);
        assert(self.block_ok(h, o));
        assert forall|q: int| self.has(q) implies #[trigger] b.at(q) == (if h <= q < h + pow2(o) {
            FrameUse::Uninitialized
        } else {
            self.at(q)
        }) by {}
        assert forall|q: int| h < q < h + pow2(o) implies is_tail_of(#[trigger] self.at(q), h) by {
            assert(Self::fits_in(self.at(h), h, self.at(q)));
        }
        assert forall|x: int, q: int| #[trigger] b.owns(x, q) implies self.owns(x, q) && x != h by {}
        assert forall|x: int, q: int| self.owns(x, q) && x != h implies #[trigger] b.owns(x, q) by {
            if h < x < h + pow2(o) {
                assert(is_tail_of(self.at(x), h));
            }
        }
        assert(b.blocks_ok()) by {
            assert forall|x: int| #[trigger] b.has(x) implies match head_order(b.at(x)) {
                Some(xo) => b.block_ok(x, xo),
                None => true,
            } by {
                assert(self.has(x));
                if let Some(xo) = head_order(b.at(x)) {
                    assert(self.block_ok(x, xo));
                    assert forall|q: int| x < q < x + pow2(xo) implies Self::fits_in(
                        b.at(x),
                        x,
                        #[trigger] b.at(q),
                    ) by {
                        assert(Self::fits_in(self.at(x), x, self.at(q)));
                        assert(self.has(q));
                        if h <= q < h + pow2(o) {
                            if q > h {
                                assert(is_tail_of(self.at(q), h));
                            }
                        }
                    }
                }
            }
        }
        assert(b.tails_ok()) by {
            assert forall|q: int| #[trigger] b.has(q) implies match b.at(q) {
                FrameUse::AllocatedTail(t) => b.owns(t.head.pfn() as int, q) && t.head.pfn() < q
                    && !(b.at(t.head.pfn() as int) is Free),
                _ => true,
            } by {
                assert(self.has(q));
                if let FrameUse::AllocatedTail(t) = b.at(q) {
                    assert(self.owns(t.head.pfn() as int, q));
                }
            }
        }
        assert forall|q: int, x: nat| self.has(q) implies is_free(#[trigger] b.at(q), x)
            == #[trigger] is_free(self.at(q), x) by {
            if h < q < h + pow2(o) {
                assert(is_tail_of(self.at(q), h));
            }
        }
        self.lemma_same_free(b);
        assert forall|q: int| h <= q < h + pow2(o) implies #[trigger] b.blank(q) by {
            assert(self.has(q));
            assert forall|x: int| !#[trigger] b.owns(x, q) by {
                if b.owns(x, q) {
                    let xo = head_order(self.at(x))->Some_0;
                    assert(self.has(x) && self.block_ok(x, xo));
                    if x < h {
                        assert(Self::fits_in(self.at(x), x, self.at(h)));
                    } else {
                        assert(is_tail_of(self.at(x), h));
                    }
                }
            }
        }
        assert forall|q: int| self.blank(q) implies #[trigger] b.blank(q) by {
            assert(self.has(q));
            assert forall|x: int| !#[trigger] b.owns(x, q) by {
                assert(!self.owns(x, q));
            }
        }
    }

    /// The head of an allocated block can be replaced by another one of the same
    /// order.
    pub proof fn lemma_rehead(self, h: int, s: FrameUse)
        requires
            self.wf(),
            self.has(h),
            head_order(self.at(h)) is Some,
            head_order(s) == head_order(self.at(h)),
            !(self.at(h) is Free),
            !(s is Free),
            s matches FrameUse::AllocatedHead(info) ==> info.ref_count >= 1,
            s matches FrameUse::Slab(slab) ==> slab.ok(),
        ensures
            self.set(h, s).wf(),
            forall|q: int| self.blank(q) ==> #[trigger] self.set(h, s).blank(q),
    {
        let b = self.set(h, s);
        let o = head_order(s)->Some_0;
        assert(self.block_ok(h, o));
        assert forall|q: int| self.has(q) implies #[trigger] b.at(q) == (if q == h {
            s
        } else {
            self.at(q)
        }) by {}
        assert forall|x: int, q: int| #[trigger] b.owns(x, q) == self.owns(x, q) by {}
        assert(b.blocks_ok()) by {
            assert forall|x: int| #[trigger] b.has(x) implies match head_order(b.at(x)) {
                Some(xo) => b.block_ok(x, xo),
                None => true,
            } by {
                assert(self.has(x));
                if let Some(xo) = head_order(b.at(x)) {
                    assert(self.block_ok(x, xo));
                    assert forall|q: int| x < q < x + pow2(xo) implies Self::fits_in(
                        b.at(x),
                        x,
                        #[trigger] b.at(q),
                    ) by {
                        assert(Self::fits_in(self.at(x), x, self.at(q)));
                        assert(self.has(q));
                    }
                }
            }
        }
        assert(b.tails_ok()) by {
            assert forall|q: int| #[trigger] b.has(q) implies match b.at(q) {
                FrameUse::AllocatedTail(t) => b.owns(t.head.pfn() as int, q) && t.head.pfn() < q
                    && !(b.at(t.head.pfn() as int) is Free),
                _ => true,
            } by {
                assert(self.has(q));
                if let FrameUse::AllocatedTail(t) = b.at(q) {
                    assert(self.owns(t.head.pfn() as int, q));
                }
            }
        }
        assert forall|q: int, x: nat| self.has(q) implies is_free(#[trigger] b.at(q), x)
            == #[trigger] is_free(self.at(q), x) by {}
        self.lemma_same_free(b);
        assert forall|q: int| self.blank(q) implies #[trigger] b.blank(q) by {
            assert(self.has(q));
            assert forall|x: int| !#[trigger] b.owns(x, q) by {
                assert(!self.owns(x, q));
            }
        }
    }

    /// A block that is in no list can be split.
    pub proof fn lemma_split(self, p: int, from: nat, to: nat)
        requires
            self.wf(),
            to <= from <= MAX_ORDER,
            p % pow2(from) as int == 0,
            self.blank_run(p, pow2(from) as int),
        ensures
            self.split(p, from, to).wf(),
            self.split(p, from, to).blank_run(p, pow2(to) as int),
            p % pow2(to) as int == 0,
            self.split(p, from, to).free_pages == self.free_pages + pow2(from) - pow2(to),
            self.split(p, from, to).base == self.base,
            self.split(p, from, to).frames.len() == self.frames.len(),
            forall|q: int|
                self.has(q) && (q < p + pow2(to) || p + pow2(from) <= q) ==> #[trigger] self.split(
                    p,
                    from,
                    to,
                ).at(q) == self.at(q),
            forall|q: int|
                p + pow2(to) <= q < p + pow2(from) ==> is_idle(
                    #[trigger] self.split(p, from, to).at(q),
                ) || self.split(p, from, to).at(q) is Free,
        decreases from,
    {
        if from > to {
            let k = (from - 1) as nat;
            self.lemma_split_once(p, k);
            let b = self.put(p + pow2(k), k);
            b.lemma_split(p, k, to);
            if to < k {
                vstd::arithmetic::power2::lemma_pow2_strictly_increases(to, k);
            }
            let s = self.split(p, from, to);
            assert(s == b.split(p, k, to));
            assert forall|q: int|
                self.has(q) && (q < p + pow2(to) || p + pow2(from) <= q) implies #[trigger] s.at(q)
                == self.at(q) by {
                assert(b.has(q));
                assert(b.at(q) == self.at(q));
            }
            assert forall|q: int| p + pow2(to) <= q < p + pow2(from) implies is_idle(
                #[trigger] s.at(q),
            ) || s.at(q) is Free by {
                assert(self.blank(q));
                if q >= p + pow2(k) {
                    assert(b.has(q) && s.at(q) == b.at(q));
                }
            }
        }
    }

    /// One step of splitting a block.
    pub proof fn lemma_split_once(self, p: int, k: nat)
        requires
            self.wf(),
            k < MAX_ORDER,
            p % pow2(k + 1) as int == 0,
            self.blank_run(p, pow2(k + 1) as int),
        ensures
            self.put(p + pow2(k), k).wf(),
            self.put(p + pow2(k), k).blank_run(p, pow2(k) as int),
            p % pow2(k) as int == 0,
            pow2(k + 1) == 2 * pow2(k),
            pow2(k) > 0,
            self.has(p),
            p + pow2(k + 1) <= self.base + self.frames.len(),
    {
        vstd::arithmetic::power2::lemma_pow2_pos(k);
        vstd::arithmetic::power2::lemma_pow2_unfold(k + 1);
        let size = pow2(k) as int;
        assert(self.blank(p));
        assert(self.blank(p + 2 * size - 1));
        let t = p / (2 * size);
        vstd::arithmetic::div_mod::lemma_fundamental_div_mod(p, 2 * size);
        assert(p == (2 * t) * size && p + size == (2 * t + 1) * size) by (nonlinear_arith)
            requires
                p == (2 * size) * t,
        ;
        vstd::arithmetic::div_mod::lemma_mod_multiples_basic(2 * t, size);
        vstd::arithmetic::div_mod::lemma_mod_multiples_basic(2 * t + 1, size);
        lemma_buddy(p, k);
        let u = p + size;
        assert(self.blank_run(u, size)) by {
            assert forall|q: int| u <= q < u + size implies #[trigger] self.blank(q) by {}
        }
        assert(buddy_of(u, k) == p);
        self.lemma_put(u, k);
        let b = self.put(u, k);
        assert forall|q: int| p <= q < p + size implies #[trigger] b.blank(q) by {
            assert(self.blank(q));
        }
    }

    /// A block that is in no list can be merged with its free buddy.
    pub proof fn lemma_merge_once(self, p: int, o: nat)
        requires
            self.wf(),
            o < MAX_ORDER,
            p % pow2(o) as int == 0,
            self.blank_run(p, pow2(o) as int),
            self.mergeable(p, o),
        ensures
            ({
                let b = buddy_of(p, o);
                let k = self.lists[o as int].index_of(b);
                let low = imin(p, b);
                &&& self.lists[o as int].contains(b)
                &&& 0 <= k < self.lists[o as int].len()
                &&& self.lists[o as int][k] == b
                &&& self.take(o, k).wf()
                &&& self.take(o, k).blank_run(low, pow2(o + 1) as int)
                &&& low % pow2(o + 1) as int == 0
                &&& 0 <= low
                &&& pow2(o) <= self.free_pages
            }),
    {
        let b = buddy_of(p, o);
        assert(self.has(b));
        vstd::arithmetic::power2::lemma_pow2_pos(o);
        assert(self.blank(p));
        lemma_buddy(p, o);
        let l = self.lists[o as int];
        assert(l.contains(b));
        let k = l.index_of(b);
        assert(0 <= k < l.len() && l[k] == b) by {
            let j = choose|j: int| 0 <= j < l.len() && l[j] == b;
        }
        self.lemma_take(o, k);
        let t = self.take(o, k);
        let low = imin(p, b);
        assert forall|q: int| low <= q < low + pow2(o + 1) implies #[trigger] t.blank(q) by {
            if p <= q < p + pow2(o) {
                assert(self.blank(q));
            } else {
                assert(b <= q < b + pow2(o));
            }
        }
    }

    /// A block that is in no list can be merged with its buddies, and added to the
    /// free blocks.
    pub proof fn lemma_merge(self, p: int, o: nat)
        requires
            self.wf(),
            o <= MAX_ORDER,
            p % pow2(o) as int == 0,
            self.blank_run(p, pow2(o) as int),
        ensures
            self.merge(p, o).wf(),
            self.merge(p, o).free_pages == self.free_pages + pow2(o),
            self.merge(p, o).base == self.base,
            self.merge(p, o).frames.len() == self.frames.len(),
            forall|q: int|
                self.has(q) && !(self.at(q) is Free) && !is_idle(self.at(q))
                    ==> #[trigger] self.merge(p, o).at(q) == self.at(q),
            forall|q: int|
                self.has(q) && (is_idle(self.at(q)) || self.at(q) is Free) ==> is_idle(
                    #[trigger] self.merge(p, o).at(q),
                ) || self.merge(p, o).at(q) is Free,
        decreases MAX_ORDER - o,
    {
        vstd::arithmetic::power2::lemma_pow2_pos(o);
        assert(self.blank(p));
        if o < MAX_ORDER && self.mergeable(p, o) {
            self.lemma_merge_once(p, o);
            lemma_buddy(p, o);
            let b = buddy_of(p, o);
            let t = self.take(o, self.lists[o as int].index_of(b));
            t.lemma_merge(imin(p, b), o + 1);
            let m = self.merge(p, o);
            assert(m == t.merge(imin(p, b), o + 1));
            assert forall|q: int|
                self.has(q) && !(self.at(q) is Free) && !is_idle(self.at(q)) implies #[trigger] m.at(
                q,
            ) == self.at(q) by {
                assert(t.has(q) && t.at(q) == self.at(q));
            }
            assert forall|q: int|
                self.has(q) && (is_idle(self.at(q)) || self.at(q) is Free) implies is_idle(
                #[trigger] m.at(q),
            ) || m.at(q) is Free by {
                assert(t.has(q) && (is_idle(t.at(q)) || t.at(q) is Free));
            }
        } else {
            self.lemma_put(p, o);
            let m = self.put(p, o);
            assert forall|q: int|
                self.has(q) && !(self.at(q) is Free) && !is_idle(self.at(q)) implies #[trigger] m.at(
                q,
            ) == self.at(q) by {}
        }
    }

    /// The order that an allocation is made from has a free block, and no smaller
    /// order from `o` on has one.
    pub proof fn lemma_first_order(self, o: int)
        requires
            0 <= o,
        ensures
            match self.first_order(o) {
                Some(f) => o <= f <= MAX_ORDER && self.lists[f].len() > 0 && forall|x: int|
                    o <= x < f ==> (#[trigger] self.lists[x]).len() == 0,
                None => forall|x: int| o <= x <= MAX_ORDER ==> (#[trigger] self.lists[x]).len() == 0,
            },
        decreases MAX_ORDER + 1 - o,
    {
        if o <= MAX_ORDER && self.lists[o].len() == 0 {
            self.lemma_first_order(o + 1);
        }
    }

    /// Allocating a block makes no slab.
    pub proof fn lemma_alloc_slabs(self, o: nat)
        requires
            self.wf(),
            o <= MAX_ORDER,
            self.alloc_block(o).1 is Some,
        ensures
            self.alloc_block(o).0.base == self.base,
            self.alloc_block(o).0.frames.len() == self.frames.len(),
            forall|q: int|
                self.has(q) && #[trigger] self.alloc_block(o).0.at(q) is Slab ==> self.alloc_block(
                    o,
                ).0.at(q) == self.at(q),
    {
        self.lemma_first_order(o as int);
        let from = self.first_order(o as int)->Some_0 as nat;
        let last = self.lists[from as int].len() - 1;
        let p = self.lists[from as int].last();
        self.lemma_take(from, last);
        let t = self.take(from, last);
        t.lemma_split(p, from, o);
        let s = t.split(p, from, o);
        let after = s.mark(p, o);
        if o < from {
            vstd::arithmetic::power2::lemma_pow2_strictly_increases(o, from);
        }
        assert forall|q: int| self.has(q) && #[trigger] after.at(q) is Slab implies after.at(q)
            == self.at(q) by {
            assert(t.has(q) && s.has(q));
            assert(after.at(q) == s.at(q));
            if p + pow2(o) <= q < p + pow2(from) {
                assert(is_idle(s.at(q)) || s.at(q) is Free);
            } else {
                assert(s.at(q) == t.at(q));
            }
        }
    }

    /// Freeing the block of a slab leaves the other slabs alone.
    pub proof fn lemma_free_slab(self, p: int)
        requires
            self.wf(),
            self.has(p),
            self.at(p) is Slab,
        ensures
            self.free_slab(p).wf(),
            self.free_slab(p).base == self.base,
            self.free_slab(p).frames.len() == self.frames.len(),
            self.free_slab(p).at(p) !is Slab,
            forall|q: int|
                self.has(q) && q != p && self.at(q) is Slab ==> #[trigger] self.free_slab(p).at(q)
                    == self.at(q),
            forall|q: int|
                self.has(q) && #[trigger] self.free_slab(p).at(q) is Slab ==> self.free_slab(p).at(q)
                    == self.at(q),
            self.free_slab(p).free_pages == self.free_pages + pow2(SLAB_FRAME_ALLOC_ORDER as nat),
            forall|q: int|
                self.has(q) && self.at(self.head_of(q)) is Slab && self.head_of(q) != p
                    ==> #[trigger] self.free_slab(p).at(q) == self.at(q),
    {
        let o = SLAB_FRAME_ALLOC_ORDER as nat;
        self.lemma_clear(p, o);
        assert(self.block_ok(p, o));
        let c = self.clear(p, p + pow2(o));
        c.lemma_merge(p, o);
        let after = self.free_slab(p);
        assert(after == c.merge(p, o));
        vstd::arithmetic::power2::lemma_pow2_pos(o);
        assert(c.blank(p));
        assert(is_idle(c.at(p)));
        assert forall|q: int| self.has(q) && q != p && self.at(q) is Slab implies #[trigger] after.at(
            q,
        ) == self.at(q) by {
            if p < q < p + pow2(o) {
                assert(Self::fits_in(self.at(p), p, self.at(q)));
            }
            assert(c.has(q) && c.at(q) == self.at(q));
        }
        assert forall|q: int| self.has(q) && #[trigger] after.at(q) is Slab implies after.at(q)
            == self.at(q) by {
            assert(c.has(q));
            if is_idle(c.at(q)) || c.at(q) is Free {
                assert(is_idle(after.at(q)) || after.at(q) is Free);
            } else {
                assert(after.at(q) == c.at(q));
            }
        }
        assert forall|q: int|
            self.has(q) && self.at(self.head_of(q)) is Slab && self.head_of(q)
                != p implies #[trigger] after.at(q) == self.at(q) by {
            if p < q < p + pow2(o) {
                assert(Self::fits_in(self.at(p), p, self.at(q)));
            }
            assert(c.has(q) && c.at(q) == self.at(q));
        }
    }
}

} // verus!
