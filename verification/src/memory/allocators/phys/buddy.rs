//! The state of the buddy allocator, and what its steps keep.
//!
//! A block of order `o` is a run of `2^o` page frames that starts at a multiple of
//! `2^o`. The frames of a block are described by its first frame, the head.
use vstd::arithmetic::power2::pow2;
use vstd::prelude::*;

use crate::memory::allocators::frame::{
    lemma_unique_in_range, AllocatedInfo, FrameUse, TailInfo,
};
use crate::memory::allocators::phys::MAX_ORDER;
use crate::memory::allocators::slab::SLAB_FRAME_ALLOC_ORDER;
use crate::memory::page::{buddy_of, PageFrame};
use crate::memory::region::imin;
use crate::memory::PAGE_SIZE;

verus! {

/// The order of the block of which a frame in the given state is the head.
pub open spec fn head_order(s: FrameUse) -> Option<nat> {
    match s {
        FrameUse::Free { order } => Some(order as nat),
        FrameUse::AllocatedHead(info) => Some(info.order as nat),
        FrameUse::Slab(_) => Some(SLAB_FRAME_ALLOC_ORDER as nat),
        _ => None,
    }
}

/// The state of the head of a free block of the given order.
pub open spec fn free_state(order: nat) -> FrameUse {
    FrameUse::Free { order: order as u8 }
}

/// The frame is the head of a free block of the given order.
pub open spec fn is_free(s: FrameUse, order: nat) -> bool {
    s matches FrameUse::Free { order: o } && o == order
}

/// The frame is neither a head nor a tail.
pub open spec fn is_idle(s: FrameUse) -> bool {
    s is Uninitialized || s is Kernel
}

/// The frame is a tail of the block at `head`.
pub open spec fn is_tail_of(s: FrameUse, head: int) -> bool {
    s matches FrameUse::AllocatedTail(t) && t.head.pfn() == head
}

/// The number of frames in the free blocks of the first `n` orders.
pub open spec fn weight(lists: Seq<Seq<int>>, n: nat) -> int
    decreases n,
{
    if n == 0 {
        0
    } else {
        weight(lists, (n - 1) as nat) + lists[n - 1].len() * pow2((n - 1) as nat)
    }
}

/// The state of the allocator: what each frame is used for, and for each order the
/// heads of the free blocks. The block that was freed last comes last.
#[verifier::ext_equal]
pub ghost struct Buddy {
    pub base: int,
    pub frames: Seq<FrameUse>,
    pub lists: Seq<Seq<int>>,
    pub free_pages: int,
}

impl Buddy {
    /// The frame is managed by the allocator.
    pub open spec fn has(self, p: int) -> bool {
        self.base <= p < self.base + self.frames.len()
    }

    /// The state of the frame.
    pub open spec fn at(self, p: int) -> FrameUse {
        self.frames[p - self.base]
    }

    /// `h` is the head of a block that holds `p`.
    pub open spec fn owns(self, h: int, p: int) -> bool {
        self.has(h) && (match head_order(self.at(h)) {
            Some(o) => h <= p < h + pow2(o),
            None => false,
        })
    }

    /// The frame is in no block.
    pub open spec fn loose(self, p: int) -> bool {
        self.has(p) && is_idle(self.at(p)) && forall|h: int| !#[trigger] self.owns(h, p)
    }

    /// None of the `n` frames from `p` on is in a block.
    pub open spec fn loose_run(self, p: int, n: int) -> bool {
        forall|q: int| p <= q < p + n ==> #[trigger] self.loose(q)
    }

    /// The frame is in no block, and does not belong to the kernel.
    pub open spec fn blank(self, p: int) -> bool {
        self.at(p) is Uninitialized && self.loose(p)
    }

    /// None of the `n` frames from `p` on is in a block or belongs to the kernel.
    pub open spec fn blank_run(self, p: int, n: int) -> bool {
        forall|q: int| p <= q < p + n ==> #[trigger] self.blank(q)
    }

    /// The frame fits into the block whose head, at `h`, is in state `head`.
    pub open spec fn fits_in(head: FrameUse, h: int, s: FrameUse) -> bool {
        if head is Free {
            s is Uninitialized
        } else {
            is_tail_of(s, h)
        }
    }

    /// The block of order `o` at `h` is aligned and managed, its reference count is
    /// not zero, a slab is well formed, and its other frames fit into it.
    pub open spec fn block_ok(self, h: int, o: nat) -> bool {
        &&& o <= MAX_ORDER
        &&& h % pow2(o) as int == 0
        &&& h + pow2(o) <= self.base + self.frames.len()
        &&& self.at(h) matches FrameUse::AllocatedHead(info) ==> info.ref_count >= 1
        &&& self.at(h) matches FrameUse::Slab(slab) ==> slab.ok()
        &&& forall|q: int| h < q < h + pow2(o) ==> Self::fits_in(self.at(h), h, #[trigger] self.at(q))
    }

    /// Blocks are well formed.
    pub open spec fn blocks_ok(self) -> bool {
        forall|h: int| #[trigger]
            self.has(h) ==> match head_order(self.at(h)) {
                Some(o) => self.block_ok(h, o),
                None => true,
            }
    }

    /// Tails are in the allocated block that they point to.
    pub open spec fn tails_ok(self) -> bool {
        forall|q: int| #[trigger]
            self.has(q) ==> match self.at(q) {
                FrameUse::AllocatedTail(t) => self.owns(t.head.pfn() as int, q) && t.head.pfn() < q
                    && !(self.at(t.head.pfn() as int) is Free),
                _ => true,
            }
    }

    /// The lists hold the heads of the free blocks, each once.
    pub open spec fn lists_ok(self) -> bool {
        &&& self.lists.len() == MAX_ORDER + 1
        &&& forall|o: int| 0 <= o <= MAX_ORDER ==> (#[trigger] self.lists[o]).no_duplicates()
        &&& forall|o: int, k: int|
            0 <= o <= MAX_ORDER && 0 <= k < self.lists[o].len() ==> self.has(
                #[trigger] self.lists[o][k],
            ) && is_free(self.at(self.lists[o][k]), o as nat)
        &&& forall|p: int| #[trigger]
            self.has(p) ==> match self.at(p) {
                FrameUse::Free { order } => order <= MAX_ORDER && self.lists[order as int].contains(
                    p,
                ),
                _ => true,
            }
    }

    /// The buddy of the block of order `o` at `p` is a free block of the same order.
    pub open spec fn mergeable(self, p: int, o: nat) -> bool {
        self.has(buddy_of(p, o)) && is_free(self.at(buddy_of(p, o)), o)
    }

    /// No two free blocks are buddies: they would have been merged.
    pub open spec fn coalesced(self) -> bool {
        forall|p: int| #[trigger]
            self.has(p) ==> match self.at(p) {
                FrameUse::Free { order } => order < MAX_ORDER ==> !self.mergeable(p, order as nat),
                _ => true,
            }
    }

    /// What holds of the allocator between calls.
    pub open spec fn wf(self) -> bool {
        &&& 0 <= self.base
        &&& (self.base + self.frames.len()) * PAGE_SIZE <= usize::MAX
        &&& self.blocks_ok()
        &&& self.tails_ok()
        &&& self.lists_ok()
        &&& self.coalesced()
        &&& self.free_pages == weight(self.lists, (MAX_ORDER + 1) as nat)
    }

    /// The state of the frame is changed.
    pub open spec fn set(self, p: int, s: FrameUse) -> Self {
        Self { frames: self.frames.update(p - self.base, s), ..self }
    }

    /// The frames from `low` up to `high` are given up.
    pub open spec fn clear(self, low: int, high: int) -> Self {
        Self {
            frames: Seq::new(
                self.frames.len(),
                |i: int|
                    if low <= self.base + i < high {
                        FrameUse::Uninitialized
                    } else {
                        self.frames[i]
                    },
            ),
            ..self
        }
    }

    /// The free block at index `k` of the list of order `o` is taken out of the list.
    pub open spec fn take(self, o: nat, k: int) -> Self {
        Self {
            lists: self.lists.update(o as int, self.lists[o as int].remove(k)),
            free_pages: self.free_pages - pow2(o),
            ..self.set(self.lists[o as int][k], FrameUse::Uninitialized)
        }
    }

    /// A block of order `o` at `p` is added to the free blocks.
    pub open spec fn put(self, p: int, o: nat) -> Self {
        Self {
            lists: self.lists.update(o as int, self.lists[o as int].push(p)),
            free_pages: self.free_pages + pow2(o),
            ..self.set(p, free_state(o))
        }
    }

    /// The block of order `o` at `p` is marked as allocated.
    pub open spec fn mark(self, p: int, o: nat) -> Self {
        Self {
            frames: Seq::new(
                self.frames.len(),
                |i: int|
                    if self.base + i == p {
                        FrameUse::AllocatedHead(AllocatedInfo { ref_count: 1, order: o as u8 })
                    } else if p < self.base + i < p + pow2(o) {
                        FrameUse::AllocatedTail(TailInfo { head: PageFrame::numbered(p) })
                    } else {
                        self.frames[i]
                    },
            ),
            ..self
        }
    }

    /// The block of order `from` at `p`, which is in no list, is halved until it is
    /// of order `to`. The upper halves are added to the free blocks.
    pub open spec fn split(self, p: int, from: nat, to: nat) -> Self
        decreases from,
    {
        if from <= to {
            self
        } else {
            self.put(p + pow2((from - 1) as nat), (from - 1) as nat).split(
                p,
                (from - 1) as nat,
                to,
            )
        }
    }

    /// The smallest order, from `o` on, of which there is a free block.
    pub open spec fn first_order(self, o: int) -> Option<int>
        decreases MAX_ORDER + 1 - o,
    {
        if o > MAX_ORDER {
            None
        } else if self.lists[o].len() > 0 {
            Some(o)
        } else {
            self.first_order(o + 1)
        }
    }

    /// A block of order `o` is allocated: the smallest free block that is large
    /// enough, and of these the one that was freed last. It is split if it is too
    /// large.
    pub open spec fn alloc_block(self, o: nat) -> (Self, Option<int>) {
        match self.first_order(o as int) {
            Some(from) => {
                let p = self.lists[from].last();
                (
                    self.take(from as nat, self.lists[from].len() - 1).split(p, from as nat, o).mark(
                        p,
                        o,
                    ),
                    Some(p),
                )
            },
            None => (self, None),
        }
    }

    /// A block of order `o` at `p` that is in no list is merged with its buddy as
    /// long as that is free, and is added to the free blocks.
    pub open spec fn merge(self, p: int, o: nat) -> Self
        decreases MAX_ORDER + 1 - o,
    {
        if o < MAX_ORDER && self.mergeable(p, o) {
            let b = buddy_of(p, o);
            self.take(o, self.lists[o as int].index_of(b)).merge(imin(p, b), o + 1)
        } else {
            self.put(p, o)
        }
    }

    /// The head of the block that the frame belongs to.
    pub open spec fn head_of(self, p: int) -> int {
        match self.at(p) {
            FrameUse::AllocatedTail(t) => t.head.pfn() as int,
            _ => p,
        }
    }

    /// The frame belongs to a block that was allocated and is not used for a slab.
    pub open spec fn allocated(self, p: int) -> bool {
        self.has(p) && self.at(self.head_of(p)) is AllocatedHead
    }

    /// The allocated block at `h` has one reference less.
    pub open spec fn drop_ref(self, h: int) -> Self {
        match self.at(h) {
            FrameUse::AllocatedHead(info) => if info.ref_count > 1 {
                self.set(
                    h,
                    FrameUse::AllocatedHead(
                        AllocatedInfo { ref_count: (info.ref_count - 1) as u32, order: info.order },
                    ),
                )
            } else {
                self.clear(h, h + pow2(info.order as nat)).merge(h, info.order as nat)
            },
            _ => self,
        }
    }

    /// The slab at `p` is given up, and its block freed.
    pub open spec fn free_slab(self, p: int) -> Self {
        self.clear(p, p + pow2(SLAB_FRAME_ALLOC_ORDER as nat)).merge(
            p,
            SLAB_FRAME_ALLOC_ORDER as nat,
        )
    }

    /// The allocated block at `h` has one reference more.
    pub open spec fn add_ref(self, h: int) -> Self {
        match self.at(h) {
            FrameUse::AllocatedHead(info) => self.set(
                h,
                FrameUse::AllocatedHead(
                    AllocatedInfo { ref_count: (info.ref_count + 1) as u32, order: info.order },
                ),
            ),
            _ => self,
        }
    }
}

/// Facts about a block and its buddy.
pub proof fn lemma_buddy(p: int, o: nat)
    requires
        0 <= p,
        p % pow2(o) as int == 0,
    ensures
        ({
            let b = buddy_of(p, o);
            let low = imin(p, b);
            &&& 0 <= b
            &&& b % pow2(o) as int == 0
            &&& buddy_of(b, o) == p
            &&& low % pow2(o + 1) as int == 0
            &&& pow2(o + 1) == 2 * pow2(o)
            &&& pow2(o) > 0
            &&& (b == p + pow2(o) || b == p - pow2(o))
            &&& (p % pow2(o + 1) as int == 0 ==> b == p + pow2(o))
        }),
{
    vstd::arithmetic::power2::lemma_pow2_pos(o);
    vstd::arithmetic::power2::lemma_pow2_unfold(o + 1);
    let size = pow2(o) as int;
    let m = p / size;
    vstd::arithmetic::div_mod::lemma_fundamental_div_mod(p, size);
    assert(p == m * size) by (nonlinear_arith)
        requires
            p == size * m,
    ;
    assert(m >= 0) by (nonlinear_arith)
        requires
            p == m * size,
            p >= 0,
            size > 0,
    ;
    assert((m + 1) * size == m * size + size && (m - 1) * size == m * size - size)
        by (nonlinear_arith);
    vstd::arithmetic::div_mod::lemma_mod_multiples_basic(m + 1, size);
    vstd::arithmetic::div_mod::lemma_mod_multiples_basic(m - 1, size);
    vstd::arithmetic::div_mod::lemma_div_by_multiple(m + 1, size);
    if m >= 1 {
        vstd::arithmetic::div_mod::lemma_div_by_multiple(m - 1, size);
    }
    let even = if m % 2 == 0 {
        m
    } else {
        m - 1
    };
    let j = even / 2;
    assert(even == 2 * j);
    assert(even * size == j * (2 * size)) by (nonlinear_arith)
        requires
            even == 2 * j,
    ;
    vstd::arithmetic::div_mod::lemma_mod_multiples_basic(j, 2 * size);
    if p % pow2(o + 1) as int == 0 {
        let t = p / (2 * size);
        vstd::arithmetic::div_mod::lemma_fundamental_div_mod(p, 2 * size);
        assert(p == (2 * t) * size) by (nonlinear_arith)
            requires
                p == (2 * size) * t,
        ;
        vstd::arithmetic::div_mod::lemma_div_by_multiple(2 * t, size);
    }
}

/// The weight changes with the length of one list.
pub proof fn lemma_weight_update(lists: Seq<Seq<int>>, k: int, l: Seq<int>, n: nat)
    requires
        0 <= k < lists.len(),
        n <= lists.len(),
    ensures
        weight(lists.update(k, l), n) == weight(lists, n) + (if k < n {
            (l.len() - lists[k].len()) * pow2(k as nat)
        } else {
            0
        }),
    decreases n,
{
    if n > 0 {
        lemma_weight_update(lists, k, l, (n - 1) as nat);
        if n - 1 == k {
            let (a, b, w) = (l.len() as int, lists[k].len() as int, pow2(k as nat) as int);
            assert(a * w == b * w + (a - b) * w) by (nonlinear_arith);
        }
    }
}

/// Lists of bounded length have a bounded weight.
pub proof fn lemma_weight_bound(lists: Seq<Seq<int>>, n: nat, max: int)
    requires
        n <= lists.len(),
        0 <= max,
        forall|o: int| 0 <= o < n ==> (#[trigger] lists[o]).len() <= max,
    ensures
        0 <= weight(lists, n) <= max * (pow2(n) - 1),
    decreases n,
{
    if n == 0 {
        vstd::arithmetic::power2::lemma2_to64();
        assert(max * (pow2(n) - 1) == 0) by (nonlinear_arith)
            requires
                pow2(n) == 1,
        ;
    } else {
        let m = (n - 1) as nat;
        lemma_weight_bound(lists, m, max);
        vstd::arithmetic::power2::lemma_pow2_pos(m);
        vstd::arithmetic::power2::lemma_pow2_unfold(n);
        let (len, w) = (lists[m as int].len() as int, pow2(m) as int);
        assert(0 <= len * w <= max * w) by (nonlinear_arith)
            requires
                0 <= len <= max,
                w > 0,
        ;
        assert(max * (w - 1) + max * w == max * (2 * w - 1)) by (nonlinear_arith);
    }
}

impl Buddy {
    /// The number of free pages is far below the number of addresses.
    pub proof fn lemma_free_pages_bound(self)
        requires
            self.wf(),
        ensures
            0 <= self.free_pages,
            self.free_pages + 2048 <= usize::MAX,
    {
        let total = self.frames.len() as int;
        assert forall|o: int| 0 <= o < MAX_ORDER + 1 implies (#[trigger] self.lists[o]).len()
            <= total by {
            let l = self.lists[o];
            assert forall|k: int| 0 <= k < l.len() implies self.base <= #[trigger] l[k] < self.base
                + total by {
                assert(self.has(self.lists[o][k]));
            }
            lemma_unique_in_range(l, self.base, self.base + total);
        }
        lemma_weight_bound(self.lists, (MAX_ORDER + 1) as nat, total);
        vstd::arithmetic::power2::lemma2_to64();
        assert(pow2((MAX_ORDER + 1) as nat) == 2048);
        assert(total * 2047 >= 0);
        if total == 0 {
            assert(usize::MAX >= 2048);
        } else {
            assert(total * 4096 <= usize::MAX);
            assert(total * 2047 + 2048 <= total * 4096);
        }
    }
}

} // verus!
