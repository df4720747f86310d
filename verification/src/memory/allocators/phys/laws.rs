//! What the operations of the buddy allocator guarantee.
use vstd::arithmetic::power2::pow2;
use vstd::prelude::*;

use crate::memory::allocators::frame::{AllocatedInfo, FrameUse, TailInfo};
use crate::memory::allocators::slab::slab::SlabModel;
use crate::memory::allocators::phys::buddy::{
    free_state, head_order, is_free, is_idle, lemma_buddy, Buddy,
};
use crate::memory::allocators::phys::MAX_ORDER;
use crate::memory::page::{buddy_of, PageFrame};
use crate::memory::region::imin;

verus! {

/// An allocation succeeds exactly if there is a free block that is large enough.
pub proof fn alloc_succeeds_with_a_large_enough_block(b: Buddy, o: nat)
    requires
        b.wf(),
        o <= MAX_ORDER,
    ensures
        b.alloc_block(o).1 is Some <==> exists|p: int, x: nat|
            o <= x && b.has(p) && #[trigger] is_free(b.at(p), x),
{
    b.lemma_first_order(o as int);
    match b.first_order(o as int) {
        Some(f) => {
            let p = b.lists[f][0];
            assert(b.has(p) && is_free(b.at(p), f as nat));
        },
        None => {
            assert forall|p: int, x: nat| o <= x && b.has(p) implies !#[trigger] is_free(
                b.at(p),
                x,
            ) by {
                if is_free(b.at(p), x) {
                    assert(b.lists[x as int].contains(p));
                    assert(b.lists[x as int].len() == 0);
                }
            }
        },
    }
}

/// An allocated block is aligned to its size and managed by the allocator, was not
/// in use before, and has one reference. Pages that were in use are left alone, and
/// the number of free pages goes down by the size of the block.
pub proof fn alloc_takes_unused_pages(b: Buddy, o: nat)
    requires
        b.wf(),
        o <= MAX_ORDER,
        b.alloc_block(o).1 is Some,
    ensures
        ({
            let (after, block) = b.alloc_block(o);
            let p = block->Some_0;
            &&& after.wf()
            &&& p % pow2(o) as int == 0
            &&& b.base <= p
            &&& p + pow2(o) <= b.base + b.frames.len()
            &&& after.free_pages == b.free_pages - pow2(o)
            &&& after.at(p) == FrameUse::AllocatedHead(
                AllocatedInfo { ref_count: 1, order: o as u8 },
            )
            &&& forall|q: int|
                p <= q < p + pow2(o) ==> after.head_of(q) == p && #[trigger] after.allocated(q)
                    && !b.allocated(q)
            &&& forall|q: int|
                b.has(q) && !is_idle(b.at(q)) && !(b.at(q) is Free) ==> #[trigger] after.at(q)
                    == b.at(q)
        }),
{
    b.lemma_first_order(o as int);
    let from = b.first_order(o as int)->Some_0 as nat;
    let last = b.lists[from as int].len() - 1;
    let p = b.lists[from as int].last();
    b.lemma_take(from, last);
    let t = b.take(from, last);
    t.lemma_split(p, from, o);
    let s = t.split(p, from, o);
    s.lemma_mark(p, o);
    let after = s.mark(p, o);
    vstd::arithmetic::power2::lemma_pow2_pos(o);
    vstd::arithmetic::power2::lemma_pow2_pos(from);
    if o < from {
        vstd::arithmetic::power2::lemma_pow2_strictly_increases(o, from);
    }
    assert(b.has(p));
    assert(is_free(b.at(p), from));
    assert(b.block_ok(p, from));
    assert(after == b.alloc_block(o).0);
    assert forall|q: int| p <= q < p + pow2(o) implies after.head_of(q) == p && #[trigger] after.allocated(
        q,
    ) && !b.allocated(q) by {
        assert(after.has(q));
        assert(after.has(p));
        if q > p {
            assert(after.at(q) == FrameUse::AllocatedTail(
                TailInfo { head: PageFrame::numbered(p) },
            ));
            assert(p <= usize::MAX);
            assert(Buddy::fits_in(b.at(p), p, b.at(q)));
        }
    }
    assert forall|q: int|
        b.has(q) && !is_idle(b.at(q)) && !(b.at(q) is Free) implies #[trigger] after.at(q) == b.at(
        q,
    ) by {
        assert(t.has(q) && s.has(q) && after.has(q));
        assert(t.at(q) == b.at(q));
        if p <= q < p + pow2(from) {
            if q > p {
                assert(Buddy::fits_in(b.at(p), p, b.at(q)));
            }
        } else {
            assert(s.at(q) == t.at(q));
            assert(after.at(q) == s.at(q));
        }
    }
}

/// Giving up the last reference frees the block: none of its pages is in use any
/// more, the number of free pages goes up by its size, and the pages of other
/// blocks that are in use are left alone.
pub proof fn free_releases_the_block(b: Buddy, h: int, info: AllocatedInfo)
    requires
        b.wf(),
        b.has(h),
        b.at(h) == FrameUse::AllocatedHead(info),
        info.ref_count == 1,
    ensures
        ({
            let after = b.drop_ref(h);
            let size = pow2(info.order as nat);
            &&& after.wf()
            &&& after.free_pages == b.free_pages + size
            &&& forall|q: int|
                h <= q < h + size ==> is_idle(#[trigger] after.at(q)) || after.at(q) is Free
            &&& forall|q: int|
                b.has(q) && !(h <= q < h + size) && !is_idle(b.at(q)) && !(b.at(q) is Free)
                    ==> #[trigger] after.at(q) == b.at(q)
        }),
{
    let o = info.order as nat;
    assert(head_order(b.at(h)) == Some(o));
    assert(b.block_ok(h, o));
    b.lemma_clear(h, o);
    let c = b.clear(h, h + pow2(o));
    c.lemma_merge(h, o);
    let after = c.merge(h, o);
    assert(after == b.drop_ref(h));
    assert forall|q: int| h <= q < h + pow2(o) implies is_idle(#[trigger] after.at(q))
        || after.at(q) is Free by {
        assert(c.blank(q));
        assert(c.has(q) && is_idle(c.at(q)));
    }
    assert forall|q: int|
        b.has(q) && !(h <= q < h + pow2(o)) && !is_idle(b.at(q)) && !(b.at(q) is Free) implies #[trigger] after.at(
        q,
    ) == b.at(q) by {
        assert(c.has(q) && c.at(q) == b.at(q));
    }
}

/// Splitting a block and merging its first part again amounts to merging the block.
proof fn lemma_merge_undoes_split(b: Buddy, p: int, from: nat, to: nat)
    requires
        b.wf(),
        to <= from <= MAX_ORDER,
        p % pow2(from) as int == 0,
        b.blank_run(p, pow2(from) as int),
    ensures
        b.split(p, from, to).merge(p, to) == b.merge(p, from),
    decreases from,
{
    if to < from {
        let k = (from - 1) as nat;
        b.lemma_split_once(p, k);
        let u = p + pow2(k);
        let x = b.put(u, k);
        assert(b.blank(p) && b.blank(u));
        lemma_merge_undoes_split(x, p, k, to);
        lemma_buddy(p, k);
        assert(x.at(u) == free_state(k));
        assert(x.mergeable(p, k));
        let l = x.lists[k as int];
        let n = b.lists[k as int].len() as int;
        assert(l == b.lists[k as int].push(u));
        assert(l[n] == u);
        assert(l.contains(u));
        assert(l.index_of(u) == n) by {
            let i = l.index_of(u);
            assert(0 <= i < l.len() && l[i] == u);
            assert(x.lists[k as int].no_duplicates());
        }
        let y = x.take(k, n);
        assert(y == b) by {
            assert(l.remove(n) =~= b.lists[k as int]);
            assert(y.lists =~= b.lists);
            assert(b.at(u) is Uninitialized);
            assert(y.frames =~= b.frames) by {
                assert forall|i: int| 0 <= i < b.frames.len() implies y.frames[i] == b.frames[i] by {
                    assert(b.at(b.base + i) == b.frames[i]);
                }
            }
            assert(y =~= b);
        }
        assert(imin(p, buddy_of(p, k)) == p);
        assert(x.merge(p, k) == b.merge(p, from));
    }
}

/// Freeing a block right after it was allocated restores the state.
pub proof fn free_undoes_alloc(b: Buddy, o: nat)
    requires
        b.wf(),
        o <= MAX_ORDER,
        b.alloc_block(o).1 is Some,
    ensures
        b.alloc_block(o).0.drop_ref(b.alloc_block(o).1->Some_0) == b,
{
    b.lemma_first_order(o as int);
    let from = b.first_order(o as int)->Some_0 as nat;
    let last = b.lists[from as int].len() - 1;
    let p = b.lists[from as int].last();
    b.lemma_take(from, last);
    let t = b.take(from, last);
    t.lemma_split(p, from, o);
    let s = t.split(p, from, o);
    let after = s.mark(p, o);
    vstd::arithmetic::power2::lemma_pow2_pos(o);
    if o < from {
        vstd::arithmetic::power2::lemma_pow2_strictly_increases(o, from);
    }
    assert(b.has(p) && is_free(b.at(p), from));
    assert(b.block_ok(p, from));
    assert forall|q: int| p <= q < p + pow2(from) implies #[trigger] t.at(q) is Uninitialized by {
        assert(t.blank(q));
    }
    alloc_takes_unused_pages(b, o);
    let c = after.clear(p, p + pow2(o));
    assert(c == s) by {
        assert forall|i: int| 0 <= i < s.frames.len() implies c.frames[i] == s.frames[i] by {
            let q = s.base + i;
            assert(s.at(q) == s.frames[i]);
            if p <= q < p + pow2(o) {
                assert(t.has(q));
                assert(s.at(q) == t.at(q));
            }
        }
        assert(c.frames =~= s.frames);
        assert(c =~= s);
    }
    lemma_merge_undoes_split(t, p, from, o);
    assert(from == MAX_ORDER || !t.mergeable(p, from)) by {
        if from < MAX_ORDER && t.mergeable(p, from) {
            assert(b.mergeable(p, from));
        }
    }
    let z = t.put(p, from);
    assert(z == b) by {
        let l = b.lists[from as int];
        assert(l.remove(last).push(p) =~= l);
        assert(z.lists =~= b.lists);
        assert(z.frames =~= b.frames);
        assert(z =~= b);
    }
}

/// Merging a block with its buddies leaves pages of the kernel alone.
proof fn lemma_merge_keeps_kernel(b: Buddy, p: int, o: nat, q: int)
    requires
        b.wf(),
        o <= MAX_ORDER,
        p % pow2(o) as int == 0,
        b.blank_run(p, pow2(o) as int),
        b.has(q),
        b.at(q) is Kernel,
    ensures
        b.merge(p, o).at(q) is Kernel,
    decreases MAX_ORDER - o,
{
    vstd::arithmetic::power2::lemma_pow2_pos(o);
    assert(b.blank(p));
    if o < MAX_ORDER && b.mergeable(p, o) {
        b.lemma_merge_once(p, o);
        lemma_buddy(p, o);
        let other = buddy_of(p, o);
        let t = b.take(o, b.lists[o as int].index_of(other));
        assert(t.has(q) && t.at(q) == b.at(q));
        lemma_merge_keeps_kernel(t, imin(p, other), o + 1, q);
        assert(b.merge(p, o) == t.merge(imin(p, other), o + 1));
    }
}

/// A page of the kernel is in no block.
pub proof fn kernel_pages_are_in_no_block(b: Buddy, h: int, q: int)
    requires
        b.wf(),
        b.has(q),
        b.at(q) is Kernel,
    ensures
        !b.owns(h, q),
{
    if b.owns(h, q) {
        assert(b.has(h));
        assert(b.block_ok(h, head_order(b.at(h))->Some_0));
        if q > h {
            assert(Buddy::fits_in(b.at(h), h, b.at(q)));
        }
    }
}

/// A page of the kernel is never given out: no allocation contains it, and it is
/// still a page of the kernel after each allocation.
pub proof fn alloc_leaves_kernel_pages_alone(b: Buddy, o: nat, q: int)
    requires
        b.wf(),
        o <= MAX_ORDER,
        b.alloc_block(o).1 is Some,
        b.has(q),
        b.at(q) is Kernel,
    ensures
        ({
            let (after, block) = b.alloc_block(o);
            let p = block->Some_0;
            &&& !(p <= q < p + pow2(o))
            &&& after.has(q)
            &&& after.at(q) is Kernel
        }),
{
    b.lemma_first_order(o as int);
    let from = b.first_order(o as int)->Some_0 as nat;
    let last = b.lists[from as int].len() - 1;
    let p = b.lists[from as int].last();
    assert(b.has(p) && is_free(b.at(p), from));
    assert(head_order(b.at(p)) == Some(from));
    kernel_pages_are_in_no_block(b, p, q);
    vstd::arithmetic::power2::lemma_pow2_pos(o);
    if o < from {
        vstd::arithmetic::power2::lemma_pow2_strictly_increases(o, from);
    }
    b.lemma_take(from, last);
    let t = b.take(from, last);
    t.lemma_split(p, from, o);
    let s = t.split(p, from, o);
    assert(t.has(q) && t.at(q) == b.at(q));
    assert(s.at(q) == t.at(q));
}

/// A page of the kernel is still one after each other operation: after a reference
/// to an allocated block is added or given up, after an allocated block becomes a
/// slab or a slab changes, and after a slab is given up.
pub proof fn kernel_pages_stay_with_the_kernel(b: Buddy, h: int, q: int)
    requires
        b.wf(),
        b.has(h),
        b.has(q),
        b.at(q) is Kernel,
    ensures
        b.at(h) is AllocatedHead ==> {
            &&& b.add_ref(h).at(q) is Kernel
            &&& b.drop_ref(h).at(q) is Kernel
        },
        b.at(h) is AllocatedHead || b.at(h) is Slab ==> forall|slab: SlabModel| #[trigger]
            b.set(h, FrameUse::Slab(slab)).at(q) is Kernel,
        b.at(h) is Slab ==> b.free_slab(h).at(q) is Kernel,
{
    if let Some(o) = head_order(b.at(h)) {
        if !(b.at(h) is Free) {
            kernel_pages_are_in_no_block(b, h, q);
            b.lemma_clear(h, o);
            let c = b.clear(h, h + pow2(o));
            assert(c.has(q) && c.at(q) == b.at(q));
            lemma_merge_keeps_kernel(c, h, o, q);
        }
    }
}

/// Sharing an allocation and giving one of the two references up changes nothing.
pub proof fn release_undoes_share(b: Buddy, h: int, info: AllocatedInfo)
    requires
        b.wf(),
        b.has(h),
        b.at(h) == FrameUse::AllocatedHead(info),
        info.ref_count < u32::MAX,
    ensures
        b.add_ref(h).drop_ref(h) == b,
{
    assert(head_order(b.at(h)) == Some(info.order as nat));
    assert(b.block_ok(h, info.order as nat));
    let a = b.add_ref(h);
    assert(a.at(h) == FrameUse::AllocatedHead(
        AllocatedInfo { ref_count: (info.ref_count + 1) as u32, order: info.order },
    ));
    assert(a.drop_ref(h).frames =~= b.frames);
    assert(a.drop_ref(h) =~= b);
}

/// The start of the smallest free block that is large enough is what an allocation gives
/// out. All other free blocks are left alone.
pub proof fn alloc_splits_the_smallest_block(b: Buddy, o: nat)
    requires
        b.wf(),
        o <= MAX_ORDER,
        b.alloc_block(o).1 is Some,
    ensures
        ({
            let (after, block) = b.alloc_block(o);
            let p = block->Some_0;
            exists|x: nat|
                {
                    &&& o <= x <= MAX_ORDER
                    &&& b.has(p)
                    &&& #[trigger] is_free(b.at(p), x)
                    &&& forall|h: int, y: nat|
                        o <= y && b.has(h) && #[trigger] is_free(b.at(h), y) ==> x <= y
                    &&& forall|h: int|
                        b.has(h) && h != p && b.at(h) is Free ==> #[trigger] after.at(h) == b.at(h)
                }
        }),
{
    b.lemma_first_order(o as int);
    let from = b.first_order(o as int)->Some_0 as nat;
    let last = b.lists[from as int].len() - 1;
    let p = b.lists[from as int].last();
    b.lemma_take(from, last);
    let t = b.take(from, last);
    t.lemma_split(p, from, o);
    let s = t.split(p, from, o);
    let after = b.alloc_block(o).0;
    vstd::arithmetic::power2::lemma_pow2_pos(o);
    if o < from {
        vstd::arithmetic::power2::lemma_pow2_strictly_increases(o, from);
    }
    assert(b.has(p) && is_free(b.at(p), from));
    assert(b.block_ok(p, from));
    assert forall|h: int, y: nat| o <= y && b.has(h) && #[trigger] is_free(b.at(h), y) implies from
        <= y by {
        assert(b.lists[y as int].contains(h));
        if y < from {
            assert(b.lists[y as int].len() == 0);
        }
    }
    assert forall|h: int| b.has(h) && h != p && b.at(h) is Free implies #[trigger] after.at(h)
        == b.at(h) by {
        assert(t.has(h) && t.at(h) == b.at(h));
        if p < h < p + pow2(from) {
            assert(Buddy::fits_in(b.at(p), p, b.at(h)));
        }
        assert(s.at(h) == t.at(h));
    }
}

/// A block that was freed and could not be merged with its buddy is the next one of its order
/// that is allocated.
pub proof fn a_freed_block_is_reused(b: Buddy, h: int, info: AllocatedInfo)
    requires
        b.wf(),
        b.has(h),
        b.at(h) == FrameUse::AllocatedHead(info),
        info.ref_count == 1,
        info.order == MAX_ORDER || !(b.has(buddy_of(h, info.order as nat)) && is_free(
            b.at(buddy_of(h, info.order as nat)),
            info.order as nat,
        )),
    ensures
        b.drop_ref(h).alloc_block(info.order as nat).1 == Some(h),
        is_free(b.drop_ref(h).at(h), info.order as nat),
{
    let o = info.order as nat;
    assert(head_order(b.at(h)) == Some(o));
    assert(b.block_ok(h, o));
    vstd::arithmetic::power2::lemma_pow2_pos(o);
    let c = b.clear(h, h + pow2(o));
    let g = buddy_of(h, o);
    assert(!(o < MAX_ORDER && c.mergeable(h, o))) by {
        if o < MAX_ORDER && c.mergeable(h, o) {
            assert(c.at(g) == b.at(g));
        }
    }
    let after = b.drop_ref(h);
    assert(after == c.put(h, o));
    assert(after.lists[o as int].last() == h);
}

/// Giving up one of several references to a block leaves the block allocated, with one
/// reference less, and nothing else changes. Adding one adds one.
pub proof fn references_are_counted(b: Buddy, h: int, info: AllocatedInfo)
    requires
        b.wf(),
        b.has(h),
        b.at(h) == FrameUse::AllocatedHead(info),
    ensures
        info.ref_count > 1 ==> {
            let after = b.drop_ref(h);
            &&& after.free_pages == b.free_pages
            &&& after.lists == b.lists
            &&& after.at(h) matches FrameUse::AllocatedHead(left) && left.ref_count + 1
                == info.ref_count && left.order == info.order
            &&& forall|q: int| b.has(q) && q != h ==> #[trigger] after.at(q) == b.at(q)
        },
        info.ref_count < u32::MAX ==> {
            let after = b.add_ref(h);
            &&& after.free_pages == b.free_pages
            &&& after.lists == b.lists
            &&& after.at(h) matches FrameUse::AllocatedHead(more) && more.ref_count
                == info.ref_count + 1 && more.order == info.order
            &&& forall|q: int| b.has(q) && q != h ==> #[trigger] after.at(q) == b.at(q)
        },
{
}

/// The head of an allocated page is the head of the allocated block that the page is in.
pub proof fn pages_know_their_block(b: Buddy, p: int)
    requires
        b.wf(),
        b.allocated(p),
    ensures
        b.owns(b.head_of(p), p),
        b.at(b.head_of(p)) is AllocatedHead,
        forall|h: int| #[trigger] b.owns(h, p) ==> h == b.head_of(p),
{
    assert(b.has(p));
    let h = b.head_of(p);
    if let FrameUse::AllocatedTail(t) = b.at(p) {
        assert(b.owns(t.head.pfn() as int, p));
    } else {
        assert(b.at(p) is AllocatedHead);
        let o = head_order(b.at(p))->Some_0;
        vstd::arithmetic::power2::lemma_pow2_pos(o);
        assert(b.owns(p, p));
    }
    assert forall|g: int| #[trigger] b.owns(g, p) implies g == h by {
        blocks_are_disjoint(b, g, h, p);
    }
}

/// Free blocks are merged: of two halves of a larger aligned block at most one is free.
pub proof fn free_blocks_are_merged(b: Buddy, h: int, o: nat)
    requires
        b.wf(),
        o < MAX_ORDER,
        h % pow2(o + 1) as int == 0,
        b.has(h),
        b.has(h + pow2(o)),
    ensures
        !(is_free(b.at(h), o) && is_free(b.at(h + pow2(o)), o)),
{
    if is_free(b.at(h), o) && is_free(b.at(h + pow2(o)), o) {
        vstd::arithmetic::power2::lemma_pow2_pos(o);
        assert(b.block_ok(h, o));
        lemma_buddy(h, o);
        assert(b.mergeable(h, o));
    }
}

/// Blocks do not overlap: a page belongs to at most one of them.
pub proof fn blocks_are_disjoint(b: Buddy, g: int, h: int, p: int)
    requires
        b.wf(),
        b.owns(g, p),
        b.owns(h, p),
    ensures
        g == h,
{
    assert(b.has(g) && b.has(h));
    assert(b.block_ok(g, head_order(b.at(g))->Some_0));
    assert(b.block_ok(h, head_order(b.at(h))->Some_0));
    if g < h {
        assert(Buddy::fits_in(b.at(g), g, b.at(h)));
    }
    if h < g {
        assert(Buddy::fits_in(b.at(h), h, b.at(g)));
    }
}

} // verus!
