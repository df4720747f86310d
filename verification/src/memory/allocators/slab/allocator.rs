//! A slab memory allocator.
use core::marker::PhantomData;
use vstd::prelude::*;

use crate::memory::address::{AddressTranslator, VA};
use crate::memory::allocators::frame::{FrameState, FrameUse};
use crate::memory::allocators::phys::buddy::Buddy;
use crate::memory::allocators::phys::laws::alloc_takes_unused_pages;
use crate::memory::allocators::phys::{numbers, FrameAllocator};
use crate::memory::allocators::slab::pool::{
    accessible, alloc_new, alloc_object, can_alloc, drop_slabs, free_object, in_use, is_slab,
    lemma_alloc_new, lemma_free_object, lemma_set_slab, lemma_try_alloc, next_object, others_kept,
    slab_at, slab_of, take_object, try_alloc, Pool, BATCH, MAX_FREE_SLABS,
};
use crate::memory::allocators::slab::slab::{Slab, SlabState};
use crate::memory::allocators::slab::{
    alloc_order, is_class, size_class, SLAB_FRAME_ALLOC_ORDER, SLAB_MAX_OBJ_SHIFT,
};
use crate::memory::page::PageFrame;
use crate::memory::PAGE_SIZE;

verus! {

impl FrameAllocator {
    /// Takes the first free object of the slab at the frame. Returns its address, and
    /// how many objects of the slab are in use then.
    fn take_slab_object(&mut self, pfn: PageFrame) -> (r: (VA, SlabState))
        requires
            old(self).wf(),
            old(self)@.has(pfn.pfn() as int),
            old(self)@.at(pfn.pfn() as int) is Slab,
            slab_at(old(self)@, pfn.pfn() as int).free.len() > 0,
        ensures
            final(self).wf(),
            final(self)@ == take_object(old(self)@, pfn.pfn() as int),
            r.0.addr() == next_object(old(self)@, pfn.pfn() as int),
            r.1 == slab_at(final(self)@, pfn.pfn() as int).usage(),
    {
        let ghost b = self@;
        let ghost p = pfn.pfn() as int;
        match self.frame_list.replace_state(pfn, FrameState::Uninitialized) {
            FrameState::Slab(slab) => {
                let mut slab = slab;
                let object = slab.alloc_object();
                let state = slab.state();
                proof {
                    slab.bounds();
                    lemma_set_slab(b, p, slab@, slab@.shift);
                }
                let _ = self.frame_list.replace_state(pfn, FrameState::Slab(slab));
                assert(self@ =~= take_object(b, p));
                match object {
                    Some(va) => (va, state),
                    None => vstd::pervasive::unreached(),
                }
            },
            _ => vstd::pervasive::unreached(),
        }
    }

    /// Takes back an object of the slab at the frame. Returns how many objects of the
    /// slab were in use before, and how many are in use then.
    fn put_slab_object(&mut self, pfn: PageFrame, ptr: VA) -> (r: (SlabState, SlabState))
        requires
            old(self).wf(),
            old(self)@.has(pfn.pfn() as int),
            old(self)@.at(pfn.pfn() as int) is Slab,
            slab_at(old(self)@, pfn.pfn() as int).in_use(ptr.addr() as int),
        ensures
            final(self).wf(),
            final(self)@ == old(self)@.set(
                pfn.pfn() as int,
                FrameUse::Slab(slab_at(old(self)@, pfn.pfn() as int).after_put(ptr.addr() as int)),
            ),
            r.0 == slab_at(old(self)@, pfn.pfn() as int).usage(),
            r.1 == slab_at(old(self)@, pfn.pfn() as int).after_put(ptr.addr() as int).usage(),
    {
        let ghost b = self@;
        let ghost p = pfn.pfn() as int;
        let ghost new = slab_at(b, p).after_put(ptr.addr() as int);
        match self.frame_list.replace_state(pfn, FrameState::Uninitialized) {
            FrameState::Slab(slab) => {
                let mut slab = slab;
                let before = slab.state();
                slab.put_object(ptr);
                let state = slab.state();
                proof {
                    slab.bounds();
                    lemma_set_slab(b, p, new, new.shift);
                }
                let _ = self.frame_list.replace_state(pfn, FrameState::Slab(slab));
                assert(self@ =~= b.set(p, FrameUse::Slab(new)));
                (before, state)
            },
            _ => vstd::pervasive::unreached(),
        }
    }
}

/// Slab manager for a specific size class.
///
/// Manages a collection of slabs for a particular object size (size class). Two
/// lists are managed: a 'free' list and a 'partial' list.
///
/// - The 'partial' list is a collection of slabs which are partially full. We
///   allocate from this list first for new allocations.
/// - The 'free' list is a collection of slabs which have no objects allocated from
///   them yet. We cache them in the hope that they will be used later on, without the
///   need to go to the frame allocator to get more physical memory. When a particular
///   size is reached ([`MAX_FREE_SLABS`]), we batch free half of the slabs back to the
///   frame allocator.
///
/// There is no 'full' list. Full slabs are unlinked from both lists, and are only
/// known to the frame allocator, whose metadata holds all slabs. When freeing an
/// object from a 'full' slab, the manager detects the state transition and links the
/// slab again.
pub struct SlabManager<T: AddressTranslator<()>> {
    pub(crate) free: Vec<PageFrame>,
    pub(crate) partial: Vec<PageFrame>,
    pub(crate) free_list_sz: usize,
    pub(crate) obj_shift: usize,
    pub(crate) translator: PhantomData<T>,
}

impl<T: AddressTranslator<()>> View for SlabManager<T> {
    type V = Pool;

    open(crate) spec fn view(&self) -> Pool {
        Pool {
            shift: self.obj_shift as nat,
            free: numbers(self.free@),
            partial: numbers(self.partial@),
        }
    }
}

/// Removes the frame from the list.
fn remove_frame(list: &mut Vec<PageFrame>, pfn: PageFrame)
    requires
        numbers(old(list)@).contains(pfn.pfn() as int),
        numbers(old(list)@).no_duplicates(),
    ensures
        numbers(final(list)@) == numbers(old(list)@).remove(
            numbers(old(list)@).index_of(pfn.pfn() as int),
        ),
{
    let ghost l = numbers(list@);
    let ghost p = pfn.pfn() as int;
    let len: usize = list.len();
    let mut i: usize = 0;
    loop
        invariant
            len == l.len(),
            list@ == old(list)@,
            l == numbers(list@),
            p == pfn.pfn(),
            l.contains(p),
            l.no_duplicates(),
            i <= l.len(),
            forall|k: int| 0 <= k < i ==> l[k] != p,
        decreases l.len() - i,
    {
        proof {
            let j = choose|j: int| 0 <= j < l.len() && l[j] == p;
            assert(i <= j);
        }
        if list[i].value() == pfn.value() {
            proof {
                assert(l[i as int] == p);
                let k = l.index_of(p);
                assert(0 <= k < l.len() && l[k] == p);
                assert(k == i);
            }
            let _ = list.remove(i);
            assert(numbers(list@) =~= l.remove(i as int));
            return ;
        }
        assert(l[i as int] != p);
        i = i + 1;
    }
}

impl<T: AddressTranslator<()>> SlabManager<T> {
    /// The size of the free list is known.
    pub open(crate) spec fn wf(self) -> bool {
        &&& self.free_list_sz == self.free@.len()
        &&& self.obj_shift <= SLAB_MAX_OBJ_SHIFT
    }

    /// Creates a manager for objects of two to the power of `obj_shift` bytes that has
    /// no slabs yet.
    pub(crate) fn new(obj_shift: usize) -> (r: Self)
        requires
            obj_shift <= SLAB_MAX_OBJ_SHIFT,
        ensures
            r.wf(),
            r@ == (Pool { shift: obj_shift as nat, free: Seq::empty(), partial: Seq::empty() }),
    {
        let r = Self {
            free: Vec::new(),
            partial: Vec::new(),
            free_list_sz: 0,
            obj_shift,
            translator: PhantomData,
        };
        assert(r@ =~= (Pool {
            shift: obj_shift as nat,
            free: Seq::empty(),
            partial: Seq::empty(),
        }));
        r
    }

    /// Returns the size class.
    pub fn obj_shift(&self) -> (r: usize)
        ensures
            r == self@.shift,
    {
        self.obj_shift
    }

    /// Returns the number of partially used slabs.
    pub fn partial_slabs(&self) -> (r: usize)
        ensures
            r == self@.partial.len(),
    {
        self.partial.len()
    }

    /// Returns the number of unused slabs.
    pub fn free_slabs(&self) -> (r: usize)
        requires
            self.wf(),
        ensures
            r == self@.free.len(),
    {
        self.free_list_sz
    }

    /// Returns the first frames of the unused slabs.
    pub fn free_list(&self) -> (r: &Vec<PageFrame>)
        ensures
            numbers(r@) == self@.free,
    {
        &self.free
    }

    /// Tries to allocate a new object using free and partial slabs. Does *not* allocate
    /// any physical memory for the allocation.
    ///
    /// Returns `None` if there are no free or partial slabs available.
    pub fn try_alloc(&mut self, frames: &mut FrameAllocator) -> (r: Option<VA>)
        requires
            old(self).wf(),
            old(frames).wf(),
            old(self)@.ok(old(frames)@),
        ensures
            final(self).wf(),
            final(frames).wf(),
            final(self)@.ok(final(frames)@),
            others_kept(old(frames)@, final(frames)@, old(self)@.shift),
            ({
                let (after, rest, addr) = try_alloc(old(frames)@, old(self)@);
                &&& final(frames)@ == after
                &&& final(self)@ == rest
                &&& match r {
                    Some(va) => addr == Some(va.addr() as int),
                    None => addr is None,
                }
            }),
    {
        let ghost m = self@;
        let ghost b = frames@;
        proof {
            lemma_try_alloc(b, m);
        }
        // Lets start with partial list.
        if self.partial.len() > 0 {
            let last: usize = self.partial.len() - 1;
            let pfn = self.partial[last];
            assert(m.partial.last() == pfn.pfn());
            let (ptr, state) = frames.take_slab_object(pfn);
            if !(state == SlabState::Partial) {
                let _ = self.partial.pop();
                assert(numbers(self.partial@) =~= m.partial.drop_last());
            }
            assert(self@ =~= try_alloc(b, m).1);
            return Some(ptr);
        }
        if self.free.len() > 0 {
            let last: usize = self.free.len() - 1;
            let pfn = self.free[last];
            assert(m.free.last() == pfn.pfn());
            let _ = self.free.pop();
            self.free_list_sz = self.free_list_sz - 1;
            assert(numbers(self.free@) =~= m.free.drop_last());
            let (ptr, state) = frames.take_slab_object(pfn);
            if state == SlabState::Partial {
                self.partial.push(pfn);
                assert(numbers(self.partial@) =~= m.partial.push(pfn.pfn() as int));
            }
            assert(self@ =~= try_alloc(b, m).1);
            return Some(ptr);
        }
        None
    }

    /// Allocates an object for the given size class. Uses up partial and free slabs
    /// first; if none are available allocates a new slab from the frame allocator,
    /// which has to have memory for it.
    pub fn allocate(&mut self, frames: &mut FrameAllocator) -> (r: VA)
        requires
            old(self).wf(),
            old(frames).wf(),
            old(self)@.ok(old(frames)@),
            old(self)@.shift >= 1,
            can_alloc(old(frames)@, old(self)@),
            accessible::<T>(old(frames)@),
        ensures
            final(self).wf(),
            final(frames).wf(),
            final(self)@.ok(final(frames)@),
            others_kept(old(frames)@, final(frames)@, old(self)@.shift),
            ({
                let (after, rest, addr) = alloc_object::<T>(old(frames)@, old(self)@);
                &&& final(frames)@ == after
                &&& final(self)@ == rest
                &&& r.addr() == addr
            }),
    {
        let ghost m = self@;
        let ghost b = frames@;
        proof {
            lemma_try_alloc(b, m);
        }
        // Fast path, first.
        match self.try_alloc(frames) {
            Some(ptr) => return ptr,
            None => {},
        }
        // Slow path, allocate a new slab.
        let ghost o = SLAB_FRAME_ALLOC_ORDER as nat;
        let ghost (taken, block) = b.alloc_block(o);
        let ghost p = block->Some_0;
        proof {
            lemma_alloc_new::<T>(b, m);
            alloc_takes_unused_pages(b, o);
            b.lemma_alloc_slabs(o);
            vstd::arithmetic::power2::lemma_pow2_pos(o);
        }
        let new_alloc = match frames.alloc_frames(SLAB_FRAME_ALLOC_ORDER as u8) {
            Ok(new_alloc) => new_alloc,
            Err(_) => vstd::pervasive::unreached(),
        };
        let ghost start = T::virt_of((p * PAGE_SIZE) as usize);
        assert(p * PAGE_SIZE <= usize::MAX);
        let base = new_alloc.region().start_address().to_va::<T>();
        assert(base.addr() == start);
        let mut slab = Slab::new(base, self.obj_shift);
        proof {
            slab@.bounds();
        }
        let obj = match slab.alloc_object() {
            Some(obj) => obj,
            None => vstd::pervasive::unreached(),
        };
        let state = slab.state();
        let pfn = frames.into_slab(new_alloc, slab);
        if state == SlabState::Partial {
            self.partial.push(pfn);
            assert(numbers(self.partial@) =~= m.partial.push(p));
        }
        assert(self@ =~= alloc_new::<T>(b, m).1);
        obj
    }

    /// Frees the given allocation: an object in use of this size class.
    pub fn free(&mut self, frames: &mut FrameAllocator, ptr: VA)
        requires
            old(self).wf(),
            old(frames).wf(),
            old(self)@.ok(old(frames)@),
            in_use::<T>(old(frames)@, old(self)@.shift, ptr.addr() as int),
        ensures
            final(self).wf(),
            final(frames).wf(),
            final(self)@.ok(final(frames)@),
            others_kept(old(frames)@, final(frames)@, old(self)@.shift),
            ({
                let (after, rest) = free_object::<T>(
                    old(frames)@,
                    old(self)@,
                    ptr.addr() as int,
                );
                &&& final(frames)@ == after
                &&& final(self)@ == rest
            }),
    {
        let ghost m = self@;
        let ghost b = frames@;
        let ghost addr = ptr.addr() as int;
        proof {
            lemma_free_object::<T>(b, m, addr);
        }
        // Find the frame.
        let pfn = frames.block_head(ptr.to_pa::<T>().to_pfn());
        let ghost h = pfn.pfn() as int;
        assert(h == slab_of::<T>(b, addr));
        let (before, state) = frames.put_slab_object(pfn, ptr);
        let ghost put = frames@;
        if state == SlabState::Free {
            if self.free_list_sz == MAX_FREE_SLABS {
                self.free_batch(frames);
            }
            if !(before == SlabState::Full) {
                remove_frame(&mut self.partial, pfn);
            }
            let ghost kept = numbers(self.free@);
            self.free.push(pfn);
            self.free_list_sz = self.free_list_sz + 1;
            assert(numbers(self.free@) =~= kept.push(h));
        } else if before == SlabState::Full {
            // We must have freed an object on a previously full slab for it to have
            // not been linked.
            self.partial.push(pfn);
            assert(numbers(self.partial@) =~= m.partial.push(h));
        }
        assert(self@ =~= free_object::<T>(b, m, addr).1);
    }

    /// Gives some of the unused slabs back to the frame allocator.
    fn free_batch(&mut self, frames: &mut FrameAllocator)
        requires
            old(self).wf(),
            old(frames).wf(),
            old(self)@.free.len() == MAX_FREE_SLABS,
            old(self)@.free.no_duplicates(),
            forall|i: int|
                0 <= i < old(self)@.free.len() ==> old(frames)@.has(#[trigger] old(self)@.free[i])
                    && is_slab(old(frames)@.at(old(self)@.free[i]), old(self)@.shift),
        ensures
            final(self).wf(),
            final(frames).wf(),
            final(frames)@ == drop_slabs(old(frames)@, old(self)@.free, BATCH as nat),
            final(self)@ == (Pool {
                free: old(self)@.free.take(MAX_FREE_SLABS - BATCH),
                ..old(self)@
            }),
    {
        let ghost m = self@;
        let ghost b = frames@;
        let mut freed: usize = 0;
        assert(m.free.take(m.free.len() as int) =~= m.free);
        while freed < BATCH
            invariant
                freed <= BATCH,
                m.free.len() == MAX_FREE_SLABS,
                m.free.no_duplicates(),
                self.wf(),
                frames.wf(),
                self@.free == m.free.take(MAX_FREE_SLABS - freed),
                self@.partial == m.partial,
                self@.shift == m.shift,
                drop_slabs(frames@, self@.free, (BATCH - freed) as nat) == drop_slabs(
                    b,
                    m.free,
                    BATCH as nat,
                ),
                forall|i: int|
                    0 <= i < self@.free.len() ==> frames@.has(#[trigger] self@.free[i]) && is_slab(
                        frames@.at(self@.free[i]),
                        m.shift,
                    ),
            decreases BATCH - freed,
        {
            let ghost f = self@.free;
            let ghost c = frames@;
            let last: usize = self.free.len() - 1;
            let pfn = self.free[last];
            assert(f.last() == pfn.pfn());
            assert(c.has(f[f.len() - 1]));
            proof {
                c.lemma_free_slab(pfn.pfn() as int);
            }
            let _ = self.free.pop();
            self.free_list_sz = self.free_list_sz - 1;
            frames.free_slab(pfn);
            freed = freed + 1;
            proof {
                assert(self@.free =~= f.drop_last());
                assert(self@.free =~= m.free.take(MAX_FREE_SLABS - freed));
                assert forall|i: int| 0 <= i < self@.free.len() implies frames@.has(
                    #[trigger] self@.free[i],
                ) && is_slab(frames@.at(self@.free[i]), m.shift) by {
                    assert(self@.free[i] == f[i]);
                    assert(c.has(f[i]) && is_slab(c.at(f[i]), m.shift));
                    assert(m.free[i] != m.free[f.len() - 1]);
                }
            }
        }
        assert(self@ =~= (Pool { free: m.free.take(MAX_FREE_SLABS - BATCH), ..m }));
    }
}

/// The slab allocator: one [`SlabManager`] for each size class.
pub struct SlabAllocator<T: AddressTranslator<()>> {
    pub(crate) managers: Vec<SlabManager<T>>,
}

impl<T: AddressTranslator<()>> View for SlabAllocator<T> {
    type V = Seq<Pool>;

    open(crate) spec fn view(&self) -> Seq<Pool> {
        Seq::new(self.managers@.len(), |k: int| self.managers@[k]@)
    }
}

/// There is a manager for each size class, and together they know the slabs.
pub open spec fn pools_ok(pools: Seq<Pool>, b: Buddy) -> bool {
    &&& pools.len() == SLAB_MAX_OBJ_SHIFT + 1
    &&& forall|k: int|
        0 <= k < pools.len() ==> (#[trigger] pools[k]).shift == k && pools[k].ok(b)
}

impl<T: AddressTranslator<()>> SlabAllocator<T> {
    /// The managers are well formed.
    pub open(crate) spec fn wf(self) -> bool {
        forall|k: int| 0 <= k < self.managers@.len() ==> (#[trigger] self.managers@[k]).wf()
    }

    /// Creates a slab allocator that has no slabs yet.
    pub fn new() -> (r: Self)
        ensures
            r.wf(),
            r@.len() == SLAB_MAX_OBJ_SHIFT + 1,
            forall|k: int|
                0 <= k <= SLAB_MAX_OBJ_SHIFT ==> #[trigger] r@[k] == (Pool {
                    shift: k as nat,
                    free: Seq::empty(),
                    partial: Seq::empty(),
                }),
    {
        let mut managers: Vec<SlabManager<T>> = Vec::new();
        let mut k: usize = 0;
        while k <= SLAB_MAX_OBJ_SHIFT
            invariant
                k <= SLAB_MAX_OBJ_SHIFT + 1,
                managers@.len() == k,
                forall|j: int|
                    0 <= j < k ==> (#[trigger] managers@[j]).wf() && managers@[j]@ == (Pool {
                        shift: j as nat,
                        free: Seq::empty(),
                        partial: Seq::empty(),
                    }),
            decreases SLAB_MAX_OBJ_SHIFT + 1 - k,
        {
            managers.push(SlabManager::new(k));
            k = k + 1;
        }
        Self { managers }
    }

    /// Returns the size class, and with it the manager, for the given size and
    /// alignment; `None` if they are too large.
    pub fn allocator_for_layout(&mut self, size: usize, align: usize) -> (r: Option<
        &mut SlabManager<T>,
    >)
        requires
            old(self).wf(),
            old(self)@.len() == SLAB_MAX_OBJ_SHIFT + 1,
        ensures
            match r {
                Some(manager) => {
                    let k = size_class(size as int, align as int)->Some_0;
                    &&& size_class(size as int, align as int) is Some
                    &&& is_class(size as int, align as int, k)
                    &&& manager.wf()
                    &&& manager@ == old(self)@[k]
                    &&& final(self)@ == old(self)@.update(k, final(manager)@)
                    &&& final(manager).wf() ==> final(self).wf()
                },
                None => size_class(size as int, align as int) is None && final(self)@ == old(self)@
                    && final(self).wf(),
            },
    {
        let ghost before = self@;
        match alloc_order(size, align) {
            Some(k) => {
                let manager = &mut self.managers[k];
                proof {
                    let m = *final(manager);
                    assert(Seq::new(before.len(), |i: int| if i == k { m@ } else { before[i] }) =~= before.update(k as int, m@));
                }
                Some(manager)
            },
            None => None,
        }
    }
}

} // verus!
