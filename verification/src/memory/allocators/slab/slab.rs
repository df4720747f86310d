//! Slabs: blocks of memory that are divided into objects of one size.
//!
//! The free objects of a slab form a chain: each free object holds the index of the
//! next one. Objects are given out and taken back at the front of the chain.
use vstd::arithmetic::power2::pow2;
use vstd::prelude::*;

use crate::memory::address::VA;
use crate::memory::allocators::slab::{SLAB_MAX_OBJ_SHIFT, SLAB_SIZE_BYTES};
use crate::memory::page::lemma_one_shl;

verus! {

/// Marks the end of the chain of free objects.
pub const NO_NEXT: u16 = 0xffff;

/// A block of memory that is divided into objects of one size.
pub struct Slab {
    obj_shift: usize,
    num_free: usize,
    next_free: Option<u16>,
    base: VA,
    links: Vec<u16>,
    chain: Ghost<Seq<u16>>,
}

/// How many objects of a slab are in use.
#[derive(Clone, Copy, PartialEq, Eq, Debug, Structural)]
pub enum SlabState {
    /// None.
    Free,
    /// Some, but not all.
    Partial,
    /// All.
    Full,
}

/// The number of objects of the given size class in a slab.
pub open spec fn objects_per_slab(shift: nat) -> int {
    SLAB_SIZE_BYTES as int / pow2(shift) as int
}

/// The numbers of objects that a slab can have.
pub(super) proof fn lemma_objects_per_slab(shift: nat)
    requires
        1 <= shift <= SLAB_MAX_OBJ_SHIFT,
    ensures
        1 <= objects_per_slab(shift) <= 8192,
        objects_per_slab(shift) * pow2(shift) == SLAB_SIZE_BYTES,
        0 < pow2(shift) <= SLAB_SIZE_BYTES,
{
    vstd::arithmetic::power2::lemma2_to64();
    assert(shift == 1 || shift == 2 || shift == 3 || shift == 4 || shift == 5 || shift == 6
        || shift == 7 || shift == 8 || shift == 9 || shift == 10 || shift == 11 || shift == 12
        || shift == 13 || shift == 14);
}

/// A slab: the size class of its objects, its address, and the indices of the free
/// objects in the order in which they are given out.
#[verifier::ext_equal]
pub ghost struct SlabModel {
    pub shift: nat,
    pub start: int,
    pub free: Seq<u16>,
}

impl SlabModel {
    /// The number of objects.
    pub open spec fn objects(self) -> int {
        objects_per_slab(self.shift)
    }

    /// The address of the object with the given index.
    pub open spec fn object_addr(self, index: int) -> int {
        self.start + index * pow2(self.shift)
    }

    /// How many objects are in use.
    pub open spec fn usage(self) -> SlabState {
        if self.free.len() == 0 {
            SlabState::Full
        } else if self.free.len() == self.objects() {
            SlabState::Free
        } else {
            SlabState::Partial
        }
    }

    /// The objects have a valid size, the slab fits into the address space, and each
    /// free object occurs once.
    pub open spec fn ok(self) -> bool {
        &&& 1 <= self.shift <= SLAB_MAX_OBJ_SHIFT
        &&& 0 <= self.start
        &&& self.start + SLAB_SIZE_BYTES <= usize::MAX
        &&& self.free.no_duplicates()
        &&& forall|k: int| 0 <= k < self.free.len() ==> (#[trigger] self.free[k]) < self.objects()
    }

    /// A slab of which all objects are free.
    pub open spec fn fresh(shift: nat, start: int) -> Self {
        SlabModel { shift, start, free: run(0, objects_per_slab(shift)) }
    }

    /// The first free object is given out.
    pub open spec fn after_alloc(self) -> Self {
        SlabModel { free: self.free.skip(1), ..self }
    }

    /// The index of the object at the address.
    pub open spec fn index_at(self, addr: int) -> int {
        (addr - self.start) / pow2(self.shift) as int
    }

    /// The address is that of an object that is in use.
    pub open spec fn in_use(self, addr: int) -> bool {
        let index = self.index_at(addr);
        &&& self.start <= addr
        &&& 0 <= index < self.objects()
        &&& addr == self.object_addr(index)
        &&& !self.free.contains(index as u16)
    }

    /// The object at the address is taken back.
    pub open spec fn after_put(self, addr: int) -> Self {
        SlabModel { free: seq![self.index_at(addr) as u16] + self.free, ..self }
    }

    /// Bounds of the parts of a slab.
    pub proof fn bounds(self)
        requires
            self.ok(),
        ensures
            1 <= self.objects() <= 8192,
            self.objects() * pow2(self.shift) == SLAB_SIZE_BYTES,
            0 < pow2(self.shift) <= SLAB_SIZE_BYTES,
            self.free.len() <= self.objects(),
    {
        lemma_objects_per_slab(self.shift);
        lemma_bounded_unique(self.free, self.objects());
    }

    /// The size of an object in use, and the numbers of free objects.
    pub proof fn lemma_in_use(self, addr: int)
        requires
            self.ok(),
            self.in_use(addr),
        ensures
            self.start <= addr,
            addr + pow2(self.shift) <= self.start + SLAB_SIZE_BYTES,
            self.after_put(addr).ok(),
            self.free.len() < self.objects(),
    {
        let index = self.index_at(addr);
        self.bounds();
        self.lemma_object_addr(index);
        let c = self.after_put(addr).free;
        assert forall|a: int, b: int| 0 <= a < c.len() && 0 <= b < c.len() && a != b implies c[a]
            != c[b] by {
            if a == 0 {
                assert(c[b] == self.free[b - 1]);
                assert(self.free.contains(self.free[b - 1]));
            } else if b == 0 {
                assert(c[a] == self.free[a - 1]);
                assert(self.free.contains(self.free[a - 1]));
            } else {
                assert(c[a] == self.free[a - 1] && c[b] == self.free[b - 1]);
            }
        }
        assert forall|k: int| 0 <= k < c.len() implies (#[trigger] c[k]) < self.objects() by {
            if k > 0 {
                assert(c[k] == self.free[k - 1]);
            }
        }
        lemma_bounded_unique(c, self.objects());
    }

    /// The address of an object lies in the slab.
    pub proof fn lemma_object_addr(self, index: int)
        requires
            self.ok(),
            0 <= index < self.objects(),
        ensures
            self.start <= self.object_addr(index),
            self.object_addr(index) + pow2(self.shift) <= self.start + SLAB_SIZE_BYTES,
            self.index_at(self.object_addr(index)) == index,
    {
        self.bounds();
        let size = pow2(self.shift) as int;
        assert(0 <= index * size && index * size + size <= self.objects() * size)
            by (nonlinear_arith)
            requires
                0 <= index,
                index + 1 <= self.objects(),
                size > 0,
        ;
        vstd::arithmetic::div_mod::lemma_div_by_multiple(index, size);
    }
}

/// The objects of a fresh slab from `first` on, in order.
pub open spec fn run(first: int, n: int) -> Seq<u16> {
    Seq::new((n - first) as nat, |k: int| (first + k) as u16)
}

impl View for Slab {
    type V = SlabModel;

    closed spec fn view(&self) -> SlabModel {
        SlabModel {
            shift: self.obj_shift as nat,
            start: self.base.addr() as int,
            free: self.chain@,
        }
    }
}

impl Slab {
    /// What is stored in the free objects links them in the order of the chain.
    pub closed spec fn wf(self) -> bool {
        &&& self@.ok()
        &&& self.links@.len() == self@.objects()
        &&& self.num_free == self.chain@.len()
        &&& self.next_free == (if self.chain@.len() == 0 {
            None
        } else {
            Some(self.chain@[0])
        })
        &&& forall|k: int|
            0 <= k < self.chain@.len() ==> #[trigger] self.links@[self.chain@[k] as int] == (if k + 1
                < self.chain@.len() {
                self.chain@[k + 1]
            } else {
                NO_NEXT
            })
    }

    /// The bounds of a well-formed slab.
    pub proof fn bounds(self)
        requires
            self.wf(),
        ensures
            self@.ok(),
    {
    }

    /// Divides the slab at `base` into objects of two to the power of `obj_shift`
    /// bytes, all of which are free.
    pub fn new(base: VA, obj_shift: usize) -> (r: Self)
        requires
            1 <= obj_shift <= SLAB_MAX_OBJ_SHIFT,
            base.addr() + SLAB_SIZE_BYTES <= usize::MAX,
        ensures
            r.wf(),
            r@ == SlabModel::fresh(obj_shift as nat, base.addr() as int),
            r@.usage() == SlabState::Free,
    {
        proof {
            lemma_objects_per_slab(obj_shift as nat);
            lemma_one_shl(obj_shift);
        }
        let num_objs: usize = SLAB_SIZE_BYTES / (1usize << obj_shift);
        let mut links: Vec<u16> = Vec::new();
        let mut i: usize = 0;
        while i < num_objs
            invariant
                i <= num_objs <= 8192,
                links@.len() == i,
                forall|k: int|
                    0 <= k < i ==> #[trigger] links@[k] == (if k + 1 < num_objs {
                        (k + 1) as u16
                    } else {
                        NO_NEXT
                    }),
            decreases num_objs - i,
        {
            links.push(
                if i == num_objs - 1 {
                    NO_NEXT
                } else {
                    (i + 1) as u16
                },
            );
            i = i + 1;
        }
        let ghost chain = run(0, num_objs as int);
        assert forall|a: int, b: int| 0 <= a < chain.len() && 0 <= b < chain.len() && a
            != b implies chain[a] != chain[b] by {}
        Self {
            obj_shift,
            num_free: num_objs,
            next_free: Some(0),
            base,
            links,
            chain: Ghost(chain),
        }
    }

    /// The address of the object with the given index.
    fn calc_obj_idx(&self, idx: u16) -> (r: VA)
        requires
            self.wf(),
            idx < self@.objects(),
        ensures
            r.addr() == self@.object_addr(idx as int),
    {
        proof {
            self@.bounds();
            self@.lemma_object_addr(idx as int);
            lemma_one_shl(self.obj_shift);
        }
        self.base.add_bytes(idx as usize * (1usize << self.obj_shift))
    }

    /// Takes the first free object, and returns its address; `None` if no object is
    /// free.
    pub fn alloc_object(&mut self) -> (r: Option<VA>)
        requires
            old(self).wf(),
        ensures
            final(self).wf(),
            match r {
                Some(va) => {
                    &&& old(self)@.free.len() > 0
                    &&& va.addr() == old(self)@.object_addr(old(self)@.free[0] as int)
                    &&& final(self)@ == old(self)@.after_alloc()
                },
                None => old(self)@.free.len() == 0 && *final(self) == *old(self),
            },
    {
        proof {
            self@.bounds();
        }
        let idx: u16 = match self.next_free {
            Some(idx) => idx,
            None => return None,
        };
        let va = self.calc_obj_idx(idx);
        let next_free: u16 = self.links[idx as usize];
        let ghost old_chain = self.chain@;
        assert(self.links@[old_chain[0] as int] == next_free);

        self.next_free =
        if next_free == NO_NEXT {
            None
        } else {
            Some(next_free)
        };
        self.num_free = self.num_free - 1;
        self.chain = Ghost(old_chain.skip(1));
        proof {
            let c = self.chain@;
            assert forall|k: int| 0 <= k < c.len() implies #[trigger] self.links@[c[k] as int] == (
            if k + 1 < c.len() {
                c[k + 1]
            } else {
                NO_NEXT
            }) by {
                assert(c[k] == old_chain[k + 1]);
                assert(self.links@[old_chain[k + 1] as int] == (if k + 2 < old_chain.len() {
                    old_chain[k + 2]
                } else {
                    NO_NEXT
                }));
            }
            assert(c.no_duplicates());
            if c.len() > 0 {
                assert(c[0] == old_chain[1]);
            }
        }
        Some(va)
    }

    /// Takes back the object at the address, which becomes the first free object.
    pub fn put_object(&mut self, ptr: VA)
        requires
            old(self).wf(),
            old(self)@.in_use(ptr.addr() as int),
        ensures
            final(self).wf(),
            final(self)@ == old(self)@.after_put(ptr.addr() as int),
    {
        proof {
            self@.bounds();
            lemma_one_shl(self.obj_shift);
            self@.lemma_in_use(ptr.addr() as int);
        }
        let idx: usize = (ptr.value() - self.base.value()) / (1usize << self.obj_shift);
        let idx: u16 = idx as u16;
        let link: u16 = match self.next_free {
            Some(next) => next,
            None => NO_NEXT,
        };
        let ghost old_chain = self.chain@;
        let ghost old_links = self.links@;
        self.links.set(idx as usize, link);
        self.num_free = self.num_free + 1;
        self.next_free = Some(idx);
        self.chain = Ghost(seq![idx] + old_chain);
        proof {
            let c = self.chain@;
            assert forall|a: int, b: int| 0 <= a < c.len() && 0 <= b < c.len() && a != b implies c[a]
                != c[b] by {
                if a == 0 {
                    assert(old_chain.contains(c[b])) by {
                        assert(c[b] == old_chain[b - 1]);
                    }
                } else if b == 0 {
                    assert(old_chain.contains(c[a])) by {
                        assert(c[a] == old_chain[a - 1]);
                    }
                } else {
                    assert(c[a] == old_chain[a - 1] && c[b] == old_chain[b - 1]);
                }
            }
            assert forall|k: int| 0 <= k < c.len() implies #[trigger] self.links@[c[k] as int] == (
            if k + 1 < c.len() {
                c[k + 1]
            } else {
                NO_NEXT
            }) by {
                if k > 0 {
                    assert(c[k] == old_chain[k - 1]);
                    assert(old_chain.contains(c[k]));
                    assert(old_links[old_chain[k - 1] as int] == (if k < old_chain.len() {
                        old_chain[k]
                    } else {
                        NO_NEXT
                    }));
                    if k + 1 < c.len() {
                        assert(c[k + 1] == old_chain[k]);
                    }
                } else if c.len() > 1 {
                    assert(c[1] == old_chain[0]);
                }
            }
            assert forall|k: int| 0 <= k < c.len() implies (#[trigger] c[k]) < self@.objects() by {
                if k > 0 {
                    assert(c[k] == old_chain[k - 1]);
                }
            }
        }
    }

    /// Returns the number of free objects.
    pub fn num_free(&self) -> (r: usize)
        requires
            self.wf(),
        ensures
            r == self@.free.len(),
    {
        self.num_free
    }

    /// Returns the index of the first free object.
    pub fn next_free(&self) -> (r: Option<u16>)
        requires
            self.wf(),
        ensures
            r == (if self@.free.len() == 0 {
                None
            } else {
                Some(self@.free[0])
            }),
    {
        self.next_free
    }

    fn capacity(&self) -> (r: usize)
        requires
            self.wf(),
        ensures
            r == self@.objects(),
    {
        proof {
            self@.bounds();
            lemma_one_shl(self.obj_shift);
        }
        SLAB_SIZE_BYTES / (1usize << self.obj_shift)
    }

    /// Returns how many objects are in use.
    pub fn state(&self) -> (r: SlabState)
        requires
            self.wf(),
        ensures
            r == self@.usage(),
    {
        if self.num_free == 0 {
            SlabState::Full
        } else if self.num_free == self.capacity() {
            SlabState::Free
        } else {
            SlabState::Partial
        }
    }

    /// Returns the size class: the size of the objects is two to this power bytes.
    pub fn obj_shift(&self) -> (r: usize)
        ensures
            r == self@.shift,
    {
        self.obj_shift
    }

    /// Returns the address of the slab.
    pub fn base(&self) -> (r: VA)
        ensures
            r.addr() == self@.start,
    {
        self.base
    }

    /// Returns what the free object with the given index holds: the index of the next free
    /// object, or [`NO_NEXT`] at the end of the chain.
    pub fn link(&self, index: u16) -> (r: u16)
        requires
            self.wf(),
            self@.free.contains(index),
        ensures
            ({
                let k = self@.free.index_of(index);
                r == (if k + 1 < self@.free.len() {
                    self@.free[k + 1]
                } else {
                    NO_NEXT
                })
            }),
    {
        let ghost k = self@.free.index_of(index);
        assert(self.chain@[k] == index);
        self.links[index as usize]
    }
}

/// A sequence of different indices below `n` has at most `n` of them.
proof fn lemma_bounded_unique(s: Seq<u16>, n: int)
    requires
        s.no_duplicates(),
        n >= 0,
        forall|k: int| 0 <= k < s.len() ==> (#[trigger] s[k]) < n,
    ensures
        s.len() <= n,
{
    let t = s.map_values(|x: u16| x as int);
    assert(t.no_duplicates()) by {
        assert forall|i: int, j: int| 0 <= i < t.len() && 0 <= j < t.len() && i != j implies t[i]
            != t[j] by {
            assert(s[i] != s[j]);
        }
    }
    crate::memory::allocators::frame::lemma_unique_in_range(t, 0, n);
}

/// Objects do not overlap, and lie in the slab.
pub proof fn objects_are_disjoint(slab: SlabModel, i: int, j: int)
    requires
        slab.ok(),
        0 <= i < j < slab.objects(),
    ensures
        slab.start <= slab.object_addr(i),
        slab.object_addr(i) + pow2(slab.shift) <= slab.object_addr(j),
        slab.object_addr(j) + pow2(slab.shift) <= slab.start + SLAB_SIZE_BYTES,
{
    slab.bounds();
    slab.lemma_object_addr(i);
    slab.lemma_object_addr(j);
    let size = pow2(slab.shift) as int;
    assert(i * size + size <= j * size) by (nonlinear_arith)
        requires
            i + 1 <= j,
            0 < size,
    ;
}

/// An object that is given out was not in use, and is in use from then on; taking it
/// back right away restores the slab.
pub proof fn put_undoes_alloc(slab: SlabModel)
    requires
        slab.ok(),
        slab.free.len() > 0,
    ensures
        ({
            let addr = slab.object_addr(slab.free[0] as int);
            &&& !slab.in_use(addr)
            &&& slab.after_alloc().in_use(addr)
            &&& slab.after_alloc().after_put(addr) == slab
        }),
{
    let index = slab.free[0] as int;
    let addr = slab.object_addr(index);
    slab.bounds();
    slab.lemma_object_addr(index);
    assert(slab.free.contains(slab.free[0]));
    let t = slab.after_alloc();
    assert(!t.free.contains(index as u16)) by {
        if t.free.contains(index as u16) {
            let k = choose|k: int| 0 <= k < t.free.len() && t.free[k] == index as u16;
            assert(t.free[k] == slab.free[k + 1]);
        }
    }
    assert(t.index_at(addr) == index);
    assert(t.after_put(addr).free =~= slab.free);
}

/// A slab is full when all of its objects are in use, and free when none is.
pub proof fn usage_is_that_of_the_objects(slab: SlabModel)
    requires
        slab.ok(),
    ensures
        slab.usage() == SlabState::Full <==> (forall|i: int|
            0 <= i < slab.objects() ==> slab.in_use(#[trigger] slab.object_addr(i))),
        slab.usage() == SlabState::Free <==> (forall|i: int|
            0 <= i < slab.objects() ==> !slab.in_use(#[trigger] slab.object_addr(i))),
{
    slab.bounds();
    let n = slab.objects();
    assert forall|i: int| 0 <= i < n implies (slab.in_use(#[trigger] slab.object_addr(i))
        <==> !slab.free.contains(i as u16)) by {
        slab.lemma_object_addr(i);
    }
    if slab.free.len() > 0 {
        let i = slab.free[0] as int;
        assert(slab.free.contains(slab.free[0]));
        assert(!slab.in_use(slab.object_addr(i)));
    } else {
        assert(slab.in_use(slab.object_addr(0)));
    }
    if slab.free.len() < n {
        lemma_missing_index(slab.free, n);
        let i = choose|i: int| 0 <= i < n && !slab.free.contains(#[trigger] (i as u16));
        assert(slab.in_use(slab.object_addr(i)));
    } else {
        assert forall|i: int| 0 <= i < n implies !slab.in_use(#[trigger] slab.object_addr(i)) by {
            if !slab.free.contains(i as u16) {
                let more = slab.free.push(i as u16);
                assert forall|k: int| 0 <= k < more.len() implies (#[trigger] more[k]) < n by {}
                lemma_bounded_unique(more, n);
            }
        }
    }
}

/// Fewer than `n` indices leave out one.
proof fn lemma_missing_index(s: Seq<u16>, n: int)
    requires
        s.len() < n <= 8192,
    ensures
        exists|i: int| 0 <= i < n && !s.contains(#[trigger] (i as u16)),
{
    if forall|i: int| 0 <= i < n ==> s.contains(#[trigger] (i as u16)) {
        let all = run(0, n);
        assert(all.no_duplicates());
        assert forall|i: int| 0 <= i < n implies s.to_set().contains(#[trigger] all[i]) by {
            assert(s.contains(i as u16));
        }
        assert(all.to_set().subset_of(s.to_set()));
        vstd::set_lib::lemma_len_subset(all.to_set(), s.to_set());
        all.unique_seq_to_set();
        s.lemma_cardinality_of_set();
    }
}

/// A slab has as many objects as fit into it, and gives them out from its start on.
pub proof fn fresh_objects_are_given_out_in_order(shift: nat, start: int)
    requires
        1 <= shift <= SLAB_MAX_OBJ_SHIFT,
    ensures
        ({
            let slab = SlabModel::fresh(shift, start);
            &&& slab.free.len() * pow2(shift) == SLAB_SIZE_BYTES
            &&& forall|k: int|
                0 <= k < slab.free.len() ==> slab.object_addr((#[trigger] slab.free[k]) as int)
                    == start + k * pow2(shift)
        }),
{
    lemma_objects_per_slab(shift);
}

} // verus!
