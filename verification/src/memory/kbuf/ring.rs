//! The ring buffer that holds the bytes of a kernel buffer.
//!
//! A ring keeps its bytes in a fixed array, from the read position on. Bytes that reach
//! the end of the array continue at its beginning, so that the bytes, and the free slots
//! after them, each form at most two slices.
use ringbuf::traits::{Consumer, Observer, Producer};
use vstd::prelude::*;

verus! {

/// A ring buffer of bytes: `ringbuf::HeapRb<u8>`.
#[verifier::external_body]
pub struct ByteRing {
    rb: ringbuf::HeapRb<u8>,
}

/// The bytes that a ring holds, the oldest first.
pub uninterp spec fn ring_items(ring: ByteRing) -> Seq<u8>;

/// The number of bytes that a ring can hold.
pub uninterp spec fn ring_capacity(ring: ByteRing) -> nat;

/// Where in its array the oldest byte of a ring is.
pub uninterp spec fn ring_start(ring: ByteRing) -> nat;

/// The smaller number.
pub open spec fn smaller(a: int, b: int) -> int {
    if a <= b {
        a
    } else {
        b
    }
}

/// What a ring is: its capacity, where its oldest byte is, and its bytes.
#[verifier::ext_equal]
pub ghost struct Ring {
    pub capacity: nat,
    pub start: nat,
    pub items: Seq<u8>,
}

impl Ring {
    /// The bytes fit, and the positions can be computed with.
    pub open spec fn wf(self) -> bool {
        &&& 0 < self.capacity
        &&& 4 * self.capacity <= usize::MAX
        &&& self.start < self.capacity
        &&& self.items.len() <= self.capacity
    }

    /// The number of free slots.
    pub open spec fn vacant(self) -> int {
        self.capacity - self.items.len()
    }

    /// The length of the slice of bytes up to the end of the array.
    pub open spec fn head_len(self) -> int {
        smaller(self.items.len() as int, self.capacity - self.start)
    }

    /// The length of the slice of free slots up to the end of the array.
    pub open spec fn vacant_head_len(self) -> int {
        smaller(
            self.vacant(),
            self.capacity - (self.start + self.items.len()) as int % self.capacity as int,
        )
    }

    /// The ring with more bytes.
    pub open spec fn extended(self, items: Seq<u8>) -> Ring {
        Ring { items: self.items + items, ..self }
    }

    /// The ring without its oldest `n` bytes.
    pub open spec fn advanced(self, n: int) -> Ring {
        Ring {
            start: ((self.start + n) % self.capacity as int) as nat,
            items: self.items.skip(n),
            ..self
        }
    }
}

impl View for ByteRing {
    type V = Ring;

    open spec fn view(&self) -> Ring {
        Ring {
            capacity: ring_capacity(*self),
            start: ring_start(*self),
            items: ring_items(*self),
        }
    }
}

impl ByteRing {
    /// Calls `ringbuf::HeapRb::new`: an empty ring with the given capacity, whose read
    /// and write positions are at the beginning of the array. It panics if the capacity
    /// is zero. Positions run up to twice the capacity and are added to such numbers,
    /// which has to be possible.
    #[verifier::external_body]
    pub(crate) fn new(capacity: usize) -> (r: Self)
        requires
            0 < capacity,
            4 * capacity <= usize::MAX,
        ensures
            ring_capacity(r) == capacity,
            ring_start(r) == 0,
            ring_items(r) == Seq::<u8>::empty(),
    {
        ByteRing { rb: ringbuf::HeapRb::new(capacity) }
    }

    /// Calls `ringbuf::traits::Observer::capacity`.
    #[verifier::external_body]
    pub(crate) fn capacity(&self) -> (r: usize)
        requires
            self@.wf(),
        ensures
            r == ring_capacity(*self),
    {
        self.rb.capacity().get()
    }

    /// Calls `ringbuf::traits::Observer::occupied_len`: the number of bytes.
    #[verifier::external_body]
    pub(crate) fn occupied_len(&self) -> (r: usize)
        requires
            self@.wf(),
        ensures
            r == ring_items(*self).len(),
    {
        self.rb.occupied_len()
    }

    /// Calls `ringbuf::traits::Observer::vacant_len`: the number of free slots.
    #[verifier::external_body]
    pub(crate) fn vacant_len(&self) -> (r: usize)
        requires
            self@.wf(),
        ensures
            r == ring_capacity(*self) - ring_items(*self).len(),
    {
        self.rb.vacant_len()
    }

    /// Calls `ringbuf::traits::Observer::is_empty`.
    #[verifier::external_body]
    pub(crate) fn is_empty(&self) -> (r: bool)
        requires
            self@.wf(),
        ensures
            r == (ring_items(*self).len() == 0),
    {
        self.rb.is_empty()
    }

    /// Calls `ringbuf::traits::Observer::is_full`.
    #[verifier::external_body]
    pub(crate) fn is_full(&self) -> (r: bool)
        requires
            self@.wf(),
        ensures
            r == (ring_items(*self).len() == ring_capacity(*self)),
    {
        self.rb.is_full()
    }

    /// Calls `ringbuf::traits::Producer::try_push`: appends the byte, or returns it if
    /// the ring is full.
    #[verifier::external_body]
    pub(crate) fn try_push(&mut self, elem: u8) -> (r: core::result::Result<(), u8>)
        requires
            old(self)@.wf(),
        ensures
            match r {
                Ok(_) => old(self)@.vacant() > 0 && final(self)@ == old(self)@.extended(seq![elem]),
                Err(e) => old(self)@.vacant() == 0 && e == elem && final(self)@ == old(self)@,
            },
    {
        self.rb.try_push(elem)
    }

    /// Calls `ringbuf::traits::Consumer::try_pop`: removes the oldest byte, if any.
    #[verifier::external_body]
    pub(crate) fn try_pop(&mut self) -> (r: Option<u8>)
        requires
            old(self)@.wf(),
        ensures
            match r {
                Some(e) => old(self)@.items.len() > 0 && e == old(self)@.items[0] && final(self)@
                    == old(self)@.advanced(1),
                None => old(self)@.items.len() == 0 && final(self)@ == old(self)@,
            },
    {
        self.rb.try_pop()
    }

    /// Calls `ringbuf::traits::Producer::push_slice`: appends as many of the bytes as
    /// there are free slots for, and returns how many.
    #[verifier::external_body]
    pub(crate) fn push_slice(&mut self, elems: &[u8]) -> (r: usize)
        requires
            old(self)@.wf(),
        ensures
            r == smaller(elems@.len() as int, old(self)@.vacant()),
            final(self)@ == old(self)@.extended(elems@.take(r as int)),
    {
        self.rb.push_slice(elems)
    }

    /// Calls `ringbuf::traits::Consumer::pop_slice`: removes as many of the oldest bytes
    /// as the slice has place for, writes them to its beginning, and returns how many.
    #[verifier::external_body]
    pub(crate) fn pop_slice(&mut self, elems: &mut [u8]) -> (r: usize)
        requires
            old(self)@.wf(),
        ensures
            r == smaller(old(elems)@.len() as int, old(self)@.items.len() as int),
            final(elems)@ == old(self)@.items.take(r as int) + old(elems)@.skip(r as int),
            final(self)@ == old(self)@.advanced(r as int),
    {
        self.rb.pop_slice(elems)
    }

    /// Calls `ringbuf::traits::Consumer::skip`: removes up to `count` of the oldest bytes,
    /// and returns how many.
    #[verifier::external_body]
    pub(crate) fn skip(&mut self, count: usize) -> (r: usize)
        requires
            old(self)@.wf(),
        ensures
            r == smaller(count as int, old(self)@.items.len() as int),
            final(self)@ == old(self)@.advanced(r as int),
    {
        self.rb.skip(count)
    }

    /// Calls `ringbuf::traits::Consumer::as_slices`: the bytes up to the end of the array,
    /// and those from its beginning.
    #[verifier::external_body]
    pub(crate) fn as_slices(&self) -> (r: (&[u8], &[u8]))
        requires
            self@.wf(),
        ensures
            r.0@ == self@.items.take(self@.head_len()),
            r.1@ == self@.items.skip(self@.head_len()),
    {
        self.rb.as_slices()
    }

    /// Calls `ringbuf::traits::Producer::vacant_slices`: the lengths of the free slots up
    /// to the end of the array, and of those from its beginning.
    #[verifier::external_body]
    pub(crate) fn vacant_slices(&self) -> (r: (usize, usize))
        requires
            self@.wf(),
        ensures
            r.0 == self@.vacant_head_len(),
            r.0 + r.1 == self@.vacant(),
    {
        let (head, tail) = self.rb.vacant_slices();
        (head.len(), tail.len())
    }
}

/// Taking out bytes keeps a ring well formed.
pub proof fn lemma_advanced(ring: Ring, n: int)
    requires
        ring.wf(),
        0 <= n <= ring.items.len(),
    ensures
        ring.advanced(n).wf(),
        ring.advanced(n).items.len() == ring.items.len() - n,
{
    vstd::arithmetic::div_mod::lemma_mod_bound(ring.start + n, ring.capacity as int);
}

} // verus!
