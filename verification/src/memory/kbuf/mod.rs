//! A page-backed async-aware circular kernel buffer.
//!
//! What would have to wait is a step of its own here: it is polled with a waker, which is
//! registered if there is nothing to do yet. A step returns the wakers of the tasks that
//! can go on because of it.
use vstd::prelude::*;

use crate::sync::waker_set::{token_after, WaitUntil, WakerSet};

pub mod ring;

use ring::ByteRing;

verus! {

/// A page-backed, async-aware circular kernel buffer.
pub struct KBufCore<W> {
    buf: ByteRing,
    read_waiters: WakerSet<W, ()>,
    write_waiters: WakerSet<W, ()>,
}

/// What a buffer is: its ring, and the tasks that wait for data and for space.
#[verifier::ext_equal]
pub ghost struct KBuf<W> {
    pub ring: ring::Ring,
    pub readers: Map<u64, (W, ())>,
    pub writers: Map<u64, (W, ())>,
}

/// One waiting task, if any, is taken out and woken: the one with the smallest token.
pub open spec fn woke_one<W>(
    before: Map<u64, (W, ())>,
    after: Map<u64, (W, ())>,
    waker: Option<W>,
) -> bool {
    match waker {
        Some(w) => exists|token: u64| #[trigger]
            crate::sync::waker_set::is_first(before, token) && w == before[token].0 && after
                == before.remove(token),
        None => before == Map::<u64, (W, ())>::empty() && after == before,
    }
}

/// No task is woken.
pub open spec fn woke_nobody<W>(
    before: Map<u64, (W, ())>,
    after: Map<u64, (W, ())>,
    waker: Option<W>,
) -> bool {
    waker is None && after == before
}

/// A wait registers its waker, unless it has done so before.
pub open spec fn waits<W>(
    before: WaitUntil,
    after: WaitUntil,
    token: u64,
    next_token: u64,
    waiters_before: Map<u64, (W, ())>,
    waiters_after: Map<u64, (W, ())>,
    waker: W,
) -> bool {
    if before.registered() is None {
        &&& after.registered() == Some(token)
        &&& next_token == token_after(token)
        &&& waiters_after == waiters_before.insert(token, (waker, ()))
    } else {
        &&& after.registered() == before.registered()
        &&& next_token == token
        &&& waiters_after == waiters_before
    }
}

/// What comes of a splice.
pub enum SplicePoll<W> {
    /// Data was moved: how much, and the wakers of a reader of the destination and of a
    /// writer of the source.
    Ready { count: usize, reader: Option<W>, writer: Option<W> },
    /// There is nothing to move, or no space for it.
    Pending,
}

/// How much can be copied in one go from one pair of slices to another: the second slice
/// of the source does not go to the second one of the destination.
pub open spec fn max_copy(src_head: int, src_tail: int, dst_head: int, dst_tail: int) -> int {
    if src_head <= dst_head {
        ring::smaller(src_head + src_tail, dst_head)
    } else {
        ring::smaller(src_head, dst_head + dst_tail)
    }
}

/// How much a splice moves.
pub open spec fn splice_len(src: ring::Ring, dst: ring::Ring, count: int) -> int {
    ring::smaller(
        ring::smaller(count, ring::smaller(src.items.len() as int, dst.vacant())),
        max_copy(
            src.head_len(),
            src.items.len() - src.head_len(),
            dst.vacant_head_len(),
            dst.vacant() - dst.vacant_head_len(),
        ),
    )
}

fn min(a: usize, b: usize) -> (r: usize)
    ensures
        r == ring::smaller(a as int, b as int),
{
    if a <= b {
        a
    } else {
        b
    }
}

/// Copies `n` bytes of a slice, from `from` on, into a vector, from `at` on.
fn copy_into(dst: &mut Vec<u8>, at: usize, src: &[u8], from: usize, n: usize)
    requires
        at + n <= old(dst)@.len(),
        from + n <= src@.len(),
    ensures
        final(dst)@.len() == old(dst)@.len(),
        forall|j: int|
            0 <= j < final(dst)@.len() ==> #[trigger] final(dst)@[j] == (if at <= j < at + n {
                src@[from + j - at]
            } else {
                old(dst)@[j]
            }),
{
    let mut i: usize = 0;
    let ghost before = dst@;
    assert(dst.len() == before.len() && src.len() == src@.len());
    while i < n
        invariant
            i <= n,
            at + n <= before.len() <= usize::MAX,
            from + n <= src@.len() <= usize::MAX,
            dst@.len() == before.len(),
            forall|j: int|
                0 <= j < before.len() ==> #[trigger] dst@[j] == (if at <= j < at + i {
                    src@[from + j - at]
                } else {
                    before[j]
                }),
        decreases n - i,
    {
        dst.set(at + i, src[from + i]);
        i = i + 1;
    }
}

/// Helper function to copy data between pairs of buffer slices. Returns how much was
/// copied.
pub fn copy_slices(
    src: (&[u8], &[u8]),
    dst_head: &mut Vec<u8>,
    dst_tail: &mut Vec<u8>,
    amount: usize,
) -> (r: usize)
    ensures
        r == ring::smaller(
            amount as int,
            max_copy(
                src.0@.len() as int,
                src.1@.len() as int,
                old(dst_head)@.len() as int,
                old(dst_tail)@.len() as int,
            ),
        ),
        final(dst_head)@.len() == old(dst_head)@.len(),
        final(dst_tail)@.len() == old(dst_tail)@.len(),
        final(dst_head)@ + final(dst_tail)@ == (src.0@ + src.1@).take(r as int) + (old(dst_head)@
            + old(dst_tail)@).skip(r as int),
{
    let mut amount = amount;
    let original_amount: usize = amount;
    let (src_head, src_tail) = src;
    let ghost all_src = src_head@ + src_tail@;
    let ghost all_dst = dst_head@ + dst_tail@;
    let ghost (head_before, tail_before) = (dst_head@, dst_tail@);

    // Copy from src_head to dst_head
    let n1: usize = min(amount, min(src_head.len(), dst_head.len()));
    copy_into(dst_head, 0, src_head, 0, n1);
    amount = amount - n1;
    if amount == 0 {
        assert(dst_head@ + dst_tail@ =~= all_src.take(n1 as int) + all_dst.skip(n1 as int));
        return original_amount;
    }
    // Copy from the remainder of src_head to dst_tail

    let n2: usize = min(amount, min(src_head.len() - n1, dst_tail.len()));
    copy_into(dst_tail, 0, src_head, n1, n2);
    amount = amount - n2;
    if amount == 0 {
        let ghost n = n1 + n2;
        assert(dst_head@ + dst_tail@ =~= all_src.take(n) + all_dst.skip(n));
        return original_amount;
    }
    // Copy from src_tail to the remainder of dst_head

    let n3: usize = min(amount, min(src_tail.len(), dst_head.len() - n1));
    copy_into(dst_head, n1, src_tail, 0, n3);
    amount = amount - n3;
    let ghost n = n1 + n2 + n3;
    assert(dst_head@ + dst_tail@ =~= all_src.take(n) + all_dst.skip(n));
    original_amount - amount
}

impl<W> View for KBufCore<W> {
    type V = KBuf<W>;

    closed spec fn view(&self) -> KBuf<W> {
        KBuf { ring: self.buf@, readers: self.read_waiters@, writers: self.write_waiters@ }
    }
}

impl<W> KBufCore<W> {
    /// The ring and the sets of waiting tasks are well formed.
    pub closed spec fn wf(self) -> bool {
        &&& self.buf@.wf()
        &&& self.read_waiters.wf()
        &&& self.write_waiters.wf()
    }

    /// The token that the next reader gets when it has to wait.
    pub closed spec fn next_reader(self) -> u64 {
        self.read_waiters.next_token()
    }

    /// The token that the next writer gets when it has to wait.
    pub closed spec fn next_writer(self) -> u64 {
        self.write_waiters.next_token()
    }

    /// A well-formed buffer has a well-formed ring.
    pub proof fn ring_is_wf(self)
        requires
            self.wf(),
        ensures
            self@.ring.wf(),
    {
    }

    /// Creates a new kernel buffer that can hold `capacity` bytes.
    pub fn new(capacity: usize) -> (r: Self)
        requires
            0 < capacity,
            4 * capacity <= usize::MAX,
        ensures
            r.wf(),
            r.next_reader() == 0,
            r.next_writer() == 0,
            r@.ring.capacity == capacity,
            r@.ring.start == 0,
            r@.ring.items == Seq::<u8>::empty(),
            r@.readers == Map::<u64, (W, ())>::empty(),
            r@.writers == Map::<u64, (W, ())>::empty(),
    {
        KBufCore {
            buf: ByteRing::new(capacity),
            read_waiters: WakerSet::new(),
            write_waiters: WakerSet::new(),
        }
    }

    /// Polls for data: the result is `Some` if there is data to read.
    pub fn read_ready(&mut self, wait: &mut WaitUntil, waker: W) -> (r: Option<()>)
        requires
            old(self).wf(),
        ensures
            final(self).wf(),
            final(self).next_writer() == old(self).next_writer(),
            r is Some <==> old(self)@.ring.items.len() > 0,
            final(self)@.ring == old(self)@.ring,
            final(self)@.writers == old(self)@.writers,
            r is Some ==> {
                &&& final(self)@ == old(self)@
                &&& final(self).next_reader() == old(self).next_reader()
                &&& final(wait).registered() == old(wait).registered()
            },
            r is None ==> waits(
                *old(wait),
                *final(wait),
                old(self).next_reader(),
                final(self).next_reader(),
                old(self)@.readers,
                final(self)@.readers,
                waker,
            ),
    {
        let ready: Option<()> = if self.buf.is_empty() {
            None
        } else {
            Some(())
        };
        wait.poll(ready, &mut self.read_waiters, waker)
    }

    /// Polls for space: the result is `Some` if at least one slot is available for
    /// writing.
    pub fn write_ready(&mut self, wait: &mut WaitUntil, waker: W) -> (r: Option<()>)
        requires
            old(self).wf(),
        ensures
            final(self).wf(),
            final(self).next_reader() == old(self).next_reader(),
            r is Some <==> old(self)@.ring.vacant() > 0,
            final(self)@.ring == old(self)@.ring,
            final(self)@.readers == old(self)@.readers,
            r is Some ==> {
                &&& final(self)@ == old(self)@
                &&& final(self).next_writer() == old(self).next_writer()
                &&& final(wait).registered() == old(wait).registered()
            },
            r is None ==> waits(
                *old(wait),
                *final(wait),
                old(self).next_writer(),
                final(self).next_writer(),
                old(self)@.writers,
                final(self)@.writers,
                waker,
            ),
    {
        let ready: Option<()> = if self.buf.is_full() {
            None
        } else {
            Some(())
        };
        wait.poll(ready, &mut self.write_waiters, waker)
    }

    /// Pushes a byte into the buffer. If the buffer is full, `Err(obj)` is returned, and
    /// this waits for a slot.
    pub fn push(&mut self, wait: &mut WaitUntil, obj: u8, waker: W) -> (r: (
        core::result::Result<(), u8>,
        Option<W>,
    ))
        requires
            old(self).wf(),
        ensures
            final(self).wf(),
            final(self).next_reader() == old(self).next_reader(),
            match r.0 {
                Ok(_) => {
                    &&& old(self)@.ring.vacant() > 0
                    &&& final(self)@.ring == old(self)@.ring.extended(seq![obj])
                    &&& final(self)@.writers == old(self)@.writers
                    &&& final(self).next_writer() == old(self).next_writer()
                    &&& final(wait).registered() == old(wait).registered()
                    &&& woke_one(old(self)@.readers, final(self)@.readers, r.1)
                },
                Err(e) => {
                    &&& old(self)@.ring.vacant() == 0
                    &&& e == obj
                    &&& final(self)@.ring == old(self)@.ring
                    &&& waits(
                        *old(wait),
                        *final(wait),
                        old(self).next_writer(),
                        final(self).next_writer(),
                        old(self)@.writers,
                        final(self)@.writers,
                        waker,
                    )
                    &&& woke_nobody(old(self)@.readers, final(self)@.readers, r.1)
                },
            },
    {
        match self.write_ready(wait, waker) {
            Some(_) => self.try_push(obj),
            None => (Err(obj), None),
        }
    }

    /// Attempts to push `obj` into the buffer without waiting. Returns `Err(obj)` if full.
    pub fn try_push(&mut self, obj: u8) -> (r: (core::result::Result<(), u8>, Option<W>))
        requires
            old(self).wf(),
        ensures
            final(self).wf(),
            final(self).next_reader() == old(self).next_reader(),
            final(self).next_writer() == old(self).next_writer(),
            final(self)@.writers == old(self)@.writers,
            match r.0 {
                Ok(_) => {
                    &&& old(self)@.ring.vacant() > 0
                    &&& final(self)@.ring == old(self)@.ring.extended(seq![obj])
                    &&& woke_one(old(self)@.readers, final(self)@.readers, r.1)
                },
                Err(e) => {
                    &&& old(self)@.ring.vacant() == 0
                    &&& e == obj
                    &&& final(self)@.ring == old(self)@.ring
                    &&& woke_nobody(old(self)@.readers, final(self)@.readers, r.1)
                },
            },
    {
        match self.buf.try_push(obj) {
            Ok(_) => {
                let woken = self.read_waiters.wake_one();
                (Ok(()), woken)
            },
            Err(e) => (Err(e), None),
        }
    }

    /// Pops a byte from the buffer. If the buffer is empty, this waits for a byte.
    pub fn pop(&mut self, wait: &mut WaitUntil, waker: W) -> (r: (Option<u8>, Option<W>))
        requires
            old(self).wf(),
        ensures
            final(self).wf(),
            final(self).next_writer() == old(self).next_writer(),
            match r.0 {
                Some(obj) => {
                    &&& old(self)@.ring.items.len() > 0
                    &&& obj == old(self)@.ring.items[0]
                    &&& final(self)@.ring == old(self)@.ring.advanced(1)
                    &&& final(self)@.readers == old(self)@.readers
                    &&& final(self).next_reader() == old(self).next_reader()
                    &&& final(wait).registered() == old(wait).registered()
                    &&& woke_one(old(self)@.writers, final(self)@.writers, r.1)
                },
                None => {
                    &&& old(self)@.ring.items.len() == 0
                    &&& final(self)@.ring == old(self)@.ring
                    &&& waits(
                        *old(wait),
                        *final(wait),
                        old(self).next_reader(),
                        final(self).next_reader(),
                        old(self)@.readers,
                        final(self)@.readers,
                        waker,
                    )
                    &&& woke_nobody(old(self)@.writers, final(self)@.writers, r.1)
                },
            },
    {
        match self.read_ready(wait, waker) {
            Some(_) => self.try_pop(),
            None => (None, None),
        }
    }

    /// Attempts to pop a value without blocking, returning `None` if the buffer is empty.
    pub fn try_pop(&mut self) -> (r: (Option<u8>, Option<W>))
        requires
            old(self).wf(),
        ensures
            final(self).wf(),
            final(self).next_reader() == old(self).next_reader(),
            final(self).next_writer() == old(self).next_writer(),
            final(self)@.readers == old(self)@.readers,
            match r.0 {
                Some(obj) => {
                    &&& old(self)@.ring.items.len() > 0
                    &&& obj == old(self)@.ring.items[0]
                    &&& final(self)@.ring == old(self)@.ring.advanced(1)
                    &&& woke_one(old(self)@.writers, final(self)@.writers, r.1)
                },
                None => {
                    &&& old(self)@.ring.items.len() == 0
                    &&& final(self)@.ring == old(self)@.ring
                    &&& woke_nobody(old(self)@.writers, final(self)@.writers, r.1)
                },
            },
    {
        proof {
            if self.buf@.items.len() > 0 {
                ring::lemma_advanced(self.buf@, 1);
            }
        }
        match self.buf.try_pop() {
            Some(obj) => {
                let woken = self.write_waiters.wake_one();
                (Some(obj), woken)
            },
            None => (None, None),
        }
    }

    /// Ends a wait for data.
    pub fn cancel_read(&mut self, wait: WaitUntil)
        requires
            old(self).wf(),
        ensures
            final(self).wf(),
            final(self).next_reader() == old(self).next_reader(),
            final(self).next_writer() == old(self).next_writer(),
            final(self)@.ring == old(self)@.ring,
            final(self)@.writers == old(self)@.writers,
            final(self)@.readers == (match wait.registered() {
                Some(token) => old(self)@.readers.remove(token),
                None => old(self)@.readers,
            }),
    {
        wait.cancel(&mut self.read_waiters);
    }

    /// Ends a wait for space.
    pub fn cancel_write(&mut self, wait: WaitUntil)
        requires
            old(self).wf(),
        ensures
            final(self).wf(),
            final(self).next_reader() == old(self).next_reader(),
            final(self).next_writer() == old(self).next_writer(),
            final(self)@.ring == old(self)@.ring,
            final(self)@.readers == old(self)@.readers,
            final(self)@.writers == (match wait.registered() {
                Some(token) => old(self)@.writers.remove(token),
                None => old(self)@.writers,
            }),
    {
        wait.cancel(&mut self.write_waiters);
    }

    /// Returns the capacity of the underlying ring buffer.
    pub fn capacity(&self) -> (r: usize)
        requires
            self.wf(),
        ensures
            r == self@.ring.capacity,
    {
        self.buf.capacity()
    }

    /// Pops up to `buf.len()` bytes into `buf`. If none can be popped, the count is `None`,
    /// and this waits for data.
    pub fn pop_slice(&mut self, wait: &mut WaitUntil, buf: &mut [u8], waker: W) -> (r: (
        Option<usize>,
        Option<W>,
    ))
        requires
            old(self).wf(),
        ensures
            final(self).wf(),
            final(self).next_writer() == old(self).next_writer(),
            ({
                let n = ring::smaller(
                    old(buf)@.len() as int,
                    old(self)@.ring.items.len() as int,
                );
                &&& final(buf)@ == old(self)@.ring.items.take(n) + old(buf)@.skip(n)
                &&& n > 0 ==> {
                    &&& r.0 == Some(n as usize)
                    &&& final(self)@.ring == old(self)@.ring.advanced(n)
                    &&& final(self)@.readers == old(self)@.readers
                    &&& final(self).next_reader() == old(self).next_reader()
                    &&& final(wait).registered() == old(wait).registered()
                    &&& woke_one(old(self)@.writers, final(self)@.writers, r.1)
                }
                &&& n == 0 ==> {
                    &&& r.0 is None
                    &&& final(self)@.ring == old(self)@.ring
                    &&& waits(
                        *old(wait),
                        *final(wait),
                        old(self).next_reader(),
                        final(self).next_reader(),
                        old(self)@.readers,
                        final(self)@.readers,
                        waker,
                    )
                    &&& woke_nobody(old(self)@.writers, final(self)@.writers, r.1)
                }
            }),
    {
        let (size, woken) = self.try_pop_slice(buf);
        let result: Option<usize> = if size != 0 {
            Some(size)
        } else {
            // Sleep.
            None
        };
        (wait.poll(result, &mut self.read_waiters, waker), woken)
    }

    /// Attempts to pop up to `buf.len()` items without blocking.
    pub fn try_pop_slice(&mut self, buf: &mut [u8]) -> (r: (usize, Option<W>))
        requires
            old(self).wf(),
        ensures
            final(self).wf(),
            final(self).next_reader() == old(self).next_reader(),
            final(self).next_writer() == old(self).next_writer(),
            final(self)@.readers == old(self)@.readers,
            r.0 == ring::smaller(old(buf)@.len() as int, old(self)@.ring.items.len() as int),
            final(buf)@ == old(self)@.ring.items.take(r.0 as int) + old(buf)@.skip(r.0 as int),
            r.0 > 0 ==> {
                &&& final(self)@.ring == old(self)@.ring.advanced(r.0 as int)
                &&& woke_one(old(self)@.writers, final(self)@.writers, r.1)
            },
            r.0 == 0 ==> {
                &&& final(self)@.ring == old(self)@.ring
                &&& woke_nobody(old(self)@.writers, final(self)@.writers, r.1)
            },
    {
        let ghost before = self.buf@;
        proof {
            ring::lemma_advanced(
                before,
                ring::smaller(buf@.len() as int, before.items.len() as int),
            );
        }
        let size: usize = self.buf.pop_slice(buf);
        if size > 0 {
            // Wake up any writers that may be waiting on the pipe.
            let woken = self.write_waiters.wake_one();
            (size, woken)
        } else {
            proof {
                vstd::arithmetic::div_mod::lemma_small_mod(before.start, before.capacity);
                assert(before.items.skip(0) =~= before.items);
            }
            (size, None)
        }
    }

    /// Pushes items from `buf`. If none can be pushed, the count is `None`, and this waits
    /// for space. The wakers are those of a writer, which may go on if the buffer has not
    /// been filled, and of a reader.
    pub fn push_slice(&mut self, wait: &mut WaitUntil, buf: &[u8], waker: W) -> (r: (
        Option<usize>,
        Option<W>,
        Option<W>,
    ))
        requires
            old(self).wf(),
        ensures
            final(self).wf(),
            final(self).next_reader() == old(self).next_reader(),
            ({
                let n = ring::smaller(buf@.len() as int, old(self)@.ring.vacant());
                &&& final(self)@.ring == old(self)@.ring.extended(buf@.take(n))
                &&& n > 0 ==> {
                    &&& r.0 == Some(n as usize)
                    &&& final(self).next_writer() == old(self).next_writer()
                    &&& final(wait).registered() == old(wait).registered()
                    &&& n < old(self)@.ring.vacant() ==> woke_one(
                        old(self)@.writers,
                        final(self)@.writers,
                        r.1,
                    )
                    &&& n == old(self)@.ring.vacant() ==> woke_nobody(
                        old(self)@.writers,
                        final(self)@.writers,
                        r.1,
                    )
                    &&& woke_one(old(self)@.readers, final(self)@.readers, r.2)
                }
                &&& n == 0 ==> {
                    &&& r.0 is None
                    &&& woke_nobody(old(self)@.readers, final(self)@.readers, r.2)
                    &&& exists|writers: Map<u64, (W, ())>| {
                        &&& old(self)@.ring.vacant() > 0 ==> woke_one(
                            old(self)@.writers,
                            writers,
                            r.1,
                        )
                        &&& old(self)@.ring.vacant() == 0 ==> woke_nobody(
                            old(self)@.writers,
                            writers,
                            r.1,
                        )
                        &&& #[trigger] waits(
                            *old(wait),
                            *final(wait),
                            old(self).next_writer(),
                            final(self).next_writer(),
                            writers,
                            final(self)@.writers,
                            waker,
                        )
                    }
                }
            }),
    {
        let bytes_written: usize = self.buf.push_slice(buf);
        // If we didn't fill the buffer completely, other pending writes may be able to
        // complete.
        let mut writer: Option<W> = None;
        if !self.buf.is_full() {
            writer = self.write_waiters.wake_one();
        }
        let ghost writers = self.write_waiters@;
        let mut reader: Option<W> = None;
        let mut result: Option<usize> = None;
        if bytes_written > 0 {
            // We wrote some data, wake up any blocking readers.
            reader = self.read_waiters.wake_one();
            result = Some(bytes_written);
        }
        let r = wait.poll(result, &mut self.write_waiters, waker);
        assert(bytes_written == 0 ==> waits(
            *old(wait),
            *wait,
            old(self).next_writer(),
            self.next_writer(),
            writers,
            self@.writers,
            waker,
        ));
        (r, writer, reader)
    }

    /// Attempts to push items from `buf` without blocking.
    pub fn try_push_slice(&mut self, buf: &[u8]) -> (r: (usize, Option<W>))
        requires
            old(self).wf(),
        ensures
            final(self).wf(),
            final(self).next_reader() == old(self).next_reader(),
            final(self).next_writer() == old(self).next_writer(),
            final(self)@.writers == old(self)@.writers,
            r.0 == ring::smaller(buf@.len() as int, old(self)@.ring.vacant()),
            final(self)@.ring == old(self)@.ring.extended(buf@.take(r.0 as int)),
            r.0 > 0 ==> woke_one(old(self)@.readers, final(self)@.readers, r.1),
            r.0 == 0 ==> woke_nobody(old(self)@.readers, final(self)@.readers, r.1),
    {
        let size: usize = self.buf.push_slice(buf);
        if size > 0 {
            let woken = self.read_waiters.wake_one();
            (size, woken)
        } else {
            (size, None)
        }
    }

    /// Moves up to `count` bytes from the `source` buffer into this one.
    ///
    /// If nothing can be moved, this waits: for a writer on the source if the source is
    /// empty, with the first waker, and for a reader on this buffer if it is full, with
    /// the second one.
    pub fn splice_from(&mut self, source: &mut KBufCore<W>, count: usize, wakers: (W, W)) -> (r:
        SplicePoll<W>)
        requires
            old(self).wf(),
            old(source).wf(),
        ensures
            final(self).wf(),
            final(source).wf(),
            final(self).next_reader() == old(self).next_reader(),
            final(source).next_writer() == old(source).next_writer(),
            ({
                let n = splice_len(old(source)@.ring, old(self)@.ring, count as int);
                &&& n > 0 ==> {
                    &&& final(self).next_writer() == old(self).next_writer()
                    &&& final(source).next_reader() == old(source).next_reader()
                    &&& final(self)@.ring == old(self)@.ring.extended(
                        old(source)@.ring.items.take(n),
                    )
                    &&& final(source)@.ring == old(source)@.ring.advanced(n)
                    &&& final(self)@.writers == old(self)@.writers
                    &&& final(source)@.readers == old(source)@.readers
                    &&& r matches SplicePoll::Ready { count: moved, reader, writer } && {
                        &&& moved == n
                        &&& woke_one(old(self)@.readers, final(self)@.readers, reader)
                        &&& woke_one(old(source)@.writers, final(source)@.writers, writer)
                    }
                }
                &&& n == 0 ==> {
                    &&& final(self)@.ring == old(self)@.ring
                    &&& final(source)@.ring == old(source)@.ring
                    &&& final(self)@.readers == old(self)@.readers
                    &&& final(source)@.writers == old(source)@.writers
                    &&& count == 0 ==> {
                        &&& r == (SplicePoll::<W>::Ready { count: 0, reader: None, writer: None })
                        &&& final(self)@.writers == old(self)@.writers
                        &&& final(source)@.readers == old(source)@.readers
                        &&& final(self).next_writer() == old(self).next_writer()
                        &&& final(source).next_reader() == old(source).next_reader()
                    }
                    &&& count > 0 ==> {
                        &&& r is Pending
                        &&& final(source).next_reader() == (if old(source)@.ring.items.len() == 0 {
                            token_after(old(source).next_reader())
                        } else {
                            old(source).next_reader()
                        })
                        &&& final(self).next_writer() == (if old(self)@.ring.vacant() == 0 {
                            token_after(old(self).next_writer())
                        } else {
                            old(self).next_writer()
                        })
                        &&& final(source)@.readers == (if old(source)@.ring.items.len() == 0 {
                            old(source)@.readers.insert(old(source).next_reader(), (wakers.0, ()))
                        } else {
                            old(source)@.readers
                        })
                        &&& final(self)@.writers == (if old(self)@.ring.vacant() == 0 {
                            old(self)@.writers.insert(old(self).next_writer(), (wakers.1, ()))
                        } else {
                            old(self)@.writers
                        })
                    }
                }
            }),
    {
        if count == 0 {
            return SplicePoll::Ready { count: 0, reader: None, writer: None };
        }
        let ghost src = source.buf@;
        let ghost dst = self.buf@;
        proof {
            splice_makes_progress(src, dst, count as int);
        }
        // Determine the maximum number of bytes we can move in one go.
        let bytes_to_move: usize = min(
            count,
            min(source.buf.occupied_len(), self.buf.vacant_len()),
        );
        if bytes_to_move > 0 {
            let slices = source.buf.as_slices();
            let (head_len, tail_len) = self.buf.vacant_slices();
            let mut dst_head: Vec<u8> = vec![0u8;head_len];
            let mut dst_tail: Vec<u8> = vec![0u8;tail_len];
            // Perform the copy, which may involve multiple steps if the source or
            // destination wraps around the end of the ring buffer.
            let copied: usize = copy_slices(slices, &mut dst_head, &mut dst_tail, bytes_to_move);
            let ghost all = dst_head@ + dst_tail@;
            proof {
                assert(slices.0@ + slices.1@ =~= src.items);
                ring::lemma_advanced(src, copied as int);
            }
            // Advance the read/write heads in the ring buffers.
            let _ = source.buf.skip(copied);
            if copied < head_len {
                dst_head.truncate(copied);
                dst_tail.truncate(0);
            } else {
                dst_tail.truncate(copied - head_len);
            }
            assert(dst_head@ + dst_tail@ =~= all.take(copied as int));
            assert(all.take(copied as int) =~= src.items.take(copied as int));
            let n1: usize = self.buf.push_slice(dst_head.as_slice());
            assert(dst_head@.take(n1 as int) =~= dst_head@);
            let n2: usize = self.buf.push_slice(dst_tail.as_slice());
            assert(dst_tail@.take(n2 as int) =~= dst_tail@);
            assert(self.buf@ =~= dst.extended(src.items.take(copied as int)));

            // Wake up anyone waiting for the opposite condition. A reader might be waiting
            // for data in this buffer.
            let reader = self.read_waiters.wake_one();
            // A writer might be waiting for space in the source.
            let writer = source.write_waiters.wake_one();
            SplicePoll::Ready { count: copied, reader, writer }
        } else {
            let (source_waker, own_waker) = wakers;
            // We can't move data. We need to wait. If source is empty, we must wait for a
            // writer on the source.
            if source.buf.is_empty() {
                let _ = source.read_waiters.register(source_waker);
            }
            // If destination is full, we must wait for a reader on the destination.

            if self.buf.is_full() {
                let _ = self.write_waiters.register(own_waker);
            }
            SplicePoll::Pending
        }
    }
}

/// A splice moves something whenever there is data in the source and space in the
/// destination, and never more than asked for, than there is data, or than there is space.
pub proof fn splice_makes_progress(src: ring::Ring, dst: ring::Ring, count: int)
    requires
        src.wf(),
        dst.wf(),
        count >= 0,
    ensures
        0 <= splice_len(src, dst, count) <= count,
        splice_len(src, dst, count) <= src.items.len(),
        splice_len(src, dst, count) <= dst.vacant(),
        splice_len(src, dst, count) > 0 <==> count > 0 && src.items.len() > 0 && dst.vacant() > 0,
{
    vstd::arithmetic::div_mod::lemma_mod_bound(
        (dst.start + dst.items.len()) as int,
        dst.capacity as int,
    );
}

/// Of the tasks that wait, one is woken: the one that has waited longest. The others go on
/// waiting.
pub proof fn the_longest_waiting_task_is_woken<W>(
    before: Map<u64, (W, ())>,
    after: Map<u64, (W, ())>,
    waker: Option<W>,
    token: u64,
)
    requires
        woke_one(before, after, waker),
        before.dom().contains(token),
    ensures
        waker is Some,
        after.dom().contains(token) ==> after[token] == before[token],
        !after.dom().contains(token) <==> forall|k: u64| #[trigger]
            before.dom().contains(k) ==> token <= k,
        !after.dom().contains(token) ==> waker == Some(before[token].0),
        forall|k: u64| #[trigger] after.dom().contains(k) ==> before.dom().contains(k),
{
    assert(!Map::<u64, (W, ())>::empty().dom().contains(token));
}

/// A task that waits is registered once, under its token, whenever it is polled.
pub proof fn a_waiting_task_is_registered_once<W>(
    before: WaitUntil,
    after: WaitUntil,
    token: u64,
    next_token: u64,
    waiters_before: Map<u64, (W, ())>,
    waiters_after: Map<u64, (W, ())>,
    waker: W,
)
    requires
        waits(before, after, token, next_token, waiters_before, waiters_after, waker),
    ensures
        after.registered() is Some,
        before.registered() is Some ==> after.registered() == before.registered()
            && waiters_after == waiters_before && next_token == token,
        before.registered() is None ==> {
            &&& after.registered() == Some(token)
            &&& waiters_after.dom().contains(token)
            &&& waiters_after[token].0 == waker
            &&& forall|k: u64|
                k != token ==> (#[trigger] waiters_after.dom().contains(k)
                    <==> waiters_before.dom().contains(k))
            &&& forall|k: u64| #[trigger]
                waiters_before.dom().contains(k) && k != token ==> waiters_after[k]
                    == waiters_before[k]
            &&& token < u64::MAX ==> next_token == token + 1
        },
{
}

/// A splice moves what is asked for, as far as there is data and space, but stops where both
/// the data and the space have reached the end of their array.
pub proof fn splice_moves_all_up_to_an_end(src: ring::Ring, dst: ring::Ring, count: int)
    requires
        src.wf(),
        dst.wf(),
        count >= 0,
    ensures
        ({
            let n = splice_len(src, dst, count);
            &&& n < count && n < src.items.len() && n < dst.vacant() ==> {
                &&& n == src.head_len() || n == dst.vacant_head_len()
                &&& n >= src.head_len()
                &&& n >= dst.vacant_head_len()
            }
            &&& n <= src.head_len() || n <= dst.vacant_head_len()
        }),
{
    splice_makes_progress(src, dst, count);
}

/// What is read from a buffer, followed by what is still in it, is what has been written
/// to it: bytes arrive in order, and none is lost or made up.
pub proof fn bytes_arrive_in_order(
    written: Seq<u8>,
    read: Seq<u8>,
    ring: ring::Ring,
    bytes: Seq<u8>,
    n: int,
)
    requires
        written == read + ring.items,
        0 <= n <= ring.items.len(),
    ensures
        written + bytes == read + ring.extended(bytes).items,
        written == (read + ring.items.take(n)) + ring.advanced(n).items,
{
    assert(written + bytes =~= read + ring.extended(bytes).items);
    assert(written =~= (read + ring.items.take(n)) + ring.advanced(n).items);
}

/// A splice keeps the bytes of both buffers, and their order: what is in the destination,
/// followed by what is in the source, stays the same.
pub proof fn splice_keeps_the_bytes(src: ring::Ring, dst: ring::Ring, count: int)
    requires
        src.wf(),
        dst.wf(),
        count >= 0,
    ensures
        ({
            let n = splice_len(src, dst, count);
            dst.extended(src.items.take(n)).items + src.advanced(n).items == dst.items + src.items
        }),
{
    splice_makes_progress(src, dst, count);
    let n = splice_len(src, dst, count);
    assert(dst.extended(src.items.take(n)).items + src.advanced(n).items =~= dst.items
        + src.items);
}

} // verus!
