//! Async-aware readers-writer lock.
use vstd::prelude::*;

use crate::sync::mutex::{dequeued, enqueued, Mutex};

verus! {

/// The state of a readers-writer lock: the number of readers, and a lock that is held
/// by a writer, or by all readers together. The first reader acquires it; until it has
/// it, the number of readers is in its hands.
pub struct RwlockState<W> {
    num_readers: usize,
    first_reader_waits: bool,
    writer_lock: Mutex<(), W>,
    writing: Ghost<bool>,
}

/// What polling for read access gives.
#[derive(Clone, Copy, Debug, PartialEq, Eq, Structural)]
pub enum ReadPoll {
    /// The task has read access.
    Granted,
    /// The task is the first reader, and waits for the lock.
    Waiting,
    /// Another task is the first reader, and waits for the lock.
    Busy,
}

impl<W> RwlockState<W> {
    /// The number of tasks with read access.
    pub closed spec fn readers(self) -> nat {
        if self.first_reader_waits {
            0
        } else {
            self.num_readers as nat
        }
    }

    /// A task has write access.
    pub closed spec fn written(self) -> bool {
        self.writing@
    }

    /// The first reader waits for the lock.
    pub closed spec fn reader_waits(self) -> bool {
        self.first_reader_waits
    }

    /// The tasks that wait for the lock.
    pub closed spec fn waiting(self) -> Seq<W> {
        self.writer_lock.lock_state().waiting()
    }

    /// The lock is held by a writer, or by the readers, but not by both.
    pub closed spec fn wf(self) -> bool {
        &&& self.first_reader_waits ==> self.num_readers == 1
        &&& self.writer_lock.lock_state().locked() <==> self.writing@ || self.readers() > 0
        &&& !(self.writing@ && self.readers() > 0)
    }

    /// Creates a lock that is not held.
    pub fn new() -> (r: Self)
        ensures
            r.wf(),
            r.readers() == 0,
            !r.written(),
            !r.reader_waits(),
            r.waiting() == Seq::<W>::empty(),
    {
        RwlockState {
            num_readers: 0,
            first_reader_waits: false,
            writer_lock: Mutex::new(()),
            writing: Ghost(false),
        }
    }

    /// Returns the number of tasks with read access.
    pub fn num_readers(&self) -> (r: usize)
        ensures
            r == self.readers(),
    {
        if self.first_reader_waits {
            0
        } else {
            self.num_readers
        }
    }

    /// Polls for read access by a task that is not the first reader, or not yet.
    pub fn poll_read<F: Fn(&W) -> bool>(&mut self, same: F, waker: W) -> (r: ReadPoll)
        requires
            old(self).wf(),
            old(self).readers() < usize::MAX,
            forall|w: &W| #[trigger] same.requires((w,)),
        ensures
            final(self).wf(),
            final(self).written() == old(self).written(),
            r == (if old(self).reader_waits() {
                ReadPoll::Busy
            } else if old(self).written() {
                ReadPoll::Waiting
            } else {
                ReadPoll::Granted
            }),
            r == ReadPoll::Busy ==> *final(self) == *old(self),
            r == ReadPoll::Waiting ==> {
                &&& final(self).reader_waits()
                &&& final(self).readers() == 0
                &&& enqueued(old(self).waiting(), final(self).waiting(), same, waker)
            },
            r == ReadPoll::Granted ==> {
                &&& final(self).readers() == old(self).readers() + 1
                &&& !final(self).reader_waits()
                &&& final(self).waiting() == old(self).waiting()
            },
    {
        if self.first_reader_waits {
            return ReadPoll::Busy;
        }
        self.num_readers = self.num_readers + 1;
        if self.num_readers == 1 {
            if self.writer_lock.acquire().poll(&mut self.writer_lock, same, waker) {
                ReadPoll::Granted
            } else {
                self.first_reader_waits = true;
                ReadPoll::Waiting
            }
        } else {
            ReadPoll::Granted
        }
    }

    /// Polls for read access by the first reader, which waits for the lock. Returns
    /// whether it was granted.
    pub fn poll_first_reader<F: Fn(&W) -> bool>(&mut self, same: F, waker: W) -> (r: bool)
        requires
            old(self).wf(),
            old(self).reader_waits(),
            forall|w: &W| #[trigger] same.requires((w,)),
        ensures
            final(self).wf(),
            final(self).written() == old(self).written(),
            r == !old(self).written(),
            r ==> {
                &&& final(self).readers() == 1
                &&& !final(self).reader_waits()
                &&& final(self).waiting() == old(self).waiting()
            },
            !r ==> {
                &&& final(self).readers() == 0
                &&& final(self).reader_waits()
                &&& enqueued(old(self).waiting(), final(self).waiting(), same, waker)
            },
    {
        if self.writer_lock.acquire().poll(&mut self.writer_lock, same, waker) {
            self.first_reader_waits = false;
            true
        } else {
            false
        }
    }

    /// The first reader gives up before it has the lock, so that others can be the first
    /// one.
    pub fn cancel_first_reader(&mut self)
        requires
            old(self).wf(),
            old(self).reader_waits(),
        ensures
            final(self).wf(),
            final(self).readers() == 0,
            !final(self).reader_waits(),
            final(self).written() == old(self).written(),
            final(self).waiting() == old(self).waiting(),
    {
        self.num_readers = 0;
        self.first_reader_waits = false;
    }

    /// Gives read access up. The last reader releases the lock: the waker of the next
    /// task is returned.
    pub fn release_read(&mut self) -> (r: Option<W>)
        requires
            old(self).wf(),
            old(self).readers() > 0,
        ensures
            final(self).wf(),
            final(self).readers() == old(self).readers() - 1,
            !final(self).written(),
            !final(self).reader_waits(),
            old(self).readers() > 1 ==> r is None && final(self).waiting() == old(self).waiting(),
            old(self).readers() == 1 ==> dequeued(old(self).waiting(), final(self).waiting(), r),
    {
        self.num_readers = self.num_readers - 1;
        if self.num_readers == 0 {
            self.writer_lock.release()
        } else {
            None
        }
    }

    /// Polls for write access. Returns whether it was granted: that is the case if no
    /// task has read or write access.
    pub fn poll_write<F: Fn(&W) -> bool>(&mut self, same: F, waker: W) -> (r: bool)
        requires
            old(self).wf(),
            forall|w: &W| #[trigger] same.requires((w,)),
        ensures
            final(self).wf(),
            r == (!old(self).written() && old(self).readers() == 0),
            final(self).readers() == old(self).readers(),
            final(self).reader_waits() == old(self).reader_waits(),
            final(self).written() == (old(self).written() || r),
            r ==> final(self).waiting() == old(self).waiting(),
            !r ==> enqueued(old(self).waiting(), final(self).waiting(), same, waker),
    {
        let granted: bool = self.writer_lock.acquire().poll(&mut self.writer_lock, same, waker);
        if granted {
            self.writing = Ghost(true);
        }
        granted
    }

    /// Gives write access up. Returns the waker of the next task.
    pub fn release_write(&mut self) -> (r: Option<W>)
        requires
            old(self).wf(),
            old(self).written(),
        ensures
            final(self).wf(),
            !final(self).written(),
            final(self).readers() == old(self).readers(),
            final(self).reader_waits() == old(self).reader_waits(),
            dequeued(old(self).waiting(), final(self).waiting(), r),
    {
        self.writing = Ghost(false);
        self.writer_lock.release()
    }
}

/// An asynchronous readers-writer lock.
///
/// It can be used to protect shared data across asynchronous tasks: many tasks can read
/// the data at a time, but only one can change it, and only while no other reads it.
pub struct Rwlock<T, W> {
    state: RwlockState<W>,
    data: T,
}

/// A guard that provides read-only access to the data in a [`Rwlock`].
pub struct AsyncRwlockReadGuard {
    key: (),
}

/// A guard that provides exclusive access to the data in a [`Rwlock`].
pub struct AsyncRwlockWriteGuard {
    key: (),
}

impl<T, W> Rwlock<T, W> {
    /// The data.
    pub closed spec fn value(self) -> T {
        self.data
    }

    /// The state of the lock.
    pub closed spec fn lock_state(self) -> RwlockState<W> {
        self.state
    }

    /// Creates a new asynchronous rwlock in an unlocked state.
    pub fn new(data: T) -> (r: Self)
        ensures
            r.value() == data,
            r.lock_state().wf(),
            r.lock_state().readers() == 0,
            !r.lock_state().written(),
            !r.lock_state().reader_waits(),
            r.lock_state().waiting() == Seq::<W>::empty(),
    {
        Rwlock { state: RwlockState::new(), data }
    }

    /// Consumes the rwlock, returning the underlying data.
    pub fn into_inner(self) -> (r: T)
        ensures
            r == self.value(),
    {
        self.data
    }

    /// Polls for read access: [`RwlockState::poll_read`].
    pub fn read<F: Fn(&W) -> bool>(&mut self, same: F, waker: W) -> (r: (
        ReadPoll,
        Option<AsyncRwlockReadGuard>,
    ))
        requires
            old(self).lock_state().wf(),
            old(self).lock_state().readers() < usize::MAX,
            forall|w: &W| #[trigger] same.requires((w,)),
        ensures
            final(self).value() == old(self).value(),
            final(self).lock_state().wf(),
            final(self).lock_state().written() == old(self).lock_state().written(),
            r.1 is Some <==> r.0 == ReadPoll::Granted,
            r.0 == (if old(self).lock_state().reader_waits() {
                ReadPoll::Busy
            } else if old(self).lock_state().written() {
                ReadPoll::Waiting
            } else {
                ReadPoll::Granted
            }),
            r.0 == ReadPoll::Busy ==> final(self).lock_state() == old(self).lock_state(),
            r.0 == ReadPoll::Waiting ==> {
                &&& final(self).lock_state().reader_waits()
                &&& final(self).lock_state().readers() == 0
                &&& enqueued(
                    old(self).lock_state().waiting(),
                    final(self).lock_state().waiting(),
                    same,
                    waker,
                )
            },
            r.0 == ReadPoll::Granted ==> {
                &&& final(self).lock_state().readers() == old(self).lock_state().readers() + 1
                &&& !final(self).lock_state().reader_waits()
                &&& final(self).lock_state().waiting() == old(self).lock_state().waiting()
            },
    {
        match self.state.poll_read(same, waker) {
            ReadPoll::Granted => (ReadPoll::Granted, Some(AsyncRwlockReadGuard { key: () })),
            other => (other, None),
        }
    }

    /// Polls for read access by the first reader: [`RwlockState::poll_first_reader`].
    pub fn read_again<F: Fn(&W) -> bool>(&mut self, same: F, waker: W) -> (r: Option<
        AsyncRwlockReadGuard,
    >)
        requires
            old(self).lock_state().wf(),
            old(self).lock_state().reader_waits(),
            forall|w: &W| #[trigger] same.requires((w,)),
        ensures
            final(self).value() == old(self).value(),
            final(self).lock_state().wf(),
            final(self).lock_state().written() == old(self).lock_state().written(),
            r is Some <==> !old(self).lock_state().written(),
            r is Some ==> {
                &&& final(self).lock_state().readers() == 1
                &&& !final(self).lock_state().reader_waits()
                &&& final(self).lock_state().waiting() == old(self).lock_state().waiting()
            },
            r is None ==> {
                &&& final(self).lock_state().readers() == 0
                &&& final(self).lock_state().reader_waits()
                &&& enqueued(
                    old(self).lock_state().waiting(),
                    final(self).lock_state().waiting(),
                    same,
                    waker,
                )
            },
    {
        if self.state.poll_first_reader(same, waker) {
            Some(AsyncRwlockReadGuard { key: () })
        } else {
            None
        }
    }

    /// Polls for write access: [`RwlockState::poll_write`].
    pub fn write<F: Fn(&W) -> bool>(&mut self, same: F, waker: W) -> (r: Option<
        AsyncRwlockWriteGuard,
    >)
        requires
            old(self).lock_state().wf(),
            forall|w: &W| #[trigger] same.requires((w,)),
        ensures
            final(self).value() == old(self).value(),
            final(self).lock_state().wf(),
            r is Some <==> !old(self).lock_state().written() && old(self).lock_state().readers()
                == 0,
            final(self).lock_state().readers() == old(self).lock_state().readers(),
            final(self).lock_state().reader_waits() == old(self).lock_state().reader_waits(),
            final(self).lock_state().written() == (old(self).lock_state().written() || r is Some),
            r is Some ==> final(self).lock_state().waiting() == old(self).lock_state().waiting(),
            r is None ==> enqueued(
                old(self).lock_state().waiting(),
                final(self).lock_state().waiting(),
                same,
                waker,
            ),
    {
        if self.state.poll_write(same, waker) {
            Some(AsyncRwlockWriteGuard { key: () })
        } else {
            None
        }
    }

    /// Gives read access up, and returns the waker of the next task, if any.
    pub fn unlock_read(&mut self, _guard: AsyncRwlockReadGuard) -> (r: Option<W>)
        requires
            old(self).lock_state().wf(),
            old(self).lock_state().readers() > 0,
        ensures
            final(self).value() == old(self).value(),
            final(self).lock_state().wf(),
            final(self).lock_state().readers() == old(self).lock_state().readers() - 1,
            !final(self).lock_state().written(),
            !final(self).lock_state().reader_waits(),
            old(self).lock_state().readers() > 1 ==> r is None
                && final(self).lock_state().waiting() == old(self).lock_state().waiting(),
            old(self).lock_state().readers() == 1 ==> dequeued(
                old(self).lock_state().waiting(),
                final(self).lock_state().waiting(),
                r,
            ),
    {
        self.state.release_read()
    }

    /// Gives write access up, and returns the waker of the next task, if any.
    pub fn unlock_write(&mut self, _guard: AsyncRwlockWriteGuard) -> (r: Option<W>)
        requires
            old(self).lock_state().wf(),
            old(self).lock_state().written(),
        ensures
            final(self).value() == old(self).value(),
            final(self).lock_state().wf(),
            !final(self).lock_state().written(),
            final(self).lock_state().readers() == old(self).lock_state().readers(),
            final(self).lock_state().reader_waits() == old(self).lock_state().reader_waits(),
            dequeued(old(self).lock_state().waiting(), final(self).lock_state().waiting(), r),
    {
        self.state.release_write()
    }

    /// Returns the data for a reader.
    pub fn access(&self, _guard: &AsyncRwlockReadGuard) -> (r: &T)
        ensures
            *r == self.value(),
    {
        &self.data
    }

    /// Returns the data for the writer.
    pub fn access_mut(&mut self, _guard: &mut AsyncRwlockWriteGuard) -> (r: &mut T)
        ensures
            *r == old(self).value(),
            final(self).value() == *final(r),
            final(self).lock_state() == old(self).lock_state(),
    {
        &mut self.data
    }
}

/// Readers and a writer never have access at the same time.
pub proof fn readers_exclude_the_writer<W>(lock: RwlockState<W>)
    requires
        lock.wf(),
    ensures
        !(lock.written() && lock.readers() > 0),
{
}

} // verus!
