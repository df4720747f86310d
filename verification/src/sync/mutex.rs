//! Async-aware mutual-exclusion lock.
use std::collections::VecDeque;
use vstd::prelude::*;

verus! {

/// The state of a lock: whether it is held, and the tasks that wait for it, in the
/// order in which they came.
pub struct MutexState<W> {
    is_locked: bool,
    waiters: VecDeque<W>,
}

/// A task has been added to the waiting ones, unless one of these is woken by the same
/// waker.
pub open spec fn enqueued<W, F: Fn(&W) -> bool>(
    before: Seq<W>,
    after: Seq<W>,
    same: F,
    waker: W,
) -> bool {
    ||| after == before && exists|i: int|
        0 <= i < before.len() && same.ensures((&#[trigger] before[i],), true)
    ||| after == before.push(waker) && forall|i: int|
        0 <= i < before.len() ==> same.ensures((&#[trigger] before[i],), false)
}

/// The task that has waited longest is no longer among the waiting ones, and is the next
/// one.
pub open spec fn dequeued<W>(before: Seq<W>, after: Seq<W>, next: Option<W>) -> bool {
    match next {
        Some(waker) => before.len() > 0 && waker == before[0] && after == before.skip(1),
        None => before.len() == 0 && after == before,
    }
}

impl<W> MutexState<W> {
    /// The lock is held.
    pub closed spec fn locked(self) -> bool {
        self.is_locked
    }

    /// The waiting tasks.
    pub closed spec fn waiting(self) -> Seq<W> {
        self.waiters@
    }

    /// Creates a lock that is not held.
    pub fn new() -> (r: Self)
        ensures
            !r.locked(),
            r.waiting() == Seq::<W>::empty(),
    {
        MutexState { is_locked: false, waiters: VecDeque::new() }
    }

    /// Takes the lock if it is not held, and returns whether it was taken.
    ///
    /// Otherwise the task waits: its waker is added to the waiting ones, unless there is
    /// already one for which `same` says that it wakes the same task.
    pub fn poll_acquire<F: Fn(&W) -> bool>(&mut self, same: F, waker: W) -> (r: bool)
        requires
            forall|w: &W| #[trigger] same.requires((w,)),
        ensures
            r == !old(self).locked(),
            final(self).locked(),
            r ==> final(self).waiting() == old(self).waiting(),
            !r ==> enqueued(old(self).waiting(), final(self).waiting(), same, waker),
    {
        if !self.is_locked {
            self.is_locked = true;
            return true;
        }
        let ghost s = self.waiters@;
        let mut i: usize = 0;
        while i < self.waiters.len()
            invariant
                *self == *old(self),
                self.waiters@ == s,
                self.is_locked,
                i <= s.len(),
                forall|w: &W| #[trigger] same.requires((w,)),
                forall|j: int| 0 <= j < i ==> same.ensures((&#[trigger] s[j],), false),
            decreases s.len() - i,
        {
            let hit: bool = same(&self.waiters[i]);
            if hit {
                assert(same.ensures((&old(self).waiting()[i as int],), true));
                return false;
            }
            i = i + 1;
        }
        self.waiters.push_back(waker);
        false
    }

    /// Gives the lock up. Returns the waker of the task that has waited longest.
    pub fn release(&mut self) -> (r: Option<W>)
        ensures
            !final(self).locked(),
            dequeued(old(self).waiting(), final(self).waiting(), r),
    {
        let ghost s = self.waiters@;
        let next = self.waiters.pop_front();
        self.is_locked = false;
        proof {
            if s.len() > 0 {
                assert(self.waiters@ =~= s.skip(1));
            }
        }
        next
    }
}

/// An asynchronous mutex primitive.
///
/// This mutex can be used to protect shared data across asynchronous tasks. A task polls
/// the future that [`Mutex::lock`] gives until it has a guard, and gives the guard back
/// to [`Mutex::unlock`].
pub struct Mutex<T, W> {
    state: MutexState<W>,
    data: T,
}

/// A guard that provides exclusive access to the data in a [`Mutex`].
pub struct AsyncMutexGuard {
    key: (),
}

/// What a task that wants the lock polls until it gets an [`AsyncMutexGuard`].
pub struct MutexGuardFuture {}

/// What a task that wants a lock without data polls until it holds the lock.
pub struct MutexAcquireFuture {}

impl<T, W> Mutex<T, W> {
    /// The data.
    pub closed spec fn value(self) -> T {
        self.data
    }

    /// The state of the lock.
    pub closed spec fn lock_state(self) -> MutexState<W> {
        self.state
    }

    /// Creates a new asynchronous mutex in an unlocked state.
    pub fn new(data: T) -> (r: Self)
        ensures
            r.value() == data,
            !r.lock_state().locked(),
            r.lock_state().waiting() == Seq::<W>::empty(),
    {
        Mutex { state: MutexState::new(), data }
    }

    /// Consumes the mutex, returning the underlying data.
    pub fn into_inner(self) -> (r: T)
        ensures
            r == self.value(),
    {
        self.data
    }

    /// Starts to acquire the mutex lock.
    pub fn lock(&self) -> (r: MutexGuardFuture) {
        MutexGuardFuture {  }
    }

    /// Returns a mutable reference to the underlying data.
    ///
    /// Since this call borrows the `Mutex` mutably, no actual locking needs to take place.
    pub fn get_mut(&mut self) -> (r: &mut T)
        ensures
            *r == old(self).value(),
            final(self).value() == *final(r),
            final(self).lock_state() == old(self).lock_state(),
    {
        &mut self.data
    }

    /// Returns the data that the guard protects.
    pub fn access(&self, _guard: &AsyncMutexGuard) -> (r: &T)
        ensures
            *r == self.value(),
    {
        &self.data
    }

    /// Returns the data that the guard protects, for changing it.
    pub fn access_mut(&mut self, _guard: &mut AsyncMutexGuard) -> (r: &mut T)
        ensures
            *r == old(self).value(),
            final(self).value() == *final(r),
            final(self).lock_state() == old(self).lock_state(),
    {
        &mut self.data
    }

    /// Releases the lock, and returns the waker of the next task.
    pub fn unlock(&mut self, _guard: AsyncMutexGuard) -> (r: Option<W>)
        ensures
            final(self).value() == old(self).value(),
            !final(self).lock_state().locked(),
            dequeued(old(self).lock_state().waiting(), final(self).lock_state().waiting(), r),
    {
        self.state.release()
    }
}

impl MutexGuardFuture {
    /// Takes the lock if it is not held, and returns a guard then; otherwise the task
    /// waits: [`MutexState::poll_acquire`].
    pub fn poll<T, W, F: Fn(&W) -> bool>(&self, mutex: &mut Mutex<T, W>, same: F, waker: W) -> (r:
        Option<AsyncMutexGuard>)
        requires
            forall|w: &W| #[trigger] same.requires((w,)),
        ensures
            final(mutex).value() == old(mutex).value(),
            r is Some <==> !old(mutex).lock_state().locked(),
            final(mutex).lock_state().locked(),
            r is Some ==> final(mutex).lock_state().waiting() == old(mutex).lock_state().waiting(),
            r is None ==> enqueued(
                old(mutex).lock_state().waiting(),
                final(mutex).lock_state().waiting(),
                same,
                waker,
            ),
    {
        if mutex.state.poll_acquire(same, waker) {
            Some(AsyncMutexGuard { key: () })
        } else {
            None
        }
    }
}

impl<W> Mutex<(), W> {
    /// Starts to acquire the mutex lock without caring about the data.
    pub(crate) fn acquire(&self) -> (r: MutexAcquireFuture) {
        MutexAcquireFuture {  }
    }

    /// Releases the mutex lock without caring about the data: the caller has previously
    /// acquired it. Returns the waker of the next task.
    pub(crate) fn release(&mut self) -> (r: Option<W>)
        ensures
            !final(self).lock_state().locked(),
            dequeued(old(self).lock_state().waiting(), final(self).lock_state().waiting(), r),
    {
        self.state.release()
    }
}

impl MutexAcquireFuture {
    /// Takes the lock if it is not held, and returns whether it was taken; otherwise the
    /// task waits: [`MutexState::poll_acquire`].
    pub fn poll<W, F: Fn(&W) -> bool>(&self, mutex: &mut Mutex<(), W>, same: F, waker: W) -> (r: bool)
        requires
            forall|w: &W| #[trigger] same.requires((w,)),
        ensures
            r == !old(mutex).lock_state().locked(),
            final(mutex).lock_state().locked(),
            r ==> final(mutex).lock_state().waiting() == old(mutex).lock_state().waiting(),
            !r ==> enqueued(
                old(mutex).lock_state().waiting(),
                final(mutex).lock_state().waiting(),
                same,
                waker,
            ),
    {
        mutex.state.poll_acquire(same, waker)
    }
}

/// Tasks get the lock in the order in which they came: a task that starts to wait leaves
/// the one that has waited longest the next one to be woken.
pub proof fn first_come_first_served<W, F: Fn(&W) -> bool>(
    before: Seq<W>,
    with_task: Seq<W>,
    after: Seq<W>,
    same: F,
    waker: W,
    next: Option<W>,
)
    requires
        before.len() > 0,
        enqueued(before, with_task, same, waker),
        dequeued(with_task, after, next),
    ensures
        next == Some(before[0]),
{
}

/// A task that has to wait is behind all tasks that wait already, or it is among these.
pub proof fn a_task_waits_behind_the_others<W, F: Fn(&W) -> bool>(
    before: Seq<W>,
    after: Seq<W>,
    same: F,
    waker: W,
)
    requires
        enqueued(before, after, same, waker),
    ensures
        after.len() > 0,
        before.len() <= after.len() <= before.len() + 1,
        forall|i: int| 0 <= i < before.len() ==> #[trigger] after[i] == before[i],
        after.len() > before.len() ==> after.last() == waker,
        after.len() == before.len() ==> exists|i: int|
            0 <= i < before.len() && same.ensures((&#[trigger] before[i],), true),
{
}

/// Giving up the lock wakes the task at the front, and the others move up by one.
pub proof fn the_others_move_up<W>(before: Seq<W>, after: Seq<W>, next: Option<W>)
    requires
        dequeued(before, after, next),
    ensures
        before.len() == 0 ==> next is None && after.len() == 0,
        before.len() > 0 ==> {
            &&& next == Some(before[0])
            &&& after.len() == before.len() - 1
            &&& forall|i: int| 0 <= i < after.len() ==> #[trigger] after[i] == before[i + 1]
        },
{
}

} // verus!
