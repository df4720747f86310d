//! Async-aware condition variable.
use vstd::prelude::*;

use crate::sync::waker_set::{in_order, is_first, token_after, WaitUntil, WakerSet};

verus! {

/// The type of wakeup that should occur after a state update.
#[derive(Clone, Copy, Debug, PartialEq, Eq, Structural)]
pub enum WakeupType {
    /// Do not wake any waiting task.
    Nobody,
    /// Wake exactly one waiting task.
    One,
    /// Wake all waiting tasks.
    All,
}

/// A condvar for managing asynchronous tasks that need to sleep while sharing state.
///
/// It holds the state and the wakers of the tasks that wait for a change of it, which
/// can be woken selectively or all at once. Whoever shares it between threads guards
/// it with a lock.
pub struct CondVar<S, W> {
    state: S,
    wakers: WakerSet<W, ()>,
}

/// The wakers that a wakeup takes out of the set, and the set that is left.
pub open spec fn woken<W>(
    before: Map<u64, (W, ())>,
    after: Map<u64, (W, ())>,
    kind: WakeupType,
    wakers: Seq<W>,
) -> bool {
    match kind {
        WakeupType::Nobody => wakers.len() == 0 && after == before,
        WakeupType::One => if before == Map::<u64, (W, ())>::empty() {
            wakers.len() == 0 && after == before
        } else {
            exists|token: u64| #[trigger]
                is_first(before, token) && wakers == seq![before[token].0] && after
                    == before.remove(token)
        },
        WakeupType::All => after == Map::<u64, (W, ())>::empty() && exists|tokens: Seq<u64>|
         #[trigger]
            in_order(before, tokens) && wakers == Seq::new(
                tokens.len(),
                |i: int| before[tokens[i]].0,
            ),
    }
}

impl<S, W> CondVar<S, W> {
    /// The state.
    pub closed spec fn value(self) -> S {
        self.state
    }

    /// The waiting tasks.
    pub closed spec fn waiting(self) -> Map<u64, (W, ())> {
        self.wakers@
    }

    /// The token that the next waiting task gets.
    pub closed spec fn next_token(self) -> u64 {
        self.wakers.next_token()
    }

    /// The set of wakers is well formed.
    pub closed spec fn wf(self) -> bool {
        self.wakers.wf()
    }

    /// Creates a new, empty wait queue, initialized with state `initial_state`.
    pub fn new(initial_state: S) -> (r: Self)
        ensures
            r.wf(),
            r.value() == initial_state,
            r.waiting() == Map::<u64, (W, ())>::empty(),
            r.next_token() == 0,
    {
        Self { state: initial_state, wakers: WakerSet::new() }
    }

    /// Updates the internal state by calling `updater`.
    ///
    /// The `updater` closure should return the kind of wakeup to perform on the condvar
    /// after performing the update. Returns the wakers of the tasks to wake.
    pub fn update<F: FnOnce(&mut S) -> WakeupType>(&mut self, updater: F) -> (r: Vec<W>)
        requires
            old(self).wf(),
            forall|s: &mut S| *s == old(self).value() ==> #[trigger] updater.requires((s,)),
        ensures
            final(self).wf(),
            final(self).next_token() == old(self).next_token(),
            exists|s: &mut S, kind: WakeupType|
                *s == old(self).value() && *final(s) == final(self).value()
                    && #[trigger] updater.ensures((s,), kind) && woken(
                    old(self).waiting(),
                    final(self).waiting(),
                    kind,
                    r@,
                ),
    {
        let ghost before = self.wakers@;
        let kind = updater(&mut self.state);
        self.wake(kind)
    }

    /// Takes the tasks to wake out of the set.
    fn wake(&mut self, kind: WakeupType) -> (r: Vec<W>)
        requires
            old(self).wf(),
        ensures
            final(self).wf(),
            final(self).value() == old(self).value(),
            final(self).next_token() == old(self).next_token(),
            woken(old(self).waiting(), final(self).waiting(), kind, r@),
    {
        match kind {
            WakeupType::Nobody => Vec::new(),
            WakeupType::One => {
                let mut wakers: Vec<W> = Vec::new();
                let ghost before = self.wakers@;
                match self.wakers.wake_one() {
                    Some(waker) => {
                        proof {
                            let token = choose|token: u64| #[trigger]
                                is_first(before, token) && waker == before[token].0 && self.wakers@
                                    == before.remove(token);
                            assert(before.dom().contains(token));
                            assert(seq![waker] =~= Seq::<W>::empty().push(waker));
                        }
                        wakers.push(waker);
                    },
                    None => {},
                }
                wakers
            },
            WakeupType::All => self.wakers.wake_all(),
        }
    }

    /// Polls a wait until a condition on the internal state is met.
    ///
    /// `predicate` checks the condition in the underlying state. It should return `None`
    /// to continue waiting, or `Some(T)` to stop waiting and yield `T` to the caller.
    pub fn wait_until<T, F: FnOnce(&mut S) -> Option<T>>(
        &mut self,
        wait: &mut WaitUntil,
        predicate: F,
        waker: W,
    ) -> (r: Option<T>)
        requires
            old(self).wf(),
            forall|s: &mut S| *s == old(self).value() ==> #[trigger] predicate.requires((s,)),
        ensures
            final(self).wf(),
            exists|s: &mut S|
                *s == old(self).value() && *final(s) == final(self).value()
                    && #[trigger] predicate.ensures((s,), r),
            ({
                let waits = r is None && old(wait).registered() is None;
                &&& waits ==> {
                    &&& final(wait).registered() == Some(old(self).next_token())
                    &&& final(self).waiting() == old(self).waiting().insert(
                        old(self).next_token(),
                        (waker, ()),
                    )
                    &&& final(self).next_token() == token_after(old(self).next_token())
                }
                &&& !waits ==> {
                    &&& final(wait).registered() == old(wait).registered()
                    &&& final(self).waiting() == old(self).waiting()
                    &&& final(self).next_token() == old(self).next_token()
                }
            }),
    {
        let result = predicate(&mut self.state);
        wait.poll(result, &mut self.wakers, waker)
    }

    /// Ends a wait.
    pub fn cancel(&mut self, wait: WaitUntil)
        requires
            old(self).wf(),
        ensures
            final(self).wf(),
            final(self).value() == old(self).value(),
            final(self).next_token() == old(self).next_token(),
            match wait.registered() {
                Some(token) => final(self).waiting() == old(self).waiting().remove(token),
                None => final(self).waiting() == old(self).waiting(),
            },
    {
        wait.cancel(&mut self.wakers);
    }
}

/// A wakeup wakes nobody, the task that has waited longest, or all waiting tasks, and those
/// that it wakes do not wait any more.
pub proof fn wakeup_wakes_whom_it_says<W>(
    before: Map<u64, (W, ())>,
    after: Map<u64, (W, ())>,
    kind: WakeupType,
    wakers: Seq<W>,
    token: u64,
)
    requires
        woken(before, after, kind, wakers),
        before.dom().contains(token),
    ensures
        match kind {
            WakeupType::Nobody => wakers.len() == 0 && after == before,
            WakeupType::One => {
                &&& wakers.len() == 1
                &&& after.dom().contains(token) ==> after[token] == before[token]
                &&& !after.dom().contains(token) ==> wakers[0] == before[token].0 && forall|k: u64|
                 #[trigger]
                    before.dom().contains(k) && k != token ==> token < k && after.dom().contains(k)
            },
            WakeupType::All => {
                &&& !after.dom().contains(token)
                &&& wakers.contains(before[token].0)
            },
        },
        forall|k: u64| #[trigger] after.dom().contains(k) ==> before.dom().contains(k),
{
    match kind {
        WakeupType::Nobody => {},
        WakeupType::One => {
            assert(before != Map::<u64, (W, ())>::empty()) by {
                assert(!Map::<u64, (W, ())>::empty().dom().contains(token));
            }
        },
        WakeupType::All => {
            let tokens = choose|tokens: Seq<u64>| #[trigger]
                in_order(before, tokens) && wakers == Seq::new(
                    tokens.len(),
                    |i: int| before[tokens[i]].0,
                );
            assert(tokens.contains(token));
            let i = choose|i: int| 0 <= i < tokens.len() && tokens[i] == token;
            assert(wakers[i] == before[token].0);
        },
    }
}

} // verus!
