//! A multi-producer, single-consumer (MPSC) channel.
//!
//! A channel is the shared state of its two halves: values that have been sent and not
//! yet received, in order, and which of the halves still exist.
use std::collections::VecDeque;
use vstd::prelude::*;

use crate::sync::condvar::{woken, CondVar, WakeupType};
use crate::sync::waker_set::{token_after, WaitUntil};

verus! {

/// What the halves of a channel share.
pub struct MpscState<T> {
    data: VecDeque<T>,
    senders: usize,
    recv_gone: bool,
}

/// The receiving half of the MPSC channel.
///
/// There can only be one `Reciever` for a given channel.
///
/// If the `Reciever` is dropped, the channel is closed. Any subsequent messages sent by
/// a `Sender` will be dropped.
pub struct Reciever {
    key: (),
}

/// The sending half of the MPSC channel.
///
/// `Sender` handles can be cloned to allow multiple producers to send messages to the
/// single `Reciever`.
///
/// When the last `Sender` is dropped, the channel is closed. This will cause
/// [`Reciever::recv`] to give `None`.
pub struct Sender {
    key: (),
}

/// The shared state of a channel, with the tasks that wait for a message.
pub type Channel<T, W> = CondVar<MpscState<T>, W>;

/// What a receiver gets.
pub enum RxResult<T> {
    /// A message.
    Data(T),
    /// There are no more messages, and will never be any.
    SenderGone,
}

impl<T> MpscState<T> {
    /// The messages that have been sent and not yet received.
    pub closed spec fn messages(self) -> Seq<T> {
        self.data@
    }

    /// The number of senders.
    pub closed spec fn sender_count(self) -> nat {
        self.senders as nat
    }

    /// The receiver has been dropped.
    pub closed spec fn receiver_gone(self) -> bool {
        self.recv_gone
    }

    /// The state of a new channel.
    fn new() -> (r: Self)
        ensures
            r.messages() == Seq::<T>::empty(),
            r.sender_count() == 1,
            !r.receiver_gone(),
    {
        MpscState { data: VecDeque::new(), senders: 1, recv_gone: false }
    }

    /// Returns the number of senders.
    pub fn num_senders(&self) -> (r: usize)
        ensures
            r == self.sender_count(),
    {
        self.senders
    }

    /// Takes the first message. Without messages and senders the channel is closed, and
    /// without messages alone there is nothing to get yet.
    pub fn receive(&mut self) -> (r: Option<RxResult<T>>)
        ensures
            final(self).sender_count() == old(self).sender_count(),
            final(self).receiver_gone() == old(self).receiver_gone(),
            match r {
                Some(RxResult::Data(data)) => {
                    &&& old(self).messages().len() > 0
                    &&& data == old(self).messages()[0]
                    &&& final(self).messages() == old(self).messages().skip(1)
                },
                Some(RxResult::SenderGone) => {
                    &&& old(self).messages().len() == 0
                    &&& old(self).sender_count() == 0
                    &&& final(self).messages() == old(self).messages()
                },
                None => {
                    &&& old(self).messages().len() == 0
                    &&& old(self).sender_count() > 0
                    &&& final(self).messages() == old(self).messages()
                },
            },
    {
        let ghost before = self.data@;
        match self.data.pop_front() {
            Some(data) => {
                assert(self.data@ =~= before.skip(1));
                Some(RxResult::Data(data))
            },
            None => if self.senders == 0 {
                Some(RxResult::SenderGone)
            } else {
                None
            },
        }
    }

    /// Adds a message. It is dropped if there is no receiver.
    pub fn send(&mut self, obj: T) -> (r: WakeupType)
        ensures
            final(self).sender_count() == old(self).sender_count(),
            final(self).receiver_gone() == old(self).receiver_gone(),
            old(self).receiver_gone() ==> {
                &&& r == WakeupType::Nobody
                &&& final(self).messages() == old(self).messages()
            },
            !old(self).receiver_gone() ==> {
                &&& r == WakeupType::One
                &&& final(self).messages() == old(self).messages().push(obj)
            },
    {
        if self.recv_gone {
            // Receiver has been dropped, so drop the message.
            return WakeupType::Nobody;
        }
        self.data.push_back(obj);
        WakeupType::One
    }

    /// Counts one more sender.
    pub fn add_sender(&mut self) -> (r: WakeupType)
        requires
            old(self).sender_count() < usize::MAX,
        ensures
            r == WakeupType::Nobody,
            final(self).sender_count() == old(self).sender_count() + 1,
            final(self).messages() == old(self).messages(),
            final(self).receiver_gone() == old(self).receiver_gone(),
    {
        self.senders = self.senders + 1;
        WakeupType::Nobody
    }

    /// Counts one sender less. The last one wakes the receiver to let it know that the
    /// channel is now closed.
    pub fn drop_sender(&mut self) -> (r: WakeupType)
        requires
            old(self).sender_count() > 0,
        ensures
            r == (if old(self).sender_count() == 1 {
                WakeupType::All
            } else {
                WakeupType::Nobody
            }),
            final(self).sender_count() == old(self).sender_count() - 1,
            final(self).messages() == old(self).messages(),
            final(self).receiver_gone() == old(self).receiver_gone(),
    {
        self.senders = self.senders - 1;
        if self.senders == 0 {
            WakeupType::All
        } else {
            WakeupType::Nobody
        }
    }

    /// Drops all messages, those to come as well.
    pub fn drop_receiver(&mut self) -> (r: WakeupType)
        ensures
            r == WakeupType::Nobody,
            final(self).messages() == Seq::<T>::empty(),
            final(self).sender_count() == old(self).sender_count(),
            final(self).receiver_gone(),
    {
        self.data.clear();
        self.recv_gone = true;
        WakeupType::Nobody
    }
}

/// Creates a new multi-producer, single-consumer channel.
///
/// Returns the shared state, and the `Sender` and `Reciever` halves. The `Sender` can be
/// cloned to create multiple producers, while the `Reciever` is the single consumer.
pub fn channel<T, W>() -> (r: (Channel<T, W>, Sender, Reciever))
    ensures
        r.0.wf(),
        r.0.value().messages() == Seq::<T>::empty(),
        r.0.value().sender_count() == 1,
        !r.0.value().receiver_gone(),
        r.0.waiting() == Map::<u64, (W, ())>::empty(),
{
    (CondVar::new(MpscState::new()), Sender { key: () }, Reciever { key: () })
}

impl Reciever {
    /// Polls for a message from the channel.
    ///
    /// The result is `None` as long as there is none. Otherwise it is
    /// - `Some(Some(T))`: if a message was successfully received from the channel;
    /// - `Some(None)`: if all `Sender`s have been dropped, indicating that no more
    ///   messages will ever be sent. The channel is now closed.
    pub fn recv<T, W>(&self, channel: &mut Channel<T, W>, wait: &mut WaitUntil, waker: W) -> (r:
        Option<Option<T>>)
        requires
            old(channel).wf(),
        ensures
            final(channel).wf(),
            final(channel).value().sender_count() == old(channel).value().sender_count(),
            final(channel).value().receiver_gone() == old(channel).value().receiver_gone(),
            match r {
                Some(Some(data)) => {
                    &&& old(channel).value().messages().len() > 0
                    &&& data == old(channel).value().messages()[0]
                    &&& final(channel).value().messages() == old(channel).value().messages().skip(1)
                },
                Some(None) => {
                    &&& old(channel).value().messages().len() == 0
                    &&& old(channel).value().sender_count() == 0
                    &&& final(channel).value().messages() == old(channel).value().messages()
                },
                None => {
                    &&& old(channel).value().messages().len() == 0
                    &&& old(channel).value().sender_count() > 0
                    &&& final(channel).value().messages() == old(channel).value().messages()
                },
            },
            ({
                let waits = r is None && old(wait).registered() is None;
                &&& waits ==> {
                    &&& final(wait).registered() == Some(old(channel).next_token())
                    &&& final(channel).waiting() == old(channel).waiting().insert(
                        old(channel).next_token(),
                        (waker, ()),
                    )
                    &&& final(channel).next_token() == token_after(old(channel).next_token())
                }
                &&& !waits ==> {
                    &&& final(wait).registered() == old(wait).registered()
                    &&& final(channel).waiting() == old(channel).waiting()
                    &&& final(channel).next_token() == old(channel).next_token()
                }
            }),
    {
        let result = channel.wait_until(wait, MpscState::<T>::receive, waker);
        match result {
            Some(RxResult::Data(data)) => Some(Some(data)),
            Some(RxResult::SenderGone) => Some(None),
            None => None,
        }
    }

    /// Closes the channel: messages that were not received are dropped, and those to
    /// come will be.
    pub fn close<T, W>(self, channel: &mut Channel<T, W>)
        requires
            old(channel).wf(),
        ensures
            final(channel).wf(),
            final(channel).next_token() == old(channel).next_token(),
            final(channel).value().messages() == Seq::<T>::empty(),
            final(channel).value().sender_count() == old(channel).value().sender_count(),
            final(channel).value().receiver_gone(),
            final(channel).waiting() == old(channel).waiting(),
    {
        let _ = channel.update(MpscState::<T>::drop_receiver);
    }
}

impl Sender {
    /// Sends a message into the channel.
    ///
    /// This method enqueues the given object `obj` for the `Reciever` to consume. After
    /// enqueuing the message, it notifies one waiting `Reciever` task, if one exists:
    /// its waker is returned.
    pub fn send<T, W>(&self, channel: &mut Channel<T, W>, obj: T) -> (r: Vec<W>)
        requires
            old(channel).wf(),
        ensures
            final(channel).wf(),
            final(channel).next_token() == old(channel).next_token(),
            final(channel).value().sender_count() == old(channel).value().sender_count(),
            final(channel).value().receiver_gone() == old(channel).value().receiver_gone(),
            old(channel).value().receiver_gone() ==> {
                &&& final(channel).value().messages() == old(channel).value().messages()
                &&& woken(
                    old(channel).waiting(),
                    final(channel).waiting(),
                    WakeupType::Nobody,
                    r@,
                )
            },
            !old(channel).value().receiver_gone() ==> {
                &&& final(channel).value().messages() == old(channel).value().messages().push(obj)
                &&& woken(old(channel).waiting(), final(channel).waiting(), WakeupType::One, r@)
            },
    {
        let send = |state: &mut MpscState<T>| -> (kind: WakeupType)
            ensures
                final(state).sender_count() == old(state).sender_count(),
                final(state).receiver_gone() == old(state).receiver_gone(),
                old(state).receiver_gone() ==> kind == WakeupType::Nobody
                    && final(state).messages() == old(state).messages(),
                !old(state).receiver_gone() ==> kind == WakeupType::One && final(state).messages()
                    == old(state).messages().push(obj),
        {
            state.send(obj)
        };
        channel.update(send)
    }

    /// Returns another sender of the channel.
    pub fn duplicate<T, W>(&self, channel: &mut Channel<T, W>) -> (r: Sender)
        requires
            old(channel).wf(),
            old(channel).value().sender_count() < usize::MAX,
        ensures
            final(channel).wf(),
            final(channel).next_token() == old(channel).next_token(),
            final(channel).value().sender_count() == old(channel).value().sender_count() + 1,
            final(channel).value().messages() == old(channel).value().messages(),
            final(channel).value().receiver_gone() == old(channel).value().receiver_gone(),
            final(channel).waiting() == old(channel).waiting(),
    {
        let _ = channel.update(MpscState::<T>::add_sender);
        Sender { key: () }
    }

    /// Gives the sender up. The last one closes the channel: the wakers of all waiting
    /// tasks are returned.
    pub fn close<T, W>(self, channel: &mut Channel<T, W>) -> (r: Vec<W>)
        requires
            old(channel).wf(),
            old(channel).value().sender_count() > 0,
        ensures
            final(channel).wf(),
            final(channel).next_token() == old(channel).next_token(),
            final(channel).value().sender_count() == old(channel).value().sender_count() - 1,
            final(channel).value().messages() == old(channel).value().messages(),
            final(channel).value().receiver_gone() == old(channel).value().receiver_gone(),
            woken(
                old(channel).waiting(),
                final(channel).waiting(),
                if old(channel).value().sender_count() == 1 {
                    WakeupType::All
                } else {
                    WakeupType::Nobody
                },
                r@,
            ),
    {
        channel.update(MpscState::<T>::drop_sender)
    }
}

/// A message is received right after those that were sent before it, and these are
/// received as if it had not been sent.
pub proof fn messages_arrive_in_order<T>(messages: Seq<T>, obj: T)
    ensures
        messages.push(obj).take(messages.len() as int) == messages,
        messages.push(obj).skip(messages.len() as int) == seq![obj],
{
    assert(messages.push(obj).take(messages.len() as int) =~= messages);
    assert(messages.push(obj).skip(messages.len() as int) =~= seq![obj]);
}

} // verus!
