//! Channels with many senders and many receivers.
//!
//! Senders and receivers can be cloned, and each message goes to one receiver. A channel
//! closes when it is told to or when the last handle of either side is gone; receivers
//! still get the messages that were sent before.
//!
//! Handles are given up with `disconnect` and pending operations with `cancel`.
use std::task::Waker;
use vstd::prelude::*;

use crate::channel::Channel;
use crate::errors::RecvError;
use crate::errors::SendError;
use crate::errors::TryRecvError;
use crate::errors::TrySendError;
use crate::poll::Polled;
use crate::queue;
use crate::queue::Dump;
use crate::shared::Shared;
use crate::vault::Hub;
use crate::vault::Log;
use crate::vault::Step;
use crate::waiters::WaiterToken;

verus! {

/// Creates a channel without a bound.
pub fn unbounded<T>() -> (r: (Sender<T>, Receiver<T>))
    ensures
        r.0.shared() == r.1.shared(),
        r.0.shared().rules().bound is None,
        r.0.shared().began_fresh(),
{
    let (hub, _) = Hub::found(None, false);
    let other = hub.join();
    (Sender { hub: other }, Receiver { hub })
}

/// Creates a channel for `capacity` messages.
pub fn bounded<T>(capacity: usize) -> (r: (Sender<T>, Receiver<T>))
    requires
        capacity > 0,
    ensures
        r.0.shared() == r.1.shared(),
        r.0.shared().rules().bound == Some(capacity),
        r.0.shared().began_fresh(),
{
    let (hub, _) = Hub::found(Some(capacity), false);
    let other = hub.join();
    (Sender { hub: other }, Receiver { hub })
}

// ----------------------------------------------------------------------- sender

/// The sending half of a channel.
pub struct Sender<T> {
    hub: Hub<T>,
}

impl<T> Sender<T> {
    /// The channel that this handle belongs to.
    pub closed spec fn shared(self) -> Shared<T> {
        self.hub.shared()
    }

    /// A sender for a channel that counts it already.
    pub(crate) fn of(hub: Hub<T>) -> (r: Self)
        ensures
            r.shared() == hub.shared(),
    {
        Sender { hub }
    }

    /// The sender of a channel.
    pub closed spec fn on(shared: Shared<T>) -> Self {
        Sender { hub: Hub::of(shared) }
    }

    /// Sends a message if the channel is open and has room, without waiting.
    pub fn try_send(&self, msg: T) -> (r: Result<(), TrySendError<T>>)
        ensures
            self.shared().sent(msg, r),
            r matches Err(e) ==> e.message() == msg,
            r matches Err(TrySendError::Full(_)) ==> self.shared().was_full(),
            r matches Err(TrySendError::Closed(_)) ==> self.shared().was_closed(),
    {
        let mut sheet = self.hub.sheet();
        self.hub.line().offer(&mut sheet, msg)
    }

    /// A send that waits for room. Nothing happens before its first poll: no lock is
    /// touched here.
    pub fn send(&self, msg: T) -> (r: Send<'_, T>)
        ensures
            r.sender() == *self,
            r.message() == Some(msg),
            !r.is_registered(),
            r.log() == Seq::<Option<Seq<Step<T>>>>::empty(),
        opens_invariants none
        no_unwind
    {
        proof {
            self.hub.lemma_of();
        }
        Send { line: self.hub.line(), log: self.hub.log(), msg: Some(msg), token: None }
    }

    /// Closes the channel. Returns whether this call closed it.
    pub fn close(&self) -> (r: bool)
        ensures
            self.shared().closed(r),
    {
        let mut sheet = self.hub.sheet();
        self.hub.line().close(&mut sheet)
    }

    /// Whether the channel is closed.
    pub fn is_closed(&self) -> (r: bool)
        ensures
            self.shared().observed_closed(r),
    {
        self.hub.line().is_closed()
    }

    /// Number of messages in the channel.
    pub fn len(&self) -> (r: usize)
        ensures
            queue::within(r as int, self.shared().rules().bound),
            self.shared().observed_len(r),
    {
        self.hub.line().len()
    }

    /// Whether there is no message in the channel.
    pub fn is_empty(&self) -> (r: bool)
        ensures
            r ==> self.shared().observed_len(0),
            !r ==> exists|n: usize| n > 0 && #[trigger] self.shared().observed_len(n),
    {
        self.len() == 0
    }

    /// The capacity, or `None` for a channel without a bound.
    pub fn capacity(&self) -> (r: Option<usize>)
        ensures
            r == self.shared().rules().bound,
    {
        self.hub.line().capacity()
    }

    /// Number of senders.
    pub fn sender_count(&self) -> (r: usize)
        ensures
            self.shared().observed_senders(r),
    {
        self.hub.line().sender_count()
    }

    /// Number of receivers.
    pub fn receiver_count(&self) -> (r: usize)
        ensures
            self.shared().observed_receivers(r),
    {
        self.hub.line().receiver_count()
    }

    /// Gives this handle up. The last sender closes the channel: the result says whether
    /// this one did. The messages are dropped with the last handle of both sides.
    pub fn disconnect(self) -> (r: bool)
        ensures
            self.shared().lost_sender(r),
    {
        let mut sheet = self.hub.sheet();
        self.hub.into_shared().remove_sender(&mut sheet)
    }
}

impl<T> Clone for Sender<T> {
    /// Another sender of the same channel, which is counted.
    fn clone(&self) -> (r: Self)
        ensures
            r == *self,
            self.shared().gained_sender(),
    {
        Sender { hub: self.hub.another_sender() }
    }
}

// --------------------------------------------------------------------- receiver

/// The receiving half of a channel.
pub struct Receiver<T> {
    hub: Hub<T>,
}

impl<T> Receiver<T> {
    /// The channel that this handle belongs to.
    pub closed spec fn shared(self) -> Shared<T> {
        self.hub.shared()
    }

    /// The receiver of a channel.
    pub closed spec fn on(shared: Shared<T>) -> Self {
        Receiver { hub: Hub::of(shared) }
    }

    /// Receivers of this kind are never alone for good.
    #[verifier::type_invariant]
    spec fn is_one_of_many(self) -> bool {
        !self.hub.shared().rules().single
    }

    /// A snapshot of the queue, for diagnosing a channel that does not move.
    pub fn __debug_dump(&self) -> (r: Dump)
        ensures
            self.shared().observed_dump(r),
    {
        self.hub.line().debug_dump()
    }

    /// Receives a message if there is one, without waiting. A closed channel is drained
    /// before it is reported as closed.
    pub fn try_recv(&self) -> (r: Result<T, TryRecvError>)
        ensures
            self.shared().received(Channel::<T, Waker>::as_attempt(r)),
            r matches Err(TryRecvError::Empty) ==> self.shared().was_empty(),
            r matches Err(TryRecvError::Closed) ==> self.shared().was_drained(),
    {
        proof {
            use_type_invariant(self);
        }
        let mut sheet = self.hub.sheet();
        self.hub.line().try_recv(&mut sheet, false)
    }

    /// A receive that waits for a message. Nothing happens before its first poll: no lock is
    /// touched here.
    pub fn recv(&self) -> (r: Recv<'_, T>)
        ensures
            r.receiver() == *self,
            !r.is_registered(),
            r.log() == Seq::<Option<Seq<Step<T>>>>::empty(),
        opens_invariants none
        no_unwind
    {
        proof {
            use_type_invariant(self);
            self.hub.lemma_of();
        }
        Recv { line: self.hub.line(), log: self.hub.log(), token: None }
    }

    /// Closes the channel. Returns whether this call closed it.
    pub fn close(&self) -> (r: bool)
        ensures
            self.shared().closed(r),
    {
        let mut sheet = self.hub.sheet();
        self.hub.line().close(&mut sheet)
    }

    /// Whether the channel is closed.
    pub fn is_closed(&self) -> (r: bool)
        ensures
            self.shared().observed_closed(r),
    {
        self.hub.line().is_closed()
    }

    /// Number of messages in the channel.
    pub fn len(&self) -> (r: usize)
        ensures
            queue::within(r as int, self.shared().rules().bound),
            self.shared().observed_len(r),
    {
        self.hub.line().len()
    }

    /// Whether there is no message in the channel.
    pub fn is_empty(&self) -> (r: bool)
        ensures
            r ==> self.shared().observed_len(0),
            !r ==> exists|n: usize| n > 0 && #[trigger] self.shared().observed_len(n),
    {
        self.len() == 0
    }

    /// The capacity, or `None` for a channel without a bound.
    pub fn capacity(&self) -> (r: Option<usize>)
        ensures
            r == self.shared().rules().bound,
    {
        self.hub.line().capacity()
    }

    /// Number of senders.
    pub fn sender_count(&self) -> (r: usize)
        ensures
            self.shared().observed_senders(r),
    {
        self.hub.line().sender_count()
    }

    /// Number of receivers.
    pub fn receiver_count(&self) -> (r: usize)
        ensures
            self.shared().observed_receivers(r),
    {
        self.hub.line().receiver_count()
    }

    /// Gives this handle up. The last receiver closes the channel: the result says
    /// whether this one did. The messages are dropped with the last handle of both sides.
    pub fn disconnect(self) -> (r: bool)
        ensures
            self.shared().lost_receiver(r),
    {
        let mut sheet = self.hub.sheet();
        self.hub.into_shared().remove_receiver(&mut sheet)
    }
}

impl<T> Clone for Receiver<T> {
    /// Another receiver of the same channel, which is counted; the two compete for messages.
    fn clone(&self) -> (r: Self)
        ensures
            r == *self,
            self.shared().gained_receiver(),
    {
        proof {
            use_type_invariant(self);
        }
        Receiver { hub: self.hub.another_receiver() }
    }
}

// ----------------------------------------------------------- pending operations

/// A send in progress, made by [`Sender::send`].
pub struct Send<'a, T> {
    line: &'a Shared<T>,
    log: Log<T>,
    msg: Option<T>,
    token: Option<WaiterToken>,
}

impl<'a, T> Send<'a, T> {
    /// The sender.
    pub closed spec fn sender(self) -> Sender<T> {
        Sender::on(*self.line)
    }

    /// All that this send has done to the channel so far: a page for each poll and for the
    /// end of its wait.
    pub closed spec fn log(self) -> Seq<Option<Seq<Step<T>>>> {
        self.log.pages()
    }

    /// The log is one on the channel.
    #[verifier::type_invariant]
    spec fn is_logged(self) -> bool {
        self.log.identity() == self.line.rules().identity
    }

    /// The message, until it is sent or refused.
    pub closed spec fn message(self) -> Option<T> {
        self.msg
    }

    /// Whether this send is registered among the waiting ones.
    pub open spec fn is_registered(self) -> bool {
        self.token() is Some
    }

    /// The registration.
    pub closed spec fn token(self) -> Option<WaiterToken> {
        self.token
    }

    /// Tries to send, and registers `waker` where the channel is full. A send that is
    /// done must not be polled again.
    pub fn poll(&mut self, waker: &Waker) -> (r: Polled<Result<(), SendError<T>>>)
        requires
            old(self).message() is Some,
        ensures
            final(self).sender() == old(self).sender(),
            final(self).log().len() == old(self).log().len() + 1,
            final(self).log().drop_last() == old(self).log(),
            final(self).log().last() is Some,
            old(self).sender().shared().is_poll_send(
                final(self).log().last()->0,
                old(self).message()->0,
                *waker,
                old(self).token(),
                r,
                final(self).token(),
            ),
            old(self).sender().shared().polled_send(
                old(self).message()->0,
                *waker,
                old(self).token(),
                r,
                final(self).token(),
            ),
            r matches Polled::Ready(Err(e)) ==> {
                &&& e.0 == old(self).message()->0
                &&& old(self).sender().shared().was_closed()
            },
            r is Pending ==> old(self).sender().shared().was_full(),
            final(self).message() == (if r is Pending {
                old(self).message()
            } else {
                None
            }),
            final(self).is_registered() <==> r is Pending,
    {
        proof {
            use_type_invariant(&*self);
            Hub::lemma_shared_of(*self.line);
        }
        let ghost pages = self.log.pages();
        let mut msg: Option<T> = None;
        let mut token: Option<WaiterToken> = None;
        std::mem::swap(&mut msg, &mut self.msg);
        std::mem::swap(&mut token, &mut self.token);
        let mut sheet = self.log.sheet();
        let (r, rest) = self.line.poll_send(&mut sheet, msg.unwrap(), &mut token, waker);
        self.log.file(sheet);
        self.msg = rest;
        self.token = token;
        assert(self.log.pages().drop_last() =~= pages);
        r
    }

    /// Whether the message is still there, so that the send can be polled.
    pub fn is_waiting(&self) -> (r: bool)
        ensures
            r == (self.message() is Some),
    {
        self.msg.is_some()
    }

    /// Gives the send up: takes it off the waiting ones, and passes a notification on
    /// that it will not act on. The message is not sent.
    pub fn cancel(&mut self)
        ensures
            final(self).sender() == old(self).sender(),
            final(self).message() == old(self).message(),
            !final(self).is_registered(),
            old(self).is_registered() ==> {
                &&& old(self).sender().shared().left_senders(old(self).token(), true)
                &&& final(self).log().len() == old(self).log().len() + 1
                &&& final(self).log().drop_last() == old(self).log()
                &&& final(self).log().last() is Some
                &&& old(self).sender().shared().is_leaving_senders(
                    final(self).log().last()->0,
                    old(self).token(),
                    true,
                )
            },
            !old(self).is_registered() ==> final(self).log() == old(self).log(),
    {
        proof {
            use_type_invariant(&*self);
            Hub::lemma_shared_of(*self.line);
        }
        if self.token.is_some() {
            let ghost pages = self.log.pages();
            let mut token: Option<WaiterToken> = None;
            std::mem::swap(&mut token, &mut self.token);
            let mut sheet = self.log.sheet();
            self.line.leave_senders(&mut sheet, &mut token, true);
            self.log.file(sheet);
            assert(self.log.pages().drop_last() =~= pages);
        }
    }
}

/// A receive in progress, made by [`Receiver::recv`].
pub struct Recv<'a, T> {
    line: &'a Shared<T>,
    log: Log<T>,
    token: Option<WaiterToken>,
}

impl<'a, T> Recv<'a, T> {
    /// The receiver.
    pub closed spec fn receiver(self) -> Receiver<T> {
        Receiver::on(*self.line)
    }

    /// All that this receive has done to the channel so far: a page for each poll and for
    /// the end of its wait.
    pub closed spec fn log(self) -> Seq<Option<Seq<Step<T>>>> {
        self.log.pages()
    }

    /// The log is one on the channel, which has many receivers.
    #[verifier::type_invariant]
    spec fn is_logged(self) -> bool {
        self.log.identity() == self.line.rules().identity && !self.line.rules().single
    }

    /// Whether this receive is registered among the waiting ones.
    pub open spec fn is_registered(self) -> bool {
        self.token() is Some
    }

    /// The registration.
    pub closed spec fn token(self) -> Option<WaiterToken> {
        self.token
    }

    /// Tries to receive, and registers `waker` where there is no message.
    pub fn poll(&mut self, waker: &Waker) -> (r: Polled<Result<T, RecvError>>)
        ensures
            final(self).receiver() == old(self).receiver(),
            final(self).log().len() == old(self).log().len() + 1,
            final(self).log().drop_last() == old(self).log(),
            final(self).log().last() is Some,
            old(self).receiver().shared().is_poll_recv(
                final(self).log().last()->0,
                *waker,
                old(self).token(),
                r,
                final(self).token(),
            ),
            old(self).receiver().shared().polled_recv(
                *waker,
                old(self).token(),
                r,
                final(self).token(),
            ),
            r matches Polled::Ready(Err(_)) ==> old(self).receiver().shared().was_drained(),
            r is Pending ==> old(self).receiver().shared().was_empty(),
            final(self).is_registered() <==> r is Pending,
    {
        proof {
            use_type_invariant(&*self);
            Hub::lemma_shared_of(*self.line);
        }
        let ghost pages = self.log.pages();
        let mut token: Option<WaiterToken> = None;
        std::mem::swap(&mut token, &mut self.token);
        let mut sheet = self.log.sheet();
        let r = self.line.poll_recv(&mut sheet, false, &mut token, waker);
        self.log.file(sheet);
        self.token = token;
        assert(self.log.pages().drop_last() =~= pages);
        r
    }

    /// Gives the receive up: takes it off the waiting ones, and passes a notification on
    /// that it will not act on. It has taken no message.
    pub fn cancel(&mut self)
        ensures
            final(self).receiver() == old(self).receiver(),
            !final(self).is_registered(),
            old(self).is_registered() ==> {
                &&& old(self).receiver().shared().left_receivers(old(self).token(), true)
                &&& final(self).log().len() == old(self).log().len() + 1
                &&& final(self).log().drop_last() == old(self).log()
                &&& final(self).log().last() is Some
                &&& old(self).receiver().shared().is_leaving_receivers(
                    final(self).log().last()->0,
                    old(self).token(),
                    true,
                )
            },
            !old(self).is_registered() ==> final(self).log() == old(self).log(),
    {
        proof {
            use_type_invariant(&*self);
            Hub::lemma_shared_of(*self.line);
        }
        if self.token.is_some() {
            let ghost pages = self.log.pages();
            let mut token: Option<WaiterToken> = None;
            std::mem::swap(&mut token, &mut self.token);
            let mut sheet = self.log.sheet();
            self.line.leave_receivers(&mut sheet, &mut token, true);
            self.log.file(sheet);
            assert(self.log.pages().drop_last() =~= pages);
        }
    }
}

} // verus!
