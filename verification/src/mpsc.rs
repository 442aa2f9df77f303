//! Channels with many senders and exactly one receiver.
//!
//! Receiving takes the receiver exclusively, and the receiver cannot be cloned: the queue
//! needs no arbitration between consumers, and blocks are recycled at once. Senders are
//! those of [`crate::mpmc`].
use std::task::Waker;
use vstd::prelude::*;

use crate::channel::Channel;
use crate::errors::RecvError;
use crate::errors::TryRecvError;
use crate::mpmc::Sender;
use crate::poll::Polled;
use crate::queue;
use crate::shared::Shared;
use crate::vault;
use crate::vault::Hub;
use crate::vault::Log;
use crate::vault::Step;
use crate::waiters::WaiterToken;

verus! {

/// Creates a channel without a bound and with one receiver.
pub fn unbounded<T>() -> (r: (Sender<T>, Receiver<T>))
    ensures
        r.0.shared() == r.1.shared(),
        r.0.shared().rules().bound is None,
        r.0.shared().began_fresh(),
        r.1.log() == Seq::<Option<Seq<Step<T>>>>::empty(),
{
    let (hub, log) = Hub::found(None, true);
    let other = hub.join();
    (Sender::of(other), Receiver { hub, log })
}

/// Creates a channel for `capacity` messages, with one receiver.
pub fn bounded<T>(capacity: usize) -> (r: (Sender<T>, Receiver<T>))
    requires
        capacity > 0,
    ensures
        r.0.shared() == r.1.shared(),
        r.0.shared().rules().bound == Some(capacity),
        r.0.shared().began_fresh(),
        r.1.log() == Seq::<Option<Seq<Step<T>>>>::empty(),
{
    let (hub, log) = Hub::found(Some(capacity), true);
    let other = hub.join();
    (Sender::of(other), Receiver { hub, log })
}

/// The only receiver of a channel.
pub struct Receiver<T> {
    hub: Hub<T>,
    log: Log<T>,
}

impl<T> Receiver<T> {
    /// The channel that this handle belongs to.
    pub closed spec fn shared(self) -> Shared<T> {
        self.hub.shared()
    }

    /// All that was ever taken out of the channel, and every other step that was taken with
    /// this receiver in exclusive use: a page for each operation. Only steps of this log can
    /// take messages out of the channel.
    pub closed spec fn log(self) -> Seq<Option<Seq<Step<T>>>> {
        self.log.pages()
    }

    /// The messages that were taken out, in order.
    pub open spec fn taken(self) -> Seq<T> {
        vault::taken_over(self.log())
    }

    /// The receiver with some more pages in its log, and not changed otherwise.
    pub closed spec fn after(self, pages: Seq<Seq<Step<T>>>) -> Self {
        Receiver { hub: self.hub, log: self.log.with(pages) }
    }

    /// The pages that came since `before`.
    pub open spec fn since(self, before: Self) -> Seq<Seq<Step<T>>> {
        vault::since(before.log(), self.log())
    }

    /// Whether nothing happened to the receiver since `before` but the pages that its log
    /// shows.
    pub open spec fn is_later(self, before: Self) -> bool {
        &&& self == before.after(self.since(before))
        &&& self.shared() == before.shared()
        &&& self.log() == before.log() + vault::filed(self.since(before))
        &&& self.taken() == before.taken() + vault::taken_on(self.since(before))
    }

    /// A receiver that differs in its pages at most is later.
    proof fn lemma_later(self, before: Self, pages: Seq<Seq<Step<T>>>)
        requires
            self.hub == before.hub,
            self.log.same_party(before.log),
            self.log.pages() == before.log.pages() + vault::filed(pages),
        ensures
            self.is_later(before),
            self.since(before) == pages,
    {
        vault::lemma_taken_over(before.log.pages(), pages);
        self.log.lemma_with(before.log, pages);
    }

    /// The present is not later than it is.
    proof fn lemma_later_now(self)
        ensures
            self.is_later(self),
            self.since(self) == Seq::<Seq<Step<T>>>::empty(),
    {
        let none: Seq<Seq<Step<T>>> = Seq::empty();
        assert(self.log.pages() =~= self.log.pages() + vault::filed(none));
        self.lemma_later(self, none);
    }

    /// What is later than something later is later.
    proof fn lemma_later_still(self, mid: Self, before: Self)
        requires
            self.is_later(mid),
            mid.is_later(before),
        ensures
            self.is_later(before),
            self.since(before) == mid.since(before) + self.since(mid),
    {
        let pages = mid.since(before);
        let more = self.since(mid);
        vault::lemma_more_pages(pages, more);
        before.log.lemma_with_more(pages, more);
        assert(self.log() =~= before.log() + vault::filed(pages + more));
        assert(self.since(before) =~= pages + more);
        assert(self.taken() =~= before.taken() + vault::taken_on(pages + more));
    }

    /// A poll of a receive with this receiver.
    fn poll_recv(&mut self, token: &mut Option<WaiterToken>, waker: &Waker) -> (r: Polled<
        Result<T, RecvError>,
    >)
        ensures
            final(self).is_later(*old(self)),
            final(self).since(*old(self)).len() == 1,
            old(self).shared().is_poll_recv(
                final(self).since(*old(self))[0],
                *waker,
                *old(token),
                r,
                *final(token),
            ),
            vault::taken_on(final(self).since(*old(self))) == (match r {
                Polled::Ready(Ok(m)) => seq![m],
                _ => Seq::empty(),
            }),
            r matches Polled::Ready(Err(_)) ==> old(self).shared().was_drained(),
            r is Pending ==> old(self).shared().was_empty(),
            *final(token) is Some <==> r is Pending,
    {
        proof {
            use_type_invariant(&*self);
        }
        let ghost before = *self;
        let mut sheet = self.log.sheet();
        let r = self.hub.line().poll_recv(&mut sheet, true, token, waker);
        let ghost steps = sheet.steps();
        self.log.file(sheet);
        proof {
            assert(self.log.pages() =~= before.log.pages() + vault::filed(seq![steps]));
            self.lemma_later(before, seq![steps]);
            before.shared().lemma_poll_takes(steps, *waker, *old(token), r, *token);
            vault::lemma_one_page(steps);
        }
        r
    }

    /// A registration of this receiver is given up, and a notification passed on.
    fn leave(&mut self, token: &mut Option<WaiterToken>)
        ensures
            *final(token) is None,
            final(self).is_later(*old(self)),
            final(self).since(*old(self)).len() == 1,
            final(self).taken() == old(self).taken(),
            old(self).shared().is_leaving_receivers(
                final(self).since(*old(self))[0],
                *old(token),
                true,
            ),
    {
        proof {
            use_type_invariant(&*self);
        }
        let ghost before = *self;
        let mut sheet = self.log.sheet();
        self.hub.line().leave_receivers(&mut sheet, token, true);
        let ghost steps = sheet.steps();
        self.log.file(sheet);
        proof {
            assert(self.log.pages() =~= before.log.pages() + vault::filed(seq![steps]));
            self.lemma_later(before, seq![steps]);
            before.shared().lemma_leaving_takes(steps, *old(token), true);
            vault::lemma_one_page(steps);
            assert(self.taken() =~= before.taken());
        }
    }

    /// Moves the messages to the end of `buffer`, at most `limit`.
    fn drain(&mut self, buffer: &mut Vec<T>, limit: usize) -> (r: usize)
        ensures
            final(self).is_later(*old(self)),
            final(self).since(*old(self)).len() == 1,
            r <= limit,
            final(buffer)@.len() == old(buffer)@.len() + r,
            final(buffer)@.take(old(buffer)@.len() as int) == old(buffer)@,
            old(self).shared().is_drain(
                final(self).since(*old(self))[0],
                limit,
                final(buffer)@.skip(old(buffer)@.len() as int),
            ),
            vault::taken_on(final(self).since(*old(self))) == final(buffer)@.skip(
                old(buffer)@.len() as int,
            ),
    {
        proof {
            use_type_invariant(&*self);
        }
        let ghost before = *self;
        let mut sheet = self.log.sheet();
        let r = self.hub.line().drain(&mut sheet, buffer, limit);
        let ghost steps = sheet.steps();
        self.log.file(sheet);
        proof {
            assert(self.log.pages() =~= before.log.pages() + vault::filed(seq![steps]));
            self.lemma_later(before, seq![steps]);
            let got = buffer@.skip(old(buffer)@.len() as int);
            before.shared().lemma_drain_takes(steps, limit, got);
            vault::lemma_one_page(steps);
        }
        r
    }

    /// This receiver is alone for good.
    #[verifier::type_invariant]
    spec fn is_alone(self) -> bool {
        &&& self.hub.shared().rules().single
        &&& self.log.identity() == self.hub.shared().rules().identity
        &&& self.log.is_sole()
    }

    /// Receives a message if there is one, without waiting. A closed channel is drained
    /// before it is reported as closed.
    pub fn try_recv(&mut self) -> (r: Result<T, TryRecvError>)
        ensures
            final(self).is_later(*old(self)),
            final(self).since(*old(self)).len() == 1,
            old(self).shared().is_received(
                final(self).since(*old(self))[0],
                Channel::<T, Waker>::as_attempt(r),
            ),
            final(self).taken() == (match r {
                Ok(m) => old(self).taken().push(m),
                Err(_) => old(self).taken(),
            }),
            old(self).shared().received(Channel::<T, Waker>::as_attempt(r)),
            r matches Err(TryRecvError::Empty) ==> old(self).shared().was_empty(),
            r matches Err(TryRecvError::Closed) ==> old(self).shared().was_drained(),
    {
        proof {
            use_type_invariant(&*self);
        }
        let ghost before = *self;
        let mut sheet = self.log.sheet();
        let r = self.hub.line().try_recv(&mut sheet, true);
        let ghost steps = sheet.steps();
        self.log.file(sheet);
        proof {
            assert(self.log.pages() =~= before.log.pages() + vault::filed(seq![steps]));
            self.lemma_later(before, seq![steps]);
            before.shared().lemma_received_takes(steps, Channel::<T, Waker>::as_attempt(r));
            vault::lemma_one_page(steps);
            assert(self.taken() =~= (match r {
                Ok(m) => before.taken().push(m),
                Err(_) => before.taken(),
            }));
        }
        r
    }

    /// A receive that waits for a message. Nothing happens before its first poll, and a
    /// receive that is given up has taken no message.
    pub fn recv(&mut self) -> (r: Recv<'_, T>)
        ensures
            *r.receiver == *old(self),
            *final(self) == *final(r.receiver),
            !r.is_registered(),
        opens_invariants none
        no_unwind
    {
        Recv { receiver: self, place: Place { token: None } }
    }

    /// A receive of up to `limit` messages, which are appended to `buffer`. It waits for
    /// the first one only, never to fill a batch.
    pub fn recv_many<'a>(&'a mut self, buffer: &'a mut Vec<T>, limit: usize) -> (r: RecvMany<'a, T>)
        ensures
            *r.receiver == *old(self),
            *final(self) == *final(r.receiver),
            *r.buffer == *old(buffer),
            *final(buffer) == *final(r.buffer),
            r.limit() == limit,
            !r.is_registered(),
            !r.is_awaiting(),
        opens_invariants none
        no_unwind
    {
        RecvMany { receiver: self, buffer, batch: Batch { limit, token: None, awaiting: false } }
    }

    /// Closes the channel. Messages that were sent before are still received.
    pub fn close(&self) -> (r: bool)
        ensures
            self.shared().closed(r),
    {
        let mut sheet = self.hub.sheet();
        self.hub.line().close(&mut sheet)
    }

    /// Whether the channel is closed.
    pub fn is_closed(&self) -> (r: bool)
        ensures
            self.shared().observed_closed(r),
    {
        self.hub.line().is_closed()
    }

    /// Number of messages in the channel.
    pub fn len(&self) -> (r: usize)
        ensures
            queue::within(r as int, self.shared().rules().bound),
            self.shared().observed_len(r),
    {
        self.hub.line().len()
    }

    /// Whether there is no message in the channel.
    pub fn is_empty(&self) -> (r: bool)
        ensures
            r ==> self.shared().observed_len(0),
            !r ==> exists|n: usize| n > 0 && #[trigger] self.shared().observed_len(n),
    {
        self.len() == 0
    }

    /// The capacity, or `None` for a channel without a bound.
    pub fn capacity(&self) -> (r: Option<usize>)
        ensures
            r == self.shared().rules().bound,
    {
        self.hub.line().capacity()
    }

    /// Number of senders.
    pub fn sender_count(&self) -> (r: usize)
        ensures
            self.shared().observed_senders(r),
    {
        self.hub.line().sender_count()
    }

    /// Gives the receiver up, which closes the channel. The messages are dropped with the
    /// last handle of both sides.
    pub fn disconnect(self) -> (r: bool)
        ensures
            self.shared().lost_receiver(r),
    {
        let mut sheet = self.hub.sheet();
        self.hub.into_shared().remove_receiver(&mut sheet)
    }
}

/// The place of a receive among the waiting ones.
pub struct Place {
    token: Option<WaiterToken>,
}

impl Place {
    /// The registration.
    pub closed spec fn token(self) -> Option<WaiterToken> {
        self.token
    }
}

/// A receive in progress, made by [`Receiver::recv`].
pub struct Recv<'a, T> {
    /// The receiver, which is borrowed until the receive ends.
    pub receiver: &'a mut Receiver<T>,
    /// The place of the receive among the waiting ones.
    pub place: Place,
}

impl<'a, T> Recv<'a, T> {
    /// The channel.
    pub open spec fn shared(self) -> Shared<T> {
        self.receiver.shared()
    }

    /// Whether this receive is registered among the waiting ones.
    pub open spec fn is_registered(self) -> bool {
        self.token() is Some
    }

    /// The registration.
    pub open spec fn token(self) -> Option<WaiterToken> {
        self.place.token()
    }

    /// Tries to receive, and registers `waker` where there is no message.
    pub fn poll(&mut self, waker: &Waker) -> (r: Polled<Result<T, RecvError>>)
        ensures
            final(self).receiver.is_later(*old(self).receiver),
            *final(final(self).receiver) == *final(old(self).receiver),
            final(self).receiver.since(*old(self).receiver).len() == 1,
            old(self).shared().is_poll_recv(
                final(self).receiver.since(*old(self).receiver)[0],
                *waker,
                old(self).token(),
                r,
                final(self).token(),
            ),
            final(self).receiver.taken() == (match r {
                Polled::Ready(Ok(m)) => old(self).receiver.taken().push(m),
                _ => old(self).receiver.taken(),
            }),
            old(self).shared().polled_recv(*waker, old(self).token(), r, final(self).token()),
            r matches Polled::Ready(Err(_)) ==> old(self).shared().was_drained(),
            r is Pending ==> old(self).shared().was_empty(),
            final(self).is_registered() <==> r is Pending,
    {
        let ghost before = *self.receiver;
        let r = self.receiver.poll_recv(&mut self.place.token, waker);
        proof {
            assert(self.receiver.taken() =~= (match r {
                Polled::Ready(Ok(m)) => before.taken().push(m),
                _ => before.taken(),
            }));
        }
        r
    }

    /// Gives the receive up: takes it off the waiting ones, and passes a notification on
    /// that it will not act on. It has taken no message.
    pub fn cancel(&mut self)
        ensures
            !old(self).is_registered() ==> *final(self).receiver == *old(self).receiver,
            *final(final(self).receiver) == *final(old(self).receiver),
            !final(self).is_registered(),
            old(self).is_registered() ==> {
                &&& old(self).shared().left_receivers(old(self).token(), true)
                &&& final(self).receiver.is_later(*old(self).receiver)
                &&& final(self).receiver.since(*old(self).receiver).len() == 1
                &&& old(self).shared().is_leaving_receivers(
                    final(self).receiver.since(*old(self).receiver)[0],
                    old(self).token(),
                    true,
                )
            },
            final(self).receiver.taken() == old(self).receiver.taken(),
    {
        if self.place.token.is_some() {
            self.receiver.leave(&mut self.place.token);
        }
    }
}

/// How far a receive of several messages has come.
pub struct Batch {
    limit: usize,
    token: Option<WaiterToken>,
    awaiting: bool,
}

impl Batch {
    /// How many messages to take at most.
    pub closed spec fn limit(self) -> usize {
        self.limit
    }

    /// The registration.
    pub closed spec fn token(self) -> Option<WaiterToken> {
        self.token
    }

    /// Whether a poll found nothing.
    pub closed spec fn is_awaiting(self) -> bool {
        self.awaiting
    }
}

/// A receive of several messages in progress, made by [`Receiver::recv_many`].
pub struct RecvMany<'a, T> {
    /// The receiver, which is borrowed until the receive ends.
    pub receiver: &'a mut Receiver<T>,
    /// The buffer, which is borrowed until the receive ends.
    pub buffer: &'a mut Vec<T>,
    /// How far the receive has come.
    pub batch: Batch,
}

impl<'a, T> RecvMany<'a, T> {
    /// The channel.
    pub open spec fn shared(self) -> Shared<T> {
        self.receiver.shared()
    }

    /// What the buffer holds.
    pub open spec fn buffer(self) -> Seq<T> {
        self.buffer@
    }

    /// How many messages to take at most.
    pub open spec fn limit(self) -> usize {
        self.batch.limit()
    }

    /// Whether this receive is registered among the waiting ones.
    pub open spec fn is_registered(self) -> bool {
        self.token() is Some
    }

    /// The registration.
    pub open spec fn token(self) -> Option<WaiterToken> {
        self.batch.token()
    }

    /// Whether an earlier poll found nothing, so that this one waits for its first message.
    pub open spec fn is_awaiting(self) -> bool {
        self.batch.is_awaiting()
    }

    /// Appends the messages that are ready, at most as many as the limit says, and
    /// registers `waker` where there is none.
    ///
    /// A limit of 0 is met at once. Otherwise the result is an error only if the channel
    /// is closed and drained before the first message. A poll after one that found nothing
    /// receives one message first, and then the others that are ready.
    #[verifier::rlimit(40)]
    pub fn poll(&mut self, waker: &Waker) -> (r: Polled<Result<usize, RecvError>>)
        ensures
            final(self).receiver.is_later(*old(self).receiver),
            final(self).receiver.taken() == old(self).receiver.taken()
                + final(self).buffer().skip(old(self).buffer().len() as int),
            *final(final(self).receiver) == *final(old(self).receiver),
            *final(final(self).buffer) == *final(old(self).buffer),
            final(self).limit() == old(self).limit(),
            old(self).limit() == 0 ==> {
                &&& *final(self).receiver == *old(self).receiver
                &&& r == Polled::Ready(Ok::<usize, RecvError>(0))
                &&& final(self).buffer() == old(self).buffer()
                &&& final(self).token() == old(self).token()
                &&& final(self).is_awaiting() == old(self).is_awaiting()
            },
            old(self).limit() > 0 ==> {
                &&& old(self).shared().is_poll_recv_many(
                    final(self).receiver.since(*old(self).receiver),
                    old(self).limit(),
                    *waker,
                    old(self).is_awaiting(),
                    old(self).token(),
                    r,
                    final(self).buffer().skip(old(self).buffer().len() as int),
                    final(self).token(),
                )
                &&& old(self).shared().polled_recv_many(
                    old(self).limit(),
                    *waker,
                    old(self).is_awaiting(),
                    old(self).token(),
                    r,
                    final(self).buffer().skip(old(self).buffer().len() as int),
                    final(self).token(),
                )
                &&& final(self).buffer().take(old(self).buffer().len() as int)
                    == old(self).buffer()
                &&& final(self).is_awaiting() <==> r is Pending
                &&& r is Pending ==> final(self).is_registered()
            },
            final(self).buffer().len() == old(self).buffer().len() + (match r {
                Polled::Ready(Ok(n)) => n as int,
                _ => 0,
            }),
            r matches Polled::Ready(Ok(n)) ==> n <= old(self).limit(),
            r == Polled::Ready(Ok::<usize, RecvError>(0)) ==> old(self).limit() == 0,
            r matches Polled::Ready(Err(_)) ==> old(self).shared().was_drained(),
            r is Pending ==> old(self).shared().was_empty(),
    {
        let ghost before = self.buffer@;
        let ghost start = before.len() as int;
        let ghost was = *self.receiver;
        proof {
            assert(before.skip(start) =~= Seq::empty());
            assert(before.take(start) =~= before);
            was.lemma_later_now();
            assert(was.taken() + Seq::<T>::empty() =~= was.taken());
        }
        if self.batch.limit == 0 {
            return Polled::Ready(Ok(0));
        }
        if !self.batch.awaiting {
            let count = self.receiver.drain(self.buffer, self.batch.limit);
            if count > 0 {
                return Polled::Ready(Ok(count));
            }
            assert(self.buffer@ =~= before);
        }
        let ghost mid = *self.receiver;
        let first = self.receiver.poll_recv(&mut self.batch.token, waker);
        let ghost polled = *self.receiver;
        proof {
            polled.lemma_later_still(mid, was);
            assert(mid.taken() =~= was.taken());
            let k = mid.since(was).len() as int;
            assert(k == (if old(self).is_awaiting() {
                0int
            } else {
                1int
            }));
            let pages = polled.since(was);
            assert(pages.len() == k + 1);
            assert(pages[k] == polled.since(mid)[0]);
            assert(k == 1 ==> pages[0] == mid.since(was)[0]);
        }
        match first {
            Polled::Pending => {
                self.batch.awaiting = true;
                assert(polled.taken() =~= was.taken() + Seq::<T>::empty());
                Polled::Pending
            },
            Polled::Ready(Err(e)) => {
                self.batch.awaiting = false;
                assert(polled.taken() =~= was.taken() + Seq::<T>::empty());
                Polled::Ready(Err(e))
            },
            Polled::Ready(Ok(msg)) => {
                self.batch.awaiting = false;
                self.buffer.push(msg);
                let ghost one = self.buffer@;
                let more = self.receiver.drain(self.buffer, self.batch.limit - 1);
                proof {
                    self.receiver.lemma_later_still(polled, was);
                    let k = mid.since(was).len() as int;
                    let pages = self.receiver.since(was);
                    assert(pages.len() == k + 2);
                    assert(pages[k] == polled.since(mid)[0]);
                    assert(pages[k + 1] == self.receiver.since(polled)[0]);
                    assert(k == 1 ==> pages[0] == mid.since(was)[0]);
                    assert(one.take(start) =~= before);
                    assert(self.buffer@.take(start + 1) == one);
                    assert(self.buffer@.take(start) =~= one.take(start));
                    let got = self.buffer@.skip(start);
                    assert(got[0] == one[start]);
                    assert(got.drop_first() =~= self.buffer@.skip(start + 1));
                    assert(got =~= seq![msg] + got.drop_first());
                    assert(self.receiver.taken() =~= was.taken() + got);
                }
                Polled::Ready(Ok(1 + more))
            },
        }
    }

    /// Gives the receive up: takes it off the waiting ones, and passes a notification on
    /// that it will not act on. A receive that waits has taken no message.
    pub fn cancel(&mut self)
        ensures
            !old(self).is_registered() ==> *final(self).receiver == *old(self).receiver,
            final(self).receiver.taken() == old(self).receiver.taken(),
            *final(final(self).receiver) == *final(old(self).receiver),
            *final(final(self).buffer) == *final(old(self).buffer),
            final(self).limit() == old(self).limit(),
            *final(self).buffer == *old(self).buffer,
            final(self).is_awaiting() == old(self).is_awaiting(),
            !final(self).is_registered(),
            old(self).is_registered() ==> {
                &&& old(self).shared().left_receivers(old(self).token(), true)
                &&& final(self).receiver.is_later(*old(self).receiver)
                &&& final(self).receiver.since(*old(self).receiver).len() == 1
                &&& old(self).shared().is_leaving_receivers(
                    final(self).receiver.since(*old(self).receiver)[0],
                    old(self).token(),
                    true,
                )
            },
    {
        if self.batch.token.is_some() {
            self.receiver.leave(&mut self.batch.token);
        }
    }
}

} // verus!
