//! A channel that several handles share.
//!
//! The state sits behind a lock, and every step holds the lock for its own duration only.
//! Between two steps of one party anybody else can take theirs, so what a step finds is
//! not known beforehand; what is known is that it finds a channel that obeys its
//! [`Rules`], does to it exactly what the step of the same name in
//! [`crate::channel::Channel`] does, and leaves a channel that obeys them.
//!
//! What the lock guards is a [`Vault`], which has every step noted on a sheet: an operation
//! does nothing to the channel but the steps that its sheet shows in the end.
//!
//! A poll takes the lock once to give up an old registration and look, and once more to
//! register and look again: see [`crate::poll`] for its turns. Wakers are cloned, woken and
//! dropped while nobody holds the lock.
use std::sync::Arc;
use std::task::Waker;
use vstd::prelude::*;
use vstd::rwlock::ReadHandle;
use vstd::rwlock::RwLock;
use vstd::rwlock::RwLockPredicate;

use crate::channel::Channel;
use crate::channel::RecvState;
use crate::errors::RecvError;
use crate::errors::SendError;
use crate::errors::TryRecvError;
use crate::errors::TrySendError;
use crate::queue;
use crate::queue::Dump;
use crate::poll::After;
use crate::poll::Polled;
use crate::poll::RecvPoll;
use crate::poll::SendPoll;
use crate::poll::Turn;
use crate::waiters::Unregistered;
use crate::waiters::WaiterToken;
use crate::vault;
use crate::vault::Log;
use crate::vault::Seat;
use crate::vault::Sheet;
use crate::vault::Step;
use crate::vault::Vault;
use crate::wake;
use crate::wake::take_last;
use crate::wake::wake_all;
use crate::wake::wake_listed;
use crate::wake::wake_one;

verus! {

/// What holds of a shared channel whenever nobody is in the middle of a step.
pub struct Rules {
    /// Which channel it is.
    pub identity: int,
    /// Number of messages that fit, or `None` without a bound.
    pub bound: Option<usize>,
    /// Whether there is only one receiver, for good.
    pub single: bool,
}

impl<T> RwLockPredicate<Channel<T, Waker>> for Rules {
    open spec fn inv(self, channel: Channel<T, Waker>) -> bool {
        &&& channel.wf()
        &&& channel.is_settled()
        &&& channel.identity() == self.identity
        &&& channel.bound() == self.bound
        &&& self.single ==> channel.queue().is_single()
    }
}

impl<T> RwLockPredicate<Vault<T>> for Rules {
    open spec fn inv(self, vault: Vault<T>) -> bool {
        &&& vault.wf()
        &&& vault.single() == self.single
        &&& vault.channel().identity() == self.identity
        &&& vault.channel().bound() == self.bound
    }
}

/// One handle's share of a channel.
pub struct Shared<T> {
    lock: Arc<RwLock<Vault<T>, Rules>>,
}

impl<T> Shared<T> {
    // ---------------------------------------------------------------- model

    /// What holds of the channel.
    pub closed spec fn rules(self) -> Rules {
        self.lock.pred()
    }

    /// Whether the channel can be in this state.
    pub open spec fn admits(self, channel: Channel<T, Waker>) -> bool {
        self.rules().inv(channel)
    }

    /// Whether a look through the lock showed the channel in this state.
    pub closed spec fn showed(self, now: Channel<T, Waker>) -> bool {
        exists|handle: ReadHandle<Vault<T>, Rules>| #[trigger]
            call_ensures(RwLock::<Vault<T>, Rules>::acquire_read, (&*self.lock,), handle)
                && handle.view().channel() == now
    }

    /// Whether a step is one on this channel.
    pub open spec fn is_own(self, step: Step<T>) -> bool {
        &&& self.admits(step.pre)
        &&& self.admits(step.post)
        &&& step.single == self.rules().single
    }

    /// Whether a sheet is one for an operation on this channel that has not begun.
    pub open spec fn is_blank(self, sheet: Sheet<T>) -> bool {
        sheet.identity() == self.rules().identity && sheet.steps().len() == 0
    }

    /// Whether the sheet `before` has become `sheet`, with whatever steps.
    pub open spec fn is_used(self, before: Sheet<T>, sheet: Sheet<T>) -> bool {
        &&& sheet.identity() == before.identity()
        &&& sheet.is_sole() == before.is_sole()
        &&& sheet.number() == before.number()
    }

    /// Whether the channel was in this state when it was put behind the lock.
    pub closed spec fn began_as(self, start: Channel<T, Waker>) -> bool {
        exists|vault: Vault<T>, rules: Ghost<Rules>| #[trigger]
            call_ensures(RwLock::<Vault<T>, Rules>::new, (vault, rules), *self.lock)
                && vault.channel() == start
    }

    /// The channel was fresh when it was put behind the lock: open, empty and with one
    /// sender and one receiver.
    pub open spec fn began_fresh(self) -> bool {
        exists|start: Channel<T, Waker>| #[trigger]
            self.began_as(start) && start.is_fresh(self.rules().bound)
    }

    /// Sending `msg` was one step, which gave `r`; a receiver that it selected was woken.
    pub open spec fn is_sent(
        self,
        steps: Seq<Step<T>>,
        msg: T,
        r: Result<(), TrySendError<T>>,
    ) -> bool {
        &&& steps.len() == 1
        &&& self.is_own(steps[0])
        &&& exists|woken: Option<Waker>| #[trigger]
            Channel::did_offer(steps[0].pre, steps[0].post, msg, r, woken) && wake::told(woken)
    }

    /// Receiving was one step, which gave `r`; a sender that it selected was woken.
    pub open spec fn is_received(self, steps: Seq<Step<T>>, r: Result<T, RecvState>) -> bool {
        &&& steps.len() == 1
        &&& self.is_own(steps[0])
        &&& exists|woken: Option<Waker>| #[trigger]
            Channel::did_receive(steps[0].pre, steps[0].post, r, woken) && wake::told(woken)
    }

    /// Closing was one step, and `r` says whether the channel was open; everybody who waited
    /// was woken.
    pub open spec fn is_closing(self, steps: Seq<Step<T>>, r: bool) -> bool {
        &&& steps.len() == 1
        &&& self.is_own(steps[0])
        &&& steps[0].post.senders() == steps[0].pre.senders()
        &&& steps[0].post.receivers() == steps[0].pre.receivers()
        &&& exists|woken: Option<Seq<Waker>>| #[trigger]
            Channel::did_close(steps[0].pre, steps[0].post, woken) && r == (woken is Some) && (
            woken matches Some(w) ==> wake::all_told(w))
    }

    /// In some state of the channel, sending `msg` gave `r`.
    pub open spec fn sent(self, msg: T, r: Result<(), TrySendError<T>>) -> bool {
        exists|steps: Seq<Step<T>>| #[trigger] self.is_sent(steps, msg, r)
    }

    /// In some state of the channel, receiving gave `r`.
    pub open spec fn received(self, r: Result<T, RecvState>) -> bool {
        exists|steps: Seq<Step<T>>| #[trigger] self.is_received(steps, r)
    }

    /// The channel was closed and had no message at some moment.
    pub open spec fn was_drained(self) -> bool {
        exists|channel: Channel<T, Waker>| #[trigger]
            self.admits(channel) && channel.closed() && channel.messages().len() == 0
    }

    /// The channel was open and had no message at some moment.
    pub open spec fn was_empty(self) -> bool {
        exists|channel: Channel<T, Waker>| #[trigger]
            self.admits(channel) && !channel.closed() && channel.messages().len() == 0
    }

    /// The channel was open and took no message at some moment.
    pub open spec fn was_full(self) -> bool {
        exists|channel: Channel<T, Waker>| #[trigger]
            self.admits(channel) && !channel.closed() && (!queue::leaves_room(
                channel.messages().len() as int,
                channel.bound(),
            ) || !channel.queue().has_room())
    }

    /// The channel was closed at some moment.
    pub open spec fn was_closed(self) -> bool {
        exists|channel: Channel<T, Waker>| #[trigger] self.admits(channel) && channel.closed()
    }

    /// At some moment the channel was closed, or open, as `closed` says.
    pub open spec fn observed_closed(self, closed: bool) -> bool {
        exists|now: Channel<T, Waker>| #[trigger]
            self.admits(now) && self.showed(now) && now.closed() == closed
    }

    /// At some moment there were `n` messages.
    pub open spec fn observed_len(self, n: usize) -> bool {
        exists|now: Channel<T, Waker>| #[trigger]
            self.admits(now) && self.showed(now) && now.messages().len() == n
    }

    /// At some moment there were `n` senders.
    pub open spec fn observed_senders(self, n: usize) -> bool {
        exists|now: Channel<T, Waker>| #[trigger]
            self.admits(now) && self.showed(now) && now.senders() == n
    }

    /// At some moment there were `n` receivers.
    pub open spec fn observed_receivers(self, n: usize) -> bool {
        exists|now: Channel<T, Waker>| #[trigger]
            self.admits(now) && self.showed(now) && now.receivers() == n
    }

    /// At some moment the queue looked like `dump`.
    pub open spec fn observed_dump(self, dump: Dump) -> bool {
        exists|now: Channel<T, Waker>| #[trigger]
            self.admits(now) && self.showed(now) && now.queue().is_dump(dump)
    }

    /// In some state of the channel, closing it gave `r`: whether it was open.
    pub open spec fn closed(self, r: bool) -> bool {
        exists|steps: Seq<Step<T>>| #[trigger] self.is_closing(steps, r)
    }

    /// In some state of the channel a sender came.
    pub open spec fn gained_sender(self) -> bool {
        exists|step: Step<T>| #[trigger]
            self.is_own(step) && Channel::did_add_sender(step.pre, step.post)
    }

    /// In some state of the channel a receiver came.
    pub open spec fn gained_receiver(self) -> bool {
        exists|step: Step<T>| #[trigger]
            self.is_own(step) && Channel::did_add_receiver(step.pre, step.post)
    }

    /// A sender went in one step, which closed the channel or not as `r` says; everybody who
    /// waited was woken if it did.
    pub open spec fn is_loss_of_sender(self, steps: Seq<Step<T>>, r: bool) -> bool {
        &&& steps.len() == 1
        &&& self.is_own(steps[0])
        &&& exists|woken: Option<Seq<Waker>>| #[trigger]
            Channel::did_remove_sender(steps[0].pre, steps[0].post, woken) && r == (woken is Some)
                && (woken matches Some(w) ==> wake::all_told(w))
    }

    /// A receiver went in one step, which closed the channel or not as `r` says; everybody
    /// who waited was woken if it did.
    pub open spec fn is_loss_of_receiver(self, steps: Seq<Step<T>>, r: bool) -> bool {
        &&& steps.len() == 1
        &&& self.is_own(steps[0])
        &&& exists|woken: Option<Seq<Waker>>| #[trigger]
            Channel::did_remove_receiver(steps[0].pre, steps[0].post, woken) && r == (
            woken is Some) && (woken matches Some(w) ==> wake::all_told(w))
    }

    /// In some state of the channel a sender went, and closed it or not as `r` says.
    pub open spec fn lost_sender(self, r: bool) -> bool {
        exists|steps: Seq<Step<T>>| #[trigger] self.is_loss_of_sender(steps, r)
    }

    /// In some state of the channel a receiver went, and closed it or not as `r` says.
    pub open spec fn lost_receiver(self, r: bool) -> bool {
        exists|steps: Seq<Step<T>>| #[trigger] self.is_loss_of_receiver(steps, r)
    }

    /// One step took `got` out, which were all the messages or the first `limit` of them;
    /// the senders that it selected were woken.
    pub open spec fn is_drain(self, steps: Seq<Step<T>>, limit: usize, got: Seq<T>) -> bool {
        &&& steps.len() == 1
        &&& self.is_own(steps[0])
        &&& exists|count: usize, woken: Seq<Waker>| #[trigger]
            Channel::did_drain(
                steps[0].pre,
                steps[0].post,
                limit,
                count,
                Seq::empty(),
                got,
                woken,
            ) && wake::all_told(woken)
    }

    /// In some state of the channel, `got` were all its messages, or the first `limit` of
    /// them, and they were received.
    pub open spec fn drained(self, limit: usize, got: Seq<T>) -> bool {
        exists|steps: Seq<Step<T>>| #[trigger] self.is_drain(steps, limit, got)
    }

    /// The course of one poll of a receive of up to `limit` messages, which got `got`; each
    /// page holds the steps of one operation. It takes what is ready; if that is nothing,
    /// or an earlier poll has found nothing already (`awaiting`), it receives a message, and
    /// then what else is ready.
    pub open spec fn is_poll_recv_many(
        self,
        pages: Seq<Seq<Step<T>>>,
        limit: usize,
        waker: Waker,
        awaiting: bool,
        before: Option<WaiterToken>,
        r: Polled<Result<usize, RecvError>>,
        got: Seq<T>,
        after: Option<WaiterToken>,
    ) -> bool {
        let k: int = if awaiting {
            0
        } else {
            1
        };
        ||| {
            &&& !awaiting && got.len() > 0
            &&& pages.len() == 1
            &&& self.is_drain(pages[0], limit, got)
            &&& r == Polled::Ready(Ok::<usize, RecvError>(got.len() as usize))
            &&& after == before
        }
        ||| {
            &&& pages.len() > k
            &&& !awaiting ==> self.is_drain(pages[0], limit, Seq::empty())
            &&& match r {
                Polled::Ready(Ok(n)) => {
                    &&& n == got.len() && n > 0
                    &&& pages.len() == k + 2
                    &&& self.is_poll_recv(
                        pages[k],
                        waker,
                        before,
                        Polled::Ready(Ok(got[0])),
                        after,
                    )
                    &&& self.is_drain(pages[k + 1], (limit - 1) as usize, got.drop_first())
                },
                Polled::Ready(Err(e)) => {
                    &&& got.len() == 0
                    &&& pages.len() == k + 1
                    &&& self.is_poll_recv(pages[k], waker, before, Polled::Ready(Err(e)), after)
                },
                Polled::Pending => {
                    &&& got.len() == 0
                    &&& pages.len() == k + 1
                    &&& self.is_poll_recv(pages[k], waker, before, Polled::Pending, after)
                },
            }
        }
    }

    /// The course of one poll of a receive of up to `limit` messages, in some steps.
    pub open spec fn polled_recv_many(
        self,
        limit: usize,
        waker: Waker,
        awaiting: bool,
        before: Option<WaiterToken>,
        r: Polled<Result<usize, RecvError>>,
        got: Seq<T>,
        after: Option<WaiterToken>,
    ) -> bool {
        exists|pages: Seq<Seq<Step<T>>>| #[trigger]
            self.is_poll_recv_many(pages, limit, waker, awaiting, before, r, got, after)
    }

    /// The registration of `token` among the senders was given up in one step; a sender that
    /// was selected in its place was woken.
    pub open spec fn is_leaving_senders(
        self,
        steps: Seq<Step<T>>,
        token: Option<WaiterToken>,
        forward: bool,
    ) -> bool {
        &&& steps.len() == 1
        &&& self.is_own(steps[0])
        &&& exists|gone: Unregistered<Waker>| #[trigger]
            Channel::did_leave_senders(steps[0].pre, steps[0].post, token, forward, gone) && wake::told(
                gone.forwarded,
            )
    }

    /// The registration of `token` among the receivers was given up in one step; a receiver
    /// that was selected in its place was woken.
    pub open spec fn is_leaving_receivers(
        self,
        steps: Seq<Step<T>>,
        token: Option<WaiterToken>,
        forward: bool,
    ) -> bool {
        &&& steps.len() == 1
        &&& self.is_own(steps[0])
        &&& exists|gone: Unregistered<Waker>| #[trigger]
            Channel::did_leave_receivers(steps[0].pre, steps[0].post, token, forward, gone)
                && wake::told(gone.forwarded)
    }

    /// In some state of the channel, the registration of `token` among the senders was given up.
    pub open spec fn left_senders(self, token: Option<WaiterToken>, forward: bool) -> bool {
        exists|steps: Seq<Step<T>>| #[trigger] self.is_leaving_senders(steps, token, forward)
    }

    /// In some state of the channel, the registration of `token` among the receivers was given up.
    pub open spec fn left_receivers(self, token: Option<WaiterToken>, forward: bool) -> bool {
        exists|steps: Seq<Step<T>>| #[trigger] self.is_leaving_receivers(steps, token, forward)
    }

    /// The course of one poll of a send with `waker`, from the registration it came with
    /// to the one it leaves. In its first step it gives up the registration of an earlier
    /// poll and looks; if the channel is full, a second step registers a clone of `waker`,
    /// looks again, and keeps the new registration or gives it up. There is no other step,
    /// and a receiver that a step selected was woken.
    pub open spec fn is_poll_send(
        self,
        steps: Seq<Step<T>>,
        msg: T,
        waker: Waker,
        before: Option<WaiterToken>,
        r: Polled<Result<(), SendError<T>>>,
        after: Option<WaiterToken>,
    ) -> bool {
        &&& steps.len() >= 1
        &&& self.is_own(steps[0])
        &&& exists|looked: SendPoll<T>, rest: After<Waker>|
            {
                &&& #[trigger] Channel::did_start_send(
                    steps[0].pre,
                    steps[0].post,
                    SendPoll::starting(before, msg),
                    looked,
                    rest,
                )
                &&& wake::told(rest.wake)
                &&& if looked.at is Finish {
                    steps.len() == 1 && r == looked.outcome() && after == looked.token
                } else {
                    steps.len() == 2 && self.is_wait_send(steps[1], looked, waker, r, after)
                }
            }
    }

    /// The second step of a poll of a send that found the channel full.
    pub open spec fn is_wait_send(
        self,
        step: Step<T>,
        looked: SendPoll<T>,
        waker: Waker,
        r: Polled<Result<(), SendError<T>>>,
        after: Option<WaiterToken>,
    ) -> bool {
        &&& self.is_own(step)
        &&& exists|last: SendPoll<T>, registered: Waker, rest: After<Waker>|
            {
                &&& cloned(waker, registered)
                &&& #[trigger] Channel::did_wait_send(
                    step.pre,
                    step.post,
                    looked,
                    last,
                    registered,
                    rest,
                )
                &&& wake::told(rest.wake)
                &&& r == last.outcome() && after == last.token
            }
    }

    /// The course of one poll of a send with `waker`, in some steps.
    pub open spec fn polled_send(
        self,
        msg: T,
        waker: Waker,
        before: Option<WaiterToken>,
        r: Polled<Result<(), SendError<T>>>,
        after: Option<WaiterToken>,
    ) -> bool {
        exists|steps: Seq<Step<T>>| #[trigger]
            self.is_poll_send(steps, msg, waker, before, r, after)
    }

    /// The rest of a poll of a send that found the channel full.
    pub open spec fn waited_to_send(
        self,
        looked: SendPoll<T>,
        waker: Waker,
        r: Polled<Result<(), SendError<T>>>,
        after: Option<WaiterToken>,
    ) -> bool {
        exists|step: Step<T>| #[trigger] self.is_wait_send(step, looked, waker, r, after)
    }

    /// The course of one poll of a receive with `waker`, from the registration it came with
    /// to the one it leaves. In its first step it gives up the registration of an earlier
    /// poll and looks; if there is nothing to receive, a second step registers a clone of
    /// `waker`, looks again, and keeps the new registration or gives it up. There is no other
    /// step, and a sender that a step selected was woken.
    pub open spec fn is_poll_recv(
        self,
        steps: Seq<Step<T>>,
        waker: Waker,
        before: Option<WaiterToken>,
        r: Polled<Result<T, RecvError>>,
        after: Option<WaiterToken>,
    ) -> bool {
        &&& steps.len() >= 1
        &&& self.is_own(steps[0])
        &&& exists|looked: RecvPoll<T>, rest: After<Waker>|
            {
                &&& #[trigger] Channel::did_start_recv(
                    steps[0].pre,
                    steps[0].post,
                    RecvPoll::starting(before),
                    looked,
                    rest,
                )
                &&& wake::told(rest.wake)
                &&& if looked.at is Finish {
                    steps.len() == 1 && r == looked.outcome() && after == looked.token
                } else {
                    steps.len() == 2 && self.is_wait_recv(steps[1], looked, waker, r, after)
                }
            }
    }

    /// The second step of a poll of a receive that found nothing.
    pub open spec fn is_wait_recv(
        self,
        step: Step<T>,
        looked: RecvPoll<T>,
        waker: Waker,
        r: Polled<Result<T, RecvError>>,
        after: Option<WaiterToken>,
    ) -> bool {
        &&& self.is_own(step)
        &&& exists|last: RecvPoll<T>, registered: Waker, rest: After<Waker>|
            {
                &&& cloned(waker, registered)
                &&& #[trigger] Channel::did_wait_recv(
                    step.pre,
                    step.post,
                    looked,
                    last,
                    registered,
                    rest,
                )
                &&& wake::told(rest.wake)
                &&& r == last.outcome() && after == last.token
            }
    }

    /// The course of one poll of a receive with `waker`, in some steps.
    pub open spec fn polled_recv(
        self,
        waker: Waker,
        before: Option<WaiterToken>,
        r: Polled<Result<T, RecvError>>,
        after: Option<WaiterToken>,
    ) -> bool {
        exists|steps: Seq<Step<T>>| #[trigger] self.is_poll_recv(steps, waker, before, r, after)
    }

    /// The rest of a poll of a receive that found nothing.
    pub open spec fn waited_to_receive(
        self,
        looked: RecvPoll<T>,
        waker: Waker,
        r: Polled<Result<T, RecvError>>,
        after: Option<WaiterToken>,
    ) -> bool {
        exists|step: Step<T>| #[trigger] self.is_wait_recv(step, looked, waker, r, after)
    }

    // ----------------------------------------------------------- what is taken

    /// A step that receives takes one message out, the one that it gives, or none.
    pub proof fn lemma_receive_takes(self, step: Step<T>, r: Result<T, RecvState>, w: Option<Waker>)
        requires
            self.is_own(step),
            Channel::did_receive(step.pre, step.post, r, w),
        ensures
            step.only_takes(),
            step.taken() == (match r {
                Ok(m) => seq![m],
                Err(_) => Seq::empty(),
            }),
    {
        step.pre.lemma_ready();
        assert(step.taken() =~= (match r {
            Ok(m) => seq![m],
            Err(_) => Seq::empty(),
        }));
        assert(vault::there(step.taken()) + step.post.messages() =~= step.pre.messages());
    }

    /// A receive takes one message out, the one that it gives, or none.
    pub proof fn lemma_received_takes(self, steps: Seq<Step<T>>, r: Result<T, RecvState>)
        requires
            self.is_received(steps, r),
        ensures
            forall|i: int| 0 <= i < steps.len() ==> (#[trigger] steps[i]).only_takes(),
            vault::taken_in(steps) == (match r {
                Ok(m) => seq![m],
                Err(_) => Seq::empty(),
            }),
    {
        let woken = choose|woken: Option<Waker>| #[trigger]
            Channel::did_receive(steps[0].pre, steps[0].post, r, woken) && wake::told(woken);
        self.lemma_receive_takes(steps[0], r, woken);
        vault::lemma_one_step(steps);
    }

    /// A step that keeps the messages takes none out.
    proof fn lemma_keeps(step: Step<T>)
        requires
            step.post.messages() == step.pre.messages(),
        ensures
            step.only_takes(),
            step.taken() == Seq::<T>::empty(),
    {
        assert(vault::there(step.taken()) + step.post.messages() =~= step.pre.messages());
    }

    /// Giving up a registration takes no message out.
    pub proof fn lemma_leaving_takes(
        self,
        steps: Seq<Step<T>>,
        token: Option<WaiterToken>,
        forward: bool,
    )
        requires
            self.is_leaving_receivers(steps, token, forward),
        ensures
            forall|i: int| 0 <= i < steps.len() ==> (#[trigger] steps[i]).only_takes(),
            vault::taken_in(steps) == Seq::<T>::empty(),
    {
        Self::lemma_keeps(steps[0]);
        vault::lemma_one_step(steps);
    }

    /// A drain takes out what it gives.
    pub proof fn lemma_drain_takes(self, steps: Seq<Step<T>>, limit: usize, got: Seq<T>)
        requires
            self.is_drain(steps, limit, got),
        ensures
            forall|i: int| 0 <= i < steps.len() ==> (#[trigger] steps[i]).only_takes(),
            vault::taken_in(steps) == got,
    {
        let step = steps[0];
        let (count, woken) = choose|count: usize, woken: Seq<Waker>| #[trigger]
            Channel::did_drain(step.pre, step.post, limit, count, Seq::empty(), got, woken)
                && wake::all_told(woken);
        assert(step.taken() =~= got);
        assert forall|i: int| 0 <= i < got.len() implies #[trigger] step.pre.messages()[i]
            == Some(got[i]) by {
            assert(step.pre.messages()[i] is Some);
        }
        assert(vault::there(step.taken()) + step.post.messages() =~= step.pre.messages());
        vault::lemma_one_step(steps);
    }

    /// A poll of a receive takes one message out, the one that it gives, or none.
    #[verifier::spinoff_prover]
    #[verifier::rlimit(60)]
    pub proof fn lemma_poll_takes(
        self,
        steps: Seq<Step<T>>,
        waker: Waker,
        before: Option<WaiterToken>,
        r: Polled<Result<T, RecvError>>,
        after: Option<WaiterToken>,
    )
        requires
            self.is_poll_recv(steps, waker, before, r, after),
        ensures
            forall|i: int| 0 <= i < steps.len() ==> (#[trigger] steps[i]).only_takes(),
            vault::taken_in(steps) == (match r {
                Polled::Ready(Ok(m)) => seq![m],
                _ => Seq::empty(),
            }),
    {
        let (looked, rest) = choose|looked: RecvPoll<T>, rest: After<Waker>|
            {
                &&& #[trigger] Channel::did_start_recv(
                    steps[0].pre,
                    steps[0].post,
                    RecvPoll::starting(before),
                    looked,
                    rest,
                )
                &&& wake::told(rest.wake)
                &&& if looked.at is Finish {
                    steps.len() == 1 && r == looked.outcome() && after == looked.token
                } else {
                    steps.len() == 2 && self.is_wait_recv(steps[1], looked, waker, r, after)
                }
            };
        self.lemma_start_takes(steps[0], before, looked, rest);
        if looked.at is Finish {
            vault::lemma_one_step(steps);
        } else {
            let (last, registered, rest) = choose|
                last: RecvPoll<T>,
                registered: Waker,
                rest: After<Waker>,
            |
                {
                    &&& cloned(waker, registered)
                    &&& #[trigger] Channel::did_wait_recv(
                        steps[1].pre,
                        steps[1].post,
                        looked,
                        last,
                        registered,
                        rest,
                    )
                    &&& wake::told(rest.wake)
                    &&& r == last.outcome() && after == last.token
                };
            self.lemma_wait_takes(steps[1], looked, last, registered, rest);
            vault::lemma_two_steps(steps);
            assert(steps[0].taken() + steps[1].taken() =~= steps[1].taken());
        }
    }

    /// What the first step of a poll takes out.
    proof fn lemma_start_takes(
        self,
        step: Step<T>,
        before: Option<WaiterToken>,
        looked: RecvPoll<T>,
        rest: After<Waker>,
    )
        requires
            self.is_own(step),
            Channel::did_start_recv(
                step.pre,
                step.post,
                RecvPoll::starting(before),
                looked,
                rest,
            ),
        ensures
            step.only_takes(),
            step.taken() == (match looked.seen {
                Some(Ok(m)) => seq![m],
                _ => Seq::empty(),
            }),
            looked.at is Finish ==> looked.seen is Some,
            !(looked.at is Finish) ==> !(looked.seen matches Some(Ok(_))),
    {
        let p = RecvPoll::<T>::starting(before);
        let (mid, h) = choose|mid: Channel<T, Waker>, h: RecvPoll<T>|
            {
                &&& p.at is Leave
                &&& #[trigger] Channel::did_recv_turn(
                    step.pre,
                    mid,
                    p,
                    h,
                    None,
                    true,
                    After { wake: None, dropped: rest.dropped },
                )
                &&& Channel::did_recv_turn(
                    mid,
                    step.post,
                    h,
                    looked,
                    None,
                    true,
                    After { wake: rest.wake, dropped: None },
                )
            };
        step.pre.lemma_ready();
        Self::lemma_look(step, mid, looked.seen->0, rest.wake);
    }

    /// What a step takes out whose only effect on the messages is that of an attempt.
    proof fn lemma_look(
        step: Step<T>,
        mid: Channel<T, Waker>,
        r: Result<T, RecvState>,
        woken: Option<Waker>,
    )
        requires
            mid.queue() == step.pre.queue(),
            step.pre.messages().len() > 0 ==> step.pre.messages()[0] is Some,
            exists|post: Channel<T, Waker>| #[trigger]
                Channel::did_receive(mid, post, r, woken) && post.messages()
                    == step.post.messages(),
        ensures
            step.only_takes(),
            step.taken() == (match r {
                Ok(m) => seq![m],
                Err(_) => Seq::empty(),
            }),
    {
        assert(step.taken() =~= (match r {
            Ok(m) => seq![m],
            Err(_) => Seq::empty(),
        }));
        assert(vault::there(step.taken()) + step.post.messages() =~= step.pre.messages());
    }

    /// What the second step of a poll takes out.
    proof fn lemma_wait_takes(
        self,
        step: Step<T>,
        looked: RecvPoll<T>,
        last: RecvPoll<T>,
        waker: Waker,
        rest: After<Waker>,
    )
        requires
            self.is_own(step),
            Channel::did_wait_recv(step.pre, step.post, looked, last, waker, rest),
        ensures
            step.only_takes(),
            step.taken() == (match last.outcome() {
                Polled::Ready(Ok(m)) => seq![m],
                _ => Seq::empty(),
            }),
    {
        let (reg, h, mid, g) = choose|
            reg: Channel<T, Waker>,
            h: RecvPoll<T>,
            mid: Channel<T, Waker>,
            g: RecvPoll<T>,
        |
            {
                &&& looked.at is Register
                &&& #[trigger] Channel::did_recv_turn(
                    step.pre,
                    reg,
                    looked,
                    h,
                    Some(waker),
                    true,
                    After { wake: None, dropped: None },
                )
                &&& #[trigger] Channel::did_recv_turn(
                    reg,
                    mid,
                    h,
                    g,
                    None,
                    true,
                    After { wake: rest.wake, dropped: None },
                )
                &&& if g.at is PassOn {
                    Channel::did_recv_turn(
                        mid,
                        step.post,
                        g,
                        last,
                        None,
                        true,
                        After { wake: None, dropped: rest.dropped },
                    )
                } else {
                    last == g && step.post == mid && rest.dropped is None
                }
            };
        let attempt = choose|attempt: Result<T, RecvState>| #[trigger]
            Channel::did_receive(reg, mid, attempt, rest.wake) && g.seen == Some(
                mid.rechecked(attempt, h.tail as int),
            );
        step.pre.lemma_ready();
        Self::lemma_look(step, reg, attempt, rest.wake);
    }

    // ------------------------------------------------------------- ownership

    /// A new channel, with the log of the party that receives from it.
    pub(crate) fn new(capacity: Option<usize>, single: bool) -> (r: (Self, Log<T>))
        requires
            capacity matches Some(c) ==> c >= 1,
        ensures
            r.0.rules().bound == capacity,
            r.0.rules().single == single,
            r.0.began_fresh(),
            r.1.identity() == r.0.rules().identity,
            r.1.is_sole() == single,
            r.1.pages() == Seq::<Option<Seq<Step<T>>>>::empty(),
    {
        let (vault, log) = Vault::new(capacity, single);
        let rules: Ghost<Rules> = Ghost(
            Rules { identity: vault.channel().identity(), bound: vault.channel().bound(), single },
        );
        let ghost start = vault.channel();
        let lock = RwLock::new(vault, rules);
        assert(call_ensures(RwLock::<Vault<T>, Rules>::new, (vault, rules), lock));
        let r = Shared { lock: Arc::new(lock) };
        assert(call_ensures(RwLock::<Vault<T>, Rules>::new, (vault, rules), *r.lock));
        assert(r.began_as(start));
        (r, log)
    }

    /// Another share of the same channel.
    pub(crate) fn share(&self) -> (r: Self)
        ensures
            r == *self,
    {
        Shared { lock: self.lock.clone() }
    }

    /// Gives up a share. With the last one the channel and its messages are dropped.
    fn release(self) {
        match take_last(self.lock) {
            Some(lock) => {
                let vault = lock.into_inner();
                let _ = vault.into_unread();
            },
            None => {},
        }
    }

    /// Counts one more sender.
    pub(crate) fn add_sender(&self, sheet: &mut Sheet<T>, _seat: Seat)
        requires
            self.is_blank(*old(sheet)),
        ensures
            self.is_used(*old(sheet), *final(sheet)),
            self.gained_sender(),
            final(sheet).steps().len() == 1,
            self.is_own(final(sheet).steps()[0]),
            Channel::did_add_sender(final(sheet).steps()[0].pre, final(sheet).steps()[0].post),
    {
        let (mut vault, handle) = self.lock.acquire_write();
        vault.add_sender(sheet);
        handle.release_write(vault);
        assert(self.is_own(sheet.steps()[0]));
    }

    /// Counts one more receiver.
    pub(crate) fn add_receiver(&self, sheet: &mut Sheet<T>, _seat: Seat)
        requires
            self.is_blank(*old(sheet)),
        ensures
            self.is_used(*old(sheet), *final(sheet)),
            self.gained_receiver(),
            final(sheet).steps().len() == 1,
            self.is_own(final(sheet).steps()[0]),
            Channel::did_add_receiver(final(sheet).steps()[0].pre, final(sheet).steps()[0].post),
    {
        let (mut vault, handle) = self.lock.acquire_write();
        vault.add_receiver(sheet);
        handle.release_write(vault);
        assert(self.is_own(sheet.steps()[0]));
    }

    /// Counts one sender less, closes the channel with the last one, and gives up its
    /// share. Returns whether this closed the channel.
    pub(crate) fn remove_sender(self, sheet: &mut Sheet<T>) -> (r: bool)
        requires
            self.is_blank(*old(sheet)),
        ensures
            self.is_used(*old(sheet), *final(sheet)),
            self.is_loss_of_sender(final(sheet).steps(), r),
            self.lost_sender(r),
    {
        let (mut vault, handle) = self.lock.acquire_write();
        let ghost pre = vault.channel();
        let woken = vault.remove_sender(sheet);
        let ghost post = vault.channel();
        let ghost list = vault::listed(woken);
        handle.release_write(vault);
        let closed = wake_listed(woken);
        proof {
            let step = sheet.steps()[0];
            assert(step.pre == pre && step.post == post);
            assert(self.is_own(step));
            assert(Channel::did_remove_sender(step.pre, step.post, list));
            assert(closed == (list is Some));
            assert(list matches Some(w) ==> wake::all_told(w));
            assert(self.is_loss_of_sender(sheet.steps(), closed));
        }
        self.release();
        closed
    }

    /// Counts one receiver less, closes the channel with the last one, and gives up its
    /// share. Returns whether this closed the channel.
    pub(crate) fn remove_receiver(self, sheet: &mut Sheet<T>) -> (r: bool)
        requires
            self.is_blank(*old(sheet)),
        ensures
            self.is_used(*old(sheet), *final(sheet)),
            self.is_loss_of_receiver(final(sheet).steps(), r),
            self.lost_receiver(r),
    {
        let (mut vault, handle) = self.lock.acquire_write();
        let ghost pre = vault.channel();
        let woken = vault.remove_receiver(sheet);
        let ghost post = vault.channel();
        let ghost list = vault::listed(woken);
        handle.release_write(vault);
        let closed = wake_listed(woken);
        proof {
            let step = sheet.steps()[0];
            assert(step.pre == pre && step.post == post);
            assert(self.is_own(step));
            assert(Channel::did_remove_receiver(step.pre, step.post, list));
            assert(closed == (list is Some));
            assert(list matches Some(w) ==> wake::all_told(w));
            assert(self.is_loss_of_receiver(sheet.steps(), closed));
        }
        self.release();
        closed
    }

    // ------------------------------------------------------------ operations

    /// Sends a message if the channel is open and has room.
    pub(crate) fn offer(&self, sheet: &mut Sheet<T>, msg: T) -> (r: Result<
        (),
        TrySendError<T>,
    >)
        requires
            self.is_blank(*old(sheet)),
        ensures
            self.is_used(*old(sheet), *final(sheet)),
            self.is_sent(final(sheet).steps(), msg, r),
            self.sent(msg, r),
            r matches Err(e) ==> e.message() == msg,
            r matches Err(TrySendError::Full(_)) ==> self.was_full(),
            r matches Err(TrySendError::Closed(_)) ==> self.was_closed(),
    {
        let (mut vault, handle) = self.lock.acquire_write();
        let ghost pre = vault.channel();
        let (r, woken) = vault.offer(sheet, msg);
        handle.release_write(vault);
        wake_one(woken);
        proof {
            assert(self.admits(pre));
            assert(self.is_sent(sheet.steps(), msg, r));
        }
        r
    }

    /// Receives a message if there is one. `single` says whether this is the sole receiver.
    pub(crate) fn try_recv(&self, sheet: &mut Sheet<T>, single: bool) -> (r: Result<
        T,
        TryRecvError,
    >)
        requires
            self.is_blank(*old(sheet)),
            single == self.rules().single,
            single ==> old(sheet).is_sole(),
        ensures
            self.is_used(*old(sheet), *final(sheet)),
            self.is_received(final(sheet).steps(), Channel::<T, Waker>::as_attempt(r)),
            self.received(Channel::<T, Waker>::as_attempt(r)),
            r matches Err(TryRecvError::Empty) ==> self.was_empty(),
            r matches Err(TryRecvError::Closed) ==> self.was_drained(),
    {
        let (mut vault, handle) = self.lock.acquire_write();
        let ghost pre = vault.channel();
        let (r, woken) = vault.try_recv(sheet);
        handle.release_write(vault);
        wake_one(woken);
        proof {
            pre.lemma_ready();
            assert(self.admits(pre));
            assert(self.is_received(sheet.steps(), Channel::<T, Waker>::as_attempt(r)));
        }
        r
    }

    /// Closes the channel. Returns whether it was open.
    pub(crate) fn close(&self, sheet: &mut Sheet<T>) -> (r: bool)
        requires
            self.is_blank(*old(sheet)),
        ensures
            self.is_used(*old(sheet), *final(sheet)),
            self.is_closing(final(sheet).steps(), r),
            self.closed(r),
    {
        let (mut vault, handle) = self.lock.acquire_write();
        let woken = vault.close(sheet);
        handle.release_write(vault);
        let r = wake_listed(woken);
        assert(self.is_closing(sheet.steps(), r));
        r
    }

    // ---------------------------------------------------------------- waiting

    /// Gives up a sender's registration, if it has one.
    pub(crate) fn leave_senders(
        &self,
        sheet: &mut Sheet<T>,
        token: &mut Option<WaiterToken>,
        forward: bool,
    )
        requires
            self.is_blank(*old(sheet)),
        ensures
            self.is_used(*old(sheet), *final(sheet)),
            *final(token) is None,
            self.is_leaving_senders(final(sheet).steps(), *old(token), forward),
            self.left_senders(*old(token), forward),
    {
        let (mut vault, handle) = self.lock.acquire_write();
        let gone = vault.leave_senders(sheet, token, forward);
        handle.release_write(vault);
        wake_one(gone.forwarded);
        assert(self.is_leaving_senders(sheet.steps(), *old(token), forward));
    }

    /// Gives up a receiver's registration, if it has one.
    pub(crate) fn leave_receivers(
        &self,
        sheet: &mut Sheet<T>,
        token: &mut Option<WaiterToken>,
        forward: bool,
    )
        requires
            self.is_blank(*old(sheet)),
        ensures
            self.is_used(*old(sheet), *final(sheet)),
            *final(token) is None,
            self.is_leaving_receivers(final(sheet).steps(), *old(token), forward),
            self.left_receivers(*old(token), forward),
    {
        let (mut vault, handle) = self.lock.acquire_write();
        let gone = vault.leave_receivers(sheet, token, forward);
        handle.release_write(vault);
        wake_one(gone.forwarded);
        assert(self.is_leaving_receivers(sheet.steps(), *old(token), forward));
    }

    /// One poll of a send. Others can step in between its first look and its registration.
    pub(crate) fn poll_send(
        &self,
        sheet: &mut Sheet<T>,
        msg: T,
        token: &mut Option<WaiterToken>,
        waker: &Waker,
    ) -> (r: (Polled<Result<(), SendError<T>>>, Option<T>))
        requires
            self.is_blank(*old(sheet)),
        ensures
            self.is_used(*old(sheet), *final(sheet)),
            self.is_poll_send(
                final(sheet).steps(),
                msg,
                *waker,
                *old(token),
                r.0,
                *final(token),
            ),
            self.polled_send(msg, *waker, *old(token), r.0, *final(token)),
            r.0 matches Polled::Ready(Err(e)) ==> e.0 == msg && self.was_closed(),
            r.0 is Pending ==> self.was_full(),
            r.1 == (if r.0 is Pending {
                Some(msg)
            } else {
                None
            }),
            *final(token) is Some <==> r.0 is Pending,
    {
        let mut poll = SendPoll::new(token.take(), msg);
        let ghost began = poll;
        let (mut vault, handle) = self.lock.acquire_write();
        let ghost pre = vault.channel();
        let first = vault.start_send(sheet, &mut poll);
        let ghost post = vault.channel();
        let ghost looked = poll;
        proof {
            assert(self.admits(pre) && self.admits(post));
            assert(Channel::did_start_send(pre, post, began, looked, first));
        }
        handle.release_write(vault);
        wake_one(first.wake);
        let ghost step = sheet.steps()[0];
        assert(step.pre == pre && step.post == post);
        assert(self.is_own(step));
        assert(wake::told(first.wake));
        if poll.at == Turn::Register {
            let registered = waker.clone();
            let (mut vault, handle) = self.lock.acquire_write();
            let ghost pre = vault.channel();
            let rest = vault.wait_send(sheet, &mut poll, registered);
            let ghost post = vault.channel();
            handle.release_write(vault);
            wake_one(rest.wake);
            proof {
                assert(self.admits(pre) && self.admits(post));
                assert(Channel::did_wait_send(pre, post, looked, poll, registered, rest));
                let step = sheet.steps()[1];
                assert(step.pre == pre && step.post == post);
                assert(self.is_own(step));
                assert(cloned(*waker, registered));
                assert(wake::told(rest.wake));
                assert(self.is_wait_send(
                    sheet.steps()[1],
                    looked,
                    *waker,
                    poll.outcome(),
                    poll.token,
                ));
            }
        }
        proof {
            assert(sheet.steps()[0] == step);
            assert(Channel::did_start_send(
                step.pre,
                step.post,
                SendPoll::starting(*old(token), msg),
                looked,
                first,
            ));
        }
        assert(self.is_poll_send(
            sheet.steps(),
            msg,
            *waker,
            *old(token),
            poll.outcome(),
            poll.token,
        ));
        let (r, kept, left) = poll.into_outcome();
        *token = kept;
        (r, left)
    }

    /// One poll of a receive. Others can step in between its first look and its
    /// registration.
    pub(crate) fn poll_recv(
        &self,
        sheet: &mut Sheet<T>,
        single: bool,
        token: &mut Option<WaiterToken>,
        waker: &Waker,
    ) -> (r: Polled<Result<T, RecvError>>)
        requires
            self.is_blank(*old(sheet)),
            single == self.rules().single,
            single ==> old(sheet).is_sole(),
        ensures
            self.is_used(*old(sheet), *final(sheet)),
            self.is_poll_recv(final(sheet).steps(), *waker, *old(token), r, *final(token)),
            self.polled_recv(*waker, *old(token), r, *final(token)),
            r matches Polled::Ready(Err(_)) ==> self.was_drained(),
            r is Pending ==> self.was_empty(),
            *final(token) is Some <==> r is Pending,
    {
        let mut poll = RecvPoll::new(token.take());
        let ghost began = poll;
        let (mut vault, handle) = self.lock.acquire_write();
        let ghost pre = vault.channel();
        let first = vault.start_recv(sheet, &mut poll);
        let ghost post = vault.channel();
        let ghost looked = poll;
        proof {
            assert(self.admits(pre) && self.admits(post));
            assert(Channel::did_start_recv(pre, post, began, looked, first));
        }
        handle.release_write(vault);
        wake_one(first.wake);
        let ghost step = sheet.steps()[0];
        assert(step.pre == pre && step.post == post);
        assert(self.is_own(step));
        assert(wake::told(first.wake));
        if poll.at == Turn::Register {
            let registered = waker.clone();
            let (mut vault, handle) = self.lock.acquire_write();
            let ghost pre = vault.channel();
            let rest = vault.wait_recv(sheet, &mut poll, registered);
            let ghost post = vault.channel();
            handle.release_write(vault);
            wake_one(rest.wake);
            proof {
                assert(self.admits(pre) && self.admits(post));
                assert(Channel::did_wait_recv(pre, post, looked, poll, registered, rest));
                let step = sheet.steps()[1];
                assert(step.pre == pre && step.post == post);
                assert(self.is_own(step));
                assert(cloned(*waker, registered));
                assert(wake::told(rest.wake));
                assert(self.is_wait_recv(
                    sheet.steps()[1],
                    looked,
                    *waker,
                    poll.outcome(),
                    poll.token,
                ));
            }
        }
        proof {
            assert(sheet.steps()[0] == step);
            assert(Channel::did_start_recv(
                step.pre,
                step.post,
                RecvPoll::starting(*old(token)),
                looked,
                first,
            ));
        }
        assert(self.is_poll_recv(
            sheet.steps(),
            *waker,
            *old(token),
            poll.outcome(),
            poll.token,
        ));
        let (r, kept) = poll.into_outcome();
        *token = kept;
        r
    }

    /// Moves the messages to the end of `buffer`, at most `limit`, for the sole receiver.
    pub(crate) fn drain(&self, sheet: &mut Sheet<T>, buffer: &mut Vec<T>, limit: usize) -> (r:
        usize)
        requires
            self.is_blank(*old(sheet)),
            self.rules().single,
            old(sheet).is_sole(),
        ensures
            self.is_used(*old(sheet), *final(sheet)),
            r <= limit,
            final(buffer)@.len() == old(buffer)@.len() + r,
            final(buffer)@.take(old(buffer)@.len() as int) == old(buffer)@,
            self.is_drain(
                final(sheet).steps(),
                limit,
                final(buffer)@.skip(old(buffer)@.len() as int),
            ),
            self.drained(limit, final(buffer)@.skip(old(buffer)@.len() as int)),
    {
        let (mut vault, handle) = self.lock.acquire_write();
        let ghost pre = vault.channel();
        let (count, woken) = vault.drain(sheet, buffer, limit);
        let ghost post = vault.channel();
        let ghost list = woken@;
        handle.release_write(vault);
        wake_all(woken);
        proof {
            let got = buffer@.skip(old(buffer)@.len() as int);
            assert(got =~= Seq::<T>::empty() + Seq::new(
                count as nat,
                |i: int| pre.messages()[i]->0,
            ));
            assert(buffer@.take(old(buffer)@.len() as int) =~= old(buffer)@);
            assert(Channel::did_drain(pre, post, limit, count, Seq::empty(), got, list));
            assert(self.is_drain(sheet.steps(), limit, got));
        }
        count
    }

    // ------------------------------------------------------------ observation

    /// Whether the channel is closed.
    pub(crate) fn is_closed(&self) -> (r: bool)
        ensures
            self.observed_closed(r),
    {
        let handle = self.lock.acquire_read();
        let r = handle.borrow().look().is_closed();
        proof {
            let now = handle.view().channel();
            assert(call_ensures(
                RwLock::<Vault<T>, Rules>::acquire_read,
                (&*self.lock,),
                handle,
            ));
            assert(self.showed(now));
            assert(self.admits(now));
        }
        handle.release_read();
        r
    }

    /// Number of messages.
    pub(crate) fn len(&self) -> (r: usize)
        ensures
            queue::within(r as int, self.rules().bound),
            self.observed_len(r),
    {
        let handle = self.lock.acquire_read();
        let r = handle.borrow().look().len();
        proof {
            let now = handle.view().channel();
            assert(call_ensures(
                RwLock::<Vault<T>, Rules>::acquire_read,
                (&*self.lock,),
                handle,
            ));
            assert(self.showed(now));
            assert(self.admits(now));
        }
        handle.release_read();
        r
    }

    /// The capacity, `None` where there is no bound.
    pub(crate) fn capacity(&self) -> (r: Option<usize>)
        ensures
            r == self.rules().bound,
    {
        let handle = self.lock.acquire_read();
        let r = handle.borrow().look().capacity();
        handle.release_read();
        r
    }

    /// Number of senders.
    pub(crate) fn sender_count(&self) -> (r: usize)
        ensures
            self.observed_senders(r),
    {
        let handle = self.lock.acquire_read();
        let r = handle.borrow().look().sender_count();
        proof {
            let now = handle.view().channel();
            assert(call_ensures(
                RwLock::<Vault<T>, Rules>::acquire_read,
                (&*self.lock,),
                handle,
            ));
            assert(self.showed(now));
            assert(self.admits(now));
        }
        handle.release_read();
        r
    }

    /// Number of receivers.
    pub(crate) fn receiver_count(&self) -> (r: usize)
        ensures
            self.observed_receivers(r),
    {
        let handle = self.lock.acquire_read();
        let r = handle.borrow().look().receiver_count();
        proof {
            let now = handle.view().channel();
            assert(call_ensures(
                RwLock::<Vault<T>, Rules>::acquire_read,
                (&*self.lock,),
                handle,
            ));
            assert(self.showed(now));
            assert(self.admits(now));
        }
        handle.release_read();
        r
    }

    /// A snapshot of the queue.
    pub(crate) fn debug_dump(&self) -> (r: Dump)
        ensures
            self.observed_dump(r),
    {
        let handle = self.lock.acquire_read();
        let r = handle.borrow().look().debug_dump();
        proof {
            let now = handle.view().channel();
            assert(call_ensures(
                RwLock::<Vault<T>, Rules>::acquire_read,
                (&*self.lock,),
                handle,
            ));
            assert(self.showed(now));
            assert(self.admits(now));
        }
        handle.release_read();
        r
    }
}

} // verus!
