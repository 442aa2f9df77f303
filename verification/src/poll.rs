//! The course of a poll, turn by turn.
//!
//! A poll gives up the registration of the poll before it, looks, and where it finds
//! nothing to do it registers and looks again: only what it finds then decides whether it
//! sleeps or gives the registration up. Between two turns anybody else can take theirs.
//!
//! A poll that is done after it registered may have been selected by a notification that
//! it will not act on, so its last turn passes one on. A registration that an earlier poll
//! left is given up without that: this poll looks itself.
use vstd::prelude::*;

use crate::channel;
use crate::channel::Channel;
use crate::channel::RecvState;
use crate::errors::RecvError;
use crate::errors::SendError;
use crate::errors::TrySendError;
use crate::laws;
use crate::position;
use crate::queue;
use crate::waiters;
use crate::waiters::Unregistered;
use crate::waiters::WaiterList;
use crate::waiters::WaiterToken;

verus! {

/// The outcome of a poll.
#[derive(PartialEq, Eq, Clone, Copy, Debug)]
pub enum Polled<R> {
    /// The operation is done.
    Ready(R),
    /// The operation waits; the waker of the poll will be woken.
    Pending,
}

/// What a poll does next.
#[derive(PartialEq, Eq, Structural, Clone, Copy, Debug)]
pub enum Turn {
    /// Gives up the registration of an earlier poll.
    Leave,
    /// Looks.
    Look,
    /// Registers.
    Register,
    /// Looks again.
    LookAgain,
    /// Gives up the registration of this poll, and passes a notification on.
    PassOn,
    /// Nothing: the operation is done.
    Finish,
    /// Nothing: the operation waits.
    Sleep,
    /// Has itself woken, and waits: somebody else is in the middle of a step.
    AskAgain,
}

/// What a turn leaves to be done by its party when the channel is free again.
pub struct After<W> {
    /// A waker to wake.
    pub wake: Option<W>,
    /// A waker that is no longer registered.
    pub dropped: Option<W>,
}

// ------------------------------------------------------------------------ receive

/// The turn of a receive after `at`, in which it saw `seen` if it has looked. `patient`
/// says whether it looks again for a message that somebody is still writing, as
/// [`crate::backoff::Backoff::snooze_bounded`] does for a while.
pub open spec fn recv_turn_after<T>(
    at: Turn,
    seen: Option<Result<T, RecvState>>,
    patient: bool,
) -> Turn {
    match at {
        Turn::Leave => Turn::Look,
        Turn::Look => match seen {
            None => Turn::Look,
            Some(Ok(_)) => Turn::Finish,
            Some(Err(RecvState::Closed)) => Turn::Finish,
            Some(Err(_)) => Turn::Register,
        },
        Turn::Register => Turn::LookAgain,
        Turn::LookAgain => match seen {
            None => Turn::LookAgain,
            Some(Ok(_)) => Turn::PassOn,
            Some(Err(RecvState::Closed)) => Turn::PassOn,
            Some(Err(RecvState::Empty)) => Turn::Sleep,
            Some(Err(RecvState::Busy)) => if patient {
                Turn::LookAgain
            } else {
                Turn::AskAgain
            },
        },
        Turn::PassOn => Turn::Finish,
        _ => at,
    }
}

/// Decides the next turn of a receive.
pub fn next_recv_turn<T>(
    at: Turn,
    seen: &Option<Result<T, RecvState>>,
    patient: bool,
) -> (r: Turn)
    ensures
        r == recv_turn_after(at, *seen, patient),
{
    match at {
        Turn::Leave => Turn::Look,
        Turn::Look => match seen {
            None => Turn::Look,
            Some(Ok(_)) => Turn::Finish,
            Some(Err(RecvState::Closed)) => Turn::Finish,
            Some(Err(_)) => Turn::Register,
        },
        Turn::Register => Turn::LookAgain,
        Turn::LookAgain => match seen {
            None => Turn::LookAgain,
            Some(Ok(_)) => Turn::PassOn,
            Some(Err(RecvState::Closed)) => Turn::PassOn,
            Some(Err(RecvState::Empty)) => Turn::Sleep,
            Some(Err(RecvState::Busy)) => if patient {
                Turn::LookAgain
            } else {
                Turn::AskAgain
            },
        },
        Turn::PassOn => Turn::Finish,
        _ => at,
    }
}

/// A poll of a receive on its way.
pub struct RecvPoll<T> {
    /// The next turn.
    pub at: Turn,
    /// The registration.
    pub token: Option<WaiterToken>,
    /// The tail at the time of the registration.
    pub tail: usize,
    /// What the last look gave.
    pub seen: Option<Result<T, RecvState>>,
}

impl<T> RecvPoll<T> {
    /// A poll that has not begun, with the registration of an earlier one.
    pub open spec fn starting(token: Option<WaiterToken>) -> Self {
        RecvPoll { at: Turn::Leave, token, tail: 0, seen: None }
    }

    /// A poll that has not begun, with the registration of an earlier one.
    pub fn new(token: Option<WaiterToken>) -> (r: Self)
        ensures
            r == Self::starting(token),
    {
        RecvPoll { at: Turn::Leave, token, tail: 0, seen: None }
    }

    /// What a poll that has no turn left comes to.
    pub open spec fn outcome(self) -> Polled<Result<T, RecvError>> {
        if self.at is Finish {
            match self.seen {
                Some(Ok(msg)) => Polled::Ready(Ok(msg)),
                _ => Polled::Ready(Err(RecvError)),
            }
        } else {
            Polled::Pending
        }
    }

    /// What the poll comes to, and the registration that it leaves.
    pub fn into_outcome(self) -> (r: (Polled<Result<T, RecvError>>, Option<WaiterToken>))
        ensures
            r.0 == self.outcome(),
            r.1 == self.token,
    {
        let r = if self.at == Turn::Finish {
            match self.seen {
                Some(Ok(msg)) => Polled::Ready(Ok(msg)),
                _ => Polled::Ready(Err(RecvError)),
            }
        } else {
            Polled::Pending
        };
        (r, self.token)
    }
}

/// A registration was given up, if it still was one, and nothing was passed on.
pub open spec fn left<W>(
    pre: WaiterList<W>,
    post: WaiterList<W>,
    token: Option<WaiterToken>,
    dropped: Option<W>,
) -> bool {
    match token {
        Some(t) if pre.is_owner(t) => WaiterList::gave_up(
            pre,
            post,
            t,
            false,
            Unregistered { removed: dropped, forwarded: None },
        ),
        _ => post == pre && dropped is None,
    }
}

/// A registration was given up, if it still was one, and another one was made with `waker`.
pub open spec fn rejoined<W>(
    pre: WaiterList<W>,
    post: WaiterList<W>,
    token: Option<WaiterToken>,
    t: WaiterToken,
    waker: W,
    dropped: Option<W>,
) -> bool {
    &&& exists|mid: WaiterList<W>| #[trigger]
        left(pre, mid, token, dropped) && WaiterList::registered(mid, post, t, waker)
    &&& post.is_owner(t)
    &&& post.slots()[t.slot as int].state is Waiting
    &&& post.slots()[t.slot as int].waker == Some(waker)
}

impl<T, W> Channel<T, W> {
    /// What one turn of a receive does, from `p` to `q`.
    pub open spec fn did_recv_turn(
        pre: Self,
        post: Self,
        p: RecvPoll<T>,
        q: RecvPoll<T>,
        waker: Option<W>,
        patient: bool,
        after: After<W>,
    ) -> bool {
        &&& q.at == recv_turn_after(p.at, q.seen, patient)
        &&& match p.at {
            Turn::Leave => {
                &&& q.token is None && q.tail == p.tail && q.seen == p.seen
                &&& Self::did_leave_receivers(
                    pre,
                    post,
                    p.token,
                    false,
                    Unregistered { removed: after.dropped, forwarded: after.wake },
                )
            },
            Turn::Look => {
                &&& q.token == p.token && q.tail == p.tail && q.seen is Some
                &&& Self::did_receive(pre, post, q.seen->0, after.wake)
                &&& after.dropped is None
            },
            Turn::Register => {
                &&& q.token is Some && q.tail == pre.queue().tail_index() && q.seen == p.seen
                &&& waker is Some
                &&& Self::did_park_receiver(pre, post, q.token->0, waker->0)
                &&& after.wake is None && after.dropped is None
            },
            Turn::LookAgain => {
                &&& q.token == p.token && q.tail == p.tail
                &&& exists|attempt: Result<T, RecvState>| #[trigger]
                    Self::did_receive(pre, post, attempt, after.wake) && q.seen == Some(
                        post.rechecked(attempt, p.tail as int),
                    )
                &&& after.dropped is None
            },
            Turn::PassOn => {
                &&& q.token is None && q.tail == p.tail && q.seen == p.seen
                &&& Self::did_leave_receivers(
                    pre,
                    post,
                    p.token,
                    true,
                    Unregistered { removed: after.dropped, forwarded: after.wake },
                )
            },
            _ => q == p && post == pre && after.wake is None && after.dropped is None,
        }
    }

    /// Takes the next turn of a receive. A turn that registers needs a waker; `single` says
    /// whether this is the sole receiver.
    pub fn take_recv_turn(
        &mut self,
        single: bool,
        poll: &mut RecvPoll<T>,
        waker: Option<W>,
        patient: bool,
    ) -> (r: After<W>)
        requires
            old(self).wf(),
            single ==> old(self).queue().is_single() && !old(self).queue().in_transition(),
            old(poll).at is Register ==> waker is Some && old(poll).token is None,
        ensures
            final(self).wf(),
            old(self).is_settled() ==> final(self).is_settled(),
            single ==> final(self).queue().is_single() && !final(self).queue().in_transition(),
            final(self).identity() == old(self).identity(),
            final(self).bound() == old(self).bound(),
            Self::did_recv_turn(
                *old(self),
                *final(self),
                *old(poll),
                *final(poll),
                waker,
                patient,
                r,
            ),
    {
        let mut r = After { wake: None, dropped: None };
        match poll.at {
            Turn::Leave => {
                let gone = self.leave_receivers(&mut poll.token, false);
                r = After { wake: gone.forwarded, dropped: gone.removed };
            },
            Turn::Look => {
                let (seen, wake) = self.attempt(single);
                poll.seen = Some(seen);
                r = After { wake, dropped: None };
            },
            Turn::Register => {
                match waker {
                    Some(waker) => {
                        poll.tail = self.park_receiver(&mut poll.token, waker);
                    },
                    None => {},
                }
            },
            Turn::LookAgain => {
                let (attempt, wake) = self.attempt(single);
                let ghost found = attempt;
                poll.seen = Some(self.recheck(attempt, poll.tail));
                r = After { wake, dropped: None };
                assert(Self::did_receive(*old(self), *self, found, r.wake));
            },
            Turn::PassOn => {
                let gone = self.leave_receivers(&mut poll.token, true);
                r = After { wake: gone.forwarded, dropped: gone.removed };
            },
            _ => {},
        }
        poll.at = next_recv_turn(poll.at, &poll.seen, patient);
        r
    }

    /// What the first two turns of a receive do: it gives up a registration, and looks.
    pub open spec fn did_start_recv(
        pre: Self,
        post: Self,
        p: RecvPoll<T>,
        q: RecvPoll<T>,
        after: After<W>,
    ) -> bool {
        exists|mid: Self, h: RecvPoll<T>|
            {
                &&& p.at is Leave
                &&& #[trigger] Self::did_recv_turn(
                    pre,
                    mid,
                    p,
                    h,
                    None,
                    true,
                    After { wake: None, dropped: after.dropped },
                )
                &&& Self::did_recv_turn(
                    mid,
                    post,
                    h,
                    q,
                    None,
                    true,
                    After { wake: after.wake, dropped: None },
                )
            }
    }

    /// Takes the first two turns of a receive.
    pub fn start_recv(&mut self, single: bool, poll: &mut RecvPoll<T>) -> (r: After<W>)
        requires
            old(self).wf(),
            old(self).is_settled(),
            single ==> old(self).queue().is_single(),
            old(poll).at is Leave,
        ensures
            final(self).wf(),
            final(self).is_settled(),
            single ==> final(self).queue().is_single(),
            final(self).identity() == old(self).identity(),
            final(self).bound() == old(self).bound(),
            Self::did_start_recv(*old(self), *final(self), *old(poll), *final(poll), r),
            final(poll).at is Finish || final(poll).at is Register,
            final(poll).token is None,
    {
        let first = self.take_recv_turn(single, poll, None, true);
        let ghost mid = *self;
        let ghost h = *poll;
        let second = self.take_recv_turn(single, poll, None, true);
        let r = After { wake: second.wake, dropped: first.dropped };
        assert(Self::did_recv_turn(
            *old(self),
            mid,
            *old(poll),
            h,
            None,
            true,
            After { wake: None, dropped: r.dropped },
        ));
        r
    }

    /// What the other turns of a receive do where nobody steps in: it registers and looks
    /// again, and keeps the registration or gives it up.
    pub open spec fn did_wait_recv(
        pre: Self,
        post: Self,
        p: RecvPoll<T>,
        q: RecvPoll<T>,
        waker: W,
        after: After<W>,
    ) -> bool {
        exists|reg: Self, h: RecvPoll<T>, looked: Self, g: RecvPoll<T>|
            {
                &&& p.at is Register
                &&& #[trigger] Self::did_recv_turn(
                    pre,
                    reg,
                    p,
                    h,
                    Some(waker),
                    true,
                    After { wake: None, dropped: None },
                )
                &&& #[trigger] Self::did_recv_turn(
                    reg,
                    looked,
                    h,
                    g,
                    None,
                    true,
                    After { wake: after.wake, dropped: None },
                )
                &&& if g.at is PassOn {
                    Self::did_recv_turn(
                        looked,
                        post,
                        g,
                        q,
                        None,
                        true,
                        After { wake: None, dropped: after.dropped },
                    )
                } else {
                    q == g && post == looked && after.dropped is None
                }
            }
    }

    /// Takes the turns of a receive from its registration on, with nobody in between.
    pub fn wait_recv(&mut self, single: bool, poll: &mut RecvPoll<T>, waker: W) -> (r: After<W>)
        requires
            old(self).wf(),
            old(self).is_settled(),
            single ==> old(self).queue().is_single(),
            old(poll).at is Register,
            old(poll).token is None,
        ensures
            final(self).wf(),
            final(self).is_settled(),
            single ==> final(self).queue().is_single(),
            final(self).identity() == old(self).identity(),
            final(self).bound() == old(self).bound(),
            Self::did_wait_recv(*old(self), *final(self), *old(poll), *final(poll), waker, r),
            final(poll).at is Finish || final(poll).at is Sleep,
            final(poll).token is Some <==> final(poll).at is Sleep,
            final(poll).token matches Some(t) ==> final(self).recv_waiters().is_owner(t),
    {
        let ghost pre = *self;
        let _ = self.take_recv_turn(single, poll, Some(waker), true);
        let ghost reg = *self;
        let ghost h = *poll;
        let ghost t = h.token->0;
        proof {
            WaiterList::lemma_registered(pre.recv_waiters(), reg.recv_waiters(), t, waker);
            reg.lemma_ready();
            reg.queue().lemma_ends();
            position::lemma_message_positions(reg.queue().head_index(), reg.queue().tail_index());
        }
        let second = self.take_recv_turn(single, poll, None, true);
        let ghost looked = *self;
        let ghost g = *poll;
        let mut r = After { wake: second.wake, dropped: None };
        if poll.at == Turn::PassOn {
            let third = self.take_recv_turn(single, poll, None, true);
            r = After { wake: r.wake, dropped: third.dropped };
            assert(third.wake is None);
            assert(Self::did_recv_turn(
                looked,
                *self,
                g,
                *poll,
                None,
                true,
                After { wake: None, dropped: r.dropped },
            ));
        }
        proof {
            assert(Self::did_recv_turn(
                pre,
                reg,
                *old(poll),
                h,
                Some(waker),
                true,
                After { wake: None, dropped: None },
            ));
            assert(Self::did_recv_turn(
                reg,
                looked,
                h,
                g,
                None,
                true,
                After { wake: r.wake, dropped: None },
            ));
        }
        r
    }
}

// --------------------------------------------------------------------------- send

/// What a look of a send gave.
#[derive(PartialEq, Eq, Structural, Clone, Copy, Debug)]
pub enum SendSeen {
    /// The message was sent.
    Sent,
    /// The channel was full.
    Full,
    /// The channel was closed.
    Closed,
}

/// What a look of a send gave, from the result of sending.
pub open spec fn send_seen<T>(r: Result<(), TrySendError<T>>) -> SendSeen {
    match r {
        Ok(_) => SendSeen::Sent,
        Err(TrySendError::Full(_)) => SendSeen::Full,
        Err(TrySendError::Closed(_)) => SendSeen::Closed,
    }
}

/// The turn of a send after `at`, in which it saw `seen` if it has looked.
pub open spec fn send_turn_after(at: Turn, seen: Option<SendSeen>) -> Turn {
    match at {
        Turn::Leave => Turn::Look,
        Turn::Look => match seen {
            None => Turn::Look,
            Some(SendSeen::Full) => Turn::Register,
            Some(_) => Turn::Finish,
        },
        Turn::Register => Turn::LookAgain,
        Turn::LookAgain => match seen {
            None => Turn::LookAgain,
            Some(SendSeen::Full) => Turn::Sleep,
            Some(_) => Turn::PassOn,
        },
        Turn::PassOn => Turn::Finish,
        _ => at,
    }
}

/// Decides the next turn of a send.
pub fn next_send_turn(at: Turn, seen: Option<SendSeen>) -> (r: Turn)
    ensures
        r == send_turn_after(at, seen),
{
    match at {
        Turn::Leave => Turn::Look,
        Turn::Look => match seen {
            None => Turn::Look,
            Some(SendSeen::Full) => Turn::Register,
            Some(_) => Turn::Finish,
        },
        Turn::Register => Turn::LookAgain,
        Turn::LookAgain => match seen {
            None => Turn::LookAgain,
            Some(SendSeen::Full) => Turn::Sleep,
            Some(_) => Turn::PassOn,
        },
        Turn::PassOn => Turn::Finish,
        _ => at,
    }
}

/// A poll of a send on its way.
pub struct SendPoll<T> {
    /// The next turn.
    pub at: Turn,
    /// The registration.
    pub token: Option<WaiterToken>,
    /// The message, until it is sent.
    pub msg: Option<T>,
    /// What the last look gave.
    pub seen: Option<SendSeen>,
}

impl<T> SendPoll<T> {
    /// A poll that has not begun, with the registration of an earlier one.
    pub open spec fn starting(token: Option<WaiterToken>, msg: T) -> Self {
        SendPoll { at: Turn::Leave, token, msg: Some(msg), seen: None }
    }

    /// A poll that has not begun, with the registration of an earlier one.
    pub fn new(token: Option<WaiterToken>, msg: T) -> (r: Self)
        ensures
            r == Self::starting(token, msg),
    {
        SendPoll { at: Turn::Leave, token, msg: Some(msg), seen: None }
    }

    /// What a poll that has no turn left comes to.
    pub open spec fn outcome(self) -> Polled<Result<(), SendError<T>>> {
        if self.at is Finish {
            match self.msg {
                None => Polled::Ready(Ok(())),
                Some(msg) => Polled::Ready(Err(SendError(msg))),
            }
        } else {
            Polled::Pending
        }
    }

    /// The message that a poll without turns leaves to the next one.
    pub open spec fn rest(self) -> Option<T> {
        if self.at is Finish {
            None
        } else {
            self.msg
        }
    }

    /// What the poll comes to, and the registration and message that it leaves.
    pub fn into_outcome(self) -> (r: (
        Polled<Result<(), SendError<T>>>,
        Option<WaiterToken>,
        Option<T>,
    ))
        ensures
            r.0 == self.outcome(),
            r.1 == self.token,
            r.2 == self.rest(),
    {
        if self.at == Turn::Finish {
            let r = match self.msg {
                None => Polled::Ready(Ok(())),
                Some(msg) => Polled::Ready(Err(SendError(msg))),
            };
            (r, self.token, None)
        } else {
            (Polled::Pending, self.token, self.msg)
        }
    }
}

impl<T, W> Channel<T, W> {
    /// What a look of a send does, from `p` to `q`.
    pub open spec fn did_look_to_send(
        pre: Self,
        post: Self,
        p: SendPoll<T>,
        q: SendPoll<T>,
        wake: Option<W>,
    ) -> bool {
        exists|r: Result<(), TrySendError<T>>|
            {
                &&& p.msg is Some
                &&& #[trigger] Self::did_offer(pre, post, p.msg->0, r, wake)
                &&& q.seen == Some(send_seen(r))
                &&& q.msg == (if r is Ok {
                    None
                } else {
                    p.msg
                })
            }
    }

    /// What one turn of a send does, from `p` to `q`.
    pub open spec fn did_send_turn(
        pre: Self,
        post: Self,
        p: SendPoll<T>,
        q: SendPoll<T>,
        waker: Option<W>,
        after: After<W>,
    ) -> bool {
        &&& q.at == send_turn_after(p.at, q.seen)
        &&& match p.at {
            Turn::Leave => {
                &&& q.token is None && q.msg == p.msg && q.seen == p.seen
                &&& Self::did_leave_senders(
                    pre,
                    post,
                    p.token,
                    false,
                    Unregistered { removed: after.dropped, forwarded: after.wake },
                )
            },
            Turn::Look => {
                &&& q.token == p.token
                &&& Self::did_look_to_send(pre, post, p, q, after.wake)
                &&& after.dropped is None
            },
            Turn::Register => {
                &&& q.token is Some && q.msg == p.msg && q.seen == p.seen
                &&& waker is Some
                &&& Self::did_park_sender(pre, post, q.token->0, waker->0)
                &&& after.wake is None && after.dropped is None
            },
            Turn::LookAgain => {
                &&& q.token == p.token
                &&& Self::did_look_to_send(pre, post, p, q, after.wake)
                &&& after.dropped is None
            },
            Turn::PassOn => {
                &&& q.token is None && q.msg == p.msg && q.seen == p.seen
                &&& Self::did_leave_senders(
                    pre,
                    post,
                    p.token,
                    true,
                    Unregistered { removed: after.dropped, forwarded: after.wake },
                )
            },
            _ => q == p && post == pre && after.wake is None && after.dropped is None,
        }
    }

    /// Looks whether the message of a poll can be sent.
    fn look_to_send(&mut self, poll: &mut SendPoll<T>) -> (r: Option<W>)
        requires
            old(self).wf(),
            old(self).queue().is_linked(),
            old(poll).msg is Some,
        ensures
            final(self).wf(),
            final(self).queue().is_linked(),
            old(self).is_settled() ==> final(self).is_settled(),
            old(self).queue().is_single() ==> final(self).queue().is_single(),
            Self::did_look_to_send(*old(self), *final(self), *old(poll), *final(poll), r),
            final(poll).at == old(poll).at,
            final(poll).token == old(poll).token,
    {
        let msg = poll.msg.take().unwrap();
        let ghost asked = msg;
        let (sent, wake) = self.offer(msg);
        assert(Self::did_offer(*old(self), *self, asked, sent, wake));
        match sent {
            Ok(_) => {
                poll.seen = Some(SendSeen::Sent);
            },
            Err(TrySendError::Full(msg)) => {
                poll.seen = Some(SendSeen::Full);
                poll.msg = Some(msg);
            },
            Err(TrySendError::Closed(msg)) => {
                poll.seen = Some(SendSeen::Closed);
                poll.msg = Some(msg);
            },
        }
        wake
    }

    /// Takes the next turn of a send. A turn that registers needs a waker.
    pub fn take_send_turn(&mut self, poll: &mut SendPoll<T>, waker: Option<W>) -> (r: After<W>)
        requires
            old(self).wf(),
            old(self).queue().is_linked(),
            old(poll).at is Look || old(poll).at is LookAgain ==> old(poll).msg is Some,
            old(poll).at is Register ==> waker is Some && old(poll).token is None,
        ensures
            final(self).wf(),
            final(self).queue().is_linked(),
            old(self).is_settled() ==> final(self).is_settled(),
            old(self).queue().is_single() ==> final(self).queue().is_single(),
            final(self).identity() == old(self).identity(),
            final(self).bound() == old(self).bound(),
            Self::did_send_turn(*old(self), *final(self), *old(poll), *final(poll), waker, r),
    {
        let mut r = After { wake: None, dropped: None };
        match poll.at {
            Turn::Leave => {
                let gone = self.leave_senders(&mut poll.token, false);
                r = After { wake: gone.forwarded, dropped: gone.removed };
            },
            Turn::Look => {
                r = After { wake: self.look_to_send(poll), dropped: None };
            },
            Turn::Register => {
                match waker {
                    Some(waker) => {
                        self.park_sender(&mut poll.token, waker);
                    },
                    None => {},
                }
            },
            Turn::LookAgain => {
                r = After { wake: self.look_to_send(poll), dropped: None };
            },
            Turn::PassOn => {
                let gone = self.leave_senders(&mut poll.token, true);
                r = After { wake: gone.forwarded, dropped: gone.removed };
            },
            _ => {},
        }
        poll.at = next_send_turn(poll.at, poll.seen);
        r
    }

    /// What the first two turns of a send do: it gives up a registration, and looks.
    pub open spec fn did_start_send(
        pre: Self,
        post: Self,
        p: SendPoll<T>,
        q: SendPoll<T>,
        after: After<W>,
    ) -> bool {
        exists|mid: Self, h: SendPoll<T>|
            {
                &&& p.at is Leave
                &&& #[trigger] Self::did_send_turn(
                    pre,
                    mid,
                    p,
                    h,
                    None,
                    After { wake: None, dropped: after.dropped },
                )
                &&& Self::did_send_turn(
                    mid,
                    post,
                    h,
                    q,
                    None,
                    After { wake: after.wake, dropped: None },
                )
            }
    }

    /// Takes the first two turns of a send.
    pub fn start_send(&mut self, poll: &mut SendPoll<T>) -> (r: After<W>)
        requires
            old(self).wf(),
            old(self).is_settled(),
            old(poll).at is Leave,
            old(poll).msg is Some,
        ensures
            final(self).wf(),
            final(self).is_settled(),
            old(self).queue().is_single() ==> final(self).queue().is_single(),
            final(self).identity() == old(self).identity(),
            final(self).bound() == old(self).bound(),
            Self::did_start_send(*old(self), *final(self), *old(poll), *final(poll), r),
            final(poll).at is Finish || final(poll).at is Register,
            final(poll).token is None,
            final(poll).at is Register ==> final(poll).msg == old(poll).msg,
    {
        let first = self.take_send_turn(poll, None);
        let ghost mid = *self;
        let ghost h = *poll;
        let second = self.take_send_turn(poll, None);
        let r = After { wake: second.wake, dropped: first.dropped };
        assert(Self::did_send_turn(
            *old(self),
            mid,
            *old(poll),
            h,
            None,
            After { wake: None, dropped: r.dropped },
        ));
        r
    }

    /// What the other turns of a send do where nobody steps in: it registers and looks
    /// again, and keeps the registration or gives it up.
    pub open spec fn did_wait_send(
        pre: Self,
        post: Self,
        p: SendPoll<T>,
        q: SendPoll<T>,
        waker: W,
        after: After<W>,
    ) -> bool {
        exists|reg: Self, h: SendPoll<T>, looked: Self, g: SendPoll<T>|
            {
                &&& p.at is Register
                &&& #[trigger] Self::did_send_turn(
                    pre,
                    reg,
                    p,
                    h,
                    Some(waker),
                    After { wake: None, dropped: None },
                )
                &&& #[trigger] Self::did_send_turn(
                    reg,
                    looked,
                    h,
                    g,
                    None,
                    After { wake: after.wake, dropped: None },
                )
                &&& if g.at is PassOn {
                    Self::did_send_turn(
                        looked,
                        post,
                        g,
                        q,
                        None,
                        After { wake: None, dropped: after.dropped },
                    )
                } else {
                    q == g && post == looked && after.dropped is None
                }
            }
    }

    /// Takes the turns of a send from its registration on, with nobody in between.
    pub fn wait_send(&mut self, poll: &mut SendPoll<T>, waker: W) -> (r: After<W>)
        requires
            old(self).wf(),
            old(self).is_settled(),
            old(poll).at is Register,
            old(poll).token is None,
            old(poll).msg is Some,
        ensures
            final(self).wf(),
            final(self).is_settled(),
            old(self).queue().is_single() ==> final(self).queue().is_single(),
            final(self).identity() == old(self).identity(),
            final(self).bound() == old(self).bound(),
            Self::did_wait_send(*old(self), *final(self), *old(poll), *final(poll), waker, r),
            final(poll).at is Finish || final(poll).at is Sleep,
            final(poll).token is Some <==> final(poll).at is Sleep,
            final(poll).token matches Some(t) ==> final(self).send_waiters().is_owner(t),
            final(poll).msg is Some ==> final(poll).msg == old(poll).msg,
            final(poll).at is Sleep ==> final(poll).msg is Some,
    {
        let ghost pre = *self;
        let _ = self.take_send_turn(poll, Some(waker));
        let ghost reg = *self;
        let ghost h = *poll;
        let ghost t = h.token->0;
        proof {
            WaiterList::lemma_registered(pre.send_waiters(), reg.send_waiters(), t, waker);
        }
        let second = self.take_send_turn(poll, None);
        let ghost looked = *self;
        let ghost g = *poll;
        let mut r = After { wake: second.wake, dropped: None };
        if poll.at == Turn::PassOn {
            let third = self.take_send_turn(poll, None);
            r = After { wake: r.wake, dropped: third.dropped };
            assert(third.wake is None);
            assert(Self::did_send_turn(
                looked,
                *self,
                g,
                *poll,
                None,
                After { wake: None, dropped: r.dropped },
            ));
        }
        proof {
            assert(Self::did_send_turn(
                pre,
                reg,
                *old(poll),
                h,
                Some(waker),
                After { wake: None, dropped: None },
            ));
            assert(Self::did_send_turn(
                reg,
                looked,
                h,
                g,
                None,
                After { wake: r.wake, dropped: None },
            ));
        }
        r
    }
}

// ------------------------------------------------------------- undisturbed polls

impl<T, W> Channel<T, W> {
    /// Nothing but messages and waiting parties is other than in `pre`.
    pub open spec fn same_channel(self, pre: Self) -> bool {
        &&& self.identity() == pre.identity()
        &&& self.bound() == pre.bound()
        &&& self.closed() == pre.closed()
        &&& self.senders() == pre.senders()
        &&& self.receivers() == pre.receivers()
    }

    /// What a poll of a receive does where nobody steps in. It gives up the registration
    /// `before`; if there is a message it takes the oldest, if there is none and the channel
    /// is closed it says so, and otherwise it registers `waker` and waits.
    pub open spec fn did_poll_recv(
        pre: Self,
        post: Self,
        before: Option<WaiterToken>,
        waker: W,
        r: Polled<Result<T, RecvError>>,
        kept: Option<WaiterToken>,
        after: After<W>,
    ) -> bool {
        &&& post.same_channel(pre)
        &&& post.queue().tail_index() == pre.queue().tail_index()
        &&& if pre.messages().len() > 0 {
            &&& pre.messages()[0] is Some
            &&& r == Polled::Ready(Ok::<T, RecvError>(pre.messages()[0]->0))
            &&& kept is None
            &&& post.messages() == pre.messages().drop_first()
            &&& left(pre.recv_waiters(), post.recv_waiters(), before, after.dropped)
            &&& pre.bound() is Some ==> channel::woke_one(
                pre.send_waiters(),
                post.send_waiters(),
                after.wake,
            )
            &&& pre.bound() is None ==> after.wake is None && post.send_waiters()
                == pre.send_waiters()
        } else {
            &&& post.queue() == pre.queue()
            &&& post.send_waiters() == pre.send_waiters()
            &&& after.wake is None
            &&& if pre.closed() {
                &&& r == Polled::Ready(Err::<T, RecvError>(RecvError))
                &&& kept is None
                &&& left(pre.recv_waiters(), post.recv_waiters(), before, after.dropped)
            } else {
                &&& r is Pending
                &&& kept is Some
                &&& rejoined(
                    pre.recv_waiters(),
                    post.recv_waiters(),
                    before,
                    kept->0,
                    waker,
                    after.dropped,
                )
            }
        }
    }

    /// What a poll of a send does where nobody steps in. It gives up the registration
    /// `before`; if the channel is closed it hands the message back, if there is room it
    /// sends the message, and otherwise it registers `waker` and waits.
    pub open spec fn did_poll_send(
        pre: Self,
        post: Self,
        msg: T,
        before: Option<WaiterToken>,
        waker: W,
        r: Polled<Result<(), SendError<T>>>,
        kept: Option<WaiterToken>,
        after: After<W>,
    ) -> bool {
        &&& post.same_channel(pre)
        &&& post.queue().head_index() == pre.queue().head_index()
        &&& post.queue().tail_index() <= pre.queue().tail_index() + 2
        &&& if pre.closed() {
            &&& r == Polled::Ready(Err::<(), SendError<T>>(SendError(msg)))
            &&& kept is None
            &&& after.wake is None
            &&& post.queue() == pre.queue()
            &&& post.recv_waiters() == pre.recv_waiters()
            &&& left(pre.send_waiters(), post.send_waiters(), before, after.dropped)
        } else if pre.queue().has_room() && queue::leaves_room(
            pre.messages().len() as int,
            pre.bound(),
        ) {
            &&& r matches Polled::Ready(Ok(_))
            &&& kept is None
            &&& post.messages() == pre.messages().push(Some(msg))
            &&& channel::woke_one(pre.recv_waiters(), post.recv_waiters(), after.wake)
            &&& left(pre.send_waiters(), post.send_waiters(), before, after.dropped)
        } else {
            &&& r is Pending
            &&& kept is Some
            &&& after.wake is None
            &&& post.messages() == pre.messages()
            &&& post.recv_waiters() == pre.recv_waiters()
            &&& rejoined(
                pre.send_waiters(),
                post.send_waiters(),
                before,
                kept->0,
                waker,
                after.dropped,
            )
        }
    }

    /// A poll of a receive that nobody disturbs, from its start to its end. `single` says
    /// whether this is the sole receiver.
    pub fn poll_recv(&mut self, single: bool, token: &mut Option<WaiterToken>, waker: W) -> (r: (
        Polled<Result<T, RecvError>>,
        After<W>,
    ))
        requires
            old(self).wf(),
            old(self).is_settled(),
            single ==> old(self).queue().is_single(),
        ensures
            final(self).wf(),
            final(self).is_settled(),
            single ==> final(self).queue().is_single(),
            Self::did_poll_recv(
                *old(self),
                *final(self),
                *old(token),
                waker,
                r.0,
                *final(token),
                r.1,
            ),
    {
        let ghost pre = *self;
        let mut poll = RecvPoll::new(token.take());
        let first = self.start_recv(single, &mut poll);
        let ghost mid = *self;
        let ghost looked = poll;
        if poll.at == Turn::Register {
            let _ = self.wait_recv(single, &mut poll, waker);
        }
        proof {
            laws::law_an_undisturbed_receive(
                pre,
                mid,
                *self,
                *old(token),
                looked,
                poll,
                waker,
                first,
            );
        }
        let (r, kept) = poll.into_outcome();
        *token = kept;
        (r, first)
    }

    /// A poll of a send that nobody disturbs, from its start to its end.
    pub fn poll_send(&mut self, msg: T, token: &mut Option<WaiterToken>, waker: W) -> (r: (
        Polled<Result<(), SendError<T>>>,
        Option<T>,
        After<W>,
    ))
        requires
            old(self).wf(),
            old(self).is_settled(),
        ensures
            final(self).wf(),
            final(self).is_settled(),
            old(self).queue().is_single() ==> final(self).queue().is_single(),
            Self::did_poll_send(
                *old(self),
                *final(self),
                msg,
                *old(token),
                waker,
                r.0,
                *final(token),
                r.2,
            ),
            r.1 == (if r.0 is Pending {
                Some(msg)
            } else {
                None
            }),
    {
        let ghost pre = *self;
        let ghost asked = msg;
        let mut poll = SendPoll::new(token.take(), msg);
        let first = self.start_send(&mut poll);
        let ghost mid = *self;
        let ghost looked = poll;
        if poll.at == Turn::Register {
            let _ = self.wait_send(&mut poll, waker);
        }
        proof {
            laws::law_an_undisturbed_send(
                pre,
                mid,
                *self,
                asked,
                *old(token),
                looked,
                poll,
                waker,
                first,
            );
        }
        let (r, kept, rest) = poll.into_outcome();
        *token = kept;
        (r, rest, first)
    }

    /// What a poll of a receive of up to `limit` messages does where nobody steps in.
    /// `awaiting` says whether an earlier poll of it waits; `held` and `holds` are what is in
    /// the buffer before and after.
    pub open spec fn did_poll_recv_many(
        pre: Self,
        post: Self,
        limit: usize,
        awaiting: bool,
        before: Option<WaiterToken>,
        waker: W,
        r: Polled<Result<usize, RecvError>>,
        held: Seq<T>,
        holds: Seq<T>,
        kept: Option<WaiterToken>,
        woken: Seq<W>,
        dropped: Option<W>,
    ) -> bool {
        let n = channel::at_most(limit as nat, pre.messages().len());
        &&& post.same_channel(pre)
        &&& post.queue().tail_index() == pre.queue().tail_index()
        &&& holds == held + Seq::new(n, |i: int| pre.messages()[i]->0)
        &&& post.messages() == pre.messages().skip(n as int)
        &&& pre.bound() is None ==> woken.len() == 0 && post.send_waiters() == pre.send_waiters()
        &&& pre.bound() is Some ==> channel::woke_many(
            pre.send_waiters(),
            post.send_waiters(),
            channel::at_most(n, pre.send_waiters().pending()),
            woken,
        )
        &&& if limit == 0 || (n > 0 && !awaiting) {
            &&& r == Polled::Ready(Ok::<usize, RecvError>(n as usize))
            &&& kept == before
            &&& post.recv_waiters() == pre.recv_waiters()
            &&& dropped is None
        } else if n > 0 {
            &&& r == Polled::Ready(Ok::<usize, RecvError>(n as usize))
            &&& kept is None
            &&& left(pre.recv_waiters(), post.recv_waiters(), before, dropped)
        } else if pre.closed() {
            &&& r == Polled::Ready(Err::<usize, RecvError>(RecvError))
            &&& kept is None
            &&& left(pre.recv_waiters(), post.recv_waiters(), before, dropped)
        } else {
            &&& r is Pending
            &&& kept is Some
            &&& rejoined(
                pre.recv_waiters(),
                post.recv_waiters(),
                before,
                kept->0,
                waker,
                dropped,
            )
        }
    }

    /// A poll of a receive of up to `limit` messages, for the sole receiver, that nobody
    /// disturbs. It appends what is ready to `buffer`, and waits only where there is
    /// nothing. Returns the wakers to wake and one that is no longer registered.
    pub fn poll_recv_many(
        &mut self,
        buffer: &mut Vec<T>,
        limit: usize,
        awaiting: bool,
        token: &mut Option<WaiterToken>,
        waker: W,
    ) -> (r: (Polled<Result<usize, RecvError>>, Vec<W>, Option<W>))
        requires
            old(self).wf(),
            old(self).is_settled(),
            old(self).queue().is_single(),
        ensures
            final(self).wf(),
            final(self).is_settled(),
            final(self).queue().is_single(),
            Self::did_poll_recv_many(
                *old(self),
                *final(self),
                limit,
                awaiting,
                *old(token),
                waker,
                r.0,
                old(buffer)@,
                final(buffer)@,
                *final(token),
                r.1@,
                r.2,
            ),
    {
        let ghost pre = *self;
        let ghost old_buffer = buffer@;
        let ghost list = pre.send_waiters();
        let mut woken: Vec<W> = Vec::new();
        proof {
            assert(old_buffer =~= old_buffer + Seq::new(0, |i: int| pre.messages()[i]->0));
            assert(pre.messages().skip(0) =~= pre.messages());
            assert(waiters::woken(list.slots(), list.notify_cursor(), 0) =~= Seq::empty());
        }
        if limit == 0 {
            return (Polled::Ready(Ok(0)), woken, None);
        }
        if !awaiting {
            let (count, wakers) = self.drain(buffer, limit);
            if count > 0 {
                return (Polled::Ready(Ok(count)), wakers, None);
            }
        }
        let ghost mid = *self;
        proof {
            pre.lemma_ready();
            assert(mid.messages() =~= pre.messages());
            assert(buffer@ =~= old_buffer);
            if pre.messages().len() > 0 {
                assert(pre.messages()[0] is Some);
            }
        }
        let (first, after) = self.poll_recv(true, token, waker);
        match first {
            Polled::Pending => (Polled::Pending, woken, after.dropped),
            Polled::Ready(Err(e)) => (Polled::Ready(Err(e)), woken, after.dropped),
            Polled::Ready(Ok(msg)) => {
                let ghost one = *self;
                let ghost one_list = one.send_waiters();
                buffer.push(msg);
                let (more, mut wakers) = self.drain(buffer, limit - 1);
                let ghost others = wakers@;
                match after.wake {
                    Some(waker) => woken.push(waker),
                    None => {},
                }
                woken.append(&mut wakers);
                proof {
                    let n = (more + 1) as nat;
                    assert forall|i: int| 0 <= i < one.messages().len() implies #[trigger]
                        one.messages()[i] == pre.messages()[i + 1] by {}
                    assert(buffer@ =~= old_buffer + Seq::new(
                        n,
                        |i: int| pre.messages()[i]->0,
                    ));
                    assert(self.messages() =~= pre.messages().skip(n as int));
                    if pre.bound() is Some {
                        list.lemma_settled();
                        one_list.lemma_settled();
                        list.lemma_nobody_selected();
                        list.lemma_selected();
                        let k = channel::at_most(1, list.pending());
                        waiters::lemma_one_of_many(list.slots(), list.notify_cursor());
                        waiters::lemma_many_selected(list.slots(), list.notify_cursor(), k);
                        let m = channel::at_most(more as nat, one_list.pending());
                        waiters::lemma_in_a_row(list.slots(), list.notify_cursor(), k, m);
                        assert(k + m == channel::at_most(n, list.pending()));
                        assert(woken@ =~= waiters::woken(list.slots(), list.notify_cursor(), k)
                            + others);
                    } else {
                        assert(woken@ =~= Seq::empty());
                    }
                }
                (Polled::Ready(Ok(more + 1)), woken, after.dropped)
            },
        }
    }
}

} // verus!
