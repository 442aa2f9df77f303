//! The state of a channel and every step that can be taken on it.
//!
//! A channel is a queue of messages, a flag that says whether it is closed, the numbers
//! of its handles, and one list of waiting parties for each side. The steps here say
//! exactly what they do to all of it. They wake nobody themselves: a step that selects
//! waiting parties returns their wakers, and the caller wakes them when it is done with
//! the channel.
//!
//! A party that wants to wait takes several steps, and others can take theirs in
//! between: it looks, registers, looks again, and only if there is still nothing to do
//! does it sleep. [`Channel::receivers_attended`] and [`Channel::senders_attended`] say
//! why nobody sleeps for ever on a channel that has something for them, and each step
//! says how it keeps them.
use vstd::prelude::*;

use crate::errors::TryRecvError;
use crate::errors::TrySendError;
use crate::position;
use crate::queue;
use crate::queue::Dump;
use crate::queue::Queue;
use crate::ring;
use crate::waiters;
use crate::waiters::Unregistered;
use crate::waiters::WaiterList;
use crate::waiters::WaiterToken;

verus! {

/// Why a look at the queue gave no message.
#[derive(PartialEq, Eq, Structural, Clone, Copy, Debug)]
pub enum RecvState {
    /// There is no message to take, and the channel is open.
    Empty,
    /// There is no message left, and the channel is closed.
    Closed,
    /// A message is still being written, or the head is being moved: there will be a
    /// message, though the channel may be closed.
    Busy,
}

/// The state of a channel. `W` is what wakes a waiting party.
pub struct Channel<T, W> {
    queue: Queue<T>,
    closed: bool,
    waiting_receivers: usize,
    waiting_senders: usize,
    senders: usize,
    receivers: usize,
    next_waiter_id: u64,
    recv_waiters: WaiterList<W>,
    send_waiters: WaiterList<W>,
    identity: Ghost<int>,
}

/// One waiting party of `pre` was selected and `r` is its waker, or there is none.
pub open spec fn woke_one<W>(pre: WaiterList<W>, post: WaiterList<W>, r: Option<W>) -> bool {
    match waiters::selected(pre.slots(), pre.notify_cursor()) {
        Some(j) => {
            &&& r == pre.slots()[j].waker
            &&& r is Some
            &&& post.slots() == waiters::after_wake(pre.slots(), j)
            &&& post.notify_cursor() == ring::next(pre.slots().len() as int, j)
            &&& post.register_cursor() == pre.register_cursor()
            &&& post.closing() == pre.closing()
        },
        None => r is None && post == pre,
    }
}

/// Up to `k` waiting parties of `pre` were selected and `r` are their wakers.
pub open spec fn woke_many<W>(
    pre: WaiterList<W>,
    post: WaiterList<W>,
    k: nat,
    r: Seq<W>,
) -> bool {
    &&& r == waiters::woken(pre.slots(), pre.notify_cursor(), k)
    &&& post.slots() == waiters::slots_after(pre.slots(), pre.notify_cursor(), k)
    &&& post.notify_cursor() == waiters::cursor_after(pre.slots(), pre.notify_cursor(), k)
    &&& post.register_cursor() == pre.register_cursor()
    &&& post.closing() == pre.closing()
}

/// The smaller of two numbers.
pub open spec fn at_most(n: nat, limit: nat) -> nat {
    if n <= limit {
        n
    } else {
        limit
    }
}

/// Every waiting party of `pre` was selected, for the close of the channel.
pub open spec fn told_all<W>(pre: WaiterList<W>, post: WaiterList<W>) -> bool {
    &&& post.slots() == waiters::slots_after(pre.slots(), pre.notify_cursor(), pre.waiting())
    &&& post.notify_cursor() == waiters::cursor_after(
        pre.slots(),
        pre.notify_cursor(),
        pre.waiting(),
    )
    &&& post.register_cursor() == pre.register_cursor()
    &&& post.closing()
}

impl<T, W> Channel<T, W> {
    // ---------------------------------------------------------------- model

    /// The queue.
    pub closed spec fn queue(self) -> Queue<T> {
        self.queue
    }

    /// The messages, oldest first; nothing stands for one that is still being written.
    pub open spec fn messages(self) -> Seq<Option<T>> {
        self.queue().cells()
    }

    /// Number of messages that fit, or `None` without a bound.
    pub open spec fn bound(self) -> Option<usize> {
        self.queue().bound()
    }

    /// Whether the channel is closed.
    pub closed spec fn closed(self) -> bool {
        self.closed
    }

    /// Number of senders.
    pub closed spec fn senders(self) -> usize {
        self.senders
    }

    /// Number of receivers.
    pub closed spec fn receivers(self) -> usize {
        self.receivers
    }

    /// Number of the next registration.
    pub closed spec fn next_waiter_id(self) -> u64 {
        self.next_waiter_id
    }

    /// A mark that every step keeps. Nothing says what it is, so that no other channel can be
    /// shown to bear it.
    pub closed spec fn identity(self) -> int {
        self.identity@
    }

    /// The receivers that wait for a message.
    pub closed spec fn recv_waiters(self) -> WaiterList<W> {
        self.recv_waiters
    }

    /// The senders that wait for room.
    pub closed spec fn send_waiters(self) -> WaiterList<W> {
        self.send_waiters
    }

    /// The counters agree with the lists.
    pub closed spec fn counts_ok(self) -> bool {
        &&& self.waiting_receivers == self.recv_waiters.pending()
        &&& self.waiting_senders == self.send_waiters.pending()
    }

    /// The invariant of a channel.
    pub open spec fn wf(self) -> bool {
        &&& self.queue().wf()
        &&& self.recv_waiters().wf()
        &&& self.send_waiters().wf()
        &&& self.counts_ok()
    }

    /// Whether nobody is paused in the middle of a step.
    pub open spec fn is_settled(self) -> bool {
        &&& self.queue().is_linked()
        &&& !self.queue().in_transition()
        &&& forall|i: int| 0 <= i < self.messages().len() ==> #[trigger] self.messages()[i] is Some
        &&& self.recv_waiters().is_settled()
        &&& self.send_waiters().is_settled()
    }

    /// Everything but the queue and the waiting parties is as it is in `other`.
    pub open spec fn same_flags(self, other: Self) -> bool {
        &&& self.identity() == other.identity()
        &&& self.bound() == other.bound()
        &&& self.closed() == other.closed()
        &&& self.senders() == other.senders()
        &&& self.receivers() == other.receivers()
        &&& self.next_waiter_id() == other.next_waiter_id()
    }

    /// Unless no more than `mid` receivers wait, there are at most as many messages as
    /// receivers that were woken for them, with `due` others that are about to look.
    ///
    /// `mid` is the number of receivers that are registered and will look again, or
    /// leave, before they sleep. Between polls both numbers are 0: then a message can
    /// only lie in front of a sleeping receiver if another one was woken for it.
    pub open spec fn receivers_attended(self, mid: nat, due: nat) -> bool {
        self.recv_waiters().waiting() > mid ==> self.messages().len()
            <= self.recv_waiters().notified() + due
    }

    /// Unless no more than `mid` senders wait, there is at most as much room as senders
    /// that were woken for it, with `due` others that are about to look.
    pub open spec fn senders_attended(self, mid: nat, due: nat) -> bool {
        self.bound() matches Some(c) ==> self.send_waiters().waiting() > mid ==> c
            - self.messages().len() <= self.send_waiters().notified() + due
    }

    /// What a step keeps of both.
    pub open spec fn keeps_attention(self, other: Self) -> bool {
        &&& forall|mid: nat, due: nat| #[trigger]
            other.receivers_attended(mid, due) ==> self.receivers_attended(mid, due)
        &&& forall|mid: nat, due: nat| #[trigger]
            other.senders_attended(mid, due) ==> self.senders_attended(mid, due)
    }

    // --------------------------------------------------------- construction

    /// Whether the channel is open and without messages, nobody waits, and it counts exactly
    /// one sender and one receiver.
    pub open spec fn is_fresh(self, capacity: Option<usize>) -> bool {
        &&& self.bound() == capacity
        &&& !self.closed()
        &&& self.messages().len() == 0
        &&& self.senders() == 1
        &&& self.receivers() == 1
        &&& self.recv_waiters().is_new()
        &&& self.send_waiters().is_new()
    }

    /// An open channel without messages, with one sender and one receiver.
    pub fn new(capacity: Option<usize>) -> (r: Self)
        requires
            capacity matches Some(c) ==> c >= 1,
        ensures
            r.wf(),
            r.is_settled(),
            r.is_fresh(capacity),
            r.queue().is_single(),
            r.messages() == Seq::<Option<T>>::empty(),
            r.queue().head_index() == 0,
            r.queue().tail_index() == 0,
            r.bound() == capacity,
            !r.closed(),
            r.senders() == 1,
            r.receivers() == 1,
            r.next_waiter_id() == 1,
            r.recv_waiters().is_new(),
            r.send_waiters().is_new(),
            r.recv_waiters().pending() == 0,
            r.send_waiters().pending() == 0,
            forall|mid: nat, due: nat| #[trigger] r.receivers_attended(mid, due),
            forall|mid: nat, due: nat| #[trigger] r.senders_attended(mid, due),
    {
        let r = Channel {
            queue: Queue::new(capacity),
            closed: false,
            waiting_receivers: 0,
            waiting_senders: 0,
            senders: 1,
            receivers: 1,
            next_waiter_id: 1,
            recv_waiters: WaiterList::new(),
            send_waiters: WaiterList::new(),
            identity: Ghost(arbitrary()),
        };
        proof {
            r.queue.lemma_fresh();
        }
        r
    }

    // ----------------------------------------------------------------- close

    /// Whether the channel is closed.
    pub fn is_closed(&self) -> (r: bool)
        ensures
            r == self.closed(),
    {
        self.closed
    }

    /// What closing a channel does.
    pub open spec fn did_close(pre: Self, post: Self, r: Option<Seq<W>>) -> bool {
        &&& post.identity() == pre.identity()
        &&& post.closed()
        &&& post.queue() == pre.queue()
        &&& post.next_waiter_id() == pre.next_waiter_id()
        &&& pre.closed() ==> {
            &&& r is None
            &&& post.recv_waiters() == pre.recv_waiters()
            &&& post.send_waiters() == pre.send_waiters()
        }
        &&& !pre.closed() ==> {
            &&& r == Some(
                waiters::woken(
                    pre.recv_waiters().slots(),
                    pre.recv_waiters().notify_cursor(),
                    pre.recv_waiters().waiting(),
                ) + waiters::woken(
                    pre.send_waiters().slots(),
                    pre.send_waiters().notify_cursor(),
                    pre.send_waiters().waiting(),
                ),
            )
            &&& r->0.len() == pre.recv_waiters().waiting() + pre.send_waiters().waiting()
            &&& told_all(pre.recv_waiters(), post.recv_waiters())
            &&& told_all(pre.send_waiters(), post.send_waiters())
            &&& post.recv_waiters().waiting() == 0
            &&& post.send_waiters().waiting() == 0
        }
    }

    /// Closes the channel and returns the wakers of everybody who waits, or `None` if it
    /// was closed already.
    pub fn close(&mut self) -> (r: Option<Vec<W>>)
        requires
            old(self).wf(),
        ensures
            final(self).wf(),
            Self::did_close(
                *old(self),
                *final(self),
                (match r {
                    Some(v) => Some(v@),
                    None => None,
                }),
            ),
            final(self).senders() == old(self).senders(),
            final(self).receivers() == old(self).receivers(),
            old(self).is_settled() ==> final(self).is_settled(),
            final(self).recv_waiters().keeps_claims(old(self).recv_waiters()),
            final(self).send_waiters().keeps_claims(old(self).send_waiters()),
            final(self).keeps_attention(*old(self)),
    {
        if self.closed {
            return None;
        }
        self.closed = true;
        let mut wakers = self.recv_waiters.notify_all(&mut self.waiting_receivers);
        let mut others = self.send_waiters.notify_all(&mut self.waiting_senders);
        wakers.append(&mut others);
        Some(wakers)
    }

    // ------------------------------------------------------------ operations

    /// What [`Channel::try_send`] does.
    pub open spec fn did_send(
        pre: Self,
        post: Self,
        msg: T,
        r: Result<(), TrySendError<T>>,
        woken: Option<W>,
    ) -> bool {
        &&& post.same_flags(pre)
        &&& post.queue().head_index() == pre.queue().head_index()
        &&& post.queue().tail_index() <= pre.queue().tail_index() + 2
        &&& post.send_waiters() == pre.send_waiters()
        &&& pre.closed() ==> r == Err::<(), _>(TrySendError::Closed(msg)) && woken is None && post
            == pre
        &&& !pre.closed() && !queue::leaves_room(pre.messages().len() as int, pre.bound()) ==> {
            &&& r == Err::<(), _>(TrySendError::Full(msg))
            &&& woken is None
            &&& post.messages() == pre.messages()
            &&& post.queue().tail_index() == (if position::is_sentinel(pre.queue().tail_index()) {
                pre.queue().tail_index() + 1
            } else {
                pre.queue().tail_index()
            })
            &&& post.recv_waiters() == pre.recv_waiters()
        }
        &&& !pre.closed() && queue::leaves_room(pre.messages().len() as int, pre.bound()) ==> {
            &&& r is Ok
            &&& post.messages() == pre.messages().push(Some(msg))
            &&& post.queue().tail_index() == position::nth(
                position::rank(pre.queue().tail_index()),
            ) + 1
            &&& woke_one(pre.recv_waiters(), post.recv_waiters(), woken)
        }
    }

    /// Sends a message if the channel is open and has room. Returns the waker of one
    /// waiting receiver along with it.
    pub fn try_send(&mut self, msg: T) -> (r: (Result<(), TrySendError<T>>, Option<W>))
        requires
            old(self).wf(),
            old(self).queue().has_room(),
            old(self).queue().is_linked(),
        ensures
            final(self).wf(),
            Self::did_send(*old(self), *final(self), msg, r.0, r.1),
            final(self).queue().is_linked(),
            final(self).queue().same_readers(old(self).queue()),
            old(self).is_settled() ==> final(self).is_settled(),
            old(self).queue().is_single() ==> final(self).queue().is_single(),
            final(self).recv_waiters().keeps_claims(old(self).recv_waiters()),
            old(self).is_settled() ==> final(self).keeps_attention(*old(self)),
            r.0 is Ok ==> forall|mid: nat, due: nat|
                old(self).senders_attended(mid, (due + 1) as nat)
                    ==> #[trigger] final(self).senders_attended(mid, due),
            r.0 matches Err(TrySendError::Full(_)) ==> forall|mid: nat, due: nat| #[trigger]
                final(self).senders_attended(mid, due),
    {
        if self.closed {
            return (Err(TrySendError::Closed(msg)), None);
        }
        let ghost pre = *self;
        let waiting = self.waiting_receivers;
        match self.queue.push(msg, waiting) {
            Ok(wake) => {
                proof {
                    assert(pre.is_settled() ==> self.is_settled()) by {
                        if pre.is_settled() {
                            assert forall|i: int| 0 <= i < self.messages().len() implies
                                #[trigger] self.messages()[i] is Some by {
                                if i < pre.messages().len() {
                                    assert(pre.messages()[i] is Some);
                                }
                            }
                        }
                    }
                    if pre.queue.is_single() {
                        pre.queue.lemma_single_kept(self.queue);
                    }
                    pre.recv_waiters.lemma_nobody_selected();
                }
                let woken = if wake {
                    self.recv_waiters.notify_one(&mut self.waiting_receivers)
                } else {
                    None
                };
                proof {
                    if pre.is_settled() {
                        pre.recv_waiters.lemma_settled();
                    }
                }
                (Ok(()), woken)
            },
            Err(msg) => {
                proof {
                    if pre.queue.is_single() {
                        pre.queue.lemma_single_kept(self.queue);
                    }
                }
                (Err(TrySendError::Full(msg)), None)
            },
        }
    }

    /// What [`Channel::offer`] does.
    pub open spec fn did_offer(
        pre: Self,
        post: Self,
        msg: T,
        r: Result<(), TrySendError<T>>,
        woken: Option<W>,
    ) -> bool {
        if pre.closed() || pre.queue().has_room() {
            Self::did_send(pre, post, msg, r, woken)
        } else {
            r == Err::<(), _>(TrySendError::Full(msg)) && woken is None && post == pre
        }
    }

    /// Sends a message like [`Channel::try_send`], and takes a channel whose positions are
    /// used up for a full one.
    pub fn offer(&mut self, msg: T) -> (r: (Result<(), TrySendError<T>>, Option<W>))
        requires
            old(self).wf(),
            old(self).queue().is_linked(),
        ensures
            final(self).wf(),
            Self::did_offer(*old(self), *final(self), msg, r.0, r.1),
            final(self).queue().is_linked(),
            old(self).is_settled() ==> final(self).is_settled(),
            old(self).queue().is_single() ==> final(self).queue().is_single(),
            final(self).recv_waiters().keeps_claims(old(self).recv_waiters()),
            old(self).is_settled() ==> final(self).keeps_attention(*old(self)),
    {
        if self.closed {
            return (Err(TrySendError::Closed(msg)), None);
        }
        if !self.queue.can_claim() {
            return (Err(TrySendError::Full(msg)), None);
        }
        self.try_send(msg)
    }

    /// Why there is no message to take now.
    pub open spec fn empty_state(self) -> RecvState {
        if !self.closed() {
            RecvState::Empty
        } else if self.messages().len() == 0 {
            RecvState::Closed
        } else {
            RecvState::Busy
        }
    }

    /// Why there is no message to take now.
    pub fn recv_state_when_empty(&self) -> (r: RecvState)
        requires
            self.wf(),
        ensures
            r == self.empty_state(),
    {
        if !self.closed {
            RecvState::Empty
        } else if self.queue.is_empty() {
            RecvState::Closed
        } else {
            RecvState::Busy
        }
    }

    /// What one attempt to receive does.
    pub open spec fn did_receive(
        pre: Self,
        post: Self,
        r: Result<T, RecvState>,
        woken: Option<W>,
    ) -> bool {
        &&& post.same_flags(pre)
        &&& post.queue().tail_index() == pre.queue().tail_index()
        &&& post.recv_waiters() == pre.recv_waiters()
        &&& pre.queue().is_ready() ==> {
            &&& r is Ok
            &&& pre.messages()[0] == Some(r->Ok_0)
            &&& post.messages() == pre.messages().drop_first()
            &&& post.queue().head_index() == position::nth(
                position::rank(pre.queue().head_index()) + 1,
            )
            &&& pre.bound() is Some ==> woke_one(
                pre.send_waiters(),
                post.send_waiters(),
                woken,
            )
            &&& pre.bound() is None ==> woken is None && post.send_waiters()
                == pre.send_waiters()
        }
        &&& !pre.queue().is_ready() ==> r == Err::<T, _>(pre.empty_state()) && woken is None && post
            == pre
    }

    /// What an attempt to receive keeps for the parties that wait.
    pub open spec fn recv_attention(pre: Self, post: Self, r: Result<T, RecvState>) -> bool {
        &&& post.keeps_attention(pre)
        &&& r is Ok ==> forall|mid: nat, due: nat|
            pre.receivers_attended(mid, (due + 1) as nat) ==> #[trigger] post.receivers_attended(
                mid,
                due,
            )
        &&& r is Err ==> forall|mid: nat, due: nat| #[trigger] post.receivers_attended(mid, due)
    }

    /// Wakes a sender after a message was taken.
    fn notify_sender(&mut self, wake: bool, Ghost(pre): Ghost<Self>) -> (r: Option<W>)
        requires
            old(self).wf(),
            wake == (pre.bound() is Some && pre.waiting_senders != 0),
            pre.wf(),
            old(self).send_waiters == pre.send_waiters,
            old(self).waiting_senders == pre.waiting_senders,
        ensures
            final(self).wf(),
            final(self).queue == old(self).queue,
            final(self).closed == old(self).closed,
            final(self).waiting_receivers == old(self).waiting_receivers,
            final(self).senders == old(self).senders,
            final(self).receivers == old(self).receivers,
            final(self).next_waiter_id == old(self).next_waiter_id,
            final(self).identity == old(self).identity,
            final(self).recv_waiters == old(self).recv_waiters,
            pre.bound() is Some ==> woke_one(pre.send_waiters, final(self).send_waiters, r),
            pre.bound() is None ==> r is None && final(self).send_waiters == pre.send_waiters,
            final(self).send_waiters.keeps_claims(pre.send_waiters),
            pre.send_waiters.is_settled() ==> {
                &&& final(self).send_waiters.is_settled()
                &&& pre.bound() is Some ==> {
                    &&& pre.send_waiters.waiting() > 0 ==> final(self).send_waiters.waiting() + 1
                        == pre.send_waiters.waiting() && final(self).send_waiters.notified()
                        == pre.send_waiters.notified() + 1
                    &&& pre.send_waiters.waiting() == 0 ==> final(self).send_waiters.waiting() == 0
                }
            },
    {
        proof {
            pre.send_waiters.lemma_nobody_selected();
            if pre.send_waiters.is_settled() {
                pre.send_waiters.lemma_settled();
            }
        }
        if wake {
            self.send_waiters.notify_one(&mut self.waiting_senders)
        } else {
            None
        }
    }

    /// One attempt to receive. Returns the waker of one waiting sender along with the
    /// message.
    pub fn try_recv_nonblocking(&mut self) -> (r: (Result<T, RecvState>, Option<W>))
        requires
            old(self).wf(),
        ensures
            final(self).wf(),
            Self::did_receive(*old(self), *final(self), r.0, r.1),
            old(self).is_settled() ==> {
                &&& final(self).is_settled()
                &&& Self::recv_attention(*old(self), *final(self), r.0)
            },
            final(self).send_waiters().keeps_claims(old(self).send_waiters()),
    {
        let ghost pre = *self;
        let waiting = self.waiting_senders;
        match self.queue.pop(waiting) {
            Some((msg, wake)) => {
                let woken = self.notify_sender(wake, Ghost(pre));
                proof {
                    if pre.is_settled() {
                        assert forall|i: int| 0 <= i < self.messages().len() implies
                            #[trigger] self.messages()[i] is Some by {
                            assert(pre.messages()[i + 1] is Some);
                        }
                    }
                }
                (Ok(msg), woken)
            },
            None => {
                proof {
                    if pre.is_settled() && pre.messages().len() > 0 {
                        assert(pre.messages()[0] is Some);
                    }
                }
                (Err(self.recv_state_when_empty()), None)
            },
        }
    }

    /// Receives a message if there is one.
    ///
    /// A closed channel is drained before it is reported as closed. A message that is
    /// still being written, or a head that is being moved, would be waited for; the
    /// caller has to know that there is none.
    pub fn try_recv(&mut self) -> (r: (Result<T, TryRecvError>, Option<W>))
        requires
            old(self).wf(),
            old(self).queue().is_ready() || !(old(self).empty_state() is Busy),
        ensures
            final(self).wf(),
            Self::did_receive(*old(self), *final(self), Self::as_attempt(r.0), r.1),
            old(self).is_settled() ==> {
                &&& final(self).is_settled()
                &&& Self::recv_attention(*old(self), *final(self), Self::as_attempt(r.0))
            },
            final(self).send_waiters().keeps_claims(old(self).send_waiters()),
    {
        let (attempt, woken) = self.try_recv_nonblocking();
        let r = match attempt {
            Ok(msg) => Ok(msg),
            Err(state) => Err(Self::final_state(state)),
        };
        (r, woken)
    }

    /// The outcome of an attempt, from that of a receive that waits for nobody.
    pub open spec fn as_attempt(r: Result<T, TryRecvError>) -> Result<T, RecvState> {
        match r {
            Ok(msg) => Ok(msg),
            Err(TryRecvError::Empty) => Err(RecvState::Empty),
            Err(TryRecvError::Closed) => Err(RecvState::Closed),
        }
    }

    /// The error for an attempt that found nothing, where nobody is at work.
    fn final_state(state: RecvState) -> (r: TryRecvError)
        requires
            !(state is Busy),
        ensures
            r == (if state is Empty {
                TryRecvError::Empty
            } else {
                TryRecvError::Closed
            }),
    {
        if state == RecvState::Empty {
            TryRecvError::Empty
        } else {
            TryRecvError::Closed
        }
    }

    // ---------------------------------------------------------- one consumer

    /// One attempt of the sole receiver.
    pub fn try_recv_nonblocking_single(&mut self) -> (r: (Result<T, RecvState>, Option<W>))
        requires
            old(self).wf(),
            old(self).queue().is_single(),
            !old(self).queue().in_transition(),
        ensures
            final(self).wf(),
            final(self).queue().is_single(),
            !final(self).queue().in_transition(),
            Self::did_receive(*old(self), *final(self), r.0, r.1),
            old(self).is_settled() ==> {
                &&& final(self).is_settled()
                &&& Self::recv_attention(*old(self), *final(self), r.0)
            },
            final(self).send_waiters().keeps_claims(old(self).send_waiters()),
    {
        let ghost pre = *self;
        let waiting = self.waiting_senders;
        match self.queue.pop_single(waiting) {
            Some((msg, wake)) => {
                let woken = self.notify_sender(wake, Ghost(pre));
                proof {
                    if pre.is_settled() {
                        assert forall|i: int| 0 <= i < self.messages().len() implies
                            #[trigger] self.messages()[i] is Some by {
                            assert(pre.messages()[i + 1] is Some);
                        }
                    }
                }
                (Ok(msg), woken)
            },
            None => {
                proof {
                    if pre.is_settled() && pre.messages().len() > 0 {
                        assert(pre.messages()[0] is Some);
                    }
                }
                (Err(self.recv_state_when_empty()), None)
            },
        }
    }

    /// One attempt to receive. `single` says whether this is the sole receiver.
    pub fn attempt(&mut self, single: bool) -> (r: (Result<T, RecvState>, Option<W>))
        requires
            old(self).wf(),
            single ==> old(self).queue().is_single() && !old(self).queue().in_transition(),
        ensures
            final(self).wf(),
            Self::did_receive(*old(self), *final(self), r.0, r.1),
            single ==> final(self).queue().is_single() && !final(self).queue().in_transition(),
            old(self).is_settled() ==> {
                &&& final(self).is_settled()
                &&& Self::recv_attention(*old(self), *final(self), r.0)
            },
            final(self).send_waiters().keeps_claims(old(self).send_waiters()),
    {
        if single {
            self.try_recv_nonblocking_single()
        } else {
            self.try_recv_nonblocking()
        }
    }

    /// Receives a message for the sole receiver, if there is one.
    pub fn try_recv_single(&mut self) -> (r: (Result<T, TryRecvError>, Option<W>))
        requires
            old(self).wf(),
            old(self).queue().is_single(),
            !old(self).queue().in_transition(),
            old(self).queue().is_ready() || !(old(self).empty_state() is Busy),
        ensures
            final(self).wf(),
            final(self).queue().is_single(),
            !final(self).queue().in_transition(),
            Self::did_receive(*old(self), *final(self), Self::as_attempt(r.0), r.1),
            old(self).is_settled() ==> {
                &&& final(self).is_settled()
                &&& Self::recv_attention(*old(self), *final(self), Self::as_attempt(r.0))
            },
            final(self).send_waiters().keeps_claims(old(self).send_waiters()),
    {
        let (attempt, woken) = self.try_recv_nonblocking_single();
        let r = match attempt {
            Ok(msg) => Ok(msg),
            Err(state) => Err(Self::final_state(state)),
        };
        (r, woken)
    }

    /// What [`Channel::try_recv_many_ready`] does.
    pub open spec fn did_receive_many(
        pre: Self,
        post: Self,
        limit: usize,
        count: usize,
        before: Seq<T>,
        after: Seq<T>,
        woken: Seq<W>,
    ) -> bool {
        &&& count == pre.queue().batch_len(limit)
        &&& count <= limit && count <= pre.messages().len()
        &&& after == before + Seq::new(count as nat, |i: int| pre.messages()[i]->0)
        &&& post.messages() == pre.messages().skip(count as int)
        &&& post.queue().head_index() == position::nth(
            position::rank(pre.queue().head_index()) + count,
        )
        &&& post.same_flags(pre)
        &&& post.queue().tail_index() == pre.queue().tail_index()
        &&& post.recv_waiters() == pre.recv_waiters()
        &&& pre.bound() is None ==> woken.len() == 0 && post.send_waiters()
            == pre.send_waiters()
        &&& pre.bound() is Some ==> woke_many(
            pre.send_waiters(),
            post.send_waiters(),
            at_most(count as nat, pre.send_waiters().pending()),
            woken,
        )
    }

    /// Moves ready messages to the end of `buffer`, at most `limit` and at most to the end
    /// of a block. Returns how many, and the wakers of as many waiting senders.
    pub fn try_recv_many_ready(&mut self, buffer: &mut Vec<T>, limit: usize) -> (r: (usize, Vec<W>))
        requires
            old(self).wf(),
            old(self).queue().is_single(),
            !old(self).queue().in_transition(),
        ensures
            final(self).wf(),
            final(self).queue().is_single(),
            !final(self).queue().in_transition(),
            Self::did_receive_many(
                *old(self),
                *final(self),
                limit,
                r.0,
                old(buffer)@,
                final(buffer)@,
                r.1@,
            ),
            r.0 == 0 <==> limit == 0 || !old(self).queue().is_ready(),
            old(self).is_settled() ==> {
                &&& final(self).is_settled()
                &&& final(self).keeps_attention(*old(self))
            },
            final(self).send_waiters().keeps_claims(old(self).send_waiters()),
    {
        let ghost pre = *self;
        let waiting = self.waiting_senders;
        let (count, wake) = self.queue.pop_single_batch(buffer, limit, waiting);
        let ghost popped = *self;
        proof {
            assert(pre.send_waiters.slots() == popped.send_waiters.slots());
            if pre.is_settled() {
                pre.send_waiters.lemma_settled();
                assert forall|i: int| 0 <= i < self.messages().len() implies
                    #[trigger] self.messages()[i] is Some by {
                    assert(pre.messages()[i + count] is Some);
                }
            }
            if wake == 0 && pre.bound() is Some {
                assert(waiters::woken(
                    pre.send_waiters.slots(),
                    pre.send_waiters.notify_cursor(),
                    0,
                ) =~= Seq::empty());
            }
        }
        let woken = if wake != 0 {
            self.send_waiters.notify_many(&mut self.waiting_senders, wake)
        } else {
            Vec::new()
        };
        (count, woken)
    }

    /// What [`Channel::drain`] does.
    pub open spec fn did_drain(
        pre: Self,
        post: Self,
        limit: usize,
        count: usize,
        before: Seq<T>,
        after: Seq<T>,
        woken: Seq<W>,
    ) -> bool {
        &&& count == at_most(limit as nat, pre.messages().len())
        &&& after == before + Seq::new(count as nat, |i: int| pre.messages()[i]->0)
        &&& post.messages() == pre.messages().skip(count as int)
        &&& post.same_flags(pre)
        &&& post.queue().tail_index() == pre.queue().tail_index()
        &&& post.recv_waiters() == pre.recv_waiters()
        &&& pre.bound() is None ==> woken.len() == 0 && post.send_waiters() == pre.send_waiters()
        &&& pre.bound() is Some ==> woke_many(
            pre.send_waiters(),
            post.send_waiters(),
            at_most(count as nat, pre.send_waiters().pending()),
            woken,
        )
    }

    /// Moves the messages to the end of `buffer`, block after block and at most `limit`.
    /// Returns how many, and the wakers of as many waiting senders.
    pub fn drain(&mut self, buffer: &mut Vec<T>, limit: usize) -> (r: (usize, Vec<W>))
        requires
            old(self).wf(),
            old(self).is_settled(),
            old(self).queue().is_single(),
        ensures
            final(self).wf(),
            final(self).is_settled(),
            final(self).queue().is_single(),
            Self::did_drain(
                *old(self),
                *final(self),
                limit,
                r.0,
                old(buffer)@,
                final(buffer)@,
                r.1@,
            ),
            final(self).keeps_attention(*old(self)),
    {
        let ghost pre = *self;
        let ghost before = buffer@;
        let mut count: usize = 0;
        let mut woken: Vec<W> = Vec::new();
        let mut more: bool = true;
        proof {
            assert(buffer@ =~= before + Seq::new(0, |i: int| pre.messages()[i]->0));
            assert(pre.messages().skip(0) =~= pre.messages());
            assert(waiters::woken(
                pre.send_waiters.slots(),
                pre.send_waiters.notify_cursor(),
                0,
            ) =~= Seq::empty());
        }
        while more && count < limit
            invariant
                self.wf(),
                self.is_settled(),
                self.queue().is_single(),
                self.same_flags(pre),
                self.queue().tail_index() == pre.queue().tail_index(),
                self.recv_waiters() == pre.recv_waiters(),
                pre.wf(),
                pre.is_settled(),
                count <= limit,
                count <= pre.messages().len(),
                !more ==> self.messages().len() == 0,
                buffer@ == before + Seq::new(count as nat, |i: int| pre.messages()[i]->0),
                self.messages() == pre.messages().skip(count as int),
                pre.bound() is None ==> woken@.len() == 0 && self.send_waiters()
                    == pre.send_waiters(),
                pre.bound() is Some ==> woke_many(
                    pre.send_waiters(),
                    self.send_waiters(),
                    at_most(count as nat, pre.send_waiters().pending()),
                    woken@,
                ),
                self.keeps_attention(pre),
            decreases
                limit - count,
                (if more {
                    1int
                } else {
                    0int
                }),
        {
            let ghost mid = *self;
            let ghost so_far = woken@;
            let (received, mut others) = self.try_recv_many_ready(buffer, limit - count);
            let ghost now = others@;
            proof {
                mid.lemma_ready();
                assert(buffer@ =~= before + Seq::new(
                    (count + received) as nat,
                    |i: int| pre.messages()[i]->0,
                ));
                assert(self.messages() =~= pre.messages().skip(count + received));
                let list = pre.send_waiters();
                list.lemma_settled();
                mid.send_waiters().lemma_settled();
                if pre.bound() is Some {
                    let k = at_most(count as nat, list.pending());
                    waiters::lemma_many_selected(list.slots(), list.notify_cursor(), k);
                    let n = at_most(received as nat, mid.send_waiters().pending());
                    waiters::lemma_in_a_row(list.slots(), list.notify_cursor(), k, n);
                    assert(k + n == at_most((count + received) as nat, list.pending()));
                }
            }
            woken.append(&mut others);
            proof {
                assert(woken@ =~= so_far + now);
            }
            if received == 0 {
                more = false;
            }
            count += received;
        }
        (count, woken)
    }

    // ---------------------------------------------------------------- waiting

    /// What giving up a sender's registration does.
    pub open spec fn did_leave_senders(
        pre: Self,
        post: Self,
        token: Option<WaiterToken>,
        forward: bool,
        r: Unregistered<W>,
    ) -> bool {
        &&& post.same_flags(pre)
        &&& post.queue() == pre.queue()
        &&& post.recv_waiters() == pre.recv_waiters()
        &&& match token {
            Some(t) if pre.send_waiters().is_owner(t) => WaiterList::gave_up(
                pre.send_waiters(),
                post.send_waiters(),
                t,
                forward,
                r,
            ),
            _ => post.send_waiters() == pre.send_waiters() && r.removed is None && r.forwarded is None,
        }
    }

    /// Gives up a sender's registration, if it has one. `forward` says whether to pass a
    /// notification on that the sender will not act on.
    pub fn leave_senders(&mut self, token: &mut Option<WaiterToken>, forward: bool) -> (r:
        Unregistered<W>)
        requires
            old(self).wf(),
        ensures
            final(self).wf(),
            *final(token) is None,
            Self::did_leave_senders(*old(self), *final(self), *old(token), forward, r),
            old(self).is_settled() ==> {
                &&& final(self).is_settled()
                &&& forward ==> final(self).keeps_attention(*old(self))
                &&& forall|mid: nat, due: nat|
                    old(self).senders_attended(mid, due) ==>
                        #[trigger] final(self).senders_attended(mid, (due + 1) as nat)
                &&& (*old(token) matches Some(t) && forward && old(self).send_waiters().is_owner(t))
                    ==> forall|mid: nat, due: nat|
                    old(self).senders_attended((mid + 1) as nat, due) ==>
                        #[trigger] final(self).senders_attended(mid, due)
            },
    {
        let owned = match &*token {
            Some(t) => self.send_waiters.owns(t),
            None => false,
        };
        if !owned {
            *token = None;
            return Unregistered { removed: None, forwarded: None };
        }
        self.send_waiters.unregister(&mut self.waiting_senders, token, forward)
    }

    /// What giving up a receiver's registration does.
    pub open spec fn did_leave_receivers(
        pre: Self,
        post: Self,
        token: Option<WaiterToken>,
        forward: bool,
        r: Unregistered<W>,
    ) -> bool {
        &&& post.same_flags(pre)
        &&& post.queue() == pre.queue()
        &&& post.send_waiters() == pre.send_waiters()
        &&& match token {
            Some(t) if pre.recv_waiters().is_owner(t) => WaiterList::gave_up(
                pre.recv_waiters(),
                post.recv_waiters(),
                t,
                forward,
                r,
            ),
            _ => post.recv_waiters() == pre.recv_waiters() && r.removed is None && r.forwarded is None,
        }
    }

    /// Gives up a receiver's registration, if it has one. `forward` says whether to pass a
    /// notification on that the receiver will not act on.
    pub fn leave_receivers(&mut self, token: &mut Option<WaiterToken>, forward: bool) -> (r:
        Unregistered<W>)
        requires
            old(self).wf(),
        ensures
            final(self).wf(),
            *final(token) is None,
            Self::did_leave_receivers(*old(self), *final(self), *old(token), forward, r),
            old(self).is_settled() ==> {
                &&& final(self).is_settled()
                &&& forward ==> final(self).keeps_attention(*old(self))
                &&& forall|mid: nat, due: nat|
                    old(self).receivers_attended(mid, due) ==>
                        #[trigger] final(self).receivers_attended(mid, (due + 1) as nat)
                &&& (*old(token) matches Some(t) && forward && old(self).recv_waiters().is_owner(t))
                    ==> forall|mid: nat, due: nat|
                    old(self).receivers_attended((mid + 1) as nat, due) ==>
                        #[trigger] final(self).receivers_attended(mid, due)
            },
    {
        let owned = match &*token {
            Some(t) => self.recv_waiters.owns(t),
            None => false,
        };
        if !owned {
            *token = None;
            return Unregistered { removed: None, forwarded: None };
        }
        self.recv_waiters.unregister(&mut self.waiting_receivers, token, forward)
    }

    /// What registering a sender does.
    pub open spec fn did_park_sender(pre: Self, post: Self, t: WaiterToken, waker: W) -> bool {
        &&& post.identity() == pre.identity()
        &&& t.ticket == pre.next_waiter_id() << 3
        &&& WaiterList::registered(pre.send_waiters(), post.send_waiters(), t, waker)
        &&& post.send_waiters().is_owner(t)
        &&& post.send_waiters().keeps_claims(pre.send_waiters())
        &&& post.next_waiter_id() == pre.next_waiter_id().wrapping_add(1)
        &&& post.queue() == pre.queue()
        &&& post.closed() == pre.closed()
        &&& post.senders() == pre.senders()
        &&& post.receivers() == pre.receivers()
        &&& post.recv_waiters() == pre.recv_waiters()
    }

    /// Registers a sender that found no room. It has to look again before it sleeps.
    pub fn park_sender(&mut self, token: &mut Option<WaiterToken>, waker: W)
        requires
            old(self).wf(),
            *old(token) is None,
        ensures
            final(self).wf(),
            *final(token) is Some,
            Self::did_park_sender(*old(self), *final(self), (*final(token))->0, waker),
            old(self).is_settled() ==> final(self).is_settled(),
            forall|mid: nat, due: nat|
                old(self).senders_attended(mid, due) ==> #[trigger] final(self).senders_attended(
                    (mid + 1) as nat,
                    due,
                ),
    {
        self.send_waiters.register(
            &mut self.waiting_senders,
            &mut self.next_waiter_id,
            token,
            waker,
        );
    }

    /// What registering a receiver does.
    pub open spec fn did_park_receiver(pre: Self, post: Self, t: WaiterToken, waker: W) -> bool {
        &&& post.identity() == pre.identity()
        &&& t.ticket == pre.next_waiter_id() << 3
        &&& WaiterList::registered(pre.recv_waiters(), post.recv_waiters(), t, waker)
        &&& post.recv_waiters().is_owner(t)
        &&& post.recv_waiters().keeps_claims(pre.recv_waiters())
        &&& post.next_waiter_id() == pre.next_waiter_id().wrapping_add(1)
        &&& post.queue() == pre.queue()
        &&& post.closed() == pre.closed()
        &&& post.senders() == pre.senders()
        &&& post.receivers() == pre.receivers()
        &&& post.send_waiters() == pre.send_waiters()
    }

    /// Registers a receiver that found no message, and returns the tail it has to look
    /// up to before it sleeps.
    pub fn park_receiver(&mut self, token: &mut Option<WaiterToken>, waker: W) -> (r: usize)
        requires
            old(self).wf(),
            *old(token) is None,
        ensures
            final(self).wf(),
            r == old(self).queue().tail_index(),
            *final(token) is Some,
            Self::did_park_receiver(*old(self), *final(self), (*final(token))->0, waker),
            old(self).is_settled() ==> final(self).is_settled(),
            forall|mid: nat, due: nat|
                old(self).receivers_attended(mid, due) ==>
                    #[trigger] final(self).receivers_attended((mid + 1) as nat, due),
    {
        self.recv_waiters.register(
            &mut self.waiting_receivers,
            &mut self.next_waiter_id,
            token,
            waker,
        );
        self.queue.receiver_parking()
    }

    /// What a registered receiver makes of an attempt: nothing counts as empty while
    /// something is left of what was claimed before it registered, at the tail `tail`.
    pub open spec fn rechecked(self, attempt: Result<T, RecvState>, tail: int) -> Result<
        T,
        RecvState,
    > {
        match attempt {
            Err(RecvState::Empty) => if position::message_positions(
                self.queue().head_index(),
                tail,
            ) != 0 {
                Err(RecvState::Busy)
            } else {
                Err(RecvState::Empty)
            },
            _ => attempt,
        }
    }

    /// What a registered receiver makes of an attempt: nothing counts as empty while
    /// something is left of what was claimed before it registered, at the tail `tail`.
    pub fn recheck(&self, attempt: Result<T, RecvState>, tail: usize) -> (r: Result<T, RecvState>)
        requires
            self.wf(),
        ensures
            r == self.rechecked(attempt, tail as int),
    {
        match attempt {
            Err(RecvState::Empty) => if self.queue.claims_below(tail) {
                Err(RecvState::Busy)
            } else {
                Err(RecvState::Empty)
            },
            _ => attempt,
        }
    }

    // ---------------------------------------------------------------- handles

    /// What counting one more sender does.
    pub open spec fn did_add_sender(pre: Self, post: Self) -> bool {
        &&& post.identity() == pre.identity()
        &&& post.senders() == pre.senders().wrapping_add(1)
        &&& post.receivers() == pre.receivers()
        &&& post.closed() == pre.closed()
        &&& post.next_waiter_id() == pre.next_waiter_id()
        &&& post.queue() == pre.queue()
        &&& post.recv_waiters() == pre.recv_waiters()
        &&& post.send_waiters() == pre.send_waiters()
    }

    /// Counts one more sender.
    pub fn add_sender(&mut self)
        requires
            old(self).wf(),
        ensures
            final(self).wf(),
            Self::did_add_sender(*old(self), *final(self)),
            final(self).keeps_attention(*old(self)),
    {
        self.senders = self.senders.wrapping_add(1);
    }

    /// What counting one more receiver does.
    pub open spec fn did_add_receiver(pre: Self, post: Self) -> bool {
        &&& post.identity() == pre.identity()
        &&& post.receivers() == pre.receivers().wrapping_add(1)
        &&& post.senders() == pre.senders()
        &&& post.closed() == pre.closed()
        &&& post.next_waiter_id() == pre.next_waiter_id()
        &&& post.queue() == pre.queue()
        &&& post.recv_waiters() == pre.recv_waiters()
        &&& post.send_waiters() == pre.send_waiters()
    }

    /// Counts one more receiver.
    pub fn add_receiver(&mut self)
        requires
            old(self).wf(),
        ensures
            final(self).wf(),
            Self::did_add_receiver(*old(self), *final(self)),
            final(self).keeps_attention(*old(self)),
    {
        self.receivers = self.receivers.wrapping_add(1);
    }

    /// What counting one sender less does: the last one closes the channel.
    pub open spec fn did_remove_sender(pre: Self, post: Self, r: Option<Seq<W>>) -> bool {
        &&& post.identity() == pre.identity()
        &&& post.senders() == pre.senders().wrapping_sub(1)
        &&& post.receivers() == pre.receivers()
        &&& post.closed() == (pre.closed() || pre.senders() == 1)
        &&& post.queue() == pre.queue()
        &&& if pre.senders() == 1 {
            Self::did_close(pre, post, r)
        } else {
            &&& r is None
            &&& post.next_waiter_id() == pre.next_waiter_id()
            &&& post.recv_waiters() == pre.recv_waiters()
            &&& post.send_waiters() == pre.send_waiters()
        }
    }

    /// Counts one sender less, and closes the channel with the last one.
    pub fn remove_sender(&mut self) -> (r: Option<Vec<W>>)
        requires
            old(self).wf(),
        ensures
            final(self).wf(),
            Self::did_remove_sender(
                *old(self),
                *final(self),
                (match r {
                    Some(v) => Some(v@),
                    None => None,
                }),
            ),
            old(self).is_settled() ==> final(self).is_settled(),
            final(self).keeps_attention(*old(self)),
    {
        let last = self.senders == 1;
        self.senders = self.senders.wrapping_sub(1);
        if last {
            self.close()
        } else {
            None
        }
    }

    /// What counting one receiver less does: the last one closes the channel.
    pub open spec fn did_remove_receiver(pre: Self, post: Self, r: Option<Seq<W>>) -> bool {
        &&& post.identity() == pre.identity()
        &&& post.receivers() == pre.receivers().wrapping_sub(1)
        &&& post.senders() == pre.senders()
        &&& post.closed() == (pre.closed() || pre.receivers() == 1)
        &&& post.queue() == pre.queue()
        &&& if pre.receivers() == 1 {
            Self::did_close(pre, post, r)
        } else {
            &&& r is None
            &&& post.next_waiter_id() == pre.next_waiter_id()
            &&& post.recv_waiters() == pre.recv_waiters()
            &&& post.send_waiters() == pre.send_waiters()
        }
    }

    /// Counts one receiver less, and closes the channel with the last one.
    pub fn remove_receiver(&mut self) -> (r: Option<Vec<W>>)
        requires
            old(self).wf(),
        ensures
            final(self).wf(),
            Self::did_remove_receiver(
                *old(self),
                *final(self),
                (match r {
                    Some(v) => Some(v@),
                    None => None,
                }),
            ),
            old(self).is_settled() ==> final(self).is_settled(),
            final(self).keeps_attention(*old(self)),
    {
        let last = self.receivers == 1;
        self.receivers = self.receivers.wrapping_sub(1);
        if last {
            self.close()
        } else {
            None
        }
    }

    // ------------------------------------------------------------ observation

    /// Number of messages, those that are still being written counted.
    pub fn len(&self) -> (r: usize)
        requires
            self.wf(),
        ensures
            r == self.messages().len(),
            queue::within(r as int, self.bound()),
    {
        self.queue.len()
    }

    /// The capacity, `None` where there is no bound.
    pub fn capacity(&self) -> (r: Option<usize>)
        ensures
            r == self.bound(),
    {
        self.queue.capacity()
    }

    /// Number of senders.
    pub fn sender_count(&self) -> (r: usize)
        ensures
            r == self.senders(),
    {
        self.senders
    }

    /// Number of receivers.
    pub fn receiver_count(&self) -> (r: usize)
        ensures
            r == self.receivers(),
    {
        self.receivers
    }

    /// Whether another message stays within the range of positions.
    pub fn can_claim(&self) -> (r: bool)
        ensures
            r == self.queue().has_room(),
    {
        self.queue.can_claim()
    }

    /// A snapshot of the queue, for diagnosing a channel that does not move.
    pub fn debug_dump(&self) -> (r: Dump)
        requires
            self.wf(),
        ensures
            self.queue().is_dump(r),
    {
        self.queue.debug_dump()
    }

    /// Takes the channel apart and returns the messages that nobody received.
    pub fn into_unread(self) -> (r: Vec<T>)
        requires
            self.wf(),
        ensures
            r@ == queue::published(self.messages()),
            self.is_settled() ==> r@ == self.messages().map_values(|m: Option<T>| m->0),
    {
        proof {
            if self.is_settled() {
                queue::lemma_all_published(self.messages());
            }
        }
        self.queue.into_unread()
    }

    /// Where nobody is at work, there is a message to take exactly if there is a message.
    pub proof fn lemma_ready(self)
        requires
            self.is_settled(),
        ensures
            self.queue().is_ready() <==> self.messages().len() > 0,
    {
        if self.messages().len() > 0 {
            assert(self.messages()[0] is Some);
        }
    }
}

} // verus!
