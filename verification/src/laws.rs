//! What holds of a channel as a whole.
//!
//! Each law is stated over what the steps of [`crate::channel`] and [`crate::queue`] say
//! they do, for any number of steps in any order.
use std::task::Waker;
use vstd::prelude::*;

use crate::channel;
use crate::channel::Channel;
use crate::channel::RecvState;
use crate::errors::RecvError;
use crate::errors::SendError;
use crate::errors::TrySendError;
use crate::mpsc;
use crate::poll;
use crate::poll::After;
use crate::poll::Polled;
use crate::poll::RecvPoll;
use crate::poll::SendPoll;
use crate::poll::SendSeen;
use crate::poll::Turn;
use crate::position;
use crate::queue;
use crate::queue::Queue;
use crate::ring;
use crate::shared::Shared;
use crate::vault;
use crate::vault::Sheet;
use crate::vault::Step;
use crate::waiters;
use crate::waiters::Unregistered;
use crate::waiters::WaiterList;
use crate::waiters::WaiterToken;
use crate::wake;

verus! {

// ------------------------------------------------------------- order of messages

/// What a step did to the messages of a channel.
pub enum Event<T> {
    /// A message was sent.
    Sent(T),
    /// A message was received.
    Received(T),
    /// Messages were received in a batch.
    Batch(Seq<T>),
    /// Something else: the messages are as they were.
    Other,
}

/// Whether one step led from `pre` to `post`.
pub open spec fn is_step<T, W>(
    pre: Channel<T, W>,
    event: Event<T>,
    post: Channel<T, W>,
) -> bool {
    match event {
        Event::Sent(msg) => exists|r: Result<(), TrySendError<T>>, woken: Option<W>|
            r is Ok && #[trigger] Channel::did_send(pre, post, msg, r, woken),
        Event::Received(msg) => exists|woken: Option<W>| #[trigger]
            Channel::did_receive(pre, post, Ok(msg), woken),
        Event::Batch(msgs) => {
            ||| exists|limit: usize, count: usize, woken: Seq<W>| #[trigger]
                Channel::did_receive_many(pre, post, limit, count, Seq::empty(), msgs, woken)
            ||| exists|limit: usize, count: usize, woken: Seq<W>| #[trigger]
                Channel::did_drain(pre, post, limit, count, Seq::empty(), msgs, woken)
        },
        Event::Other => post.messages() == pre.messages(),
    }
}

/// The messages that were sent, in order.
pub open spec fn sent<T>(events: Seq<Event<T>>) -> Seq<T>
    decreases events.len(),
{
    if events.len() == 0 {
        Seq::empty()
    } else {
        match events.last() {
            Event::Sent(msg) => sent(events.drop_last()).push(msg),
            _ => sent(events.drop_last()),
        }
    }
}

/// The messages that were received, in order, by all receivers together.
pub open spec fn received<T>(events: Seq<Event<T>>) -> Seq<T>
    decreases events.len(),
{
    if events.len() == 0 {
        Seq::empty()
    } else {
        match events.last() {
            Event::Received(msg) => received(events.drop_last()).push(msg),
            Event::Batch(msgs) => received(events.drop_last()) + msgs,
            _ => received(events.drop_last()),
        }
    }
}

/// Messages, each of them published.
pub open spec fn all_there<T>(messages: Seq<T>) -> Seq<Option<T>> {
    messages.map_values(|m: T| Some(m))
}

/// Every message is received exactly once and in the order of sending: whatever steps are
/// taken, what was received is the front of what was there and what was sent, and the
/// channel holds the rest. Its length is what was there and sent less what was received,
/// and once it is empty, all of it was received.
pub proof fn law_first_in_first_out<T, W>(
    start: Seq<T>,
    states: Seq<Channel<T, W>>,
    events: Seq<Event<T>>,
)
    requires
        states.len() == events.len() + 1,
        states[0].messages() == all_there(start),
        forall|i: int|
            0 <= i < events.len() ==> is_step(states[i], #[trigger] events[i], states[i + 1]),
    ensures
        received(events).len() <= start.len() + sent(events).len(),
        received(events) == (start + sent(events)).take(received(events).len() as int),
        states.last().messages() == all_there(
            (start + sent(events)).skip(received(events).len() as int),
        ),
        states.last().messages().len() == start.len() + sent(events).len() - received(events).len(),
        states.last().messages().len() == 0 ==> received(events) == start + sent(events),
    decreases events.len(),
{
    if events.len() == 0 {
        assert((start + sent(events)).skip(0) =~= start);
    } else {
        let before = events.drop_last();
        let n = before.len() as int;
        assert forall|i: int| 0 <= i < before.len() implies is_step(
            states.drop_last()[i],
            #[trigger] before[i],
            states.drop_last()[i + 1],
        ) by {
            assert(before[i] == events[i]);
        }
        law_first_in_first_out(start, states.drop_last(), before);
        let pre = states[n];
        let post = states[n + 1];
        assert(is_step(pre, events[n], post));
        let all = start + sent(before);
        let taken = received(before).len() as int;
        assert(pre.messages() == all_there(all.skip(taken)));
        match events.last() {
            Event::Sent(msg) => {
                assert(start + sent(events) =~= all.push(msg));
                assert(received(events) =~= all.push(msg).take(taken));
                assert(queue::leaves_room(pre.messages().len() as int, pre.bound()));
                assert(all_there(all.push(msg).skip(taken)) =~= all_there(all.skip(taken)).push(
                    Some(msg),
                ));
            },
            Event::Received(msg) => {
                assert(pre.queue().is_ready());
                assert(pre.messages()[0] == Some(all[taken]));
                assert(msg == all[taken]);
                assert(received(events) =~= all.take(taken + 1));
                assert(all_there(all.skip(taken + 1)) =~= all_there(all.skip(taken)).drop_first());
            },
            Event::Batch(msgs) => {
                let n = msgs.len() as int;
                assert(Seq::<T>::empty() + Seq::new(n as nat, |i: int| pre.messages()[i]->0)
                    =~= Seq::new(n as nat, |i: int| pre.messages()[i]->0));
                assert forall|i: int| 0 <= i < n implies #[trigger] msgs[i] == all[taken + i] by {
                    assert(pre.messages()[i] == Some(all[taken + i]));
                }
                assert(received(events) =~= all.take(taken + n));
                assert(all_there(all.skip(taken + n)) =~= all_there(all.skip(taken)).skip(n));
            },
            Event::Other => {},
        }
        assert(start + sent(events) == (start + sent(events)).take(
            (start + sent(events)).len() as int,
        ));
    }
}

/// The messages that one receiver received, in order; `who` says who took each step.
pub open spec fn received_by<T>(events: Seq<Event<T>>, who: Seq<int>, c: int) -> Seq<T>
    decreases events.len(),
{
    if events.len() == 0 {
        Seq::empty()
    } else {
        let before = received_by(events.drop_last(), who.drop_last(), c);
        match events.last() {
            Event::Received(msg) if who.last() == c => before.push(msg),
            Event::Batch(msgs) if who.last() == c => before + msgs,
            _ => before,
        }
    }
}

/// Whether two messages were received by all together, the first before the second.
pub open spec fn came_in_order<T>(all: Seq<T>, first: T, second: T) -> bool {
    exists|i: int, j: int|
        0 <= i < j < all.len() && #[trigger] all[i] == first && #[trigger] all[j] == second
}

/// What one receiver received is part of what all received, in the same order.
proof fn lemma_received_by<T>(events: Seq<Event<T>>, who: Seq<int>, c: int)
    requires
        who.len() == events.len(),
    ensures
        forall|a: int|
            0 <= a < received_by(events, who, c).len() ==> received(events).contains(
                #[trigger] received_by(events, who, c)[a],
            ),
        forall|a: int, b: int|
            0 <= a < b < received_by(events, who, c).len() ==> came_in_order(
                received(events),
                #[trigger] received_by(events, who, c)[a],
                #[trigger] received_by(events, who, c)[b],
            ),
    decreases events.len(),
{
    if events.len() > 0 {
        lemma_received_by(events.drop_last(), who.drop_last(), c);
        let all_before = received(events.drop_last());
        let all = received(events);
        let mine_before = received_by(events.drop_last(), who.drop_last(), c);
        let mine = received_by(events, who, c);
        let n = all_before.len();
        let m = mine_before.len();
        let mine_too = who.last() == c;
        assert forall|i: int| 0 <= i < n implies #[trigger] all[i] == all_before[i] by {}
        assert forall|a: int| m <= a < mine.len() implies n + (a - m) < all.len()
            && #[trigger] mine[a] == all[n + (a - m)] by {}
        assert forall|a: int| 0 <= a < mine.len() implies all.contains(#[trigger] mine[a]) by {
            if a < m {
                assert(mine[a] == mine_before[a]);
                let i = choose|i: int| 0 <= i < n && all_before[i] == mine_before[a];
                assert(all[i] == mine[a]);
            }
        }
        assert forall|a: int, b: int| 0 <= a < b < mine.len() implies came_in_order(
            all,
            #[trigger] mine[a],
            #[trigger] mine[b],
        ) by {
            if b < m {
                assert(mine[a] == mine_before[a] && mine[b] == mine_before[b]);
                assert(came_in_order(all_before, mine_before[a], mine_before[b]));
                let (i, j) = choose|i: int, j: int|
                    0 <= i < j < n && #[trigger] all_before[i] == mine_before[a]
                        && #[trigger] all_before[j] == mine_before[b];
                assert(all[i] == mine[a] && all[j] == mine[b]);
            } else if a < m {
                assert(mine[a] == mine_before[a]);
                let i = choose|i: int| 0 <= i < n && all_before[i] == mine_before[a];
                assert(all[i] == mine[a] && all[n + (b - m)] == mine[b]);
            } else {
                assert(all[n + (a - m)] == mine[a] && all[n + (b - m)] == mine[b]);
            }
        }
    }
}

/// Every single receiver gets the messages of one producer in that producer's order of
/// sending: where the messages of a producer are numbered as they are sent, the numbers
/// that one receiver gets of it only grow.
pub proof fn law_each_receiver_keeps_each_producers_order<T, W>(
    states: Seq<Channel<T, W>>,
    events: Seq<Event<T>>,
    who: Seq<int>,
    c: int,
    producer: spec_fn(T) -> int,
    number: spec_fn(T) -> int,
)
    requires
        states.len() == events.len() + 1,
        who.len() == events.len(),
        states[0].messages().len() == 0,
        forall|i: int|
            0 <= i < events.len() ==> is_step(states[i], #[trigger] events[i], states[i + 1]),
        forall|i: int, j: int|
            0 <= i < j < sent(events).len() && producer(sent(events)[i]) == producer(
                sent(events)[j],
            ) ==> number(#[trigger] sent(events)[i]) < number(#[trigger] sent(events)[j]),
    ensures
        forall|a: int, b: int|
            0 <= a < b < received_by(events, who, c).len() && producer(
                received_by(events, who, c)[a],
            ) == producer(received_by(events, who, c)[b]) ==> number(
                #[trigger] received_by(events, who, c)[a],
            ) < number(#[trigger] received_by(events, who, c)[b]),
{
    assert(states[0].messages() =~= all_there(Seq::<T>::empty()));
    law_first_in_first_out(Seq::empty(), states, events);
    lemma_received_by(events, who, c);
    assert(Seq::<T>::empty() + sent(events) =~= sent(events));
    let mine = received_by(events, who, c);
    assert forall|a: int, b: int|
        0 <= a < b < mine.len() && producer(mine[a]) == producer(mine[b]) implies number(
        #[trigger] mine[a],
    ) < number(#[trigger] mine[b]) by {
        assert(came_in_order(received(events), mine[a], mine[b]));
        let (i, j) = choose|i: int, j: int|
            0 <= i < j < received(events).len() && #[trigger] received(events)[i] == mine[a]
                && #[trigger] received(events)[j] == mine[b];
        assert(received(events)[i] == sent(events)[i]);
        assert(received(events)[j] == sent(events)[j]);
    }
}

/// What a step of a producer or consumer did to the messages of a queue. Messages are
/// numbered by the ranks of their positions.
pub enum QueueEvent<T> {
    /// A producer claimed the next number.
    Claimed,
    /// The producer that claimed this number published its message.
    Published(int, T),
    /// A consumer claimed the oldest message.
    Taken(T),
    /// Something else: the messages are as they were.
    Other,
}

/// Whether one step led from `pre` to `post`.
pub open spec fn is_queue_step<T>(pre: Queue<T>, event: QueueEvent<T>, post: Queue<T>) -> bool {
    let first = position::rank(pre.head_index());
    match event {
        QueueEvent::Claimed => {
            &&& post.cells() == pre.cells().push(None)
            &&& post.head_index() == pre.head_index()
        },
        QueueEvent::Published(k, msg) => {
            &&& first <= k < first + pre.cells().len()
            &&& pre.cells()[k - first] is None
            &&& post.cells() == pre.cells().update(k - first, Some(msg))
            &&& post.head_index() == pre.head_index()
        },
        QueueEvent::Taken(msg) => {
            &&& pre.cells().len() > 0
            &&& pre.cells()[0] == Some(msg)
            &&& post.cells() == pre.cells().drop_first()
            &&& position::rank(post.head_index()) == first + 1
        },
        QueueEvent::Other => {
            &&& post.cells() == pre.cells()
            &&& position::rank(post.head_index()) == first
        },
    }
}

/// The message that was published under a number, if it was.
pub open spec fn published_as<T>(events: Seq<QueueEvent<T>>, k: int) -> Option<T>
    decreases events.len(),
{
    if events.len() == 0 {
        None
    } else {
        match events.last() {
            QueueEvent::Published(n, msg) if n == k => Some(msg),
            _ => published_as(events.drop_last(), k),
        }
    }
}

/// How often a message was published under a number.
pub open spec fn times_published<T>(events: Seq<QueueEvent<T>>, k: int) -> nat
    decreases events.len(),
{
    if events.len() == 0 {
        0
    } else {
        match events.last() {
            QueueEvent::Published(n, _) if n == k => times_published(events.drop_last(), k) + 1,
            _ => times_published(events.drop_last(), k),
        }
    }
}

/// The messages that consumers claimed, in order.
pub open spec fn taken<T>(events: Seq<QueueEvent<T>>) -> Seq<T>
    decreases events.len(),
{
    if events.len() == 0 {
        Seq::empty()
    } else {
        match events.last() {
            QueueEvent::Taken(msg) => taken(events.drop_last()).push(msg),
            _ => taken(events.drop_last()),
        }
    }
}

/// Producers and consumers take their steps in any order, and producers publish in any
/// order: the messages are taken in the order of the claims, each exactly as it was
/// published and each once, and no message is published twice.
pub proof fn law_claims_are_taken_in_order<T>(
    states: Seq<Queue<T>>,
    events: Seq<QueueEvent<T>>,
)
    requires
        states.len() == events.len() + 1,
        states[0].cells().len() == 0,
        forall|i: int|
            0 <= i < events.len() ==> is_queue_step(states[i], #[trigger] events[i], states[i + 1]),
    ensures
        ({
            let start = position::rank(states[0].head_index());
            let n = taken(events).len();
            &&& position::rank(states.last().head_index()) == start + n
            &&& forall|i: int|
                0 <= i < n ==> published_as(events, start + i) == Some(#[trigger] taken(events)[i])
            &&& forall|i: int|
                0 <= i < states.last().cells().len() ==> #[trigger] states.last().cells()[i]
                    == published_as(events, start + n + i)
            &&& forall|k: int|
                k < start || k >= start + n + states.last().cells().len() ==> #[trigger] published_as(
                    events,
                    k,
                ) is None
            &&& forall|k: int|
                #[trigger] times_published(events, k) == (if published_as(events, k) is Some {
                    1nat
                } else {
                    0nat
                })
        }),
    decreases events.len(),
{
    let start = position::rank(states[0].head_index());
    if events.len() > 0 {
        let before = events.drop_last();
        let m = before.len() as int;
        assert forall|i: int| 0 <= i < before.len() implies is_queue_step(
            states.drop_last()[i],
            #[trigger] before[i],
            states.drop_last()[i + 1],
        ) by {
            assert(before[i] == events[i]);
        }
        law_claims_are_taken_in_order(states.drop_last(), before);
        let pre = states[m];
        let post = states[m + 1];
        assert(is_queue_step(pre, events[m], post));
        let n = taken(before).len();
        let first = position::rank(pre.head_index());
        assert(first == start + n);
        assert forall|k: int| #[trigger] published_as(events, k) == (match events.last() {
            QueueEvent::Published(j, msg) => if j == k {
                Some(msg)
            } else {
                published_as(before, k)
            },
            _ => published_as(before, k),
        }) by {}
        match events.last() {
            QueueEvent::Published(k, msg) => {
                assert(pre.cells()[k - first] == published_as(before, start + n + (k - first)));
                assert forall|i: int| 0 <= i < n implies published_as(events, start + i) == Some(
                    #[trigger] taken(events)[i],
                ) by {
                    assert(taken(before)[i] == taken(events)[i]);
                }
                assert forall|j: int|
                    #[trigger] times_published(events, j) == (if published_as(events, j) is Some {
                        1nat
                    } else {
                        0nat
                    }) by {
                    assert(times_published(before, j) == (if published_as(before, j) is Some {
                        1nat
                    } else {
                        0nat
                    }));
                }
            },
            QueueEvent::Taken(msg) => {
                assert(pre.cells()[0] == published_as(before, start + n + 0));
                assert forall|i: int| 0 <= i < taken(events).len() implies published_as(
                    events,
                    start + i,
                ) == Some(#[trigger] taken(events)[i]) by {
                    if i < n {
                        assert(taken(before)[i] == taken(events)[i]);
                    }
                }
                assert forall|i: int| 0 <= i < post.cells().len() implies #[trigger] post.cells()[i]
                    == published_as(events, start + (n + 1) + i) by {
                    assert(pre.cells()[i + 1] == published_as(before, start + n + (i + 1)));
                }
                assert forall|j: int|
                    #[trigger] times_published(events, j) == (if published_as(events, j) is Some {
                        1nat
                    } else {
                        0nat
                    }) by {
                    assert(times_published(before, j) == (if published_as(before, j) is Some {
                        1nat
                    } else {
                        0nat
                    }));
                }
            },
            _ => {
                assert forall|i: int| 0 <= i < post.cells().len() implies #[trigger] post.cells()[i]
                    == published_as(events, start + n + i) by {
                    if i < pre.cells().len() {
                        assert(pre.cells()[i] == published_as(before, start + n + i));
                    } else {
                        assert(published_as(before, start + n + i) is None);
                    }
                }
                assert forall|i: int| 0 <= i < n implies published_as(events, start + i) == Some(
                    #[trigger] taken(events)[i],
                ) by {
                    assert(taken(before)[i] == taken(events)[i]);
                }
                assert forall|j: int|
                    #[trigger] times_published(events, j) == (if published_as(events, j) is Some {
                        1nat
                    } else {
                        0nat
                    }) by {
                    assert(times_published(before, j) == (if published_as(before, j) is Some {
                        1nat
                    } else {
                        0nat
                    }));
                }
            },
        }
    }
}

/// A message that is sent on an empty channel is what the next receive gives, and the
/// channel is empty again.
pub proof fn law_receive_undoes_send<T, W>(
    pre: Channel<T, W>,
    mid: Channel<T, W>,
    post: Channel<T, W>,
    msg: T,
    sending: Result<(), TrySendError<T>>,
    receiving: Result<T, RecvState>,
    woken: Option<W>,
    woken_later: Option<W>,
)
    requires
        pre.messages().len() == 0,
        sending is Ok,
        Channel::did_send(pre, mid, msg, sending, woken),
        mid.is_settled(),
        Channel::did_receive(mid, post, receiving, woken_later),
    ensures
        receiving == Ok::<T, RecvState>(msg),
        post.messages() == pre.messages(),
{
    mid.lemma_ready();
    assert(mid.messages()[0] == Some(msg));
    assert(post.messages() =~= pre.messages());
}

/// A poll of a receive that nobody disturbs takes the oldest message, or tells of the close
/// of an empty channel, or registers and waits. Its second look finds what the first one
/// found, and changes nothing.
pub proof fn law_an_undisturbed_receive<T, W>(
    pre: Channel<T, W>,
    mid: Channel<T, W>,
    post: Channel<T, W>,
    before: Option<WaiterToken>,
    looked: RecvPoll<T>,
    last: RecvPoll<T>,
    waker: W,
    first: After<W>,
)
    requires
        pre.wf(),
        pre.is_settled(),
        mid.wf(),
        mid.is_settled(),
        Channel::did_start_recv(pre, mid, RecvPoll::starting(before), looked, first),
        if looked.at is Finish {
            post == mid && last == looked
        } else {
            exists|rest: After<W>| #[trigger]
                Channel::did_wait_recv(mid, post, looked, last, waker, rest)
        },
    ensures
        Channel::did_poll_recv(pre, post, before, waker, last.outcome(), last.token, first),
{
    pre.lemma_ready();
    mid.lemma_ready();
    if !(looked.at is Finish) {
        let rest = choose|rest: After<W>| #[trigger]
            Channel::did_wait_recv(mid, post, looked, last, waker, rest);
        let list = mid.recv_waiters();
        mid.queue().lemma_ends();
        position::lemma_message_positions(mid.queue().head_index(), mid.queue().tail_index());
        assert(poll::left(pre.recv_waiters(), list, before, first.dropped));
        assert(WaiterList::registered(list, post.recv_waiters(), last.token->0, waker));
        WaiterList::lemma_registered(list, post.recv_waiters(), last.token->0, waker);
    }
}

/// A poll of a send that nobody disturbs hands the message back where the channel is
/// closed, sends it where there is room, and otherwise registers and waits. Its second look
/// finds what the first one found.
pub proof fn law_an_undisturbed_send<T, W>(
    pre: Channel<T, W>,
    mid: Channel<T, W>,
    post: Channel<T, W>,
    msg: T,
    before: Option<WaiterToken>,
    looked: SendPoll<T>,
    last: SendPoll<T>,
    waker: W,
    first: After<W>,
)
    requires
        pre.wf(),
        mid.wf(),
        Channel::did_start_send(pre, mid, SendPoll::starting(before, msg), looked, first),
        if looked.at is Finish {
            post == mid && last == looked
        } else {
            exists|rest: After<W>| #[trigger]
                Channel::did_wait_send(mid, post, looked, last, waker, rest)
        },
    ensures
        Channel::did_poll_send(pre, post, msg, before, waker, last.outcome(), last.token, first),
{
    if !(looked.at is Finish) {
        let rest = choose|rest: After<W>| #[trigger]
            Channel::did_wait_send(mid, post, looked, last, waker, rest);
        let list = mid.send_waiters();
        assert(poll::left(pre.send_waiters(), list, before, first.dropped));
        assert(WaiterList::registered(list, post.send_waiters(), last.token->0, waker));
        WaiterList::lemma_registered(list, post.send_waiters(), last.token->0, waker);
    }
}

/// A receive is determined by the channel: for the sole receiver and for one of many it
/// gives the same message, and leaves the same ones.
pub proof fn law_receive_is_determined<T, W>(
    pre: Channel<T, W>,
    one: Channel<T, W>,
    other: Channel<T, W>,
    r: Result<T, RecvState>,
    s: Result<T, RecvState>,
    woken: Option<W>,
    woken_too: Option<W>,
)
    requires
        Channel::did_receive(pre, one, r, woken),
        Channel::did_receive(pre, other, s, woken_too),
    ensures
        r == s,
        woken == woken_too,
        one.messages() == other.messages(),
        one.send_waiters().slots() == other.send_waiters().slots(),
{
}

/// The order in which claims are published does not matter: what a message's place is was
/// settled when it was claimed.
pub proof fn law_claims_settle_the_order<T>(queue: Queue<T>, p: int, q: int, x: T, y: T)
    requires
        queue.wf(),
        queue.is_pending(p),
        queue.is_pending(q),
        p < q,
    ensures
        queue.place(p) < queue.place(q),
        queue.cells().update(queue.place(p), Some(x)).update(queue.place(q), Some(y))
            == queue.cells().update(queue.place(q), Some(y)).update(queue.place(p), Some(x)),
{
    queue.lemma_ends();
    position::lemma_rank_monotonic(p, q);
    position::lemma_rank_monotonic(queue.head_index(), p);
    assert(queue.cells().update(queue.place(p), Some(x)).update(queue.place(q), Some(y))
        =~= queue.cells().update(queue.place(q), Some(y)).update(queue.place(p), Some(x)));
}

// ---------------------------------------------------------------------- capacity

/// A channel never holds more messages than its capacity.
pub proof fn law_within_capacity<T, W>(channel: Channel<T, W>)
    requires
        channel.wf(),
    ensures
        queue::within(channel.messages().len() as int, channel.bound()),
{
    channel.queue().lemma_ends();
}

/// A channel without a bound is never full.
pub proof fn law_unbounded_is_never_full<T, W>(
    pre: Channel<T, W>,
    post: Channel<T, W>,
    msg: T,
    r: Result<(), TrySendError<T>>,
    woken: Option<W>,
)
    requires
        pre.wf(),
        pre.bound() is None,
        pre.queue().has_room(),
        Channel::did_send(pre, post, msg, r, woken),
    ensures
        r is Ok <==> !pre.closed(),
{
}

/// A send that fails says why: either the channel is closed, or it is open and holds as
/// many messages as its capacity.
pub proof fn law_full_or_closed<T, W>(
    pre: Channel<T, W>,
    post: Channel<T, W>,
    msg: T,
    e: TrySendError<T>,
    woken: Option<W>,
)
    requires
        pre.wf(),
        pre.queue().has_room(),
        Channel::did_offer(pre, post, msg, Err(e), woken),
    ensures
        e is Full <==> !pre.closed() && (pre.bound() matches Some(c) && c
            == pre.messages().len()),
        e is Full <==> !(e is Closed),
        e.message() == msg,
{
    pre.queue().lemma_ends();
}

// ------------------------------------------------------------------------- close

/// What was sent before a close is received before anybody is told of the close: a receive
/// that finds a message gives it, closed or not, and only an empty channel is reported as
/// closed.
pub proof fn law_drained_before_closed<T, W>(
    pre: Channel<T, W>,
    post: Channel<T, W>,
    r: Result<T, RecvState>,
    woken: Option<W>,
)
    requires
        pre.is_settled(),
        Channel::did_receive(pre, post, r, woken),
    ensures
        pre.messages().len() > 0 ==> r is Ok && Some(r->Ok_0) == pre.messages()[0],
        pre.messages().len() == 0 ==> r == Err::<T, _>(
            if pre.closed() {
                RecvState::Closed
            } else {
                RecvState::Empty
            },
        ),
{
    pre.lemma_ready();
}

/// A channel is closed once: closing it again changes nothing and wakes nobody.
pub proof fn law_closed_once<T, W>(
    pre: Channel<T, W>,
    mid: Channel<T, W>,
    post: Channel<T, W>,
    first: Option<Seq<W>>,
    second: Option<Seq<W>>,
)
    requires
        Channel::did_close(pre, mid, first),
        Channel::did_close(mid, post, second),
    ensures
        mid.closed(),
        post.closed(),
        second is None,
        post.messages() == pre.messages(),
        post.recv_waiters() == mid.recv_waiters(),
        post.send_waiters() == mid.send_waiters(),
{
}

/// A closed channel takes no message: it is handed back, and nothing changes.
pub proof fn law_closed_refuses<T, W>(
    pre: Channel<T, W>,
    post: Channel<T, W>,
    msg: T,
    r: Result<(), TrySendError<T>>,
    woken: Option<W>,
)
    requires
        pre.closed(),
        Channel::did_offer(pre, post, msg, r, woken),
    ensures
        r == Err::<(), _>(TrySendError::Closed(msg)),
        post == pre,
{
}

/// Whether some step led from `pre` to `post`: sending, receiving one message or a batch,
/// closing, registering, leaving, or counting a handle.
pub open spec fn is_any_step<T, W>(pre: Channel<T, W>, post: Channel<T, W>) -> bool {
    ||| exists|msg: T, r: Result<(), TrySendError<T>>, woken: Option<W>| #[trigger]
        Channel::did_offer(pre, post, msg, r, woken)
    ||| exists|r: Result<T, RecvState>, woken: Option<W>| #[trigger]
        Channel::did_receive(pre, post, r, woken)
    ||| exists|limit: usize, count: usize, before: Seq<T>, after: Seq<T>, woken: Seq<W>| #[trigger]
        Channel::did_receive_many(pre, post, limit, count, before, after, woken)
    ||| exists|limit: usize, count: usize, before: Seq<T>, after: Seq<T>, woken: Seq<W>| #[trigger]
        Channel::did_drain(pre, post, limit, count, before, after, woken)
    ||| exists|woken: Option<Seq<W>>| #[trigger] Channel::did_close(pre, post, woken)
    ||| exists|t: WaiterToken, waker: W| #[trigger]
        Channel::did_park_sender(pre, post, t, waker)
    ||| exists|t: WaiterToken, waker: W| #[trigger]
        Channel::did_park_receiver(pre, post, t, waker)
    ||| exists|token: Option<WaiterToken>, forward: bool, gone: Unregistered<W>| #[trigger]
        Channel::did_leave_senders(pre, post, token, forward, gone)
    ||| exists|token: Option<WaiterToken>, forward: bool, gone: Unregistered<W>| #[trigger]
        Channel::did_leave_receivers(pre, post, token, forward, gone)
    ||| Channel::did_add_sender(pre, post)
    ||| Channel::did_add_receiver(pre, post)
    ||| exists|woken: Option<Seq<W>>| #[trigger] Channel::did_remove_sender(pre, post, woken)
    ||| exists|woken: Option<Seq<W>>| #[trigger] Channel::did_remove_receiver(pre, post, woken)
}

/// No step opens a closed channel, and none changes its capacity.
pub proof fn law_closed_for_good<T, W>(pre: Channel<T, W>, post: Channel<T, W>)
    requires
        is_any_step(pre, post),
    ensures
        pre.closed() ==> post.closed(),
        post.bound() == pre.bound(),
{
}

// ----------------------------------------------------------------------- wake-ups

/// Whether one step of anybody led from `pre` to `post`, and the numbers of receivers that
/// are in the middle of a poll (`mid`) or about to look (`due`) from the first pair to the
/// second.
pub open spec fn is_receivers_step<T, W>(
    pre: Channel<T, W>,
    mid: nat,
    due: nat,
    post: Channel<T, W>,
    mid_after: nat,
    due_after: nat,
) -> bool {
    // A message was sent, or refused.
    ||| (exists|msg: T, r: Result<(), TrySendError<T>>, woken: Option<W>| #[trigger]
        Channel::did_send(pre, post, msg, r, woken)) && mid_after == mid && due_after == due
    // A message was received, by a receiver that was due or by another.
    ||| (exists|r: Result<T, RecvState>, woken: Option<W>|
        r is Ok && #[trigger] Channel::did_receive(pre, post, r, woken)) && mid_after == mid && (
    due_after == due || due_after + 1 == due)
    // Messages were received in a batch, by a receiver that was due or by another.
    ||| (exists|limit: usize, count: usize, before: Seq<T>, after: Seq<T>, woken: Seq<W>|
        0 < count && #[trigger] Channel::did_receive_many(
            pre,
            post,
            limit,
            count,
            before,
            after,
            woken,
        )) && mid_after == mid && (due_after == due || due_after + 1 == due)
    // The same, block after block.
    ||| (exists|limit: usize, count: usize, before: Seq<T>, after: Seq<T>, woken: Seq<W>|
        0 < count && #[trigger] Channel::did_drain(
            pre,
            post,
            limit,
            count,
            before,
            after,
            woken,
        )) && mid_after == mid && (due_after == due || due_after + 1 == due)
    // A receiver looked and found nothing; it goes on, or sleeps.
    ||| exists|r: Result<T, RecvState>, woken: Option<W>|
        r is Err && #[trigger] Channel::did_receive(pre, post, r, woken)
    // A receiver starts a poll: it gives up its registration, and is about to look.
    ||| (exists|t: WaiterToken, r: Unregistered<W>|
        pre.recv_waiters().is_owner(t) && #[trigger] WaiterList::gave_up(
            pre.recv_waiters(),
            post.recv_waiters(),
            t,
            false,
            r,
        )) && post.messages() == pre.messages() && mid_after == mid && due_after == due + 1
    // A receiver registers; it will look again.
    ||| (exists|t: WaiterToken, waker: W| #[trigger]
        WaiterList::registered(pre.recv_waiters(), post.recv_waiters(), t, waker))
        && post.messages() == pre.messages() && mid_after == mid + 1 && due_after == due
    // A receiver leaves: it gives up its sleep, or has a message after it registered.
    ||| (exists|t: WaiterToken, r: Unregistered<W>|
        pre.recv_waiters().is_owner(t) && #[trigger] WaiterList::gave_up(
            pre.recv_waiters(),
            post.recv_waiters(),
            t,
            true,
            r,
        )) && post.messages() == pre.messages() && due_after == due && (mid_after == mid
        || mid_after + 1 == mid)
    // The channel is closed.
    ||| exists|r: Option<Seq<W>>| !pre.closed() && #[trigger] Channel::did_close(pre, post, r)
    // Anything that concerns neither the messages nor the waiting receivers.
    ||| post.messages() == pre.messages() && post.recv_waiters() == pre.recv_waiters()
        && mid_after == mid && due_after == due
}

/// One step keeps the receivers attended.
proof fn lemma_receivers_step<T, W>(
    pre: Channel<T, W>,
    mid: nat,
    due: nat,
    post: Channel<T, W>,
    mid_after: nat,
    due_after: nat,
)
    requires
        pre.wf(),
        pre.is_settled(),
        is_receivers_step(pre, mid, due, post, mid_after, due_after),
        pre.receivers_attended(mid, due),
    ensures
        post.receivers_attended(mid_after, due_after),
{
    let list = pre.recv_waiters();
    list.lemma_selected();
    pre.lemma_ready();
    if exists|t: WaiterToken, waker: W| #[trigger]
        WaiterList::registered(list, post.recv_waiters(), t, waker) {
        let (t, waker) = choose|t: WaiterToken, waker: W| #[trigger]
            WaiterList::registered(list, post.recv_waiters(), t, waker);
        WaiterList::lemma_registered(list, post.recv_waiters(), t, waker);
    }
}

/// No wake-up of a receiver is lost. Whatever steps senders and receivers take from a new
/// channel on, in any order: as long as a receiver sleeps, there are no more messages than
/// receivers that were woken or are about to look.
pub proof fn law_no_receiver_sleeps_in_vain<T, W>(
    states: Seq<Channel<T, W>>,
    mids: Seq<nat>,
    dues: Seq<nat>,
)
    requires
        states.len() > 0,
        mids.len() == states.len(),
        dues.len() == states.len(),
        forall|i: int| 0 <= i < states.len() ==> (#[trigger] states[i]).wf() && states[i].is_settled(),
        states[0].recv_waiters().waiting() == 0,
        forall|i: int|
            0 <= i < states.len() - 1 ==> is_receivers_step(
                #[trigger] states[i],
                mids[i],
                dues[i],
                states[i + 1],
                mids[i + 1],
                dues[i + 1],
            ),
    ensures
        states.last().receivers_attended(mids.last(), dues.last()),
    decreases states.len(),
{
    if states.len() > 1 {
        let n = states.len() - 2;
        let before = states.drop_last();
        assert forall|i: int| 0 <= i < before.len() implies (#[trigger] before[i]).wf()
            && before[i].is_settled() by {
            assert(before[i] == states[i]);
        }
        assert forall|i: int| 0 <= i < before.len() - 1 implies is_receivers_step(
            #[trigger] before[i],
            mids.drop_last()[i],
            dues.drop_last()[i],
            before[i + 1],
            mids.drop_last()[i + 1],
            dues.drop_last()[i + 1],
        ) by {
            assert(before[i] == states[i]);
        }
        law_no_receiver_sleeps_in_vain(before, mids.drop_last(), dues.drop_last());
        assert(states[n].wf() && states[n].is_settled());
        lemma_receivers_step(
            states[n],
            mids[n],
            dues[n],
            states[n + 1],
            mids[n + 1],
            dues[n + 1],
        );
    }
}

/// Whether one step of anybody led from `pre` to `post`, and the numbers of senders that
/// are in the middle of a poll (`mid`) or about to look (`due`) from the first pair to the
/// second.
pub open spec fn is_senders_step<T, W>(
    pre: Channel<T, W>,
    mid: nat,
    due: nat,
    post: Channel<T, W>,
    mid_after: nat,
    due_after: nat,
) -> bool {
    // A message was received, or nothing was found.
    ||| (exists|r: Result<T, RecvState>, woken: Option<W>| #[trigger]
        Channel::did_receive(pre, post, r, woken)) && mid_after == mid && due_after == due
    // Messages were received in a batch.
    ||| (exists|limit: usize, count: usize, before: Seq<T>, after: Seq<T>, woken: Seq<W>| #[trigger]
        Channel::did_receive_many(pre, post, limit, count, before, after, woken)) && mid_after == mid
        && due_after == due
    // The same, block after block.
    ||| (exists|limit: usize, count: usize, before: Seq<T>, after: Seq<T>, woken: Seq<W>| #[trigger]
        Channel::did_drain(pre, post, limit, count, before, after, woken)) && mid_after == mid
        && due_after == due
    // A message was sent, by a sender that was due or by another.
    ||| (exists|msg: T, r: Result<(), TrySendError<T>>, woken: Option<W>|
        r is Ok && #[trigger] Channel::did_send(pre, post, msg, r, woken)) && mid_after == mid && (
    due_after == due || due_after + 1 == due)
    // A sender found the channel full; it goes on, or sleeps.
    ||| exists|msg: T, r: Result<(), TrySendError<T>>, woken: Option<W>|
        !pre.closed() && r is Err && #[trigger] Channel::did_send(pre, post, msg, r, woken)
    // A sender starts a poll: it gives up its registration, and is about to look.
    ||| (exists|t: WaiterToken, r: Unregistered<W>|
        pre.send_waiters().is_owner(t) && #[trigger] WaiterList::gave_up(
            pre.send_waiters(),
            post.send_waiters(),
            t,
            false,
            r,
        )) && post.queue() == pre.queue() && mid_after == mid && due_after == due + 1
    // A sender registers; it will look again.
    ||| (exists|t: WaiterToken, waker: W| #[trigger]
        WaiterList::registered(pre.send_waiters(), post.send_waiters(), t, waker))
        && post.queue() == pre.queue() && mid_after == mid + 1 && due_after == due
    // A sender leaves: it gives up its sleep, or has sent after it registered.
    ||| (exists|t: WaiterToken, r: Unregistered<W>|
        pre.send_waiters().is_owner(t) && #[trigger] WaiterList::gave_up(
            pre.send_waiters(),
            post.send_waiters(),
            t,
            true,
            r,
        )) && post.queue() == pre.queue() && due_after == due && (mid_after == mid || mid_after + 1
        == mid)
    // The channel is closed.
    ||| exists|r: Option<Seq<W>>| !pre.closed() && #[trigger] Channel::did_close(pre, post, r)
    // Anything that concerns neither the queue nor the waiting senders.
    ||| post.queue() == pre.queue() && post.send_waiters() == pre.send_waiters() && mid_after == mid
        && due_after == due
}

/// One step keeps the senders attended.
proof fn lemma_senders_step<T, W>(
    pre: Channel<T, W>,
    mid: nat,
    due: nat,
    post: Channel<T, W>,
    mid_after: nat,
    due_after: nat,
)
    requires
        pre.wf(),
        pre.is_settled(),
        is_senders_step(pre, mid, due, post, mid_after, due_after),
        pre.senders_attended(mid, due),
    ensures
        post.senders_attended(mid_after, due_after),
{
    let list = pre.send_waiters();
    list.lemma_selected();
    list.lemma_settled();
    pre.lemma_ready();
    if exists|t: WaiterToken, waker: W| #[trigger]
        WaiterList::registered(list, post.send_waiters(), t, waker) {
        let (t, waker) = choose|t: WaiterToken, waker: W| #[trigger]
            WaiterList::registered(list, post.send_waiters(), t, waker);
        WaiterList::lemma_registered(list, post.send_waiters(), t, waker);
    }
    assert forall|limit: usize, count: usize, before: Seq<T>, after: Seq<T>, woken: Seq<W>|
        #[trigger] Channel::did_receive_many(
            pre,
            post,
            limit,
            count,
            before,
            after,
            woken,
        ) implies post.senders_attended(mid, due) by {
        waiters::lemma_many_selected(
            list.slots(),
            list.notify_cursor(),
            channel::at_most(count as nat, list.pending()),
        );
    }
    assert forall|limit: usize, count: usize, before: Seq<T>, after: Seq<T>, woken: Seq<W>|
        #[trigger] Channel::did_drain(
            pre,
            post,
            limit,
            count,
            before,
            after,
            woken,
        ) implies post.senders_attended(mid, due) by {
        waiters::lemma_many_selected(
            list.slots(),
            list.notify_cursor(),
            channel::at_most(count as nat, list.pending()),
        );
    }
}

/// No wake-up of a sender is lost. Whatever steps senders and receivers take from a new
/// channel on, in any order: as long as a sender sleeps, there is no more room than
/// senders that were woken or are about to look.
pub proof fn law_no_sender_sleeps_in_vain<T, W>(
    states: Seq<Channel<T, W>>,
    mids: Seq<nat>,
    dues: Seq<nat>,
)
    requires
        states.len() > 0,
        mids.len() == states.len(),
        dues.len() == states.len(),
        forall|i: int| 0 <= i < states.len() ==> (#[trigger] states[i]).wf() && states[i].is_settled(),
        states[0].send_waiters().waiting() == 0,
        forall|i: int|
            0 <= i < states.len() - 1 ==> is_senders_step(
                #[trigger] states[i],
                mids[i],
                dues[i],
                states[i + 1],
                mids[i + 1],
                dues[i + 1],
            ),
    ensures
        states.last().senders_attended(mids.last(), dues.last()),
    decreases states.len(),
{
    if states.len() > 1 {
        let n = states.len() - 2;
        let before = states.drop_last();
        assert forall|i: int| 0 <= i < before.len() implies (#[trigger] before[i]).wf()
            && before[i].is_settled() by {
            assert(before[i] == states[i]);
        }
        assert forall|i: int| 0 <= i < before.len() - 1 implies is_senders_step(
            #[trigger] before[i],
            mids.drop_last()[i],
            dues.drop_last()[i],
            before[i + 1],
            mids.drop_last()[i + 1],
            dues.drop_last()[i + 1],
        ) by {
            assert(before[i] == states[i]);
        }
        law_no_sender_sleeps_in_vain(before, mids.drop_last(), dues.drop_last());
        assert(states[n].wf() && states[n].is_settled());
        lemma_senders_step(states[n], mids[n], dues[n], states[n + 1], mids[n + 1], dues[n + 1]);
    }
}

/// The numbers of receivers in the middle of a poll and about to look, after a turn of a
/// receive from `p` to `q`. Who gives up an old registration is about to look; who
/// registers is in the middle until the second look puts it to sleep or it leaves.
pub open spec fn recv_numbers<T, W>(
    pre: Channel<T, W>,
    p: RecvPoll<T>,
    q: RecvPoll<T>,
    mid: nat,
    due: nat,
) -> (nat, nat) {
    let owned = p.token matches Some(t) && pre.recv_waiters().is_owner(t);
    match p.at {
        Turn::Leave if owned => (mid, due + 1),
        Turn::Look if q.seen matches Some(Ok(_)) && due > 0 => (mid, (due - 1) as nat),
        Turn::Register => (mid + 1, due),
        Turn::LookAgain if q.at is Sleep && mid > 0 => ((mid - 1) as nat, due),
        Turn::PassOn if owned && mid > 0 => ((mid - 1) as nat, due),
        _ => (mid, due),
    }
}

/// Every turn of a receive is one of the steps of [`law_no_receiver_sleeps_in_vain`], so
/// that no poll puts a receiver to sleep in vain.
pub proof fn law_a_receive_takes_such_steps<T, W>(
    pre: Channel<T, W>,
    post: Channel<T, W>,
    p: RecvPoll<T>,
    q: RecvPoll<T>,
    waker: Option<W>,
    patient: bool,
    after: After<W>,
    mid: nat,
    due: nat,
)
    requires
        Channel::did_recv_turn(pre, post, p, q, waker, patient, after),
    ensures
        is_receivers_step(
            pre,
            mid,
            due,
            post,
            recv_numbers(pre, p, q, mid, due).0,
            recv_numbers(pre, p, q, mid, due).1,
        ),
{
    match p.at {
        Turn::LookAgain => {
            let attempt = choose|attempt: Result<T, RecvState>| #[trigger]
                Channel::did_receive(pre, post, attempt, after.wake) && q.seen == Some(
                    post.rechecked(attempt, p.tail as int),
                );
            assert(Channel::did_receive(pre, post, attempt, after.wake));
        },
        Turn::Register => {
            assert(WaiterList::registered(
                pre.recv_waiters(),
                post.recv_waiters(),
                q.token->0,
                waker->0,
            ));
        },
        _ => {},
    }
}

/// The numbers of senders in the middle of a poll and about to look, after a turn of a send
/// from `p` to `q`.
pub open spec fn send_numbers<T, W>(
    pre: Channel<T, W>,
    p: SendPoll<T>,
    q: SendPoll<T>,
    mid: nat,
    due: nat,
) -> (nat, nat) {
    let owned = p.token matches Some(t) && pre.send_waiters().is_owner(t);
    match p.at {
        Turn::Leave if owned => (mid, due + 1),
        Turn::Look if q.seen == Some(SendSeen::Sent) && due > 0 => (mid, (due - 1) as nat),
        Turn::Register => (mid + 1, due),
        Turn::LookAgain if q.at is Sleep && mid > 0 => ((mid - 1) as nat, due),
        Turn::PassOn if owned && mid > 0 => ((mid - 1) as nat, due),
        _ => (mid, due),
    }
}

/// Every turn of a send is one of the steps of [`law_no_sender_sleeps_in_vain`], as long as
/// positions are left, so that no poll puts a sender to sleep in vain.
pub proof fn law_a_send_takes_such_steps<T, W>(
    pre: Channel<T, W>,
    post: Channel<T, W>,
    p: SendPoll<T>,
    q: SendPoll<T>,
    waker: Option<W>,
    after: After<W>,
    mid: nat,
    due: nat,
)
    requires
        pre.queue().has_room(),
        Channel::did_send_turn(pre, post, p, q, waker, after),
    ensures
        is_senders_step(
            pre,
            mid,
            due,
            post,
            send_numbers(pre, p, q, mid, due).0,
            send_numbers(pre, p, q, mid, due).1,
        ),
{
    match p.at {
        Turn::Look | Turn::LookAgain => {
            let r = choose|r: Result<(), TrySendError<T>>|
                {
                    &&& p.msg is Some
                    &&& #[trigger] Channel::did_offer(pre, post, p.msg->0, r, after.wake)
                    &&& q.seen == Some(poll::send_seen(r))
                    &&& q.msg == (if r is Ok {
                        None
                    } else {
                        p.msg
                    })
                };
            assert(Channel::did_send(pre, post, p.msg->0, r, after.wake));
        },
        Turn::Register => {
            assert(WaiterList::registered(
                pre.send_waiters(),
                post.send_waiters(),
                q.token->0,
                waker->0,
            ));
        },
        _ => {},
    }
}

/// Whether a party of `pre` that waits was woken in `post`, and `waker` is its waker.
pub open spec fn another_woken<W>(
    pre: WaiterList<W>,
    post: WaiterList<W>,
    t: WaiterToken,
    waker: Option<W>,
) -> bool {
    exists|j: int|
        {
            &&& 0 <= j < pre.slots().len() && j != t.slot
            &&& (#[trigger] pre.slots()[j]).state is Waiting
            &&& waker is Some && waker == pre.slots()[j].waker
            &&& post.slots()[j].state is Notified
        }
}

/// A receive that is done after it registered does not keep a wake-up for itself: if its
/// registration was selected before it leaves, and another receiver waits, that one is
/// woken in its place. `others` is the channel after whatever others did in between.
pub proof fn law_a_completing_receive_passes_a_wake_up_on<T, W>(
    pre: Channel<T, W>,
    looked: Channel<T, W>,
    others: Channel<T, W>,
    post: Channel<T, W>,
    p: RecvPoll<T>,
    g: RecvPoll<T>,
    q: RecvPoll<T>,
    t: WaiterToken,
    patient: bool,
    first: After<W>,
    last: After<W>,
)
    requires
        p.at is LookAgain,
        p.token == Some(t),
        Channel::did_recv_turn(pre, looked, p, g, None, patient, first),
        g.seen matches Some(Ok(_)) || g.seen == Some(Err::<T, _>(RecvState::Closed)),
        others.wf(),
        others.recv_waiters().is_owner(t),
        !(others.recv_waiters().slots()[t.slot as int].state is Waiting),
        others.recv_waiters().waiting() > 0,
        Channel::did_recv_turn(others, post, g, q, None, patient, last),
    ensures
        q.outcome() is Ready,
        q.token is None,
        another_woken(others.recv_waiters(), post.recv_waiters(), t, last.wake),
{
    lemma_passed_on(
        others.recv_waiters(),
        post.recv_waiters(),
        t,
        Unregistered { removed: last.dropped, forwarded: last.wake },
    );
}

/// A send that is done after it registered does not keep a wake-up for itself: if its
/// registration was selected before it leaves, and another sender waits, that one is woken
/// in its place. `others` is the channel after whatever others did in between.
pub proof fn law_a_completing_send_passes_a_wake_up_on<T, W>(
    pre: Channel<T, W>,
    looked: Channel<T, W>,
    others: Channel<T, W>,
    post: Channel<T, W>,
    p: SendPoll<T>,
    g: SendPoll<T>,
    q: SendPoll<T>,
    t: WaiterToken,
    first: After<W>,
    last: After<W>,
)
    requires
        p.at is LookAgain,
        p.token == Some(t),
        Channel::did_send_turn(pre, looked, p, g, None, first),
        g.seen == Some(SendSeen::Sent) || g.seen == Some(SendSeen::Closed),
        others.wf(),
        others.send_waiters().is_owner(t),
        !(others.send_waiters().slots()[t.slot as int].state is Waiting),
        others.send_waiters().waiting() > 0,
        Channel::did_send_turn(others, post, g, q, None, last),
    ensures
        q.outcome() is Ready,
        q.token is None,
        another_woken(others.send_waiters(), post.send_waiters(), t, last.wake),
{
    lemma_passed_on(
        others.send_waiters(),
        post.send_waiters(),
        t,
        Unregistered { removed: last.dropped, forwarded: last.wake },
    );
}

/// Giving up a registration that was selected, with a notification to pass on.
proof fn lemma_passed_on<W>(
    pre: WaiterList<W>,
    post: WaiterList<W>,
    t: WaiterToken,
    r: Unregistered<W>,
)
    requires
        pre.wf(),
        pre.is_owner(t),
        !(pre.slots()[t.slot as int].state is Waiting),
        pre.waiting() > 0,
        WaiterList::gave_up(pre, post, t, true, r),
    ensures
        another_woken(pre, post, t, r.forwarded),
{
    let rest = pre.slots_without(t.slot as int);
    let j = waiters::selected(rest, pre.notify_cursor())->0;
    assert(rest[j] == pre.slots()[j]);
}

/// Only the waker of the newest poll is woken: a party that waits and is polled again
/// registers its new waker in place of the old one, and if nobody else waits, the next
/// notification is for that waker.
pub proof fn law_the_newest_waker_is_woken<W>(
    pre: WaiterList<W>,
    mid: WaiterList<W>,
    post: WaiterList<W>,
    old_token: WaiterToken,
    token: WaiterToken,
    waker: W,
    dropped: Option<W>,
    woken: Option<W>,
)
    requires
        pre.wf(),
        mid.wf(),
        pre.is_owner(old_token),
        pre.slots()[old_token.slot as int].state is Waiting,
        pre.waiting() == 1,
        poll::rejoined(pre, mid, Some(old_token), token, waker, dropped),
        channel::woke_one(mid, post, woken),
    ensures
        dropped == pre.slots()[old_token.slot as int].waker,
        mid.waiting() == 1,
        woken == Some(waker),
        post.waiting() == 0,
{
    let list = choose|list: WaiterList<W>| #[trigger]
        poll::left(pre, list, Some(old_token), dropped) && WaiterList::registered(
            list,
            mid,
            token,
            waker,
        );
    lemma_left_wf(pre, list, old_token, dropped);
    WaiterList::lemma_registered(list, mid, token, waker);
    mid.lemma_selected();
    let i = token.slot as int;
    let without = mid.slots().update(i, waiters::free_slot::<W>());
    assert(waiters::is_waiting::<W>()(mid.slots()[i]));
    ring::lemma_count_update(mid.slots(), waiters::is_waiting::<W>(), i, without[i]);
    ring::lemma_count_zero(without, waiters::is_waiting::<W>());
    let j = waiters::selected(mid.slots(), mid.notify_cursor())->0;
    if j != i {
        assert(without[j] == mid.slots()[j]);
        assert(!waiters::is_waiting::<W>()(without[j]));
    }
}

/// Giving up a waiting registration keeps the list in order.
proof fn lemma_left_wf<W>(
    pre: WaiterList<W>,
    post: WaiterList<W>,
    t: WaiterToken,
    dropped: Option<W>,
)
    requires
        pre.wf(),
        pre.is_owner(t),
        pre.slots()[t.slot as int].state is Waiting,
        poll::left(pre, post, Some(t), dropped),
    ensures
        post.wf(),
{
    assert forall|i: int| 0 <= i < post.slots().len() implies #[trigger] WaiterList::slot_ok(
        post.slots()[i],
    ) by {
        assert(WaiterList::slot_ok(pre.slots()[i]));
    }
}

/// A batch wakes a waiting sender for each place that it frees, as far as senders wait.
pub proof fn law_a_batch_wakes_a_sender_for_each_place<T, W>(
    pre: Channel<T, W>,
    post: Channel<T, W>,
    limit: usize,
    count: usize,
    before: Seq<T>,
    after: Seq<T>,
    woken: Seq<W>,
)
    requires
        pre.wf(),
        pre.is_settled(),
        pre.bound() is Some,
        Channel::did_drain(pre, post, limit, count, before, after, woken)
            || Channel::did_receive_many(pre, post, limit, count, before, after, woken),
    ensures
        woken.len() == channel::at_most(count as nat, pre.send_waiters().waiting()),
        post.send_waiters().waiting() == pre.send_waiters().waiting() - woken.len(),
{
    let list = pre.send_waiters();
    list.lemma_settled();
    waiters::lemma_many_selected(
        list.slots(),
        list.notify_cursor(),
        channel::at_most(count as nat, list.pending()),
    );
}

/// Between polls, a message in front of a sleeping receiver means that another receiver was
/// woken for it and has not looked yet.
pub proof fn law_a_message_wakes_somebody<T, W>(channel: Channel<T, W>)
    requires
        channel.receivers_attended(0, 0),
        channel.recv_waiters().waiting() > 0,
        channel.messages().len() > 0,
    ensures
        channel.recv_waiters().notified() > 0,
{
}

/// A party that waits is counted: whoever looks at the count while it waits sees that
/// somebody does.
pub proof fn law_a_waiting_party_is_counted<W>(list: WaiterList<W>, t: WaiterToken)
    requires
        list.is_owner(t),
        list.slots()[t.slot as int].state is Waiting,
    ensures
        list.pending() > 0,
        list.waiting() > 0,
{
    ring::lemma_count_zero(list.slots(), waiters::is_pending::<W>());
    ring::lemma_count_zero(list.slots(), waiters::is_waiting::<W>());
    let s = list.slots()[t.slot as int];
    assert(waiters::is_pending::<W>()(s));
    assert(waiters::is_waiting::<W>()(s));
}

/// A receiver sleeps only if nothing is left of what was claimed before it registered: a
/// message that lies in front of it was claimed later, by a producer that saw it wait.
pub proof fn law_a_sleeper_misses_only_later_claims<T>(queue: Queue<T>, tail: int, k: int)
    requires
        queue.wf(),
        tail >= 0,
        position::message_positions(queue.head_index(), tail) == 0,
        0 <= k < queue.cells().len(),
    ensures
        position::nth(position::rank(queue.head_index()) + k) >= tail,
{
    queue.lemma_ends();
    let h = queue.head_index();
    position::lemma_message_positions(h, tail);
    position::lemma_rank(h);
    position::lemma_nth(position::rank(h) + k);
    let p = position::nth(position::rank(h) + k);
    if p < h {
        position::lemma_rank_monotonic(p, h);
    }
    if p < tail {
        position::lemma_rank_monotonic(h, tail);
        position::lemma_rank_monotonic(p, tail);
        position::lemma_rank_monotonic(h, p);
    }
}

/// Giving up a registration that nobody has noticed undoes it: the slots are as they were,
/// but for a page that may have been added, and the waker comes back.
pub proof fn law_cancel_undoes_register<W>(
    pre: WaiterList<W>,
    mid: WaiterList<W>,
    post: WaiterList<W>,
    t: WaiterToken,
    waker: W,
    forward: bool,
    r: Unregistered<W>,
)
    requires
        pre.wf(),
        WaiterList::registered(pre, mid, t, waker),
        WaiterList::gave_up(mid, post, t, forward, r),
    ensures
        post.slots() == pre.with_room(),
        r.removed == Some(waker),
        r.forwarded is None,
        post.waiting() == pre.waiting(),
        post.notified() == pre.notified(),
{
    WaiterList::lemma_registered(pre, mid, t, waker);
    assert(post.slots() =~= pre.with_room());
}

// ------------------------------------------------------------------------- blocks

/// Every block is in exactly one place: in the chain, kept aside, ready for use or retired.
pub proof fn law_blocks_are_conserved<T>(queue: Queue<T>, b: usize)
    requires
        queue.wf(),
        b < queue.block_count(),
    ensures
        queue.chain().contains(b) || queue.spare() == Some(b) || queue.ready().holds(b)
            || queue.retired().holds(b),
        queue.chain().contains(b) ==> queue.spare() != Some(b) && !queue.ready().holds(b)
            && !queue.retired().holds(b),
        queue.spare() == Some(b) ==> !queue.ready().holds(b) && !queue.retired().holds(b),
        queue.ready().holds(b) ==> !queue.retired().holds(b),
{
    assert(queue.places(b) == 1);
}

/// A state that an earlier lap left in a slot never passes for a message of a lap to come.
pub proof fn law_stale_states_never_match<T>(queue: Queue<T>, b: usize, o: int, lap: int)
    requires
        queue.wf(),
        queue.spare() == Some(b) || queue.ready().holds(b),
        0 <= o < 63,
        lap > queue.last_lap(),
    ensures
        queue.block(b).slots@[o].state != position::tag(lap),
{
    assert(queue.block(b).clean(queue.free_bound()));
}

/// What a search among retired blocks finds is one of them and satisfies what it looks for.
proof fn lemma_probe(
    slots: Seq<Option<usize>>,
    stored: nat,
    hint: int,
    k: nat,
    done: spec_fn(usize) -> bool,
)
    requires
        0 <= hint < slots.len(),
    ensures
        crate::pool::probe(slots, stored, hint, k, done) matches Some(b) ==> done(b)
            && slots.contains(Some(b)),
    decreases k,
{
    if k > 0 && stored > 0 {
        ring::lemma_find(slots.len() as int, hint, 64, crate::pool::occupied(slots));
        match ring::find(slots.len() as int, hint, 64, crate::pool::occupied(slots)) {
            Some(i) => {
                assert(slots.contains(slots[i]));
                if !done(slots[i]->0) {
                    let rest = slots.update(i, None);
                    lemma_probe(rest, (stored - 1) as nat, i, (k - 1) as nat, done);
                    if let Some(b) = crate::pool::probe(
                        rest,
                        (stored - 1) as nat,
                        i,
                        (k - 1) as nat,
                        done,
                    ) {
                        let j = choose|j: int| 0 <= j < rest.len() && rest[j] == Some(b);
                        assert(slots[j] == Some(b));
                    }
                }
            },
            None => {},
        }
    }
}

/// A block is not reused while a reader is at work in it: it is neither kept aside nor
/// ready for use, and is not reclaimed.
pub proof fn law_a_reader_keeps_its_block<T>(queue: Queue<T>, b: usize, o: int)
    requires
        queue.wf(),
        !(queue.stage(b, o) is Absent),
    ensures
        queue.spare() != Some(b),
        !queue.ready().holds(b),
        queue.reclaim_choice() != Some(b),
{
    let done = |c: usize| queue.block(c).all_read();
    let slots = queue.retired().slots();
    lemma_probe(slots, queue.retired().stored(), queue.retired().take_hint(), 4, done);
    assert(queue.chain().contains(queue.chain()[0]));
    assert(queue.link_ok(0));
    assert(queue.places(b) == 1);
    if queue.retired().holds(b) {
        assert(queue.retired_ok(b));
        assert(queue.block(b).read_marks@[o] == 0);
        assert(!queue.block(b).all_read());
    } else {
        if slots.contains(Some(b)) {
            let i = choose|i: int| 0 <= i < slots.len() && slots[i] == Some(b);
            assert(queue.retired().holds(b));
        }
    }
}

// --------------------------------------------------------- what an operation does

/// A batch takes out of the channel exactly the messages that it appends, and does nothing
/// else to the messages: over all the steps of the poll, what was taken out in order is what
/// was appended, and every step leaves the others as they were and adds none.
pub proof fn law_a_batch_takes_what_it_appends<T>(
    before: mpsc::Receiver<T>,
    after: mpsc::Receiver<T>,
    limit: usize,
    waker: Waker,
    awaiting: bool,
    had: Option<WaiterToken>,
    r: Polled<Result<usize, RecvError>>,
    got: Seq<T>,
    has: Option<WaiterToken>,
)
    requires
        limit > 0,
        after.is_later(before),
        before.shared().is_poll_recv_many(
            after.since(before),
            limit,
            waker,
            awaiting,
            had,
            r,
            got,
            has,
        ),
    ensures
        after.taken() == before.taken() + got,
        forall|p: int, i: int|
            0 <= p < after.since(before).len() && 0 <= i < after.since(before)[p].len() ==> (
            #[trigger] after.since(before)[p][i]).only_takes(),
        r matches Polled::Ready(Ok(n)) ==> n == got.len() && n <= limit,
        !(r matches Polled::Ready(Ok(_))) ==> got.len() == 0,
        got.len() < limit ==> emptied(after.since(before).last()),
{
    let pages = after.since(before);
    let shared = before.shared();
    reveal_with_fuel(vault::taken_on, 4);
    if !awaiting && got.len() > 0 && pages.len() == 1 && shared.is_drain(pages[0], limit, got) {
        lemma_drained(shared, pages[0], limit, got);
        assert(vault::taken_on(pages) =~= got);
    } else {
        let k: int = if awaiting {
            0
        } else {
            1
        };
        if !awaiting {
            lemma_drained(shared, pages[0], limit, Seq::empty());
        }
        match r {
            Polled::Ready(Ok(n)) => {
                shared.lemma_poll_takes(pages[k], waker, had, Polled::Ready(Ok(got[0])), has);
                lemma_drained(shared, pages[k + 1], (limit - 1) as usize, got.drop_first());
                assert(vault::taken_on(pages) =~= seq![got[0]] + got.drop_first());
                assert(seq![got[0]] + got.drop_first() =~= got);
            },
            Polled::Ready(Err(e)) => {
                shared.lemma_poll_takes(pages[k], waker, had, Polled::Ready(Err(e)), has);
                lemma_found_nothing(shared, pages[k], waker, had, Polled::Ready(Err(e)), has);
                assert(vault::taken_on(pages) =~= got);
            },
            Polled::Pending => {
                shared.lemma_poll_takes(pages[k], waker, had, Polled::Pending, has);
                lemma_found_nothing(shared, pages[k], waker, had, Polled::Pending, has);
                assert(vault::taken_on(pages) =~= got);
            },
        }
    }
}

/// Whether the last of some steps left no message.
pub open spec fn emptied<T>(steps: Seq<Step<T>>) -> bool {
    steps.len() > 0 && steps.last().post.messages().len() == 0
}

/// What a drain takes out and leaves.
proof fn lemma_drained<T>(shared: Shared<T>, steps: Seq<Step<T>>, limit: usize, got: Seq<T>)
    requires
        shared.is_drain(steps, limit, got),
    ensures
        vault::taken_in(steps) == got,
        got.len() <= limit,
        forall|i: int| 0 <= i < steps.len() ==> (#[trigger] steps[i]).only_takes(),
        got.len() < limit ==> emptied(steps),
{
    shared.lemma_drain_takes(steps, limit, got);
}

/// A poll without a message leaves the channel empty.
proof fn lemma_found_nothing<T>(
    shared: Shared<T>,
    steps: Seq<Step<T>>,
    waker: Waker,
    before: Option<WaiterToken>,
    r: Polled<Result<T, RecvError>>,
    after: Option<WaiterToken>,
)
    requires
        shared.is_poll_recv(steps, waker, before, r, after),
        !(r matches Polled::Ready(Ok(_))),
    ensures
        emptied(steps),
{
    steps[0].pre.lemma_ready();
    steps[0].post.lemma_ready();
    if steps.len() == 2 {
        steps[1].pre.lemma_ready();
        steps[1].post.lemma_ready();
    }
}

/// A receive takes out of the channel exactly the message that it is ready with, and does
/// nothing else to the messages; while it waits or tells of a close it takes none.
pub proof fn law_a_receive_takes_its_message_only<T>(
    shared: Shared<T>,
    steps: Seq<Step<T>>,
    waker: Waker,
    before: Option<WaiterToken>,
    r: Polled<Result<T, RecvError>>,
    after: Option<WaiterToken>,
)
    requires
        shared.is_poll_recv(steps, waker, before, r, after),
    ensures
        vault::taken_in(steps) == (match r {
            Polled::Ready(Ok(m)) => seq![m],
            _ => Seq::empty(),
        }),
        forall|i: int| 0 <= i < steps.len() ==> (#[trigger] steps[i]).only_takes(),
        !(r matches Polled::Ready(Ok(_))) ==> emptied(steps),
{
    shared.lemma_poll_takes(steps, waker, before, r, after);
    if !(r matches Polled::Ready(Ok(_))) {
        lemma_found_nothing(shared, steps, waker, before, r, after);
    }
}

/// Whether others only sent between some steps: what one step left is at the front of what
/// the next one found.
pub open spec fn only_sent_between<T>(steps: Seq<Step<T>>) -> bool {
    forall|i: int|
        0 <= i < steps.len() - 1 ==> (#[trigger] steps[i]).post.messages().is_prefix_of(
            steps[i + 1].pre.messages(),
        )
}

/// What a receiver takes out in several steps is in the order in which it was queued, and
/// nothing is skipped: if others only send in between, the messages that were there at first
/// are at the front of those that were taken and those that are left.
pub proof fn law_nothing_is_lost_between_receives<T>(steps: Seq<Step<T>>)
    requires
        steps.len() > 0,
        forall|i: int| 0 <= i < steps.len() ==> (#[trigger] steps[i]).only_takes(),
        only_sent_between(steps),
    ensures
        steps[0].pre.messages().is_prefix_of(
            vault::there(vault::taken_in(steps)) + steps.last().post.messages(),
        ),
    decreases steps.len(),
{
    let last = steps.last();
    if steps.len() == 1 {
        vault::lemma_one_step(steps);
    } else {
        let front = steps.drop_last();
        assert forall|i: int| 0 <= i < front.len() implies (#[trigger] front[i]).only_takes() by {
            assert(front[i] == steps[i]);
        }
        assert forall|i: int| 0 <= i < front.len() - 1 implies (
        #[trigger] front[i]).post.messages().is_prefix_of(front[i + 1].pre.messages()) by {
            assert(front[i] == steps[i]);
        }
        law_nothing_is_lost_between_receives(front);
        let n = front.len() - 1;
        assert(steps[n].post.messages().is_prefix_of(steps[n + 1].pre.messages()));
        assert(vault::there(vault::taken_in(steps)) =~= vault::there(vault::taken_in(front))
            + vault::there(last.taken()));
        let all = vault::there(vault::taken_in(front)) + last.pre.messages();
        assert(all =~= vault::there(vault::taken_in(steps)) + last.post.messages());
        let seen = vault::there(vault::taken_in(front)) + front.last().post.messages();
        assert(seen.is_prefix_of(all));
        assert(steps[0].pre.messages().is_prefix_of(all));
    }
}

/// Two receives one after the other, of one message or of many: the second takes up where
/// the first left off.
pub proof fn law_receives_follow_each_other<T>(
    first: mpsc::Receiver<T>,
    second: mpsc::Receiver<T>,
    third: mpsc::Receiver<T>,
)
    requires
        second.is_later(first),
        third.is_later(second),
    ensures
        third.taken() == first.taken() + vault::taken_on(second.since(first)) + vault::taken_on(
            third.since(second),
        ),
        third.shared() == first.shared(),
{
}

/// A close keeps every message: it is one step that leaves the messages as they are, closes
/// the channel and counts the same handles; it says whether the channel was open.
pub proof fn law_a_close_keeps_the_messages<T>(shared: Shared<T>, steps: Seq<Step<T>>, r: bool)
    requires
        shared.is_closing(steps, r),
    ensures
        steps.len() == 1,
        vault::taken_in(steps) == Seq::<T>::empty(),
        steps[0].post.messages() == steps[0].pre.messages(),
        steps[0].post.closed(),
        r == !steps[0].pre.closed(),
        steps[0].post.senders() == steps[0].pre.senders(),
        steps[0].post.receivers() == steps[0].pre.receivers(),
{
    vault::lemma_one_step(steps);
}

/// Nobody but the only receiver takes messages out of its channel: what is noted for anybody
/// else leaves every message where it is.
pub proof fn law_only_the_receiver_takes<T>(sheet: Sheet<T>, step: Step<T>)
    requires
        sheet.allows(step),
        step.single,
        !sheet.is_sole(),
    ensures
        step.taken() == Seq::<T>::empty(),
        step.pre.messages().is_prefix_of(step.post.messages()),
{
}

/// A send that is done has sent its message once, and a send that waits or is refused has
/// sent nothing; no step of it does anything else to the messages.
pub proof fn law_a_send_sends_once<T>(
    shared: Shared<T>,
    steps: Seq<Step<T>>,
    msg: T,
    waker: Waker,
    before: Option<WaiterToken>,
    r: Polled<Result<(), SendError<T>>>,
    after: Option<WaiterToken>,
)
    requires
        shared.is_poll_send(steps, msg, waker, before, r, after),
    ensures
        1 <= steps.len() <= 2,
        r matches Polled::Ready(Ok(_)) ==> steps.last().post.messages()
            == steps.last().pre.messages().push(Some(msg)),
        !(r matches Polled::Ready(Ok(_))) ==> steps.last().post.messages()
            == steps.last().pre.messages(),
        steps.len() == 2 ==> steps[0].post.messages() == steps[0].pre.messages(),
{
}

/// Whether a party that waits in `pre` was woken, and is not selected again.
pub open spec fn one_was_woken(pre: WaiterList<Waker>, post: WaiterList<Waker>) -> bool {
    exists|j: int|
        {
            &&& 0 <= j < pre.slots().len()
            &&& (#[trigger] pre.slots()[j]).state is Waiting
            &&& pre.slots()[j].waker is Some
            &&& wake::was_woken(pre.slots()[j].waker->0)
            &&& post.slots()[j].state is Notified
        }
}

/// A selected party that was told is one that waited and was woken.
proof fn lemma_told(pre: WaiterList<Waker>, post: WaiterList<Waker>, woken: Option<Waker>)
    requires
        pre.wf(),
        pre.waiting() > 0,
        channel::woke_one(pre, post, woken),
        wake::told(woken),
    ensures
        one_was_woken(pre, post),
{
    pre.lemma_selected();
    let j = waiters::selected(pre.slots(), pre.notify_cursor())->0;
    assert(pre.slots()[j].state is Waiting);
}

/// A send that succeeds wakes a receiver that waits: if any receiver waits when the message
/// is sent, one of them has been woken by the time the send returns.
pub proof fn law_a_send_wakes_a_receiver<T>(
    shared: Shared<T>,
    steps: Seq<Step<T>>,
    msg: T,
    waker: Waker,
    before: Option<WaiterToken>,
    r: Polled<Result<(), SendError<T>>>,
    after: Option<WaiterToken>,
)
    requires
        shared.is_poll_send(steps, msg, waker, before, r, after),
        r matches Polled::Ready(Ok(_)),
        steps.last().pre.recv_waiters().waiting() > 0,
    ensures
        one_was_woken(steps.last().pre.recv_waiters(), steps.last().post.recv_waiters()),
{
    let list = steps.last().pre.recv_waiters();
    let now = steps.last().post.recv_waiters();
    assert(exists|woken: Option<Waker>| #[trigger]
        channel::woke_one(list, now, woken) && wake::told(woken));
    let woken = choose|woken: Option<Waker>| #[trigger]
        channel::woke_one(list, now, woken) && wake::told(woken);
    lemma_told(list, now, woken);
}

/// The same of a send that does not wait.
pub proof fn law_a_try_send_wakes_a_receiver<T>(
    shared: Shared<T>,
    steps: Seq<Step<T>>,
    msg: T,
    r: Result<(), TrySendError<T>>,
)
    requires
        shared.is_sent(steps, msg, r),
        r is Ok,
        steps[0].pre.recv_waiters().waiting() > 0,
    ensures
        steps[0].post.messages() == steps[0].pre.messages().push(Some(msg)),
        one_was_woken(steps[0].pre.recv_waiters(), steps[0].post.recv_waiters()),
{
    let step = steps[0];
    let woken = choose|woken: Option<Waker>| #[trigger]
        Channel::did_offer(step.pre, step.post, msg, r, woken) && wake::told(woken);
    lemma_told(step.pre.recv_waiters(), step.post.recv_waiters(), woken);
}

/// A receive from a bounded channel wakes a sender that waits for the room it makes.
pub proof fn law_a_try_recv_wakes_a_sender<T>(
    shared: Shared<T>,
    steps: Seq<Step<T>>,
    r: Result<T, RecvState>,
)
    requires
        shared.is_received(steps, r),
        r is Ok,
        shared.rules().bound is Some,
        steps[0].pre.send_waiters().waiting() > 0,
    ensures
        one_was_woken(steps[0].pre.send_waiters(), steps[0].post.send_waiters()),
{
    let step = steps[0];
    let woken = choose|woken: Option<Waker>| #[trigger]
        Channel::did_receive(step.pre, step.post, r, woken) && wake::told(woken);
    step.pre.lemma_ready();
    lemma_told(step.pre.send_waiters(), step.post.send_waiters(), woken);
}

/// As many notifications as parties wait select every one of them.
proof fn lemma_everybody_selected(slots: Seq<waiters::WaiterSlot<Waker>>, cursor: int, i: int)
    requires
        slots.len() > 0,
        0 <= cursor < slots.len(),
        0 <= i < slots.len(),
        slots[i].state is Waiting,
    ensures
        waiters::woken(
            slots,
            cursor,
            ring::count_where(slots, waiters::is_waiting::<Waker>()),
        ).contains(slots[i].waker->0),
    decreases ring::count_where(slots, waiters::is_waiting::<Waker>()),
{
    let n = slots.len() as int;
    let k = ring::count_where(slots, waiters::is_waiting::<Waker>());
    let f = waiters::in_state(slots, waiters::SlotState::Waiting);
    ring::lemma_find(n, cursor, n as nat, f);
    ring::lemma_count_zero(slots, waiters::is_waiting::<Waker>());
    assert(waiters::is_waiting::<Waker>()(slots[i]));
    match waiters::selected(slots, cursor) {
        Some(j) => {
            let after = waiters::after_wake(slots, j);
            assert(waiters::is_waiting::<Waker>()(slots[j]));
            ring::lemma_count_update(slots, waiters::is_waiting::<Waker>(), j, after[j]);
            let all = waiters::woken(slots, cursor, k);
            let rest = waiters::woken(after, ring::next(n, j), (k - 1) as nat);
            assert(all == seq![slots[j].waker->0] + rest);
            if i == j {
                assert(all[0] == slots[i].waker->0);
            } else {
                assert(after[i] == slots[i]);
                lemma_everybody_selected(after, ring::next(n, j), i);
                let m = choose|m: int| 0 <= m < rest.len() && rest[m] == slots[i].waker->0;
                assert(all[m + 1] == slots[i].waker->0);
            }
        },
        None => {
            ring::lemma_full_miss(n, cursor, n as nat, f);
            assert(!f(i));
        },
    }
}

/// A close that closes the channel wakes everybody who waits, on both sides.
pub proof fn law_a_close_wakes_everybody<T>(shared: Shared<T>, steps: Seq<Step<T>>, i: int)
    requires
        shared.is_closing(steps, true),
    ensures
        0 <= i < steps[0].pre.recv_waiters().slots().len()
            && steps[0].pre.recv_waiters().slots()[i].state is Waiting ==> wake::was_woken(
            steps[0].pre.recv_waiters().slots()[i].waker->0,
        ),
        0 <= i < steps[0].pre.send_waiters().slots().len()
            && steps[0].pre.send_waiters().slots()[i].state is Waiting ==> wake::was_woken(
            steps[0].pre.send_waiters().slots()[i].waker->0,
        ),
{
    let step = steps[0];
    let woken = choose|woken: Option<Seq<Waker>>| #[trigger]
        Channel::did_close(step.pre, step.post, woken) && true == (woken is Some) && (
        woken matches Some(w) ==> wake::all_told(w));
    let all = woken->0;
    let a = step.pre.recv_waiters();
    let b = step.pre.send_waiters();
    let first = waiters::woken(a.slots(), a.notify_cursor(), a.waiting());
    let second = waiters::woken(b.slots(), b.notify_cursor(), b.waiting());
    assert(all == first + second);
    if 0 <= i < a.slots().len() && a.slots()[i].state is Waiting {
        lemma_everybody_selected(a.slots(), a.notify_cursor(), i);
        let m = choose|m: int| 0 <= m < first.len() && first[m] == a.slots()[i].waker->0;
        assert(all[m] == first[m]);
    }
    if 0 <= i < b.slots().len() && b.slots()[i].state is Waiting {
        lemma_everybody_selected(b.slots(), b.notify_cursor(), i);
        let m = choose|m: int| 0 <= m < second.len() && second[m] == b.slots()[i].waker->0;
        assert(all[first.len() + m] == second[m]);
    }
}

/// What a step does to the handles of a channel.
pub enum HandleEvent {
    /// A sender came.
    SenderCame,
    /// A sender went.
    SenderWent,
    /// A receiver came.
    ReceiverCame,
    /// A receiver went.
    ReceiverWent,
    /// Neither came or went.
    Other,
}

/// Whether one step led from `pre` to `post`.
pub open spec fn is_handle_step<T, W>(
    pre: Channel<T, W>,
    event: HandleEvent,
    post: Channel<T, W>,
) -> bool {
    match event {
        HandleEvent::SenderCame => Channel::did_add_sender(pre, post),
        HandleEvent::SenderWent => exists|woken: Option<Seq<W>>| #[trigger]
            Channel::did_remove_sender(pre, post, woken),
        HandleEvent::ReceiverCame => Channel::did_add_receiver(pre, post),
        HandleEvent::ReceiverWent => exists|woken: Option<Seq<W>>| #[trigger]
            Channel::did_remove_receiver(pre, post, woken),
        HandleEvent::Other => {
            &&& post.senders() == pre.senders()
            &&& post.receivers() == pre.receivers()
            &&& pre.closed() ==> post.closed()
        },
    }
}

/// How many senders there are after some events, from one on.
pub open spec fn senders_after(events: Seq<HandleEvent>) -> int
    decreases events.len(),
{
    if events.len() == 0 {
        1
    } else {
        senders_after(events.drop_last()) + (match events.last() {
            HandleEvent::SenderCame => 1,
            HandleEvent::SenderWent => -1,
            _ => 0int,
        })
    }
}

/// How many receivers there are after some events, from one on.
pub open spec fn receivers_after(events: Seq<HandleEvent>) -> int
    decreases events.len(),
{
    if events.len() == 0 {
        1
    } else {
        receivers_after(events.drop_last()) + (match events.last() {
            HandleEvent::ReceiverCame => 1,
            HandleEvent::ReceiverWent => -1,
            _ => 0int,
        })
    }
}

/// A channel counts the handles that there are: it begins with one sender and one receiver,
/// and whatever comes and goes, its numbers are those of the handles. When the last handle
/// of a side has gone, it is closed.
pub proof fn law_handles_are_counted<T, W>(
    capacity: Option<usize>,
    states: Seq<Channel<T, W>>,
    events: Seq<HandleEvent>,
)
    requires
        states.len() == events.len() + 1,
        states[0].is_fresh(capacity),
        forall|i: int|
            0 <= i < events.len() ==> is_handle_step(states[i], #[trigger] events[i], states[i + 1]),
        forall|i: int|
            0 <= i <= events.len() ==> 0 <= senders_after(#[trigger] events.take(i)) <= usize::MAX
                && 0 <= receivers_after(events.take(i)) <= usize::MAX,
    ensures
        states.last().senders() == senders_after(events),
        states.last().receivers() == receivers_after(events),
        senders_after(events) == 0 || receivers_after(events) == 0 ==> states.last().closed(),
    decreases events.len(),
{
    assert(events.take(events.len() as int) =~= events);
    if events.len() > 0 {
        let front = events.drop_last();
        let n = front.len() as int;
        assert forall|i: int| 0 <= i < front.len() implies is_handle_step(
            states.drop_last()[i],
            #[trigger] front[i],
            states.drop_last()[i + 1],
        ) by {
            assert(front[i] == events[i]);
        }
        assert forall|i: int| 0 <= i <= front.len() implies 0 <= senders_after(
            #[trigger] front.take(i),
        ) <= usize::MAX && 0 <= receivers_after(front.take(i)) <= usize::MAX by {
            assert(front.take(i) =~= events.take(i));
        }
        law_handles_are_counted(capacity, states.drop_last(), front);
        assert(front.take(n) =~= front);
        assert(events.take(n) =~= front);
        assert(is_handle_step(states[n], events[n], states[n + 1]));
    }
}

} // verus!
