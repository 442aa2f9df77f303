//! What the lock of a shared channel guards, and the books on who did what to it.
//!
//! Every change of a shared channel is a step that is noted on a sheet. Sheets come from a
//! [`Log`], which knows of every sheet it gave out, or from a [`Hub`], which a handle has.
//! A party that has one log and nothing else can therefore do nothing to the channel that
//! its log does not show.
//!
//! On a channel with one receiver only sheets of the receiver's own log give the right to
//! take messages out.
use std::task::Waker;
use vstd::prelude::*;

use crate::channel::Channel;
use crate::errors::TryRecvError;
use crate::errors::TrySendError;
use crate::poll::After;
use crate::poll::RecvPoll;
use crate::poll::SendPoll;
use crate::queue;
use crate::shared::Shared;
use crate::waiters::Unregistered;
use crate::waiters::WaiterToken;

verus! {

// -------------------------------------------------------------------------- books

/// One change of a shared channel.
pub struct Step<T> {
    /// The channel before.
    pub pre: Channel<T, Waker>,
    /// The channel after.
    pub post: Channel<T, Waker>,
    /// Whether it is a channel with one receiver.
    pub single: bool,
}

/// Messages, each of them published.
pub open spec fn there<T>(messages: Seq<T>) -> Seq<Option<T>> {
    messages.map_values(|m: T| Some(m))
}

impl<T> Step<T> {
    /// The messages that the step took out, oldest first.
    pub open spec fn taken(self) -> Seq<T> {
        let n = self.pre.messages().len() - self.post.messages().len();
        if n > 0 {
            Seq::new(n as nat, |i: int| self.pre.messages()[i]->0)
        } else {
            Seq::empty()
        }
    }

    /// Whether the step did nothing to the messages but take some from the front: the others
    /// are there as they were, and there are no new ones.
    pub open spec fn only_takes(self) -> bool {
        self.pre.messages() == there(self.taken()) + self.post.messages()
    }

    /// Whether every message that was there is there still, in the same place.
    pub open spec fn takes_nothing(self) -> bool {
        self.pre.messages().is_prefix_of(self.post.messages())
    }
}

/// The messages that some steps took out, in order.
pub open spec fn taken_in<T>(steps: Seq<Step<T>>) -> Seq<T>
    decreases steps.len(),
{
    if steps.len() == 0 {
        Seq::empty()
    } else {
        taken_in(steps.drop_last()) + steps.last().taken()
    }
}

/// The messages that the steps of a log took out, in order. A sheet that was not filed
/// shows none.
pub open spec fn taken_over<T>(pages: Seq<Option<Seq<Step<T>>>>) -> Seq<T>
    decreases pages.len(),
{
    if pages.len() == 0 {
        Seq::empty()
    } else {
        taken_over(pages.drop_last()) + (match pages.last() {
            Some(steps) => taken_in(steps),
            None => Seq::empty(),
        })
    }
}

/// Pages that were filed.
pub open spec fn filed<T>(pages: Seq<Seq<Step<T>>>) -> Seq<Option<Seq<Step<T>>>> {
    pages.map_values(|steps: Seq<Step<T>>| Some(steps))
}

/// What was filed in a log between two moments.
pub open spec fn since<T>(
    before: Seq<Option<Seq<Step<T>>>>,
    now: Seq<Option<Seq<Step<T>>>>,
) -> Seq<Seq<Step<T>>> {
    Seq::new((now.len() - before.len()) as nat, |i: int| now[before.len() + i]->0)
}

/// The messages that the steps on some pages took out, in order.
pub open spec fn taken_on<T>(pages: Seq<Seq<Step<T>>>) -> Seq<T>
    decreases pages.len(),
{
    if pages.len() == 0 {
        Seq::empty()
    } else {
        taken_on(pages.drop_last()) + taken_in(pages.last())
    }
}

/// More pages take out more messages, after those of the pages before.
pub proof fn lemma_taken_over<T>(log: Seq<Option<Seq<Step<T>>>>, pages: Seq<Seq<Step<T>>>)
    ensures
        taken_over(log + filed(pages)) == taken_over(log) + taken_on(pages),
        since(log, log + filed(pages)) == pages,
    decreases pages.len(),
{
    assert(since(log, log + filed(pages)) =~= pages);
    if pages.len() == 0 {
        assert(log + filed(pages) =~= log);
        assert(taken_over(log) + taken_on(pages) =~= taken_over(log));
    } else {
        let front = pages.drop_last();
        lemma_taken_over(log, front);
        assert((log + filed(pages)).drop_last() =~= log + filed(front));
        assert((log + filed(pages)).last() == Some(pages.last()));
        assert(taken_over(log + filed(pages)) =~= taken_over(log) + taken_on(pages));
    }
}

/// What a single page takes out.
pub proof fn lemma_one_page<T>(steps: Seq<Step<T>>)
    ensures
        taken_on(seq![steps]) == taken_in(steps),
{
    lemma_next_page(Seq::empty(), steps);
    assert(Seq::<Seq<Step<T>>>::empty().push(steps) =~= seq![steps]);
    assert(taken_on(seq![steps]) =~= taken_in(steps));
}

/// What one page more takes out.
pub proof fn lemma_next_page<T>(pages: Seq<Seq<Step<T>>>, steps: Seq<Step<T>>)
    ensures
        taken_on(pages.push(steps)) == taken_on(pages) + taken_in(steps),
{
    assert(pages.push(steps).drop_last() =~= pages);
}

/// What one step takes out.
pub proof fn lemma_one_step<T>(steps: Seq<Step<T>>)
    requires
        steps.len() == 1,
    ensures
        taken_in(steps) == steps[0].taken(),
{
    reveal_with_fuel(taken_in, 2);
    assert(taken_in(steps) =~= steps[0].taken());
}

/// What two steps take out.
pub proof fn lemma_two_steps<T>(steps: Seq<Step<T>>)
    requires
        steps.len() == 2,
    ensures
        taken_in(steps) == steps[0].taken() + steps[1].taken(),
{
    reveal_with_fuel(taken_in, 3);
    assert(taken_in(steps) =~= steps[0].taken() + steps[1].taken());
}

/// Pages after pages take out messages after messages.
pub proof fn lemma_more_pages<T>(pages: Seq<Seq<Step<T>>>, more: Seq<Seq<Step<T>>>)
    ensures
        filed(pages + more) == filed(pages) + filed(more),
        taken_on(pages + more) == taken_on(pages) + taken_on(more),
    decreases more.len(),
{
    assert(filed(pages + more) =~= filed(pages) + filed(more));
    if more.len() == 0 {
        assert(pages + more =~= pages);
        assert(taken_on(pages) + taken_on(more) =~= taken_on(pages));
    } else {
        lemma_more_pages(pages, more.drop_last());
        assert((pages + more).drop_last() =~= pages + more.drop_last());
        assert(taken_on(pages + more) =~= taken_on(pages) + taken_on(more));
    }
}

/// A sheet on which steps are noted.
pub struct Sheet<T> {
    identity: Ghost<int>,
    sole: Ghost<bool>,
    number: Ghost<int>,
    steps: Ghost<Seq<Step<T>>>,
}

impl<T> Sheet<T> {
    /// The channel whose steps it is for.
    pub closed spec fn identity(self) -> int {
        self.identity@
    }

    /// Whether it belongs to the only receiver.
    pub closed spec fn is_sole(self) -> bool {
        self.sole@
    }

    /// Its page in the log it is of, or something negative if it is of none.
    pub closed spec fn number(self) -> int {
        self.number@
    }

    /// The steps.
    pub closed spec fn steps(self) -> Seq<Step<T>> {
        self.steps@
    }

    /// Whether this is the sheet `before` with one more step.
    pub open spec fn follows(self, before: Self, step: Step<T>) -> bool {
        &&& self.identity() == before.identity()
        &&& self.is_sole() == before.is_sole()
        &&& self.number() == before.number()
        &&& self.steps() == before.steps().push(step)
    }

    /// Whether a step may be noted on it.
    pub open spec fn allows(self, step: Step<T>) -> bool {
        &&& step.pre.identity() == self.identity()
        &&& step.post.identity() == self.identity()
        &&& step.single && !self.is_sole() ==> step.takes_nothing()
    }

    /// Notes a step.
    fn note(&mut self, step: Ghost<Step<T>>)
        requires
            old(self).allows(step@),
        ensures
            final(self).follows(*old(self), step@),
    {
        self.steps = Ghost(self.steps@.push(step@));
    }
}

/// The log of one party: a page for each sheet that it gave out.
pub struct Log<T> {
    identity: Ghost<int>,
    sole: Ghost<bool>,
    pages: Ghost<Seq<Option<Seq<Step<T>>>>>,
}

impl<T> Log<T> {
    /// The channel whose steps it is for.
    pub closed spec fn identity(self) -> int {
        self.identity@
    }

    /// Whether it belongs to the only receiver.
    pub closed spec fn is_sole(self) -> bool {
        self.sole@
    }

    /// The pages: the steps of a sheet that was filed, or nothing for one that was not.
    pub closed spec fn pages(self) -> Seq<Option<Seq<Step<T>>>> {
        self.pages@
    }

    /// Whether the two logs differ in their pages at most.
    pub open spec fn same_party(self, other: Self) -> bool {
        self.identity() == other.identity() && self.is_sole() == other.is_sole()
    }

    /// The log with some more pages.
    pub closed spec fn with(self, pages: Seq<Seq<Step<T>>>) -> Self {
        Log { identity: self.identity, sole: self.sole, pages: Ghost(self.pages@ + filed(pages)) }
    }

    /// A log is known by its party and its pages.
    pub(crate) proof fn lemma_with(self, before: Self, pages: Seq<Seq<Step<T>>>)
        requires
            self.same_party(before),
            self.pages() == before.pages() + filed(pages),
        ensures
            self == before.with(pages),
    {
    }

    /// More pages and more pages are all those pages.
    pub(crate) proof fn lemma_with_more(self, pages: Seq<Seq<Step<T>>>, more: Seq<Seq<Step<T>>>)
        ensures
            self.with(pages).with(more) == self.with(pages + more),
    {
        lemma_more_pages(pages, more);
        assert(self.pages@ + filed(pages) + filed(more) =~= self.pages@ + filed(pages + more));
    }

    /// Gives out a sheet.
    pub(crate) fn sheet(&mut self) -> (r: Sheet<T>)
        ensures
            r.identity() == old(self).identity(),
            r.is_sole() == old(self).is_sole(),
            r.number() == old(self).pages().len(),
            r.steps() == Seq::<Step<T>>::empty(),
            final(self).same_party(*old(self)),
            final(self).pages() == old(self).pages().push(None),
        no_unwind
    {
        let number: Ghost<int> = Ghost(self.pages@.len() as int);
        self.pages = Ghost(self.pages@.push(None));
        Sheet { identity: self.identity, sole: self.sole, number, steps: Ghost(Seq::empty()) }
    }

    /// Files a sheet.
    pub(crate) fn file(&mut self, sheet: Sheet<T>)
        requires
            sheet.identity() == old(self).identity(),
            0 <= sheet.number() < old(self).pages().len(),
        ensures
            final(self).same_party(*old(self)),
            final(self).pages() == old(self).pages().update(sheet.number(), Some(sheet.steps())),
        no_unwind
    {
        self.pages = Ghost(self.pages@.update(sheet.number@, Some(sheet.steps@)));
    }
}

// -------------------------------------------------------------------------- vault

/// A channel behind a lock. Each change of it is noted.
pub struct Vault<T> {
    channel: Channel<T, Waker>,
    single: bool,
}

/// Wakers in a list, if there is one.
pub open spec fn listed(wakers: Option<Vec<Waker>>) -> Option<Seq<Waker>> {
    match wakers {
        Some(v) => Some(v@),
        None => None,
    }
}

impl<T> Vault<T> {
    /// The channel.
    pub closed spec fn channel(self) -> Channel<T, Waker> {
        self.channel
    }

    /// Whether there is only one receiver, for good.
    pub closed spec fn single(self) -> bool {
        self.single
    }

    /// The invariant: nobody is in the middle of a step.
    pub open spec fn wf(self) -> bool {
        &&& self.channel().wf()
        &&& self.channel().is_settled()
        &&& self.single() ==> self.channel().queue().is_single()
    }

    /// Whether it is the same vault, whatever is inside.
    pub open spec fn same_vault(self, other: Self) -> bool {
        &&& self.channel().identity() == other.channel().identity()
        &&& self.channel().bound() == other.channel().bound()
        &&& self.single() == other.single()
    }

    /// The step from here to `post`.
    pub open spec fn step_to(self, post: Self) -> Step<T> {
        Step { pre: self.channel(), post: post.channel(), single: self.single() }
    }

    /// A new channel, with the log of the party that receives from it.
    pub(crate) fn new(capacity: Option<usize>, single: bool) -> (r: (Self, Log<T>))
        requires
            capacity matches Some(c) ==> c >= 1,
        ensures
            r.0.wf(),
            r.0.single() == single,
            r.0.channel().is_fresh(capacity),
            r.1.identity() == r.0.channel().identity(),
            r.1.is_sole() == single,
            r.1.pages() == Seq::<Option<Seq<Step<T>>>>::empty(),
    {
        let channel: Channel<T, Waker> = Channel::new(capacity);
        let identity: Ghost<int> = Ghost(channel.identity());
        let log = Log { identity, sole: Ghost(single), pages: Ghost(Seq::empty()) };
        (Vault { channel, single }, log)
    }

    /// The channel, to look at.
    pub(crate) fn look(&self) -> (r: &Channel<T, Waker>)
        ensures
            *r == self.channel(),
    {
        &self.channel
    }

    /// Takes the channel apart and returns the messages that nobody received.
    pub(crate) fn into_unread(self) -> (r: Vec<T>)
        requires
            self.wf(),
        ensures
            r@ == queue::published(self.channel().messages()),
    {
        self.channel.into_unread()
    }

    /// Counts one more sender.
    pub(crate) fn add_sender(&mut self, sheet: &mut Sheet<T>)
        requires
            old(self).wf(),
            old(sheet).identity() == old(self).channel().identity(),
        ensures
            final(self).wf(),
            final(self).same_vault(*old(self)),
            final(sheet).follows(*old(sheet), old(self).step_to(*final(self))),
            Channel::did_add_sender(old(self).channel(), final(self).channel()),
    {
        let ghost before = *self;
        self.channel.add_sender();
        sheet.note(Ghost(before.step_to(*self)));
    }

    /// Counts one sender less.
    pub(crate) fn remove_sender(&mut self, sheet: &mut Sheet<T>) -> (r: Option<Vec<Waker>>)
        requires
            old(self).wf(),
            old(sheet).identity() == old(self).channel().identity(),
        ensures
            final(self).wf(),
            final(self).same_vault(*old(self)),
            final(sheet).follows(*old(sheet), old(self).step_to(*final(self))),
            Channel::did_remove_sender(old(self).channel(), final(self).channel(), listed(r)),
    {
        let ghost before = *self;
        let r = self.channel.remove_sender();
        sheet.note(Ghost(before.step_to(*self)));
        r
    }

    /// Counts one more receiver.
    pub(crate) fn add_receiver(&mut self, sheet: &mut Sheet<T>)
        requires
            old(self).wf(),
            old(sheet).identity() == old(self).channel().identity(),
        ensures
            final(self).wf(),
            final(self).same_vault(*old(self)),
            final(sheet).follows(*old(sheet), old(self).step_to(*final(self))),
            Channel::did_add_receiver(old(self).channel(), final(self).channel()),
    {
        let ghost before = *self;
        self.channel.add_receiver();
        sheet.note(Ghost(before.step_to(*self)));
    }

    /// Counts one receiver less.
    pub(crate) fn remove_receiver(&mut self, sheet: &mut Sheet<T>) -> (r: Option<Vec<Waker>>)
        requires
            old(self).wf(),
            old(sheet).identity() == old(self).channel().identity(),
        ensures
            final(self).wf(),
            final(self).same_vault(*old(self)),
            final(sheet).follows(*old(sheet), old(self).step_to(*final(self))),
            Channel::did_remove_receiver(old(self).channel(), final(self).channel(), listed(r)),
    {
        let ghost before = *self;
        let r = self.channel.remove_receiver();
        sheet.note(Ghost(before.step_to(*self)));
        r
    }

    /// Sends a message if the channel is open and has room.
    pub(crate) fn offer(&mut self, sheet: &mut Sheet<T>, msg: T) -> (r: (
        Result<(), TrySendError<T>>,
        Option<Waker>,
    ))
        requires
            old(self).wf(),
            old(sheet).identity() == old(self).channel().identity(),
        ensures
            final(self).wf(),
            final(self).same_vault(*old(self)),
            final(sheet).follows(*old(sheet), old(self).step_to(*final(self))),
            Channel::did_offer(old(self).channel(), final(self).channel(), msg, r.0, r.1),
    {
        let ghost before = *self;
        let r = self.channel.offer(msg);
        proof {
            lemma_sending_takes_nothing(before.channel(), self.channel());
        }
        sheet.note(Ghost(before.step_to(*self)));
        r
    }

    /// Receives a message if there is one.
    pub(crate) fn try_recv(&mut self, sheet: &mut Sheet<T>) -> (r: (
        Result<T, TryRecvError>,
        Option<Waker>,
    ))
        requires
            old(self).wf(),
            old(sheet).identity() == old(self).channel().identity(),
            old(self).single() ==> old(sheet).is_sole(),
        ensures
            final(self).wf(),
            final(self).same_vault(*old(self)),
            final(sheet).follows(*old(sheet), old(self).step_to(*final(self))),
            Channel::did_receive(
                old(self).channel(),
                final(self).channel(),
                Channel::<T, Waker>::as_attempt(r.0),
                r.1,
            ),
    {
        proof {
            self.channel().lemma_ready();
        }
        let ghost before = *self;
        let r = if self.single {
            self.channel.try_recv_single()
        } else {
            self.channel.try_recv()
        };
        sheet.note(Ghost(before.step_to(*self)));
        r
    }

    /// Closes the channel.
    pub(crate) fn close(&mut self, sheet: &mut Sheet<T>) -> (r: Option<Vec<Waker>>)
        requires
            old(self).wf(),
            old(sheet).identity() == old(self).channel().identity(),
        ensures
            final(self).wf(),
            final(self).same_vault(*old(self)),
            final(sheet).follows(*old(sheet), old(self).step_to(*final(self))),
            Channel::did_close(old(self).channel(), final(self).channel(), listed(r)),
            final(self).channel().senders() == old(self).channel().senders(),
            final(self).channel().receivers() == old(self).channel().receivers(),
    {
        let ghost before = *self;
        let r = self.channel.close();
        sheet.note(Ghost(before.step_to(*self)));
        r
    }

    /// Gives up a registration among the senders.
    pub(crate) fn leave_senders(
        &mut self,
        sheet: &mut Sheet<T>,
        token: &mut Option<WaiterToken>,
        forward: bool,
    ) -> (r: Unregistered<Waker>)
        requires
            old(self).wf(),
            old(sheet).identity() == old(self).channel().identity(),
        ensures
            final(self).wf(),
            final(self).same_vault(*old(self)),
            final(sheet).follows(*old(sheet), old(self).step_to(*final(self))),
            *final(token) is None,
            Channel::did_leave_senders(
                old(self).channel(),
                final(self).channel(),
                *old(token),
                forward,
                r,
            ),
    {
        let ghost before = *self;
        let r = self.channel.leave_senders(token, forward);
        sheet.note(Ghost(before.step_to(*self)));
        r
    }

    /// Gives up a registration among the receivers.
    pub(crate) fn leave_receivers(
        &mut self,
        sheet: &mut Sheet<T>,
        token: &mut Option<WaiterToken>,
        forward: bool,
    ) -> (r: Unregistered<Waker>)
        requires
            old(self).wf(),
            old(sheet).identity() == old(self).channel().identity(),
        ensures
            final(self).wf(),
            final(self).same_vault(*old(self)),
            final(sheet).follows(*old(sheet), old(self).step_to(*final(self))),
            *final(token) is None,
            Channel::did_leave_receivers(
                old(self).channel(),
                final(self).channel(),
                *old(token),
                forward,
                r,
            ),
    {
        let ghost before = *self;
        let r = self.channel.leave_receivers(token, forward);
        sheet.note(Ghost(before.step_to(*self)));
        r
    }

    /// Takes the first turns of a send.
    pub(crate) fn start_send(
        &mut self,
        sheet: &mut Sheet<T>,
        poll: &mut SendPoll<T>,
    ) -> (r: After<Waker>)
        requires
            old(self).wf(),
            old(sheet).identity() == old(self).channel().identity(),
            old(poll).at is Leave,
            old(poll).msg is Some,
        ensures
            final(self).wf(),
            final(self).same_vault(*old(self)),
            final(sheet).follows(*old(sheet), old(self).step_to(*final(self))),
            Channel::did_start_send(
                old(self).channel(),
                final(self).channel(),
                *old(poll),
                *final(poll),
                r,
            ),
            final(poll).at is Finish || final(poll).at is Register,
            final(poll).token is None,
            final(poll).at is Register ==> final(poll).msg == old(poll).msg,
    {
        let ghost before = *self;
        let r = self.channel.start_send(poll);
        proof {
            lemma_starting_to_send(before.channel(), self.channel(), *old(poll), *poll, r);
        }
        sheet.note(Ghost(before.step_to(*self)));
        r
    }

    /// Takes the other turns of a send.
    pub(crate) fn wait_send(
        &mut self,
        sheet: &mut Sheet<T>,
        poll: &mut SendPoll<T>,
        waker: Waker,
    ) -> (r: After<Waker>)
        requires
            old(self).wf(),
            old(sheet).identity() == old(self).channel().identity(),
            old(poll).at is Register,
            old(poll).token is None,
            old(poll).msg is Some,
        ensures
            final(self).wf(),
            final(self).same_vault(*old(self)),
            final(sheet).follows(*old(sheet), old(self).step_to(*final(self))),
            Channel::did_wait_send(
                old(self).channel(),
                final(self).channel(),
                *old(poll),
                *final(poll),
                waker,
                r,
            ),
            final(poll).at is Finish || final(poll).at is Sleep,
            final(poll).token is Some <==> final(poll).at is Sleep,
            final(poll).msg is Some ==> final(poll).msg == old(poll).msg,
            final(poll).at is Sleep ==> final(poll).msg is Some,
    {
        let ghost before = *self;
        let r = self.channel.wait_send(poll, waker);
        proof {
            lemma_waiting_to_send(before.channel(), self.channel(), *old(poll), *poll, waker, r);
        }
        sheet.note(Ghost(before.step_to(*self)));
        r
    }

    /// Takes the first turns of a receive.
    pub(crate) fn start_recv(
        &mut self,
        sheet: &mut Sheet<T>,
        poll: &mut RecvPoll<T>,
    ) -> (r: After<Waker>)
        requires
            old(self).wf(),
            old(sheet).identity() == old(self).channel().identity(),
            old(self).single() ==> old(sheet).is_sole(),
            old(poll).at is Leave,
        ensures
            final(self).wf(),
            final(self).same_vault(*old(self)),
            final(sheet).follows(*old(sheet), old(self).step_to(*final(self))),
            Channel::did_start_recv(
                old(self).channel(),
                final(self).channel(),
                *old(poll),
                *final(poll),
                r,
            ),
            final(poll).at is Finish || final(poll).at is Register,
            final(poll).token is None,
    {
        let ghost before = *self;
        let r = self.channel.start_recv(self.single, poll);
        sheet.note(Ghost(before.step_to(*self)));
        r
    }

    /// Takes the other turns of a receive.
    pub(crate) fn wait_recv(
        &mut self,
        sheet: &mut Sheet<T>,
        poll: &mut RecvPoll<T>,
        waker: Waker,
    ) -> (r: After<Waker>)
        requires
            old(self).wf(),
            old(sheet).identity() == old(self).channel().identity(),
            old(self).single() ==> old(sheet).is_sole(),
            old(poll).at is Register,
            old(poll).token is None,
        ensures
            final(self).wf(),
            final(self).same_vault(*old(self)),
            final(sheet).follows(*old(sheet), old(self).step_to(*final(self))),
            Channel::did_wait_recv(
                old(self).channel(),
                final(self).channel(),
                *old(poll),
                *final(poll),
                waker,
                r,
            ),
            final(poll).at is Finish || final(poll).at is Sleep,
            final(poll).token is Some <==> final(poll).at is Sleep,
    {
        let ghost before = *self;
        let r = self.channel.wait_recv(self.single, poll, waker);
        sheet.note(Ghost(before.step_to(*self)));
        r
    }

    /// Moves the messages to the end of `buffer`, at most `limit`.
    pub(crate) fn drain(&mut self, sheet: &mut Sheet<T>, buffer: &mut Vec<T>, limit: usize) -> (r: (
        usize,
        Vec<Waker>,
    ))
        requires
            old(self).wf(),
            old(sheet).identity() == old(self).channel().identity(),
            old(self).single() ==> old(sheet).is_sole(),
            old(self).single(),
        ensures
            final(self).wf(),
            final(self).same_vault(*old(self)),
            final(sheet).follows(*old(sheet), old(self).step_to(*final(self))),
            Channel::did_drain(
                old(self).channel(),
                final(self).channel(),
                limit,
                r.0,
                old(buffer)@,
                final(buffer)@,
                r.1@,
            ),
    {
        let ghost before = *self;
        let r = self.channel.drain(buffer, limit);
        sheet.note(Ghost(before.step_to(*self)));
        r
    }
}

/// A send takes no message out.
proof fn lemma_sending_takes_nothing<T>(pre: Channel<T, Waker>, post: Channel<T, Waker>)
    ensures
        post.messages() == pre.messages() || (exists|msg: T|
            post.messages() == #[trigger] pre.messages().push(Some(msg)))
            ==> pre.messages().is_prefix_of(post.messages()),
{
}

/// The first turns of a send take no message out.
proof fn lemma_starting_to_send<T>(
    pre: Channel<T, Waker>,
    post: Channel<T, Waker>,
    p: SendPoll<T>,
    q: SendPoll<T>,
    after: After<Waker>,
)
    requires
        Channel::did_start_send(pre, post, p, q, after),
    ensures
        pre.messages().is_prefix_of(post.messages()),
{
}

/// The other turns of a send take no message out.
proof fn lemma_waiting_to_send<T>(
    pre: Channel<T, Waker>,
    post: Channel<T, Waker>,
    p: SendPoll<T>,
    q: SendPoll<T>,
    waker: Waker,
    after: After<Waker>,
)
    requires
        Channel::did_wait_send(pre, post, p, q, waker, after),
    ensures
        pre.messages().is_prefix_of(post.messages()),
{
}

// ---------------------------------------------------------------------------- hub

/// The place of one more handle, which comes with its hub.
pub struct Seat {
    made: bool,
}

/// A handle's way to a shared channel, with the right to begin operations on it.
pub struct Hub<T> {
    shared: Shared<T>,
}

impl<T> Hub<T> {
    /// The channel.
    pub closed spec fn shared(self) -> Shared<T> {
        self.shared
    }

    /// The hub of a channel.
    pub closed spec fn of(shared: Shared<T>) -> Self {
        Hub { shared }
    }

    /// A hub is known by its channel.
    pub(crate) proof fn lemma_of(self)
        ensures
            Hub::of(self.shared()) == self,
    {
    }

    /// The channel of the hub of a channel.
    pub(crate) proof fn lemma_shared_of(shared: Shared<T>)
        ensures
            Hub::of(shared).shared() == shared,
    {
    }

    /// Sets a channel up. The log is that of the party that receives.
    pub(crate) fn found(capacity: Option<usize>, single: bool) -> (r: (Self, Log<T>))
        requires
            capacity matches Some(c) ==> c >= 1,
        ensures
            r.0.shared().rules().bound == capacity,
            r.0.shared().rules().single == single,
            r.0.shared().began_fresh(),
            r.1.identity() == r.0.shared().rules().identity,
            r.1.is_sole() == single,
            r.1.pages() == Seq::<Option<Seq<Step<T>>>>::empty(),
    {
        let (shared, log) = Shared::new(capacity, single);
        (Hub { shared }, log)
    }

    /// The channel, for operations with a sheet.
    pub(crate) fn line(&self) -> (r: &Shared<T>)
        ensures
            *r == self.shared(),
        opens_invariants none
        no_unwind
    {
        &self.shared
    }

    /// Another hub of the same channel.
    pub(crate) fn join(&self) -> (r: Self)
        ensures
            r == *self,
    {
        Hub { shared: self.shared.share() }
    }

    /// The hub of one more sender, which is counted. There is no other way to count a sender.
    pub(crate) fn another_sender(&self) -> (r: Self)
        ensures
            r == *self,
            self.shared().gained_sender(),
    {
        let mut sheet = self.sheet();
        self.shared.add_sender(&mut sheet, Seat { made: true });
        self.join()
    }

    /// The hub of one more receiver, which is counted. There is no other way to count a
    /// receiver.
    pub(crate) fn another_receiver(&self) -> (r: Self)
        ensures
            r == *self,
            self.shared().gained_receiver(),
    {
        let mut sheet = self.sheet();
        self.shared.add_receiver(&mut sheet, Seat { made: true });
        self.join()
    }

    /// The share of the channel, for a handle that goes.
    pub(crate) fn into_shared(self) -> (r: Shared<T>)
        ensures
            r == self.shared(),
    {
        self.shared
    }

    /// A sheet for one operation.
    pub(crate) fn sheet(&self) -> (r: Sheet<T>)
        ensures
            r.identity() == self.shared().rules().identity,
            !r.is_sole(),
            r.number() == -1,
            r.steps() == Seq::<Step<T>>::empty(),
    {
        Sheet {
            identity: Ghost(self.shared.rules().identity),
            sole: Ghost(false),
            number: Ghost(-1),
            steps: Ghost(Seq::empty()),
        }
    }

    /// A log for an operation in progress.
    pub(crate) fn log(&self) -> (r: Log<T>)
        ensures
            r.identity() == self.shared().rules().identity,
            !r.is_sole(),
            r.pages() == Seq::<Option<Seq<Step<T>>>>::empty(),
        opens_invariants none
        no_unwind
    {
        Log {
            identity: Ghost(self.shared.rules().identity),
            sole: Ghost(false),
            pages: Ghost(Seq::empty()),
        }
    }
}

} // verus!
