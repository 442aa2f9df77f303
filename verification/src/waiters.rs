//! Reusable slots for parties that wait.
//!
//! A waiting party registers its waker in a free slot and keeps a token for it. The
//! token keeps the slot out of use until its owner cancels or acknowledges a
//! notification. A notifier first takes a waker for itself and wakes it in a second
//! step; the owner of the token can give up in between without waiting for it, and
//! the notifier then frees the slot.
//!
//! Slots come in pages that are appended and never taken away. Registrations and
//! notifications go round the slots, each from where the last one stopped, so the
//! order of notifications is not that of the registrations.
//!
//! The number of wakers that are registered and not woken yet is kept outside the list,
//! where the other side of the channel looks at it before it bothers with the list.
use vstd::prelude::*;

use crate::ring;

verus! {

/// Slots per page.
pub const PAGE_SLOTS: usize = 8;

/// Who a slot belongs to.
#[derive(PartialEq, Eq, Structural, Clone, Copy, Debug)]
pub enum SlotState {
    /// To nobody.
    Free,
    /// To a party that is about to register.
    Writing,
    /// To a registered party, which can be selected.
    Waiting,
    /// To a notifier, which is about to wake the registered party.
    Notifying,
    /// To a party that was woken.
    Notified,
    /// To a notifier alone: the party has given up.
    Cancelled,
}

/// One slot.
pub struct WaiterSlot<W> {
    /// Who the slot belongs to.
    pub state: SlotState,
    /// The registration it belongs to; 0 in a free slot.
    pub ticket: u64,
    /// The registered waker.
    pub waker: Option<W>,
}

/// A slot that is being written.
pub struct Registration {
    /// Index of the slot.
    pub slot: usize,
    /// The registration.
    pub ticket: u64,
}

/// A party's claim on its slot.
pub struct WaiterToken {
    /// Index of the slot.
    pub slot: usize,
    /// The registration.
    pub ticket: u64,
}

/// A notifier's claim on a waker.
pub struct Notification {
    /// Index of the slot.
    pub slot: usize,
    /// The registration.
    pub ticket: u64,
}

/// What came out of a list when a registration was given up.
pub struct Unregistered<W> {
    /// The waker of that registration, if nobody had taken it yet.
    pub removed: Option<W>,
    /// A waker to wake in its place.
    pub forwarded: Option<W>,
}

/// The slot of nobody.
pub open spec fn free_slot<W>() -> WaiterSlot<W> {
    WaiterSlot { state: SlotState::Free, ticket: 0, waker: None }
}

/// A page of free slots.
pub open spec fn free_page<W>() -> Seq<WaiterSlot<W>> {
    Seq::new(8, |i: int| free_slot::<W>())
}

/// Whether slot `i` is in a state.
pub open spec fn in_state<W>(slots: Seq<WaiterSlot<W>>, state: SlotState) -> spec_fn(int) -> bool {
    |i: int| slots[i].state == state
}

/// Whether a slot holds a waker that was not woken yet.
pub open spec fn is_pending<W>() -> spec_fn(WaiterSlot<W>) -> bool {
    |s: WaiterSlot<W>|
        s.state is Waiting || s.state is Notifying || s.state is Cancelled
}

/// Whether a slot holds a waker that can be selected.
pub open spec fn is_waiting<W>() -> spec_fn(WaiterSlot<W>) -> bool {
    |s: WaiterSlot<W>| s.state is Waiting
}

/// Whether a slot belongs to a party that was woken.
pub open spec fn is_notified<W>() -> spec_fn(WaiterSlot<W>) -> bool {
    |s: WaiterSlot<W>| s.state is Notified
}

/// The waiting slot that a notification from `cursor` selects.
pub open spec fn selected<W>(slots: Seq<WaiterSlot<W>>, cursor: int) -> Option<int> {
    ring::find(slots.len() as int, cursor, slots.len(), in_state(slots, SlotState::Waiting))
}

/// The slots after the party of slot `j` was woken.
pub open spec fn after_wake<W>(slots: Seq<WaiterSlot<W>>, j: int) -> Seq<WaiterSlot<W>> {
    slots.update(
        j,
        WaiterSlot { state: SlotState::Notified, ticket: slots[j].ticket, waker: None },
    )
}

/// The wakers that up to `k` notifications from `cursor` wake, in order.
pub open spec fn woken<W>(slots: Seq<WaiterSlot<W>>, cursor: int, k: nat) -> Seq<W>
    decreases k,
{
    match selected(slots, cursor) {
        Some(j) if k > 0 => seq![slots[j].waker->0] + woken(
            after_wake(slots, j),
            ring::next(slots.len() as int, j),
            (k - 1) as nat,
        ),
        _ => Seq::empty(),
    }
}

/// The slots after up to `k` notifications from `cursor`.
pub open spec fn slots_after<W>(slots: Seq<WaiterSlot<W>>, cursor: int, k: nat) -> Seq<WaiterSlot<W>>
    decreases k,
{
    match selected(slots, cursor) {
        Some(j) if k > 0 => slots_after(
            after_wake(slots, j),
            ring::next(slots.len() as int, j),
            (k - 1) as nat,
        ),
        _ => slots,
    }
}

/// Where up to `k` notifications from `cursor` leave off.
pub open spec fn cursor_after<W>(slots: Seq<WaiterSlot<W>>, cursor: int, k: nat) -> int
    decreases k,
{
    match selected(slots, cursor) {
        Some(j) if k > 0 => cursor_after(
            after_wake(slots, j),
            ring::next(slots.len() as int, j),
            (k - 1) as nat,
        ),
        _ => cursor,
    }
}

/// Up to `k` notifications make as many parties notified as there are, and as many less
/// waiting.
pub proof fn lemma_many_selected<W>(slots: Seq<WaiterSlot<W>>, cursor: int, k: nat)
    requires
        slots.len() > 0,
        0 <= cursor < slots.len(),
    ensures
        ({
            let waiting = ring::count_where(slots, is_waiting::<W>());
            let n = if k <= waiting {
                k
            } else {
                waiting
            };
            let after = slots_after(slots, cursor, k);
            &&& woken(slots, cursor, k).len() == n
            &&& ring::count_where(after, is_waiting::<W>()) == waiting - n
            &&& ring::count_where(after, is_notified::<W>()) == ring::count_where(
                slots,
                is_notified::<W>(),
            ) + n
        }),
    decreases k,
{
    let n = slots.len() as int;
    let f = in_state(slots, SlotState::Waiting);
    ring::lemma_find(n, cursor, n as nat, f);
    ring::lemma_count_zero(slots, is_waiting::<W>());
    match selected(slots, cursor) {
        Some(j) => {
            assert(is_waiting::<W>()(slots[j]));
            if k > 0 {
                let after = after_wake(slots, j);
                ring::lemma_count_update(slots, is_waiting::<W>(), j, after[j]);
                ring::lemma_count_update(slots, is_notified::<W>(), j, after[j]);
                lemma_many_selected(after, ring::next(n, j), (k - 1) as nat);
            }
        },
        None => {
            ring::lemma_full_miss(n, cursor, n as nat, f);
            assert forall|i: int| 0 <= i < n implies !is_waiting::<W>()(
                #[trigger] slots[i],
            ) by {
                assert(!f(i));
            }
        },
    }
}

/// Up to one notification selects one party, if any waits.
pub proof fn lemma_one_of_many<W>(slots: Seq<WaiterSlot<W>>, cursor: int)
    ensures
        woken(slots, cursor, 0) == Seq::<W>::empty(),
        slots_after(slots, cursor, 0) == slots,
        cursor_after(slots, cursor, 0) == cursor,
        match selected(slots, cursor) {
            Some(j) => {
                &&& woken(slots, cursor, 1) == seq![slots[j].waker->0]
                &&& slots_after(slots, cursor, 1) == after_wake(slots, j)
                &&& cursor_after(slots, cursor, 1) == ring::next(slots.len() as int, j)
            },
            None => {
                &&& woken(slots, cursor, 1) == Seq::<W>::empty()
                &&& slots_after(slots, cursor, 1) == slots
                &&& cursor_after(slots, cursor, 1) == cursor
            },
        },
{
    reveal_with_fuel(woken, 2);
    reveal_with_fuel(slots_after, 2);
    reveal_with_fuel(cursor_after, 2);
    assert(woken(slots, cursor, 0) =~= Seq::<W>::empty());
    if let Some(j) = selected(slots, cursor) {
        assert(woken(slots, cursor, 1) =~= seq![slots[j].waker->0]);
    }
}

/// Up to `k` notifications and then up to `n` more are up to `k + n` notifications.
pub proof fn lemma_in_a_row<W>(slots: Seq<WaiterSlot<W>>, cursor: int, k: nat, n: nat)
    ensures
        ({
            let mid = slots_after(slots, cursor, k);
            let at = cursor_after(slots, cursor, k);
            &&& woken(slots, cursor, k + n) == woken(slots, cursor, k) + woken(mid, at, n)
            &&& slots_after(slots, cursor, k + n) == slots_after(mid, at, n)
            &&& cursor_after(slots, cursor, k + n) == cursor_after(mid, at, n)
        }),
    decreases k,
{
    let mid = slots_after(slots, cursor, k);
    let at = cursor_after(slots, cursor, k);
    match selected(slots, cursor) {
        Some(j) => {
            if k > 0 {
                let after = after_wake(slots, j);
                let next = ring::next(slots.len() as int, j);
                lemma_in_a_row(after, next, (k - 1) as nat, n);
                assert(woken(slots, cursor, k + n) =~= woken(slots, cursor, k) + woken(mid, at, n));
            } else {
                assert(woken(slots, cursor, k + n) =~= Seq::empty() + woken(mid, at, n));
            }
        },
        None => {
            assert(woken(slots, cursor, k + n) =~= woken(slots, cursor, k) + woken(mid, at, n));
        },
    }
}

/// A list of waiting parties.
pub struct WaiterList<W> {
    slots: Vec<WaiterSlot<W>>,
    closing: bool,
    register_cursor: usize,
    notify_cursor: usize,
}

impl<W> WaiterList<W> {
    /// The slots.
    pub closed spec fn slots(self) -> Seq<WaiterSlot<W>> {
        self.slots@
    }

    /// Whether everybody was notified of the close of the channel.
    pub closed spec fn closing(self) -> bool {
        self.closing
    }

    /// Where the next registration starts to look.
    pub closed spec fn register_cursor(self) -> int {
        self.register_cursor as int
    }

    /// Where the next notification starts to look.
    pub closed spec fn notify_cursor(self) -> int {
        self.notify_cursor as int
    }

    /// A slot holds a waker exactly while it is registered and not woken.
    pub open spec fn slot_ok(s: WaiterSlot<W>) -> bool {
        &&& s.waker is Some <==> s.state is Waiting || s.state is Notifying || s.state is Cancelled
        &&& s.state is Free ==> s.ticket == 0
    }

    /// The invariant of the list.
    pub open spec fn wf(self) -> bool {
        &&& self.slots().len() >= 8
        &&& self.slots().len() % 8 == 0
        &&& self.slots().len() <= usize::MAX
        &&& 0 <= self.register_cursor() < self.slots().len()
        &&& 0 <= self.notify_cursor() < self.slots().len()
        &&& forall|i: int| 0 <= i < self.slots().len() ==> #[trigger] Self::slot_ok(self.slots()[i])
    }

    /// Number of registered wakers that were not woken yet.
    pub open spec fn pending(self) -> nat {
        ring::count_where(self.slots(), is_pending::<W>())
    }

    /// Number of registered wakers that can be selected.
    pub open spec fn waiting(self) -> nat {
        ring::count_where(self.slots(), is_waiting::<W>())
    }

    /// Number of parties that were woken and have not acknowledged it.
    pub open spec fn notified(self) -> nat {
        ring::count_where(self.slots(), is_notified::<W>())
    }

    /// Whether nobody is in the middle of registering or notifying.
    pub open spec fn is_settled(self) -> bool {
        forall|i: int|
            0 <= i < self.slots().len() ==> {
                ||| (#[trigger] self.slots()[i]).state is Free
                ||| self.slots()[i].state is Waiting
                ||| self.slots()[i].state is Notified
            }
    }

    /// The slot that the next registration takes; the first of a new page if none is free.
    pub open spec fn next_free(self) -> int {
        match ring::find(
            self.slots().len() as int,
            self.register_cursor(),
            self.slots().len(),
            in_state(self.slots(), SlotState::Free),
        ) {
            Some(i) => i,
            None => self.slots().len() as int,
        }
    }

    /// The slots with room for the next registration.
    pub open spec fn with_room(self) -> Seq<WaiterSlot<W>> {
        if self.next_free() < self.slots().len() {
            self.slots()
        } else {
            self.slots() + free_page()
        }
    }

    /// Whether a registration is being written.
    pub open spec fn is_writing(self, r: Registration) -> bool {
        &&& r.slot < self.slots().len()
        &&& self.slots()[r.slot as int].ticket == r.ticket
        &&& self.slots()[r.slot as int].state is Writing
    }

    /// Whether a token still owns its slot.
    pub open spec fn is_owner(self, t: WaiterToken) -> bool {
        &&& t.slot < self.slots().len()
        &&& self.slots()[t.slot as int].ticket == t.ticket
        &&& {
            ||| self.slots()[t.slot as int].state is Waiting
            ||| self.slots()[t.slot as int].state is Notifying
            ||| self.slots()[t.slot as int].state is Notified
        }
    }

    /// Whether a notifier still owns the waker it took.
    pub open spec fn is_notifying(self, n: Notification) -> bool {
        &&& n.slot < self.slots().len()
        &&& self.slots()[n.slot as int].ticket == n.ticket
        &&& self.slots()[n.slot as int].state is Notifying || self.slots()[n.slot as int].state
            is Cancelled
    }

    /// Everybody who holds a claim on a slot of `other` still holds it here.
    pub open spec fn keeps_claims(self, other: Self) -> bool {
        &&& forall|t: WaiterToken| #[trigger] other.is_owner(t) ==> self.is_owner(t)
        &&& forall|n: Notification| #[trigger] other.is_notifying(n) ==> self.is_notifying(n)
        &&& forall|r: Registration| #[trigger] other.is_writing(r) ==> self.is_writing(r)
    }

    /// Everybody who holds a claim on a slot of `other` but slot `i` still holds it here.
    pub open spec fn keeps_other_claims(self, other: Self, i: int) -> bool {
        &&& forall|t: WaiterToken| #[trigger]
            other.is_owner(t) && t.slot != i ==> self.is_owner(t)
        &&& forall|n: Notification| #[trigger]
            other.is_notifying(n) && n.slot != i ==> self.is_notifying(n)
        &&& forall|r: Registration| #[trigger]
            other.is_writing(r) && r.slot != i ==> self.is_writing(r)
    }

    /// Between two operations every registered waker that was not woken can be selected.
    pub proof fn lemma_settled(self)
        requires
            self.is_settled(),
        ensures
            self.pending() == self.waiting(),
    {
        Self::lemma_settled_count(self.slots());
    }

    /// Where no waker is registered, a notification selects nobody.
    pub proof fn lemma_nobody_selected(self)
        requires
            self.wf(),
        ensures
            self.pending() == 0 ==> selected(self.slots(), self.notify_cursor()) is None,
            self.pending() == 0 ==> self.waiting() == 0,
    {
        ring::lemma_count_zero(self.slots(), is_pending::<W>());
        ring::lemma_count_zero(self.slots(), is_waiting::<W>());
        ring::lemma_find(
            self.slots().len() as int,
            self.notify_cursor(),
            self.slots().len(),
            in_state(self.slots(), SlotState::Waiting),
        );
        if self.pending() == 0 {
            assert forall|i: int| 0 <= i < self.slots().len() implies !is_waiting::<W>()(
                #[trigger] self.slots()[i],
            ) by {
                assert(!is_pending::<W>()(self.slots()[i]));
            }
            if let Some(j) = selected(self.slots(), self.notify_cursor()) {
                assert(!is_pending::<W>()(self.slots()[j]));
            }
        }
    }

    proof fn lemma_settled_count(slots: Seq<WaiterSlot<W>>)
        requires
            forall|i: int|
                0 <= i < slots.len() ==> {
                    ||| (#[trigger] slots[i]).state is Free
                    ||| slots[i].state is Waiting
                    ||| slots[i].state is Notified
                },
        ensures
            ring::count_where(slots, is_pending::<W>()) == ring::count_where(
                slots,
                is_waiting::<W>(),
            ),
        decreases slots.len(),
    {
        if slots.len() > 0 {
            let rest = slots.drop_last();
            assert forall|i: int| 0 <= i < rest.len() implies {
                ||| (#[trigger] rest[i]).state is Free
                ||| rest[i].state is Waiting
                ||| rest[i].state is Notified
            } by {
                assert(rest[i] == slots[i]);
            }
            Self::lemma_settled_count(rest);
        }
    }

    /// Whether the list has one page of free slots, and both rounds start at the first.
    pub open spec fn is_new(self) -> bool {
        &&& self.slots() == free_page::<W>()
        &&& self.register_cursor() == 0
        &&& self.notify_cursor() == 0
        &&& !self.closing()
    }

    /// An empty list with one page.
    pub fn new() -> (r: Self)
        ensures
            r.wf(),
            r.is_new(),
            r.is_settled(),
            r.pending() == 0,
            r.waiting() == 0,
            r.notified() == 0,
    {
        let mut slots: Vec<WaiterSlot<W>> = Vec::new();
        Self::append_page(&mut slots);
        let r = WaiterList { slots, closing: false, register_cursor: 0, notify_cursor: 0 };
        proof {
            assert(r.slots() =~= free_page::<W>());
            ring::lemma_count_zero(r.slots(), is_pending::<W>());
            ring::lemma_count_zero(r.slots(), is_waiting::<W>());
            ring::lemma_count_zero(r.slots(), is_notified::<W>());
        }
        r
    }

    /// Appends a page of free slots.
    fn append_page(slots: &mut Vec<WaiterSlot<W>>)
        ensures
            final(slots)@ == old(slots)@ + free_page::<W>(),
    {
        let ghost before = slots@;
        let mut i: usize = 0;
        while i < PAGE_SLOTS
            invariant
                i <= PAGE_SLOTS,
                slots@ == before + Seq::new(i as nat, |k: int| free_slot::<W>()),
            decreases PAGE_SLOTS - i,
        {
            slots.push(WaiterSlot { state: SlotState::Free, ticket: 0, waker: None });
            i += 1;
            assert(slots@ =~= before + Seq::new(i as nat, |k: int| free_slot::<W>()));
        }
        assert(slots@ =~= before + free_page::<W>());
    }

    /// Number of pages.
    pub fn pages(&self) -> (r: usize)
        requires
            self.wf(),
        ensures
            r * 8 == self.slots().len(),
    {
        self.slots.len() / PAGE_SLOTS
    }

    /// The state of a slot.
    pub fn state(&self, slot: usize) -> (r: SlotState)
        requires
            slot < self.slots().len(),
        ensures
            r == self.slots()[slot as int].state,
    {
        self.slots[slot].state
    }

    /// Whether a token still owns its slot.
    pub fn owns(&self, token: &WaiterToken) -> (r: bool)
        ensures
            r == self.is_owner(*token),
    {
        token.slot < self.slots.len() && self.slots[token.slot].ticket == token.ticket && (
        match self.slots[token.slot].state {
            SlotState::Waiting => true,
            SlotState::Notifying => true,
            SlotState::Notified => true,
            _ => false,
        })
    }

    /// The index after `i`, going round.
    fn advance(&self, i: usize) -> (r: usize)
        requires
            i < self.slots().len(),
        ensures
            r == ring::next(self.slots().len() as int, i as int),
    {
        assert(self.slots.len() == self.slots@.len());
        if i + 1 >= self.slots.len() {
            0
        } else {
            i + 1
        }
    }

    // --------------------------------------------------------- registration

    /// Takes a free slot for a new registration, which nobody sees yet. The slots grow
    /// by a page only if a full round finds none that is free.
    pub fn begin_register(&mut self, next_id: &mut u64) -> (r: Registration)
        requires
            old(self).wf(),
        ensures
            final(self).wf(),
            *final(next_id) == (*old(next_id)).wrapping_add(1),
            r.ticket == *old(next_id) << 3,
            r.slot == old(self).next_free(),
            r.slot < old(self).with_room().len(),
            final(self).slots() == old(self).with_room().update(
                r.slot as int,
                WaiterSlot { state: SlotState::Writing, ticket: r.ticket, waker: None },
            ),
            final(self).register_cursor() == ring::next(
                final(self).slots().len() as int,
                r.slot as int,
            ),
            final(self).notify_cursor() == old(self).notify_cursor(),
            final(self).closing() == old(self).closing(),
            final(self).pending() == old(self).pending(),
            final(self).is_writing(r),
            final(self).keeps_claims(*old(self)),
            final(self).pending() < usize::MAX,
            r.slot >= old(self).slots().len() || old(self).slots()[r.slot as int].state is Free,
    {
        let ticket: u64 = *next_id << 3;
        *next_id = (*next_id).wrapping_add(1);
        let n = self.slots.len();
        let ghost row = self.slots();
        let ghost f = in_state(row, SlotState::Free);
        let mut slot: usize = self.register_cursor;
        let mut visited: usize = 0;
        while visited < n && self.slots[slot].state != SlotState::Free
            invariant
                *self == *old(self),
                self.wf(),
                row == self.slots(),
                n == row.len(),
                slot < n,
                visited <= n,
                f == in_state(row, SlotState::Free),
                ring::find(n as int, self.register_cursor(), n as nat, f) == ring::find(
                    n as int,
                    slot as int,
                    (n - visited) as nat,
                    f,
                ),
            decreases n - visited,
        {
            slot = self.advance(slot);
            visited += 1;
        }
        if visited == n {
            slot = n;
            Self::append_page(&mut self.slots);
        }
        let ghost mid = self.slots();
        proof {
            assert(mid == old(self).with_room());
            assert(mid[slot as int] == free_slot::<W>()) by {
                if visited < n {
                    assert(Self::slot_ok(row[slot as int]));
                }
            }
            assert forall|i: int| 0 <= i < mid.len() implies #[trigger] Self::slot_ok(mid[i]) by {
                if i < n {
                    assert(Self::slot_ok(row[i]));
                }
            }
            if visited == n {
                ring::lemma_count_add(row, free_page::<W>(), is_pending::<W>());
                ring::lemma_count_zero(free_page::<W>(), is_pending::<W>());
            }
            ring::lemma_count_update(
                mid,
                is_pending::<W>(),
                slot as int,
                WaiterSlot { state: SlotState::Writing, ticket, waker: None },
            );
        }
        self.slots[slot] = WaiterSlot { state: SlotState::Writing, ticket, waker: None };
        assert(self.slots.len() == self.slots@.len());
        self.register_cursor = self.advance(slot);
        proof {
            assert forall|i: int| 0 <= i < self.slots().len() implies #[trigger] Self::slot_ok(
                self.slots()[i],
            ) by {
                if i != slot {
                    assert(Self::slot_ok(mid[i]));
                }
            }
            ring::lemma_count_strict(self.slots(), is_pending::<W>(), slot as int);
        }
        Registration { slot, ticket }
    }

    /// Makes a registration visible, with its waker.
    pub fn finish_register(
        &mut self,
        count: &mut usize,
        registration: Registration,
        waker: W,
    ) -> (r: WaiterToken)
        requires
            old(self).wf(),
            old(self).is_writing(registration),
            *old(count) == old(self).pending(),
        ensures
            final(self).wf(),
            *final(count) == *old(count) + 1,
            *final(count) == final(self).pending(),
            r.slot == registration.slot,
            r.ticket == registration.ticket,
            final(self).slots() == old(self).slots().update(
                r.slot as int,
                WaiterSlot { state: SlotState::Waiting, ticket: r.ticket, waker: Some(waker) },
            ),
            final(self).register_cursor() == old(self).register_cursor(),
            final(self).notify_cursor() == old(self).notify_cursor(),
            final(self).closing() == old(self).closing(),
            final(self).is_owner(r),
            final(self).keeps_other_claims(*old(self), r.slot as int),
            forall|t: WaiterToken| #[trigger] old(self).is_owner(t) ==> t.slot != r.slot,
            forall|n: Notification| #[trigger] old(self).is_notifying(n) ==> n.slot != r.slot,
    {
        let ghost slot = WaiterSlot {
            state: SlotState::Waiting,
            ticket: registration.ticket,
            waker: Some(waker),
        };
        proof {
            ring::lemma_count_update(
                self.slots(),
                is_pending::<W>(),
                registration.slot as int,
                slot,
            );
            ring::lemma_count_strict(self.slots(), is_pending::<W>(), registration.slot as int);
        }
        *count = *count + 1;
        self.slots[registration.slot] = WaiterSlot {
            state: SlotState::Waiting,
            ticket: registration.ticket,
            waker: Some(waker),
        };
        proof {
            assert forall|i: int| 0 <= i < self.slots().len() implies #[trigger] Self::slot_ok(
                self.slots()[i],
            ) by {
                if i != registration.slot {
                    assert(Self::slot_ok(old(self).slots()[i]));
                }
            }
        }
        WaiterToken { slot: registration.slot, ticket: registration.ticket }
    }

    /// What a registration does.
    pub open spec fn registered(pre: Self, post: Self, t: WaiterToken, waker: W) -> bool {
        &&& t.slot == pre.next_free()
        &&& post.slots() == pre.with_room().update(
            pre.next_free(),
            WaiterSlot { state: SlotState::Waiting, ticket: t.ticket, waker: Some(waker) },
        )
        &&& post.register_cursor() == ring::next(post.slots().len() as int, pre.next_free())
        &&& post.notify_cursor() == pre.notify_cursor()
        &&& post.closing() == pre.closing()
    }

    /// Registers a waker and leaves its token in `token`, which must be empty.
    pub fn register(
        &mut self,
        count: &mut usize,
        next_id: &mut u64,
        token: &mut Option<WaiterToken>,
        waker: W,
    )
        requires
            old(self).wf(),
            *old(count) == old(self).pending(),
            *old(token) is None,
        ensures
            final(self).wf(),
            *final(count) == *old(count) + 1,
            *final(count) == final(self).pending(),
            *final(next_id) == (*old(next_id)).wrapping_add(1),
            *final(token) is Some,
            (*final(token))->0.ticket == *old(next_id) << 3,
            Self::registered(*old(self), *final(self), (*final(token))->0, waker),
            0 <= old(self).next_free() < old(self).with_room().len(),
            final(self).is_owner((*final(token))->0),
            final(self).keeps_claims(*old(self)),
            forall|t: WaiterToken| #[trigger]
                old(self).is_owner(t) ==> t.slot != old(self).next_free(),
            final(self).waiting() == old(self).waiting() + 1,
            final(self).notified() == old(self).notified(),
            old(self).is_settled() ==> final(self).is_settled(),
    {
        let ghost pre = *self;
        let registration = self.begin_register(next_id);
        let ghost begun = *self;
        let t = self.finish_register(count, registration, waker);
        proof {
            let row = pre.with_room();
            let new = self.slots()[registration.slot as int];
            assert(self.slots() =~= row.update(registration.slot as int, new));
            ring::lemma_count_add(pre.slots(), free_page::<W>(), is_waiting::<W>());
            ring::lemma_count_zero(free_page::<W>(), is_waiting::<W>());
            ring::lemma_count_add(pre.slots(), free_page::<W>(), is_notified::<W>());
            ring::lemma_count_zero(free_page::<W>(), is_notified::<W>());
            ring::lemma_count_update(row, is_waiting::<W>(), registration.slot as int, new);
            ring::lemma_count_update(row, is_notified::<W>(), registration.slot as int, new);
            assert forall|i: int| 0 <= i < row.len() implies row[i] == pre.slots()[i]
                || #[trigger] row[i] == free_slot::<W>() by {}
            assert forall|o: WaiterToken| #[trigger] pre.is_owner(o) implies self.is_owner(o) && o.slot
                != registration.slot by {
                assert(begun.is_owner(o));
            }
            assert forall|o: Notification| #[trigger] pre.is_notifying(o) implies self.is_notifying(
                o,
            ) by {
                assert(begun.is_notifying(o));
            }
            assert forall|o: Registration| #[trigger] pre.is_writing(o) implies self.is_writing(
                o,
            ) by {
                assert(begun.is_writing(o));
                assert(o.slot != registration.slot);
            }
        }
        *token = Some(t);
    }

    // --------------------------------------------------------- notification

    /// Takes the next waiting waker for a notifier, going round from where the last
    /// notification stopped.
    pub fn claim(&mut self) -> (r: Option<Notification>)
        requires
            old(self).wf(),
        ensures
            final(self).wf(),
            r is Some <==> old(self).waiting() > 0,
            r is None ==> *final(self) == *old(self) && selected(
                old(self).slots(),
                old(self).notify_cursor(),
            ) is None,
            r matches Some(n) ==> {
                &&& selected(old(self).slots(), old(self).notify_cursor()) == Some(n.slot as int)
                &&& n.slot < old(self).slots().len()
                &&& old(self).slots()[n.slot as int].state is Waiting
                &&& old(self).slots()[n.slot as int].ticket == n.ticket
                &&& final(self).slots() == old(self).slots().update(
                    n.slot as int,
                    WaiterSlot {
                        state: SlotState::Notifying,
                        ticket: n.ticket,
                        waker: old(self).slots()[n.slot as int].waker,
                    },
                )
                &&& final(self).notify_cursor() == ring::next(
                    old(self).slots().len() as int,
                    n.slot as int,
                )
                &&& final(self).is_notifying(n)
                &&& final(self).waiting() + 1 == old(self).waiting()
            },
            final(self).register_cursor() == old(self).register_cursor(),
            final(self).closing() == old(self).closing(),
            final(self).pending() == old(self).pending(),
            final(self).keeps_claims(*old(self)),
    {
        let n = self.slots.len();
        let ghost row = self.slots();
        let ghost f = in_state(row, SlotState::Waiting);
        let mut slot: usize = self.notify_cursor;
        let mut visited: usize = 0;
        while visited < n && self.slots[slot].state != SlotState::Waiting
            invariant
                *self == *old(self),
                self.wf(),
                row == self.slots(),
                n == row.len(),
                slot < n,
                visited <= n,
                f == in_state(row, SlotState::Waiting),
                selected(row, self.notify_cursor()) == ring::find(
                    n as int,
                    slot as int,
                    (n - visited) as nat,
                    f,
                ),
            decreases n - visited,
        {
            slot = self.advance(slot);
            visited += 1;
        }
        if visited == n {
            proof {
                ring::lemma_full_miss(n as int, self.notify_cursor(), n as nat, f);
                ring::lemma_count_zero(row, is_waiting::<W>());
                assert forall|i: int| 0 <= i < row.len() implies !is_waiting::<W>()(
                    #[trigger] row[i],
                ) by {
                    assert(!f(i));
                }
            }
            return None;
        }
        let ghost taken = WaiterSlot {
            state: SlotState::Notifying,
            ticket: row[slot as int].ticket,
            waker: row[slot as int].waker,
        };
        proof {
            ring::lemma_count_update(row, is_pending::<W>(), slot as int, taken);
            ring::lemma_count_update(row, is_waiting::<W>(), slot as int, taken);
            assert(Self::slot_ok(row[slot as int]));
        }
        let ticket = self.slots[slot].ticket;
        self.slots[slot].state = SlotState::Notifying;
        self.notify_cursor = self.advance(slot);
        proof {
            assert(self.slots() =~= row.update(slot as int, taken));
            assert forall|i: int| 0 <= i < self.slots().len() implies #[trigger] Self::slot_ok(
                self.slots()[i],
            ) by {
                assert(Self::slot_ok(row[i]));
            }
        }
        Some(Notification { slot, ticket })
    }

    /// Hands out the waker that a notifier took, and frees its slot if the party has
    /// given up meanwhile.
    pub fn wake(&mut self, notification: Notification, count: &mut usize) -> (r: W)
        requires
            old(self).wf(),
            old(self).is_notifying(notification),
            *old(count) == old(self).pending(),
        ensures
            final(self).wf(),
            *final(count) == *old(count) - 1,
            *final(count) == final(self).pending(),
            old(self).slots()[notification.slot as int].waker == Some(r),
            final(self).slots() == old(self).slots().update(
                notification.slot as int,
                if old(self).slots()[notification.slot as int].state is Cancelled {
                    free_slot()
                } else {
                    WaiterSlot {
                        state: SlotState::Notified,
                        ticket: notification.ticket,
                        waker: None,
                    }
                },
            ),
            final(self).notify_cursor() == old(self).notify_cursor(),
            final(self).register_cursor() == old(self).register_cursor(),
            final(self).closing() == old(self).closing(),
            final(self).waiting() == old(self).waiting(),
            final(self).keeps_other_claims(*old(self), notification.slot as int),
            forall|t: WaiterToken| #[trigger] old(self).is_owner(t) ==> final(self).is_owner(t),
    {
        let ghost row = self.slots();
        let i = notification.slot;
        proof {
            assert(Self::slot_ok(row[i as int]));
        }
        let cancelled = self.slots[i].state == SlotState::Cancelled;
        let waker = self.slots[i].waker.take();
        if cancelled {
            self.slots[i].state = SlotState::Free;
            self.slots[i].ticket = 0;
        } else {
            self.slots[i].state = SlotState::Notified;
        }
        proof {
            ring::lemma_count_update(row, is_pending::<W>(), i as int, self.slots()[i as int]);
            ring::lemma_count_update(row, is_waiting::<W>(), i as int, self.slots()[i as int]);
            assert(self.slots() =~= row.update(i as int, self.slots()[i as int]));
            assert forall|j: int| 0 <= j < self.slots().len() implies #[trigger] Self::slot_ok(
                self.slots()[j],
            ) by {
                assert(Self::slot_ok(row[j]));
            }
        }
        *count = *count - 1;
        waker.unwrap()
    }

    /// Selects one waiting party and returns its waker for the caller to wake.
    pub fn notify_one(&mut self, count: &mut usize) -> (r: Option<W>)
        requires
            old(self).wf(),
            *old(count) == old(self).pending(),
        ensures
            final(self).wf(),
            *final(count) == final(self).pending(),
            r is Some <==> old(self).waiting() > 0,
            match selected(old(self).slots(), old(self).notify_cursor()) {
                Some(j) => {
                    &&& 0 <= j < old(self).slots().len()
                    &&& old(self).slots()[j].state is Waiting
                    &&& r == old(self).slots()[j].waker
                    &&& r is Some
                    &&& *final(count) == *old(count) - 1
                    &&& final(self).slots() == after_wake(old(self).slots(), j)
                    &&& final(self).notify_cursor() == ring::next(
                        old(self).slots().len() as int,
                        j,
                    )
                    &&& final(self).waiting() + 1 == old(self).waiting()
                    &&& final(self).notified() == old(self).notified() + 1
                },
                None => {
                    &&& r is None
                    &&& *final(count) == *old(count)
                    &&& *final(self) == *old(self)
                },
            },
            old(self).is_settled() ==> final(self).is_settled(),
            final(self).register_cursor() == old(self).register_cursor(),
            final(self).closing() == old(self).closing(),
            final(self).keeps_claims(*old(self)),
    {
        let ghost pre = *self;
        match self.claim() {
            None => None,
            Some(notification) => {
                let ghost claimed = *self;
                let ghost i = notification.slot as int;
                proof {
                    assert(Self::slot_ok(pre.slots()[i]));
                }
                let waker = self.wake(notification, count);
                proof {
                    assert(self.slots() =~= after_wake(pre.slots(), i));
                    ring::lemma_count_update(
                        pre.slots(),
                        is_notified::<W>(),
                        i,
                        self.slots()[i],
                    );
                    assert forall|o: WaiterToken| #[trigger] pre.is_owner(o) implies self.is_owner(
                        o,
                    ) by {
                        assert(claimed.is_owner(o));
                    }
                    assert forall|o: Notification| #[trigger] pre.is_notifying(o) implies
                        self.is_notifying(o) by {
                        assert(claimed.is_notifying(o));
                        assert(o.slot != i);
                    }
                    assert forall|o: Registration| #[trigger] pre.is_writing(o) implies
                        self.is_writing(o) by {
                        assert(claimed.is_writing(o));
                        assert(o.slot != i);
                    }
                }
                Some(waker)
            },
        }
    }

    /// Selects up to `limit` waiting parties and returns their wakers.
    pub fn notify_many(&mut self, count: &mut usize, limit: usize) -> (r: Vec<W>)
        requires
            old(self).wf(),
            *old(count) == old(self).pending(),
        ensures
            final(self).wf(),
            *final(count) == final(self).pending(),
            *final(count) == *old(count) - r@.len(),
            r@ == woken(old(self).slots(), old(self).notify_cursor(), limit as nat),
            r@.len() == (if limit <= old(self).waiting() {
                limit as nat
            } else {
                old(self).waiting()
            }),
            final(self).waiting() == old(self).waiting() - r@.len(),
            final(self).notified() == old(self).notified() + r@.len(),
            old(self).is_settled() ==> final(self).is_settled(),
            final(self).slots() == slots_after(
                old(self).slots(),
                old(self).notify_cursor(),
                limit as nat,
            ),
            final(self).notify_cursor() == cursor_after(
                old(self).slots(),
                old(self).notify_cursor(),
                limit as nat,
            ),
            final(self).register_cursor() == old(self).register_cursor(),
            final(self).closing() == old(self).closing(),
            final(self).keeps_claims(*old(self)),
    {
        let ghost pre = *self;
        let mut r: Vec<W> = Vec::new();
        let mut left: usize = limit;
        assert(r@ + woken(self.slots(), self.notify_cursor(), limit as nat) =~= woken(
            self.slots(),
            self.notify_cursor(),
            limit as nat,
        ));
        while left > 0
            invariant_except_break
                r@ + woken(self.slots(), self.notify_cursor(), left as nat) == woken(
                    pre.slots(),
                    pre.notify_cursor(),
                    limit as nat,
                ),
                slots_after(self.slots(), self.notify_cursor(), left as nat) == slots_after(
                    pre.slots(),
                    pre.notify_cursor(),
                    limit as nat,
                ),
                cursor_after(self.slots(), self.notify_cursor(), left as nat) == cursor_after(
                    pre.slots(),
                    pre.notify_cursor(),
                    limit as nat,
                ),
                r@.len() == limit - left,
            invariant
                left <= limit,
                pre == *old(self),
                self.wf(),
                *count == self.pending(),
                *count == *old(count) - r@.len(),
                self.waiting() == pre.waiting() - r@.len(),
                self.notified() == pre.notified() + r@.len(),
                pre.is_settled() ==> self.is_settled(),
                r@.len() <= limit,
                self.register_cursor() == pre.register_cursor(),
                self.closing() == pre.closing(),
                self.keeps_claims(pre),
            ensures
                r@ == woken(pre.slots(), pre.notify_cursor(), limit as nat),
                self.slots() == slots_after(pre.slots(), pre.notify_cursor(), limit as nat),
                self.notify_cursor() == cursor_after(
                    pre.slots(),
                    pre.notify_cursor(),
                    limit as nat,
                ),
                r@.len() == limit || self.waiting() == 0,
            decreases left,
        {
            let ghost before = *self;
            let ghost so_far = r@;
            match self.notify_one(count) {
                None => {
                    proof {
                        assert(so_far + Seq::<W>::empty() =~= so_far);
                    }
                    break;
                },
                Some(waker) => {
                    r.push(waker);
                    left -= 1;
                    proof {
                        let rest = woken(self.slots(), self.notify_cursor(), left as nat);
                        assert(r@ + rest =~= so_far + (seq![waker] + rest));
                        Self::lemma_keeps(pre, before, *self);
                        if left == 0 {
                            assert(r@ + rest =~= r@);
                        }
                    }
                },
            }
        }
        r
    }

    /// Claims that two steps keep are kept by both in a row.
    proof fn lemma_keeps(a: Self, b: Self, c: Self)
        requires
            b.keeps_claims(a),
            c.keeps_claims(b),
        ensures
            c.keeps_claims(a),
    {
        assert forall|t: WaiterToken| #[trigger] a.is_owner(t) implies c.is_owner(t) by {
            assert(b.is_owner(t));
        }
        assert forall|n: Notification| #[trigger] a.is_notifying(n) implies c.is_notifying(n) by {
            assert(b.is_notifying(n));
        }
        assert forall|r: Registration| #[trigger] a.is_writing(r) implies c.is_writing(r) by {
            assert(b.is_writing(r));
        }
    }

    /// Selects every waiting party, for the close of the channel, and returns all their
    /// wakers.
    pub fn notify_all(&mut self, count: &mut usize) -> (r: Vec<W>)
        requires
            old(self).wf(),
            *old(count) == old(self).pending(),
        ensures
            final(self).wf(),
            final(self).closing(),
            *final(count) == final(self).pending(),
            *final(count) == *old(count) - r@.len(),
            r@ == woken(old(self).slots(), old(self).notify_cursor(), old(self).waiting()),
            r@.len() == old(self).waiting(),
            final(self).waiting() == 0,
            final(self).notified() == old(self).notified() + r@.len(),
            old(self).is_settled() ==> final(self).is_settled(),
            final(self).slots() == slots_after(
                old(self).slots(),
                old(self).notify_cursor(),
                old(self).waiting(),
            ),
            final(self).notify_cursor() == cursor_after(
                old(self).slots(),
                old(self).notify_cursor(),
                old(self).waiting(),
            ),
            final(self).register_cursor() == old(self).register_cursor(),
            final(self).keeps_claims(*old(self)),
    {
        self.closing = true;
        let ghost pre = *self;
        proof {
            ring::lemma_count_bounds(self.slots(), is_waiting::<W>());
        }
        let mut r: Vec<W> = Vec::new();
        let mut more: bool = true;
        assert(r@ + woken(self.slots(), self.notify_cursor(), self.waiting()) =~= woken(
            self.slots(),
            self.notify_cursor(),
            self.waiting(),
        ));
        while more
            invariant
                pre.slots() == old(self).slots(),
                pre.notify_cursor() == old(self).notify_cursor(),
                pre.register_cursor() == old(self).register_cursor(),
                self.wf(),
                *count == self.pending(),
                *count == *old(count) - r@.len(),
                self.waiting() == pre.waiting() - r@.len(),
                self.notified() == pre.notified() + r@.len(),
                pre.is_settled() ==> self.is_settled(),
                self.register_cursor() == pre.register_cursor(),
                self.closing(),
                self.keeps_claims(pre),
                !more ==> self.waiting() == 0,
                r@ + woken(self.slots(), self.notify_cursor(), self.waiting()) == woken(
                    pre.slots(),
                    pre.notify_cursor(),
                    pre.waiting(),
                ),
                slots_after(self.slots(), self.notify_cursor(), self.waiting()) == slots_after(
                    pre.slots(),
                    pre.notify_cursor(),
                    pre.waiting(),
                ),
                cursor_after(self.slots(), self.notify_cursor(), self.waiting()) == cursor_after(
                    pre.slots(),
                    pre.notify_cursor(),
                    pre.waiting(),
                ),
            decreases
                self.waiting(),
                (if more {
                    1int
                } else {
                    0int
                }),
        {
            let ghost before = *self;
            let ghost so_far = r@;
            match self.notify_one(count) {
                None => {
                    more = false;
                },
                Some(waker) => {
                    r.push(waker);
                    proof {
                        let rest = woken(self.slots(), self.notify_cursor(), self.waiting());
                        assert(r@ + rest =~= so_far + (seq![waker] + rest));
                        Self::lemma_keeps(pre, before, *self);
                    }
                },
            }
        }
        proof {
            assert(pre.keeps_claims(*old(self)));
            Self::lemma_keeps(*old(self), pre, *self);
            assert(woken(self.slots(), self.notify_cursor(), 0) =~= Seq::<W>::empty());
            assert(r@ + Seq::<W>::empty() =~= r@);
        }
        r
    }

    // ------------------------------------------------------------ giving up

    /// The slots after the owner of slot `i` gave it up.
    pub open spec fn slots_without(self, i: int) -> Seq<WaiterSlot<W>> {
        self.slots().update(
            i,
            match self.slots()[i].state {
                SlotState::Notifying => WaiterSlot {
                    state: SlotState::Cancelled,
                    ticket: self.slots()[i].ticket,
                    waker: self.slots()[i].waker,
                },
                _ => free_slot(),
            },
        )
    }

    /// What giving up the registration of `t` does.
    pub open spec fn gave_up(
        pre: Self,
        post: Self,
        t: WaiterToken,
        forward: bool,
        r: Unregistered<W>,
    ) -> bool {
        let s = pre.slots()[t.slot as int];
        let rest = pre.slots_without(t.slot as int);
        &&& r.removed == (if s.state is Waiting {
            s.waker
        } else {
            None
        })
        &&& r.removed is Some <==> s.state is Waiting
        &&& post.register_cursor() == pre.register_cursor()
        &&& post.closing() == pre.closing()
        &&& post.keeps_other_claims(pre, t.slot as int)
        &&& !post.is_owner(t)
        &&& forall|n: Notification| #[trigger] pre.is_notifying(n) ==> post.is_notifying(n)
        &&& post.waiting() == pre.waiting() - (if s.state is Waiting || r.forwarded is Some {
            1int
        } else {
            0int
        })
        &&& post.notified() == pre.notified() - (if s.state is Notified {
            1int
        } else {
            0int
        }) + (if r.forwarded is Some {
            1int
        } else {
            0int
        })
        &&& pre.is_settled() ==> post.is_settled()
        &&& if forward && !(s.state is Waiting) {
            match selected(rest, pre.notify_cursor()) {
                Some(j) => {
                    &&& 0 <= j < rest.len()
                    &&& rest[j].state is Waiting
                    &&& j != t.slot
                    &&& r.forwarded == rest[j].waker
                    &&& r.forwarded is Some
                    &&& post.slots() == after_wake(rest, j)
                    &&& post.notify_cursor() == ring::next(rest.len() as int, j)
                },
                None => {
                    &&& r.forwarded is None
                    &&& pre.waiting() == 0
                    &&& post.slots() == rest
                    &&& post.notify_cursor() == pre.notify_cursor()
                },
            }
        } else {
            &&& r.forwarded is None
            &&& post.slots() == rest
            &&& post.notify_cursor() == pre.notify_cursor()
        }
    }

    /// Gives up the registration in `token`, if there is one.
    ///
    /// A waker that nobody took comes back. If the party was selected already, the
    /// notification is passed on to another one where `forward` says so: a party that
    /// gives up will not do what it was woken for. A notifier that has taken the waker
    /// and not woken it yet frees the slot when it does.
    pub fn unregister(
        &mut self,
        count: &mut usize,
        token: &mut Option<WaiterToken>,
        forward: bool,
    ) -> (r: Unregistered<W>)
        requires
            old(self).wf(),
            *old(count) == old(self).pending(),
            *old(token) matches Some(t) ==> old(self).is_owner(t),
        ensures
            final(self).wf(),
            *final(count) == final(self).pending(),
            *final(token) is None,
            final(self).register_cursor() == old(self).register_cursor(),
            final(self).closing() == old(self).closing(),
            *old(token) is None ==> {
                &&& *final(self) == *old(self)
                &&& *final(count) == *old(count)
                &&& r.removed is None
                &&& r.forwarded is None
            },
            *old(token) matches Some(t) ==> {
                &&& Self::gave_up(*old(self), *final(self), t, forward, r)
                &&& *final(count) == *old(count) - (if r.removed is Some {
                    1int
                } else {
                    0int
                }) - (if r.forwarded is Some {
                    1int
                } else {
                    0int
                })
            },
    {
        let ghost pre = *self;
        match token.take() {
            None => Unregistered { removed: None, forwarded: None },
            Some(t) => {
                let i = t.slot;
                let ghost row = self.slots();
                let ghost s = row[i as int];
                proof {
                    assert(Self::slot_ok(s));
                    ring::lemma_count_update(
                        row,
                        is_pending::<W>(),
                        i as int,
                        pre.slots_without(i as int)[i as int],
                    );
                    ring::lemma_count_update(
                        row,
                        is_waiting::<W>(),
                        i as int,
                        pre.slots_without(i as int)[i as int],
                    );
                    ring::lemma_count_update(
                        row,
                        is_notified::<W>(),
                        i as int,
                        pre.slots_without(i as int)[i as int],
                    );
                }
                let mut removed: Option<W> = None;
                let waiting = self.slots[i].state == SlotState::Waiting;
                if waiting {
                    *count = *count - 1;
                    removed = self.slots[i].waker.take();
                    self.slots[i].state = SlotState::Free;
                    self.slots[i].ticket = 0;
                } else if self.slots[i].state == SlotState::Notifying {
                    self.slots[i].state = SlotState::Cancelled;
                } else {
                    self.slots[i].state = SlotState::Free;
                    self.slots[i].ticket = 0;
                }
                let ghost mid = *self;
                proof {
                    assert(self.slots() =~= pre.slots_without(i as int));
                    assert forall|j: int| 0 <= j < self.slots().len() implies #[trigger] Self::slot_ok(
                        self.slots()[j],
                    ) by {
                        assert(Self::slot_ok(row[j]));
                    }
                }
                let forwarded = if forward && !waiting {
                    self.notify_one(count)
                } else {
                    None
                };
                proof {
                    assert forall|o: WaiterToken| #[trigger] pre.is_owner(o) && o.slot
                        != t.slot implies self.is_owner(o) by {
                        assert(mid.is_owner(o));
                    }
                    assert forall|o: Notification| #[trigger] pre.is_notifying(o) implies
                        self.is_notifying(o) by {
                        assert(mid.is_notifying(o));
                    }
                    assert forall|o: Registration| #[trigger] pre.is_writing(o) && o.slot
                        != t.slot implies self.is_writing(o) by {
                        assert(mid.is_writing(o));
                    }
                }
                Unregistered { removed, forwarded }
            },
        }
    }

    /// Selecting the next waiting party makes one more notified and one less waiting.
    pub proof fn lemma_selected(self)
        requires
            self.wf(),
        ensures
            selected(self.slots(), self.notify_cursor()) is Some <==> self.waiting() > 0,
            selected(self.slots(), self.notify_cursor()) matches Some(j) ==> {
                let after = after_wake(self.slots(), j);
                &&& 0 <= j < self.slots().len()
                &&& self.slots()[j].state is Waiting
                &&& ring::count_where(after, is_waiting::<W>()) + 1 == self.waiting()
                &&& ring::count_where(after, is_notified::<W>()) == self.notified() + 1
            },
    {
        let n = self.slots().len() as int;
        let f = in_state(self.slots(), SlotState::Waiting);
        ring::lemma_find(n, self.notify_cursor(), n as nat, f);
        ring::lemma_count_zero(self.slots(), is_waiting::<W>());
        match selected(self.slots(), self.notify_cursor()) {
            Some(j) => {
                assert(is_waiting::<W>()(self.slots()[j]));
                let new = after_wake(self.slots(), j)[j];
                ring::lemma_count_update(self.slots(), is_waiting::<W>(), j, new);
                ring::lemma_count_update(self.slots(), is_notified::<W>(), j, new);
            },
            None => {
                ring::lemma_full_miss(n, self.notify_cursor(), n as nat, f);
                assert forall|i: int| 0 <= i < n implies !is_waiting::<W>()(
                    #[trigger] self.slots()[i],
                ) by {
                    assert(!f(i));
                }
            },
        }
    }

    /// A registration makes one more waiting.
    pub proof fn lemma_registered(pre: Self, post: Self, t: WaiterToken, waker: W)
        requires
            pre.wf(),
            Self::registered(pre, post, t, waker),
        ensures
            0 <= pre.next_free() < pre.with_room().len(),
            pre.with_room()[pre.next_free()] == free_slot::<W>(),
            post.waiting() == pre.waiting() + 1,
            post.notified() == pre.notified(),
    {
        let n = pre.slots().len() as int;
        let f = in_state(pre.slots(), SlotState::Free);
        ring::lemma_find(n, pre.register_cursor(), n as nat, f);
        let i = pre.next_free();
        let row = pre.with_room();
        if i < n {
            assert(Self::slot_ok(pre.slots()[i]));
        }
        ring::lemma_count_add(pre.slots(), free_page::<W>(), is_waiting::<W>());
        ring::lemma_count_zero(free_page::<W>(), is_waiting::<W>());
        ring::lemma_count_add(pre.slots(), free_page::<W>(), is_notified::<W>());
        ring::lemma_count_zero(free_page::<W>(), is_notified::<W>());
        ring::lemma_count_update(row, is_waiting::<W>(), i, post.slots()[i]);
        ring::lemma_count_update(row, is_notified::<W>(), i, post.slots()[i]);
    }
}

} // verus!
