//! The block queue at the heart of a channel.
//!
//! Messages live in a chain of blocks. Producers claim a position at the tail, find
//! the block that serves it, write their message and publish the slot; the producer
//! that claims the last slot of a block links the next block first. Consumers look
//! at the slot at the head, claim it once it is written, move the message out and
//! leave a mark; the consumer of the last slot moves the head to the next block and
//! recycles the old one if all its readers have left their marks, or retires it.
//!
//! Several producers and consumers take these steps in turn, and any of them can be
//! paused between two of its steps. Each step is a function here, and the invariant
//! holds between any two steps of any of them; [`Queue::push`] and [`Queue::pop`]
//! run all the steps of one producer or consumer.
use vstd::prelude::*;

use crate::backoff::Backoff;
use crate::block::Block;
use crate::block::Slot;
use crate::block::POOLED;
use crate::pool::BlockPool;
use crate::position;
use crate::position::items_between;
use crate::position::lap;
use crate::position::lap_start;
use crate::position::offset;
use crate::position::written_tag;
use crate::position::BLOCK_CAP;
use crate::position::LAP;

verus! {

/// Uncontended pushes that lead back from compare-and-swap claims to counter claims.
pub const CONTENTION_WINDOW: usize = 64;

/// Retired blocks that one allocation inspects.
pub const RETIRED_PROBES: usize = 4;

/// Whether `n` messages leave room for another one. Without a bound there always is.
pub open spec fn leaves_room(n: int, bound: Option<usize>) -> bool {
    bound matches Some(c) ==> n < c
}

/// Whether `n` messages keep the bound, if there is one.
pub open spec fn within(n: int, bound: Option<usize>) -> bool {
    bound matches Some(c) ==> n <= c
}

/// One end of the queue.
pub struct Position {
    index: usize,
    block: usize,
    cached: usize,
    contended: usize,
}

/// How far the reader of a slot has come.
pub enum ReadStage<T> {
    /// No reader is at work on the slot.
    Absent,
    /// A consumer claimed the slot and has not moved this message out yet.
    Claimed(T),
    /// The message was moved out; its reader has not left its mark yet.
    Moved,
}

/// What one compare-and-swap on the tail came to.
pub enum CasClaim {
    /// The position is claimed.
    Claimed(usize),
    /// The position was a sentinel; it is skipped, and this one follows it.
    Skipped(usize),
    /// Another producer came first; the tail stands here.
    Lost(usize),
}

/// What one attempt of a bounded claim came to.
pub enum BoundedClaim {
    /// The position is claimed.
    Claimed(usize),
    /// The queue is full.
    Full,
    /// The position was a sentinel; it is skipped, and this one follows it.
    Skipped(usize),
    /// Another producer came first; the tail stands here.
    Lost(usize),
}

/// A claim on the message at `pos`, in slot `offset(pos)` of block `block`.
pub struct ReadClaim {
    /// The block that serves the lap of `pos`.
    pub block: usize,
    /// The claimed position.
    pub pos: usize,
}

/// What one look at the head came to.
pub enum HeadStep {
    /// The message at the head is claimed.
    Claimed(ReadClaim),
    /// There is no published message at the head.
    Unwritten,
    /// Another consumer is moving the head to the next block.
    Transition,
    /// Another consumer came first; head and block stand here.
    Moved(usize, usize),
}

/// Number of published messages in a row from the front, at most `max`.
pub open spec fn ready_prefix<T>(cells: Seq<Option<T>>, max: nat) -> nat
    decreases max,
{
    if max == 0 || cells.len() == 0 || cells[0] is None {
        0
    } else {
        1 + ready_prefix(cells.drop_first(), (max - 1) as nat)
    }
}

/// A ready prefix is published, and what ends it is the limit, the end of the queue or
/// a message that is still being written.
pub proof fn lemma_ready_prefix<T>(cells: Seq<Option<T>>, max: nat)
    ensures
        ready_prefix(cells, max) <= max,
        ready_prefix(cells, max) <= cells.len(),
        forall|i: int| 0 <= i < ready_prefix(cells, max) ==> #[trigger] cells[i] is Some,
        ready_prefix(cells, max) < max && ready_prefix(cells, max) < cells.len()
            ==> cells[ready_prefix(cells, max) as int] is None,
    decreases max,
{
    if max > 0 && cells.len() > 0 && cells[0] is Some {
        let rest = cells.drop_first();
        lemma_ready_prefix(rest, (max - 1) as nat);
        assert forall|i: int| 0 <= i < ready_prefix(cells, max) implies #[trigger] cells[i] is Some by {
            if i > 0 {
                assert(rest[i - 1] == cells[i]);
            }
        }
    }
}

/// The published messages among `cells`, in order.
pub open spec fn published<T>(cells: Seq<Option<T>>) -> Seq<T>
    decreases cells.len(),
{
    if cells.len() == 0 {
        Seq::empty()
    } else {
        match cells.last() {
            Some(v) => published(cells.drop_last()).push(v),
            None => published(cells.drop_last()),
        }
    }
}

/// Nothing is published where nothing is written.
proof fn lemma_nothing_published<T>(cells: Seq<Option<T>>, k: int)
    requires
        0 <= k <= cells.len(),
        forall|i: int| k <= i < cells.len() ==> #[trigger] cells[i] is None,
    ensures
        published(cells) == published(cells.take(k)),
    decreases cells.len() - k,
{
    if k == cells.len() {
        assert(cells.take(k) =~= cells);
    } else {
        assert(cells.drop_last().take(k) =~= cells.take(k));
        lemma_nothing_published(cells.drop_last(), k);
    }
}

/// Where every message is published, the published messages are all of them.
pub proof fn lemma_all_published<T>(cells: Seq<Option<T>>)
    requires
        forall|i: int| 0 <= i < cells.len() ==> #[trigger] cells[i] is Some,
    ensures
        published(cells) == cells.map_values(|c: Option<T>| c->0),
    decreases cells.len(),
{
    if cells.len() > 0 {
        lemma_all_published(cells.drop_last());
        assert(cells.map_values(|c: Option<T>| c->0) =~= cells.drop_last().map_values(
            |c: Option<T>| c->0,
        ).push(cells.last()->0));
    } else {
        assert(cells.map_values(|c: Option<T>| c->0) =~= Seq::empty());
    }
}

/// One block in a [`Dump`].
pub struct DumpedBlock {
    /// Number of the block.
    pub block: usize,
    /// First position of the lap it serves.
    pub start: usize,
    /// The block after it.
    pub next: Option<usize>,
}

/// What [`Queue::debug_dump`] saw.
pub struct Dump {
    /// Position of the head.
    pub head: usize,
    /// Its lap.
    pub head_lap: usize,
    /// Its offset inside the lap.
    pub head_offset: usize,
    /// The block at the head.
    pub head_block: usize,
    /// First position of the lap that block serves.
    pub head_start: usize,
    /// State of the slot at the head, 0 at a sentinel.
    pub head_slot_state: usize,
    /// State of that slot once its message is published.
    pub expected: usize,
    /// The contention counter at the head, which nobody uses.
    pub head_contended: usize,
    /// Position of the tail.
    pub tail: usize,
    /// The block at the tail.
    pub tail_block: usize,
    /// First position of the lap that block serves.
    pub tail_start: usize,
    /// Pushes left before an unbounded queue claims by counter again.
    pub tail_contended: usize,
    /// The block kept aside.
    pub spare: Option<usize>,
    /// Number of blocks that are ready for use.
    pub ready: usize,
    /// Number of retired blocks.
    pub retired: usize,
    /// The last blocks, from the tail backwards.
    pub trail: Vec<DumpedBlock>,
}

/// The queue.
pub struct Queue<T> {
    blocks: Vec<Block<T>>,
    head: Position,
    tail: Position,
    spare: Option<usize>,
    ready: BlockPool,
    retired: BlockPool,
    capacity: Option<usize>,
    chain: Ghost<Seq<usize>>,
}

impl<T> Queue<T> {
    // ---------------------------------------------------------------- model

    /// Position of the next message to be received.
    pub closed spec fn head_index(self) -> int {
        self.head.index as int
    }

    /// Position that the next claim of a producer looks at.
    pub closed spec fn tail_index(self) -> int {
        self.tail.index as int
    }

    /// Number of messages that fit, or `None` without a bound.
    pub closed spec fn bound(self) -> Option<usize> {
        self.capacity
    }

    /// Pushes left before an unbounded queue claims by counter again.
    pub closed spec fn contention(self) -> nat {
        self.tail.contended as nat
    }

    /// The contention counter at the head, which nobody uses.
    pub closed spec fn head_contention(self) -> nat {
        self.head.contended as nat
    }

    /// The head position that bounded producers saw last.
    pub closed spec fn cached_head(self) -> int {
        self.tail.cached as int
    }

    /// Number of blocks ever allocated.
    pub closed spec fn block_count(self) -> nat {
        self.blocks@.len()
    }

    /// The block kept aside for the next installation.
    pub closed spec fn spare(self) -> Option<usize> {
        self.spare
    }

    /// Blocks that are ready for use.
    pub closed spec fn ready(self) -> BlockPool {
        self.ready
    }

    /// Blocks that left the chain before all their readers had finished.
    pub closed spec fn retired(self) -> BlockPool {
        self.retired
    }

    /// The live blocks, from the one at the head to the one at the tail.
    pub closed spec fn chain(self) -> Seq<usize> {
        self.chain@
    }

    /// A block by its number.
    pub closed spec fn block(self, b: usize) -> Block<T> {
        self.blocks@[b as int]
    }

    /// The lap that the first live block serves.
    pub closed spec fn first_lap(self) -> int {
        self.blocks@[self.chain@[0] as int].start as int / 64
    }

    /// The lap that the last live block serves.
    pub open spec fn last_lap(self) -> int {
        self.first_lap() + self.chain().len() - 1
    }

    /// What the slot of a position holds; nothing where no block serves it yet.
    pub open spec fn cell(self, pos: int) -> Option<T> {
        if position::lap_of(pos) <= self.last_lap() {
            self.block(self.chain()[position::lap_of(pos) - self.first_lap()]).slots@[position::offset_of(
                pos,
            )].value
        } else {
            None
        }
    }

    /// The claimed positions that no consumer has claimed, oldest first: the message,
    /// or nothing where the producer has not published it yet.
    pub open spec fn cells(self) -> Seq<Option<T>> {
        Seq::new(
            (position::rank(self.tail_index()) - position::rank(self.head_index())) as nat,
            |k: int| self.cell(position::nth(position::rank(self.head_index()) + k)),
        )
    }

    /// Place of a position among [`Queue::cells`].
    pub open spec fn place(self, pos: int) -> int {
        position::rank(pos) - position::rank(self.head_index())
    }

    /// Whether a producer claimed `pos` and has not published its message yet.
    pub open spec fn is_pending(self, pos: int) -> bool {
        &&& !position::is_sentinel(pos)
        &&& self.head_index() <= pos < self.tail_index()
        &&& self.cells()[self.place(pos)] is None
    }

    /// Whether a consumer is moving the head from one block to the next.
    pub open spec fn in_transition(self) -> bool {
        position::is_sentinel(self.head_index())
    }

    /// Whether the block for the next claim is linked: no producer is paused between
    /// claiming the last slot of a block and linking the block after it.
    pub open spec fn is_linked(self) -> bool {
        self.tail_index() <= 64 * self.last_lap() + 62
    }

    /// Whether another claim stays within the range of positions.
    pub open spec fn has_room(self) -> bool {
        self.tail_index() <= usize::MAX - 128
    }

    /// Whether slot `o` of block `b` belongs to a consumer's claim.
    pub open spec fn is_claimed_slot(self, b: usize, o: int) -> bool {
        ||| b == self.chain()[0] && 0 <= o < 63 && 64 * self.first_lap() + o < self.head_index()
        ||| self.retired().holds(b) && 0 <= o < 62
    }

    /// How far the reader of slot `o` of block `b` has come.
    pub open spec fn stage(self, b: usize, o: int) -> ReadStage<T> {
        if !self.is_claimed_slot(b, o) {
            ReadStage::Absent
        } else {
            match self.block(b).slots@[o].value {
                Some(v) => ReadStage::Claimed(v),
                None => if self.block(b).read_marks@[o] == 0 {
                    ReadStage::Moved
                } else {
                    ReadStage::Absent
                },
            }
        }
    }

    /// Whether every reader stands where it stood in `other`.
    pub open spec fn same_readers(self, other: Self) -> bool {
        forall|b: usize, o: int| #[trigger] self.stage(b, o) == other.stage(b, o)
    }

    /// Number of places in which block `b` is kept.
    pub open spec fn places(self, b: usize) -> int {
        (if self.chain().contains(b) {
            1int
        } else {
            0int
        }) + (if self.spare() == Some(b) {
            1int
        } else {
            0int
        }) + (if self.ready().holds(b) {
            1int
        } else {
            0int
        }) + (if self.retired().holds(b) {
            1int
        } else {
            0int
        })
    }

    // ------------------------------------------------------------ invariant

    /// Block `i` of the chain serves its lap and is linked to its neighbours.
    pub open spec fn link_ok(self, i: int) -> bool {
        let b = self.block(self.chain()[i]);
        &&& self.chain()[i] < self.block_count()
        &&& b.start == 64 * (self.first_lap() + i)
        &&& b.next == (if i + 1 < self.chain().len() {
            Some(self.chain()[i + 1])
        } else {
            None
        })
        &&& i > 0 ==> b.prev == Some(self.chain()[i - 1])
    }

    /// The state, the message and the mark of slot `o` of block `i` of the chain agree
    /// with where head and tail stand.
    pub open spec fn slot_ok(self, i: int, o: int) -> bool {
        let l = self.first_lap() + i;
        let p = 64 * l + o;
        let s = self.block(self.chain()[i]).slots@[o];
        let m = self.block(self.chain()[i]).read_marks@[o];
        &&& s.state <= position::tag(l)
        &&& p < self.head_index() ==> s.state == position::tag(l) && (s.value is Some ==> m == 0)
        &&& p >= self.head_index() ==> m == 0
        &&& self.head_index() <= p < self.tail_index() ==> (s.state == position::tag(l)
            <==> s.value is Some)
        &&& p >= self.head_index() && p >= self.tail_index() ==> s.state < position::tag(l)
            && s.value is None
    }

    /// Block `b` left the chain with all its messages claimed; a marked slot is empty.
    pub open spec fn retired_ok(self, b: usize) -> bool {
        let k = self.block(b);
        &&& k.start as int % 64 == 0
        &&& k.start < 64 * self.first_lap()
        &&& k.slots@[62].value is None
        &&& forall|o: int|
            0 <= o < 63 ==> (#[trigger] k.slots@[o]).state == position::tag(k.start as int / 64)
        &&& forall|o: int|
            0 <= o < 63 && #[trigger] k.read_marks@[o] != 0 ==> k.slots@[o].value is None
    }

    /// A bound on the states of blocks that serve no lap.
    pub open spec fn free_bound(self) -> int {
        position::tag(self.last_lap() + 1)
    }

    /// The invariant, with the blocks in `held` in the hands of the caller.
    pub open spec fn inv_except(self, held: Seq<usize>) -> bool {
        &&& self.chain().len() >= 1
        &&& self.chain().no_duplicates()
        &&& self.bound() != Some(0usize)
        &&& self.ready().wf()
        &&& self.retired().wf()
        // Head and tail.
        &&& self.ends_ok()
        // Blocks.
        &&& forall|b: usize| b < self.block_count() ==> (#[trigger] self.block(b)).shaped()
        &&& forall|i: int| 0 <= i < self.chain().len() ==> #[trigger] self.link_ok(i)
        &&& forall|i: int, o: int|
            0 <= i < self.chain().len() && 0 <= o < 63 ==> #[trigger] self.slot_ok(i, o)
        // Every block is in one place.
        &&& forall|b: usize|
            b < self.block_count() ==> #[trigger] self.places(b) == (if held.contains(b) {
                0int
            } else {
                1int
            })
        &&& forall|b: usize| #[trigger] self.ready().holds(b) ==> b < self.block_count()
        &&& forall|b: usize| #[trigger] self.retired().holds(b) ==> b < self.block_count()
        &&& self.spare() matches Some(b) ==> b < self.block_count() && self.block(b).clean(
            self.free_bound(),
        )
        &&& forall|b: usize| #[trigger]
            self.ready().holds(b) ==> self.block(b).clean(self.free_bound())
        &&& forall|b: usize| #[trigger] self.retired().holds(b) ==> self.retired_ok(b)
    }

    /// Head and tail lie within the chain and keep the bound.
    pub closed spec fn ends_ok(self) -> bool {
        let last = self.block(self.chain()[self.chain().len() - 1]);
        &&& self.head.block == self.chain()[0]
        &&& self.tail.block == self.chain()[self.chain().len() - 1]
        &&& 0 <= self.first_lap()
        &&& 64 * self.first_lap() <= self.head_index() <= 64 * self.first_lap() + 63
        &&& self.in_transition() ==> self.chain().len() >= 2
        &&& 64 * self.last_lap() - 1 <= self.tail_index() <= usize::MAX - 63
        &&& self.head_index() <= self.tail_index() || (self.head_index() == self.tail_index() + 1
            && position::is_sentinel(self.tail_index()))
        &&& last.slots@[62].state < position::tag(self.last_lap())
        &&& self.cached_head() <= self.head_index()
        &&& within(
            position::rank(self.tail_index()) - position::rank(self.head_index()),
            self.bound(),
        )
    }

    /// The invariant of the queue.
    pub open spec fn wf(self) -> bool {
        self.inv_except(Seq::empty())
    }

    // ---------------------------------------------------------- construction

    /// An empty queue with room for `capacity` messages, or without a bound.
    pub fn new(capacity: Option<usize>) -> (r: Self)
        requires
            capacity matches Some(c) ==> c >= 1,
        ensures
            r.wf(),
            r.cells() == Seq::<Option<T>>::empty(),
            r.head_index() == 0,
            r.tail_index() == 0,
            r.bound() == capacity,
            r.contention() == 0,
            r.block_count() == 1,
            r.is_linked(),
            !r.in_transition(),
            forall|b: usize, o: int| #[trigger] r.stage(b, o) is Absent,
    {
        let mut first = Block::<T>::allocate();
        first.start = 0;
        let mut blocks: Vec<Block<T>> = Vec::new();
        blocks.push(first);
        let chain: Ghost<Seq<usize>> = Ghost(Seq::empty().push(0usize));
        let r = Queue {
            blocks,
            head: Position { index: 0, block: 0, cached: 0, contended: 0 },
            tail: Position { index: 0, block: 0, cached: 0, contended: 0 },
            spare: None,
            ready: BlockPool::new(),
            retired: BlockPool::new(),
            capacity,
            chain,
        };
        proof {
            assert(r.chain()[0] == 0);
            assert(r.chain().contains(0usize));
            assert forall|b: usize| !#[trigger] r.ready().holds(b) by {}
            assert forall|b: usize| !#[trigger] r.retired().holds(b) by {}
            assert(r.cells() =~= Seq::<Option<T>>::empty());
        }
        r
    }

    // ---------------------------------------------------------------- claims

    /// The blocks, their places and the consumers' end are as they are in `other`.
    pub open spec fn same_storage(self, other: Self) -> bool {
        &&& self.head_index() == other.head_index()
        &&& self.bound() == other.bound()
        &&& self.chain() == other.chain()
        &&& self.first_lap() == other.first_lap()
        &&& self.block_count() == other.block_count()
        &&& self.spare() == other.spare()
        &&& self.ready() == other.ready()
        &&& self.retired() == other.retired()
        &&& forall|b: usize| #[trigger] self.block(b) == other.block(b)
        &&& self.same_readers(other)
    }

    /// Everything but the producers' end is as it is in `other`.
    spec fn same_but_tail(self, other: Self) -> bool {
        &&& self.blocks == other.blocks
        &&& self.head == other.head
        &&& self.spare == other.spare
        &&& self.ready == other.ready
        &&& self.retired == other.retired
        &&& self.capacity == other.capacity
        &&& self.chain == other.chain
        &&& self.tail.block == other.tail.block
    }

    /// Moving the tail over one position claims it, or skips it if it is a sentinel.
    proof fn lemma_tail_step(pre: Self, post: Self)
        requires
            pre.wf(),
            post.same_but_tail(pre),
            post.tail.index == pre.tail.index + 1,
            pre.tail_index() <= usize::MAX - 64,
            post.cached_head() <= post.head_index(),
            leaves_room(pre.cells().len() as int, pre.bound()) || position::is_sentinel(pre.tail_index()),
        ensures
            post.wf(),
            post.same_readers(pre),
            position::is_sentinel(pre.tail_index()) ==> post.cells() == pre.cells(),
            !position::is_sentinel(pre.tail_index()) ==> {
                &&& post.cells() == pre.cells().push(None)
                &&& post.is_pending(pre.tail_index())
                &&& post.place(pre.tail_index()) == pre.cells().len()
            },
    {
        let t = pre.tail_index();
        position::lemma_rank(t);
        position::lemma_rank(pre.head_index());
        assert forall|b: usize| post.places(b) == #[trigger] pre.places(b) by {}
        assert forall|b: usize| b < post.block_count() implies #[trigger] post.places(b) == 1 by {
            assert(pre.places(b) == 1);
        }
        assert forall|b: usize| b < post.block_count() implies (#[trigger] post.block(b)).shaped() by {
            assert(pre.block(b).shaped());
        }
        assert forall|i: int| 0 <= i < post.chain().len() implies #[trigger] post.link_ok(i) by {
            assert(pre.link_ok(i));
        }
        assert forall|i: int, o: int|
            0 <= i < post.chain().len() && 0 <= o < 63 implies #[trigger] post.slot_ok(i, o) by {
            assert(pre.slot_ok(i, o));
        }
        assert forall|b: usize| #[trigger] post.retired().holds(b) implies post.retired_ok(b) by {
            assert(pre.retired_ok(b));
        }
        assert forall|b: usize, o: int| #[trigger] post.stage(b, o) == pre.stage(b, o) by {}
        if position::is_sentinel(t) {
            assert(post.cells() =~= pre.cells());
        } else {
            let i = position::lap_of(t) - pre.first_lap();
            if position::lap_of(t) <= pre.last_lap() {
                assert(pre.slot_ok(i, position::offset_of(t)));
            }
            assert(post.cell(t) is None);
            assert(post.cells() =~= pre.cells().push(None));
        }
    }

    /// Draws the tail position, whatever `expected` it was last seen at.
    ///
    /// A draw that lands elsewhere than expected tells that other producers are
    /// active, and turns the queue to compare-and-swap claims. A drawn sentinel is
    /// skipped by everyone; its drawer draws again.
    pub fn claim_fetch_add_step(&mut self, expected: usize) -> (r: Option<usize>)
        requires
            old(self).wf(),
            old(self).tail_index() <= usize::MAX - 64,
            leaves_room(old(self).cells().len() as int, old(self).bound()),
        ensures
            final(self).wf(),
            final(self).same_storage(*old(self)),
            final(self).tail_index() == old(self).tail_index() + 1,
            final(self).contention() == (if old(self).tail_index() == expected {
                old(self).contention()
            } else {
                64
            }),
            position::is_sentinel(old(self).tail_index()) ==> {
                &&& r is None
                &&& final(self).cells() == old(self).cells()
            },
            !position::is_sentinel(old(self).tail_index()) ==> {
                &&& r == Some(old(self).tail_index() as usize)
                &&& final(self).cells() == old(self).cells().push(None)
                &&& final(self).is_pending(old(self).tail_index())
            },
    {
        let tail = self.tail.index;
        self.tail.index = tail + 1;
        if tail != expected {
            self.tail.contended = CONTENTION_WINDOW;
        }
        proof {
            Self::lemma_tail_step(*old(self), *self);
        }
        if offset(tail) != BLOCK_CAP {
            Some(tail)
        } else {
            None
        }
    }

    /// Claims the next position by counter, for a producer that saw the tail at `seen`.
    pub fn claim_fetch_add_from(&mut self, seen: usize) -> (r: usize)
        requires
            old(self).wf(),
            old(self).has_room(),
            leaves_room(old(self).cells().len() as int, old(self).bound()),
        ensures
            final(self).wf(),
            final(self).same_storage(*old(self)),
            final(self).contention() == (if old(self).tail_index() == seen {
                old(self).contention()
            } else {
                64
            }),
            r == position::nth(position::rank(old(self).tail_index())),
            final(self).tail_index() == r + 1,
            final(self).cells() == old(self).cells().push(None),
            final(self).is_pending(r as int),
    {
        proof {
            position::lemma_rank(old(self).tail_index());
            position::lemma_rank(old(self).tail_index() + 1);
        }
        match self.claim_fetch_add_step(seen) {
            Some(pos) => pos,
            None => {
                let expected = self.tail.index;
                let claim = self.claim_fetch_add_step(expected);
                claim.unwrap()
            },
        }
    }

    /// Claims the next position by counter.
    pub fn claim_fetch_add(&mut self) -> (r: usize)
        requires
            old(self).wf(),
            old(self).has_room(),
            leaves_room(old(self).cells().len() as int, old(self).bound()),
        ensures
            final(self).wf(),
            final(self).same_storage(*old(self)),
            final(self).contention() == old(self).contention(),
            r == position::nth(position::rank(old(self).tail_index())),
            final(self).tail_index() == r + 1,
            final(self).cells() == old(self).cells().push(None),
            final(self).is_pending(r as int),
    {
        let expected = self.tail.index;
        self.claim_fetch_add_from(expected)
    }

    /// One compare-and-swap on the tail, by a producer that saw it at `expected` and
    /// that has `failed` before.
    ///
    /// A claim without a failure counts down towards counter claims; a claim after a
    /// failure opens the window again.
    pub fn claim_cas_step(&mut self, expected: usize, failed: bool) -> (r: CasClaim)
        requires
            old(self).wf(),
            old(self).tail_index() <= usize::MAX - 64,
            leaves_room(old(self).cells().len() as int, old(self).bound()),
        ensures
            final(self).wf(),
            final(self).same_storage(*old(self)),
            old(self).tail_index() != expected ==> {
                &&& r == CasClaim::Lost(old(self).tail_index() as usize)
                &&& *final(self) == *old(self)
            },
            old(self).tail_index() == expected && position::is_sentinel(expected as int) ==> {
                &&& r == CasClaim::Skipped((expected + 1) as usize)
                &&& final(self).tail_index() == expected + 1
                &&& final(self).cells() == old(self).cells()
                &&& final(self).contention() == old(self).contention()
            },
            old(self).tail_index() == expected && !position::is_sentinel(expected as int) ==> {
                &&& r == CasClaim::Claimed(expected)
                &&& final(self).tail_index() == expected + 1
                &&& final(self).cells() == old(self).cells().push(None)
                &&& final(self).is_pending(expected as int)
                &&& final(self).contention() == (if failed {
                    64
                } else if old(self).contention() > 0 {
                    (old(self).contention() - 1) as nat
                } else {
                    0
                })
            },
    {
        if self.tail.index != expected {
            return CasClaim::Lost(self.tail.index);
        }
        self.tail.index = expected + 1;
        if offset(expected) == BLOCK_CAP {
            proof {
                Self::lemma_tail_step(*old(self), *self);
            }
            return CasClaim::Skipped(expected + 1);
        }
        let level = self.tail.contended;
        if failed {
            self.tail.contended = CONTENTION_WINDOW;
        } else if level > 0 {
            self.tail.contended = level - 1;
        }
        proof {
            Self::lemma_tail_step(*old(self), *self);
        }
        CasClaim::Claimed(expected)
    }

    /// Claims the next position by compare-and-swap, for a producer that saw the tail at
    /// `seen`.
    pub fn claim_cas_from(&mut self, seen: usize) -> (r: usize)
        requires
            old(self).wf(),
            old(self).has_room(),
            leaves_room(old(self).cells().len() as int, old(self).bound()),
        ensures
            final(self).wf(),
            final(self).same_storage(*old(self)),
            final(self).contention() == (if seen != old(self).tail_index() {
                64
            } else if old(self).contention() > 0 {
                (old(self).contention() - 1) as nat
            } else {
                0
            }),
            r == position::nth(position::rank(old(self).tail_index())),
            final(self).tail_index() == r + 1,
            final(self).cells() == old(self).cells().push(None),
            final(self).is_pending(r as int),
    {
        proof {
            position::lemma_rank(old(self).tail_index());
            position::lemma_rank(old(self).tail_index() + 1);
        }
        let mut backoff = Backoff::new();
        let mut tail: usize = seen;
        let mut failed: bool = false;
        loop
            invariant
                self.wf(),
                old(self).has_room(),
                self.same_storage(*old(self)),
                self.cells() == old(self).cells(),
                leaves_room(self.cells().len() as int, self.bound()),
                self.contention() == old(self).contention(),
                self.tail_index() == old(self).tail_index() || position::is_sentinel(
                    old(self).tail_index(),
                ) && self.tail_index() == old(self).tail_index() + 1,
                !position::is_sentinel(self.tail_index()) ==> self.tail_index() == position::nth(
                    position::rank(old(self).tail_index()),
                ),
                failed ==> tail == self.tail_index() && seen != old(self).tail_index(),
                !failed && tail == self.tail_index() ==> seen == old(self).tail_index(),
                !failed && tail != self.tail_index() ==> tail == seen && self.tail_index() ==
                    old(self).tail_index(),
            decreases
                (if tail == self.tail_index() {
                    0int
                } else {
                    1int
                }),
                (if position::is_sentinel(self.tail_index()) {
                    1int
                } else {
                    0int
                }),
        {
            match self.claim_cas_step(tail, failed) {
                CasClaim::Claimed(pos) => {
                    return pos;
                },
                CasClaim::Skipped(next) => {
                    tail = next;
                },
                CasClaim::Lost(actual) => {
                    failed = true;
                    tail = actual;
                    let _ = backoff.spin();
                },
            }
        }
    }

    /// Claims the next position by compare-and-swap.
    pub fn claim_cas(&mut self) -> (r: usize)
        requires
            old(self).wf(),
            old(self).has_room(),
            leaves_room(old(self).cells().len() as int, old(self).bound()),
        ensures
            final(self).wf(),
            final(self).same_storage(*old(self)),
            final(self).contention() == (if old(self).contention() > 0 {
                (old(self).contention() - 1) as nat
            } else {
                0
            }),
            r == position::nth(position::rank(old(self).tail_index())),
            final(self).tail_index() == r + 1,
            final(self).cells() == old(self).cells().push(None),
            final(self).is_pending(r as int),
    {
        let tail = self.tail.index;
        self.claim_cas_from(tail)
    }

    /// Whether `n` messages leave no room for another one.
    fn is_full_with(&self, n: usize) -> (r: bool)
        ensures
            r == !leaves_room(n as int, self.bound()),
    {
        match self.capacity {
            Some(c) => n >= c,
            None => false,
        }
    }

    /// One attempt of a bounded claim, by a producer that saw the tail at `tail`.
    ///
    /// The queue counts as full only where the head itself says so: the cached head
    /// can lag behind, and is refreshed when it seems to leave no room.
    pub fn claim_bounded_step(&mut self, tail: usize) -> (r: BoundedClaim)
        requires
            old(self).wf(),
            old(self).tail_index() <= usize::MAX - 64,
            tail <= old(self).tail_index(),
        ensures
            final(self).wf(),
            final(self).same_storage(*old(self)),
            final(self).contention() == old(self).contention(),
            r is Lost <==> old(self).tail_index() != tail && (position::is_sentinel(tail as int)
                || leaves_room(
                position::message_positions(old(self).head_index(), tail as int) as int,
                old(self).bound(),
            )),
            r matches BoundedClaim::Lost(actual) ==> {
                &&& actual == old(self).tail_index()
                &&& final(self).tail_index() == old(self).tail_index()
                &&& final(self).cells() == old(self).cells()
            },
            r is Skipped <==> old(self).tail_index() == tail && position::is_sentinel(tail as int),
            r matches BoundedClaim::Skipped(next) ==> {
                &&& next == tail + 1
                &&& final(self).tail_index() == tail + 1
                &&& final(self).cells() == old(self).cells()
            },
            r is Full <==> !position::is_sentinel(tail as int) && !leaves_room(
                position::message_positions(old(self).head_index(), tail as int) as int,
                old(self).bound(),
            ),
            r is Full ==> {
                &&& final(self).tail_index() == old(self).tail_index()
                &&& final(self).cells() == old(self).cells()
            },
            r matches BoundedClaim::Claimed(pos) ==> {
                &&& pos == tail
                &&& final(self).tail_index() == tail + 1
                &&& final(self).cells() == old(self).cells().push(None)
                &&& final(self).is_pending(tail as int)
            },
    {
        if offset(tail) == BLOCK_CAP {
            if self.tail.index != tail {
                return BoundedClaim::Lost(self.tail.index);
            }
            self.tail.index = tail + 1;
            proof {
                Self::lemma_tail_step(*old(self), *self);
            }
            return BoundedClaim::Skipped(tail + 1);
        }
        let head = self.tail.cached;
        proof {
            position::lemma_message_positions(head as int, tail as int);
            position::lemma_message_positions(self.head.index as int, tail as int);
            position::lemma_message_positions(self.head.index as int, self.tail.index as int);
            position::lemma_rank_monotonic(head as int, self.head.index as int);
            position::lemma_rank(tail as int);
        }
        if self.is_full_with(items_between(head, tail)) {
            let head = self.head.index;
            if self.is_full_with(items_between(head, tail)) {
                return BoundedClaim::Full;
            }
            self.tail.cached = head;
        }
        if self.tail.index != tail {
            proof {
                Self::lemma_cached_refresh(*old(self), *self);
            }
            return BoundedClaim::Lost(self.tail.index);
        }
        self.tail.index = tail + 1;
        proof {
            Self::lemma_tail_step(*old(self), *self);
        }
        BoundedClaim::Claimed(tail)
    }

    /// Refreshing the cached head changes nothing else.
    proof fn lemma_cached_refresh(pre: Self, post: Self)
        requires
            pre.wf(),
            post.same_but_tail(pre),
            post.tail.index == pre.tail.index,
            post.cached_head() <= post.head_index(),
        ensures
            post.wf(),
            post.same_readers(pre),
            post.cells() == pre.cells(),
    {
        assert forall|b: usize| b < post.block_count() implies #[trigger] post.places(b) == 1 by {
            assert(pre.places(b) == 1);
        }
        assert forall|b: usize| b < post.block_count() implies (#[trigger] post.block(b)).shaped() by {
            assert(pre.block(b).shaped());
        }
        assert forall|i: int| 0 <= i < post.chain().len() implies #[trigger] post.link_ok(i) by {
            assert(pre.link_ok(i));
        }
        assert forall|i: int, o: int|
            0 <= i < post.chain().len() && 0 <= o < 63 implies #[trigger] post.slot_ok(i, o) by {
            assert(pre.slot_ok(i, o));
        }
        assert forall|b: usize| #[trigger] post.retired().holds(b) implies post.retired_ok(b) by {
            assert(pre.retired_ok(b));
        }
        assert forall|b: usize, o: int| #[trigger] post.stage(b, o) == pre.stage(b, o) by {}
        assert(post.cells() =~= pre.cells());
    }

    /// Claims the next position of a bounded queue, or finds the queue full, for a producer
    /// that saw the tail at `seen`.
    pub fn claim_bounded_from(&mut self, seen: usize) -> (r: Option<usize>)
        requires
            old(self).wf(),
            old(self).has_room(),
            seen <= old(self).tail_index(),
        ensures
            final(self).wf(),
            final(self).same_storage(*old(self)),
            final(self).contention() == old(self).contention(),
            r is None <==> !leaves_room(old(self).cells().len() as int, old(self).bound()),
            r is None ==> {
                &&& final(self).cells() == old(self).cells()
                &&& final(self).tail_index() == (if position::is_sentinel(old(self).tail_index())
                    && (seen == old(self).tail_index() || position::is_sentinel(seen as int)
                    || leaves_room(
                    position::message_positions(old(self).head_index(), seen as int) as int,
                    old(self).bound(),
                )) {
                    old(self).tail_index() + 1
                } else {
                    old(self).tail_index()
                })
            },
            r matches Some(pos) ==> {
                &&& pos == position::nth(position::rank(old(self).tail_index()))
                &&& final(self).tail_index() == pos + 1
                &&& final(self).cells() == old(self).cells().push(None)
                &&& final(self).is_pending(pos as int)
            },
    {
        proof {
            position::lemma_rank(old(self).tail_index());
            position::lemma_rank(old(self).tail_index() + 1);
            position::lemma_rank(old(self).head_index());
            self.lemma_ends();
            position::lemma_message_positions(self.head_index(), self.tail_index());
            position::lemma_message_positions(self.head_index(), self.tail_index() + 1);
            position::lemma_message_positions(self.head_index(), seen as int);
            if self.head_index() <= seen {
                position::lemma_rank_monotonic(seen as int, self.tail_index());
            }
        }
        let mut backoff = Backoff::new();
        let mut tail: usize = seen;
        loop
            invariant
                self.wf(),
                old(self).wf(),
                old(self).has_room(),
                seen <= old(self).tail_index(),
                self.same_storage(*old(self)),
                self.cells() == old(self).cells(),
                self.contention() == old(self).contention(),
                tail == seen || tail == self.tail_index(),
                tail <= self.tail_index(),
                self.tail_index() == old(self).tail_index() || position::is_sentinel(
                    old(self).tail_index(),
                ) && tail == self.tail_index() && self.tail_index() == old(self).tail_index() + 1
                    && (seen == old(self).tail_index() || position::is_sentinel(seen as int)
                    || leaves_room(
                    position::message_positions(old(self).head_index(), seen as int) as int,
                    old(self).bound(),
                )),
                tail != seen && self.tail_index() == old(self).tail_index() ==> (
                position::is_sentinel(seen as int) || leaves_room(
                    position::message_positions(old(self).head_index(), seen as int) as int,
                    old(self).bound(),
                )),
                !position::is_sentinel(self.tail_index()) ==> {
                    &&& self.tail_index() == position::nth(position::rank(old(self).tail_index()))
                    &&& position::message_positions(self.head_index(), self.tail_index()) ==
                        old(self).cells().len()
                },
                position::message_positions(old(self).head_index(), seen as int) <=
                    old(self).cells().len(),
            decreases
                (if tail == self.tail_index() {
                    0int
                } else {
                    1int
                }),
                (if position::is_sentinel(self.tail_index()) {
                    1int
                } else {
                    0int
                }),
        {
            match self.claim_bounded_step(tail) {
                BoundedClaim::Claimed(pos) => {
                    return Some(pos);
                },
                BoundedClaim::Full => {
                    return None;
                },
                BoundedClaim::Skipped(next) => {
                    proof {
                        self.lemma_ends();
                        position::lemma_rank(old(self).tail_index());
                        position::lemma_message_positions(self.head_index(), self.tail_index());
                    }
                    tail = next;
                },
                BoundedClaim::Lost(actual) => {
                    tail = actual;
                    let _ = backoff.spin();
                },
            }
        }
    }

    /// Claims the next position of a bounded queue, or finds the queue full.
    pub fn claim_bounded(&mut self) -> (r: Option<usize>)
        requires
            old(self).wf(),
            old(self).has_room(),
        ensures
            final(self).wf(),
            final(self).same_storage(*old(self)),
            final(self).contention() == old(self).contention(),
            r is None <==> !leaves_room(old(self).cells().len() as int, old(self).bound()),
            r is None ==> {
                &&& final(self).cells() == old(self).cells()
                &&& final(self).tail_index() == (if position::is_sentinel(old(self).tail_index()) {
                    old(self).tail_index() + 1
                } else {
                    old(self).tail_index()
                })
            },
            r matches Some(pos) ==> {
                &&& pos == position::nth(position::rank(old(self).tail_index()))
                &&& final(self).tail_index() == pos + 1
                &&& final(self).cells() == old(self).cells().push(None)
                &&& final(self).is_pending(pos as int)
            },
    {
        let tail = self.tail.index;
        self.claim_bounded_from(tail)
    }

    // ---------------------------------------------------------------- blocks

    /// Both ends, the live blocks and all readers are as they are in `other`.
    pub open spec fn same_queue(self, other: Self) -> bool {
        &&& self.head_index() == other.head_index()
        &&& self.tail_index() == other.tail_index()
        &&& self.bound() == other.bound()
        &&& self.contention() == other.contention()
        &&& self.cached_head() == other.cached_head()
        &&& self.chain() == other.chain()
        &&& self.first_lap() == other.first_lap()
        &&& self.cells() == other.cells()
        &&& forall|i: int|
            0 <= i < self.chain().len() ==> #[trigger] self.block(self.chain()[i]) == other.block(
                other.chain()[i],
            )
        &&& self.same_readers(other)
    }

    /// A change outside the live chain leaves the chain in order.
    proof fn lemma_chain_frame(pre: Self, post: Self, held: Seq<usize>)
        requires
            pre.inv_except(held),
            post.head == pre.head,
            post.tail == pre.tail,
            post.capacity == pre.capacity,
            post.chain == pre.chain,
            post.block_count() >= pre.block_count(),
            forall|i: int|
                0 <= i < pre.chain().len() ==> post.block(#[trigger] pre.chain()[i]) == pre.block(
                    pre.chain()[i],
                ),
        ensures
            post.first_lap() == pre.first_lap(),
            post.ends_ok(),
            post.cells() == pre.cells(),
            forall|i: int|
                0 <= i < post.chain().len() ==> #[trigger] post.link_ok(i) && post.chain()[i]
                    < pre.block_count(),
            forall|i: int, o: int|
                0 <= i < post.chain().len() && 0 <= o < 63 ==> #[trigger] post.slot_ok(i, o),
            forall|i: int|
                0 <= i < post.chain().len() ==> #[trigger] post.block(post.chain()[i]) == pre.block(
                    pre.chain()[i],
                ),
    {
        assert(post.block(pre.chain()[0]) == pre.block(pre.chain()[0]));
        assert(post.first_lap() == pre.first_lap());
        assert forall|i: int| 0 <= i < post.chain().len() implies #[trigger] post.link_ok(i)
            && post.chain()[i] < pre.block_count() by {
            assert(pre.link_ok(i));
        }
        assert forall|i: int, o: int|
            0 <= i < post.chain().len() && 0 <= o < 63 implies #[trigger] post.slot_ok(i, o) by {
            assert(pre.slot_ok(i, o));
        }
        position::lemma_rank(pre.head_index());
        position::lemma_rank(pre.tail_index());
        assert forall|k: int| 0 <= k < pre.cells().len() implies post.cells()[k]
            == #[trigger] pre.cells()[k] by {
            let p = position::nth(position::rank(pre.head_index()) + k);
            position::lemma_nth(position::rank(pre.head_index()) + k);
            position::lemma_nth(position::rank(pre.head_index()));
            let i = position::lap_of(p) - pre.first_lap();
            if position::lap_of(p) <= pre.last_lap() {
                assert(0 <= i < pre.chain().len());
                assert(post.block(pre.chain()[i]) == pre.block(pre.chain()[i]));
            }
        }
        assert(post.cells() =~= pre.cells());
    }

    /// Takes a block for the next lap: the spare one, or one that takes longer to get.
    pub fn take_block(&mut self) -> (r: usize)
        requires
            old(self).wf(),
        ensures
            final(self).inv_except(seq![r]),
            final(self).same_queue(*old(self)),
            r < final(self).block_count(),
            final(self).block(r).clean(final(self).free_bound()),
            old(self).spare() matches Some(b) ==> {
                &&& r == b
                &&& final(self).spare() is None
                &&& final(self).block_count() == old(self).block_count()
                &&& final(self).ready() == old(self).ready()
                &&& final(self).retired() == old(self).retired()
            },
            old(self).spare() is None ==> {
                &&& final(self).spare() is None
                &&& r == old(self).slow_choice()
                &&& final(self).block_count() == old(self).block_count() + (if r
                    == old(self).block_count() {
                    1nat
                } else {
                    0nat
                })
            },
    {
        match self.spare {
            Some(b) => {
                self.spare = None;
                proof {
                    Self::lemma_chain_frame(*old(self), *self, Seq::empty());
                    assert(seq![b].contains(b)) by {
                        assert(seq![b][0] == b);
                    }
                    assert(old(self).places(b) == 1);
                    assert forall|c: usize| c < self.block_count() implies #[trigger] self.places(c)
                        == (if seq![b].contains(c) {
                        0int
                    } else {
                        1int
                    }) by {
                        assert(old(self).places(c) == 1);
                    }
                    assert forall|c: usize| c < self.block_count() implies (#[trigger] self.block(
                        c,
                    )).shaped() by {
                        assert(old(self).block(c).shaped());
                    }
                    assert forall|c: usize| #[trigger] self.retired().holds(c) implies self.retired_ok(
                        c,
                    ) by {
                        assert(old(self).retired_ok(c));
                    }
                    assert forall|c: usize, o: int| #[trigger] self.stage(c, o) == old(self).stage(
                        c,
                        o,
                    ) by {}
                }
                b
            },
            None => self.take_block_slow(),
        }
    }

    /// The block that an allocation without a spare block uses.
    pub open spec fn slow_choice(self) -> int {
        match self.ready().next_take() {
            Some(i) => self.ready().slots()[i]->0 as int,
            None => match self.reclaim_choice() {
                Some(b) => b as int,
                None => self.block_count() as int,
            },
        }
    }

    /// The retired block that the next reclamation finds.
    pub open spec fn reclaim_choice(self) -> Option<usize> {
        crate::pool::probe(
            self.retired().slots(),
            self.retired().stored(),
            self.retired().take_hint(),
            4,
            |b: usize| self.block(b).all_read(),
        )
    }

    /// Takes a ready block, else reclaims a retired one, else allocates.
    pub fn take_block_slow(&mut self) -> (r: usize)
        requires
            old(self).wf(),
        ensures
            final(self).inv_except(seq![r]),
            final(self).same_queue(*old(self)),
            final(self).spare() == old(self).spare(),
            r < final(self).block_count(),
            final(self).block(r).clean(final(self).free_bound()),
            r == old(self).slow_choice(),
            final(self).block_count() == old(self).block_count() + (if r
                == old(self).block_count() {
                1nat
            } else {
                0nat
            }),
    {
        if let Some(b) = self.ready.take() {
            proof {
                Self::lemma_chain_frame(*old(self), *self, Seq::empty());
                assert(seq![b].contains(b)) by {
                    assert(seq![b][0] == b);
                }
                assert(old(self).ready().holds(b));
                assert(old(self).places(b) == 1);
                assert forall|c: usize| c < self.block_count() implies #[trigger] self.places(c) == (
                if seq![b].contains(c) {
                    0int
                } else {
                    1int
                }) by {
                    assert(old(self).places(c) == 1);
                    assert(self.ready().holds(c) <==> old(self).ready().holds(c) && c != b);
                }
                assert forall|c: usize| c < self.block_count() implies (#[trigger] self.block(
                    c,
                )).shaped() by {
                    assert(old(self).block(c).shaped());
                }
                assert forall|c: usize| #[trigger] self.ready().holds(c) implies self.block(c).clean(
                    self.free_bound(),
                ) && c < self.block_count() by {
                    assert(old(self).ready().holds(c));
                }
                assert forall|c: usize| #[trigger] self.retired().holds(c) implies self.retired_ok(
                    c,
                ) by {
                    assert(old(self).retired_ok(c));
                }
                assert forall|c: usize, o: int| #[trigger] self.stage(c, o) == old(self).stage(
                    c,
                    o,
                ) by {}
            }
            return b;
        }
        proof {
            Self::lemma_ready_hint(*old(self), *self);
        }
        let ghost mid = *self;
        assert((|b: usize| mid.block(b).all_read()) =~= (|b: usize| old(self).block(b).all_read()));
        if let Some(b) = self.reclaim_retired() {
            return b;
        }
        let ghost before = *self;
        let b = self.blocks.len();
        self.blocks.push(Block::allocate());
        proof {
            assert(before.inv_except(Seq::empty()));
            assert forall|c: usize| c < before.block_count() implies #[trigger] self.block(c)
                == before.block(c) by {}
            assert forall|i: int| 0 <= i < before.chain().len() implies self.block(
                #[trigger] before.chain()[i],
            ) == before.block(before.chain()[i]) by {
                assert(before.link_ok(i));
            }
            Self::lemma_chain_frame(before, *self, Seq::empty());
            assert(seq![b].contains(b)) by {
                assert(seq![b][0] == b);
            }
            assert(!self.chain().contains(b)) by {
                if self.chain().contains(b) {
                    let i = choose|i: int| 0 <= i < self.chain().len() && self.chain()[i] == b;
                    assert(before.link_ok(i));
                }
            }
            assert forall|c: usize| c < self.block_count() implies #[trigger] self.places(c) == (
            if seq![b].contains(c) {
                0int
            } else {
                1int
            }) by {
                if c != b {
                    assert(before.places(c) == 1);
                } else {
                    assert(!before.ready().holds(c));
                    assert(!before.retired().holds(c));
                }
            }
            assert forall|c: usize| c < self.block_count() implies (#[trigger] self.block(
                c,
            )).shaped() by {
                if c != b {
                    assert(before.block(c).shaped());
                }
            }
            assert forall|c: usize| #[trigger] self.ready().holds(c) implies self.block(c).clean(
                self.free_bound(),
            ) by {
                assert(before.ready().holds(c));
            }
            assert forall|c: usize| #[trigger] self.retired().holds(c) implies self.retired_ok(c) by {
                assert(before.retired().holds(c));
                assert(before.retired_ok(c));
            }
            assert(before.link_ok(0));
            assert forall|c: usize, o: int| #[trigger] self.stage(c, o) == before.stage(c, o) by {
                if before.retired().holds(c) {
                    assert(c < before.block_count());
                }
            }
            assert forall|c: usize, o: int| #[trigger] self.stage(c, o) == old(self).stage(c, o) by {
                assert(before.stage(c, o) == mid.stage(c, o));
                assert(mid.stage(c, o) == old(self).stage(c, o));
            }
        }
        b
    }

    /// A take that found no ready block moved a hint and nothing else.
    proof fn lemma_ready_hint(pre: Self, post: Self)
        requires
            pre.wf(),
            post.blocks == pre.blocks,
            post.head == pre.head,
            post.tail == pre.tail,
            post.spare == pre.spare,
            post.retired == pre.retired,
            post.capacity == pre.capacity,
            post.chain == pre.chain,
            post.ready().wf(),
            forall|c: usize| #[trigger] post.ready().holds(c) <==> pre.ready().holds(c),
        ensures
            post.wf(),
            post.same_queue(pre),
    {
        Self::lemma_chain_frame(pre, post, Seq::empty());
        assert forall|c: usize| c < post.block_count() implies #[trigger] post.places(c) == 1 by {
            assert(pre.places(c) == 1);
            assert(post.ready().holds(c) <==> pre.ready().holds(c));
        }
        assert forall|c: usize| c < post.block_count() implies (#[trigger] post.block(c)).shaped() by {
            assert(pre.block(c).shaped());
        }
        assert forall|c: usize| #[trigger] post.ready().holds(c) implies c < post.block_count()
            && post.block(c).clean(post.free_bound()) by {
            assert(pre.ready().holds(c));
        }
        assert forall|c: usize| #[trigger] post.retired().holds(c) implies post.retired_ok(c) by {
            assert(pre.retired_ok(c));
        }
        assert forall|c: usize, o: int| #[trigger] post.stage(c, o) == pre.stage(c, o) by {}
    }

    /// Looks through a few retired blocks for one whose readers have all finished.
    ///
    /// Each candidate is taken out of the pool before its marks are read, and those
    /// that a reader still uses go back unchanged.
    pub fn reclaim_retired(&mut self) -> (r: Option<usize>)
        requires
            old(self).wf(),
        ensures
            final(self).same_queue(*old(self)),
            final(self).spare() == old(self).spare(),
            final(self).ready() == old(self).ready(),
            final(self).block_count() == old(self).block_count(),
            r == old(self).reclaim_choice(),
            r is None ==> {
                &&& final(self).wf()
                &&& forall|c: usize| #[trigger]
                    final(self).retired().holds(c) <==> old(self).retired().holds(c)
                &&& forall|c: usize| #[trigger] final(self).block(c) == old(self).block(c)
            },
            r matches Some(b) ==> {
                &&& final(self).inv_except(seq![b])
                &&& b < final(self).block_count()
                &&& final(self).block(b).clean(final(self).free_bound())
                &&& old(self).retired().holds(b)
                &&& old(self).block(b).all_read()
                &&& forall|c: usize| #[trigger]
                    final(self).retired().holds(c) <==> old(self).retired().holds(c) && c != b
                &&& forall|c: usize|
                    c < old(self).block_count() && c != b ==> #[trigger] final(self).block(c)
                        == old(self).block(c)
            },
    {
        let mut parked: Vec<usize> = Vec::new();
        let mut found: Option<usize> = None;
        let ghost pre = *self;
        let ghost done = |b: usize| pre.block(b).all_read();
        while parked.len() < RETIRED_PROBES && found.is_none()
            invariant_except_break
                found is None ==> pre.reclaim_choice() == crate::pool::probe(
                    self.retired().slots(),
                    self.retired().stored(),
                    self.retired().take_hint(),
                    (4 - parked@.len()) as nat,
                    done,
                ),
            invariant
                pre == *old(self),
                pre.wf(),
                done == (|b: usize| pre.block(b).all_read()),
                parked@.len() <= 4,
                self.blocks == pre.blocks,
                self.head == pre.head,
                self.tail == pre.tail,
                self.spare == pre.spare,
                self.ready == pre.ready,
                self.capacity == pre.capacity,
                self.chain == pre.chain,
                self.retired().wf(),
                parked@.no_duplicates(),
                forall|j: int|
                    0 <= j < parked@.len() ==> pre.retired().holds(#[trigger] parked@[j])
                        && !self.retired().holds(parked@[j]),
                forall|c: usize| #[trigger]
                    self.retired().holds(c) ==> pre.retired().holds(c),
                forall|c: usize| #[trigger]
                    pre.retired().holds(c) ==> self.retired().holds(c) || parked@.contains(c)
                        || found == Some(c),
                found matches Some(b) ==> {
                    &&& pre.retired().holds(b)
                    &&& !self.retired().holds(b)
                    &&& !parked@.contains(b)
                    &&& pre.block(b).all_read()
                    &&& pre.reclaim_choice() == Some(b)
                },
            ensures
                found is None ==> pre.reclaim_choice() is None,
            decreases 4 - parked@.len(), (if found is None { 1int } else { 0int }),
        {
            let ghost mid = *self;
            match self.retired.take() {
                None => {
                    break;
                },
                Some(b) => {
                    proof {
                        assert(mid.retired().holds(b));
                        assert(pre.retired().holds(b));
                        assert(pre.block(b).shaped());
                    }
                    if self.blocks[b].readers_done() {
                        found = Some(b);
                        proof {
                            if parked@.contains(b) {
                                let j = choose|j: int| 0 <= j < parked@.len() && parked@[j] == b;
                                assert(!mid.retired().holds(parked@[j]));
                            }
                            assert forall|c: usize| #[trigger] pre.retired().holds(c) implies
                                self.retired().holds(c) || parked@.contains(c) || found == Some(c) by {
                                if mid.retired().holds(c) && c != b {
                                    assert(self.retired().holds(c));
                                }
                            }
                        }
                    } else {
                        let ghost before = parked@;
                        parked.push(b);
                        proof {
                            assert(!before.contains(b)) by {
                                if before.contains(b) {
                                    let j = choose|j: int| 0 <= j < before.len() && before[j] == b;
                                    assert(!mid.retired().holds(before[j]));
                                }
                            }
                            assert forall|j: int| 0 <= j < parked@.len() implies
                                pre.retired().holds(#[trigger] parked@[j])
                                && !self.retired().holds(parked@[j]) by {
                                if j < before.len() {
                                    assert(parked@[j] == before[j]);
                                    assert(!mid.retired().holds(before[j]));
                                }
                            }
                            assert(parked@[before.len() as int] == b);
                            assert forall|c: usize| before.contains(c) implies #[trigger] parked@.contains(
                                c,
                            ) by {
                                let j = choose|j: int| 0 <= j < before.len() && before[j] == c;
                                assert(parked@[j] == c);
                            }
                            assert forall|c: usize| #[trigger] pre.retired().holds(c) implies
                                self.retired().holds(c) || parked@.contains(c) || found == Some(c) by {
                                if mid.retired().holds(c) && c != b {
                                    assert(self.retired().holds(c));
                                }
                                if c == b {
                                    assert(parked@.contains(c));
                                }
                            }
                        }
                    }
                },
            }
        }
        proof {
            assert forall|c: usize| #[trigger] self.retired().holds(c) implies pre.retired().holds(
                c,
            ) by {}
        }
        let mut k: usize = 0;
        while k < parked.len()
            invariant
                pre == *old(self),
                k <= parked@.len(),
                self.blocks == pre.blocks,
                self.head == pre.head,
                self.tail == pre.tail,
                self.spare == pre.spare,
                self.ready == pre.ready,
                self.capacity == pre.capacity,
                self.chain == pre.chain,
                self.retired().wf(),
                parked@.no_duplicates(),
                found matches Some(b) ==> !parked@.contains(b) && !self.retired().holds(b),
                forall|j: int|
                    0 <= j < parked@.len() ==> pre.retired().holds(#[trigger] parked@[j]),
                forall|j: int|
                    0 <= j < parked@.len() ==> (self.retired().holds(#[trigger] parked@[j]) <==> j
                        < k),
                forall|c: usize| #[trigger]
                    self.retired().holds(c) ==> pre.retired().holds(c),
                forall|c: usize| #[trigger]
                    pre.retired().holds(c) ==> self.retired().holds(c) || parked@.contains(c)
                        || found == Some(c),
            decreases parked@.len() - k,
        {
            let ghost mid = *self;
            self.retired.put(parked[k]);
            k += 1;
            proof {
                assert forall|j: int| 0 <= j < parked@.len() implies (self.retired().holds(
                    #[trigger] parked@[j],
                ) <==> j < k) by {
                    assert(mid.retired().holds(parked@[j]) <==> j < k - 1);
                }
                assert forall|c: usize| #[trigger] self.retired().holds(c) implies pre.retired().holds(
                    c,
                ) by {
                    if c == parked@[k - 1] {
                        assert(pre.retired().holds(parked@[k - 1]));
                    } else {
                        assert(mid.retired().holds(c));
                    }
                }
                assert forall|c: usize| #[trigger] pre.retired().holds(c) implies
                    self.retired().holds(c) || parked@.contains(c) || found == Some(c) by {
                    if mid.retired().holds(c) {
                        assert(self.retired().holds(c));
                    }
                }
            }
        }
        proof {
            assert forall|c: usize| #[trigger] self.retired().holds(c) <==> pre.retired().holds(c)
                && found != Some(c) by {
                if pre.retired().holds(c) && found != Some(c) && !self.retired().holds(c) {
                    assert(parked@.contains(c));
                    let j = choose|j: int| 0 <= j < parked@.len() && parked@[j] == c;
                    assert(self.retired().holds(parked@[j]));
                }
            }
        }
        if let Some(b) = found {
            self.blocks[b].reset();
            proof {
                Self::lemma_reclaimed(pre, *self, b);
            }
        } else {
            proof {
                Self::lemma_retired_hint(pre, *self);
            }
        }
        found
    }

    /// Probes that found nothing moved a hint and nothing else.
    proof fn lemma_retired_hint(pre: Self, post: Self)
        requires
            pre.wf(),
            post.blocks == pre.blocks,
            post.head == pre.head,
            post.tail == pre.tail,
            post.spare == pre.spare,
            post.ready == pre.ready,
            post.capacity == pre.capacity,
            post.chain == pre.chain,
            post.retired().wf(),
            forall|c: usize| #[trigger] post.retired().holds(c) <==> pre.retired().holds(c),
        ensures
            post.wf(),
            post.same_queue(pre),
    {
        Self::lemma_chain_frame(pre, post, Seq::empty());
        assert forall|c: usize| c < post.block_count() implies #[trigger] post.places(c) == 1 by {
            assert(pre.places(c) == 1);
            assert(post.retired().holds(c) <==> pre.retired().holds(c));
        }
        assert forall|c: usize| c < post.block_count() implies (#[trigger] post.block(c)).shaped() by {
            assert(pre.block(c).shaped());
        }
        assert forall|c: usize| #[trigger] post.retired().holds(c) implies c < post.block_count()
            && post.retired_ok(c) by {
            assert(pre.retired().holds(c));
            assert(pre.retired_ok(c));
        }
        assert forall|c: usize, o: int| #[trigger] post.stage(c, o) == pre.stage(c, o) by {
            assert(post.retired().holds(c) <==> pre.retired().holds(c));
        }
    }

    /// A retired block whose readers have all finished is clean once it is reset.
    proof fn lemma_reclaimed(pre: Self, post: Self, b: usize)
        requires
            pre.wf(),
            pre.retired().holds(b),
            pre.block(b).all_read(),
            post.blocks@ == pre.blocks@.update(b as int, post.block(b)),
            post.block(b).start == POOLED,
            post.block(b).slots@ == pre.block(b).slots@,
            post.block(b).read_marks@ == Seq::new(63, |i: int| 0u8),
            post.head == pre.head,
            post.tail == pre.tail,
            post.spare == pre.spare,
            post.ready == pre.ready,
            post.capacity == pre.capacity,
            post.chain == pre.chain,
            post.retired().wf(),
            forall|c: usize| #[trigger]
                post.retired().holds(c) <==> pre.retired().holds(c) && c != b,
        ensures
            post.inv_except(seq![b]),
            post.same_queue(pre),
            post.block_count() == pre.block_count(),
            post.block(b).clean(post.free_bound()),
            forall|c: usize|
                c < pre.block_count() && c != b ==> #[trigger] post.block(c) == pre.block(c),
    {
        assert(pre.places(b) == 1);
        assert(!pre.chain().contains(b));
        assert forall|c: usize| c < pre.block_count() && c != b implies #[trigger] post.block(c)
            == pre.block(c) by {}
        assert forall|i: int| 0 <= i < pre.chain().len() implies post.block(
            #[trigger] pre.chain()[i],
        ) == pre.block(pre.chain()[i]) by {
            assert(pre.chain().contains(pre.chain()[i]));
            assert(pre.link_ok(i));
        }
        Self::lemma_chain_frame(pre, post, Seq::empty());
        assert(pre.link_ok(0));
        assert(seq![b].contains(b)) by {
            assert(seq![b][0] == b);
        }
        assert(pre.retired_ok(b));
        assert(pre.block(b).shaped());
        assert forall|o: int| 0 <= o < 63 implies (#[trigger] post.block(b).slots@[o]).value is None
            && post.block(b).slots@[o].state < post.free_bound() by {
            if o < 62 {
                assert(pre.block(b).read_marks@[o] != 0);
            }
            assert(pre.block(b).slots@[o].state == position::tag(
                pre.block(b).start as int / 64,
            ));
        }
        assert(post.block(b).clean(post.free_bound()));
        assert forall|c: usize| c < post.block_count() implies #[trigger] post.places(c) == (
        if seq![b].contains(c) {
            0int
        } else {
            1int
        }) by {
            assert(pre.places(c) == 1);
            assert(post.retired().holds(c) <==> pre.retired().holds(c) && c != b);
        }
        assert forall|c: usize| c < post.block_count() implies (#[trigger] post.block(c)).shaped() by {
            assert(pre.block(c).shaped());
        }
        assert forall|c: usize| #[trigger] post.ready().holds(c) implies post.block(c).clean(
            post.free_bound(),
        ) && c < post.block_count() by {
            assert(pre.ready().holds(c));
        }
        assert forall|c: usize| #[trigger] post.retired().holds(c) implies c < post.block_count()
            && post.retired_ok(c) by {
            assert(pre.retired().holds(c));
            assert(pre.retired_ok(c));
        }
        assert(pre.chain().contains(pre.chain()[0]));
        assert forall|c: usize, o: int| #[trigger] post.stage(c, o) == pre.stage(c, o) by {
            assert(post.retired().holds(c) <==> pre.retired().holds(c) && c != b);
            if c == b && 0 <= o < 62 {
                assert(pre.block(b).read_marks@[o] != 0);
            }
        }
    }

    /// Gives a clean block back, as the spare one or to the pool.
    pub fn recycle(&mut self, block: usize)
        requires
            old(self).inv_except(seq![block]),
            block < old(self).block_count(),
            old(self).block(block).clean(old(self).free_bound()),
        ensures
            final(self).wf(),
            final(self).same_queue(*old(self)),
            final(self).block_count() == old(self).block_count(),
            forall|c: usize| #[trigger] final(self).block(c) == old(self).block(c),
            final(self).retired() == old(self).retired(),
            old(self).spare() is None ==> final(self).spare() == Some(block) && final(self).ready()
                == old(self).ready(),
            old(self).spare() is Some ==> {
                &&& final(self).spare() == old(self).spare()
                &&& forall|c: usize| #[trigger]
                    final(self).ready().holds(c) <==> old(self).ready().holds(c) || c == block
            },
    {
        proof {
            assert(seq![block].contains(block)) by {
                assert(seq![block][0] == block);
            }
            assert(old(self).places(block) == 0);
        }
        if self.spare.is_none() {
            self.spare = Some(block);
        } else {
            self.ready.put(block);
        }
        proof {
            Self::lemma_chain_frame(*old(self), *self, seq![block]);
            assert forall|c: usize| c < self.block_count() implies #[trigger] self.places(c) == 1 by {
                assert(old(self).places(c) == (if seq![block].contains(c) {
                    0int
                } else {
                    1int
                }));
                assert(seq![block].contains(c) <==> c == block);
            }
            assert forall|c: usize| c < self.block_count() implies (#[trigger] self.block(
                c,
            )).shaped() by {
                assert(old(self).block(c).shaped());
            }
            assert forall|c: usize| #[trigger] self.ready().holds(c) implies self.block(c).clean(
                self.free_bound(),
            ) && c < self.block_count() by {
                assert(old(self).ready().holds(c) || c == block);
            }
            assert forall|c: usize| #[trigger] self.retired().holds(c) implies self.retired_ok(c) by {
                assert(old(self).retired_ok(c));
            }
            assert forall|c: usize, o: int| #[trigger] self.stage(c, o) == old(self).stage(c, o) by {}
        }
    }

    // ------------------------------------------------------------- producers

    /// The block that serves a position, where one is linked.
    pub open spec fn serving(self, pos: int) -> Option<usize> {
        if self.first_lap() <= position::lap_of(pos) <= self.last_lap() {
            Some(self.chain()[position::lap_of(pos) - self.first_lap()])
        } else {
            None
        }
    }

    /// A block whose start is that of a lap which is not behind the head serves that
    /// lap now; a block that starts later is a live one with a predecessor.
    proof fn lemma_start_identifies(self, b: usize, pos: int)
        requires
            self.wf(),
            b < self.block_count(),
            self.first_lap() <= position::lap_of(pos),
        ensures
            self.block(b).start == 64 * position::lap_of(pos) ==> self.serving(pos) == Some(b),
            self.block(b).start > 64 * position::lap_of(pos) && self.block(b).start != POOLED ==> {
                &&& exists|i: int| 1 <= i < self.chain().len() && self.chain()[i] == b
                &&& self.block(b).prev matches Some(c) && c < self.block_count()
                    && self.block(c).start == self.block(b).start - 64
            },
    {
        let s = self.block(b).start;
        if s >= 64 * position::lap_of(pos) && s != POOLED {
            assert(self.places(b) == 1);
            if self.retired().holds(b) {
                assert(self.retired_ok(b));
            }
            if self.ready().holds(b) {
                assert(self.block(b).clean(self.free_bound()));
            }
            assert(self.chain().contains(b));
            let i = choose|i: int| 0 <= i < self.chain().len() && self.chain()[i] == b;
            assert(self.link_ok(i));
            if i > 0 {
                assert(self.link_ok(i - 1));
            }
        } else if s == POOLED {
            assert(POOLED as int % 64 == 63);
        }
    }

    /// Finds the block that serves a position, walking backwards from a block that may
    /// long have left the chain.
    ///
    /// A block is recognised by its start: too small a start, or that of a pooled
    /// block, says that the block is not linked yet as seen from here; too large a
    /// start leads on to the predecessor. Whatever block the walk began at, a block
    /// that it returns serves the position.
    pub fn walk_back(&self, block: usize, pos: usize) -> (r: Option<usize>)
        requires
            self.wf(),
            block < self.block_count(),
            self.first_lap() <= position::lap_of(pos as int),
        ensures
            r matches Some(b) ==> self.serving(pos as int) == Some(b),
            r is Some <==> self.block(block).start >= 64 * position::lap_of(pos as int)
                && self.block(block).start != POOLED,
    {
        let start = lap_start(pos);
        let mut at = block;
        loop
            invariant
                self.wf(),
                at < self.block_count(),
                self.first_lap() <= position::lap_of(pos as int),
                start == 64 * position::lap_of(pos as int),
                (self.block(block).start >= start && self.block(block).start != POOLED) == (
                self.block(at).start >= start && self.block(at).start != POOLED),
            decreases self.block(at).start,
        {
            proof {
                self.lemma_start_identifies(at, pos as int);
            }
            let s = self.blocks[at].start;
            if s == start {
                assert(POOLED as int % 64 == 63);
                return Some(at);
            }
            if s > start && s != POOLED {
                let ghost ahead = at;
                at = self.blocks[at].prev.unwrap();
                proof {
                    let i = choose|i: int| 1 <= i < self.chain().len() && self.chain()[i] == ahead;
                    assert(self.link_ok(i));
                }
            } else {
                return None;
            }
        }
    }

    /// Finds the block that serves a claimed position, from a block that was last seen at
    /// the tail. A walk that leads nowhere starts once more at the tail as it is now;
    /// nothing says that the producer that has to link the block is not done yet.
    pub fn find_block_slow(&self, block: usize, pos: usize) -> (r: Option<usize>)
        requires
            self.wf(),
            block < self.block_count(),
            self.first_lap() <= position::lap_of(pos as int),
        ensures
            r == self.serving(pos as int),
    {
        proof {
            assert(self.link_ok(self.chain().len() - 1));
            assert(POOLED as int % 64 == 63);
        }
        match self.walk_back(block, pos) {
            Some(b) => Some(b),
            None => {
                let mut backoff = Backoff::new();
                let _ = backoff.snooze();
                self.walk_back(self.tail.block, pos)
            },
        }
    }

    /// Finds the block that serves a claimed position; nothing says that the producer
    /// that has to link it is not done yet.
    pub fn find_block(&self, pos: usize) -> (r: Option<usize>)
        requires
            self.wf(),
            self.first_lap() <= position::lap_of(pos as int),
        ensures
            r == self.serving(pos as int),
    {
        let start = lap_start(pos);
        let block = self.tail.block;
        proof {
            assert(self.link_ok(self.chain().len() - 1));
            self.lemma_start_identifies(block, pos as int);
            assert(POOLED as int % 64 == 63);
        }
        if self.blocks[block].start == start {
            return Some(block);
        }
        self.find_block_slow(block, pos)
    }

    /// Links the block for the next lap, on behalf of the producer that claimed the
    /// last slot of the last live block.
    pub fn install_next(&mut self, block: usize, pos: usize)
        requires
            old(self).wf(),
            pos == 64 * old(self).last_lap() + 62,
            old(self).serving(pos as int) == Some(block),
            pos < old(self).tail_index(),
        ensures
            final(self).wf(),
            final(self).head_index() == old(self).head_index(),
            final(self).tail_index() == old(self).tail_index(),
            final(self).bound() == old(self).bound(),
            final(self).contention() == old(self).contention(),
            final(self).cells() == old(self).cells(),
            final(self).same_readers(*old(self)),
            final(self).first_lap() == old(self).first_lap(),
            final(self).chain() == old(self).chain().push(final(self).chain().last()),
            final(self).chain().last() == (match old(self).spare() {
                Some(b) => b as int,
                None => old(self).slow_choice(),
            }),
            final(self).spare() is None,
            final(self).block_count() == old(self).block_count() + (if final(self).chain().last()
                == old(self).block_count() {
                1nat
            } else {
                0nat
            }),
    {
        let start = lap_start(pos);
        let next = self.take_block();
        let ghost mid = *self;
        proof {
            assert(seq![next].contains(next)) by {
                assert(seq![next][0] == next);
            }
            assert(mid.places(next) == 0);
            assert(mid.link_ok(mid.chain().len() - 1));
            assert(mid.chain().contains(block)) by {
                assert(mid.chain()[mid.chain().len() - 1] == block);
            }
        }
        self.blocks[next].prev = Some(block);
        self.blocks[next].next = None;
        self.blocks[next].start = start + LAP;
        self.blocks[block].next = Some(next);
        self.tail.block = next;
        self.chain = Ghost(self.chain@.push(next));
        proof {
            Self::lemma_installed(mid, *self, block, next);
        }
    }

    /// Linking a clean block at the end of the chain keeps the invariant.
    proof fn lemma_installed(mid: Self, post: Self, block: usize, next: usize)
        requires
            mid.inv_except(seq![next]),
            next < mid.block_count(),
            mid.block(next).clean(mid.free_bound()),
            mid.chain()[mid.chain().len() - 1] == block,
            block != next,
            mid.tail_index() > 64 * mid.last_lap() + 62,
            post.head == mid.head,
            post.tail == (Position { block: next, ..mid.tail }),
            post.spare == mid.spare,
            post.ready == mid.ready,
            post.retired == mid.retired,
            post.capacity == mid.capacity,
            post.chain@ == mid.chain@.push(next),
            post.block_count() == mid.block_count(),
            forall|c: usize|
                c < mid.block_count() && c != block && c != next ==> #[trigger] post.block(c)
                    == mid.block(c),
            post.block(block).start == mid.block(block).start,
            post.block(block).prev == mid.block(block).prev,
            post.block(block).next == Some(next),
            post.block(block).slots == mid.block(block).slots,
            post.block(block).read_marks == mid.block(block).read_marks,
            post.block(next).start == 64 * (mid.last_lap() + 1),
            post.block(next).prev == Some(block),
            post.block(next).next is None,
            post.block(next).slots == mid.block(next).slots,
            post.block(next).read_marks == mid.block(next).read_marks,
        ensures
            post.wf(),
            post.cells() == mid.cells(),
            post.same_readers(mid),
            post.first_lap() == mid.first_lap(),
    {
        let n = mid.chain().len() as int;
        assert(seq![next].contains(next)) by {
            assert(seq![next][0] == next);
        }
        assert(mid.places(next) == 0);
        assert forall|i: int| 0 <= i < n implies mid.chain()[i] != next && mid.chain()[i]
            < mid.block_count() by {
            assert(mid.chain().contains(mid.chain()[i]));
            assert(mid.link_ok(i));
        }
        assert forall|i: int| 0 <= i < n - 1 implies #[trigger] mid.chain()[i] != block by {}
        assert(mid.link_ok(0));
        assert(mid.link_ok(n - 1));
        assert(post.chain()[0] == mid.chain()[0]);
        assert(post.block(mid.chain()[0]).start == mid.block(mid.chain()[0]).start);
        assert(post.first_lap() == mid.first_lap());
        assert(post.last_lap() == mid.last_lap() + 1);
        assert forall|i: int| 0 <= i < post.chain().len() implies #[trigger] post.link_ok(i) by {
            if i < n {
                assert(mid.link_ok(i));
            }
        }
        assert forall|i: int, o: int|
            0 <= i < post.chain().len() && 0 <= o < 63 implies #[trigger] post.slot_ok(i, o) by {
            if i < n {
                assert(mid.slot_ok(i, o));
            } else {
                assert(mid.block(next).slots@[o].value is None);
                assert(mid.block(next).read_marks@[o] == 0);
            }
        }
        assert(mid.block(next).slots@[62].value is None);
        assert forall|c: usize| c < post.block_count() implies #[trigger] post.places(c) == 1 by {
            assert(mid.places(c) == (if seq![next].contains(c) {
                0int
            } else {
                1int
            }));
            if mid.chain().contains(c) {
                let i = choose|i: int| 0 <= i < n && mid.chain()[i] == c;
                assert(post.chain()[i] == c);
            }
            if c == next {
                assert(post.chain()[n] == c);
            }
            if post.chain().contains(c) {
                let i = choose|i: int| 0 <= i < post.chain().len() && post.chain()[i] == c;
                if i < n {
                    assert(mid.chain()[i] == c);
                }
            }
        }
        assert(mid.chain().contains(block));
        assert(mid.places(block) == 1);
        assert forall|c: usize| c < post.block_count() implies (#[trigger] post.block(c)).shaped() by {
            assert(mid.block(c).shaped());
        }
        assert forall|c: usize| #[trigger] post.ready().holds(c) implies post.block(c).clean(
            post.free_bound(),
        ) by {
            assert(mid.ready().holds(c));
            assert(mid.places(c) == 1);
            assert(mid.block(c).clean(mid.free_bound()));
        }
        if let Some(c) = mid.spare() {
            assert(mid.places(c) == 1);
        }
        assert forall|c: usize| #[trigger] post.retired().holds(c) implies post.retired_ok(c) by {
            assert(mid.retired().holds(c));
            assert(mid.places(c) == 1);
            assert(mid.retired_ok(c));
        }
        assert forall|c: usize, o: int| #[trigger] post.stage(c, o) == mid.stage(c, o) by {
            if mid.retired().holds(c) {
                assert(c < mid.block_count());
                assert(mid.places(c) == 1);
            }
        }
        assert forall|k: int| 0 <= k < mid.cells().len() implies post.cells()[k]
            == #[trigger] mid.cells()[k] by {
            let p = position::nth(position::rank(mid.head_index()) + k);
            position::lemma_rank(mid.head_index());
            position::lemma_nth(position::rank(mid.head_index()) + k);
            position::lemma_nth(position::rank(mid.head_index()));
            let i = position::lap_of(p) - mid.first_lap();
            if position::lap_of(p) <= mid.last_lap() {
                assert(0 <= i < n);
                assert(post.chain()[i] == mid.chain()[i]);
            } else if position::lap_of(p) == mid.last_lap() + 1 {
                assert(mid.block(next).slots@[position::offset_of(p)].value is None);
            }
        }
        assert(post.cells() =~= mid.cells());
    }

    /// Writes a message into the slot of a claimed position and publishes it.
    ///
    /// The producer of the last slot of a block has linked the next block before.
    pub fn publish(&mut self, block: usize, pos: usize, value: T)
        requires
            old(self).wf(),
            old(self).is_pending(pos as int),
            old(self).serving(pos as int) == Some(block),
            pos != 64 * old(self).last_lap() + 62,
        ensures
            final(self).wf(),
            final(self).head_index() == old(self).head_index(),
            final(self).tail_index() == old(self).tail_index(),
            final(self).bound() == old(self).bound(),
            final(self).contention() == old(self).contention(),
            final(self).chain() == old(self).chain(),
            final(self).first_lap() == old(self).first_lap(),
            final(self).block_count() == old(self).block_count(),
            final(self).spare() == old(self).spare(),
            final(self).ready() == old(self).ready(),
            final(self).retired() == old(self).retired(),
            final(self).same_readers(*old(self)),
            final(self).cells() == old(self).cells().update(
                old(self).place(pos as int),
                Some(value),
            ),
    {
        let o = offset(pos);
        let state = written_tag(lap(pos));
        proof {
            assert(self.link_ok(position::lap_of(pos as int) - self.first_lap()));
            assert(self.block(block).shaped());
        }
        self.blocks[block].slots[o] = Slot { value: Some(value), state };
        proof {
            Self::lemma_published(*old(self), *self, block, pos as int, value);
        }
    }

    /// A published slot agrees with where head and tail stand.
    proof fn lemma_published(pre: Self, post: Self, block: usize, pos: int, value: T)
        requires
            pre.wf(),
            pre.is_pending(pos),
            pre.serving(pos) == Some(block),
            pos != 64 * pre.last_lap() + 62,
            post.head == pre.head,
            post.tail == pre.tail,
            post.spare == pre.spare,
            post.ready == pre.ready,
            post.retired == pre.retired,
            post.capacity == pre.capacity,
            post.chain == pre.chain,
            post.block_count() == pre.block_count(),
            forall|c: usize|
                c < pre.block_count() && c != block ==> #[trigger] post.block(c) == pre.block(c),
            post.block(block).start == pre.block(block).start,
            post.block(block).prev == pre.block(block).prev,
            post.block(block).next == pre.block(block).next,
            post.block(block).read_marks == pre.block(block).read_marks,
            post.block(block).slots@ == pre.block(block).slots@.update(
                position::offset_of(pos),
                Slot { value: Some(value), state: position::tag(position::lap_of(pos)) as usize },
            ),
            position::tag(position::lap_of(pos)) <= usize::MAX,
        ensures
            post.wf(),
            post.same_readers(pre),
            post.first_lap() == pre.first_lap(),
            post.cells() == pre.cells().update(pre.place(pos), Some(value)),
    {
        let at = position::lap_of(pos) - pre.first_lap();
        let off = position::offset_of(pos);
        assert(pre.link_ok(at));
        assert(pre.link_ok(0));
        assert(pre.block(block).shaped());
        assert(post.block(pre.chain()[0]).start == pre.block(pre.chain()[0]).start);
        assert(post.first_lap() == pre.first_lap());
        assert forall|i: int| 0 <= i < post.chain().len() implies #[trigger] post.link_ok(i) by {
            assert(pre.link_ok(i));
        }
        assert forall|i: int, o: int|
            0 <= i < post.chain().len() && 0 <= o < 63 implies #[trigger] post.slot_ok(i, o) by {
            assert(pre.slot_ok(i, o));
            assert(pre.link_ok(i));
            if i != at {
                assert(pre.chain()[i] != pre.chain()[at]);
            }
        }
        let last = pre.chain().len() - 1;
        assert(pre.link_ok(last));
        if last != at {
            assert(pre.chain()[last] != pre.chain()[at]);
        }
        assert(pre.chain().contains(block));
        assert(pre.places(block) == 1);
        assert forall|c: usize| c < post.block_count() implies #[trigger] post.places(c) == 1 by {
            assert(pre.places(c) == 1);
        }
        assert forall|c: usize| c < post.block_count() implies (#[trigger] post.block(c)).shaped() by {
            assert(pre.block(c).shaped());
        }
        assert forall|c: usize| #[trigger] post.ready().holds(c) implies post.block(c).clean(
            post.free_bound(),
        ) by {
            assert(pre.ready().holds(c));
        }
        assert forall|c: usize| #[trigger] post.retired().holds(c) implies post.retired_ok(c) by {
            assert(pre.retired().holds(c));
            assert(pre.retired_ok(c));
        }
        assert forall|c: usize, o: int| #[trigger] post.stage(c, o) == pre.stage(c, o) by {
            if pre.retired().holds(c) {
                assert(c < pre.block_count());
            }
        }
        let k0 = pre.place(pos);
        position::lemma_rank(pos);
        position::lemma_rank(pre.head_index());
        position::lemma_rank(pre.tail_index());
        assert forall|k: int| 0 <= k < pre.cells().len() implies #[trigger] post.cells()[k]
            == pre.cells().update(k0, Some(value))[k] by {
            let r = position::rank(pre.head_index()) + k;
            let p = position::nth(r);
            position::lemma_nth(r);
            position::lemma_nth(position::rank(pre.head_index()));
            let i = position::lap_of(p) - pre.first_lap();
            if position::lap_of(p) <= pre.last_lap() {
                assert(0 <= i < pre.chain().len());
                assert(pre.link_ok(i));
                if i != at {
                    assert(pre.chain()[i] != pre.chain()[at]);
                } else if k != k0 {
                    assert(p != pos);
                    assert(position::offset_of(p) != off);
                }
            }
        }
        position::lemma_rank_monotonic(pre.head_index(), pos);
        position::lemma_rank_monotonic(pos, pre.tail_index());
        assert(post.cells() =~= pre.cells().update(k0, Some(value)));
    }

    /// Claims the next position for a producer, or nothing if the queue is full.
    pub fn claim(&mut self) -> (r: Option<usize>)
        requires
            old(self).wf(),
            old(self).has_room(),
        ensures
            final(self).wf(),
            final(self).same_storage(*old(self)),
            final(self).contention() == (if old(self).bound() is None && old(self).contention()
                > 0 {
                (old(self).contention() - 1) as nat
            } else {
                old(self).contention()
            }),
            r is None <==> !leaves_room(old(self).cells().len() as int, old(self).bound()),
            r is None ==> {
                &&& final(self).cells() == old(self).cells()
                &&& final(self).tail_index() == (if position::is_sentinel(old(self).tail_index()) {
                    old(self).tail_index() + 1
                } else {
                    old(self).tail_index()
                })
            },
            r matches Some(pos) ==> {
                &&& pos == position::nth(position::rank(old(self).tail_index()))
                &&& final(self).tail_index() == pos + 1
                &&& final(self).cells() == old(self).cells().push(None)
                &&& final(self).is_pending(pos as int)
            },
    {
        if self.capacity.is_none() {
            if self.tail.contended == 0 {
                Some(self.claim_fetch_add())
            } else {
                Some(self.claim_cas())
            }
        } else {
            self.claim_bounded()
        }
    }

    /// Writes and publishes the message of a producer that has claimed `pos`. The
    /// producer of the last slot of a block links the next block first.
    pub fn write_claim(&mut self, pos: usize, value: T)
        requires
            old(self).wf(),
            old(self).is_pending(pos as int),
            old(self).serving(pos as int) is Some,
            position::offset_of(pos as int) == 62 ==> pos == 64 * old(self).last_lap() + 62,
        ensures
            final(self).wf(),
            final(self).head_index() == old(self).head_index(),
            final(self).tail_index() == old(self).tail_index(),
            final(self).bound() == old(self).bound(),
            final(self).contention() == old(self).contention(),
            final(self).first_lap() == old(self).first_lap(),
            final(self).chain()[0] == old(self).chain()[0],
            final(self).same_readers(*old(self)),
            final(self).cells() == old(self).cells().update(
                old(self).place(pos as int),
                Some(value),
            ),
            position::offset_of(pos as int) != 62 ==> {
                &&& final(self).chain() == old(self).chain()
                &&& final(self).block_count() == old(self).block_count()
            },
            position::offset_of(pos as int) == 62 ==> {
                &&& final(self).chain() == old(self).chain().push(final(self).chain().last())
                &&& final(self).chain().last() == (match old(self).spare() {
                    Some(b) => b as int,
                    None => old(self).slow_choice(),
                })
                &&& final(self).block_count() == old(self).block_count() + (
                if final(self).chain().last() == old(self).block_count() {
                    1nat
                } else {
                    0nat
                })
            },
    {
        let ghost pre = *self;
        let block = self.find_block(pos).unwrap();
        if offset(pos) + 1 == BLOCK_CAP {
            self.install_next(block, pos);
            proof {
                assert(self.chain()[position::lap_of(pos as int) - self.first_lap()] == block);
                assert(self.serving(pos as int) == Some(block));
            }
        }
        let ghost linked = *self;
        self.publish(block, pos, value);
        proof {
            assert forall|b: usize, o: int| #[trigger] self.stage(b, o) == pre.stage(b, o) by {
                assert(linked.stage(b, o) == pre.stage(b, o));
            }
        }
    }

    /// Appends a message, or hands it back where the queue is full.
    ///
    /// On success the result says whether any receiver was waiting, so that the
    /// caller wakes one.
    pub fn push(&mut self, value: T, waiting: usize) -> (r: Result<bool, T>)
        requires
            old(self).wf(),
            old(self).has_room(),
            old(self).is_linked(),
        ensures
            final(self).wf(),
            final(self).is_linked(),
            final(self).head_index() == old(self).head_index(),
            final(self).first_lap() == old(self).first_lap(),
            final(self).chain()[0] == old(self).chain()[0],
            final(self).bound() == old(self).bound(),
            final(self).same_readers(*old(self)),
            r is Err <==> !leaves_room(old(self).cells().len() as int, old(self).bound()),
            r matches Err(v) ==> {
                &&& v == value
                &&& final(self).cells() == old(self).cells()
                &&& final(self).block_count() == old(self).block_count()
                &&& final(self).tail_index() == (if position::is_sentinel(old(self).tail_index()) {
                    old(self).tail_index() + 1
                } else {
                    old(self).tail_index()
                })
            },
            r matches Ok(wake) ==> {
                &&& wake == (waiting != 0)
                &&& final(self).cells() == old(self).cells().push(Some(value))
                &&& final(self).tail_index() == position::nth(
                    position::rank(old(self).tail_index()),
                ) + 1
                &&& final(self).block_count() == old(self).block_count() + (
                if position::is_sentinel(final(self).tail_index()) && old(self).spare() is None
                    && old(self).slow_choice() == old(self).block_count() {
                    1nat
                } else {
                    0nat
                })
            },
            final(self).contention() == (if old(self).bound() is None && old(self).contention()
                > 0 {
                (old(self).contention() - 1) as nat
            } else {
                old(self).contention()
            }),
    {
        let ghost pre = *self;
        proof {
            position::lemma_rank(self.tail_index());
            position::lemma_rank(self.head_index());
        }
        match self.claim() {
            None => Err(value),
            Some(pos) => {
                let ghost claimed = *self;
                let wake = waiting != 0;
                proof {
                    position::lemma_nth(position::rank(pre.tail_index()));
                    assert(self.place(pos as int) == pre.cells().len());
                    Self::lemma_linked(pre, pos as int);
                    Self::lemma_same_choice(pre, *self);
                }
                self.write_claim(pos, value);
                proof {
                    assert(self.cells() =~= pre.cells().push(Some(value)));
                    assert forall|b: usize, o: int| #[trigger] self.stage(b, o) == pre.stage(b, o) by {
                        assert(claimed.stage(b, o) == pre.stage(b, o));
                    }
                }
                Ok(wake)
            },
        }
    }

    /// The choice of the next block depends on the storage alone.
    proof fn lemma_same_choice(pre: Self, post: Self)
        requires
            post.same_storage(pre),
        ensures
            post.slow_choice() == pre.slow_choice(),
    {
        let f = |b: usize| pre.block(b).all_read();
        let g = |b: usize| post.block(b).all_read();
        assert(f =~= g) by {
            assert forall|b: usize| #[trigger] f(b) == g(b) by {
                assert(post.block(b) == pre.block(b));
            }
        }
    }

    /// The block for the next message is in the chain unless a producer is paused
    /// before linking it.
    proof fn lemma_linked(pre: Self, pos: int)
        requires
            pre.wf(),
            pre.is_linked(),
            pos == position::nth(position::rank(pre.tail_index())),
        ensures
            pre.first_lap() <= position::lap_of(pos) <= pre.last_lap(),
            position::offset_of(pos) == 62 ==> pos == 64 * pre.last_lap() + 62,
    {
        position::lemma_rank(pre.tail_index());
        assert(pre.link_ok(0));
    }

    // ------------------------------------------------------------- consumers

    /// Every reader but that of slot `o` of block `b` stands where it stood in `other`.
    pub open spec fn same_other_readers(self, other: Self, b: usize, o: int) -> bool {
        forall|c: usize, q: int| c != b || q != o ==> #[trigger] self.stage(c, q) == other.stage(c, q)
    }

    /// Whether the message at the head is published and can be claimed.
    pub open spec fn is_ready(self) -> bool {
        &&& !self.in_transition()
        &&& self.cells().len() > 0
        &&& self.cells()[0] is Some
    }

    /// One look at the head, by a consumer that saw it at `head` and, after that, the
    /// head's block at `block`.
    ///
    /// The slot is looked at first and claimed only if its message is there. Where the
    /// head has moved on since it was seen, the claim fails and changes nothing, even
    /// if `block` serves another lap by now.
    pub fn pop_step(&mut self, head: usize, block: usize) -> (r: HeadStep)
        requires
            old(self).wf(),
            block < old(self).block_count(),
            head == old(self).head_index() && !old(self).in_transition() ==> block
                == old(self).chain()[0],
        ensures
            final(self).wf(),
            position::is_sentinel(head as int) ==> r is Transition && *final(self) == *old(self),
            !position::is_sentinel(head as int) && head != old(self).head_index() ==> {
                &&& r == HeadStep::Moved(old(self).head_index() as usize, old(self).chain()[0])
                &&& *final(self) == *old(self)
            },
            !position::is_sentinel(head as int) && head == old(self).head_index() ==> {
                &&& old(self).is_ready() ==> r == HeadStep::Claimed(ReadClaim { block, pos: head })
                &&& !old(self).is_ready() ==> r is Unwritten && *final(self) == *old(self)
            },
            r is Claimed ==> {
                &&& final(self).head_index() == old(self).head_index() + 1
                &&& final(self).tail_index() == old(self).tail_index()
                &&& final(self).bound() == old(self).bound()
                &&& final(self).contention() == old(self).contention()
                &&& final(self).chain() == old(self).chain()
                &&& final(self).first_lap() == old(self).first_lap()
                &&& final(self).block_count() == old(self).block_count()
                &&& forall|b: usize| #[trigger] final(self).block(b) == old(self).block(b)
                &&& final(self).retired() == old(self).retired()
                &&& final(self).cells() == old(self).cells().drop_first()
                &&& final(self).stage(block, position::offset_of(head as int))
                    == ReadStage::Claimed(old(self).cells()[0]->0)
                &&& final(self).same_other_readers(
                    *old(self),
                    block,
                    position::offset_of(head as int),
                )
            },
    {
        let o = offset(head);
        if o == BLOCK_CAP {
            return HeadStep::Transition;
        }
        proof {
            assert(self.block(block).shaped());
            self.lemma_head_slot();
        }
        let expected = written_tag(lap(head));
        if self.blocks[block].slots[o].state != expected {
            if self.head.index == head {
                return HeadStep::Unwritten;
            }
            return HeadStep::Moved(self.head.index, self.head.block);
        }
        if self.head.index != head {
            return HeadStep::Moved(self.head.index, self.head.block);
        }
        self.head.index = head + 1;
        proof {
            Self::lemma_head_step(*old(self), *self);
        }
        HeadStep::Claimed(ReadClaim { block, pos: head })
    }

    /// The slot at the head is tagged for its lap exactly if its message can be claimed.
    proof fn lemma_head_slot(self)
        requires
            self.wf(),
        ensures
            self.head_index() + 1 <= usize::MAX,
            self.chain()[0] < self.block_count(),
            !self.in_transition() ==> {
                let o = position::offset_of(self.head_index());
                let s = self.block(self.chain()[0]).slots@[o];
                &&& position::lap_of(self.head_index()) == self.first_lap()
                &&& 0 <= o < 63
                &&& s.state == position::tag(self.first_lap()) <==> self.is_ready()
                &&& self.is_ready() ==> s.value == self.cells()[0]
                &&& self.is_ready() ==> self.head_index() < self.tail_index()
            },
    {
        let h = self.head_index();
        assert(self.link_ok(0));
        position::lemma_rank(h);
        position::lemma_rank(self.tail_index());
        if !self.in_transition() {
            assert(self.slot_ok(0, position::offset_of(h)));
            assert(position::nth(position::rank(h) + 0) == h);
            if h < self.tail_index() {
                position::lemma_rank_monotonic(h, self.tail_index());
                assert(self.cells()[0] == self.cell(h));
            }
        }
    }

    /// Moving the head over a published message claims it.
    proof fn lemma_head_step(pre: Self, post: Self)
        requires
            pre.wf(),
            pre.is_ready(),
            post.blocks == pre.blocks,
            post.head == (Position { index: (pre.head.index + 1) as usize, ..pre.head }),
            pre.head_index() + 1 <= usize::MAX,
            post.tail == pre.tail,
            post.spare == pre.spare,
            post.ready == pre.ready,
            post.retired == pre.retired,
            post.capacity == pre.capacity,
            post.chain == pre.chain,
        ensures
            post.wf(),
            post.first_lap() == pre.first_lap(),
            post.cells() == pre.cells().drop_first(),
            post.stage(pre.chain()[0], position::offset_of(pre.head_index())) == ReadStage::Claimed(
                pre.cells()[0]->0,
            ),
            post.same_other_readers(
                pre,
                pre.chain()[0],
                position::offset_of(pre.head_index()),
            ),
    {
        let h = pre.head_index();
        let off = position::offset_of(h);
        pre.lemma_head_slot();
        position::lemma_rank(h);
        position::lemma_rank(h + 1);
        position::lemma_rank(pre.tail_index());
        assert(pre.slot_ok(0, off));
        let last = pre.chain().len() - 1;
        assert(pre.link_ok(last));
        if post.in_transition() {
            assert(off == 62);
            if pre.chain().len() == 1 {
                assert(pre.chain()[0] == pre.chain()[last]);
                assert(false);
            }
        }
        position::lemma_rank_monotonic(h + 1, pre.tail_index());
        assert forall|i: int| 0 <= i < post.chain().len() implies #[trigger] post.link_ok(i) by {
            assert(pre.link_ok(i));
        }
        assert forall|i: int, o: int|
            0 <= i < post.chain().len() && 0 <= o < 63 implies #[trigger] post.slot_ok(i, o) by {
            assert(pre.slot_ok(i, o));
        }
        assert forall|c: usize| c < post.block_count() implies #[trigger] post.places(c) == 1 by {
            assert(pre.places(c) == 1);
        }
        assert forall|c: usize| c < post.block_count() implies (#[trigger] post.block(c)).shaped() by {
            assert(pre.block(c).shaped());
        }
        assert forall|c: usize| #[trigger] post.retired().holds(c) implies post.retired_ok(c) by {
            assert(pre.retired_ok(c));
        }
        assert(pre.chain().contains(pre.chain()[0]));
        assert(pre.places(pre.chain()[0]) == 1);
        assert forall|c: usize, o: int| c != pre.chain()[0] || o != off implies #[trigger] post.stage(
            c,
            o,
        ) == pre.stage(c, o) by {}
        assert forall|k: int| 0 <= k < post.cells().len() implies #[trigger] post.cells()[k]
            == pre.cells().drop_first()[k] by {
            assert(pre.cells().drop_first()[k] == pre.cells()[k + 1]);
            assert(position::rank(h + 1) + k == position::rank(h) + (k + 1));
        }
        assert(post.cells() =~= pre.cells().drop_first());
    }

    /// Moves the message of a claim out of its slot.
    pub fn take_value(&mut self, claim: &ReadClaim) -> (r: T)
        requires
            old(self).wf(),
            old(self).stage(claim.block, position::offset_of(claim.pos as int)) is Claimed,
        ensures
            final(self).wf(),
            ReadStage::Claimed(r) == old(self).stage(
                claim.block,
                position::offset_of(claim.pos as int),
            ),
            final(self).head_index() == old(self).head_index(),
            final(self).tail_index() == old(self).tail_index(),
            final(self).bound() == old(self).bound(),
            final(self).contention() == old(self).contention(),
            final(self).chain() == old(self).chain(),
            final(self).first_lap() == old(self).first_lap(),
            final(self).block_count() == old(self).block_count(),
            final(self).retired() == old(self).retired(),
            final(self).cells() == old(self).cells(),
            final(self).stage(claim.block, position::offset_of(claim.pos as int)) is Moved,
            final(self).block(claim.block).read_marks == old(self).block(claim.block).read_marks,
            final(self).same_other_readers(
                *old(self),
                claim.block,
                position::offset_of(claim.pos as int),
            ),
    {
        let o = offset(claim.pos);
        let ghost b = claim.block;
        proof {
            assert(self.link_ok(0));
            assert(self.block(b).shaped());
            if self.retired().holds(b) {
                assert(self.retired_ok(b));
                assert(self.block(b).read_marks@[o as int] == 0);
            } else {
                assert(self.slot_ok(0, o as int));
            }
        }
        let value = self.blocks[claim.block].slots[o].value.take();
        proof {
            Self::lemma_slot_changed(*old(self), *self, b, o as int);
        }
        value.unwrap()
    }

    /// Leaves the mark of a reader that has moved its message out.
    pub fn mark_read(&mut self, claim: ReadClaim)
        requires
            old(self).wf(),
            old(self).stage(claim.block, position::offset_of(claim.pos as int)) is Moved,
        ensures
            final(self).wf(),
            final(self).head_index() == old(self).head_index(),
            final(self).tail_index() == old(self).tail_index(),
            final(self).bound() == old(self).bound(),
            final(self).contention() == old(self).contention(),
            final(self).chain() == old(self).chain(),
            final(self).first_lap() == old(self).first_lap(),
            final(self).block_count() == old(self).block_count(),
            final(self).retired() == old(self).retired(),
            final(self).cells() == old(self).cells(),
            final(self).stage(claim.block, position::offset_of(claim.pos as int)) is Absent,
            final(self).block(claim.block).read_marks@ == old(self).block(
                claim.block,
            ).read_marks@.update(position::offset_of(claim.pos as int), 1),
            final(self).same_other_readers(
                *old(self),
                claim.block,
                position::offset_of(claim.pos as int),
            ),
    {
        let o = offset(claim.pos);
        let ghost b = claim.block;
        proof {
            assert(self.link_ok(0));
            assert(self.block(b).shaped());
        }
        self.blocks[claim.block].read_marks[o] = 1;
        proof {
            Self::lemma_slot_changed(*old(self), *self, b, o as int);
        }
    }

    /// A reader that empties its slot, or marks a slot it has emptied, disturbs nobody.
    proof fn lemma_slot_changed(pre: Self, post: Self, b: usize, o: int)
        requires
            pre.wf(),
            pre.is_claimed_slot(b, o),
            b < pre.block_count(),
            post.head == pre.head,
            post.tail == pre.tail,
            post.spare == pre.spare,
            post.ready == pre.ready,
            post.retired == pre.retired,
            post.capacity == pre.capacity,
            post.chain == pre.chain,
            post.block_count() == pre.block_count(),
            forall|c: usize|
                c < pre.block_count() && c != b ==> #[trigger] post.block(c) == pre.block(c),
            post.block(b).start == pre.block(b).start,
            post.block(b).prev == pre.block(b).prev,
            post.block(b).next == pre.block(b).next,
            post.block(b).shaped(),
            forall|q: int|
                0 <= q < 63 && q != o ==> #[trigger] post.block(b).slots@[q] == pre.block(
                    b,
                ).slots@[q],
            forall|q: int|
                0 <= q < 63 && q != o ==> #[trigger] post.block(b).read_marks@[q] == pre.block(
                    b,
                ).read_marks@[q],
            post.block(b).slots@[o].state == pre.block(b).slots@[o].state,
            post.block(b).slots@[o].value is None,
        ensures
            post.wf(),
            post.first_lap() == pre.first_lap(),
            post.cells() == pre.cells(),
            post.same_other_readers(pre, b, o),
    {
        assert(pre.link_ok(0));
        assert(pre.chain().contains(pre.chain()[0]));
        assert(pre.places(b) == 1);
        assert(post.block(pre.chain()[0]).start == pre.block(pre.chain()[0]).start);
        assert(post.first_lap() == pre.first_lap());
        assert forall|i: int| 0 <= i < pre.chain().len() && #[trigger] pre.chain()[i] == b implies i
            == 0 by {
            assert(pre.chain().contains(b));
        }
        assert forall|i: int| 0 <= i < post.chain().len() implies #[trigger] post.link_ok(i) by {
            assert(pre.link_ok(i));
        }
        assert forall|i: int, q: int|
            0 <= i < post.chain().len() && 0 <= q < 63 implies #[trigger] post.slot_ok(i, q) by {
            assert(pre.slot_ok(i, q));
            assert(pre.link_ok(i));
            if pre.chain()[i] == b {
                assert(i == 0);
                if q != o {
                    assert(post.block(b).slots@[q] == pre.block(b).slots@[q]);
                    assert(post.block(b).read_marks@[q] == pre.block(b).read_marks@[q]);
                }
            }
        }
        let last = pre.chain().len() - 1;
        assert(pre.link_ok(last));
        assert(pre.slot_ok(last, 62));
        assert(post.block(pre.chain()[last]).slots@[62].state == pre.block(
            pre.chain()[last],
        ).slots@[62].state);
        assert forall|c: usize| c < post.block_count() implies #[trigger] post.places(c) == 1 by {
            assert(pre.places(c) == 1);
        }
        assert forall|c: usize| c < post.block_count() implies (#[trigger] post.block(c)).shaped() by {
            assert(pre.block(c).shaped());
        }
        assert forall|c: usize| #[trigger] post.ready().holds(c) implies post.block(c).clean(
            post.free_bound(),
        ) by {
            assert(pre.ready().holds(c));
        }
        assert forall|c: usize| #[trigger] post.retired().holds(c) implies post.retired_ok(c) by {
            assert(pre.retired().holds(c));
            assert(pre.retired_ok(c));
            if c == b {
                assert(post.block(b).slots@[62] == pre.block(b).slots@[62]);
                assert forall|q: int| 0 <= q < 63 implies (#[trigger] post.block(b).slots@[q]).state
                    == position::tag(post.block(b).start as int / 64) by {
                    assert(pre.block(b).slots@[q].state == position::tag(
                        pre.block(b).start as int / 64,
                    ));
                }
                assert forall|q: int|
                    0 <= q < 63 && #[trigger] post.block(b).read_marks@[q] != 0 implies post.block(
                    b,
                ).slots@[q].value is None by {
                    if q != o {
                        assert(pre.block(b).read_marks@[q] != 0);
                    }
                }
            }
        }
        assert forall|c: usize, q: int| c != b || q != o implies #[trigger] post.stage(c, q)
            == pre.stage(c, q) by {
            if pre.retired().holds(c) {
                assert(c < pre.block_count());
            }
            if c == b && pre.is_claimed_slot(c, q) {
                assert(post.block(b).slots@[q] == pre.block(b).slots@[q]);
                assert(post.block(b).read_marks@[q] == pre.block(b).read_marks@[q]);
            }
        }
        position::lemma_rank(pre.head_index());
        position::lemma_rank(pre.tail_index());
        assert forall|k: int| 0 <= k < pre.cells().len() implies post.cells()[k]
            == #[trigger] pre.cells()[k] by {
            let r = position::rank(pre.head_index()) + k;
            let p = position::nth(r);
            position::lemma_nth(r);
            position::lemma_nth(position::rank(pre.head_index()));
            let i = position::lap_of(p) - pre.first_lap();
            assert(p >= pre.head_index()) by {
                if p < pre.head_index() {
                    position::lemma_rank_monotonic(p, pre.head_index());
                }
            }
            if position::lap_of(p) <= pre.last_lap() {
                assert(0 <= i < pre.chain().len());
                assert(pre.link_ok(i));
                if pre.chain()[i] == b {
                    assert(i == 0);
                    assert(position::offset_of(p) != o);
                    assert(post.block(b).slots@[position::offset_of(p)] == pre.block(
                        b,
                    ).slots@[position::offset_of(p)]);
                }
            }
        }
        assert(post.cells() =~= pre.cells());
    }

    /// Moves the head from a sentinel to the next block and hands the block that was
    /// at the head to the caller.
    fn advance_head(&mut self) -> (r: usize)
        requires
            old(self).wf(),
            old(self).in_transition(),
            old(self).block(old(self).chain()[0]).slots@[62].value is None,
        ensures
            r == old(self).chain()[0],
            r < old(self).block_count(),
            final(self).inv_except(seq![r]),
            final(self).retired_ok(r),
            final(self).head_index() == old(self).head_index() + 1,
            final(self).tail_index() == old(self).tail_index(),
            final(self).bound() == old(self).bound(),
            final(self).contention() == old(self).contention(),
            final(self).chain() == old(self).chain().drop_first(),
            final(self).first_lap() == old(self).first_lap() + 1,
            final(self).cells() == old(self).cells(),
            final(self).block_count() == old(self).block_count(),
            forall|c: usize| #[trigger] final(self).block(c) == old(self).block(c),
            final(self).spare() == old(self).spare(),
            final(self).ready() == old(self).ready(),
            final(self).retired() == old(self).retired(),
            forall|c: usize, o: int|
                c != r ==> #[trigger] final(self).stage(c, o) == old(self).stage(c, o),
    {
        let block = self.head.block;
        proof {
            assert(self.link_ok(0));
        }
        let next = self.blocks[block].next.unwrap();
        self.head.block = next;
        self.head.index = self.head.index + 1;
        self.chain = Ghost(self.chain@.drop_first());
        proof {
            Self::lemma_head_moved(*old(self), *self);
        }
        block
    }

    /// Moving the head over a sentinel takes one block out of the chain.
    proof fn lemma_head_moved(pre: Self, post: Self)
        requires
            pre.wf(),
            pre.in_transition(),
            pre.block(pre.chain()[0]).slots@[62].value is None,
            post.blocks == pre.blocks,
            pre.head_index() + 1 <= usize::MAX,
            post.head == (Position {
                index: (pre.head.index + 1) as usize,
                block: pre.chain()[1],
                ..pre.head
            }),
            post.tail == pre.tail,
            post.spare == pre.spare,
            post.ready == pre.ready,
            post.retired == pre.retired,
            post.capacity == pre.capacity,
            post.chain() == pre.chain().drop_first(),
        ensures
            post.inv_except(seq![pre.chain()[0]]),
            post.retired_ok(pre.chain()[0]),
            post.first_lap() == pre.first_lap() + 1,
            post.cells() == pre.cells(),
            forall|c: usize, o: int|
                c != pre.chain()[0] ==> #[trigger] post.stage(c, o) == pre.stage(c, o),
    {
        let h = pre.head_index();
        let b = pre.chain()[0];
        let held = seq![b];
        assert(held[0] == b);
        assert forall|c: usize| #[trigger] held.contains(c) <==> c == b by {}
        assert(pre.link_ok(0));
        assert(pre.link_ok(1));
        assert(post.chain()[0] == pre.chain()[1]);
        assert(post.first_lap() == pre.first_lap() + 1);
        let last = pre.chain().len() - 1;
        assert(post.chain()[last - 1] == pre.chain()[last]);
        position::lemma_rank(h);
        position::lemma_rank(h + 1);
        position::lemma_rank(pre.tail_index());
        assert(pre.chain().contains(b));
        assert(pre.places(b) == 1);
        assert(post.chain().no_duplicates()) by {
            assert forall|i: int, j: int|
                0 <= i < post.chain().len() && 0 <= j < post.chain().len() && i
                    != j implies post.chain()[i] != post.chain()[j] by {
                assert(pre.chain()[i + 1] != pre.chain()[j + 1]);
            }
        }
        assert(!post.chain().contains(b)) by {
            if post.chain().contains(b) {
                let i = choose|i: int| 0 <= i < post.chain().len() && post.chain()[i] == b;
                assert(pre.chain()[i + 1] == b);
            }
        }
        assert forall|c: usize| c != b implies (#[trigger] post.chain().contains(c)
            <==> pre.chain().contains(c)) by {
            if pre.chain().contains(c) {
                let i = choose|i: int| 0 <= i < pre.chain().len() && pre.chain()[i] == c;
                assert(post.chain()[i - 1] == c);
            }
            if post.chain().contains(c) {
                let i = choose|i: int| 0 <= i < post.chain().len() && post.chain()[i] == c;
                assert(pre.chain()[i + 1] == c);
            }
        }
        assert forall|c: usize| c < post.block_count() implies #[trigger] post.places(c) == (
        if held.contains(c) {
            0int
        } else {
            1int
        }) by {
            assert(pre.places(c) == 1);
        }
        assert forall|c: usize| c < post.block_count() implies (#[trigger] post.block(c)).shaped() by {
            assert(pre.block(c).shaped());
        }
        assert forall|i: int| 0 <= i < post.chain().len() implies #[trigger] post.link_ok(i) by {
            assert(pre.link_ok(i + 1));
            if i + 1 < post.chain().len() {
                assert(post.chain()[i + 1] == pre.chain()[i + 2]);
            }
        }
        assert forall|i: int, o: int|
            0 <= i < post.chain().len() && 0 <= o < 63 implies #[trigger] post.slot_ok(i, o) by {
            assert(pre.slot_ok(i + 1, o));
        }
        assert forall|o: int| 0 <= o < 63 implies (#[trigger] post.block(b).slots@[o]).state
            == position::tag(post.block(b).start as int / 64) by {
            assert(pre.slot_ok(0, o));
        }
        assert forall|o: int| 0 <= o < 63 && #[trigger] post.block(b).read_marks@[o] != 0 implies
            post.block(b).slots@[o].value is None by {
            assert(pre.slot_ok(0, o));
        }
        assert forall|c: usize| #[trigger] post.ready().holds(c) implies post.block(c).clean(
            post.free_bound(),
        ) by {
            assert(pre.ready().holds(c));
        }
        assert forall|c: usize| #[trigger] post.retired().holds(c) implies post.retired_ok(c) by {
            assert(pre.retired().holds(c));
            assert(pre.retired_ok(c));
        }
        assert(pre.chain().contains(pre.chain()[1]));
        assert(pre.places(pre.chain()[1]) == 1);
        assert forall|c: usize, o: int| c != b implies #[trigger] post.stage(c, o) == pre.stage(
            c,
            o,
        ) by {}
        assert forall|k: int| 0 <= k < pre.cells().len() implies post.cells()[k]
            == #[trigger] pre.cells()[k] by {
            let p = position::nth(position::rank(h) + k);
            position::lemma_nth(position::rank(h) + k);
            if position::lap_of(p) <= pre.last_lap() {
                let i = position::lap_of(p) - pre.first_lap();
                assert(i >= 1) by {
                    if p < h + 1 {
                        position::lemma_rank_monotonic(p, h + 1);
                    }
                }
                assert(post.chain()[i - 1] == pre.chain()[i]);
            }
        }
        assert(post.cells() =~= pre.cells());
    }

    /// Ends the work of the consumer that took the last message of a block: moves the
    /// head to the next block, and recycles the old block if all its readers are done,
    /// or retires it.
    pub fn finish_block(&mut self, claim: ReadClaim)
        requires
            old(self).wf(),
            old(self).in_transition(),
            claim.block == old(self).chain()[0],
            old(self).stage(claim.block, 62) is Moved,
        ensures
            final(self).wf(),
            !final(self).in_transition(),
            final(self).head_index() == old(self).head_index() + 1,
            final(self).tail_index() == old(self).tail_index(),
            final(self).bound() == old(self).bound(),
            final(self).contention() == old(self).contention(),
            final(self).chain() == old(self).chain().drop_first(),
            final(self).first_lap() == old(self).first_lap() + 1,
            final(self).cells() == old(self).cells(),
            final(self).block_count() == old(self).block_count(),
            final(self).stage(claim.block, 62) is Absent,
            final(self).same_other_readers(*old(self), claim.block, 62),
            old(self).block(claim.block).all_read() ==> {
                &&& final(self).retired() == old(self).retired()
                &&& old(self).spare() is None ==> final(self).spare() == Some(claim.block)
                    && final(self).ready() == old(self).ready()
                &&& old(self).spare() is Some ==> {
                    &&& final(self).spare() == old(self).spare()
                    &&& forall|c: usize| #[trigger]
                        final(self).ready().holds(c) <==> old(self).ready().holds(c) || c
                            == claim.block
                }
            },
            !old(self).block(claim.block).all_read() ==> {
                &&& final(self).spare() == old(self).spare()
                &&& final(self).ready() == old(self).ready()
                &&& forall|c: usize| #[trigger]
                    final(self).retired().holds(c) <==> old(self).retired().holds(c) || c
                        == claim.block
            },
    {
        let ghost pre = *self;
        let block = self.advance_head();
        let ghost mid = *self;
        proof {
            assert(seq![block][0] == block);
            assert(seq![block].contains(block));
            assert(mid.places(block) == 0);
            assert(pre.chain().contains(block));
            assert(pre.places(block) == 1);
            assert(mid.block(block).shaped());
            assert forall|o: int| 0 <= o < 63 implies pre.is_claimed_slot(block, o) by {}
        }
        if !self.blocks[block].readers_done() {
            self.retired.put(block);
            proof {
                Self::lemma_retired(mid, *self, block);
                assert forall|c: usize, o: int| c != block || o != 62 implies #[trigger] self.stage(
                    c,
                    o,
                ) == pre.stage(c, o) by {
                    if c != block {
                        assert(mid.stage(c, o) == pre.stage(c, o));
                    }
                }
            }
            return;
        }
        self.blocks[block].reset();
        proof {
            assert forall|o: int| 0 <= o < 63 implies (#[trigger] self.block(block).slots@[o]).value
                is None && self.block(block).slots@[o].state < mid.free_bound() by {
                assert(pre.slot_ok(0, o));
                assert(self.block(block).slots@[o] == mid.block(block).slots@[o]);
                if o < 62 {
                    assert(mid.block(block).read_marks@[o] != 0);
                }
            }
            Self::lemma_outside_changed(mid, *self, block);
        }
        let ghost clean = *self;
        self.recycle(block);
        proof {
            assert forall|c: usize, o: int| c != block || o != 62 implies #[trigger] self.stage(c, o)
                == pre.stage(c, o) by {
                assert(self.stage(c, o) == clean.stage(c, o));
                if c != block {
                    assert(mid.stage(c, o) == pre.stage(c, o));
                } else {
                    assert(clean.places(block) == 0);
                    assert(clean.chain().contains(clean.chain()[0]));
                    assert(clean.stage(block, o) is Absent);
                    if pre.is_claimed_slot(block, o) {
                        assert(pre.slot_ok(0, o));
                        assert(mid.block(block).read_marks@[o] != 0);
                    }
                }
            }
            assert(self.stage(block, 62) == clean.stage(block, 62));
            assert(clean.places(block) == 0);
            assert(clean.chain().contains(clean.chain()[0]));
            assert(clean.stage(block, 62) is Absent);
        }
    }

    /// Putting a block in the caller's hands among the retired ones.
    proof fn lemma_retired(pre: Self, post: Self, b: usize)
        requires
            pre.inv_except(seq![b]),
            b < pre.block_count(),
            pre.retired_ok(b),
            post.blocks == pre.blocks,
            post.head == pre.head,
            post.tail == pre.tail,
            post.spare == pre.spare,
            post.ready == pre.ready,
            post.capacity == pre.capacity,
            post.chain == pre.chain,
            post.retired().wf(),
            forall|c: usize| #[trigger]
                post.retired().holds(c) <==> pre.retired().holds(c) || c == b,
        ensures
            post.wf(),
            post.first_lap() == pre.first_lap(),
            post.cells() == pre.cells(),
            forall|c: usize, o: int|
                c != b ==> #[trigger] post.stage(c, o) == pre.stage(c, o),
            forall|o: int| #[trigger]
                post.stage(b, o) == (if 0 <= o < 62 {
                    match pre.block(b).slots@[o].value {
                        Some(v) => ReadStage::Claimed(v),
                        None => if pre.block(b).read_marks@[o] == 0 {
                            ReadStage::Moved
                        } else {
                            ReadStage::Absent
                        },
                    }
                } else {
                    ReadStage::Absent
                }),
    {
        let held = seq![b];
        assert(held[0] == b);
        assert forall|c: usize| #[trigger] held.contains(c) <==> c == b by {}
        assert(pre.places(b) == 0);
        Self::lemma_chain_frame(pre, post, held);
        assert(post.chain().contains(post.chain()[0]));
        assert forall|c: usize| c < post.block_count() implies #[trigger] post.places(c) == 1 by {
            assert(pre.places(c) == (if held.contains(c) {
                0int
            } else {
                1int
            }));
        }
        assert forall|c: usize| c < post.block_count() implies (#[trigger] post.block(c)).shaped() by {
            assert(pre.block(c).shaped());
        }
        assert forall|c: usize| #[trigger] post.retired().holds(c) implies c < post.block_count()
            && post.retired_ok(c) by {
            assert(pre.retired().holds(c) || c == b);
            if c != b {
                assert(pre.retired_ok(c));
            }
        }
        assert forall|c: usize, o: int| c != b implies #[trigger] post.stage(c, o) == pre.stage(
            c,
            o,
        ) by {
            assert(post.retired().holds(c) <==> pre.retired().holds(c));
        }
    }

    /// What happens to a block in the caller's hands concerns nobody else.
    proof fn lemma_outside_changed(pre: Self, post: Self, b: usize)
        requires
            pre.inv_except(seq![b]),
            b < pre.block_count(),
            post.block_count() == pre.block_count(),
            forall|c: usize|
                c < pre.block_count() && c != b ==> #[trigger] post.block(c) == pre.block(c),
            post.block(b).shaped(),
            post.head == pre.head,
            post.tail == pre.tail,
            post.spare == pre.spare,
            post.ready == pre.ready,
            post.retired == pre.retired,
            post.capacity == pre.capacity,
            post.chain == pre.chain,
        ensures
            post.inv_except(seq![b]),
            post.first_lap() == pre.first_lap(),
            post.cells() == pre.cells(),
            post.same_readers(pre),
    {
        let held = seq![b];
        assert(held[0] == b);
        assert forall|c: usize| #[trigger] held.contains(c) <==> c == b by {}
        assert(pre.places(b) == 0);
        assert forall|i: int| 0 <= i < pre.chain().len() implies post.block(
            #[trigger] pre.chain()[i],
        ) == pre.block(pre.chain()[i]) by {
            assert(pre.link_ok(i));
            assert(pre.chain().contains(pre.chain()[i]));
        }
        Self::lemma_chain_frame(pre, post, held);
        assert forall|c: usize| c < post.block_count() implies #[trigger] post.places(c) == (
        if held.contains(c) {
            0int
        } else {
            1int
        }) by {
            assert(pre.places(c) == (if held.contains(c) {
                0int
            } else {
                1int
            }));
        }
        assert forall|c: usize| c < post.block_count() implies (#[trigger] post.block(c)).shaped() by {
            if c != b {
                assert(pre.block(c).shaped());
            }
        }
        assert forall|c: usize| #[trigger] post.ready().holds(c) implies post.block(c).clean(
            post.free_bound(),
        ) by {
            assert(pre.ready().holds(c));
            assert(post.block(c) == pre.block(c));
        }
        assert forall|c: usize| #[trigger] post.retired().holds(c) implies post.retired_ok(c) by {
            assert(pre.retired().holds(c));
            assert(pre.retired_ok(c));
            assert(post.block(c) == pre.block(c));
        }
        if pre.spare() is Some {
            let c = pre.spare()->0;
            assert(post.block(c) == pre.block(c));
        }
        assert(pre.chain().contains(pre.chain()[0]));
        assert(pre.link_ok(0));
        assert forall|c: usize, o: int| #[trigger] post.stage(c, o) == pre.stage(c, o) by {
            if pre.retired().holds(c) {
                assert(post.block(c) == pre.block(c));
            }
        }
    }

    /// Completes a claim: moves the message out, and leaves the reader's mark or, after
    /// the last message of a block, moves the head on.
    pub fn read_claim(&mut self, claim: ReadClaim) -> (r: T)
        requires
            old(self).wf(),
            old(self).stage(claim.block, position::offset_of(claim.pos as int)) is Claimed,
        ensures
            final(self).wf(),
            old(self).stage(claim.block, position::offset_of(claim.pos as int))
                == ReadStage::Claimed(r),
            final(self).stage(claim.block, position::offset_of(claim.pos as int)) is Absent,
            final(self).same_other_readers(
                *old(self),
                claim.block,
                position::offset_of(claim.pos as int),
            ),
            final(self).cells() == old(self).cells(),
            final(self).tail_index() == old(self).tail_index(),
            final(self).bound() == old(self).bound(),
            final(self).contention() == old(self).contention(),
            final(self).block_count() == old(self).block_count(),
            final(self).last_lap() == old(self).last_lap(),
            position::offset_of(claim.pos as int) != 62 ==> final(self).head_index()
                == old(self).head_index(),
            position::offset_of(claim.pos as int) == 62 ==> {
                &&& old(self).in_transition()
                &&& final(self).head_index() == old(self).head_index() + 1
                &&& !final(self).in_transition()
            },
    {
        let ghost pre = *self;
        let o = offset(claim.pos);
        let value = self.take_value(&claim);
        let ghost taken = *self;
        if o + 1 == BLOCK_CAP {
            self.finish_block(claim);
        } else {
            self.mark_read(claim);
        }
        proof {
            assert forall|c: usize, q: int| c != claim.block || q != o implies #[trigger] self.stage(
                c,
                q,
            ) == pre.stage(c, q) by {
                assert(taken.stage(c, q) == pre.stage(c, q));
            }
        }
        value
    }

    /// Removes the oldest message, for a consumer that saw the head at `head` and, after
    /// that, the head's block at `block`.
    ///
    /// There is nothing to take if the queue is empty, if the oldest message is still
    /// being written, or if another consumer is moving the head and stays at it for
    /// longer than this one waits. Along with the message comes whether a waiting
    /// sender should be woken.
    pub fn pop_from(&mut self, head: usize, block: usize, waiting: usize) -> (r: Option<(T, bool)>)
        requires
            old(self).wf(),
            block < old(self).block_count(),
            head == old(self).head_index() && !old(self).in_transition() ==> block
                == old(self).chain()[0],
        ensures
            final(self).wf(),
            r is Some <==> old(self).is_ready(),
            r is None ==> *final(self) == *old(self),
            r matches Some((value, wake)) ==> {
                &&& old(self).cells()[0] == Some(value)
                &&& wake == (old(self).bound() is Some && waiting != 0)
                &&& final(self).cells() == old(self).cells().drop_first()
                &&& final(self).head_index() == position::nth(
                    position::rank(old(self).head_index()) + 1,
                )
                &&& !final(self).in_transition()
                &&& final(self).same_readers(*old(self))
            },
            final(self).tail_index() == old(self).tail_index(),
            final(self).bound() == old(self).bound(),
            final(self).contention() == old(self).contention(),
            final(self).block_count() == old(self).block_count(),
            final(self).last_lap() == old(self).last_lap(),
    {
        let mut backoff = Backoff::new();
        let mut seen: usize = head;
        let mut at: usize = block;
        loop
            invariant
                *self == *old(self),
                self.wf(),
                at < self.block_count(),
                seen == self.head_index() && !self.in_transition() ==> at == self.chain()[0],
                backoff.step() <= 72,
                backoff.step() > 0 ==> seen == self.head_index(),
            decreases
                72 - backoff.step(),
                (if seen == self.head_index() {
                    0int
                } else {
                    1int
                }),
        {
            let ghost pre = *self;
            proof {
                assert(self.link_ok(0));
            }
            match self.pop_step(seen, at) {
                HeadStep::Claimed(claim) => {
                    let ghost claimed = *self;
                    let wake = self.capacity.is_some() && waiting != 0;
                    let value = self.read_claim(claim);
                    proof {
                        position::lemma_rank(pre.head_index());
                        position::lemma_rank(pre.head_index() + 1);
                        position::lemma_nth(position::rank(pre.head_index()));
                        assert(pre.chain().contains(pre.chain()[0]));
                        assert(pre.places(pre.chain()[0]) == 1);
                        assert forall|c: usize, o: int| #[trigger] self.stage(c, o) == pre.stage(
                            c,
                            o,
                        ) by {
                            if c != claim.block || o != position::offset_of(seen as int) {
                                assert(claimed.stage(c, o) == pre.stage(c, o));
                            }
                        }
                    }
                    return Some((value, wake));
                },
                HeadStep::Unwritten => {
                    return None;
                },
                HeadStep::Transition => {
                    if !backoff.snooze_bounded() {
                        return None;
                    }
                    seen = self.head.index;
                    at = self.head.block;
                },
                HeadStep::Moved(now, now_at) => {
                    let _ = backoff.spin();
                    seen = now;
                    at = now_at;
                },
            }
        }
    }

    /// Removes the oldest message if it is published, and says whether a waiting sender
    /// should be woken. `waiting` is the number of senders that wait for room.
    pub fn pop(&mut self, waiting: usize) -> (r: Option<(T, bool)>)
        requires
            old(self).wf(),
        ensures
            final(self).wf(),
            r is Some <==> old(self).is_ready(),
            r is None ==> *final(self) == *old(self),
            r matches Some((value, wake)) ==> {
                &&& old(self).cells()[0] == Some(value)
                &&& wake == (old(self).bound() is Some && waiting != 0)
                &&& final(self).cells() == old(self).cells().drop_first()
                &&& final(self).head_index() == position::nth(
                    position::rank(old(self).head_index()) + 1,
                )
                &&& !final(self).in_transition()
                &&& final(self).same_readers(*old(self))
            },
            final(self).tail_index() == old(self).tail_index(),
            final(self).bound() == old(self).bound(),
            final(self).contention() == old(self).contention(),
            final(self).block_count() == old(self).block_count(),
            final(self).last_lap() == old(self).last_lap(),
    {
        proof {
            assert(self.link_ok(0));
        }
        let head = self.head.index;
        let block = self.head.block;
        self.pop_from(head, block, waiting)
    }

    // ----------------------------------------------------------- one consumer

    /// Whether the block at the head was read by a sole consumer, which leaves no marks.
    pub open spec fn is_single(self) -> bool {
        forall|o: int|
            0 <= o < 63 && 64 * self.first_lap() + o < self.head_index() ==> #[trigger] self.stage(
                self.chain()[0],
                o,
            ) is Moved
    }

    /// Ends the work of the sole consumer on a block: moves the head to the next block
    /// and recycles the old one at once, since nobody else can be reading it.
    pub fn recycle_single(&mut self, block: usize)
        requires
            old(self).wf(),
            old(self).in_transition(),
            old(self).is_single(),
            block == old(self).chain()[0],
        ensures
            final(self).wf(),
            final(self).is_single(),
            !final(self).in_transition(),
            final(self).head_index() == old(self).head_index() + 1,
            final(self).tail_index() == old(self).tail_index(),
            final(self).bound() == old(self).bound(),
            final(self).contention() == old(self).contention(),
            final(self).chain() == old(self).chain().drop_first(),
            final(self).first_lap() == old(self).first_lap() + 1,
            final(self).cells() == old(self).cells(),
            final(self).block_count() == old(self).block_count(),
            final(self).retired() == old(self).retired(),
            forall|o: int| #[trigger] final(self).stage(block, o) is Absent,
            forall|c: usize, o: int|
                c != block ==> #[trigger] final(self).stage(c, o) == old(self).stage(c, o),
            old(self).spare() is None ==> final(self).spare() == Some(block) && final(self).ready()
                == old(self).ready(),
            old(self).spare() is Some ==> {
                &&& final(self).spare() == old(self).spare()
                &&& forall|c: usize| #[trigger]
                    final(self).ready().holds(c) <==> old(self).ready().holds(c) || c == block
            },
    {
        let ghost pre = *self;
        proof {
            assert(pre.stage(block, 62) is Moved);
            assert(pre.chain().contains(block));
            assert(pre.places(block) == 1);
        }
        let left = self.advance_head();
        let ghost mid = *self;
        proof {
            assert(seq![block][0] == block);
            assert(seq![block].contains(block));
            assert(mid.places(block) == 0);
            assert(mid.block(block).shaped());
        }
        self.blocks[left].start = POOLED;
        proof {
            assert forall|o: int| 0 <= o < 63 implies (#[trigger] self.block(block).slots@[o]).value
                is None && self.block(block).slots@[o].state < mid.free_bound()
                && self.block(block).read_marks@[o] == 0 by {
                assert(pre.slot_ok(0, o));
                assert(pre.stage(block, o) is Moved);
            }
            Self::lemma_outside_changed(mid, *self, block);
        }
        let ghost clean = *self;
        self.recycle(left);
        proof {
            assert(clean.places(block) == 0);
            assert(clean.chain().contains(clean.chain()[0]));
            assert forall|o: int| #[trigger] self.stage(block, o) is Absent by {
                assert(self.stage(block, o) == clean.stage(block, o));
            }
            assert forall|c: usize, o: int| c != block implies #[trigger] self.stage(c, o)
                == pre.stage(c, o) by {
                assert(self.stage(c, o) == clean.stage(c, o));
                assert(clean.stage(c, o) == mid.stage(c, o));
                assert(mid.stage(c, o) == pre.stage(c, o));
            }
        }
    }

    /// Removes the oldest message if it is published, for the sole consumer of this
    /// queue: it leaves no mark, and no block is ever retired.
    pub fn pop_single(&mut self, waiting: usize) -> (r: Option<(T, bool)>)
        requires
            old(self).wf(),
            old(self).is_single(),
            !old(self).in_transition(),
        ensures
            final(self).wf(),
            final(self).is_single(),
            !final(self).in_transition(),
            r is Some <==> old(self).is_ready(),
            r is None ==> *final(self) == *old(self),
            r matches Some((value, wake)) ==> {
                &&& old(self).cells()[0] == Some(value)
                &&& wake == (old(self).bound() is Some && waiting != 0)
                &&& final(self).cells() == old(self).cells().drop_first()
                &&& final(self).head_index() == position::nth(
                    position::rank(old(self).head_index()) + 1,
                )
            },
            final(self).tail_index() == old(self).tail_index(),
            final(self).bound() == old(self).bound(),
            final(self).contention() == old(self).contention(),
            final(self).block_count() == old(self).block_count(),
            final(self).last_lap() == old(self).last_lap(),
            final(self).retired() == old(self).retired(),
    {
        let ghost pre = *self;
        proof {
            assert(self.link_ok(0));
        }
        let head = self.head.index;
        let block = self.head.block;
        match self.pop_step(head, block) {
            HeadStep::Claimed(claim) => {
                let ghost claimed = *self;
                let o = offset(head);
                let value = self.take_value(&claim);
                proof {
                    position::lemma_rank(pre.head_index());
                    position::lemma_rank(pre.head_index() + 1);
                    position::lemma_nth(position::rank(pre.head_index()));
                    assert forall|q: int|
                        0 <= q < 63 && 64 * self.first_lap() + q
                            < self.head_index() implies #[trigger] self.stage(
                        self.chain()[0],
                        q,
                    ) is Moved by {
                        if q != o {
                            assert(self.stage(block, q) == claimed.stage(block, q));
                            assert(claimed.stage(block, q) == pre.stage(block, q));
                        }
                    }
                }
                let wake = self.capacity.is_some() && waiting != 0;
                if o + 1 == BLOCK_CAP {
                    self.recycle_single(block);
                }
                Some((value, wake))
            },
            _ => None,
        }
    }

    /// Number of messages that one batch of the sole consumer takes: the published ones
    /// at the front, within the block at the head, and at most `limit`.
    pub open spec fn batch_len(self, limit: usize) -> nat {
        let room = 63 - position::offset_of(self.head_index());
        ready_prefix(
            self.cells(),
            if limit < room {
                limit as nat
            } else {
                room as nat
            },
        )
    }

    /// Moves published messages from the front of the queue to the end of `buffer`, for
    /// the sole consumer; returns how many, and how many waiting senders to wake.
    pub fn pop_single_batch(&mut self, buffer: &mut Vec<T>, limit: usize, waiting: usize) -> (r: (
        usize,
        usize,
    ))
        requires
            old(self).wf(),
            old(self).is_single(),
            !old(self).in_transition(),
        ensures
            final(self).wf(),
            final(self).is_single(),
            !final(self).in_transition(),
            r.0 == old(self).batch_len(limit),
            r.0 <= limit,
            r.0 <= old(self).cells().len(),
            r.0 == 0 <==> limit == 0 || !old(self).is_ready(),
            r.1 == (if old(self).bound() is None {
                0
            } else if waiting < r.0 {
                waiting
            } else {
                r.0
            }),
            r.0 == 0 ==> *final(self) == *old(self),
            final(buffer)@ == old(buffer)@ + Seq::new(
                r.0 as nat,
                |i: int| old(self).cells()[i]->0,
            ),
            final(self).cells() == old(self).cells().skip(r.0 as int),
            final(self).head_index() == position::nth(
                position::rank(old(self).head_index()) + r.0,
            ),
            final(self).tail_index() == old(self).tail_index(),
            final(self).bound() == old(self).bound(),
            final(self).contention() == old(self).contention(),
            final(self).block_count() == old(self).block_count(),
            final(self).last_lap() == old(self).last_lap(),
            final(self).retired() == old(self).retired(),
    {
        let ghost pre = *self;
        let ghost initial = buffer@;
        let head = self.head.index;
        let block = self.head.block;
        let o = offset(head);
        proof {
            assert(self.link_ok(0));
            assert(self.block(block).shaped());
            self.lemma_head_slot();
            position::lemma_rank(self.head_index());
            assert(self.cells().skip(0) =~= self.cells());
        }
        if limit == 0 || self.blocks[block].slots[o].state != written_tag(lap(head)) {
            assert(buffer@ =~= initial + Seq::new(0, |i: int| pre.cells()[i]->0));
            return (0, 0);
        }
        let max: usize = if limit < BLOCK_CAP - o {
            limit
        } else {
            BLOCK_CAP - o
        };
        buffer.reserve(max);
        let mut count: usize = 0;
        assert(buffer@ =~= initial + Seq::new(0, |i: int| pre.cells()[i]->0));
        while count < max
            invariant_except_break
                ready_prefix(pre.cells(), max as nat) == count + ready_prefix(
                    self.cells(),
                    (max - count) as nat,
                ),
            invariant
                pre == *old(self),
                pre.wf(),
                !pre.in_transition(),
                head == pre.head_index(),
                block == pre.chain()[0],
                block < self.block_count(),
                o == position::offset_of(head as int),
                0 < max,
                o + max <= 63,
                count <= max,
                pre.is_ready(),
                self.wf(),
                self.is_single(),
                self.head_index() == head + count,
                self.tail_index() == pre.tail_index(),
                self.bound() == pre.bound(),
                self.contention() == pre.contention(),
                self.chain() == pre.chain(),
                self.first_lap() == pre.first_lap(),
                self.block_count() == pre.block_count(),
                self.retired() == pre.retired(),
                count <= pre.cells().len(),
                self.cells() == pre.cells().skip(count as int),
                buffer@ == initial + Seq::new(count as nat, |i: int| pre.cells()[i]->0),
            ensures
                count == ready_prefix(pre.cells(), max as nat),
            decreases max - count,
        {
            let ghost mid = *self;
            let at: usize = head + count;
            match self.pop_step(at, block) {
                HeadStep::Claimed(claim) => {
                    let ghost claimed = *self;
                    proof {
                        assert(mid.cells()[0] == pre.cells()[count as int]);
                    }
                    let value = self.take_value(&claim);
                    buffer.push(value);
                    count += 1;
                    proof {
                        assert(self.cells() =~= pre.cells().skip(count as int));
                        assert(buffer@ =~= initial + Seq::new(
                            count as nat,
                            |i: int| pre.cells()[i]->0,
                        ));
                        assert forall|q: int|
                            0 <= q < 63 && 64 * self.first_lap() + q
                                < self.head_index() implies #[trigger] self.stage(
                            self.chain()[0],
                            q,
                        ) is Moved by {
                            if q != position::offset_of(at as int) {
                                assert(self.stage(block, q) == claimed.stage(block, q));
                                assert(claimed.stage(block, q) == mid.stage(block, q));
                            }
                        }
                    }
                },
                _ => {
                    break;
                },
            }
        }
        proof {
            lemma_ready_prefix(pre.cells(), max as nat);
            position::lemma_nth(position::rank(pre.head_index()));
            assert(position::rank(pre.head_index()) == 63 * pre.first_lap() + o);
            position::lemma_nth(position::rank(pre.head_index()) + count);
        }
        if o + count == BLOCK_CAP {
            self.recycle_single(block);
        }
        let wake = if self.capacity.is_none() {
            0
        } else if waiting < count {
            waiting
        } else {
            count
        };
        (count, wake)
    }

    // ------------------------------------------------------------ observation

    /// The capacity, `None` where there is no bound.
    pub fn capacity(&self) -> (r: Option<usize>)
        ensures
            r == self.bound(),
    {
        self.capacity
    }

    /// Whether another claim stays within the range of positions.
    pub fn can_claim(&self) -> (r: bool)
        ensures
            r == self.has_room(),
    {
        self.tail.index <= usize::MAX - 128
    }

    /// The tail, as seen by a receiver that is counted among the waiting ones: every
    /// producer that claims a position from here on sees that somebody waits.
    pub fn receiver_parking(&self) -> (r: usize)
        ensures
            r == self.tail_index(),
    {
        self.tail.index
    }

    /// Whether positions below a tail seen earlier are claimed and not received yet.
    pub fn claims_below(&self, tail_snapshot: usize) -> (r: bool)
        ensures
            r <==> position::message_positions(self.head_index(), tail_snapshot as int) != 0,
            self.wf() && tail_snapshot == self.tail_index() ==> (r <==> self.cells().len() != 0),
    {
        items_between(self.head.index, tail_snapshot) != 0
    }

    /// Whether no message is claimed by a producer and left to be received.
    pub fn is_empty(&self) -> (r: bool)
        requires
            self.wf(),
        ensures
            r <==> self.cells().len() == 0,
    {
        items_between(self.head.index, self.tail.index) == 0
    }

    /// The length that two separate looks at head and tail add up to. An old head and a
    /// newer tail can lie further apart than the queue ever held; the result stays
    /// within the capacity all the same.
    pub fn observed_len(&self, head: usize, tail: usize) -> (r: usize)
        ensures
            r == (match self.bound() {
                Some(c) if position::message_positions(head as int, tail as int) > c => c as nat,
                _ => position::message_positions(head as int, tail as int),
            }),
            within(r as int, self.bound()),
    {
        let n = items_between(head, tail);
        match self.capacity {
            Some(c) if n > c => c,
            _ => n,
        }
    }

    /// Number of messages in the queue.
    pub fn len(&self) -> (r: usize)
        requires
            self.wf(),
        ensures
            r == self.cells().len(),
            within(r as int, self.bound()),
    {
        proof {
            position::lemma_message_positions(self.head_index(), self.tail_index());
        }
        self.observed_len(self.head.index, self.tail.index)
    }

    /// The head and its block, as a consumer sees them.
    pub fn head_position(&self) -> (r: (usize, usize))
        requires
            self.wf(),
        ensures
            r.0 == self.head_index(),
            r.1 == self.chain()[0],
    {
        (self.head.index, self.head.block)
    }

    /// Number of blocks ever allocated.
    pub fn allocated(&self) -> (r: usize)
        ensures
            r == self.block_count(),
    {
        self.blocks.len()
    }

    /// The blocks that are ready for use, without the one kept aside.
    pub fn ready_blocks(&self) -> (r: Vec<usize>)
        ensures
            r@ == self.ready().contents(),
    {
        self.ready.snapshot()
    }

    /// The blocks that wait for their readers.
    pub fn retired_blocks(&self) -> (r: Vec<usize>)
        ensures
            r@ == self.retired().contents(),
    {
        self.retired.snapshot()
    }

    /// Number of pages of the pool of ready blocks.
    pub fn ready_pages(&self) -> (r: usize)
        ensures
            r == self.ready().slots().len() / 16,
    {
        self.ready.page_count()
    }

    /// The blocks reached by following `prev` from `b`, at most `k` of them.
    pub open spec fn trail(self, b: Option<usize>, k: nat) -> Seq<DumpedBlock>
        decreases k,
    {
        if k == 0 || b is None || b->0 >= self.block_count() {
            Seq::empty()
        } else {
            let at = self.block(b->0);
            seq![DumpedBlock { block: b->0, start: at.start, next: at.next }] + self.trail(
                at.prev,
                (k - 1) as nat,
            )
        }
    }

    /// Whether `r` shows this queue.
    pub open spec fn is_dump(self, r: Dump) -> bool {
        &&& r.head == self.head_index()
        &&& r.head_lap == position::lap_of(self.head_index())
        &&& r.head_offset == position::offset_of(self.head_index())
        &&& r.head_block == self.chain()[0]
        &&& r.head_start == 64 * self.first_lap()
        &&& r.head_slot_state == (if self.in_transition() {
            0
        } else {
            self.block(self.chain()[0]).slots@[position::offset_of(self.head_index())].state
        })
        &&& r.expected == position::tag(position::lap_of(self.head_index()))
        &&& r.head_contended == self.head_contention()
        &&& r.tail == self.tail_index()
        &&& r.tail_block == self.chain().last()
        &&& r.tail_start == 64 * self.last_lap()
        &&& r.tail_contended == self.contention()
        &&& r.spare == self.spare()
        &&& r.ready == self.ready().stored()
        &&& r.retired == self.retired().stored()
        &&& r.trail@ == self.trail(Some(self.chain().last()), 6)
    }

    /// A snapshot of both ends, for diagnosing a queue that does not move.
    pub fn debug_dump(&self) -> (r: Dump)
        requires
            self.wf(),
        ensures
            self.is_dump(r),
    {
        proof {
            assert(self.link_ok(0));
            assert(self.link_ok(self.chain().len() - 1));
            assert(self.block(self.chain()[0]).shaped());
        }
        let head = self.head.index;
        let o = offset(head);
        let head_slot_state: usize = if o < BLOCK_CAP {
            self.blocks[self.head.block].slots[o].state
        } else {
            0
        };
        let mut trail: Vec<DumpedBlock> = Vec::new();
        let mut at: Option<usize> = Some(self.tail.block);
        let mut left: usize = 6;
        proof {
            assert(trail@ + self.trail(at, 6) =~= self.trail(at, 6));
        }
        while left > 0
            invariant_except_break
                left <= 6,
                trail@ + self.trail(at, left as nat) == self.trail(
                    Some(self.chain().last()),
                    6,
                ),
            ensures
                trail@ == self.trail(Some(self.chain().last()), 6),
            decreases left,
        {
            let ghost before = trail@;
            match at {
                Some(b) if b < self.blocks.len() => {
                    trail.push(
                        DumpedBlock {
                            block: b,
                            start: self.blocks[b].start,
                            next: self.blocks[b].next,
                        },
                    );
                    proof {
                        let rest = self.trail(self.block(b).prev, (left - 1) as nat);
                        assert(trail@ + rest =~= before + self.trail(at, left as nat));
                    }
                    at = self.blocks[b].prev;
                },
                _ => {
                    assert(self.trail(at, left as nat) =~= Seq::empty());
                    assert(trail@ + Seq::<DumpedBlock>::empty() =~= trail@);
                    break;
                },
            }
            left -= 1;
            proof {
                if left == 0 {
                    assert(self.trail(at, 0) =~= Seq::empty());
                    assert(trail@ + Seq::<DumpedBlock>::empty() =~= trail@);
                }
            }
        }
        Dump {
            head,
            head_lap: lap(head),
            head_offset: o,
            head_block: self.head.block,
            head_start: self.blocks[self.head.block].start,
            head_slot_state,
            expected: written_tag(lap(head)),
            head_contended: self.head.contended,
            tail: self.tail.index,
            tail_block: self.tail.block,
            tail_start: self.blocks[self.tail.block].start,
            tail_contended: self.tail.contended,
            spare: self.spare,
            ready: self.ready.stored_count(),
            retired: self.retired.stored_count(),
            trail,
        }
    }

    /// Takes the queue apart and returns the published messages that nobody received,
    /// oldest first.
    pub fn into_unread(self) -> (r: Vec<T>)
        requires
            self.wf(),
        ensures
            r@ == published(self.cells()),
    {
        let ghost pre = self;
        let mut queue = self;
        let mut r: Vec<T> = Vec::new();
        let mut pos: usize = queue.head.index;
        let tail = queue.tail.index;
        let mut at: Option<usize> = Some(queue.head.block);
        proof {
            assert(pre.link_ok(0));
            position::lemma_rank(pre.head_index());
            position::lemma_rank(pre.tail_index());
            assert(pre.cells().take(0) =~= Seq::empty());
            if pos >= tail {
                assert(pre.cells() =~= Seq::empty());
            }
        }
        while pos < tail
            invariant_except_break
                at == (if position::lap_of(pos as int) <= pre.last_lap() {
                    Some(pre.chain()[position::lap_of(pos as int) - pre.first_lap()])
                } else {
                    None
                }),
                forall|i: int, o: int|
                    #![trigger queue.block(pre.chain()[i]).slots@[o]]
                    0 <= i < pre.chain().len() && 0 <= o < 63 && 64 * (pre.first_lap() + i) + o
                        >= pos ==> queue.block(pre.chain()[i]).slots@[o] == pre.block(
                        pre.chain()[i],
                    ).slots@[o],
            invariant
                pre.wf(),
                tail == pre.tail_index(),
                pos <= tail || pos == pre.head_index(),
                pre.head_index() <= pos,
                queue.block_count() == pre.block_count(),
                forall|c: usize|
                    c < pre.block_count() ==> (#[trigger] queue.block(c)).shaped()
                        && queue.block(c).next == pre.block(c).next,
                0 <= pre.place(pos as int),
                pos <= tail ==> pre.place(pos as int) <= pre.cells().len(),
                r@ == published(pre.cells().take(pre.place(pos as int))),
                pos >= tail ==> r@ == published(pre.cells()),
            ensures
                r@ == published(pre.cells()),
            decreases tail - pos,
        {
            let ghost k = pre.place(pos as int);
            proof {
                position::lemma_rank(pos as int);
                position::lemma_rank_monotonic(pos as int, tail as int);
                position::lemma_rank_monotonic(pos + 1, tail as int);
            }
            match at {
                None => {
                    proof {
                        assert forall|i: int| k <= i < pre.cells().len() implies #[trigger] pre.cells()[i]
                            is None by {
                            let p = position::nth(position::rank(pre.head_index()) + i);
                            position::lemma_nth(position::rank(pre.head_index()) + i);
                            if p < pos {
                                position::lemma_rank_monotonic(p, pos as int);
                            }
                        }
                        lemma_nothing_published(pre.cells(), k);
                    }
                    break;
                },
                Some(b) => {
                    let o = offset(pos);
                    let ghost i = position::lap_of(pos as int) - pre.first_lap();
                    proof {
                        assert(pre.link_ok(i));
                    }
                    if o == BLOCK_CAP {
                        at = queue.blocks[b].next;
                        proof {
                            assert(pre.place(pos + 1) == k);
                        }
                    } else {
                        proof {
                            assert(pre.slot_ok(i, o as int));
                            assert(queue.block(b).slots@[o as int] == pre.block(b).slots@[o as int]);
                            assert(pre.cells()[k] == pre.cell(pos as int));
                            assert(pre.cells().take(k + 1).drop_last() =~= pre.cells().take(k));
                        }
                        let ghost before = queue;
                        if queue.blocks[b].slots[o].state == written_tag(lap(pos)) {
                            let value = queue.blocks[b].slots[o].value.take();
                            r.push(value.unwrap());
                        }
                        proof {
                            assert forall|j: int, q: int|
                                #![trigger queue.block(pre.chain()[j]).slots@[q]]
                                0 <= j < pre.chain().len() && 0 <= q < 63 && 64 * (pre.first_lap()
                                    + j) + q >= pos + 1 implies queue.block(pre.chain()[j]).slots@[q]
                                == pre.block(pre.chain()[j]).slots@[q] by {
                                assert(pre.slot_ok(j, q));
                                assert(pre.link_ok(j));
                                assert(before.block(pre.chain()[j]).slots@[q] == pre.block(
                                    pre.chain()[j],
                                ).slots@[q]);
                                if pre.chain()[j] == b {
                                    assert(j == i);
                                }
                            }
                            assert forall|c: usize| c < pre.block_count() implies (
                            #[trigger] queue.block(c)).shaped() && queue.block(c).next == pre.block(
                                c,
                            ).next by {
                                assert(before.block(c).shaped());
                            }
                        }
                    }
                    pos += 1;
                },
            }
            proof {
                if pos == tail {
                    assert(pre.cells().take(pre.cells().len() as int) =~= pre.cells());
                }
            }
        }
        r
    }

    /// A queue whose first block was not read yet can be read by a sole consumer.
    pub proof fn lemma_fresh(self)
        requires
            self.wf(),
            self.head_index() == 0,
        ensures
            self.is_single(),
    {
        assert(self.link_ok(0));
    }

    /// What leaves the consumers' end alone leaves a sole consumer alone.
    pub proof fn lemma_single_kept(self, post: Self)
        requires
            self.is_single(),
            post.head_index() == self.head_index(),
            post.first_lap() == self.first_lap(),
            post.chain()[0] == self.chain()[0],
            post.same_readers(self),
        ensures
            post.is_single(),
    {
        assert forall|o: int|
            0 <= o < 63 && 64 * post.first_lap() + o < post.head_index() implies #[trigger] post.stage(
            post.chain()[0],
            o,
        ) is Moved by {
            assert(self.stage(self.chain()[0], o) is Moved);
        }
    }

    /// Where the two ends stand.
    pub proof fn lemma_ends(self)
        requires
            self.wf(),
        ensures
            0 <= self.head_index() <= self.tail_index() + 1,
            0 <= self.tail_index(),
            self.head_index() > self.tail_index() ==> position::is_sentinel(self.tail_index()),
            self.tail_index() <= usize::MAX - 63,
            self.cells().len() == position::rank(self.tail_index()) - position::rank(
                self.head_index(),
            ),
            within(self.cells().len() as int, self.bound()),
    {
        position::lemma_rank(self.tail_index());
        if self.head_index() <= self.tail_index() {
            position::lemma_rank_monotonic(self.head_index(), self.tail_index());
        }
    }
}

} // verus!
