//! Blocks outside the live chain.
//!
//! A pool is a row of slots, each of which holds the name of one block or nothing.
//! The row grows by whole pages and never shrinks. A block is taken by emptying its
//! slot and published by filling an empty one, so a block that sits in the pool has
//! exactly one slot, and whoever takes it is its only owner.
use vstd::prelude::*;

use crate::ring;

verus! {

/// Slots in one pool page.
pub const POOL_PAGE_SLOTS: usize = 16;

/// Slots that one take visits before it gives up and lets its caller allocate.
pub const POOL_SCAN_BUDGET: usize = 64;

/// Whether a slot of the row holds a block.
pub open spec fn occupied(s: Seq<Option<usize>>) -> spec_fn(int) -> bool {
    |i: int| s[i] is Some
}

/// Whether a slot of the row is empty.
pub open spec fn vacant(s: Seq<Option<usize>>) -> spec_fn(int) -> bool {
    |i: int| s[i] is None
}

/// A page of empty slots.
pub open spec fn empty_page() -> Seq<Option<usize>> {
    Seq::new(16, |i: int| None::<usize>)
}

/// The first block that satisfies `done` among up to `k` blocks taken one after the
/// other from a row of slots, from a hint on.
pub open spec fn probe(
    slots: Seq<Option<usize>>,
    stored: nat,
    hint: int,
    k: nat,
    done: spec_fn(usize) -> bool,
) -> Option<usize>
    decreases k,
{
    if k == 0 || stored == 0 {
        None
    } else {
        match ring::find(slots.len() as int, hint, 64, occupied(slots)) {
            None => None,
            Some(i) => if done(slots[i]->0) {
                slots[i]
            } else {
                probe(slots.update(i, None), (stored - 1) as nat, i, (k - 1) as nat, done)
            },
        }
    }
}

/// A pool of blocks, each named by its number.
pub struct BlockPool {
    slots: Vec<Option<usize>>,
    stored: usize,
    take_hint: usize,
    put_hint: usize,
}

impl BlockPool {
    /// The row of slots, page after page.
    pub closed spec fn slots(self) -> Seq<Option<usize>> {
        self.slots@
    }

    /// Number of blocks that the pool says it holds.
    pub closed spec fn stored(self) -> nat {
        self.stored as nat
    }

    /// Where the next take starts its scan.
    pub closed spec fn take_hint(self) -> int {
        self.take_hint as int
    }

    /// Where the next publication starts its scan.
    pub closed spec fn put_hint(self) -> int {
        self.put_hint as int
    }

    /// Whether the pool holds block `b`.
    pub open spec fn holds(self, b: usize) -> bool {
        exists|i: int| 0 <= i < self.slots().len() && self.slots()[i] == Some(b)
    }

    /// No block sits in two slots, the count is exact and both hints name a slot.
    pub open spec fn wf(self) -> bool {
        &&& 16 <= self.slots().len()
        &&& self.slots().len() % 16 == 0
        &&& 0 <= self.take_hint() < self.slots().len()
        &&& 0 <= self.put_hint() < self.slots().len()
        &&& self.stored() == ring::count_where(self.slots(), |o: Option<usize>| o is Some)
        &&& forall|i: int, j: int|
            0 <= i < self.slots().len() && 0 <= j < self.slots().len() && i != j
                && #[trigger] self.slots()[i] is Some ==> self.slots()[i] != #[trigger] self.slots()[j]
    }

    /// The slot that the next take empties, if its scan finds one.
    pub open spec fn next_take(self) -> Option<int> {
        if self.stored() == 0 {
            None
        } else {
            ring::find(self.slots().len() as int, self.take_hint(), 64, occupied(self.slots()))
        }
    }

    /// The slot that the next publication fills, if there is an empty one.
    pub open spec fn next_put(self) -> Option<int> {
        ring::find(
            self.slots().len() as int,
            self.put_hint(),
            self.slots().len(),
            vacant(self.slots()),
        )
    }

    /// A pool of one page with nothing in it.
    pub fn new() -> (r: Self)
        ensures
            r.wf(),
            r.slots() == empty_page(),
            r.stored() == 0,
            r.take_hint() == 0,
            r.put_hint() == 0,
    {
        let mut slots: Vec<Option<usize>> = Vec::new();
        Self::append_page(&mut slots);
        let r = BlockPool { slots, stored: 0, take_hint: 0, put_hint: 0 };
        proof {
            assert(r.slots() =~= empty_page());
            ring::lemma_count_zero(r.slots(), |o: Option<usize>| o is Some);
        }
        r
    }

    /// Adds a page of empty slots at the end of the row.
    fn append_page(slots: &mut Vec<Option<usize>>)
        ensures
            final(slots)@ == old(slots)@ + empty_page(),
    {
        let ghost before = slots@;
        let mut i: usize = 0;
        while i < POOL_PAGE_SLOTS
            invariant
                i <= POOL_PAGE_SLOTS,
                slots@ == before + Seq::new(i as nat, |j: int| None::<usize>),
            decreases POOL_PAGE_SLOTS - i,
        {
            slots.push(None);
            i += 1;
            assert(slots@ =~= before + Seq::new(i as nat, |j: int| None::<usize>));
        }
    }

    /// Number of pages that the pool has grown to.
    pub fn page_count(&self) -> (r: usize)
        ensures
            r == self.slots().len() / 16,
    {
        self.slots.len() / POOL_PAGE_SLOTS
    }

    /// Number of blocks in the pool.
    pub fn stored_count(&self) -> (r: usize)
        ensures
            r == self.stored(),
    {
        self.stored
    }

    /// Every block in the pool, in slot order.
    pub open spec fn contents(self) -> Seq<usize> {
        self.slots().filter(|o: Option<usize>| o is Some).map_values(|o: Option<usize>| o->0)
    }

    /// Every block in the pool, in slot order.
    pub fn snapshot(&self) -> (r: Vec<usize>)
        ensures
            r@ == self.contents(),
    {
        let mut r: Vec<usize> = Vec::new();
        let mut i: usize = 0;
        let ghost keep = |o: Option<usize>| o is Some;
        let ghost name = |o: Option<usize>| o->0;
        assert(self.slots@.take(0) =~= Seq::empty());
        proof {
            reveal(Seq::filter);
        }
        assert(r@ =~= self.slots@.take(0).filter(keep).map_values(name));
        while i < self.slots.len()
            invariant
                i <= self.slots@.len(),
                r@ == self.slots@.take(i as int).filter(keep).map_values(name),
                keep == (|o: Option<usize>| o is Some),
                name == (|o: Option<usize>| o->0),
            decreases self.slots@.len() - i,
        {
            proof {
                reveal(Seq::filter);
                assert(self.slots@.take(i + 1).drop_last() =~= self.slots@.take(i as int));
                assert(self.slots@.take(i + 1).last() == self.slots@[i as int]);
            }
            if let Some(b) = self.slots[i] {
                r.push(b);
            }
            i += 1;
            assert(r@ =~= self.slots@.take(i as int).filter(keep).map_values(name));
        }
        assert(self.slots@.take(i as int) =~= self.slots@);
        r
    }

    /// Restores the place where takes start, as a taker that was paused before it
    /// recorded its own place does.
    pub fn set_take_hint(&mut self, slot: usize)
        requires
            old(self).wf(),
            slot < old(self).slots().len(),
        ensures
            final(self).wf(),
            final(self).slots() == old(self).slots(),
            final(self).stored() == old(self).stored(),
            final(self).put_hint() == old(self).put_hint(),
            final(self).take_hint() == slot,
    {
        self.take_hint = slot;
    }

    /// Takes one block out of the pool, or finds none within the scan budget.
    ///
    /// A pool that holds nothing is not scanned at all. A scan that misses still
    /// moves the hint, so that later takes reach slots further on.
    pub fn take(&mut self) -> (r: Option<usize>)
        requires
            old(self).wf(),
        ensures
            final(self).wf(),
            final(self).put_hint() == old(self).put_hint(),
            old(self).next_take() matches Some(i) ==> {
                &&& 0 <= i < old(self).slots().len()
                &&& old(self).slots()[i] is Some
                &&& r == old(self).slots()[i]
                &&& final(self).slots() == old(self).slots().update(i, None)
                &&& final(self).stored() == old(self).stored() - 1
                &&& final(self).take_hint() == i
            },
            old(self).next_take() is None ==> {
                &&& r is None
                &&& final(self).slots() == old(self).slots()
                &&& final(self).stored() == old(self).stored()
                &&& final(self).take_hint() == (if old(self).stored() == 0 {
                    old(self).take_hint()
                } else {
                    ring::walk(old(self).slots().len() as int, old(self).take_hint(), 64)
                })
            },
            r matches Some(b) ==> {
                &&& old(self).holds(b)
                &&& forall|c: usize| #[trigger]
                    final(self).holds(c) <==> old(self).holds(c) && c != b
            },
            r is None ==> forall|c: usize| #[trigger] final(self).holds(c) <==> old(self).holds(c),
    {
        if self.stored == 0 {
            return None;
        }
        let n = self.slots.len();
        let mut slot: usize = self.take_hint;
        let mut visited: usize = 0;
        let ghost f = occupied(self.slots@);
        while visited < POOL_SCAN_BUDGET
            invariant
                *self == *old(self),
                self.wf(),
                self.stored != 0,
                n == self.slots@.len(),
                0 <= slot < n,
                visited <= POOL_SCAN_BUDGET,
                f == occupied(self.slots@),
                ring::find(n as int, self.take_hint as int, 64, f) == ring::find(
                    n as int,
                    slot as int,
                    (64 - visited) as nat,
                    f,
                ),
                ring::walk(n as int, self.take_hint as int, 64) == ring::walk(
                    n as int,
                    slot as int,
                    (64 - visited) as nat,
                ),
            decreases POOL_SCAN_BUDGET - visited,
        {
            if let Some(b) = self.slots[slot] {
                proof {
                    ring::lemma_count_update(self.slots@, |o: Option<usize>| o is Some, slot as int, None);
                    ring::lemma_count_zero(self.slots@, |o: Option<usize>| o is Some);
                }
                self.slots[slot] = None;
                self.take_hint = slot;
                self.stored -= 1;
                proof {
                    assert(old(self).slots()[slot as int] == Some(b));
                    assert forall|c: usize| #[trigger]
                        self.holds(c) <==> old(self).holds(c) && c != b by {
                        if old(self).holds(c) && c != b {
                            let j = choose|j: int|
                                0 <= j < old(self).slots().len() && old(self).slots()[j] == Some(c);
                            assert(self.slots()[j] == Some(c));
                        }
                        if self.holds(c) {
                            let j = choose|j: int|
                                0 <= j < self.slots().len() && self.slots()[j] == Some(c);
                            assert(old(self).slots()[j] == Some(c));
                        }
                    }
                }
                return Some(b);
            }
            visited += 1;
            slot = if slot + 1 == n {
                0
            } else {
                slot + 1
            };
        }
        self.take_hint = slot;
        assert forall|c: usize| #[trigger] self.holds(c) <==> old(self).holds(c) by {
            assert(self.slots() == old(self).slots());
        }
        None
    }

    /// Publishes a block that its caller owns and gives that ownership up.
    ///
    /// Where every slot is taken the row grows by a page first.
    pub fn put(&mut self, block: usize)
        requires
            old(self).wf(),
            !old(self).holds(block),
        ensures
            final(self).wf(),
            final(self).take_hint() == old(self).take_hint(),
            final(self).stored() == old(self).stored() + 1,
            old(self).next_put() matches Some(i) ==> {
                &&& 0 <= i < old(self).slots().len()
                &&& final(self).slots() == old(self).slots().update(i, Some(block))
                &&& final(self).put_hint() == i
            },
            old(self).next_put() is None ==> {
                &&& final(self).slots() == (old(self).slots() + empty_page()).update(
                    old(self).slots().len() as int,
                    Some(block),
                )
                &&& final(self).put_hint() == old(self).slots().len()
            },
            forall|c: usize| #[trigger]
                final(self).holds(c) <==> old(self).holds(c) || c == block,
    {
        let n = self.slots.len();
        let mut slot: usize = self.put_hint;
        let mut visited: usize = 0;
        let ghost f = vacant(self.slots@);
        while visited < n && self.slots[slot].is_some()
            invariant
                *self == *old(self),
                self.wf(),
                n == self.slots@.len(),
                0 <= slot < n,
                visited <= n,
                f == vacant(self.slots@),
                ring::find(n as int, self.put_hint as int, n as nat, f) == ring::find(
                    n as int,
                    slot as int,
                    (n - visited) as nat,
                    f,
                ),
            decreases n - visited,
        {
            visited += 1;
            slot = if slot + 1 == n {
                0
            } else {
                slot + 1
            };
        }
        if visited == n {
            slot = n;
            self.grow();
        }
        proof {
            ring::lemma_count_update(self.slots@, |o: Option<usize>| o is Some, slot as int, Some(block));
            ring::lemma_count_bounds(
                self.slots@.update(slot as int, Some(block)),
                |o: Option<usize>| o is Some,
            );
        }
        let ghost row = self.slots();
        self.slots[slot] = Some(block);
        assert(self.slots.len() == self.slots@.len());
        self.stored += 1;
        self.put_hint = slot;
        proof {
            assert forall|j: int| 0 <= j < row.len() implies #[trigger] row[j] != Some(block) by {
                if j < n {
                    assert(row[j] == old(self).slots()[j]);
                }
            }
            assert forall|c: usize| #[trigger]
                self.holds(c) <==> old(self).holds(c) || c == block by {
                if old(self).holds(c) {
                    let j = choose|j: int|
                        0 <= j < old(self).slots().len() && old(self).slots()[j] == Some(c);
                    assert(self.slots()[j] == Some(c));
                }
                if c == block {
                    assert(self.slots()[slot as int] == Some(c));
                }
                if self.holds(c) && c != block {
                    let j = choose|j: int|
                        0 <= j < self.slots().len() && self.slots()[j] == Some(c);
                    assert(row[j] == Some(c));
                    assert(old(self).slots()[j] == Some(c));
                }
            }
        }
    }

    /// Appends one page of empty slots.
    fn grow(&mut self)
        requires
            old(self).wf(),
        ensures
            final(self).wf(),
            final(self).slots() == old(self).slots() + empty_page(),
            final(self).stored() == old(self).stored(),
            final(self).take_hint() == old(self).take_hint(),
            final(self).put_hint() == old(self).slots().len(),
    {
        let n = self.slots.len();
        Self::append_page(&mut self.slots);
        self.put_hint = n;
        proof {
            ring::lemma_count_add(old(self).slots@, empty_page(), |o: Option<usize>| o is Some);
            ring::lemma_count_zero(empty_page(), |o: Option<usize>| o is Some);
        }
    }
}

} // verus!
