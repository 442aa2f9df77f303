//! Blocks of message slots.
//!
//! A block serves one lap at a time. Each of its slots carries a state word tagged
//! with the lap it was last written for, so recycling a block resets no slot: a
//! state that an old lap left behind never matches the tag of a later one.
use vstd::prelude::*;

use crate::position::BLOCK_CAP;

verus! {

/// The start position of a block that serves no lap.
pub const POOLED: usize = usize::MAX;

/// One message slot.
pub struct Slot<T> {
    /// The message, from the moment it is written until it is moved out.
    pub value: Option<T>,
    /// The tag of the last lap in which the slot was written.
    pub state: usize,
}

/// A block: its place in the chain, its reader marks and its slots.
pub struct Block<T> {
    /// First position of the lap that the block serves, or [`POOLED`].
    pub start: usize,
    /// The block of the following lap.
    pub next: Option<usize>,
    /// The block of the preceding lap.
    pub prev: Option<usize>,
    /// One mark for each slot, set once a reader has moved its message out.
    pub read_marks: Vec<u8>,
    /// The slots.
    pub slots: Vec<Slot<T>>,
}

impl<T> Block<T> {
    /// Every block has one mark and one slot for each message of a lap.
    pub open spec fn shaped(self) -> bool {
        &&& self.slots@.len() == 63
        &&& self.read_marks@.len() == 63
    }

    /// Whether every reader but that of the last slot has left its mark.
    pub open spec fn all_read(self) -> bool {
        forall|o: int| 0 <= o < 62 ==> #[trigger] self.read_marks@[o] != 0
    }

    /// A block that holds no message, bears no mark and was last written before `bound`.
    pub open spec fn clean(self, bound: int) -> bool {
        &&& self.shaped()
        &&& self.start == POOLED
        &&& forall|o: int|
            0 <= o < 63 ==> (#[trigger] self.slots@[o]).value is None && self.slots@[o].state < bound
        &&& forall|o: int| 0 <= o < 63 ==> #[trigger] self.read_marks@[o] == 0
    }

    /// A fresh block, serving no lap and linked to nothing.
    pub fn allocate() -> (r: Self)
        ensures
            r.clean(1),
            r.next is None,
            r.prev is None,
            forall|o: int| 0 <= o < 63 ==> (#[trigger] r.slots@[o]).state == 0,
    {
        let mut read_marks: Vec<u8> = Vec::new();
        let mut slots: Vec<Slot<T>> = Vec::new();
        let mut i: usize = 0;
        while i < BLOCK_CAP
            invariant
                i <= BLOCK_CAP,
                read_marks@.len() == i,
                slots@.len() == i,
                forall|o: int| 0 <= o < i ==> #[trigger] read_marks@[o] == 0,
                forall|o: int|
                    0 <= o < i ==> (#[trigger] slots@[o]).value is None && slots@[o].state == 0,
            decreases BLOCK_CAP - i,
        {
            read_marks.push(0);
            slots.push(Slot { value: None, state: 0 });
            i += 1;
        }
        Block { start: POOLED, next: None, prev: None, read_marks, slots }
    }

    /// Whether every reader but that of the last slot has finished. The last slot
    /// belongs to the consumer that retires the block.
    pub fn readers_done(&self) -> (r: bool)
        requires
            self.shaped(),
        ensures
            r == self.all_read(),
    {
        let mut i: usize = 0;
        while i < BLOCK_CAP - 1
            invariant
                i <= 62,
                self.shaped(),
                forall|o: int| 0 <= o < i ==> #[trigger] self.read_marks@[o] != 0,
            decreases BLOCK_CAP - i,
        {
            if self.read_marks[i] == 0 {
                return false;
            }
            i += 1;
        }
        true
    }

    /// Clears the marks and takes the block out of service. The links stay as they
    /// are, for walkers that still follow them.
    pub fn reset(&mut self)
        requires
            old(self).shaped(),
        ensures
            final(self).start == POOLED,
            final(self).next == old(self).next,
            final(self).prev == old(self).prev,
            final(self).slots@ == old(self).slots@,
            final(self).read_marks@ == Seq::new(63, |i: int| 0u8),
    {
        let mut i: usize = 0;
        while i < BLOCK_CAP
            invariant
                i <= 63,
                self.shaped(),
                self.next == old(self).next,
                self.prev == old(self).prev,
                self.slots@ == old(self).slots@,
                forall|o: int| 0 <= o < i ==> #[trigger] self.read_marks@[o] == 0,
            decreases BLOCK_CAP - i,
        {
            self.read_marks[i] = 0;
            i += 1;
        }
        self.start = POOLED;
        assert(self.read_marks@ =~= Seq::new(63, |i: int| 0u8));
    }
}

} // verus!
