//! Positions in the stream of messages.
//!
//! Messages live in blocks. A block covers one *lap* of [`LAP`] consecutive
//! positions; the last position of every lap is a sentinel that never holds a
//! message, so a block has [`BLOCK_CAP`] slots. Positions grow for as long as the
//! queue lives. The *rank* of a position is the number of message positions below
//! it: ranks number the messages themselves, without the gaps that sentinels leave.
use vstd::prelude::*;

verus! {

/// Positions per lap.
pub const LAP: usize = 64;

/// Messages per block; the remaining position of a lap is its sentinel.
pub const BLOCK_CAP: usize = 63;

/// The lap of a position.
pub open spec fn lap_of(pos: int) -> int {
    pos / 64
}

/// The offset of a position inside its lap.
pub open spec fn offset_of(pos: int) -> int {
    pos % 64
}

/// Whether a position is the sentinel that closes its lap.
pub open spec fn is_sentinel(pos: int) -> bool {
    pos % 64 == 63
}

/// Number of message positions below `pos`.
pub open spec fn rank(pos: int) -> int {
    pos - pos / 64
}

/// The message position of a given rank.
pub open spec fn nth(k: int) -> int {
    k + k / 63
}

/// The tag that a slot carries once the message of lap `lap` is in it.
pub open spec fn tag(lap: int) -> int {
    4 * lap + 1
}

/// Number of message positions `p` with `head <= p < tail`.
pub open spec fn message_positions(head: int, tail: int) -> nat
    decreases tail - head,
{
    if head >= tail {
        0
    } else {
        message_positions(head, tail - 1) + (if is_sentinel(tail - 1) {
            0nat
        } else {
            1nat
        })
    }
}

/// Counting message positions one by one agrees with subtracting ranks.
pub proof fn lemma_message_positions(head: int, tail: int)
    requires
        0 <= head,
    ensures
        head <= tail ==> message_positions(head, tail) == rank(tail) - rank(head),
        head >= tail ==> message_positions(head, tail) == 0,
    decreases tail - head,
{
    if head < tail {
        lemma_message_positions(head, tail - 1);
    }
}

/// Ranks and message positions are inverse to each other.
pub proof fn lemma_nth(k: int)
    requires
        0 <= k,
    ensures
        rank(nth(k)) == k,
        !is_sentinel(nth(k)),
        lap_of(nth(k)) == k / 63,
        offset_of(nth(k)) == k % 63,
        nth(k + 1) == nth(k) + (if k % 63 == 62 {
            2int
        } else {
            1int
        }),
{
    assert(nth(k) == 64 * (k / 63) + k % 63);
}

/// A message position is the one its rank names.
pub proof fn lemma_rank(p: int)
    requires
        0 <= p,
    ensures
        rank(p) >= 0,
        !is_sentinel(p) ==> nth(rank(p)) == p,
        is_sentinel(p) ==> nth(rank(p)) == p + 1,
        rank(p + 1) == rank(p) + (if is_sentinel(p) {
            0int
        } else {
            1int
        }),
{
    assert(rank(p) == 63 * (p / 64) + p % 64);
    if is_sentinel(p) {
        assert(rank(p) == 63 * (p / 64 + 1));
    }
}

/// Ranks never decrease along the stream.
pub proof fn lemma_rank_monotonic(p: int, q: int)
    requires
        0 <= p <= q,
    ensures
        rank(p) <= rank(q),
        rank(q) - rank(p) <= q - p,
        p < q && !is_sentinel(p) ==> rank(p) < rank(q),
{
}

/// The lap a position belongs to.
pub fn lap(pos: usize) -> (r: usize)
    ensures
        r == lap_of(pos as int),
{
    pos / LAP
}

/// The offset of a position inside its lap.
pub fn offset(pos: usize) -> (r: usize)
    ensures
        r == offset_of(pos as int),
        r < LAP,
{
    pos % LAP
}

/// The first position of the lap that `pos` belongs to.
pub fn lap_start(pos: usize) -> (r: usize)
    ensures
        r == lap_of(pos as int) * 64,
        r <= pos,
        pos - r < 64,
{
    pos - pos % LAP
}

/// The state word of a slot that holds the message of lap `lap`.
///
/// The two low bits tell a written slot apart; the lap sits above them, so a state
/// that an earlier lap left behind never equals the one that a later lap expects.
pub fn written_tag(lap: usize) -> (r: usize)
    ensures
        r == (lap << 2) | 1,
        lap <= usize::MAX / 4 ==> r == tag(lap as int),
{
    let r: usize = (lap << 2) | 1;
    assert(lap <= 0x3fff_ffff && usize::BITS == 32 ==> r == 4 * lap + 1) by (bit_vector)
        requires
            r == (lap << 2) | 1usize,
    ;
    assert(lap <= 0x3fff_ffff_ffff_ffff && usize::BITS == 64 ==> r == 4 * lap + 1) by (bit_vector)
        requires
            r == (lap << 2) | 1usize,
    ;
    r
}

/// Number of message positions in `[head, tail)`, sentinels not counted.
pub fn items_between(head: usize, tail: usize) -> (r: usize)
    ensures
        r == message_positions(head as int, tail as int),
        head <= tail ==> r == rank(tail as int) - rank(head as int),
        head > tail ==> r == 0,
{
    proof {
        lemma_message_positions(head as int, tail as int);
    }
    if head >= tail {
        0
    } else {
        (tail - head) - (tail / LAP - head / LAP)
    }
}

} // verus!
