use std::cell::Cell;
use std::rc::Rc;

use rapidfire::block::POOLED;
use rapidfire::pool::BlockPool;
use rapidfire::pool::POOL_PAGE_SLOTS;
use rapidfire::pool::POOL_SCAN_BUDGET;
use rapidfire::position::items_between;
use rapidfire::position::lap;
use rapidfire::position::lap_start;
use rapidfire::position::offset;
use rapidfire::position::written_tag;
use rapidfire::position::BLOCK_CAP;
use rapidfire::position::LAP;
use rapidfire::queue::BoundedClaim;
use rapidfire::queue::CasClaim;
use rapidfire::queue::HeadStep;
use rapidfire::queue::Queue;
use rapidfire::queue::ReadClaim;
use rapidfire::queue::CONTENTION_WINDOW;
use rapidfire::queue::RETIRED_PROBES;

/// A backlog that recycles more blocks than one pool page holds.
const MULTI_PAGE_VALUES: usize = (POOL_PAGE_SLOTS + 4) * BLOCK_CAP;

struct Counted(Rc<Cell<usize>>);

impl Drop for Counted {
    fn drop(&mut self) {
        self.0.set(self.0.get() + 1);
    }
}

fn unique(blocks: &[usize]) -> bool {
    let mut sorted = blocks.to_vec();
    sorted.sort_unstable();
    let len = sorted.len();
    sorted.dedup();
    sorted.len() == len
}

/// Claims the message at the head and stops there.
fn pause_reader<T>(q: &mut Queue<T>) -> ReadClaim {
    let (head, block) = q.head_position();
    match q.pop_step(head, block) {
        HeadStep::Claimed(claim) => claim,
        _ => panic!("nothing to claim"),
    }
}

#[test]
fn items_between_skips_sentinels() {
    assert_eq!(items_between(0, 0), 0);
    assert_eq!(items_between(0, BLOCK_CAP), BLOCK_CAP);
    assert_eq!(items_between(0, LAP), BLOCK_CAP);
    assert_eq!(items_between(0, LAP + 1), BLOCK_CAP + 1);
    assert_eq!(items_between(BLOCK_CAP, LAP), 0);
    assert_eq!(items_between(5, 3), 0);
    assert_eq!(items_between(LAP - 2, LAP + 2), 3);
}

#[test]
fn push_pop_across_many_blocks() {
    let mut q = Queue::new(None);
    for i in 0..10 * LAP {
        q.push(i, 0).unwrap();
    }
    assert_eq!(q.len(), 10 * LAP);
    for i in 0..10 * LAP {
        assert_eq!(q.pop(0).map(|v| v.0), Some(i));
    }
    assert_eq!(q.pop(0).map(|v| v.0), None);
    assert_eq!(q.len(), 0);
}

#[test]
fn interleaved_push_pop_recycles_blocks() {
    let mut q = Queue::new(None);
    for round in 0..1000usize {
        q.push(round, 0).unwrap();
        q.push(round + 1, 0).unwrap();
        assert_eq!(q.pop(0).map(|v| v.0), Some(round));
        assert_eq!(q.pop(0).map(|v| v.0), Some(round + 1));
    }
    assert_eq!(q.pop(0).map(|v| v.0), None);
    assert!(q.ready_blocks().len() <= 1);
    assert!(q.allocated() <= 3);
}

#[test]
fn backlog_grows_and_shrinks_through_pool() {
    let mut q = Queue::new(None);
    for round in 0..3 {
        for i in 0..20 * LAP {
            q.push(round * 100_000 + i, 0).unwrap();
        }
        for i in 0..20 * LAP {
            assert_eq!(q.pop(0).map(|v| v.0), Some(round * 100_000 + i));
        }
        assert_eq!(q.pop(0).map(|v| v.0), None);
    }
    // Blocks were reused: the pool holds the ones from round 0.
    assert!(q.ready_blocks().len() >= 15);
}

#[test]
fn bounded_is_exact() {
    let mut q = Queue::new(Some(3));
    q.push(1, 0).unwrap();
    q.push(2, 0).unwrap();
    q.push(3, 0).unwrap();
    assert_eq!(q.push(4, 0), Err(4));
    assert_eq!(q.pop(0).map(|v| v.0), Some(1));
    q.push(4, 0).unwrap();
    assert_eq!(q.push(5, 0), Err(5));
    for expected in 2..=4 {
        assert_eq!(q.pop(0).map(|v| v.0), Some(expected));
    }
    assert_eq!(q.pop(0).map(|v| v.0), None);
}

#[test]
fn bounded_across_block_boundary() {
    let cap = LAP + 3;
    let mut q = Queue::new(Some(cap));
    for i in 0..cap {
        q.push(i, 0).unwrap();
    }
    assert_eq!(q.push(usize::MAX, 0), Err(usize::MAX));
    for i in 0..cap {
        assert_eq!(q.pop(0).map(|v| v.0), Some(i));
        q.push(cap + i, 0).unwrap();
        assert_eq!(q.push(usize::MAX, 0), Err(usize::MAX));
    }
}

#[test]
fn parking_snapshot_reports_claims() {
    let mut q = Queue::new(None);
    assert!(!q.claims_below(q.receiver_parking()));
    q.push(7usize, 0).unwrap();
    let tail = q.receiver_parking();
    assert!(q.claims_below(tail));
    assert_eq!(q.pop(0).map(|v| v.0), Some(7));
    assert!(!q.claims_below(tail));
}

#[test]
fn retired_block_stays_live_until_its_reader_finishes() {
    for reclaim in [false, true] {
        let mut q = Queue::new(None);
        for i in 0..LAP {
            q.push(Box::new(i), 0).unwrap();
        }

        // Pause a consumer after its claim, before it moves the first message out.
        let dump = q.debug_dump();
        assert_eq!(dump.head_slot_state, written_tag(0));
        let claim = pause_reader(&mut q);
        let block = claim.block;
        for expected in 1..LAP {
            assert_eq!(*q.pop(0).unwrap().0, expected);
        }
        for value in LAP..8 * LAP {
            q.push(Box::new(value), 0).unwrap();
            assert_eq!(*q.pop(0).unwrap().0, value);
        }
        assert_eq!(q.retired_blocks(), vec![block]);

        // The paused reader still gets its own message.
        let held = q.read_claim(claim);
        assert_eq!(*held, 0);
        drop(held);

        if reclaim {
            // No other block is ready, so the next slow allocation takes this one.
            assert!(q.ready_blocks().is_empty());
            let reused = q.take_block_slow();
            assert_eq!(reused, block);
            assert!(q.retired_blocks().is_empty());
            q.recycle(reused);
        }
        drop(q);
    }
}

#[test]
fn stalled_head_transition_returns_to_the_caller() {
    let mut q = Queue::new(None);
    for i in 0..LAP {
        q.push(i, 0).unwrap();
    }
    for expected in 0..BLOCK_CAP - 1 {
        assert_eq!(q.pop(0).unwrap().0, expected);
    }

    // Pause the last consumer between its claim and moving the head.
    let head = BLOCK_CAP - 1;
    assert_eq!(q.debug_dump().head_slot_state, written_tag(0));
    let claim = pause_reader(&mut q);
    let held = q.take_value(&claim);
    assert_eq!(held, head);
    assert!(q.pop(0).is_none());
    // A receiver must still see that there is something to come.
    assert!(q.claims_below(q.receiver_parking()));
    q.finish_block(claim);
    assert_eq!(q.pop(0).unwrap().0, BLOCK_CAP);
}

#[test]
fn drop_releases_unread_values() {
    let drops = Rc::new(Cell::new(0));
    {
        let mut q = Queue::new(None);
        for _ in 0..(3 * LAP + 7) {
            assert!(q.push(Counted(drops.clone()), 0).is_ok());
        }
        for _ in 0..(LAP + 2) {
            drop(q.pop(0));
        }
        assert_eq!(drops.get(), LAP + 2);
    }
    assert_eq!(drops.get(), 3 * LAP + 7);
}

#[test]
fn pool_spans_pages_and_reuses_every_block() {
    let mut q = Queue::new(None);
    for i in 0..MULTI_PAGE_VALUES {
        q.push(i, 0).unwrap();
    }
    for i in 0..MULTI_PAGE_VALUES {
        assert_eq!(q.pop(0).map(|v| v.0), Some(i));
    }

    assert!(q.ready_pages() >= 2, "pool did not grow a second page");
    let pooled = q.ready_blocks();
    assert!(pooled.len() > POOL_PAGE_SLOTS);
    assert!(unique(&pooled));
    let high_water = q.allocated();
    let pages = q.ready_pages();

    // An identical second round comes entirely out of the pool.
    for i in 0..MULTI_PAGE_VALUES {
        q.push(i, 0).unwrap();
    }
    assert!(q.ready_blocks().len() < pooled.len(), "no block was taken");
    for i in 0..MULTI_PAGE_VALUES {
        assert_eq!(q.pop(0).map(|v| v.0), Some(i));
    }
    assert!(unique(&q.ready_blocks()));
    assert_eq!(q.allocated(), high_water, "reuse allocated fresh blocks");
    assert_eq!(q.ready_pages(), pages, "reuse grew the pool");
}

#[test]
fn multi_page_pool_drops_every_value_exactly_once() {
    let drops = Rc::new(Cell::new(0));
    let backlog = MULTI_PAGE_VALUES / 2;
    {
        let mut q = Queue::new(None);
        for _ in 0..MULTI_PAGE_VALUES {
            assert!(q.push(Counted(drops.clone()), 0).is_ok());
        }
        for _ in 0..MULTI_PAGE_VALUES {
            drop(q.pop(0));
        }
        assert!(q.ready_pages() >= 2);
        assert_eq!(drops.get(), MULTI_PAGE_VALUES);
        for _ in 0..backlog {
            assert!(q.push(Counted(drops.clone()), 0).is_ok());
        }
    }
    assert_eq!(drops.get(), MULTI_PAGE_VALUES + backlog);
}

#[test]
fn a_stale_hint_does_not_hide_blocks_after_a_long_empty_range() {
    let mut pool = BlockPool::new();
    for block in 0..2 * POOL_SCAN_BUDGET + 1 {
        pool.put(block);
    }
    for _ in 0..2 * POOL_SCAN_BUDGET {
        pool.take().expect("populated range");
    }
    // A taker that was paused before it published its hint restores an old position.
    pool.set_take_hint(0);
    assert!(pool.take().is_none());
    assert!(pool.take().is_none());
    let last = pool.take().expect("misses must advance past the empty range");
    assert_eq!(last, 2 * POOL_SCAN_BUDGET);
}

#[test]
fn moving_a_used_pool_preserves_embedded_page_hints() {
    let mut pool = BlockPool::new();
    for block in 0..3 {
        pool.put(block);
    }
    pool.take().unwrap();
    let mut pool = Box::new(pool);
    let a = pool.take().unwrap();
    let b = pool.take().unwrap();
    assert_ne!(a, b);
    assert!(pool.take().is_none());
    pool.put(a);
    pool.put(b);
    assert_eq!(pool.stored_count(), 2);
}

#[test]
fn retired_blocks_are_owned_before_the_readers_check() {
    let mut q: Queue<usize> = Queue::new(None);
    let mut claims = Vec::new();
    let mut retired = Vec::new();
    for i in 0..RETIRED_PROBES * BLOCK_CAP {
        q.push(i, 0).unwrap();
    }
    for i in 0..RETIRED_PROBES {
        // One reader of each block stops before it moves its message out.
        let claim = pause_reader(&mut q);
        retired.push(claim.block);
        claims.push(claim);
        for o in 1..BLOCK_CAP {
            assert_eq!(q.pop(0).unwrap().0, i * BLOCK_CAP + o);
        }
    }

    // Nothing can be reclaimed: every probe hands its block back untouched.
    assert!(q.reclaim_retired().is_none());
    let mut parked = q.retired_blocks();
    parked.sort_unstable();
    let mut expected = retired.clone();
    expected.sort_unstable();
    assert_eq!(parked, expected);

    // Finish the reader of one block: exactly that one is taken, reset and handed out.
    let target = retired[RETIRED_PROBES - 1];
    let claim = claims.pop().unwrap();
    assert_eq!(q.read_claim(claim), (RETIRED_PROBES - 1) * BLOCK_CAP);
    assert_eq!(q.reclaim_retired(), Some(target));
    let left = q.retired_blocks();
    assert_eq!(left.len(), RETIRED_PROBES - 1);
    assert!(!left.contains(&target));
    q.recycle(target);

    // The others still read what they claimed.
    for (i, claim) in claims.into_iter().enumerate() {
        assert_eq!(q.read_claim(claim), i * BLOCK_CAP);
    }
}

// ------------------------------------------------------------------ positions

#[test]
fn positions_and_tags() {
    assert_eq!(lap(0), 0);
    assert_eq!(lap(63), 0);
    assert_eq!(lap(64), 1);
    assert_eq!(offset(63), 63);
    assert_eq!(offset(64), 0);
    assert_eq!(lap_start(200), 192);
    assert_eq!(written_tag(0), 1);
    assert_eq!(written_tag(5), 21);
    assert_eq!(POOLED, usize::MAX);
}

// -------------------------------------------------------------------- producers

#[test]
fn claim_order_decides_whatever_order_messages_are_published_in() {
    let mut q = Queue::new(None);
    let first = q.claim().unwrap();
    let second = q.claim().unwrap();
    assert_eq!((first, second), (0, 1));
    q.write_claim(second, "second");
    // The head waits for the first message.
    assert!(q.pop(0).is_none());
    assert_eq!(q.len(), 2);
    assert!(q.claims_below(q.receiver_parking()));
    q.write_claim(first, "first");
    assert_eq!(q.pop(0).unwrap().0, "first");
    assert_eq!(q.pop(0).unwrap().0, "second");
}

#[test]
fn a_paused_producer_of_the_last_slot_links_the_next_block() {
    let mut q = Queue::new(None);
    for i in 0..BLOCK_CAP - 1 {
        q.push(i, 0).unwrap();
    }
    assert_eq!(q.allocated(), 1);
    let last = q.claim().unwrap();
    assert_eq!(last, BLOCK_CAP - 1);
    assert_eq!(q.find_block(LAP), None);
    q.write_claim(last, BLOCK_CAP - 1);
    assert_eq!(q.allocated(), 2);
    assert_eq!(q.find_block(LAP), Some(1));
    q.push(BLOCK_CAP, 0).unwrap();
    for i in 0..LAP {
        assert_eq!(q.pop(0).unwrap().0, i);
    }
}

#[test]
fn a_block_is_found_from_wherever_the_walk_begins() {
    let mut q = Queue::new(None);
    for i in 0..4 * BLOCK_CAP {
        q.push(i, 0).unwrap();
    }
    for i in 0..BLOCK_CAP + 1 {
        assert_eq!(q.pop(0).unwrap().0, i);
    }
    // The first block has left the chain; three more and an empty one serve it now.
    let pos = 2 * LAP + 5;
    assert_eq!(q.find_block(pos), Some(2));
    assert_eq!(q.walk_back(4, pos), Some(2));
    assert_eq!(q.walk_back(3, pos), Some(2));
    assert_eq!(q.walk_back(1, pos), None);
    assert_eq!(q.walk_back(0, pos), None);
    for stale in 0..5 {
        assert_eq!(q.find_block_slow(stale, pos), Some(2));
        assert_eq!(q.find_block_slow(stale, 5 * LAP), None);
    }
}

#[test]
fn lost_claims_turn_to_compare_and_swap_and_back() {
    let mut q: Queue<usize> = Queue::new(None);
    // The tail was last seen elsewhere: others are active.
    let pos = q.claim_fetch_add_step(7).unwrap();
    q.write_claim(pos, 0);
    assert_eq!(q.debug_dump().tail_contended, CONTENTION_WINDOW);
    for i in 1..=CONTENTION_WINDOW {
        assert_eq!(q.push(i, 0), Ok(false));
        assert_eq!(q.debug_dump().tail_contended, CONTENTION_WINDOW - i);
    }
    for i in 0..=CONTENTION_WINDOW {
        assert_eq!(q.pop(0).unwrap().0, i);
    }
}

#[test]
fn stale_claims_still_get_the_next_position() {
    let mut q: Queue<usize> = Queue::new(None);
    for i in 0..BLOCK_CAP {
        q.push(i, 0).unwrap();
    }
    // The tail stands on a sentinel, and was last seen elsewhere.
    assert_eq!(q.claim_cas_from(3), LAP);
    assert_eq!(q.debug_dump().tail_contended, CONTENTION_WINDOW);
    assert_eq!(q.claim_cas_from(LAP + 1), LAP + 1);
    assert_eq!(q.debug_dump().tail_contended, CONTENTION_WINDOW - 1);
    assert_eq!(q.claim_fetch_add_from(LAP + 2), LAP + 2);
    assert_eq!(q.debug_dump().tail_contended, CONTENTION_WINDOW - 1);
    assert_eq!(q.claim_fetch_add_from(0), LAP + 3);
    assert_eq!(q.debug_dump().tail_contended, CONTENTION_WINDOW);

    let mut b: Queue<usize> = Queue::new(Some(BLOCK_CAP + 1));
    for i in 0..BLOCK_CAP {
        b.push(i, 0).unwrap();
    }
    assert_eq!(b.claim_bounded_from(0), Some(LAP));
    assert_eq!(b.claim_bounded_from(5), None);
    assert_eq!(b.claim_bounded_from(BLOCK_CAP), None);
}

#[test]
fn compare_and_swap_claims_report_what_happened() {
    let mut q: Queue<usize> = Queue::new(None);
    for i in 0..BLOCK_CAP {
        q.push(i, 0).unwrap();
    }
    // The tail stands on a sentinel.
    match q.claim_cas_step(5, false) {
        CasClaim::Lost(tail) => assert_eq!(tail, BLOCK_CAP),
        _ => panic!("stale claim"),
    }
    match q.claim_cas_step(BLOCK_CAP, true) {
        CasClaim::Skipped(next) => assert_eq!(next, LAP),
        _ => panic!("sentinel"),
    }
    match q.claim_cas_step(LAP, false) {
        CasClaim::Claimed(pos) => assert_eq!(pos, LAP),
        _ => panic!("free position"),
    }
}

#[test]
fn bounded_claims_report_what_happened() {
    let mut q: Queue<usize> = Queue::new(Some(1));
    match q.claim_bounded_step(0) {
        BoundedClaim::Claimed(pos) => q.write_claim(pos, 1),
        _ => panic!("free position"),
    }
    match q.claim_bounded_step(1) {
        BoundedClaim::Full => {},
        _ => panic!("full"),
    }
    assert_eq!(q.pop(0).unwrap().0, 1);
    match q.claim_bounded_step(0) {
        BoundedClaim::Lost(tail) => assert_eq!(tail, 1),
        _ => panic!("stale claim"),
    }
    for i in 1..BLOCK_CAP {
        q.push(i, 0).unwrap();
        assert_eq!(q.pop(0).unwrap().0, i);
    }
    match q.claim_bounded_step(BLOCK_CAP) {
        BoundedClaim::Skipped(next) => assert_eq!(next, LAP),
        _ => panic!("sentinel"),
    }
}

#[test]
fn pushes_and_pops_say_whether_to_wake() {
    let mut q = Queue::new(None);
    assert_eq!(q.push(1, 0), Ok(false));
    assert_eq!(q.push(2, 3), Ok(true));
    // Nobody waits for room in a queue without a bound.
    assert_eq!(q.pop(1), Some((1, false)));
    let mut b = Queue::new(Some(2));
    b.push(1, 0).unwrap();
    b.push(2, 0).unwrap();
    assert_eq!(b.pop(0), Some((1, false)));
    assert_eq!(b.pop(1), Some((2, true)));
}

// -------------------------------------------------------------------- consumers

#[test]
fn a_stale_head_is_looked_up_again() {
    let mut q = Queue::new(None);
    for i in 0..3 * LAP {
        q.push(i, 0).unwrap();
    }
    let (stale, block) = q.head_position();
    for i in 0..2 * LAP {
        assert_eq!(q.pop(0).unwrap().0, i);
    }
    match q.pop_step(stale, block) {
        HeadStep::Moved(now, at) => assert_eq!((now, at), q.head_position()),
        _ => panic!("stale head"),
    }
    assert_eq!(q.pop_from(stale, block, 0).unwrap().0, 2 * LAP);
    assert_eq!(q.pop_from(BLOCK_CAP, block, 0).unwrap().0, 2 * LAP + 1);
}

#[test]
fn an_empty_queue_has_nothing_to_claim() {
    let mut q: Queue<u8> = Queue::new(None);
    match q.pop_step(0, 0) {
        HeadStep::Unwritten => {},
        _ => panic!("empty"),
    }
    match q.pop_step(BLOCK_CAP, 0) {
        HeadStep::Transition => {},
        _ => panic!("sentinel"),
    }
}

#[test]
fn readers_leave_marks_one_by_one() {
    let mut q = Queue::new(None);
    for i in 0..LAP {
        q.push(i, 0).unwrap();
    }
    let a = pause_reader(&mut q);
    let b = pause_reader(&mut q);
    for i in 2..BLOCK_CAP {
        assert_eq!(q.pop(0).unwrap().0, i);
    }
    assert_eq!(q.retired_blocks(), vec![a.block]);
    assert_eq!(q.take_value(&b), 1);
    q.mark_read(b);
    assert_eq!(q.reclaim_retired(), None);
    assert_eq!(q.take_value(&a), 0);
    assert_eq!(q.reclaim_retired(), None);
    let block = a.block;
    q.mark_read(a);
    assert_eq!(q.reclaim_retired(), Some(block));
    q.recycle(block);
}

#[test]
fn a_sole_consumer_agrees_with_the_general_one() {
    let mut many = Queue::new(Some(200));
    let mut one = Queue::new(Some(200));
    for round in 0..10usize {
        for i in 0..150usize {
            let m = round * 1000 + i;
            assert_eq!(many.push(m, 0), one.push(m, 0));
        }
        for _ in 0..150 {
            assert_eq!(many.pop(1), one.pop_single(1));
        }
        assert_eq!(one.pop_single(1), None);
    }
    assert!(one.retired_blocks().is_empty());
}

#[test]
fn a_batch_ends_with_its_block() {
    let mut q = Queue::new(Some(200));
    for i in 0..2 * BLOCK_CAP {
        q.push(i, 0).unwrap();
    }
    let mut got = vec![999];
    assert_eq!(q.pop_single_batch(&mut got, 0, 5), (0, 0));
    assert_eq!(q.pop_single_batch(&mut got, 10, 5), (10, 5));
    assert_eq!(q.pop_single_batch(&mut got, 100, 200), (BLOCK_CAP - 10, BLOCK_CAP - 10));
    assert_eq!(q.pop_single_batch(&mut got, 100, 0), (BLOCK_CAP, 0));
    assert_eq!(q.pop_single_batch(&mut got, 100, 1), (0, 0));
    let expected: Vec<usize> = std::iter::once(999).chain(0..2 * BLOCK_CAP).collect();
    assert_eq!(got, expected);
}

#[test]
fn a_batch_stops_at_a_message_that_is_being_written() {
    let mut q = Queue::new(None);
    q.push(1, 0).unwrap();
    let paused = q.claim().unwrap();
    q.push(3, 0).unwrap();
    let mut got = Vec::new();
    assert_eq!(q.pop_single_batch(&mut got, 10, 0), (1, 0));
    q.write_claim(paused, 2);
    assert_eq!(q.pop_single_batch(&mut got, 10, 0), (2, 0));
    assert_eq!(got, [1, 2, 3]);
}

// ------------------------------------------------------------------ observation

#[test]
fn two_separate_looks_stay_within_the_capacity() {
    let q: Queue<u8> = Queue::new(Some(4));
    assert_eq!(q.observed_len(0, 1000), 4);
    assert_eq!(q.observed_len(10, 3), 0);
    assert_eq!(q.observed_len(0, 3), 3);
    assert_eq!(q.capacity(), Some(4));
    let u: Queue<u8> = Queue::new(None);
    assert_eq!(u.observed_len(0, 1000), 985);
    assert_eq!(u.capacity(), None);
    assert!(u.can_claim());
    assert!(u.is_empty());
}

#[test]
fn unread_messages_come_out_in_order() {
    let mut q = Queue::new(None);
    for i in 0..LAP {
        q.push(i, 0).unwrap();
    }
    for _ in 0..10 {
        q.pop(0);
    }
    let paused = q.claim().unwrap();
    q.push(1000, 0).unwrap();
    assert_eq!(paused, LAP + 1);
    let unread = q.into_unread();
    let expected: Vec<usize> = (10..LAP).chain(std::iter::once(1000)).collect();
    assert_eq!(unread, expected);
}

#[test]
fn a_dump_shows_both_ends() {
    let mut q = Queue::new(None);
    for i in 0..10 * BLOCK_CAP {
        q.push(i, 0).unwrap();
    }
    q.pop(0);
    let dump = q.debug_dump();
    assert_eq!((dump.head, dump.head_lap, dump.head_offset), (1, 0, 1));
    assert_eq!(dump.head_slot_state, dump.expected);
    assert_eq!(dump.head_start, 0);
    assert_eq!(dump.tail, 9 * LAP + BLOCK_CAP);
    assert_eq!(dump.tail_start, 10 * LAP);
    assert_eq!(dump.spare, None);
    assert_eq!((dump.ready, dump.retired), (0, 0));
    assert_eq!(dump.trail.len(), 6);
    assert_eq!(dump.trail[0].next, None);
    assert_eq!(dump.trail[5].start, 5 * LAP);
    assert_eq!(dump.trail[5].next, Some(dump.trail[4].block));
}
