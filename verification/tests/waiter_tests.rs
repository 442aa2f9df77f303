use std::sync::atomic::AtomicUsize;
use std::sync::atomic::Ordering;
use std::sync::Arc;
use std::task::Wake;
use std::task::Waker;

use rapidfire::backoff::Backoff;
use rapidfire::backoff::SNOOZE_LIMIT;
use rapidfire::waiters::SlotState;
use rapidfire::waiters::WaiterList;
use rapidfire::waiters::WaiterToken;
use rapidfire::waiters::PAGE_SLOTS;

struct Counter(AtomicUsize);

impl Wake for Counter {
    fn wake(self: Arc<Self>) {
        self.0.fetch_add(1, Ordering::Relaxed);
    }
}

fn counter() -> Arc<Counter> {
    Arc::new(Counter(AtomicUsize::new(0)))
}

fn wakes(c: &Arc<Counter>) -> usize {
    c.0.load(Ordering::Relaxed)
}

fn wake(w: Option<Waker>) {
    if let Some(w) = w {
        w.wake();
    }
}

#[test]
fn notify_each_registration_once_and_reuse_after_cancellation() {
    let mut list = WaiterList::new();
    let mut count = 0usize;
    let mut next = 1u64;
    let n = PAGE_SLOTS * 3 + 1;
    for round in 0..16 {
        let mut tokens: Vec<Option<WaiterToken>> = (0..n).map(|_| None).collect();
        let counters: Vec<_> = (0..n).map(|_| counter()).collect();
        for (token, c) in tokens.iter_mut().zip(&counters) {
            list.register(&mut count, &mut next, token, Waker::from(c.clone()));
        }
        assert_eq!(list.pages(), 4);
        assert_eq!(count, n);
        if round % 2 == 0 {
            for i in 0..n {
                wake(list.notify_one(&mut count));
                assert_eq!(counters.iter().map(wakes).sum::<usize>(), i + 1);
                assert!(counters.iter().all(|c| wakes(c) <= 1));
                assert_eq!(count, n - i - 1);
            }
        }
        for token in &mut tokens {
            let gone = list.unregister(&mut count, token, false);
            assert_eq!(gone.removed.is_some(), round % 2 == 1);
            assert!(gone.forwarded.is_none());
        }
        assert_eq!(count, 0);
    }
}

#[test]
fn cancelled_claim_forwards_without_waiting_for_notifier() {
    let mut list = WaiterList::new();
    let mut count = 0usize;
    let mut next = 1u64;
    let mut a = None;
    let mut b = None;
    let aw = counter();
    let bw = counter();
    list.register(&mut count, &mut next, &mut a, Waker::from(aw.clone()));
    list.register(&mut count, &mut next, &mut b, Waker::from(bw.clone()));
    // Pause the selected notifier before it moves the waker or adjusts count.
    let paused = list.claim().unwrap();
    wake(list.unregister(&mut count, &mut a, true).forwarded);
    assert_eq!(wakes(&bw), 1);
    assert_eq!(wakes(&aw), 0);
    // The paused owner does not hold up another complete registration/wake.
    let mut c = None;
    let cw = counter();
    list.register(&mut count, &mut next, &mut c, Waker::from(cw.clone()));
    wake(list.notify_one(&mut count));
    assert_eq!(wakes(&cw), 1);
    list.wake(paused, &mut count).wake();
    assert_eq!(wakes(&aw), 1);
    list.unregister(&mut count, &mut b, false);
    list.unregister(&mut count, &mut c, false);
    assert_eq!(count, 0);
    assert!((0..PAGE_SLOTS).all(|i| list.state(i) == SlotState::Free));
}

#[test]
fn moving_a_used_list_preserves_embedded_and_heap_cursors() {
    let mut list = WaiterList::new();
    let mut count = 0usize;
    let mut next = 1u64;
    let c = counter();
    let mut tokens: Vec<Option<WaiterToken>> = (0..PAGE_SLOTS + 1).map(|_| None).collect();
    for token in &mut tokens {
        list.register(&mut count, &mut next, token, Waker::from(c.clone()));
    }
    wake(list.notify_one(&mut count));
    // Both cursors must remain usable after moving the list into new storage.
    let mut list = Box::new(list);
    for w in list.notify_all(&mut count) {
        w.wake();
    }
    for token in &mut tokens {
        list.unregister(&mut count, token, false);
    }
    let mut again = None;
    list.register(&mut count, &mut next, &mut again, Waker::from(c.clone()));
    wake(list.notify_one(&mut count));
    list.unregister(&mut count, &mut again, false);
    assert_eq!(wakes(&c), PAGE_SLOTS + 2);
    assert_eq!(count, 0);
}

#[test]
fn paused_writer_does_not_own_the_list() {
    let mut list = WaiterList::new();
    let mut count = 0usize;
    let mut next = 1u64;
    let paused = list.begin_register(&mut next);
    assert_eq!(list.state(0), SlotState::Writing);
    let mut token = None;
    let c = counter();
    list.register(&mut count, &mut next, &mut token, Waker::from(c.clone()));
    wake(list.notify_one(&mut count));
    assert_eq!(wakes(&c), 1);
    list.unregister(&mut count, &mut token, false);
    // The writer resumes and leaves again.
    let mut late = Some(list.finish_register(&mut count, paused, Waker::from(c.clone())));
    assert_eq!(count, 1);
    assert!(list.unregister(&mut count, &mut late, false).removed.is_some());
    assert_eq!(count, 0);
    assert_eq!(list.state(0), SlotState::Free);
}

#[test]
fn list_drop_releases_forgotten_wakers_exactly_once() {
    struct CountedWake(Arc<AtomicUsize>);
    impl Wake for CountedWake {
        fn wake(self: Arc<Self>) {}
    }
    impl Drop for CountedWake {
        fn drop(&mut self) {
            self.0.fetch_add(1, Ordering::Relaxed);
        }
    }
    let drops = Arc::new(AtomicUsize::new(0));
    let mut count = 0usize;
    let mut next = 1u64;
    let mut list = WaiterList::new();
    for _ in 0..PAGE_SLOTS * 3 {
        let waker = Waker::from(Arc::new(CountedWake(drops.clone())));
        // Discarding a token models a forgotten operation.
        list.register(&mut count, &mut next, &mut None, waker);
    }
    for w in list.notify_many(&mut count, PAGE_SLOTS + 1) {
        w.wake();
    }
    assert_eq!(drops.load(Ordering::Relaxed), PAGE_SLOTS + 1);
    drop(list);
    assert_eq!(drops.load(Ordering::Relaxed), PAGE_SLOTS * 3);
}

#[test]
fn a_removed_waker_comes_back_after_its_slot_is_free() {
    let mut list = WaiterList::new();
    let mut count = 0usize;
    let mut next = 1u64;
    let mut token = None;
    list.register(&mut count, &mut next, &mut token, "waker");
    let gone = list.unregister(&mut count, &mut token, true);
    assert_eq!(gone.removed, Some("waker"));
    assert_eq!(gone.forwarded, None);
    assert_eq!(list.state(0), SlotState::Free);
    assert_eq!(count, 0);
}

// ------------------------------------------------------------------- more cases

#[test]
fn selection_rotates() {
    let mut list = WaiterList::new();
    let mut count = 0usize;
    let mut next = 1u64;
    let mut tokens: Vec<Option<WaiterToken>> = (0..3).map(|_| None).collect();
    for (i, token) in tokens.iter_mut().enumerate() {
        list.register(&mut count, &mut next, token, i);
    }
    assert_eq!(list.notify_one(&mut count), Some(0));
    // The first party registers again; those behind it still come first.
    list.unregister(&mut count, &mut tokens[0], false);
    list.register(&mut count, &mut next, &mut tokens[0], 10);
    assert_eq!(list.notify_one(&mut count), Some(1));
    assert_eq!(list.notify_one(&mut count), Some(2));
    assert_eq!(list.notify_one(&mut count), Some(10));
    assert_eq!(list.notify_one(&mut count), None);
    assert_eq!(count, 0);
}

#[test]
fn tickets_number_registrations() {
    let mut list = WaiterList::new();
    let mut count = 0usize;
    let mut next = u64::MAX;
    let mut a = None;
    let mut b = None;
    list.register(&mut count, &mut next, &mut a, 1);
    list.register(&mut count, &mut next, &mut b, 2);
    let a = a.unwrap();
    let b = b.unwrap();
    assert_eq!((a.slot, a.ticket), (0, u64::MAX << 3));
    assert_eq!((b.slot, b.ticket), (1, 0));
    assert_eq!(next, 1);
    assert!(list.owns(&a));
    assert!(!list.owns(&WaiterToken { slot: 0, ticket: 8 }));
    assert!(!list.owns(&WaiterToken { slot: 100, ticket: 0 }));
}

#[test]
fn a_given_up_notification_goes_to_the_next_one() {
    let mut list = WaiterList::new();
    let mut count = 0usize;
    let mut next = 1u64;
    let mut tokens: Vec<Option<WaiterToken>> = (0..3).map(|_| None).collect();
    for (i, token) in tokens.iter_mut().enumerate() {
        list.register(&mut count, &mut next, token, i);
    }
    assert_eq!(list.notify_one(&mut count), Some(0));
    assert_eq!(list.unregister(&mut count, &mut tokens[0], true).forwarded, Some(1));
    assert_eq!(list.unregister(&mut count, &mut tokens[1], true).forwarded, Some(2));
    assert_eq!(list.unregister(&mut count, &mut tokens[2], true).forwarded, None);
    assert_eq!(count, 0);
    let mut none = None;
    let nothing = list.unregister(&mut count, &mut none, true);
    assert!(nothing.removed.is_none() && nothing.forwarded.is_none());
}

#[test]
fn a_cancelled_slot_is_freed_by_its_notifier() {
    let mut list = WaiterList::new();
    let mut count = 0usize;
    let mut next = 1u64;
    let mut token = None;
    list.register(&mut count, &mut next, &mut token, 7);
    let notification = list.claim().unwrap();
    assert_eq!(list.state(0), SlotState::Notifying);
    assert_eq!(count, 1);
    list.unregister(&mut count, &mut token, false);
    assert_eq!(list.state(0), SlotState::Cancelled);
    assert_eq!(count, 1);
    assert_eq!(list.wake(notification, &mut count), 7);
    assert_eq!(list.state(0), SlotState::Free);
    assert_eq!(count, 0);
}

#[test]
fn notify_many_stops_at_its_limit() {
    let mut list = WaiterList::new();
    let mut count = 0usize;
    let mut next = 1u64;
    for i in 0..5 {
        list.register(&mut count, &mut next, &mut None, i);
    }
    assert_eq!(list.notify_many(&mut count, 0), Vec::<i32>::new());
    assert_eq!(list.notify_many(&mut count, 2), [0, 1]);
    assert_eq!(list.notify_many(&mut count, 9), [2, 3, 4]);
    assert_eq!(count, 0);
    assert_eq!(list.notify_all(&mut count), Vec::<i32>::new());
}

#[test]
fn backoff_grows_and_gives_way() {
    let mut b = Backoff::new();
    let spins: Vec<u32> = (0..9).map(|_| b.spin()).collect();
    assert_eq!(spins, [1, 2, 4, 8, 16, 32, 64, 64, 64]);

    let mut b = Backoff::new();
    for _ in 0..64 {
        assert_eq!(b.snooze(), Some(1));
    }
    for i in 0..8u32 {
        assert_eq!(b.snooze(), Some(1 << i));
    }
    assert_eq!(b.snooze(), None);

    let mut b = Backoff::new();
    for _ in 0..SNOOZE_LIMIT {
        assert!(b.snooze_bounded());
    }
    assert!(!b.snooze_bounded());
}
