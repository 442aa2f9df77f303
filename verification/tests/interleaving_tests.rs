//! Two parties at work, in every order of their steps.

use std::sync::atomic::AtomicUsize;
use std::sync::atomic::Ordering;
use std::sync::Arc;
use std::task::Wake;
use std::task::Waker;

use rapidfire::bounded;
use rapidfire::channel::Channel;
use rapidfire::mpsc;
use rapidfire::pool::BlockPool;
use rapidfire::pool::POOL_PAGE_SLOTS;
use rapidfire::position::BLOCK_CAP;
use rapidfire::unbounded;
use rapidfire::waiters::WaiterList;
use rapidfire::waiters::WaiterToken;
use rapidfire::waiters::PAGE_SLOTS;
use rapidfire::Polled;
use rapidfire::RecvError;
use rapidfire::TryRecvError;

struct WakeCounter(AtomicUsize);

impl WakeCounter {
    fn new() -> Arc<Self> {
        Arc::new(WakeCounter(AtomicUsize::new(0)))
    }

    fn count(&self) -> usize {
        self.0.load(Ordering::SeqCst)
    }
}

impl Wake for WakeCounter {
    fn wake(self: Arc<Self>) {
        self.0.fetch_add(1, Ordering::SeqCst);
    }
}

/// Every order of `a` steps of one party and `b` steps of another; `true` is the first.
fn orders(a: usize, b: usize) -> Vec<Vec<bool>> {
    if a == 0 && b == 0 {
        return vec![Vec::new()];
    }
    let mut all = Vec::new();
    if a > 0 {
        for mut rest in orders(a - 1, b) {
            rest.insert(0, true);
            all.push(rest);
        }
    }
    if b > 0 {
        for mut rest in orders(a, b - 1) {
            rest.insert(0, false);
            all.push(rest);
        }
    }
    all
}

#[test]
fn two_producers_one_consumer_cross_block() {
    // With two slots left in the first block, the four messages cross into the next.
    for used in [0, BLOCK_CAP - 2] {
        for order in orders(2, 2) {
            let (tx, rx) = unbounded::<usize>();
            for i in 0..used {
                tx.try_send(i).unwrap();
                assert_eq!(rx.try_recv(), Ok(i));
            }
            let tx2 = tx.clone();
            let mut first = vec![2, 1];
            let mut second = vec![20, 10];
            for a in order {
                if a {
                    tx.try_send(first.pop().unwrap()).unwrap();
                } else {
                    tx2.try_send(second.pop().unwrap()).unwrap();
                }
            }
            let mut got = Vec::new();
            while let Ok(v) = rx.try_recv() {
                got.push(v);
            }
            got.sort_unstable();
            assert_eq!(got, vec![1, 2, 10, 20]);
        }
    }
}

#[test]
fn producer_and_consumer_concurrent_fifo() {
    for order in orders(5, 5) {
        let (tx, rx) = unbounded::<usize>();
        let mut sent = 0;
        let mut next = 0;
        for producer in order {
            if producer {
                tx.try_send(sent).unwrap();
                sent += 1;
            } else {
                match rx.try_recv() {
                    Ok(v) => {
                        assert_eq!(v, next);
                        next += 1;
                    },
                    Err(TryRecvError::Empty) => assert_eq!(sent, next),
                    Err(TryRecvError::Closed) => panic!("closed early"),
                }
            }
        }
        while let Ok(v) = rx.try_recv() {
            assert_eq!(v, next);
            next += 1;
        }
        assert_eq!(next, 5);
    }
}

#[test]
fn two_consumers_take_each_value_once() {
    for order in orders(3, 3) {
        let (tx, rx) = unbounded::<usize>();
        for i in 0..4 {
            tx.try_send(i).unwrap();
        }
        let rx2 = rx.clone();
        let mut sum = 0;
        let mut count = 0;
        for first in order {
            let from = if first { &rx } else { &rx2 };
            if let Ok(v) = from.try_recv() {
                sum += v;
                count += 1;
            }
        }
        assert_eq!(count, 4);
        assert_eq!(sum, 0 + 1 + 2 + 3);
    }
}

#[test]
fn async_recv_is_woken_by_send() {
    for polled_first in [true, false] {
        let (tx, rx) = unbounded::<usize>();
        let counter = WakeCounter::new();
        let waker = Waker::from(counter.clone());
        let mut recv = rx.recv();
        if polled_first {
            assert_eq!(recv.poll(&waker), Polled::Pending);
        }
        tx.try_send(7).unwrap();
        assert_eq!(counter.count(), usize::from(polled_first));
        assert_eq!(recv.poll(&waker), Polled::Ready(Ok(7)));
    }
}

#[test]
fn async_recv_is_woken_by_close() {
    for polled_first in [true, false] {
        let (tx, rx) = unbounded::<usize>();
        let counter = WakeCounter::new();
        let waker = Waker::from(counter.clone());
        let mut recv = rx.recv();
        if polled_first {
            assert_eq!(recv.poll(&waker), Polled::Pending);
        }
        tx.disconnect();
        assert_eq!(counter.count(), usize::from(polled_first));
        assert_eq!(recv.poll(&waker), Polled::Ready(Err(RecvError)));
    }
}

#[test]
fn value_sent_before_close_is_never_lost() {
    // The receiver polls before the send, between send and close, or after both.
    for moment in 0..3 {
        let (tx, rx) = unbounded::<usize>();
        let waker = Waker::from(WakeCounter::new());
        let mut recv = rx.recv();
        let mut first = Polled::Pending;
        if moment == 0 {
            first = recv.poll(&waker);
            assert_eq!(first, Polled::Pending);
        }
        tx.try_send(1).unwrap();
        if moment == 1 {
            first = recv.poll(&waker);
        }
        tx.disconnect();
        if first == Polled::Pending {
            first = recv.poll(&waker);
        }
        let second = rx.recv().poll(&waker);
        assert_eq!(
            (first, second),
            (Polled::Ready(Ok(1)), Polled::Ready(Err(RecvError)))
        );
    }
}

#[test]
fn bounded_sender_is_woken_by_recv() {
    for polled_first in [true, false] {
        let (tx, rx) = bounded::<usize>(1);
        tx.try_send(1).unwrap();
        let counter = WakeCounter::new();
        let waker = Waker::from(counter.clone());
        let mut send = tx.send(2);
        if polled_first {
            assert_eq!(send.poll(&waker), Polled::Pending);
        }
        assert_eq!(rx.recv().poll(&waker), Polled::Ready(Ok(1)));
        assert_eq!(counter.count(), usize::from(polled_first));
        assert_eq!(send.poll(&waker), Polled::Ready(Ok(())));
        assert_eq!(rx.try_recv(), Ok(2));
    }
}

#[test]
fn bounded_sender_is_woken_across_block_transition() {
    // With one slot left in the first block, the receive below moves to the next block.
    for used in [2, BLOCK_CAP - 1] {
        let (tx, rx) = bounded::<usize>(1);
        for i in 1..used + 1 {
            tx.try_send(i).unwrap();
            assert_eq!(rx.try_recv(), Ok(i));
        }
        tx.try_send(used + 1).unwrap();
        let counter = WakeCounter::new();
        let waker = Waker::from(counter.clone());
        let mut send = tx.send(used + 2);
        assert_eq!(send.poll(&waker), Polled::Pending);
        assert_eq!(rx.recv().poll(&waker), Polled::Ready(Ok(used + 1)));
        assert_eq!(counter.count(), 1);
        assert_eq!(send.poll(&waker), Polled::Ready(Ok(())));
        assert_eq!(rx.recv().poll(&waker), Polled::Ready(Ok(used + 2)));
    }
}

#[test]
fn mpsc_loom_batch_capacity_release_cancellation() {
    for cancel in [true, false] {
        let (tx, mut rx) = mpsc::bounded(1);
        tx.try_send(0).unwrap();
        let tx1 = tx.clone();
        let tx2 = tx.clone();
        let w1 = WakeCounter::new();
        let w2 = WakeCounter::new();
        let waker1 = Waker::from(w1.clone());
        let waker2 = Waker::from(w2.clone());
        let mut s1 = tx1.send(1);
        let mut s2 = tx2.send(2);
        assert_eq!(s1.poll(&waker1), Polled::Pending);
        assert_eq!(s2.poll(&waker2), Polled::Pending);

        let mut got = Vec::new();
        let noop = Waker::from(WakeCounter::new());
        assert_eq!(rx.recv_many(&mut got, 1).poll(&noop), Polled::Ready(Ok(1)));
        assert_eq!(got[0], 0);
        assert_eq!((w1.count(), w2.count()), (1, 0));
        if cancel {
            s1.cancel();
        } else {
            assert_eq!(s1.poll(&waker1), Polled::Ready(Ok(())));
            got.push(rx.try_recv().unwrap());
        }
        assert_eq!(w2.count(), 1);
        assert_eq!(s2.poll(&waker2), Polled::Ready(Ok(())));
        got.push(rx.try_recv().unwrap());
        got.sort_unstable();
        if cancel {
            assert_eq!(got, vec![0, 2]);
        } else {
            assert_eq!(got, vec![0, 1, 2]);
        }
        assert_eq!(rx.try_recv(), Err(TryRecvError::Empty));
    }
}

#[test]
fn mpsc_loom_pending_recv_many_close_race() {
    for send_first in [true, false] {
        for moment in 0..3 {
            let (tx, mut rx) = mpsc::bounded(2);
            let waker = Waker::from(WakeCounter::new());
            let mut got = Vec::new();
            let mut sent = false;
            let mut batch = rx.recv_many(&mut got, 2);
            let mut res = Polled::Pending;
            for step in 0..2 {
                if step == moment {
                    res = batch.poll(&waker);
                }
                if (step == 0) == send_first {
                    sent = tx.try_send(42).is_ok();
                } else {
                    tx.close();
                }
            }
            if res == Polled::Pending {
                res = batch.poll(&waker);
            }
            match res {
                Polled::Ready(Ok(n)) => {
                    assert_eq!(n, 1);
                    assert_eq!(got, vec![42]);
                },
                Polled::Ready(Err(RecvError)) => assert!(got.is_empty()),
                Polled::Pending => panic!("closed"),
            }
            while let Ok(value) = rx.try_recv() {
                got.push(value);
            }
            assert_eq!(sent, send_first);
            assert_eq!(got, if sent { vec![42] } else { vec![] });
            assert_eq!(rx.recv().poll(&waker), Polled::Ready(Err(RecvError)));
        }
    }
}

#[test]
fn notification_racing_cancellation_forwards_once() {
    // The notifier claims and wakes; the first waiter gives up before, between or after.
    for moment in 0..3 {
        let mut list = WaiterList::new();
        let mut count = 0usize;
        let mut next = 1u64;
        let mut a = None;
        let mut b = None;
        let bw = WakeCounter::new();
        let aw = Waker::from(WakeCounter::new());
        list.register(&mut count, &mut next, &mut a, aw);
        list.register(&mut count, &mut next, &mut b, Waker::from(bw.clone()));
        if moment == 0 {
            assert!(list.unregister(&mut count, &mut a, true).forwarded.is_none());
        }
        let notification = list.claim().unwrap();
        if moment == 1 {
            list.unregister(&mut count, &mut a, true).forwarded.unwrap().wake();
        }
        list.wake(notification, &mut count).wake();
        if moment == 2 {
            list.unregister(&mut count, &mut a, true).forwarded.unwrap().wake();
        }
        assert_eq!(bw.count(), 1);
        assert_eq!(count, 0);
        list.unregister(&mut count, &mut b, false);
    }
}

#[test]
fn notification_racing_repoll_consumes_one_wake() {
    for moment in 0..3 {
        let mut list = WaiterList::new();
        let mut count = 0usize;
        let mut next = 1u64;
        let mut a = None;
        let mut b = None;
        let aw = WakeCounter::new();
        let bw = WakeCounter::new();
        list.register(&mut count, &mut next, &mut a, Waker::from(aw.clone()));
        list.register(&mut count, &mut next, &mut b, Waker::from(bw.clone()));
        if moment == 0 {
            list.unregister(&mut count, &mut a, false);
        }
        let notification = list.claim().unwrap();
        if moment == 1 {
            list.unregister(&mut count, &mut a, false);
        }
        list.wake(notification, &mut count).wake();
        if moment == 2 {
            list.unregister(&mut count, &mut a, false);
        }
        assert_eq!(aw.count() + bw.count(), 1);
        list.unregister(&mut count, &mut b, false);
        assert_eq!(count, 0);
    }
}

#[test]
fn close_cannot_miss_registration_on_appended_page() {
    for close_first in [true, false] {
        let mut channel: Channel<u8, Waker> = Channel::new(None);
        let wake = WakeCounter::new();
        let mut occupied: Vec<Option<WaiterToken>> = (0..PAGE_SLOTS).map(|_| None).collect();
        for token in &mut occupied {
            channel.park_receiver(token, Waker::from(WakeCounter::new()));
        }
        // The first page stays occupied, so the next registration appends another.
        let mut token = None;
        let mut saw_close = false;
        if !close_first {
            channel.park_receiver(&mut token, Waker::from(wake.clone()));
            saw_close = channel.is_closed();
        }
        for waker in channel.close().unwrap() {
            waker.wake();
        }
        if close_first {
            channel.park_receiver(&mut token, Waker::from(wake.clone()));
            saw_close = channel.is_closed();
        }
        assert!(saw_close || wake.count() == 1);
        channel.leave_receivers(&mut token, false);
        for token in &mut occupied {
            channel.leave_receivers(token, false);
        }
    }
}

#[test]
fn pool_transfers_exclusive_payload_access() {
    // Two takers, and one block between them.
    for order in orders(2, 2) {
        let mut pool = BlockPool::new();
        pool.put(0);
        let mut held: [Option<usize>; 2] = [None, None];
        for first in order {
            let me = usize::from(!first);
            match held[me].take() {
                Some(block) => pool.put(block),
                None => {
                    held[me] = pool.take();
                    assert_eq!(held[me].is_some(), held[1 - me].is_none());
                },
            }
        }
        for block in held.into_iter().flatten() {
            pool.put(block);
        }
        assert_eq!(pool.stored_count(), 1);
    }
}

#[test]
fn concurrent_page_append_keeps_all_blocks() {
    let mut pool = BlockPool::new();
    for block in 0..POOL_PAGE_SLOTS {
        pool.put(block);
    }
    pool.put(POOL_PAGE_SLOTS);
    pool.put(POOL_PAGE_SLOTS + 1);
    assert_eq!(pool.page_count(), 2);
    let mut blocks = Vec::new();
    while let Some(block) = pool.take() {
        blocks.push(block);
    }
    assert_eq!(blocks.len(), POOL_PAGE_SLOTS + 2);
    for (i, block) in blocks.iter().enumerate() {
        assert!(!blocks[..i].contains(block), "duplicate block ownership");
    }
}
