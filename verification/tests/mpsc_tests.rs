use std::sync::atomic::AtomicUsize;
use std::sync::atomic::Ordering;
use std::sync::Arc;
use std::task::Wake;
use std::task::Waker;

use rapidfire::mpsc;
use rapidfire::Polled;
use rapidfire::RecvError;
use rapidfire::SendError;
use rapidfire::TryRecvError;

/// A message that counts how often it is dropped.
#[derive(Debug)]
struct TrackedDrop {
    id: usize,
    counter: Arc<AtomicUsize>,
}

impl TrackedDrop {
    fn new(id: usize, counter: &Arc<AtomicUsize>) -> Self {
        TrackedDrop { id, counter: Arc::clone(counter) }
    }
}

impl Drop for TrackedDrop {
    fn drop(&mut self) {
        self.counter.fetch_add(1, Ordering::SeqCst);
    }
}

struct WakeCounter(AtomicUsize);

impl WakeCounter {
    fn new() -> Arc<Self> {
        Arc::new(WakeCounter(AtomicUsize::new(0)))
    }

    fn count(&self) -> usize {
        self.0.load(Ordering::SeqCst)
    }
}

impl Wake for WakeCounter {
    fn wake(self: Arc<Self>) {
        self.0.fetch_add(1, Ordering::SeqCst);
    }
}

fn noop_waker() -> Waker {
    Waker::from(WakeCounter::new())
}

/// Receives a batch without having to wait.
fn batch_now<T>(
    rx: &mut mpsc::Receiver<T>,
    buffer: &mut Vec<T>,
    limit: usize,
) -> Result<usize, RecvError> {
    match rx.recv_many(buffer, limit).poll(&noop_waker()) {
        Polled::Ready(r) => r,
        Polled::Pending => panic!("had to wait"),
    }
}

#[test]
fn single_receiver_recycles_and_drops_values() {
    for cap in [1, 3, 25, 4096, usize::MAX] {
        let (tx, mut rx) = if cap == usize::MAX {
            mpsc::unbounded()
        } else {
            mpsc::bounded(cap)
        };
        for i in 0..1024 {
            tx.try_send(Box::new(i)).unwrap();
            assert_eq!(*rx.try_recv().unwrap(), i);
        }
        tx.try_send(Box::new(1024)).unwrap();
        tx.disconnect();
        assert_eq!(*rx.try_recv().unwrap(), 1024);
        assert_eq!(rx.try_recv(), Err(TryRecvError::Closed));
    }
}

#[test]
fn batch_zero_partial_and_close() {
    let (tx, mut rx) = mpsc::bounded(3);
    let mut got = vec![99];
    assert_eq!(batch_now(&mut rx, &mut got, 0), Ok(0));
    tx.try_send(1).unwrap();
    tx.try_send(2).unwrap();
    assert_eq!(batch_now(&mut rx, &mut got, 10), Ok(2));
    assert_eq!(got, [99, 1, 2]);
    tx.disconnect();
    assert_eq!(batch_now(&mut rx, &mut got, 10), Err(RecvError));
}

#[test]
fn test_non_copy_drop_counts_on_receiver_drop_with_unread_items() {
    for cap in [0, 200, 256] {
        let (tx, mut rx) = if cap == 0 {
            mpsc::unbounded()
        } else {
            mpsc::bounded(cap)
        };
        let drop_counter = Arc::new(AtomicUsize::new(0));
        let total = 200;

        for i in 0..total {
            tx.try_send(TrackedDrop::new(i, &drop_counter)).unwrap();
        }

        let mut buf = Vec::new();
        batch_now(&mut rx, &mut buf, 25).unwrap();
        batch_now(&mut rx, &mut buf, 20).unwrap();
        assert_eq!(buf.len(), 45);
        assert_eq!(drop_counter.load(Ordering::SeqCst), 0);

        drop(buf);
        assert_eq!(drop_counter.load(Ordering::SeqCst), 45);

        // Giving both handles up drops all remaining 155 unread items
        rx.disconnect();
        tx.disconnect();
        assert_eq!(drop_counter.load(Ordering::SeqCst), total);
    }
}

#[test]
fn test_cancelling_woken_send_future_forwards_wakeup() {
    let (tx, mut rx) = mpsc::bounded(2);
    let drop_counter = Arc::new(AtomicUsize::new(0));

    // Fill capacity
    tx.try_send(TrackedDrop::new(0, &drop_counter)).unwrap();
    tx.try_send(TrackedDrop::new(1, &drop_counter)).unwrap();

    let mut s2 = tx.send(TrackedDrop::new(2, &drop_counter));
    let mut s3 = tx.send(TrackedDrop::new(3, &drop_counter));
    let mut s4 = tx.send(TrackedDrop::new(4, &drop_counter));
    let mut s5 = tx.send(TrackedDrop::new(5, &drop_counter));

    let w2 = WakeCounter::new();
    let w3 = WakeCounter::new();
    let w4 = WakeCounter::new();
    let w5 = WakeCounter::new();

    let waker2 = Waker::from(w2.clone());
    let waker3 = Waker::from(w3.clone());
    let waker4 = Waker::from(w4.clone());
    let waker5 = Waker::from(w5.clone());

    // Register all four sends
    assert!(matches!(s2.poll(&waker2), Polled::Pending));
    assert!(matches!(s3.poll(&waker3), Polled::Pending));
    assert!(matches!(s4.poll(&waker4), Polled::Pending));
    assert!(matches!(s5.poll(&waker5), Polled::Pending));

    assert_eq!(w2.count(), 0);
    assert_eq!(w3.count(), 0);
    assert_eq!(w4.count(), 0);
    assert_eq!(w5.count(), 0);

    // Free 2 slots via batch receive
    let mut buf = Vec::new();
    let n = batch_now(&mut rx, &mut buf, 2).unwrap();
    assert_eq!(n, 2);
    assert_eq!(buf[0].id, 0);
    assert_eq!(buf[1].id, 1);

    // Two senders were woken: s2 and s3
    assert_eq!(w2.count(), 1);
    assert_eq!(w3.count(), 1);
    assert_eq!(w4.count(), 0);
    assert_eq!(w5.count(), 0);

    // s2 is given up. It absorbed a wakeup, so it must forward it to s4.
    s2.cancel();
    drop(s2);
    assert_eq!(w4.count(), 1);
    assert_eq!(w5.count(), 0);

    // s5 is given up (unwoken at the tail). It unregisters without forwarding.
    s5.cancel();
    drop(s5);
    assert_eq!(w5.count(), 0);

    // s3 and s4 complete into the freed slots
    assert!(matches!(s3.poll(&waker3), Polled::Ready(Ok(()))));
    assert!(matches!(s4.poll(&waker4), Polled::Ready(Ok(()))));

    let n2 = batch_now(&mut rx, &mut buf, 2).unwrap();
    assert_eq!(n2, 2);
    assert_eq!(buf[2].id, 3);
    assert_eq!(buf[3].id, 4);

    drop(buf);
    drop(s3);
    drop(s4);
    rx.disconnect();
    tx.disconnect();
    // All 6 items created (0, 1, 2, 3, 4, 5) are exactly dropped
    assert_eq!(drop_counter.load(Ordering::SeqCst), 6);
}

#[test]
fn test_pending_recv_many_followed_by_close_and_drop() {
    // Empty channel, pending recv_many, all senders gone
    {
        let (tx, mut rx) = mpsc::bounded::<usize>(3);
        let w = WakeCounter::new();
        let waker = Waker::from(w.clone());
        let mut buf = vec![999];
        let mut fut = rx.recv_many(&mut buf, 5);

        assert_eq!(fut.poll(&waker), Polled::Pending);
        assert_eq!(w.count(), 0);

        tx.disconnect();
        assert!(w.count() > 0);
        assert_eq!(fut.poll(&waker), Polled::Ready(Err(RecvError)));
        fut.cancel();
        assert_eq!(buf, vec![999]);
    }

    // Empty channel, pending recv_many, messages sent then tx.close()
    {
        let (tx, mut rx) = mpsc::bounded::<usize>(3);
        let w = WakeCounter::new();
        let waker = Waker::from(w.clone());
        let mut buf = Vec::new();
        let mut fut = rx.recv_many(&mut buf, 5);

        assert_eq!(fut.poll(&waker), Polled::Pending);

        tx.try_send(10).unwrap();
        tx.try_send(20).unwrap();
        tx.close();

        assert!(w.count() > 0);
        assert_eq!(fut.poll(&waker), Polled::Ready(Ok(2)));
        assert_eq!(buf, vec![10, 20]);

        // Next call reports closed channel
        let mut next_buf = Vec::new();
        let mut fut2 = rx.recv_many(&mut next_buf, 5);
        assert_eq!(fut2.poll(&waker), Polled::Ready(Err(RecvError)));
        assert!(next_buf.is_empty());
    }

    // Full bounded channel, pending send, receiver gone
    {
        let (tx, rx) = mpsc::bounded::<usize>(1);
        tx.try_send(1).unwrap();
        let w = WakeCounter::new();
        let waker = Waker::from(w.clone());
        let mut send_fut = tx.send(2);
        assert_eq!(send_fut.poll(&waker), Polled::Pending);

        rx.disconnect();
        assert!(w.count() > 0);
        assert_eq!(send_fut.poll(&waker), Polled::Ready(Err(SendError(2))));
        assert_eq!(tx.receiver_count(), 0);
        assert!(tx.is_closed());
    }

    // recv_many with limit 0 returns Ok(0) immediately
    {
        let (tx, mut rx) = mpsc::unbounded::<usize>();
        let mut buf = vec![1, 2, 3];
        assert_eq!(batch_now(&mut rx, &mut buf, 0), Ok(0));
        assert_eq!(buf, vec![1, 2, 3]);
        tx.disconnect();
    }
}

#[test]
fn test_repeated_waker_replacement_and_cancellation() {
    // Receiver waker replacement
    {
        let (tx, mut rx) = mpsc::unbounded::<usize>();
        let mut fut = rx.recv();

        let w1 = WakeCounter::new();
        let w2 = WakeCounter::new();
        let w3 = WakeCounter::new();

        let waker1 = Waker::from(w1.clone());
        let waker2 = Waker::from(w2.clone());
        let waker3 = Waker::from(w3.clone());

        assert_eq!(fut.poll(&waker1), Polled::Pending);
        assert_eq!(fut.poll(&waker2), Polled::Pending);
        assert_eq!(fut.poll(&waker3), Polled::Pending);

        tx.try_send(777).unwrap();

        // Only the newest waker was notified
        assert_eq!(w1.count(), 0);
        assert_eq!(w2.count(), 0);
        assert_eq!(w3.count(), 1);

        assert_eq!(fut.poll(&waker3), Polled::Ready(Ok(777)));
    }

    // Sender waker replacement
    {
        let (tx, mut rx) = mpsc::bounded::<usize>(1);
        tx.try_send(1).unwrap();

        let mut send_fut = tx.send(2);
        let w1 = WakeCounter::new();
        let w2 = WakeCounter::new();
        let w3 = WakeCounter::new();

        let waker1 = Waker::from(w1.clone());
        let waker2 = Waker::from(w2.clone());
        let waker3 = Waker::from(w3.clone());

        assert_eq!(send_fut.poll(&waker1), Polled::Pending);
        assert_eq!(send_fut.poll(&waker2), Polled::Pending);
        assert_eq!(send_fut.poll(&waker3), Polled::Pending);

        assert_eq!(rx.try_recv(), Ok(1));

        assert_eq!(w1.count(), 0);
        assert_eq!(w2.count(), 0);
        assert_eq!(w3.count(), 1);

        assert_eq!(send_fut.poll(&waker3), Polled::Ready(Ok(())));
        assert_eq!(rx.try_recv(), Ok(2));
    }

    // Repeated poll and cancel cycle
    {
        let (tx, mut rx) = mpsc::bounded::<usize>(1);
        for _ in 0..200 {
            let waker = noop_waker();
            let mut fut = rx.recv();
            assert_eq!(fut.poll(&waker), Polled::Pending);
            fut.cancel();
        }
        tx.try_send(42).unwrap();
        assert_eq!(rx.try_recv(), Ok(42));
    }
}

#[test]
fn mpsc_cancelled_recv_and_batch_leave_messages() {
    for cap in [0, 1, 3] {
        let (tx, mut rx) = if cap == 0 {
            mpsc::unbounded()
        } else {
            mpsc::bounded(cap)
        };
        let counter = WakeCounter::new();
        let waker = Waker::from(counter.clone());
        let mut future = rx.recv();
        assert_eq!(future.poll(&waker), Polled::Pending);
        tx.try_send(7).unwrap();
        assert!(counter.count() > 0);
        future.cancel();
        assert_eq!(rx.try_recv(), Ok(7));
        let mut out = vec![99];
        let mut future = rx.recv_many(&mut out, 32);
        assert_eq!(future.poll(&waker), Polled::Pending);
        tx.try_send(8).unwrap();
        future.cancel();
        assert_eq!(out, [99]);
        assert_eq!(rx.try_recv(), Ok(8));
        let mut future = rx.recv();
        assert_eq!(future.poll(&waker), Polled::Pending);
        tx.disconnect();
        assert_eq!(future.poll(&waker), Polled::Ready(Err(RecvError)));
    }
}

#[test]
fn mpsc_batch_wakes_all_senders_for_freed_capacity() {
    let (tx, mut rx) = mpsc::bounded(3);
    for i in 0..3 {
        tx.try_send(i).unwrap();
    }
    let counter = WakeCounter::new();
    let waker = Waker::from(counter.clone());
    let mut pending: Vec<_> = (3..6).map(|i| tx.send(i)).collect();
    for p in &mut pending {
        assert_eq!(p.poll(&waker), Polled::Pending);
    }
    let mut out = Vec::new();
    assert_eq!(batch_now(&mut rx, &mut out, 3), Ok(3));
    assert_eq!(counter.count(), 3);
    for p in &mut pending {
        assert_eq!(p.poll(&waker), Polled::Ready(Ok(())));
    }
    drop(pending);
    tx.disconnect();
    assert_eq!(batch_now(&mut rx, &mut out, 100), Ok(3));
    assert_eq!(out, [0, 1, 2, 3, 4, 5]);
    assert_eq!(rx.try_recv(), Err(TryRecvError::Closed));
}

#[test]
fn mpsc_receiver_drop_closes_pending_sends() {
    let (tx, mut rx) = mpsc::bounded(1);
    tx.try_send(1).unwrap();
    assert_eq!(rx.try_recv(), Ok(1));
    tx.try_send(2).unwrap();
    let counter = WakeCounter::new();
    let waker = Waker::from(counter.clone());
    let mut pending = tx.send(3);
    assert_eq!(pending.poll(&waker), Polled::Pending);
    rx.disconnect();
    assert!(counter.count() > 0);
    assert_eq!(pending.poll(&waker), Polled::Ready(Err(SendError(3))));
    assert_eq!(tx.receiver_count(), 0);
}

#[test]
fn a_batch_spans_blocks_and_preserves_order() {
    let (tx, mut rx) = mpsc::bounded(300);
    for i in 0..300 {
        tx.try_send(i).unwrap();
    }
    assert_eq!(rx.len(), 300);
    assert_eq!(rx.capacity(), Some(300));
    let mut out = Vec::new();
    assert_eq!(batch_now(&mut rx, &mut out, 200), Ok(200));
    assert_eq!(batch_now(&mut rx, &mut out, 200), Ok(100));
    let expected: Vec<i32> = (0..300).collect();
    assert_eq!(out, expected);
    assert!(rx.is_empty());
    assert_eq!(rx.sender_count(), 1);
    assert!(rx.close());
    assert!(!rx.close());
    assert!(rx.is_closed());
    assert_eq!(rx.recv().poll(&noop_waker()), Polled::Ready(Err(RecvError)));
}

#[test]
fn a_batch_that_waited_takes_what_is_ready() {
    let (tx, mut rx) = mpsc::unbounded();
    let waker = noop_waker();
    let mut out = Vec::new();
    let mut batch = rx.recv_many(&mut out, 100);
    assert_eq!(batch.poll(&waker), Polled::Pending);
    for i in 0..150 {
        tx.try_send(i).unwrap();
    }
    assert_eq!(batch.poll(&waker), Polled::Ready(Ok(100)));
    let expected: Vec<i32> = (0..100).collect();
    assert_eq!(out, expected);
    assert_eq!(rx.len(), 50);
}
