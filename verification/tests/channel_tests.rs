use std::sync::atomic::AtomicUsize;
use std::sync::atomic::Ordering;
use std::sync::Arc;
use std::task::Wake;
use std::task::Waker;

use rapidfire::bounded;
use rapidfire::unbounded;
use rapidfire::Polled;
use rapidfire::Receiver;
use rapidfire::RecvError;
use rapidfire::SendError;
use rapidfire::Sender;
use rapidfire::TryRecvError;
use rapidfire::TrySendError;

/// A waker that counts how often it was woken.
struct WakeCounter(AtomicUsize);

impl WakeCounter {
    fn new() -> Arc<Self> {
        Arc::new(WakeCounter(AtomicUsize::new(0)))
    }

    fn count(&self) -> usize {
        self.0.load(Ordering::SeqCst)
    }
}

impl Wake for WakeCounter {
    fn wake(self: Arc<Self>) {
        self.0.fetch_add(1, Ordering::SeqCst);
    }
}

fn noop_waker() -> Waker {
    Waker::from(WakeCounter::new())
}

/// Sends without having to wait.
fn send_now<T>(tx: &Sender<T>, msg: T) -> Result<(), SendError<T>> {
    match tx.send(msg).poll(&noop_waker()) {
        Polled::Ready(r) => r,
        Polled::Pending => panic!("had to wait"),
    }
}

/// Receives without having to wait.
fn recv_now<T>(rx: &Receiver<T>) -> Result<T, RecvError> {
    match rx.recv().poll(&noop_waker()) {
        Polled::Ready(r) => r,
        Polled::Pending => panic!("had to wait"),
    }
}

#[test]
fn test_unbounded_basic_send_recv() {
    let (tx, rx) = unbounded::<i32>();
    assert!(rx.is_empty());
    assert_eq!(rx.len(), 0);

    send_now(&tx, 42).unwrap();
    assert!(!rx.is_empty());
    assert_eq!(rx.len(), 1);

    let val = recv_now(&rx).unwrap();
    assert_eq!(val, 42);
    assert!(rx.is_empty());
    assert_eq!(rx.len(), 0);
}

#[test]
fn test_try_send_try_recv() {
    let (tx, rx) = unbounded::<String>();

    assert_eq!(rx.try_recv(), Err(TryRecvError::Empty));
    assert!(TryRecvError::Empty.is_empty());
    assert!(!TryRecvError::Empty.is_closed());

    tx.try_send("hello".to_string()).unwrap();
    assert_eq!(rx.len(), 1);

    let val = rx.try_recv().unwrap();
    assert_eq!(val, "hello");
    assert_eq!(rx.try_recv(), Err(TryRecvError::Empty));
}

#[test]
fn test_close_and_drain() {
    let (tx, rx) = unbounded::<usize>();
    for i in 0..5 {
        send_now(&tx, i).unwrap();
    }

    assert!(tx.close());
    assert!(!tx.close()); // Second close returns false
    assert!(tx.is_closed());
    assert!(rx.is_closed());

    // Messages can still be drained after close
    for i in 0..5 {
        assert_eq!(recv_now(&rx).unwrap(), i);
    }

    // Now that it's empty and closed, recv returns RecvError
    assert_eq!(recv_now(&rx), Err(RecvError));
    assert_eq!(rx.try_recv(), Err(TryRecvError::Closed));
    assert!(TryRecvError::Closed.is_closed());
    assert!(!TryRecvError::Closed.is_empty());

    // Sending on closed returns error
    assert_eq!(send_now(&tx, 100), Err(SendError(100)));
    assert_eq!(tx.try_send(100), Err(TrySendError::Closed(100)));
}

#[test]
fn test_sender_drop_closes_channel() {
    let (tx, rx) = unbounded::<i32>();
    send_now(&tx, 1).unwrap();
    send_now(&tx, 2).unwrap();
    assert!(tx.disconnect());

    assert!(rx.is_closed());
    assert_eq!(recv_now(&rx).unwrap(), 1);
    assert_eq!(recv_now(&rx).unwrap(), 2);
    assert_eq!(recv_now(&rx), Err(RecvError));
}

#[test]
fn test_receiver_drop_closes_channel() {
    let (tx, rx) = unbounded::<i32>();
    assert!(rx.disconnect());

    assert!(tx.is_closed());
    assert_eq!(send_now(&tx, 1), Err(SendError(1)));
    assert_eq!(tx.try_send(2), Err(TrySendError::Closed(2)));
}

#[test]
fn test_counts_and_clones() {
    let (tx1, rx1) = unbounded::<i32>();
    assert_eq!(tx1.sender_count(), 1);
    assert_eq!(tx1.receiver_count(), 1);
    assert_eq!(rx1.sender_count(), 1);
    assert_eq!(rx1.receiver_count(), 1);
    assert_eq!(tx1.capacity(), None);
    assert_eq!(rx1.capacity(), None);

    let tx2 = tx1.clone();
    assert_eq!(tx1.sender_count(), 2);

    let rx2 = rx1.clone();
    assert_eq!(rx1.receiver_count(), 2);

    assert!(!tx1.disconnect());
    assert_eq!(tx2.sender_count(), 1);
    assert!(!tx2.is_closed());

    assert!(!rx1.disconnect());
    assert_eq!(rx2.receiver_count(), 1);
    assert!(!rx2.is_closed());
}

#[test]
fn test_bounded_channel() {
    let (tx, rx) = bounded::<i32>(2);
    assert_eq!(tx.capacity(), Some(2));
    assert_eq!(rx.capacity(), Some(2));

    tx.try_send(1).unwrap();
    tx.try_send(2).unwrap();

    // 3rd should be full
    let err = tx.try_send(3).unwrap_err();
    assert!(err.is_full());
    assert!(!err.is_closed());
    assert_eq!(err.into_inner(), 3);

    // A sender that waits
    let tx_clone = tx.clone();
    let counter = WakeCounter::new();
    let waker = Waker::from(counter.clone());
    let mut send = tx_clone.send(3);
    assert_eq!(send.poll(&waker), Polled::Pending);

    // Popping one item should unblock the sender
    assert_eq!(recv_now(&rx).unwrap(), 1);
    assert_eq!(counter.count(), 1);
    assert_eq!(send.poll(&waker), Polled::Ready(Ok(())));

    assert_eq!(recv_now(&rx).unwrap(), 2);
    assert_eq!(recv_now(&rx).unwrap(), 3);
}

#[test]
fn test_bounded_channel_close_while_sending() {
    let (tx, rx) = bounded::<i32>(1);
    send_now(&tx, 1).unwrap();

    let tx_clone = tx.clone();
    let counter = WakeCounter::new();
    let waker = Waker::from(counter.clone());
    let mut send = tx_clone.send(2);
    assert_eq!(send.poll(&waker), Polled::Pending);
    rx.close();
    assert_eq!(counter.count(), 1);
    assert_eq!(send.poll(&waker), Polled::Ready(Err(SendError(2))));
}

#[test]
fn test_select_cancellation_safety() {
    let (tx, rx) = unbounded::<i32>();

    // A receive that is given up while it waits
    let mut recv = rx.recv();
    assert_eq!(recv.poll(&noop_waker()), Polled::Pending);
    recv.cancel();

    // Now send and receive normally
    send_now(&tx, 999).unwrap();
    assert_eq!(recv_now(&rx).unwrap(), 999);
}

#[test]
fn test_debug_and_display() {
    let send_err = SendError(123);
    assert_eq!(send_err.into_inner(), 123);
    assert_eq!(SendError(123).to_string(), "sending on a closed channel");
    assert_eq!(SendError(123).debug_string(), "SendError");

    let recv_err = RecvError;
    assert_eq!(
        recv_err.to_string(),
        "receiving on an empty and closed channel"
    );

    let try_send_full = TrySendError::Full(456);
    assert_eq!(try_send_full.into_inner(), 456);
    assert_eq!(
        TrySendError::Full(456).to_string(),
        "sending on a full channel"
    );
    assert_eq!(TrySendError::Full(456).debug_string(), "TrySendError::Full");

    let try_send_closed = TrySendError::Closed(789);
    assert_eq!(try_send_closed.into_inner(), 789);
    assert_eq!(
        TrySendError::Closed(789).to_string(),
        "sending on a closed channel"
    );
    assert_eq!(
        TrySendError::Closed(789).debug_string(),
        "TrySendError::Closed"
    );

    let try_recv_empty = TryRecvError::Empty;
    assert_eq!(try_recv_empty.to_string(), "receiving on an empty channel");

    let try_recv_closed = TryRecvError::Closed;
    assert_eq!(
        try_recv_closed.to_string(),
        "receiving on an empty and closed channel"
    );
}

#[test]
fn test_tx_is_empty() {
    let (tx, rx) = unbounded::<i32>();
    assert!(tx.is_empty());
    assert_eq!(tx.len(), 0);
    send_now(&tx, 10).unwrap();
    assert!(!tx.is_empty());
    assert_eq!(tx.len(), 1);
    let _ = recv_now(&rx).unwrap();
    assert!(tx.is_empty());
}

#[test]
fn test_close_wakes_waiting_receivers() {
    let (tx, rx) = unbounded::<i32>();
    let counter = WakeCounter::new();
    let waker = Waker::from(counter.clone());
    let mut recv = rx.recv();
    assert_eq!(recv.poll(&waker), Polled::Pending);

    tx.close();
    assert_eq!(counter.count(), 1);
    assert_eq!(recv.poll(&waker), Polled::Ready(Err(RecvError)));
}

#[test]
fn test_bounded_send_select_cancellation_safety() {
    let (tx, rx) = bounded::<i32>(1);
    send_now(&tx, 1).unwrap();

    // A send into a full channel that is given up
    let tx_clone = tx.clone();
    let mut send = tx_clone.send(2);
    assert_eq!(send.poll(&noop_waker()), Polled::Pending);
    send.cancel();

    // Space is cleared now
    assert_eq!(recv_now(&rx).unwrap(), 1);
    send_now(&tx, 3).unwrap();
    assert_eq!(recv_now(&rx).unwrap(), 3);
}

#[test]
fn test_bounded_send_unblocks_when_space_opens() {
    let (tx, rx) = bounded::<i32>(1);
    send_now(&tx, 10).unwrap();

    let tx_clone = tx.clone();
    let counter = WakeCounter::new();
    let waker = Waker::from(counter.clone());
    let mut send = tx_clone.send(20);
    assert_eq!(send.poll(&waker), Polled::Pending);

    assert_eq!(recv_now(&rx).unwrap(), 10);
    assert_eq!(counter.count(), 1);
    assert_eq!(send.poll(&waker), Polled::Ready(Ok(())));
    assert_eq!(recv_now(&rx).unwrap(), 20);
}

#[test]
fn test_manual_poll_recv_re_registration_and_receive() {
    let (tx, rx) = unbounded::<i32>();
    let waker1 = noop_waker();
    let mut recv_fut = rx.recv();

    // 1st poll: registers waker and returns Pending
    assert_eq!(recv_fut.poll(&waker1), Polled::Pending);

    // 2nd poll with different waker: updates waker
    let waker2 = noop_waker();
    assert_eq!(recv_fut.poll(&waker2), Polled::Pending);

    // Send item
    tx.try_send(42).unwrap();

    // 3rd poll: receives item
    assert_eq!(recv_fut.poll(&waker2), Polled::Ready(Ok(42)));
}

#[test]
fn test_manual_poll_recv_closed_while_pending() {
    let (tx, rx) = unbounded::<i32>();
    let waker = noop_waker();
    let mut recv_fut = rx.recv();
    assert_eq!(recv_fut.poll(&waker), Polled::Pending);

    tx.close();
    assert_eq!(recv_fut.poll(&waker), Polled::Ready(Err(RecvError)));
}

#[test]
fn test_manual_poll_send_re_registration_and_send() {
    let (tx, rx) = bounded::<i32>(1);
    tx.try_send(10).unwrap();

    let waker1 = noop_waker();
    let mut send_fut = tx.send(20);

    // 1st poll: registers waker and returns Pending
    assert_eq!(send_fut.poll(&waker1), Polled::Pending);

    // 2nd poll with different waker: updates waker
    let waker2 = noop_waker();
    assert_eq!(send_fut.poll(&waker2), Polled::Pending);

    // Clear space
    assert_eq!(rx.try_recv().unwrap(), 10);

    // 3rd poll: completes send
    assert_eq!(send_fut.poll(&waker2), Polled::Ready(Ok(())));
    assert_eq!(rx.try_recv().unwrap(), 20);
}

#[test]
fn test_manual_poll_send_closed_while_pending() {
    let (tx, rx) = bounded::<i32>(1);
    tx.try_send(1).unwrap();

    let waker = noop_waker();
    let mut send_fut = tx.send(2);
    assert_eq!(send_fut.poll(&waker), Polled::Pending);

    rx.close();
    assert_eq!(send_fut.poll(&waker), Polled::Ready(Err(SendError(2))));
}

#[test]
fn cancelled_notified_receiver_forwards_wakeup() {
    let (tx, rx) = unbounded::<i32>();
    let rx2 = rx.clone();

    let mut r1 = rx.recv();
    assert_eq!(r1.poll(&noop_waker()), Polled::Pending);

    let counter = WakeCounter::new();
    let waker = Waker::from(counter.clone());
    let mut r2 = rx2.recv();
    assert_eq!(r2.poll(&waker), Polled::Pending);

    // The send wakes R1; R1 is then given up.
    tx.try_send(7).unwrap();
    assert_eq!(counter.count(), 0);
    r1.cancel();

    assert_eq!(counter.count(), 1);
    assert_eq!(r2.poll(&waker), Polled::Ready(Ok(7)));
}

#[test]
fn cancelled_notified_sender_forwards_wakeup() {
    let (tx, rx) = bounded::<i32>(1);
    tx.try_send(1).unwrap();
    let tx2 = tx.clone();

    let mut s1 = tx.send(2);
    assert_eq!(s1.poll(&noop_waker()), Polled::Pending);

    let counter = WakeCounter::new();
    let waker = Waker::from(counter.clone());
    let mut s2 = tx2.send(3);
    assert_eq!(s2.poll(&waker), Polled::Pending);

    assert_eq!(rx.try_recv(), Ok(1)); // wakes S1
    assert_eq!(counter.count(), 0);
    s1.cancel();

    assert_eq!(counter.count(), 1);
    assert_eq!(s2.poll(&waker), Polled::Ready(Ok(())));
    assert_eq!(rx.try_recv(), Ok(3));
}

#[test]
fn test_send_sync_static_assertions() {
    fn assert_send<T: Send>() {}
    fn assert_sync<T: Sync>() {}

    assert_send::<rapidfire::Sender<usize>>();
    assert_sync::<rapidfire::Sender<usize>>();
    assert_send::<rapidfire::Receiver<usize>>();
    assert_sync::<rapidfire::Receiver<usize>>();
}

#[test]
fn test_all_error_types_debug_display_and_traits() {
    // SendError
    let se1 = SendError("err_val");
    let se2 = se1;
    assert_eq!(se1, se2);
    assert_eq!(se1.debug_string(), "SendError");
    assert_eq!(se1.to_string(), "sending on a closed channel");
    assert_eq!(se1.into_inner(), "err_val");

    // RecvError
    let re1 = RecvError;
    let re2 = re1;
    assert_eq!(re1, re2);
    assert_eq!(format!("{:?}", re1), "RecvError");
    assert_eq!(re1.to_string(), "receiving on an empty and closed channel");

    // TrySendError::Full
    let tse_full = TrySendError::Full(100);
    let tse_full2 = tse_full;
    assert_eq!(tse_full, tse_full2);
    assert!(tse_full.is_full());
    assert!(!tse_full.is_closed());
    assert_eq!(tse_full.debug_string(), "TrySendError::Full");
    assert_eq!(tse_full.to_string(), "sending on a full channel");
    assert_eq!(tse_full.into_inner(), 100);

    // TrySendError::Closed
    let tse_closed = TrySendError::Closed(200);
    let tse_closed2 = tse_closed;
    assert_eq!(tse_closed, tse_closed2);
    assert!(!tse_closed.is_full());
    assert!(tse_closed.is_closed());
    assert_eq!(tse_closed.debug_string(), "TrySendError::Closed");
    assert_eq!(tse_closed.to_string(), "sending on a closed channel");
    assert_eq!(tse_closed.into_inner(), 200);

    assert_ne!(TrySendError::Full(10), TrySendError::Closed(10));

    // TryRecvError::Empty
    let tre_empty = TryRecvError::Empty;
    let tre_empty2 = tre_empty;
    assert_eq!(tre_empty, tre_empty2);
    assert!(tre_empty.is_empty());
    assert!(!tre_empty.is_closed());
    assert_eq!(format!("{:?}", tre_empty), "Empty");
    assert_eq!(tre_empty.to_string(), "receiving on an empty channel");

    // TryRecvError::Closed
    let tre_closed = TryRecvError::Closed;
    let tre_closed2 = tre_closed;
    assert_eq!(tre_closed, tre_closed2);
    assert!(!tre_closed.is_empty());
    assert!(tre_closed.is_closed());
    assert_eq!(format!("{:?}", tre_closed), "Closed");
    assert_eq!(
        tre_closed.to_string(),
        "receiving on an empty and closed channel"
    );

    assert_ne!(TryRecvError::Empty, TryRecvError::Closed);
}

#[test]
fn test_recv_future_re_polled_after_completion() {
    let (tx, rx) = unbounded::<i32>();
    let waker = noop_waker();

    tx.try_send(42).unwrap();
    let mut recv_fut = rx.recv();
    assert_eq!(recv_fut.poll(&waker), Polled::Ready(Ok(42)));

    // Polling again on empty channel returns Pending
    assert_eq!(recv_fut.poll(&waker), Polled::Pending);

    // Close channel and poll again: returns Ready(Err(RecvError))
    tx.close();
    assert_eq!(recv_fut.poll(&waker), Polled::Ready(Err(RecvError)));
}

#[test]
fn test_send_and_recv_waker_will_wake_dedup() {
    // 1. Recv
    let (tx, rx) = unbounded::<i32>();
    let waker1 = noop_waker();
    let mut recv_fut = rx.recv();
    assert_eq!(recv_fut.poll(&waker1), Polled::Pending);

    let waker1_clone = waker1.clone();
    assert_eq!(recv_fut.poll(&waker1_clone), Polled::Pending);

    let waker2 = noop_waker();
    assert_eq!(recv_fut.poll(&waker2), Polled::Pending);

    tx.try_send(99).unwrap();
    assert_eq!(recv_fut.poll(&waker2), Polled::Ready(Ok(99)));

    // 2. Send
    let (tx_b, rx_b) = bounded::<i32>(1);
    tx_b.try_send(1).unwrap();
    let mut send_fut = tx_b.send(2);

    assert_eq!(send_fut.poll(&waker1), Polled::Pending);
    assert_eq!(send_fut.poll(&waker1_clone), Polled::Pending);
    assert_eq!(send_fut.poll(&waker2), Polled::Pending);

    assert_eq!(rx_b.try_recv().unwrap(), 1);
    assert_eq!(send_fut.poll(&waker2), Polled::Ready(Ok(())));
    assert_eq!(rx_b.try_recv().unwrap(), 2);
}

#[test]
fn test_waiter_re_registration_after_notify_popped_entry() {
    // Recv side:
    let (tx, rx) = unbounded::<i32>();
    let rx2 = rx.clone();
    let waker1 = noop_waker();

    let mut r = rx.recv();
    assert_eq!(r.poll(&waker1), Polled::Pending);

    // tx sends, waking r
    tx.try_send(1).unwrap();

    // rx2 races and takes the value before r polls
    assert_eq!(rx2.try_recv().unwrap(), 1);

    // r polls again on empty channel and registers anew
    assert_eq!(r.poll(&waker1), Polled::Pending);

    // Send another value, r receives it
    tx.try_send(2).unwrap();
    assert_eq!(r.poll(&waker1), Polled::Ready(Ok(2)));

    // Send side:
    let (tx_b, rx_b) = bounded::<i32>(1);
    let tx_b2 = tx_b.clone();
    tx_b.try_send(10).unwrap();

    let mut s = tx_b.send(20);
    assert_eq!(s.poll(&waker1), Polled::Pending);

    // rx_b pops, waking s
    assert_eq!(rx_b.try_recv().unwrap(), 10);

    // tx_b2 races and takes the available slot
    tx_b2.try_send(30).unwrap();

    // s polls again on full channel and registers anew
    assert_eq!(s.poll(&waker1), Polled::Pending);

    // Clear slot, s completes
    assert_eq!(rx_b.try_recv().unwrap(), 30);
    assert_eq!(s.poll(&waker1), Polled::Ready(Ok(())));
    assert_eq!(rx_b.try_recv().unwrap(), 20);
}

#[test]
fn test_cancellation_forwarding_chain_multiple_waiters() {
    let waker = noop_waker();

    // 1. Receivers chain
    let (tx, rx) = unbounded::<i32>();
    let rx4 = rx.clone();

    let mut r1 = rx.recv();
    assert_eq!(r1.poll(&waker), Polled::Pending);
    let mut r2 = rx.recv();
    assert_eq!(r2.poll(&waker), Polled::Pending);
    let mut r3 = rx.recv();
    assert_eq!(r3.poll(&waker), Polled::Pending);
    let mut r4 = rx4.recv();
    assert_eq!(r4.poll(&waker), Polled::Pending);

    // Send 1 item: wakes R1
    tx.try_send(777).unwrap();
    // R1 forwards to R2, R2 to R3, R3 to R4
    r1.cancel();
    r2.cancel();
    r3.cancel();

    // R4 receives the item
    assert_eq!(r4.poll(&waker), Polled::Ready(Ok(777)));

    // 2. Senders chain
    let (tx_b, rx_b) = bounded::<i32>(1);
    tx_b.try_send(1).unwrap();
    let tx_b4 = tx_b.clone();

    let mut s1 = tx_b.send(10);
    assert_eq!(s1.poll(&waker), Polled::Pending);
    let mut s2 = tx_b.send(20);
    assert_eq!(s2.poll(&waker), Polled::Pending);
    let mut s3 = tx_b.send(30);
    assert_eq!(s3.poll(&waker), Polled::Pending);
    let mut s4 = tx_b4.send(40);
    assert_eq!(s4.poll(&waker), Polled::Pending);

    // Pop 1 item: wakes S1
    assert_eq!(rx_b.try_recv().unwrap(), 1);
    s1.cancel();
    s2.cancel();
    s3.cancel();

    // S4 completes send
    assert_eq!(s4.poll(&waker), Polled::Ready(Ok(())));
    assert_eq!(rx_b.try_recv().unwrap(), 40);
}

#[test]
fn test_cancellation_with_close_racing() {
    let waker = noop_waker();

    // Receivers:
    let (tx, rx) = unbounded::<i32>();
    let mut r1 = rx.recv();
    assert_eq!(r1.poll(&waker), Polled::Pending);
    let mut r2 = rx.recv();
    assert_eq!(r2.poll(&waker), Polled::Pending);

    // Send item 1 -> wakes R1
    tx.try_send(1).unwrap();
    // Close channel
    tx.close();
    r1.cancel();

    // R2 receives item 1
    assert_eq!(r2.poll(&waker), Polled::Ready(Ok(1)));

    // Senders:
    let (tx_b, rx_b) = bounded::<i32>(1);
    tx_b.try_send(1).unwrap();
    let mut s1 = tx_b.send(2);
    assert_eq!(s1.poll(&waker), Polled::Pending);
    let mut s2 = tx_b.send(3);
    assert_eq!(s2.poll(&waker), Polled::Pending);

    // Close channel: wakes all waiters
    rx_b.close();
    s1.cancel();

    assert_eq!(s2.poll(&waker), Polled::Ready(Err(SendError(3))));
}

#[test]
fn test_close_from_sender_and_receiver_all_notify_all_paths() {
    // Closing from either side wakes all parked receivers.
    for from_sender in [true, false] {
        let (tx, rx) = unbounded::<i32>();
        let counter = WakeCounter::new();
        let waker = Waker::from(counter.clone());
        let mut pending: Vec<_> = (0..4).map(|_| rx.recv()).collect();
        for r in &mut pending {
            assert_eq!(r.poll(&waker), Polled::Pending);
        }
        assert!(if from_sender { tx.close() } else { rx.close() });
        assert_eq!(counter.count(), 4);
        for r in &mut pending {
            assert_eq!(r.poll(&waker), Polled::Ready(Err(RecvError)));
        }
    }

    // Closing from either side wakes all parked senders.
    for (from_sender, first) in [(true, 10), (false, 20)] {
        let (tx, rx) = bounded::<i32>(1);
        tx.try_send(1).unwrap();
        let counter = WakeCounter::new();
        let waker = Waker::from(counter.clone());
        let mut pending: Vec<_> = (0..4).map(|i| tx.send(i + first)).collect();
        for s in &mut pending {
            assert_eq!(s.poll(&waker), Polled::Pending);
        }
        assert!(if from_sender { tx.close() } else { rx.close() });
        assert_eq!(counter.count(), 4);
        for (i, s) in pending.iter_mut().enumerate() {
            assert_eq!(
                s.poll(&waker),
                Polled::Ready(Err(SendError(i as i32 + first)))
            );
        }
    }
}

#[test]
fn test_try_recv_closed_drain_loop() {
    let (tx, rx) = unbounded::<usize>();
    const COUNT: usize = 200;
    for i in 0..COUNT {
        tx.try_send(i).unwrap();
    }
    assert!(tx.close());
    assert!(tx.is_closed());
    assert!(rx.is_closed());

    for i in 0..COUNT {
        assert_eq!(rx.try_recv(), Ok(i));
    }

    for _ in 0..5 {
        assert_eq!(rx.try_recv(), Err(TryRecvError::Closed));
        assert!(rx.is_empty());
        assert_eq!(rx.len(), 0);
    }
}

#[test]
fn test_receiver_debug_dump_variants() {
    let (tx, rx) = unbounded::<usize>();

    // Empty queue
    let d_empty = rx.__debug_dump();
    assert_eq!(d_empty.head, 0);
    assert_eq!(d_empty.tail, 0);

    // Partially filled queue
    tx.try_send(1).unwrap();
    tx.try_send(2).unwrap();
    let d_partial = rx.__debug_dump();
    assert_eq!(d_partial.tail, 2);

    // Multi-block queue
    for i in 3..200 {
        tx.try_send(i).unwrap();
    }
    let d_multi = rx.__debug_dump();
    assert_eq!(d_multi.trail.len(), 4);

    // Drained queue
    for _ in 0..199 {
        let _ = rx.try_recv().unwrap();
    }
    let d_drained = rx.__debug_dump();
    assert_eq!(d_drained.head, d_drained.tail);
    assert!(!d_drained.trail.is_empty());
}

#[test]
fn test_dropping_channel_unread_values_multi_block() {
    struct DropItem(Arc<AtomicUsize>);
    impl Drop for DropItem {
        fn drop(&mut self) {
            self.0.fetch_add(1, Ordering::SeqCst);
        }
    }

    let drops = Arc::new(AtomicUsize::new(0));
    const TOTAL: usize = 350;
    const READ: usize = 70;

    let (tx, rx) = unbounded::<DropItem>();
    for _ in 0..TOTAL {
        assert!(tx.try_send(DropItem(drops.clone())).is_ok());
    }
    for _ in 0..READ {
        assert!(rx.try_recv().is_ok());
    }
    assert_eq!(drops.load(Ordering::SeqCst), READ);
    // The remaining items are dropped with the last handle
    tx.disconnect();
    assert_eq!(drops.load(Ordering::SeqCst), READ);
    rx.disconnect();
    assert_eq!(drops.load(Ordering::SeqCst), TOTAL);

    // Bounded channel drop test
    let drops_b = Arc::new(AtomicUsize::new(0));
    let (tx_b, rx_b) = bounded::<DropItem>(100);
    for _ in 0..80 {
        assert!(tx_b.try_send(DropItem(drops_b.clone())).is_ok());
    }
    rx_b.disconnect();
    tx_b.disconnect();
    assert_eq!(drops_b.load(Ordering::SeqCst), 80);
}

#[test]
fn test_zero_sized_and_large_types() {
    // Zero-sized type ()
    let (tx_z, rx_z) = unbounded::<()>();
    for _ in 0..300 {
        tx_z.try_send(()).unwrap();
    }
    assert_eq!(tx_z.len(), 300);
    for _ in 0..300 {
        assert_eq!(rx_z.try_recv(), Ok(()));
    }
    assert!(rx_z.is_empty());

    // Bounded zero-sized type
    let (tx_zb, rx_zb) = bounded::<()>(5);
    for _ in 0..5 {
        tx_zb.try_send(()).unwrap();
    }
    assert!(tx_zb.try_send(()).is_err());
    for _ in 0..5 {
        assert_eq!(rx_zb.try_recv(), Ok(()));
    }

    // Large type [u64; 32] (256 bytes per element)
    let (tx_b, rx_b) = unbounded::<[u64; 32]>();
    for i in 0..150u64 {
        let mut val = [0u64; 32];
        val[0] = i;
        val[31] = i * 10;
        tx_b.try_send(val).unwrap();
    }
    for i in 0..150u64 {
        let val = rx_b.try_recv().unwrap();
        assert_eq!(val[0], i);
        assert_eq!(val[31], i * 10);
    }
}

#[test]
fn test_block_pool_slow_paths() {
    let (tx, rx) = unbounded::<usize>();
    const COUNT: usize = 20_000;

    for round in 0..3 {
        for i in 0..COUNT {
            tx.try_send(round * 1_000_000 + i).unwrap();
        }
        for i in 0..COUNT {
            assert_eq!(rx.try_recv().unwrap(), round * 1_000_000 + i);
        }
        assert_eq!(rx.try_recv(), Err(TryRecvError::Empty));
    }
}

#[test]
fn test_bounded_backpressure_all_capacities() {
    for cap in [1usize, 2, 63, 64, 65, 1000] {
        let (tx, rx) = bounded::<usize>(cap);
        assert_eq!(tx.capacity(), Some(cap));
        assert_eq!(rx.capacity(), Some(cap));

        for i in 0..cap {
            tx.try_send(i).unwrap();
        }
        assert_eq!(tx.len(), cap);
        assert_eq!(tx.try_send(cap), Err(TrySendError::Full(cap)));

        // An extra send that waits
        let counter = WakeCounter::new();
        let waker = Waker::from(counter.clone());
        let mut extra = tx.send(cap);
        assert_eq!(extra.poll(&waker), Polled::Pending);

        // Pop 1 item
        assert_eq!(recv_now(&rx).unwrap(), 0);
        assert_eq!(counter.count(), 1);
        assert_eq!(extra.poll(&waker), Polled::Ready(Ok(())));

        // Drain remaining cap items (1..=cap)
        for expected in 1..=cap {
            assert_eq!(recv_now(&rx).unwrap(), expected);
        }
        assert!(rx.is_empty());
        assert_eq!(rx.len(), 0);
    }
}

#[test]
fn test_futures_manual_poll_edge_cases() {
    let waker = noop_waker();

    // 1. Send on channel closed before poll
    let (tx, rx) = bounded::<i32>(1);
    tx.try_send(1).unwrap();
    rx.close();
    let mut send_fut = tx.send(2);
    assert_eq!(send_fut.poll(&waker), Polled::Ready(Err(SendError(2))));

    // 2. Recv on channel closed before poll
    let (tx2, rx2) = unbounded::<i32>();
    tx2.close();
    let mut recv_fut = rx2.recv();
    assert_eq!(recv_fut.poll(&waker), Polled::Ready(Err(RecvError)));

    // 3. Give up Send and Recv without ever polling
    let (tx3, rx3) = bounded::<i32>(1);
    let mut s_unpolled = tx3.send(1);
    s_unpolled.cancel();
    let mut r_unpolled = rx3.recv();
    r_unpolled.cancel();

    // 4. Give up Send and Recv while still parked
    let (tx4, _rx4) = bounded::<i32>(1);
    tx4.try_send(1).unwrap();
    let mut s_parked = tx4.send(2);
    assert_eq!(s_parked.poll(&waker), Polled::Pending);
    s_parked.cancel();

    let (_tx5, rx5) = unbounded::<i32>();
    let mut r_parked = rx5.recv();
    assert_eq!(r_parked.poll(&waker), Polled::Pending);
    r_parked.cancel();
}

#[test]
fn test_bounded_cached_head_refresh() {
    let (tx, rx) = bounded::<usize>(2);
    tx.try_send(1).unwrap();
    tx.try_send(2).unwrap();
    assert!(tx.try_send(3).is_err());
    assert_eq!(rx.try_recv().unwrap(), 1);
    assert!(tx.try_send(3).is_ok());
    assert!(tx.try_send(4).is_err());
    assert_eq!(rx.try_recv().unwrap(), 2);
    assert_eq!(rx.try_recv().unwrap(), 3);
}

// ------------------------------------------------------------------- more cases

#[test]
fn the_largest_capacity_is_a_bound_too() {
    let (tx, rx) = bounded::<u8>(usize::MAX);
    assert_eq!(tx.capacity(), Some(usize::MAX));
    assert_eq!(rx.capacity(), Some(usize::MAX));
    let (only, one) = rapidfire::mpsc::bounded::<u8>(usize::MAX);
    assert_eq!(only.capacity(), Some(usize::MAX));
    assert_eq!(one.capacity(), Some(usize::MAX));
    assert_eq!(unbounded::<u8>().0.capacity(), None);
    tx.try_send(1).unwrap();
    assert_eq!(rx.try_recv(), Ok(1));
}

#[test]
fn a_send_keeps_its_message_until_it_is_done() {
    let (tx, rx) = bounded::<u8>(1);
    tx.try_send(1).unwrap();
    let waker = noop_waker();
    let mut send = tx.send(2);
    assert!(send.is_waiting());
    assert_eq!(send.poll(&waker), Polled::Pending);
    assert!(send.is_waiting());
    assert_eq!(rx.try_recv(), Ok(1));
    assert_eq!(send.poll(&waker), Polled::Ready(Ok(())));
    assert!(!send.is_waiting());
}

#[test]
fn a_completed_receive_leaves_later_wakeups_to_others() {
    let (tx, rx) = unbounded::<u8>();
    let first = WakeCounter::new();
    let second = WakeCounter::new();
    let waker1 = Waker::from(first.clone());
    let waker2 = Waker::from(second.clone());
    let mut r1 = rx.recv();
    let mut r2 = rx.recv();
    assert_eq!(r1.poll(&waker1), Polled::Pending);
    assert_eq!(r2.poll(&waker2), Polled::Pending);

    // The first message wakes one; it completes and waits no more.
    tx.try_send(1).unwrap();
    assert_eq!((first.count(), second.count()), (1, 0));
    assert_eq!(r1.poll(&waker1), Polled::Ready(Ok(1)));

    // The second one wakes the other.
    tx.try_send(2).unwrap();
    assert_eq!((first.count(), second.count()), (1, 1));
    assert_eq!(r2.poll(&waker2), Polled::Ready(Ok(2)));
}

#[test]
fn a_receive_that_is_polled_again_passes_its_place_on() {
    let (tx, rx) = unbounded::<u8>();
    let first = WakeCounter::new();
    let second = WakeCounter::new();
    let waker1 = Waker::from(first.clone());
    let waker2 = Waker::from(second.clone());
    let mut r1 = rx.recv();
    let mut r2 = rx.recv();
    assert_eq!(r1.poll(&waker1), Polled::Pending);
    assert_eq!(r2.poll(&waker2), Polled::Pending);
    assert_eq!(r1.poll(&waker1), Polled::Pending);
    for m in 0..2 {
        tx.try_send(m).unwrap();
    }
    assert_eq!((first.count(), second.count()), (1, 1));
}

#[test]
fn receivers_compete_and_each_message_goes_to_one() {
    let (tx, rx) = unbounded::<usize>();
    let other = rx.clone();
    for i in 0..300 {
        tx.try_send(i).unwrap();
    }
    let mut got = Vec::new();
    for i in 0..300 {
        let from = if i % 3 == 0 { &other } else { &rx };
        got.push(from.try_recv().unwrap());
    }
    let expected: Vec<usize> = (0..300).collect();
    assert_eq!(got, expected);
    assert!(other.is_empty());
}

#[test]
fn waker_drop_reenters_after_slot_is_free() {
    /// Uses the channel again when the last waker is dropped.
    struct Reenter {
        rx: Receiver<u8>,
        calls: Arc<AtomicUsize>,
    }
    impl Wake for Reenter {
        fn wake(self: Arc<Self>) {}
    }
    impl Drop for Reenter {
        fn drop(&mut self) {
            let mut again = self.rx.recv();
            assert_eq!(again.poll(&noop_waker()), Polled::Pending);
            again.cancel();
            self.calls.fetch_add(1, Ordering::SeqCst);
        }
    }

    let (_tx, rx) = unbounded::<u8>();
    let calls = Arc::new(AtomicUsize::new(0));
    let waker = Waker::from(Arc::new(Reenter { rx: rx.clone(), calls: calls.clone() }));
    let mut recv = rx.recv();
    assert_eq!(recv.poll(&waker), Polled::Pending);
    drop(waker);
    assert_eq!(calls.load(Ordering::SeqCst), 0);
    recv.cancel();
    assert_eq!(calls.load(Ordering::SeqCst), 1);
}

#[test]
fn wakers_run_outside_the_channel() {
    /// Looks at the channel when it is woken.
    struct Look {
        rx: Receiver<u8>,
        seen: AtomicUsize,
    }
    impl Wake for Look {
        fn wake(self: Arc<Self>) {
            self.seen.fetch_add(self.rx.len() + 1, Ordering::SeqCst);
        }
    }

    let (tx, rx) = unbounded::<u8>();
    let look = Arc::new(Look { rx: rx.clone(), seen: AtomicUsize::new(0) });
    let waker = Waker::from(look.clone());
    let mut recv = rx.recv();
    assert_eq!(recv.poll(&waker), Polled::Pending);
    tx.try_send(1).unwrap();
    assert_eq!(look.seen.load(Ordering::SeqCst), 2);
    assert_eq!(recv.poll(&waker), Polled::Ready(Ok(1)));
    assert_eq!(recv.poll(&waker), Polled::Pending);
    tx.close();
    assert_eq!(look.seen.load(Ordering::SeqCst), 3);
}

#[test]
fn sending_and_receiving_undo_each_other() {
    let (tx, rx) = bounded::<u8>(1);
    for m in 0..200 {
        tx.try_send(m).unwrap();
        assert_eq!(tx.try_send(m), Err(TrySendError::Full(m)));
        assert_eq!(rx.try_recv(), Ok(m));
        assert_eq!(rx.try_recv(), Err(TryRecvError::Empty));
    }
    rx.close();
    assert!(tx.is_closed());
    assert_eq!(tx.try_send(1), Err(TrySendError::Closed(1)));
    assert_eq!(rx.try_recv(), Err(TryRecvError::Closed));
    assert!(rx.is_closed());
}
