use rapidfire::channel::Channel;
use rapidfire::channel::RecvState;
use rapidfire::TryRecvError;
use rapidfire::TrySendError;

#[test]
fn steps_return_the_wakers_they_select() {
    let mut c: Channel<u8, &str> = Channel::new(Some(1));
    let mut receiver = None;
    assert_eq!(c.park_receiver(&mut receiver, "r"), 0);
    assert_eq!(c.try_send(1), (Ok(()), Some("r")));
    assert_eq!(c.try_send(2), (Err(TrySendError::Full(2)), None));
    let mut sender = None;
    c.park_sender(&mut sender, "s");
    assert_eq!(c.try_recv(), (Ok(1), Some("s")));
    assert_eq!(c.try_recv(), (Err(TryRecvError::Empty), None));
    assert_eq!(c.len(), 0);
    assert_eq!(c.capacity(), Some(1));
}

#[test]
fn close_selects_everybody_once() {
    let mut c: Channel<u8, u32> = Channel::new(Some(1));
    c.try_send(7);
    for i in 0..3 {
        c.park_receiver(&mut None, i);
        c.park_sender(&mut None, 10 + i);
    }
    assert_eq!(c.close(), Some(vec![0, 1, 2, 10, 11, 12]));
    assert_eq!(c.close(), None);
    assert!(c.is_closed());
    assert_eq!(c.try_send(8), (Err(TrySendError::Closed(8)), None));
    // What was sent before the close is still there.
    assert_eq!(c.try_recv(), (Ok(7), None));
    assert_eq!(c.try_recv(), (Err(TryRecvError::Closed), None));
}

#[test]
fn the_last_handle_of_a_side_closes_the_channel() {
    let mut c: Channel<u8, u32> = Channel::new(None);
    c.add_sender();
    c.add_receiver();
    assert_eq!((c.sender_count(), c.receiver_count()), (2, 2));
    assert_eq!(c.remove_sender(), None);
    assert!(!c.is_closed());
    c.park_receiver(&mut None, 5);
    assert_eq!(c.remove_sender(), Some(vec![5]));
    assert!(c.is_closed());
    assert_eq!(c.remove_receiver(), None);
    assert_eq!(c.remove_receiver(), None);
    assert_eq!((c.sender_count(), c.receiver_count()), (0, 0));
}

#[test]
fn a_receiver_sleeps_only_if_nothing_was_claimed_before() {
    let mut c: Channel<u8, u32> = Channel::new(None);
    let mut token = None;
    let tail = c.park_receiver(&mut token, 1);
    assert_eq!(c.recheck(Err(RecvState::Empty), tail), Err(RecvState::Empty));
    c.try_send(9);
    // Claimed after the registration: its sender selects the receiver.
    assert_eq!(c.recheck(Err(RecvState::Empty), tail), Err(RecvState::Empty));
    assert_eq!(c.recheck(Err(RecvState::Empty), tail + 1), Err(RecvState::Busy));
    assert_eq!(c.recheck(Err(RecvState::Busy), tail), Err(RecvState::Busy));
    assert_eq!(c.recheck(Err(RecvState::Closed), tail), Err(RecvState::Closed));
    let (attempt, woken) = c.try_recv_nonblocking();
    assert_eq!((attempt, woken), (Ok(9), None));
    assert_eq!(c.recheck(attempt, tail), Ok(9));
    assert_eq!(c.recv_state_when_empty(), RecvState::Empty);
}

#[test]
fn a_receiver_that_completes_passes_a_late_notification_on() {
    let mut c: Channel<u8, &str> = Channel::new(None);
    let mut first = None;
    let mut second = None;
    // The first receiver is registered and about to look again; the second one sleeps.
    let tail = c.park_receiver(&mut first, "first");
    c.park_receiver(&mut second, "second");
    // One message is there already, taken by the first receiver.
    assert_eq!(c.try_send(1).1, Some("first"));
    assert!(matches!(c.try_recv_nonblocking(), (Ok(1), None)));
    assert_eq!(tail, 0);
    // It leaves, and hands on the notification that it has no more use for.
    assert_eq!(c.leave_receivers(&mut first, true).forwarded, Some("second"));
    assert!(first.is_none());
}

#[test]
fn a_sender_that_starts_over_takes_its_notification_along() {
    let mut c: Channel<u8, &str> = Channel::new(Some(1));
    c.try_send(1);
    let mut first = None;
    let mut second = None;
    c.park_sender(&mut first, "first");
    c.park_sender(&mut second, "second");
    assert_eq!(c.try_recv().1, Some("first"));
    let gone = c.leave_senders(&mut first, false);
    assert!(gone.removed.is_none() && gone.forwarded.is_none());
    assert_eq!(c.try_send(2), (Ok(()), None));
    // The second one is still registered and gets its waker back when it leaves.
    assert_eq!(c.leave_senders(&mut second, true).removed, Some("second"));
    assert!(c.leave_senders(&mut second, true).removed.is_none());
}

#[test]
fn a_batch_selects_as_many_senders_as_it_makes_room_for() {
    let mut c: Channel<u8, u32> = Channel::new(Some(4));
    for m in 0..4 {
        c.try_send(m);
    }
    for i in 0..3 {
        c.park_sender(&mut None, i);
    }
    let mut got = Vec::new();
    assert_eq!(c.try_recv_many_ready(&mut got, 2), (2, vec![0, 1]));
    assert_eq!(c.try_recv_many_ready(&mut got, 5), (2, vec![2]));
    assert_eq!(c.try_recv_many_ready(&mut got, 5), (0, vec![]));
    assert_eq!(got, [0, 1, 2, 3]);
    assert_eq!(c.try_recv_single(), (Err(TryRecvError::Empty), None));
}

#[test]
fn what_is_left_comes_out_in_order() {
    let mut c: Channel<u8, u32> = Channel::new(None);
    for m in 0..5 {
        assert_eq!(c.offer(m), (Ok(()), None));
    }
    c.try_recv();
    assert!(c.can_claim());
    assert_eq!(c.debug_dump().head, 1);
    assert_eq!(c.into_unread(), [1, 2, 3, 4]);
}

#[test]
fn a_drain_goes_on_over_the_end_of_a_block() {
    let mut c: Channel<u32, u32> = Channel::new(Some(200));
    for m in 0..150 {
        c.try_send(m);
    }
    for i in 0..3 {
        c.park_sender(&mut None, i);
    }
    let mut got = vec![9];
    // One block at a time takes 63.
    assert_eq!(c.drain(&mut got, 100), (100, vec![0, 1, 2]));
    assert_eq!(c.drain(&mut got, 100), (50, vec![]));
    assert_eq!(c.drain(&mut got, 100), (0, vec![]));
    assert_eq!(got[0], 9);
    assert!(got[1..].iter().copied().eq(0..150));
}
