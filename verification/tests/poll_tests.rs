//! Polls, turn by turn and as a whole.

use rapidfire::channel::Channel;
use rapidfire::channel::RecvState;
use rapidfire::poll::next_recv_turn;
use rapidfire::poll::next_send_turn;
use rapidfire::poll::RecvPoll;
use rapidfire::poll::SendPoll;
use rapidfire::poll::SendSeen;
use rapidfire::poll::Turn;
use rapidfire::Polled;
use rapidfire::RecvError;
use rapidfire::SendError;

#[test]
fn what_a_receive_sees_decides_its_next_turn() {
    let message: Option<Result<u8, RecvState>> = Some(Ok(1));
    let empty: Option<Result<u8, RecvState>> = Some(Err(RecvState::Empty));
    let busy: Option<Result<u8, RecvState>> = Some(Err(RecvState::Busy));
    let closed: Option<Result<u8, RecvState>> = Some(Err(RecvState::Closed));
    assert_eq!(next_recv_turn(Turn::Leave, &None::<Result<u8, RecvState>>, true), Turn::Look);
    assert_eq!(next_recv_turn(Turn::Look, &message, true), Turn::Finish);
    assert_eq!(next_recv_turn(Turn::Look, &closed, true), Turn::Finish);
    assert_eq!(next_recv_turn(Turn::Look, &empty, true), Turn::Register);
    assert_eq!(next_recv_turn(Turn::Look, &busy, true), Turn::Register);
    assert_eq!(next_recv_turn(Turn::Register, &empty, true), Turn::LookAgain);
    assert_eq!(next_recv_turn(Turn::LookAgain, &message, true), Turn::PassOn);
    assert_eq!(next_recv_turn(Turn::LookAgain, &closed, true), Turn::PassOn);
    assert_eq!(next_recv_turn(Turn::LookAgain, &empty, true), Turn::Sleep);
    assert_eq!(next_recv_turn(Turn::LookAgain, &busy, true), Turn::LookAgain);
    assert_eq!(next_recv_turn(Turn::LookAgain, &busy, false), Turn::AskAgain);
    assert_eq!(next_recv_turn(Turn::PassOn, &message, true), Turn::Finish);
    assert_eq!(next_recv_turn(Turn::Sleep, &empty, true), Turn::Sleep);
}

#[test]
fn what_a_send_sees_decides_its_next_turn() {
    assert_eq!(next_send_turn(Turn::Leave, None), Turn::Look);
    assert_eq!(next_send_turn(Turn::Look, Some(SendSeen::Sent)), Turn::Finish);
    assert_eq!(next_send_turn(Turn::Look, Some(SendSeen::Closed)), Turn::Finish);
    assert_eq!(next_send_turn(Turn::Look, Some(SendSeen::Full)), Turn::Register);
    assert_eq!(next_send_turn(Turn::Register, Some(SendSeen::Full)), Turn::LookAgain);
    assert_eq!(next_send_turn(Turn::LookAgain, Some(SendSeen::Sent)), Turn::PassOn);
    assert_eq!(next_send_turn(Turn::LookAgain, Some(SendSeen::Closed)), Turn::PassOn);
    assert_eq!(next_send_turn(Turn::LookAgain, Some(SendSeen::Full)), Turn::Sleep);
    assert_eq!(next_send_turn(Turn::PassOn, Some(SendSeen::Sent)), Turn::Finish);
    assert_eq!(next_send_turn(Turn::Finish, Some(SendSeen::Sent)), Turn::Finish);
}

#[test]
fn a_receive_that_completes_late_passes_its_wake_up_on() {
    let mut c: Channel<char, &str> = Channel::new(None);
    // The first receiver looks, and finds nothing.
    let mut first = RecvPoll::new(None);
    c.take_recv_turn(false, &mut first, None, true);
    c.take_recv_turn(false, &mut first, None, true);
    assert_eq!(first.at, Turn::Register);
    // A message is sent before it registers, so nobody is woken for it.
    assert_eq!(c.offer('a').1, None);
    c.take_recv_turn(false, &mut first, Some("first"), true);
    let mut second = None;
    c.park_receiver(&mut second, "second");
    // It takes the message on its second look.
    c.take_recv_turn(false, &mut first, None, true);
    assert_eq!(first.seen, Some(Ok('a')));
    assert_eq!(first.at, Turn::PassOn);
    // Before it leaves, another message selects it.
    assert_eq!(c.offer('b').1, Some("first"));
    let after = c.take_recv_turn(false, &mut first, None, true);
    assert_eq!(after.wake, Some("second"));
    assert_eq!(first.into_outcome().0, Polled::Ready(Ok('a')));
    // The second receiver gets the other message.
    let (r, _) = c.poll_recv(false, &mut second, "again");
    assert_eq!(r, Polled::Ready(Ok('b')));
}

#[test]
fn a_send_that_completes_late_passes_its_wake_up_on() {
    let mut c: Channel<u8, &str> = Channel::new(Some(1));
    c.offer(1);
    let mut first = SendPoll::new(None, 2);
    c.take_send_turn(&mut first, None);
    c.take_send_turn(&mut first, None);
    assert_eq!(first.at, Turn::Register);
    // Room is made before it registers, so nobody is woken for it.
    assert_eq!(c.attempt(false), (Ok(1), None));
    c.take_send_turn(&mut first, Some("first"));
    let mut second = None;
    c.park_sender(&mut second, "second");
    c.take_send_turn(&mut first, None);
    assert_eq!(first.seen, Some(SendSeen::Sent));
    assert_eq!(first.at, Turn::PassOn);
    // Before it leaves, more room selects it.
    assert_eq!(c.attempt(false), (Ok(2), Some("first")));
    assert_eq!(c.take_send_turn(&mut first, None).wake, Some("second"));
    assert_eq!(first.into_outcome().0, Polled::Ready(Ok(())));
    let (r, rest, _) = c.poll_send(3, &mut second, "again");
    assert_eq!((r, rest), (Polled::Ready(Ok(())), None));
}

#[test]
fn an_impatient_receive_asks_to_be_polled_again() {
    let mut c: Channel<u8, &str> = Channel::new(None);
    let mut poll = RecvPoll::new(None);
    c.take_recv_turn(false, &mut poll, None, true);
    c.take_recv_turn(false, &mut poll, None, true);
    c.take_recv_turn(false, &mut poll, Some("waker"), true);
    // As if a message had been claimed before the registration.
    poll.tail = 1;
    c.take_recv_turn(false, &mut poll, None, true);
    assert_eq!(poll.at, Turn::LookAgain);
    c.take_recv_turn(false, &mut poll, None, false);
    assert_eq!(poll.at, Turn::AskAgain);
    let (r, token) = poll.into_outcome();
    assert_eq!(r, Polled::Pending);
    assert!(token.is_some());
}

#[test]
fn an_undisturbed_receive() {
    let mut c: Channel<u8, u32> = Channel::new(Some(1));
    let mut token = None;
    let (r, after) = c.poll_recv(false, &mut token, 1);
    assert_eq!(r, Polled::Pending);
    assert!(token.is_some());
    assert_eq!((after.wake, after.dropped), (None, None));
    // Polled again, it replaces its waker.
    let (r, after) = c.poll_recv(false, &mut token, 2);
    assert_eq!(r, Polled::Pending);
    assert_eq!((after.wake, after.dropped), (None, Some(1)));
    assert_eq!(c.offer(7).1, Some(2));
    let mut sender = None;
    c.park_sender(&mut sender, 9);
    let (r, after) = c.poll_recv(false, &mut token, 3);
    assert_eq!(r, Polled::Ready(Ok(7)));
    assert!(token.is_none());
    assert_eq!((after.wake, after.dropped), (Some(9), None));
    c.close();
    let (r, _) = c.poll_recv(false, &mut token, 4);
    assert_eq!(r, Polled::Ready(Err(RecvError)));
    assert!(token.is_none());
}

#[test]
fn an_undisturbed_send_has_only_its_newest_waker_woken() {
    let mut c: Channel<u8, u32> = Channel::new(Some(1));
    c.offer(1);
    let mut token = None;
    let mut msg = 2;
    for waker in 1..4 {
        let (r, rest, after) = c.poll_send(msg, &mut token, waker);
        assert_eq!(r, Polled::Pending);
        msg = rest.unwrap();
        assert_eq!(after.dropped, if waker > 1 { Some(waker - 1) } else { None });
    }
    assert_eq!(c.attempt(true), (Ok(1), Some(3)));
    let (r, rest, after) = c.poll_send(msg, &mut token, 3);
    assert_eq!((r, rest), (Polled::Ready(Ok(())), None));
    assert_eq!((after.wake, after.dropped), (None, None));
    assert!(token.is_none());
    assert_eq!(c.attempt(true), (Ok(2), None));
    c.close();
    let (r, rest, _) = c.poll_send(5, &mut token, 3);
    assert_eq!((r, rest), (Polled::Ready(Err(SendError(5))), None));
}

#[test]
fn an_undisturbed_batch() {
    let mut c: Channel<u32, u32> = Channel::new(Some(200));
    let mut token = None;
    let mut got = vec![99];
    // A limit of nothing is met at once.
    let (r, woken, _) = c.poll_recv_many(&mut got, 0, false, &mut token, 1);
    assert_eq!((r, woken), (Polled::Ready(Ok(0)), vec![]));
    // Nothing is there: it waits.
    let (r, woken, _) = c.poll_recv_many(&mut got, 10, false, &mut token, 1);
    assert_eq!((r, woken), (Polled::Pending, vec![]));
    assert!(token.is_some());
    for m in 0..130 {
        c.offer(m);
    }
    for i in 10..15 {
        c.park_sender(&mut None, i);
    }
    // It takes all that is ready up to the limit, whatever block it is in.
    let (r, woken, _) = c.poll_recv_many(&mut got, 100, true, &mut token, 2);
    assert_eq!((r, woken), (Polled::Ready(Ok(100)), vec![10, 11, 12, 13, 14]));
    assert!(token.is_none());
    c.close();
    let (r, woken, _) = c.poll_recv_many(&mut got, 100, false, &mut token, 2);
    assert_eq!((r, woken), (Polled::Ready(Ok(30)), vec![]));
    assert_eq!(got[0], 99);
    assert!(got[1..].iter().copied().eq(0..130));
    let (r, _, _) = c.poll_recv_many(&mut got, 100, false, &mut token, 2);
    assert_eq!(r, Polled::Ready(Err(RecvError)));
    assert_eq!(got.len(), 131);
}
