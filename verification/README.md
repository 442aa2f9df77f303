# rapidfire

Channels for messages between tasks, written in Rust and proved with Verus.

| Constructor | Senders | Receivers | Batches |
|:--|:--|:--|:--|
| `bounded`, `unbounded` | any number | any number | no |
| `mpsc::bounded`, `mpsc::unbounded` | any number | one | `recv_many` |

Messages are received in the order in which the senders claimed their places, each by
one receiver. A bounded channel is full at exactly its capacity. A channel closes when it
is told to, or with the last handle of either side; what was sent before is still
received.

## Layout

- `src/`: the library, all of it verified.
  - `position`, `ring`: numbering of messages and blocks, scans that go round.
  - `block`, `pool`, `queue`: a queue in recycled blocks of 63 slots. Producers and
    consumers take small steps that can be interleaved at will; the invariant holds
    between any two of them.
  - `backoff`: how long to look again before giving way.
  - `waiters`: reusable slots for parties that wait, with notifiers and owners that can be
    paused in the middle.
  - `channel`: the whole state of a channel and the exact effect of every step on it.
  - `poll`: the turns of a poll, what decides the next one, and what a poll comes to that
    nobody disturbs.
  - `shared`, `mpmc`, `mpsc`: handles that share a channel. Each step takes a lock for its
    own duration; between the first look of a poll and its registration anybody else can
    step in.
  - `laws`: order of messages, capacity, close, polls, wake-ups and reuse of blocks, for
    any number of steps in any order.
  - `wake`: what is trusted of wakers and shared ownership; `backoff` trusts one more item
    of the standard library, the hint of a spin loop.
- `tests/`: the library at work.
- `app/`: the handles as futures that disconnect when they are dropped.

## Use

Handles are given up with `disconnect`, pending operations with `cancel`; the types of
`app/` do both on drop. An operation in progress is polled with a waker:

```rust
let (tx, rx) = rapidfire::bounded(1);
tx.try_send(1).unwrap();
let mut send = tx.send(2);
assert_eq!(send.poll(&waker), Polled::Pending);
assert_eq!(rx.try_recv(), Ok(1)); // wakes the sender
assert_eq!(send.poll(&waker), Polled::Ready(Ok(())));
```

Which waiting task is woken first is not promised: notifications go round the slots.
