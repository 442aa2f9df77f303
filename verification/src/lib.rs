//! Channels for messages between tasks, with any number of senders.
//!
//! [`bounded`] and [`unbounded`] make channels whose receivers can be cloned too;
//! [`mpsc::bounded`] and [`mpsc::unbounded`] make channels with one receiver, which can
//! also receive in batches. Each message goes to one receiver, in the order in which the
//! senders claimed their places.
//!
//! From the bottom up:
//! - [`position`]: how positions number messages and blocks.
//! - [`ring`]: scans that go round a row of slots.
//! - [`pool`], [`block`], [`queue`]: the block queue, as steps that several producers and
//!   consumers take in turn.
//! - [`backoff`]: how long to wait before looking again.
//! - [`waiters`]: lists of parties that wait.
//! - [`channel`]: the state of a channel and every step on it.
//! - [`poll`]: the course of a poll, turn by turn.
//! - [`wake`], [`vault`], [`shared`]: a channel that handles share, and the books on what
//!   each of them does to it.
//! - [`mpmc`], [`mpsc`]: the handles.
//! - [`laws`]: what holds of a channel as a whole.
pub mod backoff;
pub mod block;
pub mod channel;
pub mod errors;
pub mod laws;
pub mod mpmc;
pub mod mpsc;
pub mod poll;
pub mod pool;
pub mod position;
pub mod queue;
pub mod ring;
pub mod shared;
pub mod vault;
pub mod waiters;
pub mod wake;

pub use errors::RecvError;
pub use errors::SendError;
pub use errors::TryRecvError;
pub use errors::TrySendError;
pub use mpmc::bounded;
pub use mpmc::unbounded;
pub use mpmc::Receiver;
pub use mpmc::Recv;
pub use mpmc::Send;
pub use mpmc::Sender;
pub use poll::Polled;
