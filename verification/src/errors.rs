//! What can go wrong on a channel.
use vstd::prelude::*;

verus! {

/// The error of a send on a closed channel. It holds the message.
#[derive(PartialEq, Eq, Clone, Copy, Debug)]
pub struct SendError<T>(pub T);

impl<T> SendError<T> {
    /// The message that could not be sent.
    pub fn into_inner(self) -> (r: T)
        ensures
            r == self.0,
    {
        self.0
    }

    /// The error in words.
    pub fn to_string(&self) -> (r: String)
        ensures
            r@ == "sending on a closed channel"@,
    {
        "sending on a closed channel".to_string()
    }

    /// The error without its message, for programmers.
    pub fn debug_string(&self) -> (r: String)
        ensures
            r@ == "SendError"@,
    {
        "SendError".to_string()
    }
}

/// The error of a receive on a channel that is closed and empty.
#[derive(PartialEq, Eq, Clone, Copy, Debug)]
pub struct RecvError;

impl RecvError {
    /// The error in words.
    pub fn to_string(&self) -> (r: String)
        ensures
            r@ == "receiving on an empty and closed channel"@,
    {
        "receiving on an empty and closed channel".to_string()
    }
}

/// Why a message could not be sent at once. Both variants hold the message.
#[derive(PartialEq, Eq, Clone, Copy, Debug)]
pub enum TrySendError<T> {
    /// The channel is full.
    Full(T),
    /// The channel is closed.
    Closed(T),
}

impl<T> TrySendError<T> {
    /// The message that could not be sent.
    pub open spec fn message(self) -> T {
        match self {
            TrySendError::Full(m) => m,
            TrySendError::Closed(m) => m,
        }
    }

    /// The message that could not be sent.
    pub fn into_inner(self) -> (r: T)
        ensures
            r == self.message(),
    {
        match self {
            TrySendError::Full(m) => m,
            TrySendError::Closed(m) => m,
        }
    }

    /// Whether the channel was full.
    pub fn is_full(&self) -> (r: bool)
        ensures
            r == (self is Full),
    {
        match self {
            TrySendError::Full(_) => true,
            TrySendError::Closed(_) => false,
        }
    }

    /// Whether the channel was closed.
    pub fn is_closed(&self) -> (r: bool)
        ensures
            r == (self is Closed),
    {
        match self {
            TrySendError::Full(_) => false,
            TrySendError::Closed(_) => true,
        }
    }

    /// The error in words.
    pub fn to_string(&self) -> (r: String)
        ensures
            r@ == (if self is Full {
                "sending on a full channel"@
            } else {
                "sending on a closed channel"@
            }),
    {
        match self {
            TrySendError::Full(_) => "sending on a full channel".to_string(),
            TrySendError::Closed(_) => "sending on a closed channel".to_string(),
        }
    }

    /// The error without its message, for programmers.
    pub fn debug_string(&self) -> (r: String)
        ensures
            r@ == (if self is Full {
                "TrySendError::Full"@
            } else {
                "TrySendError::Closed"@
            }),
    {
        match self {
            TrySendError::Full(_) => "TrySendError::Full".to_string(),
            TrySendError::Closed(_) => "TrySendError::Closed".to_string(),
        }
    }
}

/// Why no message could be received at once.
#[derive(PartialEq, Eq, Clone, Copy, Debug)]
pub enum TryRecvError {
    /// The channel is empty.
    Empty,
    /// The channel is empty and closed.
    Closed,
}

impl TryRecvError {
    /// Whether the channel was empty and open.
    pub fn is_empty(&self) -> (r: bool)
        ensures
            r == (self is Empty),
    {
        match self {
            TryRecvError::Empty => true,
            TryRecvError::Closed => false,
        }
    }

    /// Whether the channel was empty and closed.
    pub fn is_closed(&self) -> (r: bool)
        ensures
            r == (self is Closed),
    {
        match self {
            TryRecvError::Empty => false,
            TryRecvError::Closed => true,
        }
    }

    /// The error in words.
    pub fn to_string(&self) -> (r: String)
        ensures
            r@ == (if self is Empty {
                "receiving on an empty channel"@
            } else {
                "receiving on an empty and closed channel"@
            }),
    {
        match self {
            TryRecvError::Empty => "receiving on an empty channel".to_string(),
            TryRecvError::Closed => "receiving on an empty and closed channel".to_string(),
        }
    }
}

} // verus!
