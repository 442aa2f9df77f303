//! Wakers and shared ownership, as the standard library provides them.
use std::sync::Arc;
use std::task::Waker;
use vstd::prelude::*;

verus! {

/// `std::task::Waker`: what wakes a task. Nothing is known of what is inside.
#[verifier::external_type_specification]
#[verifier::external_body]
pub struct ExWaker(std::task::Waker);

/// `Waker::wake`: wakes the task and uses the waker up. It runs code of the executor, of
/// which nothing is claimed here.
pub assume_specification[ std::task::Waker::wake ](this: Waker);

/// `Clone` for `Waker`: another waker for the same task. That it wakes the same task is up
/// to the executor that made it, and is not claimed here.
pub assume_specification[ <std::task::Waker as std::clone::Clone>::clone ](this: &Waker) -> Waker;

/// `Arc::into_inner`: gives up one owner of a shared value, and returns the value if that
/// was the last one. Whether it was depends on the other owners, so nothing is claimed of
/// that.
#[verifier::external_body]
pub(crate) fn take_last<T>(shared: Arc<T>) -> (r: Option<T>)
    ensures
        r matches Some(v) ==> v == *shared,
{
    Arc::into_inner(shared)
}

/// Whether a waker was used to wake its task: a call of `Waker::wake` on it has returned.
pub open spec fn was_woken(waker: Waker) -> bool {
    call_ensures(Waker::wake, (waker,), ())
}

/// Whether a waker was used, if there is one.
pub open spec fn told(waker: Option<Waker>) -> bool {
    waker matches Some(w) ==> was_woken(w)
}

/// Whether every waker of a list was used.
pub open spec fn all_told(wakers: Seq<Waker>) -> bool {
    forall|i: int| 0 <= i < wakers.len() ==> was_woken(#[trigger] wakers[i])
}

/// Wakes every task of a list, in order.
pub(crate) fn wake_all(wakers: Vec<Waker>)
    ensures
        all_told(wakers@),
{
    for waker in row: wakers
        invariant
            row.seq() == wakers@,
            forall|i: int| 0 <= i < row.index() ==> was_woken(#[trigger] row.seq()[i]),
    {
        waker.wake();
    }
}

/// Wakes a task, if there is one.
pub(crate) fn wake_one(waker: Option<Waker>)
    ensures
        told(waker),
{
    match waker {
        Some(waker) => waker.wake(),
        None => {},
    }
}

/// Wakes every task of a list, if there is one, and says whether there is.
pub(crate) fn wake_listed(wakers: Option<Vec<Waker>>) -> (r: bool)
    ensures
        r == (wakers is Some),
        wakers matches Some(v) ==> all_told(v@),
{
    match wakers {
        Some(wakers) => {
            wake_all(wakers);
            true
        },
        None => false,
    }
}

} // verus!
