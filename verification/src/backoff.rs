//! How long to wait before looking again.
//!
//! `spin` is for a lost race: the winner is running and done in a moment, so it pauses
//! up to 64 times and never gives way. `snooze` is for another party's progress. That
//! wait normally ends soon, so it looks again after every single pause for a while,
//! then pauses longer and longer, and then says that it is time to give way.
use vstd::prelude::*;

verus! {

/// `std::hint::spin_loop`: tells the processor that the caller is waiting. It returns
/// nothing and changes nothing.
pub assume_specification[ std::hint::spin_loop ]();

/// Steps over which `spin` doubles its pauses.
pub const SPIN_LIMIT: u32 = 6;

/// Steps at which `snooze` pauses once.
pub const TIGHT_POLLS: u32 = 64;

/// Steps after which `snooze` pauses no more.
pub const SNOOZE_LIMIT: u32 = 72;

/// `2^n`.
pub open spec fn power(n: nat) -> nat
    decreases n,
{
    if n == 0 {
        1
    } else {
        2 * power((n - 1) as nat)
    }
}

/// The powers that occur here fit a `u32`.
proof fn lemma_power(n: nat)
    ensures
        n <= 7 ==> 1 <= power(n) <= 128,
{
    reveal_with_fuel(power, 8);
}

/// Pauses `n` times.
fn pause(n: u32) {
    let mut i: u32 = 0;
    while i < n
        invariant
            i <= n,
        decreases n - i,
    {
        std::hint::spin_loop();
        i += 1;
    }
}

/// `2^n`, for the exponents that occur here.
fn doubled(n: u32) -> (r: u32)
    requires
        n <= 7,
    ensures
        r == power(n as nat),
{
    let mut r: u32 = 1;
    let mut i: u32 = 0;
    while i < n
        invariant
            i <= n <= 7,
            r == power(i as nat),
        decreases n - i,
    {
        proof {
            lemma_power(i as nat);
            reveal_with_fuel(power, 2);
        }
        r = 2 * r;
        i += 1;
    }
    r
}

/// The waiting of one party, from the moment it starts.
pub struct Backoff {
    step: u32,
}

impl Backoff {
    /// How often this party has waited, as far as that matters.
    pub closed spec fn step(self) -> nat {
        self.step as nat
    }

    /// A party that has not waited yet.
    pub fn new() -> (r: Self)
        ensures
            r.step() == 0,
    {
        Backoff { step: 0 }
    }

    /// Pauses after a lost race and returns how often: `1, 2, 4, ..` and at most 64 times.
    pub fn spin(&mut self) -> (r: u32)
        ensures
            r == power(if old(self).step() <= 6 {
                old(self).step()
            } else {
                6
            }),
            final(self).step() == (if old(self).step() <= 6 {
                old(self).step() + 1
            } else {
                old(self).step()
            }),
    {
        let n = doubled(if self.step < SPIN_LIMIT {
            self.step
        } else {
            SPIN_LIMIT
        });
        pause(n);
        if self.step <= SPIN_LIMIT {
            self.step += 1;
        }
        n
    }

    /// Pauses for another party's progress and returns how often, or `None` without a
    /// pause once it is time to give way.
    pub fn snooze(&mut self) -> (r: Option<u32>)
        ensures
            r is None <==> old(self).step() >= 72,
            r matches Some(n) ==> n == (if old(self).step() < 64 {
                1
            } else {
                power((old(self).step() - 64) as nat)
            }),
            final(self).step() == (if old(self).step() < 72 {
                old(self).step() + 1
            } else {
                old(self).step()
            }),
    {
        if self.step < TIGHT_POLLS {
            pause(1);
            self.step += 1;
            Some(1)
        } else if self.step < SNOOZE_LIMIT {
            let n = doubled(self.step - TIGHT_POLLS);
            pause(n);
            self.step += 1;
            Some(n)
        } else {
            None
        }
    }

    /// Pauses for another party's progress, unless the budget is used up; returns
    /// whether it was not. For callers that must not hold up their thread.
    pub fn snooze_bounded(&mut self) -> (r: bool)
        ensures
            r <==> old(self).step() < 72,
            final(self).step() == (if old(self).step() < 72 {
                old(self).step() + 1
            } else {
                old(self).step()
            }),
    {
        if self.step >= SNOOZE_LIMIT {
            return false;
        }
        let _ = self.snooze();
        true
    }
}

} // verus!
