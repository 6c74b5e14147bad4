//! A latch: a single-use barrier that opens once a count of arrivals has been reached.

use crate::internal::countdown::CountdownState;
use vstd::prelude::*;

verus! {

/// A single-use barrier that opens once its count reaches zero.
pub struct Latch {
    state: CountdownState,
}

impl Latch {
    /// The arrivals still needed before the latch opens.
    pub closed spec fn remaining(&self) -> nat {
        self.state.value()
    }

    /// Creates a latch that opens after `count` arrivals.
    pub fn new(count: u32) -> (latch: Self)
        ensures
            latch.remaining() == count,
    {
        Latch { state: CountdownState::new(count) }
    }

    /// Returns the arrivals still needed before the latch opens.
    pub fn count(&self) -> (count: u32)
        ensures
            count == self.remaining(),
    {
        self.state.count()
    }

    /// Counts one arrival. Returns `true` exactly when this arrival opened the latch, so
    /// that the waiting tasks are to be woken.
    pub fn count_down(&mut self) -> (opened: bool)
        ensures
            final(self).remaining() == if old(self).remaining() >= 1 { old(self).remaining() - 1 } else { 0 },
            opened == (old(self).remaining() == 1),
    {
        self.arrive(1)
    }

    /// Counts `n` arrivals; the count stops at zero. Returns `true` exactly when these
    /// arrivals opened the latch.
    pub fn arrive(&mut self, n: u32) -> (opened: bool)
        ensures
            final(self).remaining() == if old(self).remaining() >= n { old(self).remaining() - n } else { 0 },
            opened == (n > 0 && old(self).remaining() > 0 && old(self).remaining() <= n),
    {
        if n == 0 {
            return false;
        }
        self.state.decrement(n)
    }

    /// Returns `Ok(())` if the latch is open, and the arrivals it still needs otherwise.
    pub fn try_wait(&self) -> (res: Result<(), u32>)
        ensures
            res is Ok <==> self.remaining() == 0,
            res is Err ==> res->Err_0 == self.remaining(),
    {
        self.state.spin_wait()
    }
}

} // verus!
