//! A counter that counts down to zero, once.

use vstd::prelude::*;

verus! {

/// A count that only decreases, and stops at zero.
pub struct CountdownState {
    count: u32,
}

impl CountdownState {
    /// The current count.
    pub closed spec fn value(&self) -> nat {
        self.count as nat
    }

    /// Creates a countdown starting at `count`.
    pub fn new(count: u32) -> (state: Self)
        ensures
            state.value() == count,
    {
        CountdownState { count }
    }

    /// Returns the current count.
    pub fn count(&self) -> (count: u32)
        ensures
            count == self.value(),
    {
        self.count
    }

    /// Counts down by `n`, stopping at zero. Returns `true` exactly when this call brought
    /// the count to zero.
    pub fn decrement(&mut self, n: u32) -> (reached_zero: bool)
        ensures
            final(self).value() == if old(self).value() >= n { old(self).value() - n } else { 0 },
            reached_zero == (old(self).value() > 0 && old(self).value() <= n),
    {
        let current = self.count;
        if current == 0 {
            return false;
        }
        let next = current.saturating_sub(n);
        self.count = next;
        next == 0
    }

    /// Returns `Ok(())` if the count is zero and the count otherwise.
    pub fn spin_wait(&self) -> (res: Result<(), u32>)
        ensures
            res is Ok <==> self.value() == 0,
            res is Err ==> res->Err_0 == self.value(),
    {
        if self.count == 0 {
            Ok(())
        } else {
            Err(self.count)
        }
    }

    /// Sets the count to `new` if it is `current`; returns the count found otherwise.
    pub fn cas_state(&mut self, current: u32, new: u32) -> (res: Result<(), u32>)
        ensures
            res is Ok <==> old(self).value() == current,
            res is Ok ==> final(self).value() == new,
            res is Err ==> res->Err_0 == old(self).value() && final(self).value() == old(self).value(),
    {
        if self.count == current {
            self.count = new;
            Ok(())
        } else {
            Err(self.count)
        }
    }
}

} // verus!
