//! One-time initialization.
//!
//! A task that wants to run the initialization takes the single permit of a semaphore,
//! checks again that nobody completed it meanwhile, runs it, and marks it complete
//! before it gives the permit back; the other tasks wait for the permit in turn.
//!
//! Each initializer counts the holders of that permit: the permits handed out and the
//! waits for it that completed. With the permit when nobody holds it, they make up the
//! single permit, so at most one task initializes at a time.

use crate::internal::countdown::CountdownState;
use crate::internal::semaphore::{hand_out, lemma_hand_out_bound, unlinked, Acquire};
use crate::semaphore::{Semaphore, SemaphorePermit};
use vstd::prelude::*;

verus! {

/// A one-time initialization.
pub struct Once {
    done: CountdownState,
    semaphore: Semaphore,
    /// The holders of the permit.
    holders: Ghost<nat>,
}

/// A cell that is written once and read many times.
pub struct OnceCell<T> {
    value: Option<T>,
    semaphore: Semaphore,
    /// The holders of the permit.
    holders: Ghost<nat>,
}

/// Giving back the permit of a gate that has one holder overflows nothing.
proof fn lemma_give_back(gate: Semaphore, holders: nat)
    requires
        gate.wf(),
        gate.unheld() + holders == 1,
        holders >= 1,
    ensures
        hand_out(gate.available(), gate.queue(), gate.inner().need(), 1).0 <= 1,
{
    gate.lemma_unheld();
    lemma_hand_out_bound(gate.available(), gate.queue(), gate.inner().need(), 1);
}

/// A cell's content moves from `before` to `after` as a cell's may: a value, once set,
/// stays as it is.
pub open spec fn set_once<T>(before: Option<T>, after: Option<T>) -> bool {
    before is Some ==> after == before
}

/// A cell's value is set at most once and never changes: what holds of each step holds
/// of every run of steps.
pub proof fn lemma_set_once<T>(a: Option<T>, b: Option<T>, c: Option<T>)
    requires
        set_once(a, b),
        set_once(b, c),
    ensures
        set_once(a, c),
{
}

impl Once {
    /// The initialization has completed.
    pub closed spec fn completed(&self) -> bool {
        self.done.value() == 0
    }

    /// The semaphore whose permit the initializing task holds.
    pub closed spec fn gate(&self) -> Semaphore {
        self.semaphore
    }

    /// The holders of the permit: the permits handed out, and the waits for the permit
    /// that completed and were not yet turned into permits.
    pub closed spec fn holders(&self) -> nat {
        self.holders@
    }

    /// The invariant of a `Once`: the permit is free, held, or handed to a waiter.
    pub closed spec fn wf(&self) -> bool {
        &&& self.done.value() <= 1
        &&& self.semaphore.wf()
        &&& self.semaphore.unheld() + self.holders@ == 1
    }

    /// At most one task holds the permit to initialize, and while one does, the permit
    /// is not available to anybody else.
    pub proof fn lemma_single_initializer(&self)
        requires
            self.wf(),
        ensures
            self.holders() <= 1,
            self.holders() == 1 ==> self.gate().available() == 0,
    {
        self.semaphore.lemma_unheld();
    }

    /// Creates a new `Once`.
    pub fn new() -> (once: Self)
        ensures
            once.wf(),
            !once.completed(),
            once.holders() == 0,
            once.gate().available() == 1,
            once.gate().queue().len() == 0,
    {
        Once { done: CountdownState::new(1), semaphore: Semaphore::new(1), holders: Ghost(0) }
    }

    /// Returns `true` if some initialization has completed.
    pub fn is_completed(&self) -> (completed: bool)
        ensures
            completed == self.completed(),
    {
        self.done.spin_wait().is_ok()
    }

    /// Starts waiting for the permit to run the initialization.
    pub fn acquire(&self) -> (acquire: Acquire)
        ensures
            acquire.requested() == 1,
            acquire.key() is None,
            !acquire.is_done(),
            acquire.belongs_to(&self.gate().inner()),
    {
        self.semaphore.acquire(1)
    }

    /// Polls the wait for the permit; returns `true` once the caller holds it, and then
    /// counts it as a holder if this poll completed the wait.
    pub fn poll_acquire(&mut self, acquire: &mut Acquire) -> (ready: bool)
        requires
            old(self).wf(),
            old(acquire).belongs_to(&old(self).gate().inner()),
        ensures
            final(self).wf(),
            final(self).gate().id() == old(self).gate().id(),
            final(acquire).belongs_to(&final(self).gate().inner()),
            final(acquire).requested() == old(acquire).requested(),
            ready == final(acquire).is_done(),
            final(self).completed() == old(self).completed(),
            old(acquire).is_done() ==> ready && *final(self) == *old(self),
            !old(acquire).is_done() && old(acquire).key() is None ==> {
                &&& ready == (old(self).gate().available() >= old(acquire).requested())
                &&& !ready ==> final(self).gate().queue() == old(self).gate().queue().push(
                    final(acquire).key()->Some_0,
                )
            },
            !old(acquire).is_done() && old(acquire).key() is Some ==> {
                &&& ready == !old(self).gate().queue().contains(old(acquire).key()->Some_0)
                &&& !ready ==> *final(self) == *old(self)
            },
            ready ==> final(self).gate().queue() == old(self).gate().queue(),
            final(self).holders() == old(self).holders() + if ready && !old(acquire).is_done() {
                old(acquire).requested()
            } else {
                0nat
            },
    {
        let was_done = acquire.done();
        let ready = self.semaphore.poll_acquire(acquire);
        if ready && !was_done {
            self.holders = Ghost(self.holders@ + acquire.requested());
        }
        ready
    }

    /// Gives up waiting for the permit, as dropping a pending wait does; a permit that
    /// was already handed to the wait is passed on. Returns the keys of the waiters to
    /// wake.
    pub fn cancel_acquire(&mut self, acquire: Acquire) -> (woken: Vec<usize>)
        requires
            old(self).wf(),
            acquire.belongs_to(&old(self).gate().inner()),
        ensures
            final(self).wf(),
            final(self).gate().id() == old(self).gate().id(),
            final(self).completed() == old(self).completed(),
            final(self).holders() == old(self).holders(),
            acquire.key() is None ==> *final(self) == *old(self) && woken@.len() == 0,
            acquire.key() is Some ==> {
                let k = acquire.key()->Some_0;
                let g = old(self).gate();
                let r = hand_out(
                    g.available(),
                    unlinked(g.queue(), k),
                    g.inner().need().remove(k),
                    (acquire.requested() - g.inner().need()[k]) as nat,
                );
                &&& final(self).gate().available() == r.0
                &&& final(self).gate().queue() == r.1
                &&& woken@ == r.3
                &&& woken@ + final(self).gate().queue() == unlinked(g.queue(), k)
            },
    {
        proof {
            self.semaphore.lemma_unheld();
            if acquire.key() is Some {
                self.semaphore.lemma_given_back(acquire);
            }
        }
        match self.semaphore.cancel_acquire(acquire) {
            Some(woken) => woken,
            None => Vec::new(),
        }
    }

    /// Turns a completed wait into the permit.
    pub fn acquired(&self, acquire: Acquire) -> (permit: SemaphorePermit)
        requires
            acquire.is_done(),
            acquire.semaphore() == self.gate().id(),
        ensures
            permit.held() == acquire.requested(),
            permit.semaphore() == self.gate().id(),
    {
        self.semaphore.acquired(acquire)
    }

    /// The initialization ran to its end under `permit`: marks it complete and gives the
    /// permit back. Returns the keys of the waiters to wake.
    pub fn complete(&mut self, permit: SemaphorePermit) -> (woken: Vec<usize>)
        requires
            old(self).wf(),
            !old(self).completed(),
            old(self).holders() >= 1,
            permit.held() == 1,
            permit.semaphore() == old(self).gate().id(),
        ensures
            final(self).wf(),
            final(self).gate().id() == old(self).gate().id(),
            final(self).completed(),
            final(self).holders() == old(self).holders() - 1,
            ({
                let g = old(self).gate();
                let r = hand_out(g.available(), g.queue(), g.inner().need(), 1);
                &&& final(self).gate().available() == r.0
                &&& final(self).gate().queue() == r.1
                &&& woken@ == r.3
            }),
            woken@ + final(self).gate().queue() == old(self).gate().queue(),
    {
        let res = self.done.cas_state(1, 0);
        proof {
            lemma_give_back(self.semaphore, self.holders@);
        }
        let woken = self.semaphore.release_permit(permit);
        self.holders = Ghost((self.holders@ - 1) as nat);
        woken
    }

    /// The initialization was given up (cancelled, or failed) under `permit`: gives the
    /// permit back without marking it complete, so that a waiting task can try again.
    pub fn abandon(&mut self, permit: SemaphorePermit) -> (woken: Vec<usize>)
        requires
            old(self).wf(),
            old(self).holders() >= 1,
            permit.held() == 1,
            permit.semaphore() == old(self).gate().id(),
        ensures
            final(self).wf(),
            final(self).gate().id() == old(self).gate().id(),
            final(self).completed() == old(self).completed(),
            final(self).holders() == old(self).holders() - 1,
            ({
                let g = old(self).gate();
                let r = hand_out(g.available(), g.queue(), g.inner().need(), 1);
                &&& final(self).gate().available() == r.0
                &&& final(self).gate().queue() == r.1
                &&& woken@ == r.3
            }),
            woken@ + final(self).gate().queue() == old(self).gate().queue(),
    {
        proof {
            lemma_give_back(self.semaphore, self.holders@);
        }
        let woken = self.semaphore.release_permit(permit);
        self.holders = Ghost((self.holders@ - 1) as nat);
        woken
    }

    /// The caller got the permit: checks again whether another call completed the
    /// initialization meanwhile. If so, gives the permit back and returns the keys of the
    /// waiters to wake; otherwise returns the permit, under which the caller runs the
    /// initialization and then calls `complete` (or `abandon` if it gives up).
    pub fn begin_call(&mut self, permit: SemaphorePermit) -> (res: Result<SemaphorePermit, Vec<usize>>)
        requires
            old(self).wf(),
            old(self).holders() >= 1,
            permit.held() == 1,
            permit.semaphore() == old(self).gate().id(),
        ensures
            final(self).wf(),
            final(self).gate().id() == old(self).gate().id(),
            final(self).completed() == old(self).completed(),
            res is Ok <==> !old(self).completed(),
            res is Ok ==> *final(self) == *old(self) && res->Ok_0.held() == 1 && res->Ok_0.semaphore()
                == old(self).gate().id(),
            res is Err ==> {
                let g = old(self).gate();
                let r = hand_out(g.available(), g.queue(), g.inner().need(), 1);
                &&& final(self).holders() == old(self).holders() - 1
                &&& final(self).gate().available() == r.0
                &&& final(self).gate().queue() == r.1
                &&& res->Err_0@ == r.3
            },
    {
        if self.is_completed() {
            Err(self.abandon(permit))
        } else {
            Ok(permit)
        }
    }
}

impl<T> OnceCell<T> {
    /// The value in the cell, once it is set.
    pub closed spec fn content(&self) -> Option<T> {
        self.value
    }

    /// The semaphore whose permit the initializing task holds.
    pub closed spec fn gate(&self) -> Semaphore {
        self.semaphore
    }

    /// The holders of the permit: the permits handed out, and the waits for the permit
    /// that completed and were not yet turned into permits.
    pub closed spec fn holders(&self) -> nat {
        self.holders@
    }

    /// The invariant of a cell: the permit is free, held, or handed to a waiter.
    pub closed spec fn wf(&self) -> bool {
        &&& self.semaphore.wf()
        &&& self.semaphore.unheld() + self.holders@ == 1
    }

    /// At most one task holds the permit to initialize the cell, and while one does, the
    /// permit is not available to anybody else.
    pub proof fn lemma_single_initializer(&self)
        requires
            self.wf(),
        ensures
            self.holders() <= 1,
            self.holders() == 1 ==> self.gate().available() == 0,
    {
        self.semaphore.lemma_unheld();
    }

    /// Creates a new empty cell.
    pub fn new() -> (cell: Self)
        ensures
            cell.wf(),
            cell.content() is None,
            cell.holders() == 0,
            cell.gate().available() == 1,
            cell.gate().queue().len() == 0,
    {
        OnceCell { value: None, semaphore: Semaphore::new(1), holders: Ghost(0) }
    }

    /// Returns whether the value is set.
    fn initialized(&self) -> (set: bool)
        ensures
            set == self.content() is Some,
    {
        self.value.is_some()
    }

    /// Returns the value, or `None` if it is not set yet.
    pub fn get(&self) -> (value: Option<&T>)
        ensures
            value is Some == self.content() is Some,
            value is Some ==> *value->Some_0 == self.content()->Some_0,
    {
        if self.initialized() {
            self.value.as_ref()
        } else {
            None
        }
    }

    /// Starts waiting for the permit to initialize the cell.
    pub fn acquire(&self) -> (acquire: Acquire)
        ensures
            acquire.requested() == 1,
            acquire.key() is None,
            !acquire.is_done(),
            acquire.belongs_to(&self.gate().inner()),
    {
        self.semaphore.acquire(1)
    }

    /// Polls the wait for the permit; returns `true` once the caller holds it, and then
    /// counts it as a holder if this poll completed the wait.
    pub fn poll_acquire(&mut self, acquire: &mut Acquire) -> (ready: bool)
        requires
            old(self).wf(),
            old(acquire).belongs_to(&old(self).gate().inner()),
        ensures
            final(self).wf(),
            final(self).gate().id() == old(self).gate().id(),
            set_once(old(self).content(), final(self).content()),
            final(acquire).belongs_to(&final(self).gate().inner()),
            final(acquire).requested() == old(acquire).requested(),
            ready == final(acquire).is_done(),
            final(self).content() == old(self).content(),
            old(acquire).is_done() ==> ready && *final(self) == *old(self),
            !old(acquire).is_done() && old(acquire).key() is None ==> {
                &&& ready == (old(self).gate().available() >= old(acquire).requested())
                &&& !ready ==> final(self).gate().queue() == old(self).gate().queue().push(
                    final(acquire).key()->Some_0,
                )
            },
            !old(acquire).is_done() && old(acquire).key() is Some ==> {
                &&& ready == !old(self).gate().queue().contains(old(acquire).key()->Some_0)
                &&& !ready ==> *final(self) == *old(self)
            },
            ready ==> final(self).gate().queue() == old(self).gate().queue(),
            final(self).holders() == old(self).holders() + if ready && !old(acquire).is_done() {
                old(acquire).requested()
            } else {
                0nat
            },
    {
        let was_done = acquire.done();
        let ready = self.semaphore.poll_acquire(acquire);
        if ready && !was_done {
            self.holders = Ghost(self.holders@ + acquire.requested());
        }
        ready
    }

    /// Gives up waiting for the permit, as dropping a pending initialization does; a
    /// permit that was already handed to the wait is passed on. Returns the keys of the
    /// waiters to wake.
    pub fn cancel_acquire(&mut self, acquire: Acquire) -> (woken: Vec<usize>)
        requires
            old(self).wf(),
            acquire.belongs_to(&old(self).gate().inner()),
        ensures
            final(self).wf(),
            final(self).gate().id() == old(self).gate().id(),
            set_once(old(self).content(), final(self).content()),
            final(self).content() == old(self).content(),
            final(self).holders() == old(self).holders(),
            acquire.key() is None ==> *final(self) == *old(self) && woken@.len() == 0,
            acquire.key() is Some ==> {
                let k = acquire.key()->Some_0;
                let g = old(self).gate();
                let r = hand_out(
                    g.available(),
                    unlinked(g.queue(), k),
                    g.inner().need().remove(k),
                    (acquire.requested() - g.inner().need()[k]) as nat,
                );
                &&& final(self).gate().available() == r.0
                &&& final(self).gate().queue() == r.1
                &&& woken@ == r.3
                &&& woken@ + final(self).gate().queue() == unlinked(g.queue(), k)
            },
    {
        proof {
            self.semaphore.lemma_unheld();
            if acquire.key() is Some {
                self.semaphore.lemma_given_back(acquire);
            }
        }
        match self.semaphore.cancel_acquire(acquire) {
            Some(woken) => woken,
            None => Vec::new(),
        }
    }

    /// Turns a completed wait into the permit.
    pub fn acquired(&self, acquire: Acquire) -> (permit: SemaphorePermit)
        requires
            acquire.is_done(),
            acquire.semaphore() == self.gate().id(),
        ensures
            permit.held() == acquire.requested(),
            permit.semaphore() == self.gate().id(),
    {
        self.semaphore.acquired(acquire)
    }

    /// Sets the value under `permit`, which the initializing task holds, and gives the
    /// permit back. Returns the keys of the waiters to wake.
    pub fn set_value(&mut self, value: T, permit: SemaphorePermit) -> (woken: Vec<usize>)
        requires
            old(self).wf(),
            old(self).content() is None,
            old(self).holders() >= 1,
            permit.held() == 1,
            permit.semaphore() == old(self).gate().id(),
        ensures
            final(self).wf(),
            final(self).gate().id() == old(self).gate().id(),
            set_once(old(self).content(), final(self).content()),
            final(self).content() == Some(value),
            final(self).holders() == old(self).holders() - 1,
            ({
                let g = old(self).gate();
                let r = hand_out(g.available(), g.queue(), g.inner().need(), 1);
                &&& final(self).gate().available() == r.0
                &&& final(self).gate().queue() == r.1
                &&& woken@ == r.3
            }),
            woken@ + final(self).gate().queue() == old(self).gate().queue(),
    {
        self.value = Some(value);
        proof {
            lemma_give_back(self.semaphore, self.holders@);
        }
        let woken = self.semaphore.release_permit(permit);
        self.holders = Ghost((self.holders@ - 1) as nat);
        woken
    }

    /// The initialization was given up under `permit`: gives the permit back without
    /// setting the value, so that a waiting task can try again.
    pub fn abandon(&mut self, permit: SemaphorePermit) -> (woken: Vec<usize>)
        requires
            old(self).wf(),
            old(self).holders() >= 1,
            permit.held() == 1,
            permit.semaphore() == old(self).gate().id(),
        ensures
            final(self).wf(),
            final(self).gate().id() == old(self).gate().id(),
            set_once(old(self).content(), final(self).content()),
            final(self).content() == old(self).content(),
            final(self).holders() == old(self).holders() - 1,
            ({
                let g = old(self).gate();
                let r = hand_out(g.available(), g.queue(), g.inner().need(), 1);
                &&& final(self).gate().available() == r.0
                &&& final(self).gate().queue() == r.1
                &&& woken@ == r.3
            }),
            woken@ + final(self).gate().queue() == old(self).gate().queue(),
    {
        proof {
            lemma_give_back(self.semaphore, self.holders@);
        }
        let woken = self.semaphore.release_permit(permit);
        self.holders = Ghost((self.holders@ - 1) as nat);
        woken
    }

    /// The caller got the permit: checks again whether another task set the value
    /// meanwhile. If so, gives the permit back and returns the keys of the waiters to
    /// wake; otherwise returns the permit, under which the caller computes the value.
    pub fn begin_init(&mut self, permit: SemaphorePermit) -> (res: Result<SemaphorePermit, Vec<usize>>)
        requires
            old(self).wf(),
            old(self).holders() >= 1,
            permit.held() == 1,
            permit.semaphore() == old(self).gate().id(),
        ensures
            final(self).wf(),
            final(self).gate().id() == old(self).gate().id(),
            set_once(old(self).content(), final(self).content()),
            final(self).content() == old(self).content(),
            res is Ok <==> old(self).content() is None,
            res is Ok ==> *final(self) == *old(self) && res->Ok_0.held() == 1 && res->Ok_0.semaphore()
                == old(self).gate().id(),
            res is Err ==> {
                let g = old(self).gate();
                let r = hand_out(g.available(), g.queue(), g.inner().need(), 1);
                &&& final(self).holders() == old(self).holders() - 1
                &&& final(self).gate().available() == r.0
                &&& final(self).gate().queue() == r.1
                &&& res->Err_0@ == r.3
            },
    {
        if self.initialized() {
            Err(self.abandon(permit))
        } else {
            Ok(permit)
        }
    }

    /// The computation of the value under `permit` ended with `outcome`: a value is set
    /// and an error leaves the cell empty; either way the permit is given back. Returns
    /// the error, if any, and the keys of the waiters to wake.
    pub fn finish_init<E>(&mut self, permit: SemaphorePermit, outcome: Result<T, E>) -> (res: (
        Result<(), E>,
        Vec<usize>,
    ))
        requires
            old(self).wf(),
            old(self).content() is None,
            old(self).holders() >= 1,
            permit.held() == 1,
            permit.semaphore() == old(self).gate().id(),
        ensures
            final(self).wf(),
            final(self).gate().id() == old(self).gate().id(),
            set_once(old(self).content(), final(self).content()),
            final(self).holders() == old(self).holders() - 1,
            outcome is Ok ==> res.0 is Ok && final(self).content() == Some(outcome->Ok_0),
            outcome is Err ==> res.0 == Err::<(), E>(outcome->Err_0) && final(self).content() is None,
            ({
                let g = old(self).gate();
                let r = hand_out(g.available(), g.queue(), g.inner().need(), 1);
                &&& final(self).gate().available() == r.0
                &&& final(self).gate().queue() == r.1
                &&& res.1@ == r.3
            }),
    {
        match outcome {
            Ok(value) => {
                let woken = self.set_value(value, permit);
                (Ok(()), woken)
            },
            Err(err) => {
                let woken = self.abandon(permit);
                (Err(err), woken)
            },
        }
    }
}

} // verus!
