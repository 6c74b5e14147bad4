//! A mutual exclusion primitive for protecting shared data.
//!
//! The lock is a semaphore with a single permit: taking the permit locks the mutex,
//! giving it back unlocks it, and tasks that wait for it are served in the order in which
//! they asked.
//!
//! The mutex counts its holders: the guards it handed out and the lock acquisitions
//! that completed. With the permit that is free, the holders, and the waiters that were
//! handed the lock but have not been polled since, there is exactly one permit.

use crate::internal::semaphore::{
    lemma_hand_out_one,
    lemma_hand_out_bound,
    lemma_hand_out_need,
    unlinked,
    Acquire,
    Semaphore,
};
use vstd::prelude::*;

verus! {

/// The waiters of `need` that were handed all the permits they asked for.
pub open spec fn granted(need: Map<usize, usize>) -> Set<usize> {
    need.dom().filter(|k: usize| need[k] == 0)
}

/// Registering a waiter that still needs permits grants nothing.
proof fn lemma_granted_register(need: Map<usize, usize>, k: usize, v: usize)
    requires
        !need.dom().contains(k),
        v > 0,
    ensures
        granted(need.insert(k, v)) == granted(need),
{
    assert(granted(need.insert(k, v)) =~= granted(need));
}

/// Forgetting a waiter takes it out of the granted ones.
proof fn lemma_granted_forget(need: Map<usize, usize>, k: usize)
    ensures
        granted(need.remove(k)) == granted(need).remove(k),
{
    assert(granted(need.remove(k)) =~= granted(need).remove(k));
}

/// Handing a waiter all it needs adds it to the granted ones.
proof fn lemma_granted_grant(need: Map<usize, usize>, k: usize)
    requires
        need.dom().contains(k),
    ensures
        granted(need.insert(k, 0)) == granted(need).insert(k),
{
    assert(granted(need.insert(k, 0)) =~= granted(need).insert(k));
}

/// A mutual exclusion primitive protecting a value of type `T`.
pub struct Mutex<T> {
    s: Semaphore,
    c: T,
    /// The guards handed out and the lock acquisitions that completed.
    held: Ghost<nat>,
}

/// Proof that its holder locked a [`Mutex`]; `Mutex::unlock` gives the lock back.
pub struct MutexGuard {
    /// The identity of the mutex it locked.
    mutex: Ghost<int>,
}

/// Proof that its holder, which shares ownership of a [`Mutex`], locked it;
/// `Mutex::unlock_owned` gives the lock back.
pub struct OwnedMutexGuard {
    /// The identity of the mutex it locked.
    mutex: Ghost<int>,
}

impl MutexGuard {
    /// The identity of the mutex that the guard locked.
    pub closed spec fn mutex(&self) -> int {
        self.mutex@
    }
}

impl OwnedMutexGuard {
    /// The identity of the mutex that the guard locked.
    pub closed spec fn mutex(&self) -> int {
        self.mutex@
    }
}

impl<T> Mutex<T> {
    /// The identity that the guards and lock acquisitions of this mutex carry. A new mutex
    /// gets one that nothing relates to the identity of any other mutex.
    pub open spec fn id(&self) -> int {
        self.lock_semaphore().id()
    }

    /// The mutex's invariant: one permit, which is free, held, or handed to a waiter.
    pub closed spec fn wf(&self) -> bool {
        &&& self.s.wf()
        &&& forall|k: usize| #[trigger] self.s.need().dom().contains(k) ==> self.s.need()[k] <= 1
        &&& self.s.available() + self.held@ + granted(self.s.need()).len() == 1
    }

    /// The protected value.
    pub closed spec fn value(&self) -> T {
        self.c
    }

    /// Someone holds the lock, or it has been handed to a waiter.
    pub closed spec fn is_locked(&self) -> bool {
        self.s.available() == 0
    }

    /// The holders of the lock: the guards handed out, and the lock acquisitions that
    /// completed and were not yet turned into guards.
    pub closed spec fn holders(&self) -> nat {
        self.held@
    }

    /// The tasks waiting for the lock, first served first.
    pub closed spec fn waiting(&self) -> Seq<usize> {
        self.s.queue()
    }

    /// The semaphore behind the lock, for the contracts of lock acquisitions.
    pub closed spec fn lock_semaphore(&self) -> Semaphore {
        self.s
    }

    /// A mutex has at most one holder, and it is locked while it has one; while it is
    /// unlocked, it has no holder and nobody waits for it.
    pub proof fn lemma_mutual_exclusion(&self)
        requires
            self.wf(),
        ensures
            self.holders() <= 1,
            self.holders() == 1 ==> self.is_locked(),
            !self.is_locked() ==> self.holders() == 0 && self.waiting().len() == 0,
    {
        self.s.lemma_wf();
    }

    /// Creates a new mutex in an unlocked state ready for use.
    pub fn new(t: T) -> (mutex: Self)
        ensures
            mutex.wf(),
            !mutex.is_locked(),
            mutex.holders() == 0,
            mutex.waiting().len() == 0,
            mutex.value() == t,
    {
        let mutex = Mutex { s: Semaphore::new(1), c: t, held: Ghost(0) };
        assert(granted(mutex.s.need()) =~= Set::<usize>::empty());
        mutex
    }

    /// Consumes the mutex, returning the underlying data.
    pub fn into_inner(self) -> (t: T)
        ensures
            t == self.value(),
    {
        self.c
    }

    /// Returns a mutable reference to the underlying data; the exclusive borrow of the
    /// mutex makes locking unnecessary.
    pub fn get_mut(&mut self) -> (t: &mut T)
        ensures
            *t == old(self).value(),
            final(self).value() == *final(t),
            final(self).lock_semaphore() == old(self).lock_semaphore(),
            final(self).holders() == old(self).holders(),
            final(self).wf() == old(self).wf(),
            final(self).is_locked() == old(self).is_locked(),
            final(self).waiting() == old(self).waiting(),
    {
        &mut self.c
    }

    /// Attempts to acquire the lock; returns `None` if it is held.
    pub fn try_lock(&mut self) -> (guard: Option<MutexGuard>)
        requires
            old(self).wf(),
        ensures
            final(self).wf(),
            final(self).id() == old(self).id(),
            guard is Some == !old(self).is_locked(),
            final(self).is_locked(),
            final(self).holders() == old(self).holders() + if guard is Some { 1nat } else { 0nat },
            final(self).value() == old(self).value(),
            final(self).waiting() == old(self).waiting(),
            guard is Some ==> guard->Some_0.mutex() == old(self).id(),
            guard is None ==> final(self).lock_semaphore() == old(self).lock_semaphore()
                && final(self).holders() == old(self).holders(),
    {
        if self.s.try_acquire(1) {
            self.held = Ghost(self.held@ + 1);
            Some(MutexGuard { mutex: Ghost(self.s.id()) })
        } else {
            None
        }
    }

    /// Attempts to acquire the lock for a holder that shares ownership of the mutex;
    /// returns `None` if it is held.
    pub fn try_lock_owned(&mut self) -> (guard: Option<OwnedMutexGuard>)
        requires
            old(self).wf(),
        ensures
            final(self).wf(),
            final(self).id() == old(self).id(),
            guard is Some == !old(self).is_locked(),
            final(self).is_locked(),
            final(self).holders() == old(self).holders() + if guard is Some { 1nat } else { 0nat },
            final(self).value() == old(self).value(),
            final(self).waiting() == old(self).waiting(),
            guard is Some ==> guard->Some_0.mutex() == old(self).id(),
            guard is None ==> final(self).lock_semaphore() == old(self).lock_semaphore()
                && final(self).holders() == old(self).holders(),
    {
        if self.s.try_acquire(1) {
            self.held = Ghost(self.held@ + 1);
            Some(OwnedMutexGuard { mutex: Ghost(self.s.id()) })
        } else {
            None
        }
    }

    /// Starts waiting for the lock; the returned acquisition is polled with `poll_lock`.
    pub fn lock(&self) -> (acquire: Acquire)
        ensures
            acquire.requested() == 1,
            acquire.key() is None,
            !acquire.is_done(),
            acquire.belongs_to(&self.lock_semaphore()),
    {
        self.s.poll_acquire(1)
    }

    /// Polls an acquisition of the lock: a first poll takes the lock if it is free and
    /// queues otherwise; later polls complete once the queue has handed the lock over.
    /// Returns `true` once the acquisition holds the lock, and counts it as a holder when
    /// this poll completed it.
    pub fn poll_lock(&mut self, acquire: &mut Acquire) -> (ready: bool)
        requires
            old(self).wf(),
            old(acquire).belongs_to(&old(self).lock_semaphore()),
            old(acquire).requested() == 1,
        ensures
            final(self).wf(),
            final(self).id() == old(self).id(),
            final(acquire).belongs_to(&final(self).lock_semaphore()),
            final(acquire).requested() == old(acquire).requested(),
            ready == final(acquire).is_done(),
            final(self).value() == old(self).value(),
            final(self).holders() == old(self).holders() + if ready && !old(acquire).is_done() {
                1nat
            } else {
                0nat
            },
            !old(acquire).is_done() && old(acquire).key() is None ==> {
                &&& ready == !old(self).is_locked()
                &&& final(self).is_locked()
                &&& ready ==> final(self).waiting() == old(self).waiting()
                &&& !ready ==> final(self).waiting() == old(self).waiting().push(final(acquire).key()->Some_0)
            },
            old(acquire).is_done() ==> ready && final(self).lock_semaphore() == old(self).lock_semaphore(),
            !old(acquire).is_done() && old(acquire).key() is Some ==> {
                &&& ready == !old(self).waiting().contains(old(acquire).key()->Some_0)
                &&& final(self).waiting() == old(self).waiting()
                &&& final(self).is_locked() == old(self).is_locked()
                &&& !ready ==> final(self).lock_semaphore() == old(self).lock_semaphore()
            },
    {
        let was_done = acquire.done();
        let ghost s0 = self.s;
        let ghost k0 = acquire.key();
        let ready = acquire.poll_once(&mut self.s);
        proof {
            s0.lemma_wf();
            assert forall|k: usize| #[trigger] self.s.need().dom().contains(k) implies self.s.need()[k] <= 1 by {
                if s0.need().dom().contains(k) {
                }
            }
            if !was_done {
                match k0 {
                    None => {
                        if !ready {
                            let k = acquire.key()->Some_0;
                            lemma_granted_register(s0.need(), k, 1);
                        }
                    },
                    Some(k) => {
                        if ready {
                            lemma_granted_forget(s0.need(), k);
                            assert(granted(s0.need()).contains(k));
                            assert(granted(s0.need()).finite()) by {
                                s0.need().dom().lemma_len_filter(|j: usize| s0.need()[j] == 0);
                            }
                        }
                    },
                }
            }
        }
        if ready && !was_done {
            self.held = Ghost(self.held@ + 1);
        }
        ready
    }

    /// Turns a completed acquisition into the guard of the lock it holds.
    pub fn locked(&self, acquire: Acquire) -> (guard: MutexGuard)
        requires
            acquire.is_done(),
            acquire.semaphore() == self.id(),
        ensures
            guard.mutex() == self.id(),
    {
        MutexGuard { mutex: Ghost(self.s.id()) }
    }

    /// Turns a completed acquisition into the owned guard of the lock it holds.
    pub fn locked_owned(&self, acquire: Acquire) -> (guard: OwnedMutexGuard)
        requires
            acquire.is_done(),
            acquire.semaphore() == self.id(),
        ensures
            guard.mutex() == self.id(),
    {
        OwnedMutexGuard { mutex: Ghost(self.s.id()) }
    }

    /// Gives up waiting for the lock; a lock that was already handed to the acquisition is
    /// passed on. Returns the keys of the waiters to wake.
    pub fn cancel_lock(&mut self, acquire: Acquire) -> (woken: Vec<usize>)
        requires
            old(self).wf(),
            acquire.belongs_to(&old(self).lock_semaphore()),
            acquire.requested() == 1,
            !acquire.is_done(),
        ensures
            final(self).wf(),
            final(self).id() == old(self).id(),
            final(self).value() == old(self).value(),
            final(self).holders() == old(self).holders(),
            acquire.key() is None ==> final(self).lock_semaphore() == old(self).lock_semaphore() && woken@.len() == 0,
            acquire.key() is Some && old(self).waiting().contains(acquire.key()->Some_0) ==> {
                let q = old(self).waiting();
                &&& final(self).waiting() == q.remove(q.index_of(acquire.key()->Some_0))
                &&& final(self).is_locked() == old(self).is_locked()
                &&& woken@.len() == 0
            },
            acquire.key() is Some && !old(self).waiting().contains(acquire.key()->Some_0) ==> {
                &&& old(self).waiting().len() == 0 ==> !final(self).is_locked() && woken@.len() == 0
                &&& old(self).waiting().len() > 0 ==> final(self).is_locked() && woken@ == seq![
                    old(self).waiting()[0],
                ] && final(self).waiting() == old(self).waiting().drop_first()
            },
    {
        let ghost s0 = self.s;
        proof {
            s0.lemma_wf();
            if let Some(k) = acquire.key() {
                assert(!acquire.cancel_overflows(&s0));
                let q1 = unlinked(s0.queue(), k);
                let n1 = s0.need().remove(k);
                let acquired = (acquire.requested() - s0.need()[k]) as nat;
                lemma_hand_out_bound(s0.available(), q1, n1, acquired);
                assert forall|i: int| 0 <= i < q1.len() implies n1.dom().contains(#[trigger] q1[i]) by {
                    if s0.queue().contains(k) {
                        let j = s0.queue().index_of(k);
                        if i < j {
                            assert(q1[i] == s0.queue()[i]);
                        } else {
                            assert(q1[i] == s0.queue()[i + 1]);
                        }
                        assert(q1[i] != k);
                    } else {
                        assert(q1[i] == s0.queue()[i]);
                        assert(s0.queue().contains(q1[i]));
                    }
                }
                lemma_hand_out_need(s0.available(), q1, n1, acquired);
                s0.need().dom().lemma_len_filter(|j: usize| s0.need()[j] == 0);
                lemma_granted_forget(s0.need(), k);
                if s0.need()[k] == 0 {
                    assert(granted(s0.need()).contains(k));
                    assert(!s0.queue().contains(k));
                    assert(q1 == s0.queue());
                    assert(s0.available() == 0);
                    if q1.len() > 0 {
                        let q0 = q1[0];
                        assert(q1.contains(q0));
                        assert(n1.dom().contains(q0));
                        assert(s0.queue().contains(q0));
                        assert(n1[q0] == 1);
                        lemma_hand_out_one(0, q1, n1);
                        lemma_granted_grant(n1, q0);
                        assert(!granted(n1).contains(q0));
                        n1.dom().lemma_len_filter(|j: usize| n1[j] == 0);
                    }
                } else {
                    assert(!granted(s0.need()).contains(k));
                    assert(granted(n1) =~= granted(s0.need()));
                    assert(s0.queue().contains(k));
                    assert(s0.need()[k] == 1);
                }
            }
        }
        let woken = match acquire.cancel(&mut self.s) {
            Some(woken) => woken,
            None => Vec::new(),
        };
        proof {
            assert forall|k: usize| #[trigger] self.s.need().dom().contains(k) implies self.s.need()[k] <= 1 by {
                if let Some(j) = acquire.key() {
                    assert(s0.need().remove(j).dom().contains(k));
                }
            }
        }
        woken
    }

    /// Releases the lock held through `guard`, handing it to the first waiting task if
    /// there is one. Returns the keys of the waiters to wake.
    pub fn unlock(&mut self, guard: MutexGuard) -> (woken: Vec<usize>)
        requires
            old(self).wf(),
            old(self).holders() >= 1,
            guard.mutex() == old(self).id(),
        ensures
            final(self).wf(),
            final(self).id() == old(self).id(),
            final(self).value() == old(self).value(),
            final(self).holders() == old(self).holders() - 1,
            old(self).waiting().len() == 0 ==> !final(self).is_locked() && woken@.len() == 0,
            old(self).waiting().len() > 0 ==> final(self).is_locked() && woken@ == seq![
                old(self).waiting()[0],
            ] && final(self).waiting() == old(self).waiting().drop_first(),
    {
        self.release_lock()
    }

    /// Releases the lock held through an owned `guard`, handing it to the first waiting
    /// task if there is one. Returns the keys of the waiters to wake.
    pub fn unlock_owned(&mut self, guard: OwnedMutexGuard) -> (woken: Vec<usize>)
        requires
            old(self).wf(),
            old(self).holders() >= 1,
            guard.mutex() == old(self).id(),
        ensures
            final(self).wf(),
            final(self).id() == old(self).id(),
            final(self).value() == old(self).value(),
            final(self).holders() == old(self).holders() - 1,
            old(self).waiting().len() == 0 ==> !final(self).is_locked() && woken@.len() == 0,
            old(self).waiting().len() > 0 ==> final(self).is_locked() && woken@ == seq![
                old(self).waiting()[0],
            ] && final(self).waiting() == old(self).waiting().drop_first(),
    {
        self.release_lock()
    }

    fn release_lock(&mut self) -> (woken: Vec<usize>)
        requires
            old(self).wf(),
            old(self).holders() >= 1,
        ensures
            final(self).wf(),
            final(self).id() == old(self).id(),
            final(self).value() == old(self).value(),
            final(self).holders() == old(self).holders() - 1,
            old(self).waiting().len() == 0 ==> !final(self).is_locked() && woken@.len() == 0,
            old(self).waiting().len() > 0 ==> final(self).is_locked() && woken@ == seq![
                old(self).waiting()[0],
            ] && final(self).waiting() == old(self).waiting().drop_first(),
    {
        let ghost s0 = self.s;
        proof {
            s0.lemma_wf();
            s0.need().dom().lemma_len_filter(|j: usize| s0.need()[j] == 0);
            lemma_hand_out_bound(s0.available(), s0.queue(), s0.need(), 1);
            lemma_hand_out_need(s0.available(), s0.queue(), s0.need(), 1);
            let q = s0.queue();
            if q.len() > 0 {
                assert(q.contains(q[0]));
                assert(s0.need().dom().contains(q[0]));
                lemma_hand_out_one(0, q, s0.need());
                lemma_granted_grant(s0.need(), q[0]);
                assert(!granted(s0.need()).contains(q[0]));
            }
        }
        let woken = self.s.release(1);
        self.held = Ghost((self.held@ - 1) as nat);
        proof {
            assert forall|k: usize| #[trigger] self.s.need().dom().contains(k) implies self.s.need()[k] <= 1 by {
                assert(s0.need().dom().contains(k));
            }
        }
        woken
    }

    /// The protected value, read through the lock held by `guard`.
    pub fn get(&self, guard: &MutexGuard) -> (t: &T)
        requires
            guard.mutex() == self.id(),
            self.holders() >= 1,
        ensures
            *t == self.value(),
    {
        &self.c
    }

    /// The protected value, written through the lock held by `guard`.
    pub fn get_guarded_mut(&mut self, guard: &MutexGuard) -> (t: &mut T)
        requires
            guard.mutex() == old(self).id(),
            old(self).holders() >= 1,
        ensures
            *t == old(self).value(),
            final(self).value() == *final(t),
            final(self).lock_semaphore() == old(self).lock_semaphore(),
            final(self).holders() == old(self).holders(),
            final(self).wf() == old(self).wf(),
            final(self).is_locked() == old(self).is_locked(),
            final(self).waiting() == old(self).waiting(),
    {
        &mut self.c
    }

    /// The protected value, read through the lock held by an owned `guard`.
    pub fn get_owned(&self, guard: &OwnedMutexGuard) -> (t: &T)
        requires
            guard.mutex() == self.id(),
            self.holders() >= 1,
        ensures
            *t == self.value(),
    {
        &self.c
    }

    /// The protected value, written through the lock held by an owned `guard`.
    pub fn get_owned_guarded_mut(&mut self, guard: &OwnedMutexGuard) -> (t: &mut T)
        requires
            guard.mutex() == old(self).id(),
            old(self).holders() >= 1,
        ensures
            *t == old(self).value(),
            final(self).value() == *final(t),
            final(self).lock_semaphore() == old(self).lock_semaphore(),
            final(self).holders() == old(self).holders(),
            final(self).wf() == old(self).wf(),
            final(self).is_locked() == old(self).is_locked(),
            final(self).waiting() == old(self).waiting(),
    {
        &mut self.c
    }
}

} // verus!
