//! A reader-writer lock: many readers or a single writer at a time.
//!
//! The lock is a semaphore with `max_readers` permits: a reader takes one permit, a
//! writer takes them all, and tasks that wait are served in the order in which they
//! asked.
//!
//! The lock counts the permits its holders have: the guards it handed out and the
//! acquisitions that completed. With the permits that no holder has, they make up all
//! the permits of the lock, which is what keeps a writer alone.

use crate::internal::semaphore::{
    hand_out,
    lemma_demand_unlinked,
    lemma_hand_out,
    lemma_hand_out_bound,
    unlinked,
    Acquire,
    Semaphore,
};
use vstd::prelude::*;

verus! {

/// The number of readers a lock admits at once unless told otherwise.
pub const DEFAULT_MAX_READERS: usize = usize::MAX;

/// A reader-writer lock protecting a value of type `T`.
pub struct RwLock<T> {
    max_readers: usize,
    s: Semaphore,
    c: T,
    /// The permits that holders have.
    held: Ghost<nat>,
}

/// Proof that its holder has read access to a [`RwLock`].
pub struct RwLockReadGuard {
    /// The identity of the lock it reads.
    lock: Ghost<int>,
}

/// Proof that its holder, which shares ownership of a [`RwLock`], has read access to it.
pub struct OwnedRwLockReadGuard {
    /// The identity of the lock it reads.
    lock: Ghost<int>,
}

/// Proof that its holder has write access to a [`RwLock`].
pub struct RwLockWriteGuard {
    permits_acquired: usize,
    /// The identity of the lock it writes.
    lock: Ghost<int>,
}

/// Proof that its holder, which shares ownership of a [`RwLock`], has write access to it.
pub struct OwnedRwLockWriteGuard {
    permits_acquired: usize,
    /// The identity of the lock it writes.
    lock: Ghost<int>,
}

impl RwLockReadGuard {
    /// The identity of the lock that the guard reads.
    pub closed spec fn lock(&self) -> int {
        self.lock@
    }
}

impl OwnedRwLockReadGuard {
    /// The identity of the lock that the guard reads.
    pub closed spec fn lock(&self) -> int {
        self.lock@
    }
}

impl RwLockWriteGuard {
    /// The permits that the guard holds: all of the lock's.
    pub closed spec fn held(&self) -> nat {
        self.permits_acquired as nat
    }

    /// The identity of the lock that the guard writes.
    pub closed spec fn lock(&self) -> int {
        self.lock@
    }
}

impl OwnedRwLockWriteGuard {
    /// The permits that the guard holds: all of the lock's.
    pub closed spec fn held(&self) -> nat {
        self.permits_acquired as nat
    }

    /// The identity of the lock that the guard writes.
    pub closed spec fn lock(&self) -> int {
        self.lock@
    }
}

impl<T> RwLock<T> {
    /// The identity that the guards and acquisitions of this lock carry. A new lock gets
    /// one that nothing relates to the identity of any other lock.
    pub open spec fn id(&self) -> int {
        self.lock_semaphore().id()
    }

    /// The lock's invariant.
    pub closed spec fn wf(&self) -> bool {
        &&& self.s.wf()
        &&& self.max_readers > 0
        &&& self.s.unheld() + self.held@ == self.max_readers
    }

    /// The permits that the holders of the lock have: one per reader and all of them
    /// for a writer, counting the guards handed out and the acquisitions that completed.
    pub closed spec fn held(&self) -> nat {
        self.held@
    }

    /// Many readers or a single writer: the holders never have more than `max()` permits
    /// between them, nor more than those that are not available, so a writer, which has
    /// them all, holds the lock alone.
    pub proof fn lemma_exclusion(&self)
        requires
            self.wf(),
        ensures
            self.held() <= self.max(),
            self.available() + self.held() <= self.max(),
            self.held() >= self.max() ==> self.available() == 0 && self.held() == self.max(),
    {
        self.s.lemma_given();
    }

    /// The number of readers admitted at once.
    pub closed spec fn max(&self) -> nat {
        self.max_readers as nat
    }

    /// The permits available right now: `max()` when nobody holds the lock, less one per
    /// reader, and none while a writer holds it.
    pub closed spec fn available(&self) -> nat {
        self.s.available()
    }

    /// The protected value.
    pub closed spec fn value(&self) -> T {
        self.c
    }

    /// The semaphore behind the lock, for the contracts of lock acquisitions.
    pub closed spec fn lock_semaphore(&self) -> Semaphore {
        self.s
    }

    /// Creates a new lock in an unlocked state ready for use.
    pub fn new(t: T) -> (lock: Self)
        ensures
            lock.wf(),
            lock.max() == DEFAULT_MAX_READERS,
            lock.available() == lock.max(),
            lock.held() == 0,
            lock.lock_semaphore().queue().len() == 0,
            lock.value() == t,
    {
        RwLock { max_readers: DEFAULT_MAX_READERS, s: Semaphore::new(DEFAULT_MAX_READERS), c: t, held: Ghost(0) }
    }

    /// Creates a new lock in an unlocked state that admits at most `max_readers` readers
    /// at once; `max_readers` is never zero.
    pub fn with_max_readers(t: T, max_readers: usize) -> (lock: Self)
        requires
            max_readers > 0,
        ensures
            lock.wf(),
            lock.max() == max_readers,
            lock.available() == lock.max(),
            lock.held() == 0,
            lock.lock_semaphore().queue().len() == 0,
            lock.value() == t,
    {
        RwLock { max_readers, s: Semaphore::new(max_readers), c: t, held: Ghost(0) }
    }

    /// Consumes the lock, returning the underlying data.
    pub fn into_inner(self) -> (t: T)
        ensures
            t == self.value(),
    {
        self.c
    }

    /// Returns a mutable reference to the underlying data; the exclusive borrow of the
    /// lock makes locking unnecessary.
    pub fn get_mut(&mut self) -> (t: &mut T)
        ensures
            *t == old(self).value(),
            final(self).value() == *final(t),
            final(self).lock_semaphore() == old(self).lock_semaphore(),
            final(self).max() == old(self).max(),
            final(self).held() == old(self).held(),
            final(self).wf() == old(self).wf(),
    {
        &mut self.c
    }

    /// Attempts to acquire read access; returns `None` if a writer holds the lock or the
    /// lock admits no more readers.
    pub fn try_read(&mut self) -> (guard: Option<RwLockReadGuard>)
        requires
            old(self).wf(),
        ensures
            final(self).wf(),
            final(self).id() == old(self).id(),
            guard is Some == (old(self).available() >= 1),
            final(self).available() == if guard is Some { old(self).available() - 1 } else { old(self).available() as int },
            final(self).held() == old(self).held() + if guard is Some { 1nat } else { 0nat },
            final(self).lock_semaphore().queue() == old(self).lock_semaphore().queue(),
            guard is None ==> final(self).lock_semaphore() == old(self).lock_semaphore(),
            guard is Some ==> guard->Some_0.lock() == old(self).id(),
            final(self).max() == old(self).max(),
            final(self).value() == old(self).value(),
    {
        if self.s.try_acquire(1) {
            self.held = Ghost(self.held@ + 1);
            Some(RwLockReadGuard { lock: Ghost(self.s.id()) })
        } else {
            None
        }
    }

    /// Attempts to acquire read access for a holder that shares ownership of the lock.
    pub fn try_read_owned(&mut self) -> (guard: Option<OwnedRwLockReadGuard>)
        requires
            old(self).wf(),
        ensures
            final(self).wf(),
            final(self).id() == old(self).id(),
            guard is Some == (old(self).available() >= 1),
            final(self).available() == if guard is Some { old(self).available() - 1 } else { old(self).available() as int },
            final(self).held() == old(self).held() + if guard is Some { 1nat } else { 0nat },
            final(self).lock_semaphore().queue() == old(self).lock_semaphore().queue(),
            guard is None ==> final(self).lock_semaphore() == old(self).lock_semaphore(),
            guard is Some ==> guard->Some_0.lock() == old(self).id(),
            final(self).max() == old(self).max(),
            final(self).value() == old(self).value(),
    {
        if self.s.try_acquire(1) {
            self.held = Ghost(self.held@ + 1);
            Some(OwnedRwLockReadGuard { lock: Ghost(self.s.id()) })
        } else {
            None
        }
    }

    /// Attempts to acquire write access; returns `None` if anyone holds the lock.
    pub fn try_write(&mut self) -> (guard: Option<RwLockWriteGuard>)
        requires
            old(self).wf(),
        ensures
            final(self).wf(),
            final(self).id() == old(self).id(),
            guard is Some == (old(self).available() == old(self).max()),
            guard is Some ==> final(self).available() == 0 && guard->Some_0.held() == old(self).max(),
            guard is None ==> final(self).available() == old(self).available(),
            final(self).held() == old(self).held() + if guard is Some { old(self).max() } else { 0nat },
            final(self).lock_semaphore().queue() == old(self).lock_semaphore().queue(),
            guard is None ==> final(self).lock_semaphore() == old(self).lock_semaphore(),
            guard is Some ==> guard->Some_0.lock() == old(self).id(),
            final(self).max() == old(self).max(),
            final(self).value() == old(self).value(),
    {
        proof {
            self.lemma_exclusion();
        }
        let permits = self.max_readers;
        if self.s.try_acquire(permits) {
            self.held = Ghost(self.held@ + permits as nat);
            Some(RwLockWriteGuard { permits_acquired: permits, lock: Ghost(self.s.id()) })
        } else {
            None
        }
    }

    /// Attempts to acquire write access for a holder that shares ownership of the lock;
    /// returns `None` if anyone holds the lock.
    pub fn try_write_owned(&mut self) -> (guard: Option<OwnedRwLockWriteGuard>)
        requires
            old(self).wf(),
        ensures
            final(self).wf(),
            final(self).id() == old(self).id(),
            guard is Some == (old(self).available() == old(self).max()),
            guard is Some ==> final(self).available() == 0 && guard->Some_0.held() == old(self).max(),
            guard is None ==> final(self).available() == old(self).available(),
            final(self).held() == old(self).held() + if guard is Some { old(self).max() } else { 0nat },
            final(self).lock_semaphore().queue() == old(self).lock_semaphore().queue(),
            guard is None ==> final(self).lock_semaphore() == old(self).lock_semaphore(),
            guard is Some ==> guard->Some_0.lock() == old(self).id(),
            final(self).max() == old(self).max(),
            final(self).value() == old(self).value(),
    {
        proof {
            self.lemma_exclusion();
        }
        let permits = self.max_readers;
        if self.s.try_acquire(permits) {
            self.held = Ghost(self.held@ + permits as nat);
            Some(OwnedRwLockWriteGuard { permits_acquired: permits, lock: Ghost(self.s.id()) })
        } else {
            None
        }
    }

    /// The protected value, read through a read guard.
    pub fn read_value(&self, guard: &RwLockReadGuard) -> (t: &T)
        requires
            guard.lock() == self.id(),
            self.held() >= 1,
        ensures
            *t == self.value(),
    {
        &self.c
    }

    /// The protected value, read through an owned read guard.
    pub fn read_owned_value(&self, guard: &OwnedRwLockReadGuard) -> (t: &T)
        requires
            guard.lock() == self.id(),
            self.held() >= 1,
        ensures
            *t == self.value(),
    {
        &self.c
    }

    /// The protected value, written through a write guard.
    pub fn write_value(&mut self, guard: &RwLockWriteGuard) -> (t: &mut T)
        requires
            guard.lock() == old(self).id(),
            old(self).held() >= old(self).max(),
        ensures
            *t == old(self).value(),
            final(self).value() == *final(t),
            final(self).lock_semaphore() == old(self).lock_semaphore(),
            final(self).max() == old(self).max(),
            final(self).held() == old(self).held(),
            final(self).wf() == old(self).wf(),
    {
        &mut self.c
    }

    /// The protected value, written through an owned write guard.
    pub fn write_owned_value(&mut self, guard: &OwnedRwLockWriteGuard) -> (t: &mut T)
        requires
            guard.lock() == old(self).id(),
            old(self).held() >= old(self).max(),
        ensures
            *t == old(self).value(),
            final(self).value() == *final(t),
            final(self).lock_semaphore() == old(self).lock_semaphore(),
            final(self).max() == old(self).max(),
            final(self).held() == old(self).held(),
            final(self).wf() == old(self).wf(),
    {
        &mut self.c
    }

    /// Gives back `n` of the permits that holders have; waiting tasks are served first,
    /// head first.
    fn release(&mut self, n: usize) -> (woken: Vec<usize>)
        requires
            old(self).wf(),
            old(self).held() >= n,
        ensures
            final(self).wf(),
            final(self).id() == old(self).id(),
            final(self).max() == old(self).max(),
            final(self).value() == old(self).value(),
            final(self).held() == old(self).held() - n,
            old(self).lock_semaphore().queue().len() == 0 ==> final(self).available() == old(self).available() + n,
            final(self).available() <= old(self).available() + n,
            woken@ + final(self).lock_semaphore().queue() == old(self).lock_semaphore().queue(),
    {
        let ghost s0 = self.s;
        proof {
            s0.lemma_given();
            lemma_hand_out_bound(s0.available(), s0.queue(), s0.need(), n as nat);
        }
        let woken = self.s.release(n);
        self.held = Ghost((self.held@ - n) as nat);
        proof {
            if s0.queue().len() == 0 {
                if n > 0 {
                    assert(hand_out(s0.available(), s0.queue(), s0.need(), n as nat).0 == s0.available() + n);
                }
            }
        }
        woken
    }

    /// Releases read access, as dropping a read guard does. Returns the keys of the
    /// waiters to wake.
    pub fn release_read(&mut self, guard: RwLockReadGuard) -> (woken: Vec<usize>)
        requires
            old(self).wf(),
            guard.lock() == old(self).id(),
            old(self).held() >= 1,
        ensures
            final(self).wf(),
            final(self).id() == old(self).id(),
            final(self).max() == old(self).max(),
            final(self).value() == old(self).value(),
            final(self).held() == old(self).held() - 1,
            old(self).lock_semaphore().queue().len() == 0 ==> final(self).available() == old(self).available() + 1,
            woken@ + final(self).lock_semaphore().queue() == old(self).lock_semaphore().queue(),
    {
        self.release(1)
    }

    /// Releases read access held through an owned guard.
    pub fn release_read_owned(&mut self, guard: OwnedRwLockReadGuard) -> (woken: Vec<usize>)
        requires
            old(self).wf(),
            guard.lock() == old(self).id(),
            old(self).held() >= 1,
        ensures
            final(self).wf(),
            final(self).id() == old(self).id(),
            final(self).max() == old(self).max(),
            final(self).value() == old(self).value(),
            final(self).held() == old(self).held() - 1,
            old(self).lock_semaphore().queue().len() == 0 ==> final(self).available() == old(self).available() + 1,
            woken@ + final(self).lock_semaphore().queue() == old(self).lock_semaphore().queue(),
    {
        self.release(1)
    }

    /// Releases write access, as dropping a write guard does. Returns the keys of the
    /// waiters to wake.
    pub fn release_write(&mut self, guard: RwLockWriteGuard) -> (woken: Vec<usize>)
        requires
            old(self).wf(),
            old(self).held() >= old(self).max(),
            guard.held() == old(self).max(),
            guard.lock() == old(self).id(),
        ensures
            final(self).wf(),
            final(self).id() == old(self).id(),
            final(self).max() == old(self).max(),
            final(self).value() == old(self).value(),
            final(self).held() == 0,
            old(self).lock_semaphore().queue().len() == 0 ==> final(self).available() == old(self).max(),
            woken@ + final(self).lock_semaphore().queue() == old(self).lock_semaphore().queue(),
    {
        proof {
            self.lemma_exclusion();
        }
        self.release(guard.permits_acquired)
    }

    /// Releases write access held through an owned guard.
    pub fn release_write_owned(&mut self, guard: OwnedRwLockWriteGuard) -> (woken: Vec<usize>)
        requires
            old(self).wf(),
            old(self).held() >= old(self).max(),
            guard.held() == old(self).max(),
            guard.lock() == old(self).id(),
        ensures
            final(self).wf(),
            final(self).id() == old(self).id(),
            final(self).max() == old(self).max(),
            final(self).value() == old(self).value(),
            final(self).held() == 0,
            old(self).lock_semaphore().queue().len() == 0 ==> final(self).available() == old(self).max(),
            woken@ + final(self).lock_semaphore().queue() == old(self).lock_semaphore().queue(),
    {
        proof {
            self.lemma_exclusion();
        }
        self.release(guard.permits_acquired)
    }

    /// Atomically turns write access into read access: all the permits but one are given
    /// back, so no writer can take the lock in between.
    pub fn downgrade(&mut self, guard: OwnedRwLockWriteGuard) -> (res: (OwnedRwLockReadGuard, Vec<usize>))
        requires
            old(self).wf(),
            old(self).held() >= old(self).max(),
            guard.held() == old(self).max(),
            guard.lock() == old(self).id(),
        ensures
            final(self).wf(),
            final(self).id() == old(self).id(),
            final(self).max() == old(self).max(),
            final(self).value() == old(self).value(),
            final(self).held() == 1,
            res.0.lock() == old(self).id(),
            final(self).available() < final(self).max(),
            old(self).lock_semaphore().queue().len() == 0 ==> final(self).available() == old(self).max() - 1,
            res.1@ + final(self).lock_semaphore().queue() == old(self).lock_semaphore().queue(),
    {
        proof {
            self.lemma_exclusion();
        }
        let woken = self.release(guard.permits_acquired - 1);
        proof {
            self.lemma_exclusion();
        }
        (OwnedRwLockReadGuard { lock: Ghost(self.s.id()) }, woken)
    }

    /// Starts waiting for read access; the acquisition is polled with `poll_acquire`.
    pub fn read(&self) -> (acquire: Acquire)
        ensures
            acquire.requested() == 1,
            acquire.key() is None,
            !acquire.is_done(),
            acquire.belongs_to(&self.lock_semaphore()),
    {
        self.s.poll_acquire(1)
    }

    /// Starts waiting for write access; the acquisition is polled with `poll_acquire`.
    pub fn write(&self) -> (acquire: Acquire)
        ensures
            acquire.requested() == self.max(),
            acquire.key() is None,
            !acquire.is_done(),
            acquire.belongs_to(&self.lock_semaphore()),
    {
        self.s.poll_acquire(self.max_readers)
    }

    /// Polls a read or write acquisition of this lock. Returns `true` once it holds the
    /// access it asked for.
    pub fn poll_acquire(&mut self, acquire: &mut Acquire) -> (ready: bool)
        requires
            old(self).wf(),
            old(acquire).belongs_to(&old(self).lock_semaphore()),
        ensures
            final(self).wf(),
            final(self).id() == old(self).id(),
            final(acquire).belongs_to(&final(self).lock_semaphore()),
            final(acquire).requested() == old(acquire).requested(),
            ready == final(acquire).is_done(),
            final(self).max() == old(self).max(),
            final(self).value() == old(self).value(),
            final(self).held() == old(self).held() + if ready && !old(acquire).is_done() {
                old(acquire).requested()
            } else {
                0nat
            },
            !old(acquire).is_done() && old(acquire).key() is None ==> {
                &&& ready == (old(self).available() >= old(acquire).requested())
                &&& ready ==> final(self).lock_semaphore().queue() == old(self).lock_semaphore().queue()
                &&& !ready ==> final(self).lock_semaphore().queue() == old(self).lock_semaphore().queue().push(
                    final(acquire).key()->Some_0,
                )
            },
            old(acquire).is_done() ==> ready && final(self).lock_semaphore() == old(self).lock_semaphore(),
            !old(acquire).is_done() && old(acquire).key() is Some ==> {
                &&& ready == !old(self).lock_semaphore().queue().contains(old(acquire).key()->Some_0)
                &&& final(self).lock_semaphore().queue() == old(self).lock_semaphore().queue()
                &&& final(self).available() == old(self).available()
                &&& !ready ==> final(self).lock_semaphore() == old(self).lock_semaphore()
            },
    {
        proof {
            self.s.lemma_wf();
        }
        let done = acquire.done();
        let ready = acquire.poll_once(&mut self.s);
        if ready && !done {
            self.held = Ghost(self.held@ + acquire.requested());
        }
        ready
    }

    /// Turns a completed read acquisition into a read guard.
    pub fn read_acquired(&self, acquire: Acquire) -> (guard: RwLockReadGuard)
        requires
            acquire.is_done(),
            acquire.requested() == 1,
            acquire.semaphore() == self.id(),
        ensures
            guard.lock() == self.id(),
    {
        RwLockReadGuard { lock: Ghost(self.s.id()) }
    }

    /// Turns a completed write acquisition into a write guard.
    pub fn write_acquired(&self, acquire: Acquire) -> (guard: RwLockWriteGuard)
        requires
            acquire.is_done(),
            acquire.requested() == self.max(),
            acquire.semaphore() == self.id(),
        ensures
            guard.held() == self.max(),
            guard.lock() == self.id(),
    {
        RwLockWriteGuard { permits_acquired: acquire.permits(), lock: Ghost(self.s.id()) }
    }

    /// Turns a completed write acquisition into an owned write guard.
    pub fn write_owned_acquired(&self, acquire: Acquire) -> (guard: OwnedRwLockWriteGuard)
        requires
            acquire.is_done(),
            acquire.requested() == self.max(),
            acquire.semaphore() == self.id(),
        ensures
            guard.held() == self.max(),
            guard.lock() == self.id(),
    {
        OwnedRwLockWriteGuard { permits_acquired: acquire.permits(), lock: Ghost(self.s.id()) }
    }

    /// Gives up waiting for access; permits already handed to the acquisition are passed
    /// on. Returns the keys of the waiters to wake.
    pub fn cancel_acquire(&mut self, acquire: Acquire) -> (woken: Vec<usize>)
        requires
            old(self).wf(),
            acquire.belongs_to(&old(self).lock_semaphore()),
        ensures
            final(self).wf(),
            final(self).id() == old(self).id(),
            final(self).max() == old(self).max(),
            final(self).value() == old(self).value(),
            final(self).held() == old(self).held(),
            acquire.key() is None ==> final(self).lock_semaphore() == old(self).lock_semaphore() && woken@.len() == 0,
            acquire.key() is Some ==> {
                let k = acquire.key()->Some_0;
                let s0 = old(self).lock_semaphore();
                let r = hand_out(
                    s0.available(),
                    unlinked(s0.queue(), k),
                    s0.need().remove(k),
                    (acquire.requested() - s0.need()[k]) as nat,
                );
                &&& final(self).available() == r.0
                &&& final(self).lock_semaphore().queue() == r.1
                &&& woken@ == r.3
                &&& woken@ + final(self).lock_semaphore().queue() == unlinked(s0.queue(), k)
            },
    {
        proof {
            if let Some(k) = acquire.key() {
                self.s.lemma_cancel_bound(k);
                self.s.lemma_wf();
                lemma_demand_unlinked(self.s.queue(), k, self.s.need());
                lemma_hand_out(
                    self.s.available(),
                    unlinked(self.s.queue(), k),
                    self.s.need().remove(k),
                    (acquire.requested() - self.s.need()[k]) as nat,
                );
            }
        }
        match acquire.cancel(&mut self.s) {
            Some(woken) => woken,
            None => Vec::new(),
        }
    }
}

} // verus!
