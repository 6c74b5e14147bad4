//! A counting semaphore for controlling access to a set of resources.
//!
//! A semaphore maintains a set of permits. Each acquisition takes permits, waiting in a
//! first-in, first-out queue when they are not available; each release adds permits,
//! serving the queued acquisitions first.

use crate::internal::semaphore::{hand_out, lemma_demand_unlinked, lemma_hand_out, unlinked, Acquire};
use crate::internal;
use vstd::prelude::*;

verus! {

/// A counting semaphore.
pub struct Semaphore {
    s: internal::semaphore::Semaphore,
}

/// Permits acquired from a semaphore; `Semaphore::release_permit` gives them back.
pub struct SemaphorePermit {
    permits: usize,
    /// The identity of the semaphore the permits came from.
    sem: Ghost<int>,
}

/// Permits acquired from a semaphore that the holder shares ownership of; gives them back
/// through `Semaphore::release_owned_permit`.
pub struct OwnedSemaphorePermit {
    permits: usize,
    /// The identity of the semaphore the permits came from.
    sem: Ghost<int>,
}

impl Semaphore {
    /// The semaphore's invariant.
    pub closed spec fn wf(&self) -> bool {
        self.s.wf()
    }

    /// The permits available right now.
    pub closed spec fn available(&self) -> nat {
        self.s.available()
    }

    /// The identity that the permits and acquisitions of this semaphore carry. A new
    /// semaphore gets one that nothing relates to the identity of any other semaphore.
    pub open spec fn id(&self) -> int {
        self.inner().id()
    }

    /// The permits still owed to queued acquisitions.
    pub closed spec fn owed(&self) -> nat {
        self.s.owed()
    }

    /// The queued acquisitions, head first.
    pub closed spec fn queue(&self) -> Seq<usize> {
        self.s.queue()
    }

    /// The permits that no permit holds: those available and those already handed to
    /// acquisitions that are still pending.
    pub closed spec fn unheld(&self) -> int {
        self.s.unheld()
    }

    /// The permits that no permit holds include all those available.
    pub proof fn lemma_unheld(&self)
        requires
            self.wf(),
        ensures
            self.available() <= self.unheld(),
    {
        self.s.lemma_given();
    }

    /// The permits that no permit holds include all those available and all that a
    /// pending acquisition has got, which giving it up hands out again.
    pub proof fn lemma_given_back(&self, acquire: Acquire)
        requires
            self.wf(),
            acquire.belongs_to(&self.inner()),
            acquire.key() is Some,
        ensures
            self.available() + acquire.requested() - self.inner().need()[acquire.key()->Some_0]
                <= self.unheld(),
            self.unheld() <= usize::MAX ==> !acquire.cancel_overflows(&self.inner()),
    {
        self.s.lemma_cancel_bound(acquire.key()->Some_0);
    }

    /// The internal semaphore, for the contracts of acquisitions.
    pub closed spec fn inner(&self) -> internal::semaphore::Semaphore {
        self.s
    }

    /// Creates a new semaphore with the given number of permits.
    pub fn new(permits: usize) -> (sem: Self)
        ensures
            sem.wf(),
            sem.available() == permits,
            sem.queue().len() == 0,
            sem.owed() == 0,
            sem.unheld() == permits,
    {
        Semaphore { s: internal::semaphore::Semaphore::new(permits) }
    }

    /// Returns the current number of permits available.
    pub fn available_permits(&self) -> (permits: usize)
        ensures
            permits == self.available(),
    {
        self.s.available_permits()
    }

    /// Reduces the semaphore's permits by a maximum of `n`; returns by how many they were
    /// reduced, which is less than `n` when fewer permits are available.
    pub fn forget(&mut self, n: usize) -> (forgotten: usize)
        requires
            old(self).wf(),
        ensures
            final(self).wf(),
            final(self).id() == old(self).id(),
            forgotten == if n <= old(self).available() { n as int } else { old(self).available() as int },
            final(self).available() == old(self).available() - forgotten,
            final(self).queue() == old(self).queue(),
            final(self).owed() == old(self).owed(),
            final(self).unheld() == old(self).unheld() - forgotten,
    {
        self.s.forget(n)
    }

    /// Reduces the semaphore's permits by exactly `n`: what is not available now is taken
    /// from the next permits released, before any queued acquisition is served.
    pub fn forget_exact(&mut self, n: usize)
        requires
            old(self).wf(),
        ensures
            final(self).wf(),
            final(self).id() == old(self).id(),
            final(self).available() - final(self).owed() == old(self).available() - old(self).owed() - n,
            old(self).available() >= n ==> final(self).available() == old(self).available() - n
                && final(self).queue() == old(self).queue() && final(self).unheld() == old(self).unheld() - n,
            old(self).available() < n ==> final(self).available() == 0 && final(self).queue().drop_first()
                == old(self).queue(),
            old(self).available() < n ==> {
                let k = final(self).queue()[0];
                &&& final(self).queue() == seq![k] + old(self).queue()
                &&& !old(self).inner().need().dom().contains(k)
                &&& final(self).inner().need() == old(self).inner().need().insert(k, (n - old(self).available()) as usize)
                &&& final(self).owed() == old(self).owed() + n - old(self).available()
                &&& final(self).unheld() == old(self).unheld()
            },
    {
        self.s.forget_exact(n);
        proof {
            if old(self).available() < n {
                assert((seq![self.queue()[0]] + old(self).queue()).drop_first() =~= old(self).queue());
            }
        }
    }

    /// Adds `n` permits to the semaphore: queued acquisitions are served first, head
    /// first. Returns the keys of the acquisitions that got all they asked for.
    ///
    /// The available permits must not overflow: that panics.
    pub fn release(&mut self, n: usize) -> (woken: Vec<usize>)
        requires
            old(self).wf(),
            hand_out(old(self).available(), old(self).queue(), old(self).inner().need(), n as nat).0
                <= usize::MAX,
        ensures
            final(self).wf(),
            final(self).id() == old(self).id(),
            final(self).available() - final(self).owed() == old(self).available() - old(self).owed() + n,
            final(self).unheld() == old(self).unheld() + n,
            woken@ + final(self).queue() == old(self).queue(),
            ({
                let r = hand_out(old(self).available(), old(self).queue(), old(self).inner().need(), n as nat);
                &&& final(self).available() == r.0
                &&& final(self).queue() == r.1
                &&& woken@ == r.3
            }),
    {
        self.s.release(n)
    }

    /// Attempts to acquire `permits` permits at once.
    pub fn try_acquire(&mut self, permits: usize) -> (permit: Option<SemaphorePermit>)
        requires
            old(self).wf(),
        ensures
            final(self).wf(),
            final(self).id() == old(self).id(),
            permit is Some == (old(self).available() >= permits),
            permit is Some ==> permit->Some_0.held() == permits && final(self).available()
                == old(self).available() - permits && permit->Some_0.semaphore() == old(self).id(),
            permit is None ==> final(self).available() == old(self).available(),
            final(self).queue() == old(self).queue(),
            final(self).owed() == old(self).owed(),
            final(self).unheld() == old(self).unheld() - if permit is Some { permits as int } else { 0 },
    {
        if self.s.try_acquire(permits) {
            Some(SemaphorePermit { permits, sem: Ghost(self.s.id()) })
        } else {
            None
        }
    }

    /// Attempts to acquire `permits` permits at once, and forgets them.
    pub fn try_acquire_and_forget(&mut self, permits: usize) -> (acquired: bool)
        requires
            old(self).wf(),
        ensures
            final(self).wf(),
            final(self).id() == old(self).id(),
            acquired == (old(self).available() >= permits),
            final(self).available() == if acquired {
                old(self).available() - permits
            } else {
                old(self).available() as int
            },
            final(self).queue() == old(self).queue(),
            final(self).owed() == old(self).owed(),
            final(self).unheld() == old(self).unheld() - if acquired { permits as int } else { 0 },
    {
        self.s.try_acquire(permits)
    }

    /// Attempts to acquire `permits` permits at once, for a holder that shares ownership
    /// of the semaphore.
    pub fn try_acquire_owned(&mut self, permits: usize) -> (permit: Option<OwnedSemaphorePermit>)
        requires
            old(self).wf(),
        ensures
            final(self).wf(),
            final(self).id() == old(self).id(),
            permit is Some == (old(self).available() >= permits),
            permit is Some ==> permit->Some_0.held() == permits && final(self).available()
                == old(self).available() - permits && permit->Some_0.semaphore() == old(self).id(),
            permit is None ==> final(self).available() == old(self).available(),
            final(self).queue() == old(self).queue(),
            final(self).owed() == old(self).owed(),
            final(self).unheld() == old(self).unheld() - if permit is Some { permits as int } else { 0 },
    {
        if self.s.try_acquire(permits) {
            Some(OwnedSemaphorePermit { permits, sem: Ghost(self.s.id()) })
        } else {
            None
        }
    }

    /// Attempts to acquire `permits` permits at once, for a holder that shares ownership
    /// of the semaphore, and forgets them.
    pub fn try_acquire_owned_and_forget(&mut self, permits: usize) -> (acquired: bool)
        requires
            old(self).wf(),
        ensures
            final(self).wf(),
            final(self).id() == old(self).id(),
            acquired == (old(self).available() >= permits),
            final(self).available() == if acquired {
                old(self).available() - permits
            } else {
                old(self).available() as int
            },
            final(self).queue() == old(self).queue(),
            final(self).owed() == old(self).owed(),
            final(self).unheld() == old(self).unheld() - if acquired { permits as int } else { 0 },
    {
        self.s.try_acquire(permits)
    }

    /// Starts acquiring `permits` permits; the acquisition queues in first-in, first-out
    /// order when it is polled and the permits are not available.
    pub fn acquire(&self, permits: usize) -> (acquire: Acquire)
        ensures
            acquire.requested() == permits,
            acquire.key() is None,
            !acquire.is_done(),
            acquire.belongs_to(&self.inner()),
    {
        self.s.poll_acquire(permits)
    }

    /// Polls an acquisition of this semaphore; returns `true` once it has all its permits.
    pub fn poll_acquire(&mut self, acquire: &mut Acquire) -> (ready: bool)
        requires
            old(self).wf(),
            old(acquire).belongs_to(&old(self).inner()),
        ensures
            final(self).wf(),
            final(self).id() == old(self).id(),
            final(acquire).belongs_to(&final(self).inner()),
            final(acquire).requested() == old(acquire).requested(),
            ready == final(acquire).is_done(),
            final(self).available() - final(self).owed() == old(self).available() - old(self).owed() - if !old(
                acquire,
            ).is_done() && old(acquire).key() is None {
                old(acquire).requested() as int
            } else {
                0
            },
            old(acquire).is_done() ==> ready && *final(self) == *old(self),
            !old(acquire).is_done() && old(acquire).key() is None ==> ready == (old(self).available()
                >= old(acquire).requested()),
            final(self).unheld() == old(self).unheld() - if ready && !old(acquire).is_done() {
                old(acquire).requested() as int
            } else {
                0
            },
            ready ==> final(self).queue() == old(self).queue(),
            !old(acquire).is_done() && old(acquire).key() is None && !ready ==> {
                &&& final(self).available() == 0
                &&& final(self).queue() == old(self).queue().push(final(acquire).key()->Some_0)
            },
            !old(acquire).is_done() && old(acquire).key() is Some ==> {
                &&& ready == !old(self).queue().contains(old(acquire).key()->Some_0)
                &&& !ready ==> *final(self) == *old(self)
            },
    {
        proof {
            self.s.lemma_wf();
        }
        acquire.poll_once(&mut self.s)
    }

    /// Gives up an acquisition, as dropping a pending acquire does: it leaves the queue,
    /// and the permits it had already got are handed out again. Returns the keys of the
    /// acquisitions that got all they asked for from them; returns `None`, and changes
    /// nothing, when handing the permits out would overflow the available permits.
    pub fn cancel_acquire(&mut self, acquire: Acquire) -> (woken: Option<Vec<usize>>)
        requires
            old(self).wf(),
            acquire.belongs_to(&old(self).inner()),
        ensures
            final(self).wf(),
            final(self).id() == old(self).id(),
            woken is None <==> acquire.cancel_overflows(&old(self).inner()),
            woken is None ==> *final(self) == *old(self),
            acquire.key() is None ==> *final(self) == *old(self) && woken is Some && woken->Some_0@.len() == 0,
            final(self).unheld() == old(self).unheld(),
            acquire.key() is Some && woken is Some ==> {
                &&& final(self).available() - final(self).owed() == old(self).available() - old(self).owed()
                    + acquire.requested()
                &&& woken->Some_0@ + final(self).queue() == unlinked(old(self).queue(), acquire.key()->Some_0)
                &&& ({
                    let k = acquire.key()->Some_0;
                    let r = hand_out(
                        old(self).available(),
                        unlinked(old(self).queue(), k),
                        old(self).inner().need().remove(k),
                        (acquire.requested() - old(self).inner().need()[k]) as nat,
                    );
                    &&& final(self).available() == r.0
                    &&& final(self).queue() == r.1
                    &&& woken->Some_0@ == r.3
                })
            },
    {
        proof {
            self.s.lemma_wf();
            if let Some(k) = acquire.key() {
                lemma_demand_unlinked(self.s.queue(), k, self.s.need());
                lemma_hand_out(
                    self.s.available(),
                    unlinked(self.s.queue(), k),
                    self.s.need().remove(k),
                    (acquire.requested() - self.s.need()[k]) as nat,
                );
            }
        }
        acquire.cancel(&mut self.s)
    }

    /// Turns a completed acquisition into the permit that it acquired.
    pub fn acquired(&self, acquire: Acquire) -> (permit: SemaphorePermit)
        requires
            acquire.is_done(),
            acquire.semaphore() == self.id(),
        ensures
            permit.held() == acquire.requested(),
            permit.semaphore() == self.id(),
    {
        SemaphorePermit { permits: acquire.permits(), sem: Ghost(self.s.id()) }
    }

    /// Turns a completed acquisition into an owned permit.
    pub fn acquired_owned(&self, acquire: Acquire) -> (permit: OwnedSemaphorePermit)
        requires
            acquire.is_done(),
            acquire.semaphore() == self.id(),
        ensures
            permit.held() == acquire.requested(),
            permit.semaphore() == self.id(),
    {
        OwnedSemaphorePermit { permits: acquire.permits(), sem: Ghost(self.s.id()) }
    }

    /// Gives the permits of `permit` back to the semaphore, as dropping it does.
    pub fn release_permit(&mut self, permit: SemaphorePermit) -> (woken: Vec<usize>)
        requires
            old(self).wf(),
            permit.semaphore() == old(self).id(),
            hand_out(old(self).available(), old(self).queue(), old(self).inner().need(), permit.held() as nat).0
                <= usize::MAX,
        ensures
            final(self).wf(),
            final(self).id() == old(self).id(),
            final(self).available() - final(self).owed() == old(self).available() - old(self).owed()
                + permit.held(),
            final(self).unheld() == old(self).unheld() + permit.held(),
            woken@ + final(self).queue() == old(self).queue(),
            ({
                let r = hand_out(old(self).available(), old(self).queue(), old(self).inner().need(), permit.held());
                &&& final(self).available() == r.0
                &&& final(self).queue() == r.1
                &&& woken@ == r.3
            }),
    {
        self.release(permit.permits)
    }

    /// Gives the permits of an owned `permit` back to the semaphore, as dropping it does.
    pub fn release_owned_permit(&mut self, permit: OwnedSemaphorePermit) -> (woken: Vec<usize>)
        requires
            old(self).wf(),
            permit.semaphore() == old(self).id(),
            hand_out(old(self).available(), old(self).queue(), old(self).inner().need(), permit.held() as nat).0
                <= usize::MAX,
        ensures
            final(self).wf(),
            final(self).id() == old(self).id(),
            final(self).available() - final(self).owed() == old(self).available() - old(self).owed()
                + permit.held(),
            final(self).unheld() == old(self).unheld() + permit.held(),
            woken@ + final(self).queue() == old(self).queue(),
            ({
                let r = hand_out(old(self).available(), old(self).queue(), old(self).inner().need(), permit.held());
                &&& final(self).available() == r.0
                &&& final(self).queue() == r.1
                &&& woken@ == r.3
            }),
    {
        self.release(permit.permits)
    }
}

impl SemaphorePermit {
    /// The number of permits held.
    pub closed spec fn held(&self) -> nat {
        self.permits as nat
    }

    /// The identity of the semaphore the permits came from.
    pub closed spec fn semaphore(&self) -> int {
        self.sem@
    }

    /// Forgets the permit without releasing it back to the semaphore.
    pub fn forget(self)
    {
    }

    /// Merges `other` into `self`; `self` then holds the permits of both.
    ///
    /// The two permits must come from the same semaphore.
    pub fn merge(&mut self, other: Self)
        requires
            old(self).semaphore() == other.semaphore(),
            old(self).held() + other.held() <= usize::MAX,
        ensures
            final(self).held() == old(self).held() + other.held(),
            final(self).semaphore() == old(self).semaphore(),
    {
        self.permits = self.permits + other.permits;
    }

    /// Splits `n` permits off `self` into a new permit; returns `None`, and leaves `self`
    /// as it is, when `self` holds fewer than `n`.
    pub fn split(&mut self, n: usize) -> (split: Option<Self>)
        ensures
            split is Some == (n <= old(self).held()),
            split is Some ==> split->Some_0.held() == n && final(self).held() == old(self).held() - n,
            split is None ==> final(self).held() == old(self).held(),
            split is Some ==> split->Some_0.semaphore() == old(self).semaphore(),
            final(self).semaphore() == old(self).semaphore(),
    {
        if n > self.permits {
            return None;
        }
        self.permits = self.permits - n;
        Some(SemaphorePermit { permits: n, sem: Ghost(self.sem@) })
    }

    /// Returns the number of permits this permit holds.
    pub fn permits(&self) -> (permits: usize)
        ensures
            permits == self.held(),
    {
        self.permits
    }
}

impl OwnedSemaphorePermit {
    /// The number of permits held.
    pub closed spec fn held(&self) -> nat {
        self.permits as nat
    }

    /// The identity of the semaphore the permits came from.
    pub closed spec fn semaphore(&self) -> int {
        self.sem@
    }

    /// Forgets the permit without releasing it back to the semaphore.
    pub fn forget(self)
    {
    }

    /// Merges `other` into `self`; `self` then holds the permits of both.
    ///
    /// The two permits must come from the same semaphore.
    pub fn merge(&mut self, other: Self)
        requires
            old(self).semaphore() == other.semaphore(),
            old(self).held() + other.held() <= usize::MAX,
        ensures
            final(self).held() == old(self).held() + other.held(),
            final(self).semaphore() == old(self).semaphore(),
    {
        self.permits = self.permits + other.permits;
    }

    /// Splits `n` permits off `self` into a new permit; returns `None`, and leaves `self`
    /// as it is, when `self` holds fewer than `n`.
    pub fn split(&mut self, n: usize) -> (split: Option<Self>)
        ensures
            split is Some == (n <= old(self).held()),
            split is Some ==> split->Some_0.held() == n && final(self).held() == old(self).held() - n,
            split is None ==> final(self).held() == old(self).held(),
            split is Some ==> split->Some_0.semaphore() == old(self).semaphore(),
            final(self).semaphore() == old(self).semaphore(),
    {
        if n > self.permits {
            return None;
        }
        self.permits = self.permits - n;
        Some(OwnedSemaphorePermit { permits: n, sem: Ghost(self.sem@) })
    }

    /// Returns the number of permits this permit holds.
    pub fn permits(&self) -> (permits: usize)
        ensures
            permits == self.held(),
    {
        self.permits
    }
}

} // verus!
