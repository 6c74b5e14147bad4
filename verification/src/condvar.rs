//! A condition variable that allows tasks to wait for a notification.
//!
//! Notifications are permits of a semaphore that starts with none: a waiting task asks
//! for one permit, `notify_one` adds one, and waiting tasks are served in the order in
//! which they started waiting. A notification given while no task waits is kept for the
//! next task that waits.

use crate::internal::semaphore::{lemma_hand_out_bound, lemma_hand_out_one, unlinked, Acquire, Semaphore};
use vstd::prelude::*;

verus! {

/// A condition variable.
pub struct Condvar {
    s: Semaphore,
}

impl Condvar {
    /// The condition variable's invariant: every waiting task asked for one notification.
    pub closed spec fn wf(&self) -> bool {
        &&& self.s.wf()
        &&& forall|k: usize| #[trigger] self.s.asked().dom().contains(k) ==> self.s.asked()[k] == 1
    }

    /// Notifications given while no task waited, kept for the next tasks that wait.
    pub closed spec fn pending(&self) -> nat {
        self.s.available()
    }

    /// The tasks waiting for a notification, first served first.
    pub closed spec fn waiting(&self) -> Seq<usize> {
        self.s.queue()
    }

    /// The semaphore behind the notifications, for the contracts of waits.
    pub closed spec fn notifications(&self) -> Semaphore {
        self.s
    }

    /// Every task that waits needs exactly one notification more, and a notification is
    /// kept only while no task waits.
    proof fn lemma_waiting(&self)
        requires
            self.wf(),
        ensures
            self.waiting().len() > 0 ==> self.pending() == 0,
            forall|i: int| 0 <= i < self.waiting().len() ==> self.s.need().dom().contains(#[trigger] self.waiting()[i])
                && self.s.need()[self.waiting()[i]] == 1,
            forall|k: usize| #[trigger] self.s.need().dom().contains(k) ==> self.s.need()[k] <= 1,
    {
        self.s.lemma_wf();
        assert forall|i: int| 0 <= i < self.waiting().len() implies self.s.need().dom().contains(#[trigger] self.waiting()[i])
            && self.s.need()[self.waiting()[i]] == 1 by {
            assert(self.s.queue().contains(self.waiting()[i]));
        }
    }

    /// Creates a new condition variable.
    pub fn new() -> (cvar: Condvar)
        ensures
            cvar.wf(),
            cvar.pending() == 0,
            cvar.waiting().len() == 0,
    {
        Condvar { s: Semaphore::new(0) }
    }

    /// Returns the notifications kept for the next tasks that wait.
    pub fn pending_notifications(&self) -> (pending: usize)
        ensures
            pending == self.pending(),
    {
        self.s.available_permits()
    }

    /// Wakes up one waiting task: the first one, if any task waits; otherwise the
    /// notification is kept for the next task that waits. Returns the keys of the tasks
    /// to wake.
    pub fn notify_one(&mut self) -> (woken: Vec<usize>)
        requires
            old(self).wf(),
            old(self).pending() < usize::MAX,
        ensures
            final(self).wf(),
            old(self).waiting().len() == 0 ==> final(self).pending() == old(self).pending() + 1
                && woken@.len() == 0 && final(self).waiting().len() == 0,
            old(self).waiting().len() > 0 ==> {
                &&& final(self).pending() == 0
                &&& woken@ == seq![old(self).waiting()[0]]
                &&& final(self).waiting() == old(self).waiting().drop_first()
            },
    {
        proof {
            self.lemma_waiting();
            lemma_hand_out_bound(self.s.available(), self.s.queue(), self.s.need(), 1);
            lemma_hand_out_one(self.s.available(), self.s.queue(), self.s.need());
        }
        self.s.release(1)
    }

    /// Wakes up every waiting task. Returns their keys, in the order in which they started
    /// waiting.
    pub fn notify_all(&mut self) -> (woken: Vec<usize>)
        requires
            old(self).wf(),
        ensures
            final(self).wf(),
            woken@ == old(self).waiting(),
            final(self).waiting().len() == 0,
            final(self).pending() == old(self).pending(),
    {
        self.s.notify_all()
    }

    /// Registers the calling task as waiting for a notification; it takes a kept
    /// notification at once if there is one. The task releases its mutex after this and
    /// locks it again once the returned acquisition completes (see `poll_wait`).
    pub fn wait(&mut self) -> (acquire: Acquire)
        requires
            old(self).wf(),
        ensures
            final(self).wf(),
            acquire.belongs_to(&final(self).notifications()),
            acquire.requested() == 1,
            acquire.is_done() == (old(self).pending() >= 1),
            acquire.is_done() ==> final(self).pending() == old(self).pending() - 1
                && final(self).waiting() == old(self).waiting(),
            !acquire.is_done() ==> final(self).waiting() == old(self).waiting().push(acquire.key()->Some_0),
    {
        let mut acquire = self.s.poll_acquire(1);
        acquire.poll_once(&mut self.s);
        acquire
    }

    /// Polls a waiting task; returns `true` once it has been notified.
    pub fn poll_wait(&mut self, acquire: &mut Acquire) -> (notified: bool)
        requires
            old(self).wf(),
            old(acquire).belongs_to(&old(self).notifications()),
            old(acquire).requested() == 1,
        ensures
            final(self).wf(),
            final(acquire).belongs_to(&final(self).notifications()),
            notified == final(acquire).is_done(),
            final(acquire).requested() == old(acquire).requested(),
            final(self).waiting() == old(self).waiting() || final(self).waiting() == old(self).waiting().push(
                final(acquire).key()->Some_0,
            ),
            old(acquire).key() is Some ==> final(self).waiting() == old(self).waiting()
                && final(self).pending() == old(self).pending(),
            old(acquire).is_done() ==> notified && *final(self) == *old(self),
            !old(acquire).is_done() && old(acquire).key() is None ==> {
                &&& notified == (old(self).pending() >= 1)
                &&& notified ==> final(self).pending() == old(self).pending() - 1
                    && final(self).waiting() == old(self).waiting()
                &&& !notified ==> final(self).waiting() == old(self).waiting().push(final(acquire).key()->Some_0)
            },
            !old(acquire).is_done() && old(acquire).key() is Some ==> {
                &&& notified == !old(self).waiting().contains(old(acquire).key()->Some_0)
                &&& !notified ==> *final(self) == *old(self)
            },
    {
        proof {
            self.s.lemma_wf();
        }
        acquire.poll_once(&mut self.s)
    }

    /// Gives up waiting, as dropping a pending wait does: the task leaves the queue, and a
    /// notification it was given but had not taken yet goes to the next waiting task, or
    /// is kept if no task waits. Returns the keys of the tasks to wake.
    pub fn cancel_wait(&mut self, acquire: Acquire) -> (woken: Vec<usize>)
        requires
            old(self).wf(),
            acquire.belongs_to(&old(self).notifications()),
            acquire.key() is Some ==> old(self).pending() < usize::MAX,
        ensures
            final(self).wf(),
            acquire.key() is None ==> *final(self) == *old(self) && woken@.len() == 0,
            acquire.key() is Some && old(self).waiting().contains(acquire.key()->Some_0) ==> {
                let q = old(self).waiting();
                &&& final(self).waiting() == q.remove(q.index_of(acquire.key()->Some_0))
                &&& final(self).pending() == old(self).pending()
                &&& woken@.len() == 0
            },
            acquire.key() is Some && !old(self).waiting().contains(acquire.key()->Some_0) ==> {
                &&& old(self).waiting().len() == 0 ==> final(self).pending() == old(self).pending() + 1
                    && woken@.len() == 0 && final(self).waiting().len() == 0
                &&& old(self).waiting().len() > 0 ==> final(self).pending() == 0 && woken@ == seq![
                    old(self).waiting()[0],
                ] && final(self).waiting() == old(self).waiting().drop_first()
            },
    {
        proof {
            self.lemma_waiting();
            if let Some(k) = acquire.key() {
                let s0 = self.s;
                s0.lemma_wf();
                let q = s0.queue();
                let n1 = s0.need().remove(k);
                s0.lemma_cancel_bound(k);
                lemma_hand_out_bound(s0.available(), unlinked(q, k), n1, (acquire.requested() - s0.need()[k]) as nat);
                if !q.contains(k) {
                    assert(s0.need()[k] == 0);
                    assert(unlinked(q, k) == q);
                    if q.len() > 0 {
                        assert(q[0] != k);
                        assert(n1[q[0]] == 1);
                    }
                    lemma_hand_out_one(s0.available(), q, n1);
                } else {
                    let i = choose|i: int| 0 <= i < q.len() && q[i] == k;
                    assert(s0.need()[q[i]] == 1);
                }
            }
        }
        match acquire.cancel(&mut self.s) {
            Some(woken) => woken,
            None => Vec::new(),
        }
    }
}

} // verus!
