//! The counting semaphore that the public primitives are built on.
//!
//! Permits that cannot be handed out at once are owed to waiters, which are served
//! strictly in queue order: a waiter is only ever given permits once every waiter in
//! front of it has all that it asked for.

use crate::internal::waitlist::WaitList;
use vstd::prelude::*;

verus! {

/// The sum of the permits that the waiters of `queue` still need.
pub open spec fn demand(queue: Seq<usize>, need: Map<usize, usize>) -> nat
    decreases queue.len(),
{
    if queue.len() == 0 {
        0
    } else {
        need[queue[0]] as nat + demand(queue.drop_first(), need)
    }
}

/// What handing `rem` permits out does to a semaphore with `permits` available permits
/// and the waiters `queue` that still need `need`: waiters are served from the head while
/// `rem` covers all that the head still needs; what is left of `rem` then goes to the
/// next waiter, or to the available permits once no waiter is left.
///
/// The result is the new available permits, the new queue, the new needs, and the keys of
/// the waiters that got all they needed, in the order in which they got it.
pub open spec fn hand_out(permits: nat, queue: Seq<usize>, need: Map<usize, usize>, rem: nat) -> (
    nat,
    Seq<usize>,
    Map<usize, usize>,
    Seq<usize>,
)
    decreases queue.len(),
{
    if rem == 0 {
        (permits, queue, need, Seq::empty())
    } else if queue.len() == 0 {
        (permits + rem, queue, need, Seq::empty())
    } else if need[queue[0]] <= rem {
        let r = hand_out(
            permits,
            queue.drop_first(),
            need.insert(queue[0], 0),
            (rem - need[queue[0]]) as nat,
        );
        (r.0, r.1, r.2, seq![queue[0]] + r.3)
    } else {
        (permits, queue, need.insert(queue[0], (need[queue[0]] - rem) as usize), Seq::empty())
    }
}

/// The queue of waiters holds distinct keys.
pub open spec fn distinct(queue: Seq<usize>) -> bool {
    forall|i: int, j: int| 0 <= i < j < queue.len() ==> queue[i] != queue[j]
}

/// Changing the need of a waiter that is not queued leaves the demand unchanged.
pub proof fn lemma_demand_other(queue: Seq<usize>, need: Map<usize, usize>, k: usize, v: usize)
    requires
        !queue.contains(k),
    ensures
        demand(queue, need.insert(k, v)) == demand(queue, need),
    decreases queue.len(),
{
    if queue.len() > 0 {
        assert(queue[0] != k);
        assert(!queue.drop_first().contains(k)) by {
            if queue.drop_first().contains(k) {
                let i = choose|i: int| 0 <= i < queue.drop_first().len() && queue.drop_first()[i] == k;
                assert(queue[i + 1] == k);
            }
        }
        lemma_demand_other(queue.drop_first(), need, k, v);
    }
}

/// Handing out permits keeps every permit accounted for, and serves the queue in order:
/// the available permits less what is still owed grow by exactly what was handed out;
/// the waiters that got all they needed are a prefix of the queue, and the rest of the
/// queue stays queued, in the same order.
pub proof fn lemma_hand_out(permits: nat, queue: Seq<usize>, need: Map<usize, usize>, rem: nat)
    requires
        distinct(queue),
    ensures
        ({
            let r = hand_out(permits, queue, need, rem);
            &&& r.0 - demand(r.1, r.2) == permits - demand(queue, need) + rem
            &&& r.3 + r.1 == queue
        }),
    decreases queue.len(),
{
    let r = hand_out(permits, queue, need, rem);
    if rem == 0 {
        assert(r.3 + r.1 =~= queue);
    } else if queue.len() == 0 {
        assert(r.3 + r.1 =~= queue);
    } else {
        let k = queue[0];
        let rest = queue.drop_first();
        assert(distinct(rest)) by {
            assert forall|i: int, j: int| 0 <= i < j < rest.len() implies rest[i] != rest[j] by {
                assert(rest[i] == queue[i + 1]);
                assert(rest[j] == queue[j + 1]);
            }
        }
        assert(!rest.contains(k)) by {
            if rest.contains(k) {
                let i = choose|i: int| 0 <= i < rest.len() && rest[i] == k;
                assert(queue[i + 1] == k);
            }
        }
        if need[k] <= rem {
            lemma_hand_out(permits, rest, need.insert(k, 0), (rem - need[k]) as nat);
            lemma_demand_other(rest, need, k, 0);
            let r2 = hand_out(permits, rest, need.insert(k, 0), (rem - need[k]) as nat);
            assert(r.3 + r.1 =~= seq![k] + (r2.3 + r2.1));
            assert(seq![k] + rest =~= queue);
        } else {
            lemma_demand_other(rest, need, k, (need[k] - rem) as usize);
            assert(r.3 + r.1 =~= queue);
        }
    }
}

/// Appending a waiter adds what it needs to the demand.
pub proof fn lemma_demand_push(queue: Seq<usize>, need: Map<usize, usize>, k: usize)
    ensures
        demand(queue.push(k), need) == demand(queue, need) + need[k],
    decreases queue.len(),
{
    if queue.len() > 0 {
        assert(queue.push(k).drop_first() =~= queue.drop_first().push(k));
        assert(queue.push(k)[0] == queue[0]);
        lemma_demand_push(queue.drop_first(), need, k);
    } else {
        assert(queue.push(k).drop_first() =~= Seq::<usize>::empty());
        assert(queue.push(k)[0] == k);
        assert(demand(Seq::<usize>::empty(), need) == 0);
    }
}

/// Forgetting a waiter that is not queued leaves the demand unchanged.
pub proof fn lemma_demand_forget(queue: Seq<usize>, need: Map<usize, usize>, k: usize)
    requires
        !queue.contains(k),
    ensures
        demand(queue, need.remove(k)) == demand(queue, need),
    decreases queue.len(),
{
    if queue.len() > 0 {
        assert(queue[0] != k);
        assert(!queue.drop_first().contains(k)) by {
            if queue.drop_first().contains(k) {
                let i = choose|i: int| 0 <= i < queue.drop_first().len() && queue.drop_first()[i] == k;
                assert(queue[i + 1] == k);
            }
        }
        lemma_demand_forget(queue.drop_first(), need, k);
    }
}

/// Unqueueing the waiter at position `i` takes what it needs off the demand.
pub proof fn lemma_demand_remove(queue: Seq<usize>, need: Map<usize, usize>, i: int)
    requires
        0 <= i < queue.len(),
    ensures
        demand(queue.remove(i), need) == demand(queue, need) - need[queue[i]],
    decreases queue.len(),
{
    if i == 0 {
        assert(queue.remove(0) =~= queue.drop_first());
    } else {
        assert(queue.remove(i).drop_first() =~= queue.drop_first().remove(i - 1));
        assert(queue.remove(i)[0] == queue[0]);
        lemma_demand_remove(queue.drop_first(), need, i - 1);
    }
}

/// Handing out one permit: it goes to the head waiter when that waiter needs exactly
/// one, and becomes available when no waiter is queued.
pub proof fn lemma_hand_out_one(permits: nat, queue: Seq<usize>, need: Map<usize, usize>)
    requires
        queue.len() > 0 ==> need[queue[0]] == 1,
    ensures
        queue.len() > 0 ==> hand_out(permits, queue, need, 1) == (
            permits,
            queue.drop_first(),
            need.insert(queue[0], 0),
            seq![queue[0]],
        ),
        queue.len() == 0 ==> hand_out(permits, queue, need, 1) == (
            permits + 1,
            queue,
            need,
            Seq::<usize>::empty(),
        ),
{
    if queue.len() > 0 {
        let r2 = hand_out(permits, queue.drop_first(), need.insert(queue[0], 0), 0);
        assert(r2.3 =~= Seq::<usize>::empty());
        assert(seq![queue[0]] + r2.3 =~= seq![queue[0]]);
    }
}

/// Handing out `rem` permits never leaves more than `permits + rem` available.
pub proof fn lemma_hand_out_bound(permits: nat, queue: Seq<usize>, need: Map<usize, usize>, rem: nat)
    ensures
        hand_out(permits, queue, need, rem).0 <= permits + rem,
    decreases queue.len(),
{
    if rem > 0 && queue.len() > 0 && need[queue[0]] <= rem {
        lemma_hand_out_bound(permits, queue.drop_first(), need.insert(queue[0], 0), (rem - need[queue[0]]) as nat);
    }
}

/// Handing out permits only lowers what waiters need, and registers no waiter.
pub proof fn lemma_hand_out_need(permits: nat, queue: Seq<usize>, need: Map<usize, usize>, rem: nat)
    requires
        forall|i: int| 0 <= i < queue.len() ==> need.dom().contains(#[trigger] queue[i]),
    ensures
        hand_out(permits, queue, need, rem).2.dom() == need.dom(),
        forall|k: usize| #[trigger] need.dom().contains(k) ==> hand_out(permits, queue, need, rem).2[k] <= need[k],
    decreases queue.len(),
{
    if rem > 0 && queue.len() > 0 {
        assert(need.dom().contains(queue[0]));
        if need[queue[0]] <= rem {
            let n2 = need.insert(queue[0], 0);
            assert(n2.dom() =~= need.dom());
            assert forall|i: int| 0 <= i < queue.drop_first().len() implies n2.dom().contains(#[trigger] queue.drop_first()[i]) by {
                assert(queue.drop_first()[i] == queue[i + 1]);
            }
            lemma_hand_out_need(permits, queue.drop_first(), n2, (rem - need[queue[0]]) as nat);
        } else {
            assert(need.insert(queue[0], (need[queue[0]] - rem) as usize).dom() =~= need.dom());
        }
    }
}

/// Appending sequences adds their demands.
pub proof fn lemma_demand_concat(a: Seq<usize>, b: Seq<usize>, need: Map<usize, usize>)
    ensures
        demand(a + b, need) == demand(a, need) + demand(b, need),
    decreases a.len(),
{
    if a.len() > 0 {
        assert((a + b).drop_first() =~= a.drop_first() + b);
        assert((a + b)[0] == a[0]);
        lemma_demand_concat(a.drop_first(), b, need);
    } else {
        assert(a + b =~= b);
    }
}

/// A demand is no larger when every waiter needs no more.
pub proof fn lemma_demand_le(queue: Seq<usize>, small: Map<usize, usize>, large: Map<usize, usize>)
    requires
        forall|i: int| 0 <= i < queue.len() ==> small[queue[i]] <= large[queue[i]],
    ensures
        demand(queue, small) <= demand(queue, large),
    decreases queue.len(),
{
    if queue.len() > 0 {
        assert(small[queue[0]] <= large[queue[0]]);
        assert forall|i: int| 0 <= i < queue.drop_first().len() implies small[queue.drop_first()[i]] <= large[queue.drop_first()[i]] by {
            assert(queue.drop_first()[i] == queue[i + 1]);
        }
        lemma_demand_le(queue.drop_first(), small, large);
    }
}

/// Unqueueing a waiter, if it is queued, and forgetting it takes what it needed off the
/// demand, and leaves every other waiter where it was.
pub proof fn lemma_demand_unlinked(s: Seq<usize>, k: usize, m: Map<usize, usize>)
    requires
        distinct(s),
    ensures
        demand(unlinked(s, k), m.remove(k)) == demand(s, m) - if s.contains(k) { m[k] as int } else { 0 },
        !unlinked(s, k).contains(k),
        distinct(unlinked(s, k)),
        forall|j: usize| j != k ==> (#[trigger] unlinked(s, k).contains(j) <==> s.contains(j)),
{
    if s.contains(k) {
        let i = s.index_of(k);
        let t = s.remove(i);
        lemma_demand_remove(s, m, i);
        assert(!t.contains(k)) by {
            if t.contains(k) {
                let p = choose|p: int| 0 <= p < t.len() && t[p] == k;
                if p < i {
                    assert(s[p] == k);
                } else {
                    assert(s[p + 1] == k);
                }
            }
        }
        lemma_demand_forget(t, m, k);
        assert forall|a: int, b: int| 0 <= a < b < t.len() implies t[a] != t[b] by {
            let sa = if a < i { a } else { a + 1 };
            let sb = if b < i { b } else { b + 1 };
            assert(t[a] == s[sa]);
            assert(t[b] == s[sb]);
        }
        assert forall|j: usize| j != k implies (#[trigger] unlinked(s, k).contains(j) <==> s.contains(j)) by {
            if t.contains(j) {
                let p = choose|p: int| 0 <= p < t.len() && t[p] == j;
                if p < i {
                    assert(s[p] == j);
                } else {
                    assert(s[p + 1] == j);
                }
            }
            if s.contains(j) {
                let p = choose|p: int| 0 <= p < s.len() && s[p] == j;
                assert(p != i);
                if p < i {
                    assert(t[p] == j);
                } else {
                    assert(t[p - 1] == j);
                }
            }
        }
    } else {
        lemma_demand_forget(s, m, k);
    }
}

/// A counting semaphore with a first-in, first-out queue of waiters.
pub struct Semaphore {
    /// The number of permits available right now.
    permits: usize,
    waiters: WaitList,
    /// The permits each registered waiter asked for.
    asked: Ghost<Map<usize, usize>>,
    /// The registered waiters that are no longer queued, in the order they left the queue.
    served: Ghost<Seq<usize>>,
    /// The identity that the acquisitions of this semaphore carry.
    id: Ghost<int>,
}

impl Semaphore {
    /// The identity that the acquisitions of this semaphore carry. A new semaphore gets
    /// one that nothing relates to the identity of any other semaphore.
    pub closed spec fn id(&self) -> int {
        self.id@
    }

    /// The permits available right now.
    pub closed spec fn available(&self) -> nat {
        self.permits as nat
    }

    /// The keys of the queued waiters, head first.
    pub closed spec fn queue(&self) -> Seq<usize> {
        self.waiters.queue()
    }

    /// Every registered waiter with the permits it still needs; a waiter that is no longer
    /// queued needs none.
    pub closed spec fn need(&self) -> Map<usize, usize> {
        self.waiters.need()
    }

    /// The permits still owed to the queued waiters.
    pub open spec fn owed(&self) -> nat {
        demand(self.queue(), self.need())
    }

    /// The permits that each registered waiter asked for.
    pub closed spec fn asked(&self) -> Map<usize, usize> {
        self.asked@
    }

    /// The permits handed to registered waiters: all that they asked for, less what
    /// they still need.
    pub closed spec fn given(&self) -> int {
        demand(self.queue(), self.asked@) + demand(self.served@, self.asked@) - demand(self.queue(), self.need())
    }

    /// The permits that no holder has: the available ones and those handed to registered
    /// waiters.
    pub open spec fn unheld(&self) -> int {
        self.available() + self.given()
    }

    /// Every registered waiter is queued or served, and needs no more than it asked for.
    spec fn accounts(&self) -> bool {
        let a = self.asked@;
        let g = self.served@;
        let q = self.queue();
        let n = self.need();
        &&& a.dom() == n.dom()
        &&& forall|k: usize| #[trigger] n.dom().contains(k) ==> n[k] <= a[k]
        &&& distinct(g)
        &&& forall|i: int| 0 <= i < g.len() ==> n.dom().contains(#[trigger] g[i]) && !q.contains(g[i])
        &&& forall|k: usize| #[trigger] n.dom().contains(k) ==> q.contains(k) || g.contains(k)
    }

    /// The semaphore's invariant: waiters queue only while no permit is available, a
    /// registered waiter is queued exactly while it still needs permits.
    pub closed spec fn wf(&self) -> bool {
        &&& self.waiters.wf()
        &&& self.queue().len() > 0 ==> self.permits == 0
        &&& forall|k: usize| #[trigger]
            self.need().dom().contains(k) ==> (self.queue().contains(k) <==> self.need()[k] > 0)
        &&& self.accounts()
    }

    /// The permits handed to registered waiters are never negative.
    pub proof fn lemma_given(&self)
        requires
            self.wf(),
        ensures
            self.given() >= 0,
    {
        self.lemma_wf();
        lemma_demand_le(self.queue(), self.need(), self.asked@);
    }

    /// What the invariant says, for callers.
    pub proof fn lemma_wf(&self)
        requires
            self.wf(),
        ensures
            self.queue().len() > 0 ==> self.available() == 0,
            distinct(self.queue()),
            forall|i: int| 0 <= i < self.queue().len() ==> self.need().dom().contains(#[trigger] self.queue()[i]),
            forall|k: usize| #[trigger]
                self.need().dom().contains(k) ==> (self.queue().contains(k) <==> self.need()[k] > 0),
            self.need().dom().finite(),
            self.asked().dom() == self.need().dom(),
            forall|k: usize| #[trigger] self.need().dom().contains(k) ==> self.need()[k] <= self.asked()[k],
    {
        self.waiters.lemma_queue_registered();
    }

    /// Creates a semaphore with `permits` available permits and no waiter.
    pub fn new(permits: usize) -> (s: Self)
        ensures
            s.wf(),
            s.available() == permits,
            s.queue() == Seq::<usize>::empty(),
            s.need() == Map::<usize, usize>::empty(),
            s.asked() == Map::<usize, usize>::empty(),
            s.unheld() == permits,
    {
        let s = Semaphore {
            permits,
            waiters: WaitList::new(),
            asked: Ghost(Map::empty()),
            served: Ghost(Seq::empty()),
            id: Ghost(arbitrary()),
        };
        assert(s.asked@.dom() =~= s.need().dom());
        assert(demand(s.queue(), s.asked@) == 0);
        assert(demand(s.served@, s.asked@) == 0);
        assert(demand(s.queue(), s.need()) == 0);
        s
    }

    /// What a registered waiter has got, handed out again after it leaves, never brings
    /// the available permits above the unheld ones.
    pub proof fn lemma_cancel_bound(&self, k: usize)
        requires
            self.wf(),
            self.need().dom().contains(k),
        ensures
            hand_out(
                self.available(),
                unlinked(self.queue(), k),
                self.need().remove(k),
                (self.asked()[k] - self.need()[k]) as nat,
            ).0 <= self.unheld(),
            self.available() + (self.asked()[k] - self.need()[k]) <= self.unheld(),
            self.need()[k] <= self.asked()[k],
    {
        self.lemma_wf();
        let q = self.queue();
        let g = self.served@;
        let a = self.asked@;
        let n = self.need();
        let q1 = unlinked(q, k);
        lemma_demand_unlinked(q, k, a);
        lemma_demand_unlinked(q, k, n);
        lemma_demand_unlinked(g, k, a);
        assert(q.contains(k) ==> !g.contains(k)) by {
            if q.contains(k) && g.contains(k) {
                let i = choose|i: int| 0 <= i < g.len() && g[i] == k;
                assert(n.dom().contains(g[i]) && !q.contains(g[i]));
            }
        }
        assert forall|i: int| 0 <= i < q1.len() implies n.remove(k)[q1[i]] <= a.remove(k)[q1[i]] by {
            assert(q1.contains(q1[i]));
            assert(q1[i] != k);
            assert(q.contains(q1[i]));
            let p = choose|p: int| 0 <= p < q.len() && q[p] == q1[i];
            assert(n.dom().contains(q[p]));
        }
        lemma_demand_le(q1, n.remove(k), a.remove(k));
        lemma_hand_out_bound(self.available(), q1, n.remove(k), (a[k] - n[k]) as nat);
    }

    /// Returns the current number of available permits.
    pub fn available_permits(&self) -> (permits: usize)
        ensures
            permits == self.available(),
    {
        self.permits
    }

    /// Tries to acquire `n` permits at once, without queueing.
    ///
    /// Returns `true` if the permits were acquired, `false` otherwise.
    pub fn try_acquire(&mut self, n: usize) -> (acquired: bool)
        requires
            old(self).wf(),
        ensures
            final(self).wf(),
            final(self).id() == old(self).id(),
            acquired == (old(self).available() >= n),
            final(self).available() == if acquired {
                old(self).available() - n
            } else {
                old(self).available() as int
            },
            final(self).available() - final(self).owed() == old(self).available() - old(self).owed() - if acquired { n as int } else { 0 },
            final(self).queue() == old(self).queue(),
            final(self).need() == old(self).need(),
            final(self).asked() == old(self).asked(),
            final(self).unheld() == old(self).unheld() - if acquired { n as int } else { 0 },
            !acquired ==> *final(self) == *old(self),
    {
        if self.permits < n {
            return false;
        }
        self.permits = self.permits - n;
        assert(self.need() == old(self).need());
        assert(self.queue() == old(self).queue());
        true
    }

    /// Decreases the available permits by at most `n`, and returns by how many they were
    /// decreased.
    pub fn forget(&mut self, n: usize) -> (forgotten: usize)
        requires
            old(self).wf(),
        ensures
            final(self).wf(),
            final(self).id() == old(self).id(),
            forgotten == if n <= old(self).available() { n as int } else { old(self).available() as int },
            final(self).available() == old(self).available() - forgotten,
            final(self).available() - final(self).owed() == old(self).available() - old(self).owed() - forgotten,
            final(self).queue() == old(self).queue(),
            final(self).need() == old(self).need(),
            final(self).asked() == old(self).asked(),
            final(self).unheld() == old(self).unheld() - forgotten,
    {
        if n == 0 {
            return 0;
        }
        let current = self.permits;
        self.permits = current.saturating_sub(n);
        assert(self.need() == old(self).need());
        assert(self.queue() == old(self).queue());
        if n < current {
            n
        } else {
            current
        }
    }

    /// Takes `needed` permits if they are available; otherwise takes all available permits
    /// and queues a waiter for the rest, at the tail if `enqueue_last` and at the head
    /// otherwise, storing its key in `idx`.
    ///
    /// Returns `true` if all needed permits were taken.
    pub fn acquired_or_enqueue(&mut self, needed: usize, idx: &mut Option<usize>, enqueue_last: bool) -> (acquired: bool)
        requires
            old(self).wf(),
            *old(idx) is None,
        ensures
            final(self).wf(),
            final(self).id() == old(self).id(),
            acquired == (old(self).available() >= needed),
            final(self).available() - final(self).owed() == old(self).available() - old(self).owed() - needed,
            final(self).unheld() == old(self).unheld() - if acquired { needed as int } else { 0 },
            acquired ==> {
                &&& final(self).available() == old(self).available() - needed
                &&& final(self).queue() == old(self).queue()
                &&& final(self).need() == old(self).need()
                &&& final(self).asked() == old(self).asked()
                &&& *final(idx) is None
            },
            !acquired ==> {
                let k = (*final(idx))->Some_0;
                &&& *final(idx) is Some
                &&& !old(self).need().dom().contains(k)
                &&& final(self).available() == 0
                &&& final(self).queue() == if enqueue_last {
                    old(self).queue().push(k)
                } else {
                    seq![k] + old(self).queue()
                }
                &&& final(self).need() == old(self).need().insert(k, (needed - old(self).available()) as usize)
                &&& final(self).asked() == old(self).asked().insert(k, needed)
            },
    {
        let current = self.permits;
        if current >= needed {
            self.permits = current - needed;
            assert(self.need() == old(self).need());
            assert(self.queue() == old(self).queue());
            return true;
        }
        let remaining = needed - current;
        self.permits = 0;
        let ghost q0 = self.waiters.queue();
        if enqueue_last {
            self.waiters.register_waiter_to_tail(idx, remaining);
        } else {
            self.waiters.register_waiter_to_head(idx, remaining);
        }
        self.asked = Ghost(self.asked@.insert((*idx)->Some_0, needed));
        proof {
            let k = (*idx)->Some_0;
            let q = self.queue();
            let nd = old(self).need();
            assert(!q0.contains(k)) by {
                old(self).lemma_wf();
                if q0.contains(k) {
                    let i = choose|i: int| 0 <= i < q0.len() && q0[i] == k;
                }
            }
            lemma_demand_other(q0, nd, k, remaining);
            if enqueue_last {
                lemma_demand_push(q0, nd.insert(k, remaining), k);
            } else {
                assert((seq![k] + q0).drop_first() =~= q0);
                assert((seq![k] + q0)[0] == k);
            }
            assert(q.contains(k)) by {
                if enqueue_last {
                    assert(q[q.len() - 1] == k);
                } else {
                    assert(q[0] == k);
                }
            }
            assert forall|j: usize| #[trigger] self.need().dom().contains(j) implies (self.queue().contains(j) <==> self.need()[j] > 0) by {
                if j != k {
                    assert(old(self).need().dom().contains(j));
                    if q0.contains(j) {
                        let i = choose|i: int| 0 <= i < q0.len() && q0[i] == j;
                        if enqueue_last {
                            assert(q[i] == j);
                        } else {
                            assert(q[i + 1] == j);
                        }
                    }
                    if q.contains(j) {
                        let i = choose|i: int| 0 <= i < q.len() && q[i] == j;
                        if enqueue_last {
                            assert(q0[i] == j);
                        } else {
                            assert(q0[i - 1] == j);
                        }
                    }
                }
            }
            // The accounting: the new waiter asked for `needed` and got what was available.
            let a0 = old(self).asked@;
            let a = self.asked@;
            let g = self.served@;
            assert(!g.contains(k)) by {
                if g.contains(k) {
                    let i = choose|i: int| 0 <= i < g.len() && g[i] == k;
                    assert(old(self).need().dom().contains(g[i]));
                }
            }
            assert forall|i: int| 0 <= i < g.len() implies self.need().dom().contains(#[trigger] g[i]) && !q.contains(g[i]) by {
                assert(old(self).need().dom().contains(g[i]));
                assert(g[i] != k);
                assert(!q0.contains(g[i]));
                if q.contains(g[i]) {
                    let m = choose|m: int| 0 <= m < q.len() && q[m] == g[i];
                    if enqueue_last {
                        assert(q0[m] == g[i]);
                    } else {
                        assert(q0[m - 1] == g[i]);
                    }
                }
            }
            assert forall|j: usize| #[trigger] self.need().dom().contains(j) implies q.contains(j) || g.contains(j) by {
                if j != k {
                    assert(old(self).need().dom().contains(j));
                    if q0.contains(j) {
                        let i = choose|i: int| 0 <= i < q0.len() && q0[i] == j;
                        if enqueue_last {
                            assert(q[i] == j);
                        } else {
                            assert(q[i + 1] == j);
                        }
                    }
                }
            }
            assert(a.dom() =~= self.need().dom());
            lemma_demand_other(q0, a0, k, needed);
            lemma_demand_other(g, a0, k, needed);
            if enqueue_last {
                lemma_demand_push(q0, a, k);
            }
        }
        false
    }

    /// Decreases the available permits by exactly `n`: what is not available now is taken
    /// from the next permits that come in, ahead of every queued waiter.
    pub fn forget_exact(&mut self, n: usize)
        requires
            old(self).wf(),
        ensures
            final(self).wf(),
            final(self).id() == old(self).id(),
            final(self).available() - final(self).owed() == old(self).available() - old(self).owed() - n,
            final(self).unheld() == old(self).unheld() - if old(self).available() >= n { n as int } else { 0 },
            old(self).available() >= n ==> {
                &&& final(self).available() == old(self).available() - n
                &&& final(self).queue() == old(self).queue()
                &&& final(self).need() == old(self).need()
            },
            old(self).available() < n ==> {
                let k = final(self).queue()[0];
                &&& final(self).available() == 0
                &&& !old(self).need().dom().contains(k)
                &&& final(self).queue() == seq![k] + old(self).queue()
                &&& final(self).need() == old(self).need().insert(k, (n - old(self).available()) as usize)
            },
    {
        let mut idx: Option<usize> = None;
        self.acquired_or_enqueue(n, &mut idx, false);
    }

    /// Hands `rem` permits out: first to the queued waiters, head first, then to the
    /// available permits. Returns the keys of the waiters that got all they needed.
    ///
    /// The available permits must not overflow `usize::MAX`: adding past it panics.
    fn insert_permits(&mut self, rem: usize) -> (woken: Vec<usize>)
        requires
            old(self).wf(),
            hand_out(old(self).available(), old(self).queue(), old(self).need(), rem as nat).0 <= usize::MAX,
        ensures
            final(self).wf(),
            final(self).id() == old(self).id(),
            ({
                let r = hand_out(old(self).available(), old(self).queue(), old(self).need(), rem as nat);
                &&& final(self).available() == r.0
                &&& final(self).queue() == r.1
                &&& final(self).need() == r.2
                &&& woken@ == r.3
            }),
            final(self).asked() == old(self).asked(),
            final(self).served@ == old(self).served@ + woken@,
            final(self).unheld() == old(self).unheld() + rem,
    {
        let ghost r0 = hand_out(self.available(), self.queue(), self.need(), rem as nat);
        let ghost g0 = self.served@;
        let ghost rem0 = rem;
        let mut woken: Vec<usize> = Vec::new();
        let mut rem = rem;
        while rem > 0
            invariant
                self.wf(),
                self.asked@ == old(self).asked@,
                self.id@ == old(self).id@,
                self.served@ == g0 + woken@,
                ({
                    let r = hand_out(self.available(), self.queue(), self.need(), rem as nat);
                    &&& r.0 == r0.0
                    &&& r.1 == r0.1
                    &&& r.2 == r0.2
                    &&& woken@ + r.3 == r0.3
                }),
                r0.0 <= usize::MAX,
            decreases self.queue().len() + rem,
        {
            proof {
                self.lemma_wf();
            }
            match self.waiters.first_waiter() {
                None => {
                    self.permits = self.permits + rem;
                    rem = 0;
                },
                Some(k) => {
                    let p = self.waiters.permits_of(k);
                    let ghost q = self.queue();
                    let ghost nd = self.need();
                    let ghost pre = *self;
                    assert(pre.accounts());
                    if p <= rem {
                        rem = rem - p;
                        self.waiters.set_permits(k, 0);
                        self.waiters.remove_waiter(k);
                        proof {
                            assert(q.index_of(k) == 0);
                            assert(q.remove(0) =~= q.drop_first());
                            assert(woken@.push(k) + hand_out(self.available(), self.queue(), self.need(), rem as nat).3
                                =~= woken@ + (seq![k] + hand_out(self.available(), self.queue(), self.need(), rem as nat).3));
                        }
                        woken.push(k);
                        self.served = Ghost(self.served@.push(k));
                        proof {
                            assert(woken@ =~= woken@.drop_last().push(k));
                            assert(self.served@ =~= g0 + woken@);
                            Self::lemma_serve_head(pre, *self, k);
                        }
                    } else {
                        self.waiters.set_permits(k, p - rem);
                        rem = 0;
                        proof {
                            assert(woken@ + Seq::<usize>::empty() =~= woken@);
                            assert(self.asked@.dom() =~= self.need().dom());
                            assert forall|j: usize| #[trigger] self.need().dom().contains(j) implies self.need()[j] <= self.asked@[j] by {
                                assert(nd.dom().contains(j));
                            }
                            assert forall|j: usize| #[trigger] self.need().dom().contains(j) implies self.queue().contains(j) || self.served@.contains(j) by {
                                assert(nd.dom().contains(j));
                            }
                            assert forall|i: int| 0 <= i < self.served@.len() implies self.need().dom().contains(#[trigger] self.served@[i]) && !self.queue().contains(self.served@[i]) by {
                            }
                        }
                    }
                },
            }
        }
        proof {
            assert(woken@ + Seq::<usize>::empty() =~= woken@);
            let a = self.asked@;
            old(self).lemma_wf();
            lemma_hand_out(old(self).available(), old(self).queue(), old(self).need(), rem0 as nat);
            lemma_demand_concat(woken@, self.queue(), a);
            lemma_demand_concat(g0, woken@, a);
        }
        woken
    }

    /// Serving the head waiter in full keeps the invariant: it leaves the queue, needs
    /// nothing more, and joins the served waiters.
    proof fn lemma_serve_head(pre: Semaphore, post: Semaphore, k: usize)
        requires
            pre.wf(),
            pre.queue().len() > 0,
            pre.queue()[0] == k,
            post.waiters.wf(),
            post.queue() == pre.queue().drop_first(),
            post.need() == pre.need().insert(k, 0),
            post.permits == pre.permits,
            post.asked@ == pre.asked@,
            post.served@ == pre.served@.push(k),
        ensures
            post.wf(),
    {
        pre.lemma_wf();
        let q = pre.queue();
        let q2 = post.queue();
        let nd = pre.need();
        let g = pre.served@;
        assert(q.contains(k));
        assert(!q2.contains(k)) by {
            if q2.contains(k) {
                let i = choose|i: int| 0 <= i < q2.len() && q2[i] == k;
                assert(q[i + 1] == k);
            }
        }
        assert(!g.contains(k)) by {
            if g.contains(k) {
                let i = choose|i: int| 0 <= i < g.len() && g[i] == k;
                assert(nd.dom().contains(g[i]) && !q.contains(g[i]));
            }
        }
        assert forall|j: usize| #[trigger] post.need().dom().contains(j) implies (post.queue().contains(j) <==> post.need()[j] > 0) by {
            if j != k {
                if q.contains(j) {
                    let i = choose|i: int| 0 <= i < q.len() && q[i] == j;
                    assert(i != 0);
                    assert(q2[i - 1] == j);
                }
                if q2.contains(j) {
                    let i = choose|i: int| 0 <= i < q2.len() && q2[i] == j;
                    assert(q[i + 1] == j);
                }
            }
        }
        assert(post.asked@.dom() =~= post.need().dom());
        assert forall|j: usize| #[trigger] post.need().dom().contains(j) implies post.need()[j] <= post.asked@[j] by {
            assert(nd.dom().contains(j));
        }
        assert forall|i: int, j: int| 0 <= i < j < post.served@.len() implies post.served@[i] != post.served@[j] by {
            assert(post.served@[i] == g[i]);
            if j < g.len() {
                assert(post.served@[j] == g[j]);
            }
        }
        assert forall|i: int| 0 <= i < post.served@.len() implies post.need().dom().contains(#[trigger] post.served@[i]) && !q2.contains(post.served@[i]) by {
            if i < g.len() {
                assert(post.served@[i] == g[i]);
                assert(nd.dom().contains(g[i]) && !q.contains(g[i]));
                if q2.contains(g[i]) {
                    let m = choose|m: int| 0 <= m < q2.len() && q2[m] == g[i];
                    assert(q[m + 1] == g[i]);
                }
            }
        }
        assert forall|j: usize| #[trigger] post.need().dom().contains(j) implies q2.contains(j) || post.served@.contains(j) by {
            if j == k {
                assert(post.served@[g.len() as int] == k);
            } else if q.contains(j) {
                let i = choose|i: int| 0 <= i < q.len() && q[i] == j;
                assert(i != 0);
                assert(q2[i - 1] == j);
            } else {
                assert(nd.dom().contains(j));
                assert(q.contains(j) || g.contains(j));
                let i = choose|i: int| 0 <= i < g.len() && g[i] == j;
                assert(post.served@[i] == j);
            }
        }
    }

    /// Forgetting a registered waiter keeps the invariant, and takes what it had got off
    /// the permits handed to registered waiters.
    proof fn lemma_unregister(pre: Semaphore, post: Semaphore, k: usize)
        requires
            pre.wf(),
            pre.need().dom().contains(k),
            post.waiters.wf(),
            post.queue() == unlinked(pre.queue(), k),
            post.need() == pre.need().remove(k),
            post.permits == pre.permits,
            post.asked@ == pre.asked@.remove(k),
            post.served@ == unlinked(pre.served@, k),
        ensures
            post.wf(),
            post.given() == pre.given() - (pre.asked@[k] - pre.need()[k]),
    {
        pre.lemma_wf();
        let q = pre.queue();
        let g = pre.served@;
        let a = pre.asked@;
        let n = pre.need();
        lemma_demand_unlinked(q, k, a);
        lemma_demand_unlinked(q, k, n);
        lemma_demand_unlinked(g, k, a);
        assert(q.contains(k) ==> !g.contains(k)) by {
            if q.contains(k) && g.contains(k) {
                let i = choose|i: int| 0 <= i < g.len() && g[i] == k;
                assert(n.dom().contains(g[i]) && !q.contains(g[i]));
            }
        }
        assert(!q.contains(k) ==> n[k] == 0);
        assert(post.queue().len() > 0 ==> q.len() > 0) by {
            if post.queue().len() > 0 && q.len() == 0 {
                assert(post.queue().contains(post.queue()[0]));
            }
        }
        assert forall|j: usize| #[trigger] post.need().dom().contains(j) implies (post.queue().contains(j) <==> post.need()[j] > 0) by {
            assert(n.dom().contains(j));
        }
        assert(post.asked@.dom() =~= post.need().dom());
        assert forall|j: usize| #[trigger] post.need().dom().contains(j) implies post.need()[j] <= post.asked@[j] by {
            assert(n.dom().contains(j));
        }
        assert forall|i: int| 0 <= i < post.served@.len() implies post.need().dom().contains(#[trigger] post.served@[i]) && !post.queue().contains(post.served@[i]) by {
            let x = post.served@[i];
            assert(post.served@.contains(x));
            assert(x != k);
            assert(g.contains(x));
            let p = choose|p: int| 0 <= p < g.len() && g[p] == x;
            assert(n.dom().contains(g[p]) && !q.contains(g[p]));
        }
        assert forall|j: usize| #[trigger] post.need().dom().contains(j) implies post.queue().contains(j) || post.served@.contains(j) by {
            assert(n.dom().contains(j));
        }
    }

    /// Adds `n` permits: queued waiters are served first, head first. Returns the keys of
    /// the waiters that got all they needed.
    pub fn release(&mut self, n: usize) -> (woken: Vec<usize>)
        requires
            old(self).wf(),
            hand_out(old(self).available(), old(self).queue(), old(self).need(), n as nat).0 <= usize::MAX,
        ensures
            final(self).wf(),
            final(self).id() == old(self).id(),
            final(self).available() - final(self).owed() == old(self).available() - old(self).owed() + n,
            final(self).unheld() == old(self).unheld() + n,
            final(self).asked() == old(self).asked(),
            woken@ + final(self).queue() == old(self).queue(),
            ({
                let r = hand_out(old(self).available(), old(self).queue(), old(self).need(), n as nat);
                &&& final(self).available() == r.0
                &&& final(self).queue() == r.1
                &&& final(self).need() == r.2
                &&& woken@ == r.3
            }),
    {
        proof {
            self.lemma_wf();
            lemma_hand_out(self.available(), self.queue(), self.need(), n as nat);
        }
        if n != 0 {
            self.insert_permits(n)
        } else {
            Vec::new()
        }
    }

    /// Adds `n` permits if some waiter is queued; does nothing otherwise.
    pub fn release_if_nonempty(&mut self, n: usize) -> (woken: Vec<usize>)
        requires
            old(self).wf(),
            old(self).queue().len() > 0 ==> hand_out(old(self).available(), old(self).queue(), old(self).need(), n as nat).0 <= usize::MAX,
        ensures
            final(self).wf(),
            final(self).id() == old(self).id(),
            old(self).queue().len() == 0 ==> *final(self) == *old(self) && woken@.len() == 0,
            old(self).queue().len() > 0 ==> final(self).available() - final(self).owed() == old(self).available() - old(self).owed() + n,
            old(self).queue().len() > 0 ==> final(self).unheld() == old(self).unheld() + n,
            final(self).asked() == old(self).asked(),
            old(self).queue().len() > 0 ==> ({
                let r = hand_out(old(self).available(), old(self).queue(), old(self).need(), n as nat);
                &&& final(self).available() == r.0
                &&& final(self).queue() == r.1
                &&& final(self).need() == r.2
                &&& woken@ == r.3
            }),
    {
        proof {
            self.lemma_wf();
            lemma_hand_out(self.available(), self.queue(), self.need(), n as nat);
        }
        if !self.waiters.is_empty() {
            self.insert_permits(n)
        } else {
            Vec::new()
        }
    }

    /// Unqueues every waiter as if it had got all it needed; the available permits stay as
    /// they are. Returns the keys of the waiters, in queue order.
    pub fn notify_all(&mut self) -> (woken: Vec<usize>)
        requires
            old(self).wf(),
        ensures
            final(self).wf(),
            final(self).id() == old(self).id(),
            woken@ == old(self).queue(),
            final(self).queue().len() == 0,
            final(self).owed() == 0,
            final(self).available() == old(self).available(),
            final(self).need().dom() == old(self).need().dom(),
            forall|k: usize| #[trigger] final(self).need().dom().contains(k) ==> final(self).need()[k]
                == if old(self).queue().contains(k) { 0 } else { old(self).need()[k] },
            final(self).asked() == old(self).asked(),
            final(self).unheld() == old(self).unheld() + old(self).owed(),
    {
        let mut woken: Vec<usize> = Vec::new();
        let ghost q0 = self.queue();
        let ghost n0 = self.need();
        let ghost g0 = self.served@;
        proof {
            self.lemma_wf();
        }
        loop
            invariant_except_break
                self.wf(),
                self.asked@ == old(self).asked@,
                self.id@ == old(self).id@,
                self.served@ == g0 + woken@,
                woken@ + self.queue() == q0,
                self.available() == old(self).available(),
                self.need().dom() == n0.dom(),
                distinct(q0),
                forall|k: usize| #[trigger] self.need().dom().contains(k) ==> self.need()[k]
                    == if woken@.contains(k) { 0 } else { n0[k] },
            ensures
                self.wf(),
                self.asked@ == old(self).asked@,
                self.id@ == old(self).id@,
                self.served@ == g0 + woken@,
                woken@ == q0,
                self.queue().len() == 0,
                self.available() == old(self).available(),
                self.need().dom() == n0.dom(),
                forall|k: usize| #[trigger] self.need().dom().contains(k) ==> self.need()[k]
                    == if woken@.contains(k) { 0 } else { n0[k] },
            decreases self.queue().len(),
        {
            let ghost q = self.queue();
            proof {
                self.lemma_wf();
            }
            match self.waiters.first_waiter() {
                None => {
                    assert(woken@ =~= q0);
                    break;
                },
                Some(k) => {
                    let ghost nd = self.need();
                    let ghost w0 = woken@;
                    let ghost pre = *self;
                    self.waiters.set_permits(k, 0);
                    self.waiters.remove_waiter(k);
                    proof {
                        assert(q.index_of(k) == 0);
                        assert(q.remove(0) =~= q.drop_first());
                    }
                    woken.push(k);
                    self.served = Ghost(self.served@.push(k));
                    proof {
                        let q2 = q.drop_first();
                        assert(woken@ + q2 =~= q0);
                        assert(self.served@ =~= g0 + woken@);
                        Self::lemma_serve_head(pre, *self, k);
                        assert forall|j: usize| #[trigger] self.need().dom().contains(j) implies self.need()[j]
                            == if woken@.contains(j) { 0 } else { n0[j] } by {
                            if j != k {
                                assert(woken@ == w0.push(k));
                                assert(self.need()[j] == nd[j]);
                                assert(nd.dom().contains(j));
                                assert(woken@.contains(j) == w0.contains(j)) by {
                                    if woken@.contains(j) {
                                        let i = choose|i: int| 0 <= i < woken@.len() && woken@[i] == j;
                                        assert(w0[i] == j);
                                    }
                                    if w0.contains(j) {
                                        let i = choose|i: int| 0 <= i < w0.len() && w0[i] == j;
                                        assert(woken@[i] == j);
                                    }
                                }
                            } else {
                                assert(woken@[woken@.len() - 1] == k);
                            }
                        }
                    }
                },
            }
        }
        proof {
            assert forall|k: usize| #[trigger] self.need().dom().contains(k) implies self.need()[k]
                == if q0.contains(k) { 0 } else { n0[k] } by {
            }
            lemma_demand_concat(g0, q0, self.asked@);
            assert(demand(self.queue(), self.asked@) == 0);
            assert(demand(self.queue(), self.need()) == 0);
        }
        woken
    }

    /// Starts an acquisition of `n` permits; nothing is taken until it is polled.
    pub fn poll_acquire(&self, n: usize) -> (acquire: Acquire)
        ensures
            acquire.requested() == n,
            acquire.key() is None,
            !acquire.is_done(),
            acquire.semaphore() == self.id(),
    {
        Acquire { permits: n, index: None, done: false, sem: Ghost(self.id@) }
    }
}


/// `queue` without the waiter `k`, if it is queued.
pub open spec fn unlinked(queue: Seq<usize>, k: usize) -> Seq<usize> {
    if queue.contains(k) {
        queue.remove(queue.index_of(k))
    } else {
        queue
    }
}

/// An acquisition of permits in progress: what a pending acquire keeps between polls.
pub struct Acquire {
    permits: usize,
    index: Option<usize>,
    done: bool,
    /// The identity of the semaphore the acquisition is made on.
    sem: Ghost<int>,
}

impl Acquire {
    /// The permits this acquisition asks for.
    pub closed spec fn requested(&self) -> nat {
        self.permits as nat
    }

    /// The key of the waiter this acquisition queued, if it queued one.
    pub closed spec fn key(&self) -> Option<usize> {
        self.index
    }

    /// The acquisition has got all the permits it asked for.
    pub closed spec fn is_done(&self) -> bool {
        self.done
    }

    /// The identity of the semaphore the acquisition is made on.
    pub closed spec fn semaphore(&self) -> int {
        self.sem@
    }

    /// The acquisition is one of `sem`'s: it was made on `sem`, and the waiter it queued
    /// is registered there and needs no more than it asked for.
    pub open spec fn belongs_to(&self, sem: &Semaphore) -> bool {
        &&& self.semaphore() == sem.id()
        &&& self.is_done() ==> self.key() is None
        &&& self.key() is Some ==> {
            &&& sem.need().dom().contains(self.key()->Some_0)
            &&& sem.need()[self.key()->Some_0] <= self.requested()
            &&& sem.asked()[self.key()->Some_0] == self.requested()
        }
    }

    /// Handing back what the acquisition has got, were it given up now, would take the
    /// available permits of `sem` past `usize::MAX`.
    pub open spec fn cancel_overflows(&self, sem: &Semaphore) -> bool {
        self.key() is Some && sem.available() + self.requested() - sem.need()[self.key()->Some_0] > usize::MAX
    }

    /// Returns the key of the waiter this acquisition queued, if it queued one.
    pub fn index(&self) -> (index: Option<usize>)
        ensures
            index == self.key(),
    {
        self.index
    }

    /// Returns `true` once the acquisition has got all the permits it asked for.
    pub fn done(&self) -> (done: bool)
        ensures
            done == self.is_done(),
    {
        self.done
    }

    /// Returns the permits this acquisition asks for.
    pub fn permits(&self) -> (permits: usize)
        ensures
            permits == self.requested(),
    {
        self.permits
    }

    /// Polls the acquisition once. Returns `true` when all the permits have been acquired.
    ///
    /// A first poll takes the permits if they are available and queues a waiter at the tail
    /// otherwise; later polls complete once the queued waiter has got all it needed.
    pub fn poll_once(&mut self, sem: &mut Semaphore) -> (ready: bool)
        requires
            old(sem).wf(),
            old(self).belongs_to(old(sem)),
        ensures
            final(sem).wf(),
            final(sem).id() == old(sem).id(),
            final(self).belongs_to(final(sem)),
            final(self).requested() == old(self).requested(),
            ready == final(self).is_done(),
            final(sem).available() - final(sem).owed() == old(sem).available() - old(sem).owed() - if !old(
                self,
            ).is_done() && old(self).key() is None {
                old(self).requested() as int
            } else {
                0
            },
            old(self).is_done() ==> ready && *final(sem) == *old(sem),
            final(sem).unheld() == old(sem).unheld() - if ready && !old(self).is_done() {
                old(self).requested() as int
            } else {
                0
            },
            !old(self).is_done() && old(self).key() is Some ==> {
                let k = old(self).key()->Some_0;
                if old(sem).need()[k] > 0 {
                    &&& !ready
                    &&& *final(sem) == *old(sem)
                    &&& *final(self) == *old(self)
                } else {
                    &&& ready
                    &&& final(self).key() is None
                    &&& final(sem).available() == old(sem).available()
                    &&& final(sem).queue() == old(sem).queue()
                    &&& final(sem).need() == old(sem).need().remove(k)
                    &&& final(sem).asked() == old(sem).asked().remove(k)
                }
            },
            !old(self).is_done() && old(self).key() is None ==> {
                &&& ready == (old(sem).available() >= old(self).requested())
                &&& ready ==> {
                    &&& final(self).key() is None
                    &&& final(sem).available() == old(sem).available() - old(self).requested()
                    &&& final(sem).queue() == old(sem).queue()
                    &&& final(sem).need() == old(sem).need()
                    &&& final(sem).asked() == old(sem).asked()
                }
                &&& !ready ==> {
                    let k = final(self).key()->Some_0;
                    &&& final(self).key() is Some
                    &&& !old(sem).need().dom().contains(k)
                    &&& final(sem).available() == 0
                    &&& final(sem).queue() == old(sem).queue().push(k)
                    &&& final(sem).need() == old(sem).need().insert(
                        k,
                        (old(self).requested() - old(sem).available()) as usize,
                    )
                    &&& final(sem).asked() == old(sem).asked().insert(k, old(self).requested() as usize)
                }
            },
    {
        if self.done {
            return true;
        }
        match self.index {
            Some(idx) => {
                if sem.waiters.permits_of(idx) > 0 {
                    false
                } else {
                    proof {
                        sem.lemma_wf();
                        assert(!sem.queue().contains(idx));
                        lemma_demand_forget(sem.queue(), sem.need(), idx);
                    }
                    sem.waiters.free_waiter(idx);
                    sem.asked = Ghost(sem.asked@.remove(idx));
                    sem.served = Ghost(unlinked(sem.served@, idx));
                    proof {
                        Semaphore::lemma_unregister(*old(sem), *sem, idx);
                    }
                    self.index = None;
                    self.done = true;
                    true
                }
            },
            None => {
                let needed = self.permits;
                if sem.acquired_or_enqueue(needed, &mut self.index, true) {
                    self.done = true;
                    true
                } else {
                    false
                }
            },
        }
    }

    /// Gives up the acquisition: its waiter leaves the queue, and the permits it had
    /// already got are handed out again as by `release`. Returns the keys of the waiters
    /// that got all they needed from them.
    pub fn cancel(self, sem: &mut Semaphore) -> (woken: Option<Vec<usize>>)
        requires
            old(sem).wf(),
            self.belongs_to(old(sem)),
        ensures
            final(sem).wf(),
            final(sem).id() == old(sem).id(),
            woken is None <==> self.cancel_overflows(old(sem)),
            woken is None ==> *final(sem) == *old(sem),
            self.key() is None ==> *final(sem) == *old(sem) && woken is Some && woken->Some_0@.len() == 0,
            final(sem).unheld() == old(sem).unheld(),
            self.key() is Some && woken is Some ==> {
                let k = self.key()->Some_0;
                let r = hand_out(
                    old(sem).available(),
                    unlinked(old(sem).queue(), k),
                    old(sem).need().remove(k),
                    (self.requested() - old(sem).need()[k]) as nat,
                );
                &&& final(sem).asked() == old(sem).asked().remove(k)
                &&& final(sem).available() - final(sem).owed() == old(sem).available() - old(sem).owed()
                    + self.requested()
                &&& final(sem).available() == r.0
                &&& final(sem).queue() == r.1
                &&& final(sem).need() == r.2
                &&& woken->Some_0@ == r.3
            },
    {
        match self.index {
            None => Some(Vec::new()),
            Some(index) => {
                let left = sem.waiters.permits_of(index);
                if self.permits - left > usize::MAX - sem.permits {
                    return None;
                }
                let ghost q = sem.queue();
                proof {
                    sem.lemma_wf();
                }
                let left = sem.waiters.remove_waiter(index);
                sem.waiters.free_waiter(index);
                sem.asked = Ghost(sem.asked@.remove(index));
                sem.served = Ghost(unlinked(sem.served@, index));
                proof {
                    Semaphore::lemma_unregister(*old(sem), *sem, index);
                    let q1 = sem.queue();
                    assert(q1 == unlinked(q, index));
                    assert forall|j: usize| #[trigger] sem.need().dom().contains(j) implies (sem.queue().contains(j) <==> sem.need()[j] > 0) by {
                        assert(old(sem).need().dom().contains(j));
                        assert(j != index);
                        if q.contains(index) {
                            let i = q.index_of(index);
                            if q.contains(j) {
                                let m = choose|m: int| 0 <= m < q.len() && q[m] == j;
                                assert(m != i);
                                if m < i {
                                    assert(q1[m] == j);
                                } else {
                                    assert(q1[m - 1] == j);
                                }
                            }
                            if q1.contains(j) {
                                let m = choose|m: int| 0 <= m < q1.len() && q1[m] == j;
                                if m < i {
                                    assert(q[m] == j);
                                } else {
                                    assert(q[m + 1] == j);
                                }
                            }
                        }
                    }
                }
                let acquired = self.permits - left;
                proof {
                    let nd = old(sem).need();
                    if q.contains(index) {
                        let i = q.index_of(index);
                        lemma_demand_remove(q, nd, i);
                        assert(!q.remove(i).contains(index)) by {
                            if q.remove(i).contains(index) {
                                let m = choose|m: int| 0 <= m < q.remove(i).len() && q.remove(i)[m] == index;
                                if m < i {
                                    assert(q[m] == index);
                                } else {
                                    assert(q[m + 1] == index);
                                }
                            }
                        }
                        lemma_demand_forget(q.remove(i), nd, index);
                    } else {
                        lemma_demand_forget(q, nd, index);
                    }
                    sem.lemma_wf();
                    lemma_hand_out(sem.available(), sem.queue(), sem.need(), acquired as nat);
                    lemma_hand_out_bound(sem.available(), sem.queue(), sem.need(), acquired as nat);
                }
                if acquired > 0 {
                    Some(sem.insert_permits(acquired))
                } else {
                    Some(Vec::new())
                }
            },
        }
    }
}

} // verus!
