//! A barrier: tasks wait at it until all participants have arrived.
//!
//! The last task of a round to arrive is the leader: it releases the others, starts a new
//! generation, and the barrier can be used again.

use vstd::prelude::*;

verus! {

/// One arrival at a barrier for rounds of `n` tasks, `arrived` of the current round being
/// there already in generation `generation`: the arrivals and generation after it, and
/// whether it leads, which it does when it completes the round.
pub open spec fn arrive_once(arrived: nat, generation: nat, n: nat) -> (nat, nat, bool) {
    if arrived + 1 == n {
        (0, generation + 1, true)
    } else {
        (arrived + 1, generation, false)
    }
}

/// `k` arrivals in a row: the arrivals and generation after them, and for each arrival,
/// in order, whether it led.
pub open spec fn arrive_many(arrived: nat, generation: nat, n: nat, k: nat) -> (nat, nat, Seq<bool>)
    decreases k,
{
    if k == 0 {
        (arrived, generation, Seq::empty())
    } else {
        let r = arrive_many(arrived, generation, n, (k - 1) as nat);
        let a = arrive_once(r.0, r.1, n);
        (a.0, a.1, r.2.push(a.2))
    }
}

/// Fewer than `n` arrivals into a fresh round lead nowhere: they are all counted, and the
/// generation stays.
proof fn lemma_part_of_round(generation: nat, n: nat, k: nat)
    requires
        k < n,
    ensures
        arrive_many(0, generation, n, k).0 == k,
        arrive_many(0, generation, n, k).1 == generation,
        arrive_many(0, generation, n, k).2 == Seq::new(k, |i: int| false),
    decreases k,
{
    if k > 0 {
        lemma_part_of_round(generation, n, (k - 1) as nat);
        assert(arrive_many(0, generation, n, (k - 1) as nat).2.push(false) =~= Seq::new(k, |i: int| false));
    }
}

/// A round of a barrier for `n` tasks: of `n` arrivals into a fresh round, exactly the
/// last one leads, and the barrier is fresh again, one generation later, so it can be
/// used again.
pub proof fn lemma_round(generation: nat, n: nat)
    requires
        n >= 1,
    ensures
        ({
            let r = arrive_many(0, generation, n, n);
            &&& r.0 == 0
            &&& r.1 == generation + 1
            &&& r.2.len() == n
            &&& r.2[n - 1]
            &&& forall|i: int| 0 <= i < n - 1 ==> !r.2[i]
        }),
{
    lemma_part_of_round(generation, n, (n - 1) as nat);
}

/// A synchronization point for a fixed number of tasks.
pub struct Barrier {
    n: u32,
    arrived: u32,
    generation: usize,
}

/// What a task gets back once the barrier has released it.
pub struct BarrierWaitResult(bool);

impl BarrierWaitResult {
    /// The waiter was the last of its round to arrive.
    pub closed spec fn leader(&self) -> bool {
        self.0
    }

    /// Returns `true` if the waiter was the leader of its round: the last to arrive.
    /// Exactly one task of every round is the leader.
    pub fn is_leader(&self) -> (leader: bool)
        ensures
            leader == self.leader(),
    {
        self.0
    }
}

impl Barrier {
    /// The number of tasks that make up a round.
    pub closed spec fn parties(&self) -> nat {
        self.n as nat
    }

    /// The tasks of the current round that have arrived so far.
    pub closed spec fn arrivals(&self) -> nat {
        self.arrived as nat
    }

    /// The number of completed rounds.
    pub closed spec fn generation(&self) -> nat {
        self.generation as nat
    }

    /// The barrier's invariant: a round is never complete.
    pub closed spec fn wf(&self) -> bool {
        self.arrived < self.n
    }

    /// Creates a barrier for rounds of `n` tasks; a barrier for `0` tasks behaves as one
    /// for `1`.
    pub fn new(n: u32) -> (barrier: Self)
        ensures
            barrier.wf(),
            barrier.parties() == if n > 0 { n } else { 1 },
            barrier.arrivals() == 0,
            barrier.generation() == 0,
    {
        let n = if n > 0 { n } else { 1 };
        Barrier { n, arrived: 0, generation: 0 }
    }

    /// Returns `true` if the next arrival completes the round and the generation count
    /// cannot grow any further.
    pub fn wait_overflows(&self) -> (overflows: bool)
        ensures
            overflows == (self.arrivals() + 1 == self.parties() && self.generation() == usize::MAX),
    {
        self.arrived as u64 + 1 == self.n as u64 && self.generation == usize::MAX
    }

    /// A task arrives at the barrier. The last task of the round gets `Ok` with a leader
    /// result: the round is complete, the waiting tasks are to be woken, and a new
    /// generation starts. Any other task gets `Err` with the generation it has to see end
    /// before it may go on (see `poll_wait`).
    pub fn wait(&mut self) -> (arrival: Result<BarrierWaitResult, usize>)
        requires
            old(self).wf(),
            old(self).arrivals() + 1 == old(self).parties() ==> old(self).generation() < usize::MAX,
        ensures
            final(self).wf(),
            final(self).parties() == old(self).parties(),
            (final(self).arrivals(), final(self).generation(), arrival is Ok) == arrive_once(
                old(self).arrivals(),
                old(self).generation(),
                old(self).parties(),
            ),
            arrival is Ok <==> old(self).arrivals() + 1 == old(self).parties(),
            arrival is Ok ==> {
                &&& arrival->Ok_0.leader()
                &&& final(self).arrivals() == 0
                &&& final(self).generation() == old(self).generation() + 1
            },
            arrival is Err ==> {
                &&& arrival->Err_0 == old(self).generation()
                &&& final(self).arrivals() == old(self).arrivals() + 1
                &&& final(self).generation() == old(self).generation()
            },
    {
        let generation = self.generation;
        self.arrived = self.arrived + 1;
        if self.arrived == self.n {
            self.arrived = 0;
            self.generation = self.generation + 1;
            return Ok(BarrierWaitResult(true));
        }
        Err(generation)
    }

    /// Checks on a task that arrived during generation `generation`: it is released, with
    /// a follower result, once that generation has ended.
    pub fn poll_wait(&self, generation: usize) -> (released: Option<BarrierWaitResult>)
        ensures
            released is Some <==> generation < self.generation(),
            released is Some ==> !released->Some_0.leader(),
    {
        if generation < self.generation {
            Some(BarrierWaitResult(false))
        } else {
            None
        }
    }
}

} // verus!
