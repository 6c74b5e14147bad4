//! A multi-producer, single-consumer bounded queue for sending values between tasks.
//!
//! Values come out in the order in which they were sent. A sender that finds the buffer
//! full waits for space on a semaphore of the channel; each value taken out of the buffer
//! lets one waiting sender try again, first come, first served.

use crate::internal::semaphore::{lemma_hand_out_one, unlinked, Acquire, Semaphore};
use std::collections::VecDeque;
use vstd::prelude::*;

verus! {

broadcast use vstd::std_specs::vecdeque::group_vec_dequeue_axioms;

/// One send into a buffer that holds `len` values and has room for `cap`, while the
/// receiver is alive: the length after it, and whether the value was taken.
pub open spec fn send_once(len: nat, cap: nat) -> (nat, bool) {
    if len < cap {
        (len + 1, true)
    } else {
        (len, false)
    }
}

/// `k` sends in a row, with nothing received in between: the length after them, and for
/// each send, in order, whether its value was taken.
pub open spec fn send_many(len: nat, cap: nat, k: nat) -> (nat, Seq<bool>)
    decreases k,
{
    if k == 0 {
        (len, Seq::empty())
    } else {
        let r = send_many(len, cap, (k - 1) as nat);
        let a = send_once(r.0, cap);
        (a.0, r.1.push(a.1))
    }
}

/// Sends into an empty buffer with room for `cap` values: exactly the first `cap` of
/// them are taken, and every later one finds the buffer full.
pub proof fn lemma_capacity_count(cap: nat, k: nat)
    ensures
        send_many(0, cap, k).0 == if k < cap { k } else { cap },
        send_many(0, cap, k).1.len() == k,
        forall|i: int| 0 <= i < k ==> send_many(0, cap, k).1[i] == (i < cap),
    decreases k,
{
    if k > 0 {
        lemma_capacity_count(cap, (k - 1) as nat);
        let r = send_many(0, cap, (k - 1) as nat);
        assert forall|i: int| 0 <= i < k implies send_many(0, cap, k).1[i] == (i < cap) by {
            if i < k - 1 {
                assert(send_many(0, cap, k).1[i] == r.1[i]);
            }
        }
    }
}

/// A send changes the queue of waiting senders at most by queueing its own sender at the
/// tail: every sender that waited before keeps its place, so the one at the head stays
/// the first to be let in by the next value taken out.
pub proof fn lemma_waiters_keep_places(before: Seq<usize>, after: Seq<usize>, own: Option<usize>)
    requires
        after == before || (own is Some && !before.contains(own->Some_0) && after == before.push(
            own->Some_0,
        )),
    ensures
        forall|i: int| 0 <= i < before.len() ==> after[i] == before[i],
        before.len() <= after.len() <= before.len() + 1,
        forall|k: usize| before.contains(k) ==> after.contains(k),
        forall|k: usize| after.contains(k) && !before.contains(k) ==> own == Some(k),
{
    assert forall|k: usize| before.contains(k) implies after.contains(k) by {
        let i = choose|i: int| 0 <= i < before.len() && before[i] == k;
        assert(after[i] == k);
    }
    assert forall|k: usize| after.contains(k) && !before.contains(k) implies own == Some(k) by {
        let i = choose|i: int| 0 <= i < after.len() && after[i] == k;
        if i < before.len() {
            assert(before[i] == k);
        }
    }
}

/// The shared state of a bounded channel carrying values of type `T`.
pub struct BoundedChannel<T> {
    buffer: VecDeque<T>,
    capacity: usize,
    senders: usize,
    receiver_alive: bool,
    tx_permits: Semaphore,
    rx_waiting: bool,
}

/// A sending end of a bounded channel; sending ends can be cloned.
pub struct BoundedSender<T> {
    marker: std::marker::PhantomData<T>,
}

/// The receiving end of a bounded channel.
pub struct BoundedReceiver<T> {
    marker: std::marker::PhantomData<T>,
}

/// A value that could not be sent because the receiver is gone.
pub struct SendError<T> {
    value: T,
}

/// Why a value could not be sent at once; the value comes back.
pub enum TrySendError<T> {
    /// The buffer is full.
    Full(T),
    /// The receiver is gone.
    Disconnected(T),
}

/// What one poll of a send that may have to wait for space gives.
pub enum SendPoll<T> {
    /// The value went into the buffer; `true` when the receiver waits and is to be woken.
    Sent(bool),
    /// The receiver is gone; the value comes back.
    Disconnected(T),
    /// The buffer is full; the value comes back, and the sender waits in the queue.
    Pending(T),
}

/// Why no value could be received at once.
#[derive(Debug, Clone, Copy, PartialEq, Eq, Structural)]
pub enum TryRecvError {
    /// The buffer is empty, and some sender is alive.
    Empty,
    /// The buffer is empty, and every sender is gone.
    Disconnected,
}

impl<T> SendError<T> {
    /// The value that could not be sent.
    pub closed spec fn value(&self) -> T {
        self.value
    }

    /// Creates an error carrying `value`.
    pub fn new(value: T) -> (err: Self)
        ensures
            err.value() == value,
    {
        SendError { value }
    }

    /// Returns a reference to the value that could not be sent.
    pub fn as_inner(&self) -> (value: &T)
        ensures
            *value == self.value(),
    {
        &self.value
    }

    /// Consumes the error and returns the value that could not be sent.
    pub fn into_inner(self) -> (value: T)
        ensures
            value == self.value(),
    {
        self.value
    }
}

/// Creates a bounded channel whose buffer holds up to `buffer` values: its shared state,
/// a sending end and the receiving end. A buffer of `0` panics.
pub fn bounded<T>(buffer: usize) -> (chan: (BoundedChannel<T>, BoundedSender<T>, BoundedReceiver<T>))
    requires
        buffer > 0,
    ensures
        chan.0.wf(),
        chan.0.messages().len() == 0,
        chan.0.capacity() == buffer,
        chan.0.senders() == 1,
        chan.0.receiver_alive(),
{
    let state = BoundedChannel {
        buffer: VecDeque::new(),
        capacity: buffer,
        senders: 1,
        receiver_alive: true,
        tx_permits: Semaphore::new(0),
        rx_waiting: false,
    };
    (state, BoundedSender { marker: std::marker::PhantomData }, BoundedReceiver { marker: std::marker::PhantomData })
}

impl<T> BoundedChannel<T> {
    /// The values in the buffer, oldest first.
    pub closed spec fn messages(&self) -> Seq<T> {
        self.buffer@
    }

    /// How many values the buffer holds at most.
    pub closed spec fn capacity(&self) -> nat {
        self.capacity as nat
    }

    /// The number of live sending ends.
    pub closed spec fn senders(&self) -> nat {
        self.senders as nat
    }

    /// The receiving end is alive.
    pub closed spec fn receiver_alive(&self) -> bool {
        self.receiver_alive
    }

    /// The receiver waits for a value, with a waker stored.
    pub closed spec fn receiver_waiting(&self) -> bool {
        self.rx_waiting
    }

    /// The senders waiting for space, first served first.
    pub closed spec fn waiting_senders(&self) -> Seq<usize> {
        self.tx_permits.queue()
    }

    /// The semaphore that senders wait on, for the contracts of their waits.
    pub closed spec fn space(&self) -> Semaphore {
        self.tx_permits
    }

    /// The channel's invariant.
    pub closed spec fn wf(&self) -> bool {
        &&& self.capacity > 0
        &&& self.buffer@.len() <= self.capacity
        &&& self.tx_permits.wf()
        &&& forall|k: usize| #[trigger] self.tx_permits.asked().dom().contains(k) ==> self.tx_permits.asked()[k] == 1
    }

    /// Every waiting sender needs exactly one permit more, and permits are kept only while
    /// no sender waits.
    proof fn lemma_waiting(&self)
        requires
            self.wf(),
        ensures
            self.waiting_senders().len() > 0 ==> self.tx_permits.available() == 0,
            forall|i: int| 0 <= i < self.waiting_senders().len() ==> self.tx_permits.need().dom().contains(
                #[trigger] self.waiting_senders()[i],
            ) && self.tx_permits.need()[self.waiting_senders()[i]] == 1,
            forall|k: usize| #[trigger] self.tx_permits.need().dom().contains(k) ==> self.tx_permits.need()[k] <= 1,
    {
        self.tx_permits.lemma_wf();
        assert forall|i: int| 0 <= i < self.waiting_senders().len() implies self.tx_permits.need().dom().contains(
            #[trigger] self.waiting_senders()[i],
        ) && self.tx_permits.need()[self.waiting_senders()[i]] == 1 by {
            assert(self.tx_permits.queue().contains(self.waiting_senders()[i]));
        }
    }

    /// Returns the number of live sending ends.
    pub fn sender_count(&self) -> (count: usize)
        ensures
            count == self.senders(),
    {
        self.senders
    }

    /// Clones a sending end.
    pub fn clone_sender(&mut self, sender: &BoundedSender<T>) -> (clone: BoundedSender<T>)
        requires
            old(self).wf(),
            old(self).senders() < usize::MAX,
        ensures
            final(self).wf(),
            final(self).capacity() == old(self).capacity(),
            final(self).senders() == old(self).senders() + 1,
            final(self).messages() == old(self).messages(),
            final(self).receiver_alive() == old(self).receiver_alive(),
            final(self).space() == old(self).space(),
    {
        self.senders = self.senders + 1;
        BoundedSender { marker: std::marker::PhantomData }
    }

    /// A sending end goes away. Returns `true` when it was the last one and the receiver
    /// waits: the receiver is to be woken to see that the channel is closed.
    pub fn drop_sender(&mut self, sender: BoundedSender<T>) -> (wake: bool)
        requires
            old(self).wf(),
            old(self).senders() > 0,
        ensures
            final(self).wf(),
            final(self).capacity() == old(self).capacity(),
            final(self).senders() == old(self).senders() - 1,
            wake == (old(self).senders() == 1 && old(self).receiver_waiting()),
            final(self).messages() == old(self).messages(),
            final(self).receiver_alive() == old(self).receiver_alive(),
            final(self).space() == old(self).space(),
    {
        let previous = self.senders;
        self.senders = previous - 1;
        if previous == 1 {
            let wake = self.rx_waiting;
            self.rx_waiting = false;
            wake
        } else {
            false
        }
    }

    /// Tries to put `value` in the buffer. Fails with `Disconnected` when the receiver is
    /// gone and with `Full` when the buffer is full, giving the value back. On success,
    /// returns `true` when the receiver waits and is to be woken.
    pub fn try_send(&mut self, sender: &BoundedSender<T>, value: T) -> (res: Result<bool, TrySendError<T>>)
        requires
            old(self).wf(),
        ensures
            final(self).wf(),
            final(self).capacity() == old(self).capacity(),
            final(self).senders() == old(self).senders(),
            final(self).receiver_alive() == old(self).receiver_alive(),
            !old(self).receiver_alive() ==> (res matches Err(TrySendError::Disconnected(v)) && v == value)
                && final(self).messages() == old(self).messages(),
            old(self).receiver_alive() && old(self).messages().len() >= old(self).capacity() ==> (res matches Err(
                TrySendError::Full(v),
            ) && v == value) && final(self).messages() == old(self).messages(),
            old(self).receiver_alive() && old(self).messages().len() < old(self).capacity() ==> {
                &&& res == Ok::<bool, TrySendError<T>>(old(self).receiver_waiting())
                &&& final(self).messages() == old(self).messages().push(value)
                &&& !final(self).receiver_waiting()
            },
            res is Err ==> *final(self) == *old(self),
            final(self).space() == old(self).space(),
            old(self).receiver_alive() ==> (final(self).messages().len(), res is Ok) == send_once(
                old(self).messages().len(),
                old(self).capacity(),
            ),
    {
        if !self.receiver_alive {
            return Err(TrySendError::Disconnected(value));
        }
        if self.buffer.len() >= self.capacity {
            return Err(TrySendError::Full(value));
        }
        self.buffer.push_back(value);
        let wake = self.rx_waiting;
        self.rx_waiting = false;
        Ok(wake)
    }

    /// Polls a send that waits for space: polls the wait, then tries to put `value` in the
    /// buffer. While the buffer stays full and the wait keeps completing at once (with
    /// permits kept for the next sender), it starts a new wait and tries again; it stops
    /// once the value went in, the receiver is gone, or the sender waits in the queue.
    pub fn poll_send(&mut self, sender: &BoundedSender<T>, acquire: &mut Acquire, value: T) -> (res: SendPoll<T>)
        requires
            old(self).wf(),
            old(acquire).belongs_to(&old(self).space()),
            old(acquire).requested() == 1,
        ensures
            final(self).wf(),
            final(self).capacity() == old(self).capacity(),
            final(self).senders() == old(self).senders(),
            final(self).receiver_alive() == old(self).receiver_alive(),
            final(acquire).belongs_to(&final(self).space()),
            final(acquire).requested() == 1,
            !old(self).receiver_alive() ==> (res matches SendPoll::Disconnected(v) && v == value)
                && final(self).messages() == old(self).messages(),
            old(self).receiver_alive() && old(self).messages().len() >= old(self).capacity() ==> {
                &&& res matches SendPoll::Pending(v) && v == value
                &&& final(self).messages() == old(self).messages()
                &&& final(acquire).key() is Some
                &&& !final(acquire).is_done()
                &&& final(self).waiting_senders().contains(final(acquire).key()->Some_0)
            },
            old(self).receiver_alive() && old(self).messages().len() < old(self).capacity() ==> {
                &&& res == SendPoll::<T>::Sent(old(self).receiver_waiting())
                &&& final(self).messages() == old(self).messages().push(value)
                &&& !final(self).receiver_waiting()
            },
            final(self).waiting_senders() == old(self).waiting_senders() || (final(acquire).key() is Some
                && !old(self).waiting_senders().contains(final(acquire).key()->Some_0)
                && final(self).waiting_senders() == old(self).waiting_senders().push(
                final(acquire).key()->Some_0,
            )),
            forall|i: int|
                0 <= i < old(self).waiting_senders().len() ==> final(self).waiting_senders()[i]
                    == old(self).waiting_senders()[i],
            forall|k: usize|
                old(self).waiting_senders().contains(k) ==> final(self).waiting_senders().contains(k),
    {
        let mut pending = value;
        loop
            invariant
                self.wf(),
                self.capacity() == old(self).capacity(),
                self.senders() == old(self).senders(),
                self.receiver_alive() == old(self).receiver_alive(),
                self.messages() == old(self).messages(),
                self.receiver_waiting() == old(self).receiver_waiting(),
                self.waiting_senders() == old(self).waiting_senders(),
                acquire.belongs_to(&self.space()),
                acquire.requested() == 1,
                pending == value,
            decreases self.space().available(), if acquire.key() is None && !acquire.is_done() {
                0nat
            } else {
                1nat
            },
        {
            let ready = self.poll_space(acquire);
            proof {
                lemma_waiters_keep_places(old(self).waiting_senders(), self.waiting_senders(), acquire.key());
            }
            match self.try_send(sender, pending) {
                Ok(wake) => {
                    return SendPoll::Sent(wake);
                },
                Err(TrySendError::Disconnected(v)) => {
                    return SendPoll::Disconnected(v);
                },
                Err(TrySendError::Full(v)) => {
                    if ready {
                        *acquire = self.wait_for_space();
                        pending = v;
                    } else {
                        return SendPoll::Pending(v);
                    }
                },
            }
        }
    }

    /// Starts waiting for space in the buffer, as a sender that found it full does.
    pub fn wait_for_space(&self) -> (acquire: Acquire)
        ensures
            acquire.requested() == 1,
            acquire.key() is None,
            !acquire.is_done(),
            acquire.belongs_to(&self.space()),
    {
        self.tx_permits.poll_acquire(1)
    }

    /// Polls a sender that waits for space; returns `true` once a value was taken out of
    /// the buffer for it, so that it may try again.
    pub fn poll_space(&mut self, acquire: &mut Acquire) -> (ready: bool)
        requires
            old(self).wf(),
            old(acquire).belongs_to(&old(self).space()),
            old(acquire).requested() == 1,
        ensures
            final(self).wf(),
            final(self).capacity() == old(self).capacity(),
            final(acquire).belongs_to(&final(self).space()),
            final(acquire).requested() == old(acquire).requested(),
            ready == final(acquire).is_done(),
            final(self).messages() == old(self).messages(),
            final(self).senders() == old(self).senders(),
            final(self).receiver_alive() == old(self).receiver_alive(),
            final(self).receiver_waiting() == old(self).receiver_waiting(),
            !ready ==> final(acquire).key() is Some && final(self).waiting_senders().contains(
                final(acquire).key()->Some_0,
            ),
            ready ==> final(self).waiting_senders() == old(self).waiting_senders(),
            old(acquire).is_done() ==> ready && *final(self) == *old(self),
            !old(acquire).is_done() && old(acquire).key() is Some ==> final(self).space().available()
                == old(self).space().available(),
            !old(acquire).is_done() && old(acquire).key() is None ==> {
                &&& ready == (old(self).space().available() >= 1)
                &&& ready ==> final(self).space().available() == old(self).space().available() - 1
                &&& ready ==> final(self).waiting_senders() == old(self).waiting_senders()
                &&& !ready ==> final(self).waiting_senders() == old(self).waiting_senders().push(
                    final(acquire).key()->Some_0,
                )
                &&& !ready ==> !old(self).waiting_senders().contains(final(acquire).key()->Some_0)
            },
            !old(acquire).is_done() && old(acquire).key() is Some ==> {
                &&& ready == !old(self).waiting_senders().contains(old(acquire).key()->Some_0)
                &&& !ready ==> *final(self) == *old(self)
            },
    {
        proof {
            self.tx_permits.lemma_wf();
        }
        let ready = acquire.poll_once(&mut self.tx_permits);
        proof {
            if !ready && old(acquire).key() is None {
                let q = self.tx_permits.queue();
                assert(q[q.len() - 1] == acquire.key()->Some_0);
                let q0 = old(self).tx_permits.queue();
                if q0.contains(acquire.key()->Some_0) {
                    let i = choose|i: int| 0 <= i < q0.len() && q0[i] == acquire.key()->Some_0;
                    assert(old(self).tx_permits.need().dom().contains(q0[i]));
                }
            }
        }
        ready
    }

    /// Gives up waiting for space, as dropping a pending send does: the sender leaves the
    /// queue, and a permit it was given but had not taken yet goes to the next waiting
    /// sender, or is kept if no sender waits. Returns the keys of the senders to wake;
    /// returns `None`, and changes nothing, when the kept permits would overflow.
    pub fn cancel_space_wait(&mut self, acquire: Acquire) -> (woken: Option<Vec<usize>>)
        requires
            old(self).wf(),
            acquire.belongs_to(&old(self).space()),
        ensures
            final(self).wf(),
            final(self).capacity() == old(self).capacity(),
            final(self).messages() == old(self).messages(),
            final(self).senders() == old(self).senders(),
            final(self).receiver_alive() == old(self).receiver_alive(),
            woken is None <==> acquire.cancel_overflows(&old(self).space()),
            woken is None ==> *final(self) == *old(self),
            acquire.key() is None ==> *final(self) == *old(self) && woken is Some && woken->Some_0@.len() == 0,
            acquire.key() is Some && woken is Some && old(self).waiting_senders().contains(acquire.key()->Some_0) ==> {
                let q = old(self).waiting_senders();
                &&& final(self).waiting_senders() == q.remove(q.index_of(acquire.key()->Some_0))
                &&& woken->Some_0@.len() == 0
            },
            acquire.key() is Some && woken is Some && !old(self).waiting_senders().contains(acquire.key()->Some_0) ==> {
                &&& old(self).waiting_senders().len() == 0 ==> woken->Some_0@.len() == 0
                    && final(self).waiting_senders().len() == 0
                &&& old(self).waiting_senders().len() > 0 ==> woken->Some_0@ == seq![old(self).waiting_senders()[0]]
                    && final(self).waiting_senders() == old(self).waiting_senders().drop_first()
            },
    {
        proof {
            self.lemma_waiting();
            if let Some(k) = acquire.key() {
                let s0 = self.tx_permits;
                s0.lemma_wf();
                let q = s0.queue();
                let n1 = s0.need().remove(k);
                if !q.contains(k) {
                    assert(s0.need()[k] == 0);
                    assert(unlinked(q, k) == q);
                    if q.len() > 0 {
                        assert(q[0] != k);
                        assert(n1[q[0]] == 1);
                    }
                    lemma_hand_out_one(s0.available(), q, n1);
                } else {
                    let i = choose|i: int| 0 <= i < q.len() && q[i] == k;
                    assert(s0.need()[q[i]] == 1);
                }
            }
        }
        acquire.cancel(&mut self.tx_permits)
    }

    /// Takes the oldest value out of the buffer. With none there, fails with `Empty` while
    /// some sender lives and with `Disconnected` once every sender is gone. Taking a value
    /// lets the first waiting sender try again; its key comes back with the result.
    pub fn try_recv(&mut self, receiver: &BoundedReceiver<T>) -> (res: (Result<T, TryRecvError>, Vec<usize>))
        requires
            old(self).wf(),
        ensures
            final(self).wf(),
            final(self).capacity() == old(self).capacity(),
            final(self).senders() == old(self).senders(),
            final(self).receiver_alive() == old(self).receiver_alive(),
            final(self).receiver_waiting() == old(self).receiver_waiting(),
            old(self).messages().len() > 0 ==> {
                &&& res.0 == Ok::<T, TryRecvError>(old(self).messages()[0])
                &&& final(self).messages() == old(self).messages().drop_first()
                &&& old(self).waiting_senders().len() > 0 ==> res.1@ == seq![old(self).waiting_senders()[0]]
                    && final(self).waiting_senders() == old(self).waiting_senders().drop_first()
                &&& old(self).waiting_senders().len() == 0 ==> res.1@.len() == 0
                    && final(self).waiting_senders().len() == 0
            },
            old(self).messages().len() == 0 ==> {
                &&& res.0 == Err::<T, TryRecvError>(
                    if old(self).senders() == 0 { TryRecvError::Disconnected } else { TryRecvError::Empty },
                )
                &&& final(self).messages() == old(self).messages()
                &&& res.1@.len() == 0
                &&& final(self).waiting_senders() == old(self).waiting_senders()
            },
    {
        match self.buffer.pop_front() {
            Some(v) => {
                let ghost s0 = self.tx_permits;
                proof {
                    self.lemma_waiting();
                    s0.lemma_wf();
                    lemma_hand_out_one(s0.available(), s0.queue(), s0.need());
                }
                let woken = self.tx_permits.release_if_nonempty(1);
                proof {
                    assert(self.buffer@ =~= old(self).buffer@.drop_first());
                }
                (Ok(v), woken)
            },
            None => {
                if self.senders == 0 {
                    (Err(TryRecvError::Disconnected), Vec::new())
                } else {
                    (Err(TryRecvError::Empty), Vec::new())
                }
            },
        }
    }

    /// Polls the receiver: a value or the end of the channel once ready (`Some`), with the
    /// keys of the senders to wake; `None` while it waits, with its waker stored.
    pub fn poll_recv(&mut self, receiver: &BoundedReceiver<T>) -> (res: (Option<Option<T>>, Vec<usize>))
        requires
            old(self).wf(),
        ensures
            final(self).wf(),
            final(self).capacity() == old(self).capacity(),
            final(self).senders() == old(self).senders(),
            final(self).receiver_alive() == old(self).receiver_alive(),
            old(self).messages().len() > 0 ==> res.0 == Some(Some(old(self).messages()[0]))
                && final(self).messages() == old(self).messages().drop_first(),
            old(self).messages().len() > 0 && old(self).waiting_senders().len() > 0 ==> res.1@ == seq![
                old(self).waiting_senders()[0],
            ] && final(self).waiting_senders() == old(self).waiting_senders().drop_first(),
            old(self).messages().len() == 0 || old(self).waiting_senders().len() == 0 ==> res.1@.len() == 0
                && final(self).waiting_senders() == old(self).waiting_senders(),
            old(self).messages().len() == 0 && old(self).senders() == 0 ==> res.0 == Some(None::<T>)
                && final(self).messages() == old(self).messages(),
            old(self).messages().len() == 0 && old(self).senders() > 0 ==> res.0 is None
                && final(self).receiver_waiting() && final(self).messages() == old(self).messages(),
    {
        let (res, woken) = self.try_recv(receiver);
        match res {
            Ok(v) => (Some(Some(v)), woken),
            Err(TryRecvError::Disconnected) => (Some(None), woken),
            Err(TryRecvError::Empty) => {
                self.rx_waiting = true;
                (None, woken)
            },
        }
    }

    /// The receiving end goes away: the buffered values are dropped, and every sender that
    /// waits for space is woken to see that the channel is closed. Returns their keys.
    pub fn drop_receiver(&mut self, receiver: BoundedReceiver<T>) -> (woken: Vec<usize>)
        requires
            old(self).wf(),
        ensures
            final(self).wf(),
            final(self).capacity() == old(self).capacity(),
            !final(self).receiver_alive(),
            final(self).messages().len() == 0,
            final(self).senders() == old(self).senders(),
            woken@ == old(self).waiting_senders(),
            final(self).waiting_senders().len() == 0,
    {
        self.receiver_alive = false;
        self.buffer = VecDeque::new();
        self.tx_permits.notify_all()
    }
}

} // verus!
