//! A one-shot channel: one value sent from one task to another.
//!
//! The channel is a small state machine over a state byte. The sender moves it with one
//! arithmetic step when it sends (`+ 1`: EMPTY to MESSAGE, RECEIVING to AWAKING) and with
//! one bit flip when it goes away without sending (`^ 1`: EMPTY to DISCONNECTED,
//! RECEIVING to AWAKING); the receiver stores a waker (RECEIVING), takes the message, or
//! goes away. AWAKING only lasts while the sender takes the waker, and ends in MESSAGE or
//! DISCONNECTED.

use vstd::prelude::*;

verus! {

/// Nothing sent yet; both ends alive; no waker stored.
pub const EMPTY: u8 = 0b011;

/// A message waits in the channel.
pub const MESSAGE: u8 = 0b100;

/// The receiver waits, with a waker stored.
pub const RECEIVING: u8 = 0b000;

/// The sender is taking the stored waker to wake the receiver.
pub const AWAKING: u8 = 0b001;

/// One end is gone, or the message has been taken.
pub const DISCONNECTED: u8 = 0b010;

/// The shared state of a one-shot channel carrying a value of type `T`; the receiver
/// leaves a waker of type `W` in it while it waits.
pub struct Channel<T, W> {
    state: u8,
    message: Option<T>,
    waker: Option<W>,
}

/// The sending end of a channel: sending consumes it.
pub struct Sender<T> {
    marker: std::marker::PhantomData<T>,
}

/// The receiving end of a channel, before it has been polled as a future.
pub struct Receiver<T> {
    marker: std::marker::PhantomData<T>,
}

/// The receiving end of a channel once it is polled as a future.
pub struct Recv<T> {
    marker: std::marker::PhantomData<T>,
}

/// A message that could not be sent because the receiver is gone.
pub struct SendError<T> {
    message: T,
}

/// The channel is closed: the sender went away without sending, or the message has
/// already been taken.
#[derive(Debug, Clone, Copy, PartialEq, Eq, Hash, Structural)]
pub struct RecvError;

/// What polling the receiving end gives: a result once it is ready, nothing while it
/// waits.
pub type RecvPoll<T> = Option<Result<T, RecvError>>;

/// Creates a new one-shot channel: its shared state and its two ends.
pub fn channel<T, W>() -> (chan: (Channel<T, W>, Sender<T>, Receiver<T>))
    ensures
        chan.0.wf(),
        chan.0.state() == EMPTY,
{
    (Channel::new(), Sender { marker: std::marker::PhantomData }, Receiver { marker: std::marker::PhantomData })
}

impl<T, W> Channel<T, W> {
    /// The state byte.
    pub closed spec fn state(&self) -> u8 {
        self.state
    }

    /// The message in the channel, if any.
    pub closed spec fn message(&self) -> Option<T> {
        self.message
    }

    /// The waker that the waiting receiver left, if any.
    pub closed spec fn stored_waker(&self) -> Option<W> {
        self.waker
    }

    /// The channel's invariant: the state is one of the resting states, a message is held
    /// exactly in MESSAGE, and a waker exactly in RECEIVING.
    pub closed spec fn wf(&self) -> bool {
        &&& (self.state == EMPTY || self.state == MESSAGE || self.state == RECEIVING
            || self.state == DISCONNECTED)
        &&& (self.message is Some <==> self.state == MESSAGE)
        &&& (self.waker is Some <==> self.state == RECEIVING)
    }

    /// What the invariant says, for callers: the channel rests in one of four states, holds
    /// a message exactly in MESSAGE, and holds a waker exactly in RECEIVING.
    pub proof fn lemma_wf(&self)
        requires
            self.wf(),
        ensures
            self.state() == EMPTY || self.state() == MESSAGE || self.state() == RECEIVING || self.state()
                == DISCONNECTED,
            self.message() is Some <==> self.state() == MESSAGE,
            self.stored_waker() is Some <==> self.state() == RECEIVING,
    {
    }

    /// Creates the state of a new channel: nothing sent, both ends alive.
    pub fn new() -> (chan: Self)
        ensures
            chan.wf(),
            chan.state() == EMPTY,
    {
        Channel { state: EMPTY, message: None, waker: None }
    }

    /// The sender wakes the waiting receiver: it takes the stored waker out, and moves the
    /// state from AWAKING to `state`. Returns the waker, to be woken.
    fn sender_wake_up_receiver(&mut self, state: u8) -> (waker: W)
        requires
            old(self).state == AWAKING,
            old(self).waker is Some,
        ensures
            waker == old(self).waker->Some_0,
            final(self).state == state,
            final(self).waker is None,
            final(self).message == old(self).message,
    {
        let waker = self.waker.take();
        self.state = state;
        waker.unwrap()
    }

    /// Sends `message` through the sending end. Returns `Ok` with the waker of the
    /// receiver when it waits and is to be woken, `Ok(None)` when it does not wait yet,
    /// and the message back in an error when the receiver is gone.
    pub fn send(&mut self, sender: Sender<T>, message: T) -> (res: Result<Option<W>, SendError<T>>)
        requires
            old(self).wf(),
            old(self).state() == EMPTY || old(self).state() == RECEIVING || old(self).state()
                == DISCONNECTED,
        ensures
            final(self).wf(),
            old(self).state() == EMPTY ==> res == Ok::<Option<W>, SendError<T>>(None) && final(self).state()
                == MESSAGE && final(self).message() == Some(message),
            old(self).state() == RECEIVING ==> res matches Ok(Some(_)),
            old(self).state() == RECEIVING ==> res == Ok::<Option<W>, SendError<T>>(old(self).stored_waker())
                && final(self).state() == MESSAGE && final(self).message() == Some(message)
                && final(self).stored_waker() is None,
            old(self).state() == DISCONNECTED ==> res is Err && res->Err_0.message() == message
                && final(self).state() == DISCONNECTED && final(self).message() is None,
    {
        let previous = self.state;
        self.state = previous + 1;
        if previous == EMPTY {
            self.message = Some(message);
            Ok(None)
        } else if previous == RECEIVING {
            self.message = Some(message);
            let waker = self.sender_wake_up_receiver(MESSAGE);
            Ok(Some(waker))
        } else {
            // The receiver is gone: the channel is given up and the error owns the message.
            self.state = DISCONNECTED;
            Err(SendError { message })
        }
    }

    /// Returns `true` if the receiver is gone, so that sending is bound to fail.
    pub fn sender_is_closed(&self, sender: &Sender<T>) -> (closed: bool)
        ensures
            closed == (self.state() == DISCONNECTED),
    {
        self.state == DISCONNECTED
    }

    /// The sending end goes away without sending. Returns the waker of the receiver when
    /// it waits and is to be woken to see that the channel is closed.
    pub fn drop_sender(&mut self, sender: Sender<T>) -> (wake: Option<W>)
        requires
            old(self).wf(),
            old(self).state() == EMPTY || old(self).state() == RECEIVING || old(self).state()
                == DISCONNECTED,
        ensures
            final(self).wf(),
            wake == old(self).stored_waker(),
            final(self).state() == DISCONNECTED,
            final(self).message() is None,
            final(self).stored_waker() is None,
    {
        let previous = self.state;
        assert(EMPTY ^ 1u8 == DISCONNECTED && RECEIVING ^ 1u8 == AWAKING) by (bit_vector);
        self.state = previous ^ 1u8;
        if previous == RECEIVING {
            let waker = self.sender_wake_up_receiver(DISCONNECTED);
            Some(waker)
        } else {
            // EMPTY: the receiver will see the disconnection; DISCONNECTED: the receiver
            // is gone as well and the channel is given up.
            self.state = DISCONNECTED;
            None
        }
    }

    /// Returns `true` if the sender went away without sending, or the message has been
    /// taken; once `true`, it stays so.
    pub fn receiver_is_closed(&self, receiver: &Receiver<T>) -> (closed: bool)
        ensures
            closed == (self.state() == DISCONNECTED),
    {
        self.state == DISCONNECTED
    }

    /// Returns `true` if a message waits, so that the next receive returns it at once.
    pub fn has_message(&self, receiver: &Receiver<T>) -> (ready: bool)
        ensures
            ready == (self.state() == MESSAGE),
    {
        self.state == MESSAGE
    }

    /// Takes the message if there is one: `Ok(Some(..))` then, and the channel is closed;
    /// `Ok(None)` while the sender lives and has not sent; `Err` once the sender went away
    /// without sending or the message has been taken.
    pub fn try_recv(&mut self, receiver: &Receiver<T>) -> (res: Result<Option<T>, RecvError>)
        requires
            old(self).wf(),
            old(self).state() != RECEIVING,
        ensures
            final(self).wf(),
            old(self).state() == EMPTY ==> res == Ok::<Option<T>, RecvError>(None) && *final(self)
                == *old(self),
            old(self).state() == DISCONNECTED ==> res is Err && *final(self) == *old(self),
            old(self).state() == MESSAGE ==> res == Ok::<Option<T>, RecvError>(old(self).message())
                && final(self).state() == DISCONNECTED && final(self).message() is None,
    {
        if self.state == EMPTY {
            Ok(None)
        } else if self.state == DISCONNECTED {
            Err(RecvError)
        } else {
            self.state = DISCONNECTED;
            Ok(self.message.take())
        }
    }

    /// The receiving end goes away before it was polled as a future; a message in the
    /// channel is dropped.
    pub fn drop_receiver(&mut self, receiver: Receiver<T>)
        requires
            old(self).wf(),
            old(self).state() != RECEIVING,
        ensures
            final(self).wf(),
            final(self).state() == DISCONNECTED,
            final(self).message() is None,
    {
        self.state = DISCONNECTED;
        self.message = None;
    }

    /// Turns the receiving end into a future.
    pub fn into_future(&self, receiver: Receiver<T>) -> (recv: Recv<T>)
    {
        Recv { marker: std::marker::PhantomData }
    }

    /// Polls the receiving future. With a message in the channel it returns it and
    /// closes the channel; with the sender gone it returns the error; otherwise it stores
    /// a clone of `waker` (dropping one from an earlier poll) and waits.
    pub fn poll_recv(&mut self, recv: &mut Recv<T>, waker: &W) -> (res: RecvPoll<T>)
        where
            W: Clone,
        requires
            old(self).wf(),
        ensures
            final(self).wf(),
            old(self).state() == EMPTY || old(self).state() == RECEIVING ==> {
                &&& res is None
                &&& final(self).state() == RECEIVING
                &&& final(self).message() is None
                &&& final(self).stored_waker() is Some
                &&& cloned(*waker, final(self).stored_waker()->Some_0)
            },
            old(self).state() == MESSAGE ==> res == Some(Ok::<T, RecvError>(old(self).message()->Some_0))
                && final(self).state() == DISCONNECTED && final(self).message() is None
                && final(self).stored_waker() is None,
            old(self).state() == DISCONNECTED ==> res is Some && res->Some_0 is Err && *final(self)
                == *old(self),
    {
        if self.state == EMPTY {
            self.write_waker(waker.clone())
        } else if self.state == MESSAGE {
            self.state = DISCONNECTED;
            let message = self.message.take();
            Some(Ok(message.unwrap()))
        } else if self.state == RECEIVING {
            // Polled again while waiting: go back to EMPTY, drop the old waker, and store
            // the new one.
            self.state = EMPTY;
            let replacement = waker.clone();
            self.waker = None;
            self.write_waker(replacement)
        } else {
            Some(Err(RecvError))
        }
    }

    /// Stores the receiver's waker and moves from EMPTY to RECEIVING, returning nothing
    /// while it waits. Where a message came in first, the waker is dropped and the
    /// message is returned, closing the channel; where the sender went away first, the
    /// waker is dropped and the error is returned.
    pub fn write_waker(&mut self, waker: W) -> (res: RecvPoll<T>)
        requires
            old(self).wf(),
            old(self).state() == EMPTY || old(self).state() == MESSAGE || old(self).state() == DISCONNECTED,
        ensures
            final(self).wf(),
            old(self).state() == EMPTY ==> {
                &&& res is None
                &&& final(self).state() == RECEIVING
                &&& final(self).stored_waker() == Some(waker)
                &&& final(self).message() is None
            },
            old(self).state() == MESSAGE ==> {
                &&& res == Some(Ok::<T, RecvError>(old(self).message()->Some_0))
                &&& final(self).state() == DISCONNECTED
                &&& final(self).stored_waker() is None
                &&& final(self).message() is None
            },
            old(self).state() == DISCONNECTED ==> res == Some(Err::<T, RecvError>(RecvError)) && *final(self)
                == *old(self),
    {
        if self.state == EMPTY {
            self.waker = Some(waker);
            self.state = RECEIVING;
            None
        } else if self.state == MESSAGE {
            self.state = DISCONNECTED;
            let message = self.message.take();
            Some(Ok(message.unwrap()))
        } else {
            Some(Err(RecvError))
        }
    }

    /// The receiving future goes away; a message in the channel is dropped, and so is a
    /// stored waker.
    pub fn drop_recv(&mut self, recv: Recv<T>)
        requires
            old(self).wf(),
        ensures
            final(self).wf(),
            final(self).state() == DISCONNECTED,
            final(self).message() is None,
            final(self).stored_waker() is None,
    {
        self.state = DISCONNECTED;
        self.message = None;
        self.waker = None;
    }
}

impl<T> SendError<T> {
    /// The message that could not be sent.
    pub closed spec fn message(&self) -> T {
        self.message
    }

    /// Returns a reference to the message that could not be sent.
    pub fn as_inner(&self) -> (message: &T)
        ensures
            *message == self.message(),
    {
        &self.message
    }

    /// Consumes the error and returns the message that could not be sent.
    pub fn into_inner(self) -> (message: T)
        ensures
            message == self.message(),
    {
        self.message
    }
}

} // verus!
