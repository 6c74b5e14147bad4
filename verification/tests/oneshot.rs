use std::sync::atomic::AtomicU32;
use std::sync::atomic::Ordering;
use std::sync::Arc;

use mea::oneshot;
use mea::oneshot::RecvError;

#[derive(Default)]
struct WakerHandle {
    clone_count: AtomicU32,
    drop_count: AtomicU32,
    wake_count: AtomicU32,
}

impl WakerHandle {
    fn clone_count(&self) -> u32 {
        self.clone_count.load(Ordering::Relaxed)
    }

    fn drop_count(&self) -> u32 {
        self.drop_count.load(Ordering::Relaxed)
    }

    fn wake_count(&self) -> u32 {
        self.wake_count.load(Ordering::Relaxed)
    }
}

/// A waker that counts how often it is cloned, dropped and woken.
struct CountingWaker {
    handle: Arc<WakerHandle>,
}

impl Clone for CountingWaker {
    fn clone(&self) -> Self {
        self.handle.clone_count.fetch_add(1, Ordering::Relaxed);
        CountingWaker { handle: self.handle.clone() }
    }
}

impl Drop for CountingWaker {
    fn drop(&mut self) {
        self.handle.drop_count.fetch_add(1, Ordering::Relaxed);
    }
}

impl CountingWaker {
    /// Wakes the task, consuming the waker.
    fn wake(self) {
        self.handle.wake_count.fetch_add(1, Ordering::Relaxed);
    }
}

fn waker() -> (CountingWaker, Arc<WakerHandle>) {
    let handle = Arc::new(WakerHandle::default());
    (CountingWaker { handle: handle.clone() }, handle)
}

#[test]
fn send_before_receive() {
    let (mut chan, tx, rx) = oneshot::channel::<u32, CountingWaker>();
    assert!(!chan.has_message(&rx));
    assert!(chan.send(tx, 19).ok().unwrap().is_none());
    assert!(chan.has_message(&rx));
    assert_eq!(chan.try_recv(&rx), Ok(Some(19)));
    assert!(chan.receiver_is_closed(&rx));
    assert_eq!(chan.try_recv(&rx), Err(RecvError));
}

#[test]
fn receive_before_send() {
    let (mut chan, tx, rx) = oneshot::channel::<u32, CountingWaker>();
    let (waker, handle) = waker();
    assert_eq!(chan.try_recv(&rx), Ok(None));
    let mut recv = chan.into_future(rx);
    assert!(chan.poll_recv(&mut recv, &waker).is_none());
    assert!(chan.poll_recv(&mut recv, &waker).is_none());
    // The receiver waits: sending hands its waker back to be woken.
    chan.send(tx, 79).ok().unwrap().unwrap().wake();
    assert_eq!(handle.wake_count(), 1);
    assert_eq!(chan.poll_recv(&mut recv, &waker), Some(Ok(79)));
    assert_eq!(chan.poll_recv(&mut recv, &waker), Some(Err(RecvError)));
}

#[test]
fn dropped_sender_closes_channel() {
    let (mut chan, tx, rx) = oneshot::channel::<u32, CountingWaker>();
    let (waker, handle) = waker();
    let mut recv = chan.into_future(rx);
    assert!(chan.poll_recv(&mut recv, &waker).is_none());
    chan.drop_sender(tx).unwrap().wake();
    assert_eq!(handle.wake_count(), 1);
    assert_eq!(chan.poll_recv(&mut recv, &waker), Some(Err(RecvError)));

    let (mut chan, tx, rx) = oneshot::channel::<u32, CountingWaker>();
    assert!(chan.drop_sender(tx).is_none());
    assert!(chan.receiver_is_closed(&rx));
    assert_eq!(chan.try_recv(&rx), Err(RecvError));
}

#[test]
fn send_to_dropped_receiver_returns_message() {
    let (mut chan, tx, rx) = oneshot::channel::<String, CountingWaker>();
    assert!(!chan.sender_is_closed(&tx));
    chan.drop_receiver(rx);
    assert!(chan.sender_is_closed(&tx));
    let err = chan.send(tx, "hello".to_string()).err().unwrap();
    assert_eq!(err.as_inner(), "hello");
    assert_eq!(err.into_inner(), "hello".to_string());
}

#[test]
fn dropping_receiving_future_closes_channel() {
    let (mut chan, tx, rx) = oneshot::channel::<u32, CountingWaker>();
    let (waker, handle) = waker();
    let mut recv = chan.into_future(rx);
    assert!(chan.poll_recv(&mut recv, &waker).is_none());
    chan.drop_recv(recv);
    // The stored waker is dropped with the future, and never woken.
    assert_eq!(handle.clone_count(), 1);
    assert_eq!(handle.drop_count(), 1);
    assert_eq!(handle.wake_count(), 0);
    assert!(chan.sender_is_closed(&tx));
    assert_eq!(chan.send(tx, 7).err().unwrap().into_inner(), 7);
}

#[test]
fn poll_then_send() {
    let (mut chan, sender, receiver) = oneshot::channel::<u128, CountingWaker>();
    let mut receiver = chan.into_future(receiver);

    let (waker, waker_handle) = waker();

    assert_eq!(chan.poll_recv(&mut receiver, &waker), None);
    assert_eq!(waker_handle.clone_count(), 1);
    assert_eq!(waker_handle.drop_count(), 0);
    assert_eq!(waker_handle.wake_count(), 0);

    if let Some(w) = chan.send(sender, 1234).ok().unwrap() {
        w.wake();
    }
    assert_eq!(waker_handle.clone_count(), 1);
    assert_eq!(waker_handle.drop_count(), 1);
    assert_eq!(waker_handle.wake_count(), 1);

    assert_eq!(chan.poll_recv(&mut receiver, &waker), Some(Ok(1234)));
    assert_eq!(waker_handle.clone_count(), 1);
    assert_eq!(waker_handle.drop_count(), 1);
    assert_eq!(waker_handle.wake_count(), 1);
}

#[test]
fn poll_with_different_wakers() {
    let (mut chan, sender, receiver) = oneshot::channel::<u128, CountingWaker>();
    let mut receiver = chan.into_future(receiver);

    let (waker1, waker_handle1) = waker();

    assert_eq!(chan.poll_recv(&mut receiver, &waker1), None);
    assert_eq!(waker_handle1.clone_count(), 1);
    assert_eq!(waker_handle1.drop_count(), 0);
    assert_eq!(waker_handle1.wake_count(), 0);

    let (waker2, waker_handle2) = waker();

    assert_eq!(chan.poll_recv(&mut receiver, &waker2), None);
    assert_eq!(waker_handle1.clone_count(), 1);
    assert_eq!(waker_handle1.drop_count(), 1);
    assert_eq!(waker_handle1.wake_count(), 0);

    assert_eq!(waker_handle2.clone_count(), 1);
    assert_eq!(waker_handle2.drop_count(), 0);
    assert_eq!(waker_handle2.wake_count(), 0);

    // Sending should cause the waker from the latest poll to be woken up
    if let Some(w) = chan.send(sender, 1234).ok().unwrap() {
        w.wake();
    }
    assert_eq!(waker_handle1.clone_count(), 1);
    assert_eq!(waker_handle1.drop_count(), 1);
    assert_eq!(waker_handle1.wake_count(), 0);

    assert_eq!(waker_handle2.clone_count(), 1);
    assert_eq!(waker_handle2.drop_count(), 1);
    assert_eq!(waker_handle2.wake_count(), 1);
}

#[test]
fn write_waker_after_message_returns_it() {
    let (mut chan, tx, _rx) = oneshot::channel::<u32, CountingWaker>();
    let (waker, handle) = waker();
    assert!(chan.send(tx, 5).ok().unwrap().is_none());
    assert_eq!(chan.write_waker(waker), Some(Ok(5)));
    // The waker was not stored: it was dropped at once.
    assert_eq!(handle.drop_count(), 1);
    assert_eq!(handle.wake_count(), 0);
}
