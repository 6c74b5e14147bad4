use mea::mpsc;
use mea::mpsc::TryRecvError;
use mea::mpsc::TrySendError;

#[test]
fn bounded_try_send_full_and_disconnected() {
    let (mut chan, tx, rx) = mpsc::bounded::<i32>(1);
    assert_eq!(chan.try_send(&tx, 1).ok(), Some(false));
    assert!(matches!(chan.try_send(&tx, 2), Err(TrySendError::Full(2))));
    chan.drop_receiver(rx);
    assert!(matches!(chan.try_send(&tx, 3), Err(TrySendError::Disconnected(3))));
}

#[test]
fn bounded_try_recv_empty_and_disconnected() {
    let (mut chan, tx, rx) = mpsc::bounded(2);
    assert_eq!(chan.try_send(&tx, "hello").ok(), Some(false));
    assert_eq!(chan.try_recv(&rx).0, Ok("hello"));
    assert_eq!(chan.try_recv(&rx).0, Err(TryRecvError::Empty));
    assert_eq!(chan.try_send(&tx, "hello").ok(), Some(false));
    chan.drop_sender(tx);
    assert_eq!(chan.try_recv(&rx).0, Ok("hello"));
    assert_eq!(chan.try_recv(&rx).0, Err(TryRecvError::Disconnected));
}

#[test]
fn bounded_values_come_out_in_order() {
    let (mut chan, tx, rx) = mpsc::bounded(3);
    let tx2 = chan.clone_sender(&tx);
    chan.try_send(&tx, 1).ok().unwrap();
    chan.try_send(&tx2, 2).ok().unwrap();
    chan.try_send(&tx, 3).ok().unwrap();
    assert_eq!(chan.poll_recv(&rx).0, Some(Some(1)));
    assert_eq!(chan.poll_recv(&rx).0, Some(Some(2)));
    assert_eq!(chan.poll_recv(&rx).0, Some(Some(3)));
    assert_eq!(chan.poll_recv(&rx).0, None);
    // The receiver waits now: a send wakes it.
    assert_eq!(chan.try_send(&tx2, 4).ok(), Some(true));
    assert!(!chan.drop_sender(tx));
    assert!(!chan.drop_sender(tx2));
    assert_eq!(chan.poll_recv(&rx).0, Some(Some(4)));
    assert_eq!(chan.poll_recv(&rx).0, Some(None));
}

#[test]
fn bounded_full_sender_waits_for_space() {
    let (mut chan, tx, rx) = mpsc::bounded(1);
    chan.try_send(&tx, 1).ok().unwrap();
    let mut space = chan.wait_for_space();
    assert!(!chan.poll_space(&mut space));
    let (value, woken) = chan.try_recv(&rx);
    assert_eq!(value, Ok(1));
    assert_eq!(woken.len(), 1);
    assert!(chan.poll_space(&mut space));
    assert_eq!(chan.try_send(&tx, 2).ok(), Some(false));
}

#[test]
fn bounded_dropped_receiver_wakes_waiting_senders() {
    let (mut chan, tx, rx) = mpsc::bounded(1);
    chan.try_send(&tx, 1).ok().unwrap();
    let mut space = chan.wait_for_space();
    assert!(!chan.poll_space(&mut space));
    let woken = chan.drop_receiver(rx);
    assert_eq!(woken.len(), 1);
    assert!(chan.poll_space(&mut space));
    assert!(matches!(chan.try_send(&tx, 2), Err(TrySendError::Disconnected(2))));
}

#[test]
fn mpsc_send_error_carries_value() {
    let err = mpsc::SendError::new(5);
    assert_eq!(*err.as_inner(), 5);
    assert_eq!(err.into_inner(), 5);
}

#[test]
fn bounded_cancelled_waiting_sender_leaves_queue() {
    let (mut chan, tx, rx) = mpsc::bounded(1);
    chan.try_send(&tx, 1).ok().unwrap();
    let mut first = chan.wait_for_space();
    assert!(!chan.poll_space(&mut first));
    let mut second = chan.wait_for_space();
    assert!(!chan.poll_space(&mut second));
    let second_key = second.index().unwrap();
    assert!(chan.cancel_space_wait(first).unwrap().is_empty());
    let (value, woken) = chan.try_recv(&rx);
    assert_eq!(value, Ok(1));
    assert_eq!(woken, vec![second_key]);
    assert!(chan.poll_space(&mut second));
}

#[test]
fn bounded_cancelled_notified_sender_passes_space_on() {
    let (mut chan, tx, rx) = mpsc::bounded(1);
    chan.try_send(&tx, 1).ok().unwrap();
    let mut first = chan.wait_for_space();
    assert!(!chan.poll_space(&mut first));
    let mut second = chan.wait_for_space();
    assert!(!chan.poll_space(&mut second));
    let first_key = first.index().unwrap();
    let second_key = second.index().unwrap();
    let (_, woken) = chan.try_recv(&rx);
    assert_eq!(woken, vec![first_key]);
    assert_eq!(chan.cancel_space_wait(first).unwrap(), vec![second_key]);
    assert!(chan.poll_space(&mut second));
}

#[test]
fn bounded_cancelled_notified_sender_keeps_space_for_next() {
    let (mut chan, tx, rx) = mpsc::bounded(1);
    chan.try_send(&tx, 1).ok().unwrap();
    let mut first = chan.wait_for_space();
    assert!(!chan.poll_space(&mut first));
    let (_, woken) = chan.try_recv(&rx);
    assert_eq!(woken.len(), 1);
    assert!(chan.cancel_space_wait(first).unwrap().is_empty());
    let mut next = chan.wait_for_space();
    assert!(chan.poll_space(&mut next));
}

#[test]
fn bounded_send_waits_until_a_receive_frees_a_slot() {
    let (mut chan, tx, rx) = mpsc::bounded(1);
    assert_eq!(chan.try_send(&tx, "hello").ok(), Some(false));
    let mut space = chan.wait_for_space();
    let value = match chan.poll_send(&tx, &mut space, "world") {
        mpsc::SendPoll::Pending(v) => v,
        _ => panic!("the buffer is full"),
    };
    let key = space.index().unwrap();
    let (first, woken) = chan.try_recv(&rx);
    assert_eq!(first, Ok("hello"));
    assert_eq!(woken, vec![key]);
    assert!(matches!(chan.poll_send(&tx, &mut space, value), mpsc::SendPoll::Sent(false)));
    assert_eq!(chan.try_recv(&rx).0, Ok("world"));
}

#[test]
fn bounded_send_to_dropped_receiver_gives_value_back() {
    let (mut chan, tx, rx) = mpsc::bounded(1);
    chan.drop_receiver(rx);
    let mut space = chan.wait_for_space();
    assert!(matches!(chan.poll_send(&tx, &mut space, 3), mpsc::SendPoll::Disconnected(3)));
}

#[test]
fn bounded_takes_exactly_buffer_values() {
    let (mut chan, tx, _rx) = mpsc::bounded(3);
    for i in 0..3 {
        assert_eq!(chan.try_send(&tx, i).ok(), Some(false));
    }
    assert!(matches!(chan.try_send(&tx, 3), Err(TrySendError::Full(3))));
    assert!(matches!(chan.try_send(&tx, 4), Err(TrySendError::Full(4))));
}
