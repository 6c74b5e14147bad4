use mea::condvar::Condvar;

#[test]
fn condvar_notify_one_wakes_first_waiter() {
    let mut cvar = Condvar::new();
    let mut a = cvar.wait();
    let mut b = cvar.wait();
    assert!(!cvar.poll_wait(&mut a));
    assert!(!cvar.poll_wait(&mut b));
    assert_eq!(cvar.notify_one().len(), 1);
    assert!(cvar.poll_wait(&mut a));
    assert!(!cvar.poll_wait(&mut b));
    assert_eq!(cvar.notify_one().len(), 1);
    assert!(cvar.poll_wait(&mut b));
}

#[test]
fn condvar_notify_all_wakes_everyone() {
    let mut cvar = Condvar::new();
    let mut a = cvar.wait();
    let mut b = cvar.wait();
    let mut c = cvar.wait();
    assert_eq!(cvar.notify_all().len(), 3);
    assert!(cvar.poll_wait(&mut a));
    assert!(cvar.poll_wait(&mut b));
    assert!(cvar.poll_wait(&mut c));
    assert!(cvar.notify_all().is_empty());
}

#[test]
fn condvar_notification_is_kept_for_next_waiter() {
    let mut cvar = Condvar::new();
    assert!(cvar.notify_one().is_empty());
    let mut a = cvar.wait();
    assert!(cvar.poll_wait(&mut a));
    let mut b = cvar.wait();
    assert!(!cvar.poll_wait(&mut b));
}

#[test]
fn condvar_cancelled_notified_waiter_passes_notification_on() {
    let mut cvar = Condvar::new();
    let a = cvar.wait();
    let mut b = cvar.wait();
    let b_key = b.index().unwrap();
    assert_eq!(cvar.notify_one(), vec![a.index().unwrap()]);
    assert_eq!(cvar.cancel_wait(a), vec![b_key]);
    assert!(cvar.poll_wait(&mut b));
    assert_eq!(cvar.pending_notifications(), 0);
}

#[test]
fn condvar_cancelled_queued_waiter_leaves_queue() {
    let mut cvar = Condvar::new();
    let a = cvar.wait();
    let mut b = cvar.wait();
    let b_key = b.index().unwrap();
    assert!(cvar.cancel_wait(a).is_empty());
    assert_eq!(cvar.notify_one(), vec![b_key]);
    assert!(cvar.poll_wait(&mut b));
}

#[test]
fn condvar_cancelled_notified_waiter_keeps_notification() {
    let mut cvar = Condvar::new();
    let a = cvar.wait();
    assert_eq!(cvar.notify_one().len(), 1);
    assert!(cvar.cancel_wait(a).is_empty());
    assert_eq!(cvar.pending_notifications(), 1);
    let mut c = cvar.wait();
    assert!(cvar.poll_wait(&mut c));
    assert_eq!(cvar.pending_notifications(), 0);
}
