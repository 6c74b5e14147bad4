use mea::semaphore::Semaphore;

#[test]
fn semaphore_basic_usage() {
    let mut semaphore = Semaphore::new(3);
    let a_permit = semaphore.try_acquire(1).unwrap();
    let two_permits = semaphore.try_acquire(2).unwrap();
    assert_eq!(semaphore.available_permits(), 0);
    assert!(semaphore.try_acquire(1).is_none());
    assert_eq!(a_permit.permits(), 1);
    assert_eq!(two_permits.permits(), 2);
}

#[test]
fn semaphore_forget_reports_what_was_removed() {
    let mut sem = Semaphore::new(5);
    assert_eq!(sem.forget(3), 3);
    assert_eq!(sem.available_permits(), 2);
    assert_eq!(sem.forget(3), 2);
    assert_eq!(sem.available_permits(), 0);
    assert_eq!(sem.forget(0), 0);
}

#[test]
fn semaphore_forget_exact_owes_the_rest() {
    let mut sem = Semaphore::new(5);
    sem.forget_exact(3);
    assert_eq!(sem.available_permits(), 2);
    sem.forget_exact(3);
    assert_eq!(sem.available_permits(), 0);
    sem.release(5);
    assert_eq!(sem.available_permits(), 4);
}

#[test]
fn semaphore_release_adds_permits() {
    let mut sem = Semaphore::new(0);
    sem.release(2);
    assert_eq!(sem.available_permits(), 2);
    assert!(sem.release(0).is_empty());
    assert_eq!(sem.available_permits(), 2);
}

#[test]
fn semaphore_permit_forget_keeps_permits_out() {
    let mut sem = Semaphore::new(10);
    let permit = sem.try_acquire(5).unwrap();
    assert_eq!(sem.available_permits(), 5);
    permit.forget();
    assert_eq!(sem.available_permits(), 5);
}

#[test]
fn semaphore_permit_merge_releases_both() {
    let mut sem = Semaphore::new(10);
    let mut permit = sem.try_acquire(1).unwrap();
    for _ in 0..9 {
        let new_permit = sem.try_acquire(1).unwrap();
        permit.merge(new_permit);
    }
    assert_eq!(sem.available_permits(), 0);
    assert_eq!(permit.permits(), 10);
    sem.release_permit(permit);
    assert_eq!(sem.available_permits(), 10);
}

#[test]
fn semaphore_permit_split() {
    let mut sem = Semaphore::new(3);
    let mut p1 = sem.try_acquire(3).unwrap();
    let p2 = p1.split(1).unwrap();
    assert_eq!(p1.permits(), 2);
    assert_eq!(p2.permits(), 1);
    assert!(p1.split(3).is_none());
    assert_eq!(p1.permits(), 2);
}

#[test]
fn semaphore_owned_permits() {
    let mut sem = Semaphore::new(2);
    let p1 = sem.try_acquire_owned(1).unwrap();
    assert_eq!(sem.available_permits(), 1);
    let mut p2 = sem.try_acquire_owned(1).unwrap();
    assert_eq!(sem.available_permits(), 0);
    assert!(sem.try_acquire_owned(1).is_none());
    p2.merge(p1);
    assert_eq!(p2.permits(), 2);
    let p3 = p2.split(1).unwrap();
    assert_eq!(p3.permits(), 1);
    sem.release_owned_permit(p3);
    assert_eq!(sem.available_permits(), 1);
    p2.forget();
    assert_eq!(sem.available_permits(), 1);
    assert!(sem.try_acquire_owned_and_forget(1));
    assert!(!sem.try_acquire_owned_and_forget(1));
}

#[test]
fn semaphore_try_acquire_and_forget() {
    let mut sem = Semaphore::new(2);
    assert!(sem.try_acquire_and_forget(2));
    assert_eq!(sem.available_permits(), 0);
    assert!(!sem.try_acquire_and_forget(1));
}

#[test]
fn semaphore_waiters_are_served_in_order() {
    let mut sem = Semaphore::new(1);
    let mut first = sem.acquire(2);
    let mut second = sem.acquire(1);
    assert!(!sem.poll_acquire(&mut first));
    assert!(!sem.poll_acquire(&mut second));
    assert_eq!(sem.available_permits(), 0);
    // One permit completes the first waiter (which already took one), not the second.
    let woken = sem.release(1);
    assert_eq!(woken.len(), 1);
    assert!(sem.poll_acquire(&mut first));
    assert!(!sem.poll_acquire(&mut second));
    let woken = sem.release(1);
    assert_eq!(woken.len(), 1);
    assert!(sem.poll_acquire(&mut second));
    let p1 = sem.acquired(first);
    let p2 = sem.acquired(second);
    assert_eq!(p1.permits(), 2);
    assert_eq!(p2.permits(), 1);
    sem.release_permit(p1);
    sem.release_permit(p2);
    assert_eq!(sem.available_permits(), 3);
}

#[test]
fn semaphore_cancelled_waiter_returns_its_permits() {
    let mut sem = Semaphore::new(2);
    let mut big = sem.acquire(5);
    assert!(!sem.poll_acquire(&mut big));
    assert_eq!(sem.available_permits(), 0);
    let mut small = sem.acquire(1);
    assert!(!sem.poll_acquire(&mut small));
    // Cancelling hands the two permits it had taken to the next waiter and the rest back.
    let woken = sem.cancel_acquire(big).unwrap();
    assert_eq!(woken.len(), 1);
    assert!(sem.poll_acquire(&mut small));
    assert_eq!(sem.available_permits(), 1);
    let never_polled = sem.acquire(4);
    assert!(sem.cancel_acquire(never_polled).unwrap().is_empty());
    assert_eq!(sem.available_permits(), 1);
}

#[test]
fn semaphore_forget_exact_is_served_before_waiters() {
    let mut sem = Semaphore::new(0);
    let mut waiter = sem.acquire(1);
    assert!(!sem.poll_acquire(&mut waiter));
    sem.forget_exact(2);
    // The two permits go to the forgetting entry at the head, not to the waiter.
    let woken = sem.release(2);
    assert_eq!(woken.len(), 1);
    assert!(!sem.poll_acquire(&mut waiter));
    let woken = sem.release(1);
    assert_eq!(woken.len(), 1);
    assert!(sem.poll_acquire(&mut waiter));
    assert_eq!(sem.available_permits(), 0);
}

#[test]
fn semaphore_cancel_that_would_overflow_changes_nothing() {
    let mut sem = Semaphore::new(1);
    let mut waiter = sem.acquire(3);
    assert!(!sem.poll_acquire(&mut waiter));
    assert_eq!(sem.available_permits(), 0);
    sem.release(usize::MAX);
    assert_eq!(sem.available_permits(), usize::MAX - 2);
    // The waiter was served; giving up would hand its three permits back on top.
    assert!(sem.cancel_acquire(waiter).is_none());
    assert_eq!(sem.available_permits(), usize::MAX - 2);
}
