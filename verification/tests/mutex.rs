use mea::mutex::Mutex;

#[test]
fn mutex_new_and_into_inner() {
    let mutex = Mutex::new(1);
    assert_eq!(mutex.into_inner(), 1);
}

#[test]
fn mutex_get_mut() {
    let mut mutex = Mutex::new(1);
    *mutex.get_mut() = 2;
    assert_eq!(mutex.into_inner(), 2);
}

#[test]
fn mutex_try_lock_excludes_others() {
    let mut mutex = Mutex::new(1);
    let guard = mutex.try_lock().expect("mutex is locked");
    *mutex.get_guarded_mut(&guard) += 1;
    assert_eq!(2, *mutex.get(&guard));
    assert!(mutex.try_lock().is_none());
    assert!(mutex.try_lock_owned().is_none());
    assert!(mutex.unlock(guard).is_empty());
    let owned = mutex.try_lock_owned().expect("mutex is unlocked");
    assert!(mutex.try_lock().is_none());
    mutex.unlock_owned(owned);
    assert!(mutex.try_lock().is_some());
}

#[test]
fn mutex_unlock_hands_over_in_order() {
    let mut mutex = Mutex::new(0);
    let guard = mutex.try_lock().unwrap();
    let mut a = mutex.lock();
    let mut b = mutex.lock();
    assert!(!mutex.poll_lock(&mut a));
    assert!(!mutex.poll_lock(&mut b));
    let woken = mutex.unlock(guard);
    assert_eq!(woken.len(), 1);
    assert!(mutex.poll_lock(&mut a));
    assert!(!mutex.poll_lock(&mut b));
    assert!(mutex.try_lock().is_none());
    let guard_a = mutex.locked(a);
    *mutex.get_guarded_mut(&guard_a) = 1;
    let woken = mutex.unlock(guard_a);
    assert_eq!(woken.len(), 1);
    assert!(mutex.poll_lock(&mut b));
    let guard_b = mutex.locked(b);
    assert_eq!(*mutex.get(&guard_b), 1);
    mutex.unlock(guard_b);
    assert!(mutex.try_lock().is_some());
}

#[test]
fn mutex_cancelled_lock_is_passed_on() {
    let mut mutex = Mutex::new(0);
    let guard = mutex.try_lock().unwrap();
    let mut a = mutex.lock();
    let mut b = mutex.lock();
    assert!(!mutex.poll_lock(&mut a));
    assert!(!mutex.poll_lock(&mut b));
    mutex.unlock(guard);
    // `a` was handed the lock but gives up before taking it: `b` gets it.
    let woken = mutex.cancel_lock(a);
    assert_eq!(woken.len(), 1);
    assert!(mutex.poll_lock(&mut b));
    let guard_b = mutex.locked(b);
    mutex.unlock(guard_b);
    assert!(mutex.try_lock().is_some());
}

#[test]
fn mutex_cancelled_waiter_leaves_queue() {
    let mut mutex = Mutex::new(0);
    let guard = mutex.try_lock().unwrap();
    let mut a = mutex.lock();
    let mut b = mutex.lock();
    assert!(!mutex.poll_lock(&mut a));
    assert!(!mutex.poll_lock(&mut b));
    let b_key = b.index().unwrap();
    // `a` gives up while it still waits: the lock stays held, and `b` is next.
    assert!(mutex.cancel_lock(a).is_empty());
    assert!(mutex.try_lock().is_none());
    assert_eq!(mutex.unlock(guard), vec![b_key]);
    assert!(mutex.poll_lock(&mut b));
}

#[test]
fn mutex_cancelled_last_holder_unlocks() {
    let mut mutex = Mutex::new(0);
    let guard = mutex.try_lock().unwrap();
    let mut a = mutex.lock();
    assert!(!mutex.poll_lock(&mut a));
    assert_eq!(mutex.unlock(guard).len(), 1);
    // `a` was handed the lock and nobody else waits: giving up unlocks the mutex.
    assert!(mutex.cancel_lock(a).is_empty());
    assert!(mutex.try_lock().is_some());
}

#[test]
fn mutex_owned_guard_writes_and_excludes() {
    let mut mutex = Mutex::new(1);
    let guard = mutex.try_lock_owned().unwrap();
    *mutex.get_owned_guarded_mut(&guard) += 1;
    assert_eq!(*mutex.get_owned(&guard), 2);
    assert!(mutex.try_lock_owned().is_none());
    assert!(mutex.unlock_owned(guard).is_empty());
    assert_eq!(mutex.into_inner(), 2);
}
