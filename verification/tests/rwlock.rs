use std::num::NonZeroUsize;

use mea::rwlock::RwLock;

#[test]
fn test_try_read_write_never_blocks() {
    let mut rwlock = RwLock::new(42);

    let r1 = rwlock.try_read().unwrap();
    let r2 = rwlock.try_read().unwrap();
    assert_eq!(*rwlock.read_value(&r1), 42);
    assert_eq!(*rwlock.read_value(&r2), 42);

    assert!(rwlock.try_write().is_none());

    rwlock.release_read(r1);
    rwlock.release_read(r2);

    let w = rwlock.try_write().unwrap();
    assert_eq!(*rwlock.write_value(&w), 42);

    assert!(rwlock.try_read().is_none());
    assert!(rwlock.try_read_owned().is_none());
}

#[test]
fn test_get_mut_provides_exclusive_access() {
    let mut rwlock = RwLock::new(100);

    let data = rwlock.get_mut();
    *data = 200;

    assert_eq!(*rwlock.get_mut(), 200);

    let inner = rwlock.into_inner();
    assert_eq!(inner, 200);
}

#[test]
fn test_with_max_readers() {
    let mut rwlock = RwLock::with_max_readers(10, NonZeroUsize::new(2).unwrap().get());

    let r1 = rwlock.try_read().unwrap();
    let r2 = rwlock.try_read().unwrap();
    assert_eq!(*rwlock.read_value(&r1), 10);
    assert_eq!(*rwlock.read_value(&r2), 10);

    assert!(rwlock.try_read().is_none());

    assert!(rwlock.try_write().is_none());

    rwlock.release_read(r1);

    let r3 = rwlock.try_read().unwrap();
    assert_eq!(*rwlock.read_value(&r3), 10);

    assert!(rwlock.try_read().is_none());

    rwlock.release_read(r2);
    rwlock.release_read(r3);

    let w = rwlock.try_write().unwrap();
    *rwlock.write_value(&w) = 20;
    rwlock.release_write(w);

    let r = rwlock.try_read().unwrap();
    assert_eq!(*rwlock.read_value(&r), 20);
}

#[test]
fn rwlock_downgrade_keeps_writers_out() {
    let mut rwlock = RwLock::with_max_readers(1, 3);
    let w = rwlock.try_write_owned().unwrap();
    *rwlock.write_owned_value(&w) = 42;
    let (r, woken) = rwlock.downgrade(w);
    assert!(woken.is_empty());
    assert_eq!(*rwlock.read_owned_value(&r), 42);
    assert!(rwlock.try_write_owned().is_none());
    let r2 = rwlock.try_read().unwrap();
    rwlock.release_read(r2);
    rwlock.release_read_owned(r);
    assert!(rwlock.try_write_owned().is_some());
}

#[test]
fn rwlock_writer_waits_in_queue() {
    let mut rwlock = RwLock::with_max_readers(0u8, 2);
    let r = rwlock.try_read().unwrap();
    let mut writer = rwlock.write();
    assert!(!rwlock.poll_acquire(&mut writer));
    assert!(!rwlock.poll_acquire(&mut writer));
    let woken = rwlock.release_read(r);
    assert_eq!(woken.len(), 1);
    assert!(rwlock.poll_acquire(&mut writer));
    let w = rwlock.write_acquired(writer);
    assert!(rwlock.try_read().is_none());
    *rwlock.write_value(&w) = 9;
    rwlock.release_write(w);
    let r = rwlock.try_read().unwrap();
    assert_eq!(*rwlock.read_value(&r), 9);
}

#[test]
fn rwlock_cancelled_writer_passes_its_permits_on() {
    let mut rwlock = RwLock::with_max_readers(0u8, 2);
    let r = rwlock.try_read().unwrap();
    let mut writer = rwlock.write();
    assert!(!rwlock.poll_acquire(&mut writer));
    let mut reader = rwlock.read();
    assert!(!rwlock.poll_acquire(&mut reader));
    let reader_key = reader.index().unwrap();
    // The writer took the one free permit; giving up hands it to the waiting reader.
    assert_eq!(rwlock.cancel_acquire(writer), vec![reader_key]);
    assert!(rwlock.poll_acquire(&mut reader));
    let r2 = rwlock.read_acquired(reader);
    rwlock.release_read(r2);
    rwlock.release_read(r);
    assert!(rwlock.try_write().is_some());
}
