use mea::once::Once;
use mea::once::OnceCell;

#[test]
fn once_completes_once() {
    let mut once = Once::new();
    assert!(!once.is_completed());
    let mut first = once.acquire();
    assert!(once.poll_acquire(&mut first));
    let mut second = once.acquire();
    assert!(!once.poll_acquire(&mut second));
    let permit = once.acquired(first);
    let woken = once.complete(permit);
    assert_eq!(woken.len(), 1);
    assert!(once.is_completed());
    assert!(once.poll_acquire(&mut second));
    // The second caller finds the work done and gives its permit back.
    let permit = once.acquired(second);
    once.abandon(permit);
    assert!(once.is_completed());
}

#[test]
fn once_abandoned_attempt_lets_next_try() {
    let mut once = Once::new();
    let mut first = once.acquire();
    assert!(once.poll_acquire(&mut first));
    let permit = once.acquired(first);
    once.abandon(permit);
    assert!(!once.is_completed());
    let mut again = once.acquire();
    assert!(once.poll_acquire(&mut again));
    let permit = once.acquired(again);
    once.complete(permit);
    assert!(once.is_completed());
}

#[test]
fn once_cell_set_then_get() {
    let mut cell = OnceCell::new();
    assert!(cell.get().is_none());
    let mut init = cell.acquire();
    assert!(cell.poll_acquire(&mut init));
    let permit = cell.acquired(init);
    cell.set_value(42, permit);
    assert_eq!(cell.get(), Some(&42));
}

#[test]
fn once_cell_failed_init_leaves_cell_empty() {
    let mut cell: OnceCell<u32> = OnceCell::new();
    let mut init = cell.acquire();
    assert!(cell.poll_acquire(&mut init));
    let permit = cell.acquired(init);
    cell.abandon(permit);
    assert!(cell.get().is_none());
    let mut init = cell.acquire();
    assert!(cell.poll_acquire(&mut init));
    let permit = cell.acquired(init);
    cell.set_value(15, permit);
    assert_eq!(cell.get(), Some(&15));
}

#[test]
fn once_cancelled_waiter_passes_permit_on() {
    let mut once = Once::new();
    let mut first = once.acquire();
    assert!(once.poll_acquire(&mut first));
    let mut second = once.acquire();
    assert!(!once.poll_acquire(&mut second));
    let mut third = once.acquire();
    assert!(!once.poll_acquire(&mut third));
    let third_key = third.index().unwrap();
    let permit = once.acquired(first);
    // The permit goes to the second caller, which is cancelled before it runs.
    assert_eq!(once.abandon(permit).len(), 1);
    assert_eq!(once.cancel_acquire(second), vec![third_key]);
    assert!(once.poll_acquire(&mut third));
    let permit = once.acquired(third);
    once.complete(permit);
    assert!(once.is_completed());
}

#[test]
fn once_cell_cancelled_waiter_leaves_queue() {
    let mut cell: OnceCell<u8> = OnceCell::new();
    let mut first = cell.acquire();
    assert!(cell.poll_acquire(&mut first));
    let mut second = cell.acquire();
    assert!(!cell.poll_acquire(&mut second));
    assert!(cell.cancel_acquire(second).is_empty());
    let permit = cell.acquired(first);
    assert!(cell.set_value(7, permit).is_empty());
    assert_eq!(cell.get(), Some(&7));
}

#[test]
fn once_second_caller_finds_work_done() {
    let mut once = Once::new();
    let mut first = once.acquire();
    assert!(once.poll_acquire(&mut first));
    let mut second = once.acquire();
    assert!(!once.poll_acquire(&mut second));
    let permit = once.begin_call(once.acquired(first)).ok().unwrap();
    assert_eq!(once.complete(permit).len(), 1);
    assert!(once.poll_acquire(&mut second));
    // The second caller checks again under the permit and gives it back unused.
    let permit = once.acquired(second);
    assert!(once.begin_call(permit).err().unwrap().is_empty());
    assert!(once.is_completed());
}

#[test]
fn once_cell_init_error_then_success() {
    let mut cell: OnceCell<u8> = OnceCell::new();
    let mut init = cell.acquire();
    assert!(cell.poll_acquire(&mut init));
    let permit = cell.begin_init(cell.acquired(init)).ok().unwrap();
    let (res, woken) = cell.finish_init(permit, Err::<u8, ()>(()));
    assert_eq!(res, Err(()));
    assert!(woken.is_empty());
    assert!(cell.get().is_none());
    let mut init = cell.acquire();
    assert!(cell.poll_acquire(&mut init));
    let permit = cell.begin_init(cell.acquired(init)).ok().unwrap();
    assert_eq!(cell.finish_init(permit, Ok::<u8, ()>(2)).0, Ok(()));
    assert_eq!(cell.get(), Some(&2));
    let mut again = cell.acquire();
    assert!(cell.poll_acquire(&mut again));
    assert!(cell.begin_init(cell.acquired(again)).is_err());
    assert_eq!(cell.get(), Some(&2));
}
