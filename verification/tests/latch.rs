use mea::latch::Latch;

#[test]
fn test_count_down() {
    let mut latch = Latch::new(3);
    latch.count_down();
    latch.count_down();
    latch.count_down();
    assert_eq!(latch.count(), 0);
}

#[test]
fn test_try_wait() {
    let latch = Latch::new(0);
    assert_eq!(latch.try_wait(), Ok(()));
}

#[test]
fn test_try_wait_err() {
    let latch = Latch::new(3);
    assert_eq!(latch.try_wait(), Err(3));
}

#[test]
fn test_arrive_zero() {
    let mut latch = Latch::new(2);
    latch.arrive(0);
    assert_eq!(latch.count(), 2);
}

#[test]
fn test_more_arrive() {
    let mut latch = Latch::new(10);
    for _ in 0..4 {
        latch.arrive(3);
    }
    assert_eq!(latch.count(), 0);
}

#[test]
fn latch_opens_exactly_once() {
    let mut latch = Latch::new(3);
    assert!(!latch.arrive(2));
    assert_eq!(latch.try_wait(), Err(1));
    assert!(latch.count_down());
    assert_eq!(latch.try_wait(), Ok(()));
    assert!(!latch.count_down());
    assert!(!latch.arrive(5));
    assert_eq!(latch.count(), 0);
}
