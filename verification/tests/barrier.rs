use mea::barrier::Barrier;

#[test]
fn barrier_last_arrival_leads() {
    let mut barrier = Barrier::new(3);
    let g1 = barrier.wait().err().unwrap();
    let g2 = barrier.wait().err().unwrap();
    assert_eq!(g1, 0);
    assert_eq!(g2, 0);
    assert!(barrier.poll_wait(g1).is_none());
    let leader = barrier.wait().ok().unwrap();
    assert!(leader.is_leader());
    let follower = barrier.poll_wait(g1).unwrap();
    assert!(!follower.is_leader());
    assert!(!barrier.poll_wait(g2).unwrap().is_leader());
}

#[test]
fn barrier_is_reusable() {
    let mut barrier = Barrier::new(2);
    assert!(barrier.wait().is_err());
    assert!(barrier.wait().is_ok());
    let g = barrier.wait().err().unwrap();
    assert_eq!(g, 1);
    assert!(barrier.poll_wait(g).is_none());
    assert!(barrier.wait().ok().unwrap().is_leader());
    assert!(barrier.poll_wait(g).is_some());
}

#[test]
fn barrier_of_zero_acts_as_one() {
    let mut barrier = Barrier::new(0);
    assert!(barrier.wait().ok().unwrap().is_leader());
    assert!(barrier.wait().ok().unwrap().is_leader());
}
