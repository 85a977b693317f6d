use stream_executor::park::ParkState;

#[test]
fn wakeup_between_prepare_and_park_is_seen() {
    let mut s = ParkState::new();
    let token = s.prepare_park();
    assert!(s.must_wait(&token));
    s.unpark_one();
    assert!(!s.must_wait(&token));
}

#[test]
fn fresh_token_waits_after_earlier_wakeups() {
    let mut s = ParkState::new();
    s.unpark_one();
    s.unpark_one();
    assert_eq!(s.epoch, 2);
    let token = s.prepare_park();
    assert!(s.must_wait(&token));
}

#[test]
fn epoch_wraps() {
    let mut s = ParkState { epoch: u64::MAX };
    let token = s.prepare_park();
    s.unpark_one();
    assert_eq!(s.epoch, 0);
    assert!(!s.must_wait(&token));
}
