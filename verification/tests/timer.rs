use mini_raft::timer::{
    heartbeat_interval, random_election_timeout, Timer, ELECTION_TIMEOUT_MAX,
    ELECTION_TIMEOUT_MIN, HEARTBEAT_INTERVAL,
};

#[test]
fn new_timer_elapses_after_its_duration() {
    let timer = Timer::new(1_000, 150);
    assert_eq!(timer.deadline, 1_150);
    assert_eq!(timer.duration, 150);
    assert!(!timer.is_elapsed(1_000));
    assert!(!timer.is_elapsed(1_149));
    assert!(timer.is_elapsed(1_150));
    assert!(timer.is_elapsed(2_000));
}

#[test]
fn timer_without_duration_elapses_at_once() {
    let timer = Timer::new(40, 0);
    assert!(timer.is_elapsed(40));
    assert!(!timer.is_elapsed(39));
}

#[test]
fn reset_keeps_the_duration() {
    let mut timer = Timer::new(0, 50);
    assert!(timer.is_elapsed(50));
    timer.reset(50);
    assert_eq!(timer, Timer { deadline: 100, duration: 50 });
    assert!(!timer.is_elapsed(99));
    assert!(timer.is_elapsed(100));
}

#[test]
fn reset_discards_the_old_deadline() {
    let mut timer = Timer::new(0, 300);
    timer.reset(10);
    assert_eq!(timer.deadline, 310);
    timer.reset(5);
    assert_eq!(timer.deadline, 305);
}

#[test]
fn reset_with_takes_a_new_duration() {
    let mut timer = Timer::new(0, 50);
    timer.reset_with(20, 200);
    assert_eq!(timer, Timer { deadline: 220, duration: 200 });
    timer.reset(30);
    assert_eq!(timer, Timer { deadline: 230, duration: 200 });
}

#[test]
fn timer_can_reach_the_end_of_the_clock() {
    let timer = Timer::new(u64::MAX - 50, 50);
    assert_eq!(timer.deadline, u64::MAX);
    assert!(!timer.is_elapsed(u64::MAX - 1));
    assert!(timer.is_elapsed(u64::MAX));
}

#[test]
fn heartbeat_interval_is_fifty_milliseconds() {
    assert_eq!(heartbeat_interval(), 50);
    assert_eq!(HEARTBEAT_INTERVAL, 50);
}

#[test]
fn election_timeout_lies_in_its_range() {
    assert_eq!(ELECTION_TIMEOUT_MIN, 150);
    assert_eq!(ELECTION_TIMEOUT_MAX, 300);
    for _ in 0..1_000 {
        let millis = random_election_timeout();
        assert!((150..=300).contains(&millis));
    }
}

#[test]
fn election_timeouts_differ() {
    let first = random_election_timeout();
    let mut other = false;
    for _ in 0..1_000 {
        if random_election_timeout() != first {
            other = true;
        }
    }
    assert!(other);
}

#[test]
fn heartbeat_is_shorter_than_any_election_timeout() {
    assert!(heartbeat_interval() < ELECTION_TIMEOUT_MIN);
}
