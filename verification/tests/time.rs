use scream::time::{frame_interval, next_turn, Duration};

#[test]
fn spans_add_and_compare() {
    let a = Duration::new(1, 900_000_000);
    let b = Duration::from_millis(200);
    let c = Duration::from_nanos(1_700_000_000);
    assert_eq!(a.plus(b), Duration::new(2, 100_000_000));
    assert_eq!(a.minus(b), c);
    assert_eq!(a.plus(b).minus(a), b);
    assert!(a.longer_than(c));
    assert!(!c.longer_than(c));
    assert_eq!((c.as_secs(), c.subsec_nanos()), (1, 700_000_000));
    assert_eq!(Duration::from_millis(61_001), Duration::new(61, 1_000_000));
}

#[test]
fn a_frame_takes_its_share_of_a_second() {
    for fps in [1u32, 7, 24, 25, 30, 60, 144, 1_000_000_001] {
        let frame = std::time::Duration::from_secs(1) / fps;
        assert_eq!(frame_interval(fps), Duration::new(frame.as_secs(), frame.subsec_nanos()));
    }
    assert_eq!(frame_interval(0), Duration::from_secs(1));
}

#[test]
fn turns_do_not_drift() {
    let frame = Duration::from_millis(40);
    let mut deadline = Duration::from_secs(0);
    // Each turn takes some of its frame and sleeps for the rest
    for i in 0..10u64 {
        let turn = next_turn(deadline, frame, Duration::from_millis(i * 40 + 3 * i));
        assert_eq!(turn.deadline, Duration::from_millis((i + 1) * 40));
        assert_eq!(turn.wait, Some(Duration::from_millis(40 - 3 * i)));
        deadline = turn.deadline;
    }
}

#[test]
fn a_turn_that_overran_starts_the_next_at_once() {
    let frame = Duration::from_millis(40);
    let turn = next_turn(Duration::from_millis(100), frame, Duration::from_millis(200));
    assert!(turn.wait.is_none());
    assert_eq!(turn.deadline, Duration::from_millis(200));
    let exact = next_turn(Duration::from_millis(100), frame, Duration::from_millis(140));
    assert_eq!(exact.wait, Some(Duration::from_secs(0)));
}
