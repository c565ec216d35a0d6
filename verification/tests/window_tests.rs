use top_logs::window::{LogDuration, Timestamp};

fn at(seconds: i64, nanos: u32) -> Timestamp {
    Timestamp { seconds, nanos }
}

#[test]
fn new_window_is_inside_out() {
    let window = LogDuration::new();
    assert_eq!(window.start, at(i64::MAX, u32::MAX));
    assert_eq!(window.end, at(i64::MIN, 0));
    assert!(window.end.is_before(&window.start));
}

#[test]
fn first_observation_sets_both_ends() {
    let mut window = LogDuration::new();
    window.observe(at(1_552_619_825, 250));
    assert_eq!(window.start, at(1_552_619_825, 250));
    assert_eq!(window.end, at(1_552_619_825, 250));
}

#[test]
fn first_observation_of_an_extreme_instant_sets_both_ends() {
    let mut window = LogDuration::new();
    window.observe(at(i64::MAX, u32::MAX));
    assert_eq!(window.start, at(i64::MAX, u32::MAX));
    assert_eq!(window.end, at(i64::MAX, u32::MAX));

    let mut window = LogDuration::new();
    window.observe(at(i64::MIN, 0));
    assert_eq!(window.start, at(i64::MIN, 0));
    assert_eq!(window.end, at(i64::MIN, 0));
}

#[test]
fn window_keeps_the_earliest_and_the_latest() {
    let mut window = LogDuration::new();
    window.observe(at(100, 0));
    window.observe(at(50, 999_999_999));
    window.observe(at(200, 1));
    window.observe(at(200, 0));
    window.observe(at(75, 0));
    assert_eq!(window.start, at(50, 999_999_999));
    assert_eq!(window.end, at(200, 1));
    assert!(!window.end.is_before(&window.start));
}

#[test]
fn instants_are_ordered_by_seconds_then_nanoseconds() {
    assert!(at(1, 999_999_999).is_before(&at(2, 0)));
    assert!(at(2, 0).is_before(&at(2, 1)));
    assert!(!at(2, 1).is_before(&at(2, 1)));
    assert!(!at(2, 1).is_before(&at(2, 0)));
    assert!(at(-5, 0).is_before(&at(-4, 0)));
}

#[test]
fn observations_in_either_order_leave_the_same_window() {
    let mut one = LogDuration::new();
    one.observe(at(10, 0));
    one.observe(at(20, 0));
    let mut other = LogDuration::new();
    other.observe(at(20, 0));
    other.observe(at(10, 0));
    assert_eq!(one, other);
}
