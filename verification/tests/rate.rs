use kez::rate::RateControl;

const MILLI: u128 = 1_000_000;

#[test]
fn interval_starts_at_twice_the_minimum() {
    let rate = RateControl::new(1_000, 60_000, 17);
    assert_eq!(rate.interval(), 2_000 * MILLI);
    assert_eq!(rate.last_timestamp(), 17);
    assert_eq!(rate.deadline(), 17 + 2_000 * MILLI);
}

#[test]
fn accelerate_takes_a_tenth_off() {
    let mut rate = RateControl::new(1_000, 60_000, 0);
    rate.accelerate();
    assert_eq!(rate.interval(), 1_800 * MILLI);
    rate.accelerate();
    assert_eq!(rate.interval(), 1_620 * MILLI);
    rate.accelerate();
    assert_eq!(rate.interval(), 1_458 * MILLI);
    rate.accelerate();
    assert_eq!(rate.interval(), 1_312_200_000);
}

#[test]
fn accelerate_stops_at_the_minimum() {
    let mut rate = RateControl::new(1_000, 60_000, 0);
    for _ in 0..6 {
        rate.accelerate();
    }
    assert_eq!(rate.interval(), 1_062_882_000);
    rate.accelerate();
    assert_eq!(rate.interval(), 1_000 * MILLI);
    rate.accelerate();
    assert_eq!(rate.interval(), 1_000 * MILLI);
}

#[test]
fn decelerate_adds_a_third() {
    let mut rate = RateControl::new(1_500, 60_000, 0);
    rate.decelerate();
    assert_eq!(rate.interval(), 4_000 * MILLI);
    rate.decelerate();
    assert_eq!(rate.interval(), 5_333_333_333);
    rate.decelerate();
    assert_eq!(rate.interval(), 7_111_111_110);
}

#[test]
fn decelerate_stops_at_the_maximum() {
    let mut rate = RateControl::new(1_000, 3_000, 0);
    rate.decelerate();
    assert_eq!(rate.interval(), 2_666_666_666);
    rate.decelerate();
    assert_eq!(rate.interval(), 3_000 * MILLI);
    rate.decelerate();
    assert_eq!(rate.interval(), 3_000 * MILLI);
}

#[test]
fn interval_above_the_maximum_comes_down_when_stretched() {
    let mut rate = RateControl::new(5_000, 3_000, 0);
    assert_eq!(rate.interval(), 10_000 * MILLI);
    rate.decelerate();
    assert_eq!(rate.interval(), 3_000 * MILLI);
    rate.accelerate();
    assert_eq!(rate.interval(), 5_000 * MILLI);
}

#[test]
fn widest_bounds_do_not_overflow() {
    let mut rate = RateControl::new(u64::MAX, u64::MAX, 0);
    assert_eq!(rate.interval(), 2 * (u64::MAX as u128) * MILLI);
    rate.decelerate();
    assert_eq!(rate.interval(), (u64::MAX as u128) * MILLI);
    rate.accelerate();
    assert_eq!(rate.interval(), (u64::MAX as u128) * MILLI);
}

#[test]
fn wait_before_the_deadline_asks_for_the_rest() {
    let mut rate = RateControl::new(1_000, 60_000, 100);
    assert_eq!(rate.wait(100), Some(2_000 * MILLI));
    assert_eq!(rate.wait(600 * MILLI), Some(1_400 * MILLI + 100));
    assert_eq!(rate.wait(2_000 * MILLI + 99), Some(1));
    assert_eq!(rate.last_timestamp(), 100);
}

#[test]
fn wait_from_the_deadline_on_lets_the_request_go() {
    let mut rate = RateControl::new(1_000, 60_000, 100);
    assert_eq!(rate.wait(2_000 * MILLI + 100), None);
    assert_eq!(rate.last_timestamp(), 2_000 * MILLI + 100);
    assert_eq!(rate.wait(9_000 * MILLI), None);
    assert_eq!(rate.last_timestamp(), 9_000 * MILLI);
}

#[test]
fn two_requests_are_one_interval_apart() {
    let mut rate = RateControl::new(1_000, 60_000, 0);
    let first = 5_000 * MILLI;
    assert_eq!(rate.wait(first), None);
    let work = 1_700 * MILLI;
    let pause = rate.wait(first + work).expect("the interval is not over");
    assert_eq!(pause, 300 * MILLI);
    let second = first + work + pause;
    assert_eq!(rate.wait(second), None);
    assert_eq!(second - first, rate.interval());
    assert_eq!(rate.last_timestamp(), first + 2_000 * MILLI);
}

#[test]
fn long_work_is_followed_by_the_next_request_at_once() {
    let mut rate = RateControl::new(1_000, 60_000, 0);
    let first = 5_000 * MILLI;
    assert_eq!(rate.wait(first), None);
    assert_eq!(rate.wait(first + 2_000 * MILLI), None);
    assert_eq!(rate.wait(first + 7_000 * MILLI), None);
    assert_eq!(rate.last_timestamp(), first + 7_000 * MILLI);
}

#[test]
fn postpone_puts_the_deadline_off() {
    let mut rate = RateControl::new(1_000, 60_000, 50);
    rate.postpone(2_000 * MILLI);
    assert_eq!(rate.last_timestamp(), 2_000 * MILLI + 50);
    assert_eq!(rate.deadline(), 4_000 * MILLI + 50);
    assert_eq!(rate.interval(), 2_000 * MILLI);
}
