use kvs_streamer::clock::{Clock, Moment};

#[test]
fn time_is_counted_in_whole_milliseconds() {
    let start = Moment { nanos: 500 };
    let end = Moment { nanos: 2_000_499 };
    assert_eq!(end.millis_since(start), 1);
    assert_eq!(Moment { nanos: 2_000_500 }.millis_since(start), 2);
}

#[test]
fn no_time_goes_by_backwards() {
    let start = Moment { nanos: 5_000_000 };
    let end = Moment { nanos: 1 };
    assert_eq!(end.millis_since(start), 0);
}

#[test]
fn clock_does_not_run_backwards() {
    let clock = Clock::start();
    let copy = clock;
    let first = clock.now();
    let second = copy.now();
    assert!(first.nanos <= second.nanos);
    assert!(second.nanos < 60_000_000_000);
}
