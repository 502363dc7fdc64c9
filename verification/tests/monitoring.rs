use kvs_streamer::clock::Moment;
use kvs_streamer::monitoring::Stats;
use kvs_streamer::streaming::camera::FramerateStats;

fn later(seconds: u128) -> Moment {
    Moment { nanos: seconds * 1_000_000_000 }
}

#[test]
fn calls_are_counted_by_label() {
    let mut stats = Stats::default().rename("camera");
    stats.record("grab", 10);
    stats.record("copy", 1);
    stats.record("grab", 32);
    stats.print_calls_at(Moment { nanos: 0 });
    assert!(stats.collect_reports().is_empty());
    stats.print_calls_at(later(5));
    let reports = stats.collect_reports();
    assert_eq!(reports.len(), 1);
    assert_eq!(reports[0].name, "camera");
    let calls: Vec<_> = reports[0].calls.iter().map(|call| (call.label, call.count, call.total)).collect();
    assert_eq!(calls, vec![("grab", 2, 42), ("copy", 1, 1)]);
}

#[test]
fn counting_begins_anew_after_a_report() {
    let mut stats = Stats::default();
    stats.record("a", 1);
    stats.print_calls_at(later(10));
    stats.record("a", 2);
    stats.print_calls_at(later(10));
    stats.print_calls_at(Moment { nanos: 10_999_999_999 });
    assert_eq!(stats.collect_reports().len(), 1);
    stats.print_calls_at(later(11));
    let reports = stats.collect_reports();
    assert_eq!(reports.len(), 1);
    assert_eq!(reports[0].name, "");
    assert_eq!((reports[0].calls[0].count, reports[0].calls[0].total), (1, 2));
    assert!(stats.collect_reports().is_empty());
}

#[test]
fn no_call_is_lost() {
    let mut stats = Stats::default();
    let mut count = 0;
    let mut total = 0;
    for round in 1..=5u128 {
        for took in 0..round {
            stats.record("a", took);
            stats.record("b", 1000);
        }
        stats.print_calls_at(later(10 * round));
    }
    for report in stats.collect_reports() {
        for call in report.calls.iter().filter(|call| call.label == "a") {
            count += call.count;
            total += call.total;
        }
    }
    assert_eq!((count, total), (15, 20));
}

#[test]
fn function_is_called_and_counted() {
    let mut stats = Stats::default();
    let mut calls = 0;
    let output = stats.increment("work", || {
        calls += 1;
        41 + 1
    });
    assert_eq!(output, 42);
    assert_eq!(calls, 1);
    let timer = stats.take("work");
    timer.finish();
    stats.print_calls_at(later(100));
    let reports = stats.collect_reports();
    assert_eq!(reports[0].calls.len(), 1);
    assert_eq!(reports[0].calls[0].count, 2);
}

#[test]
fn calls_are_timed_in_milliseconds() {
    let mut stats = Stats::default();
    stats.increment("wait", || {
        let start = std::time::Instant::now();
        while start.elapsed().as_millis() < 20 {}
    });
    stats.print_calls_at(later(100));
    let reports = stats.collect_reports();
    let total = reports[0].calls[0].total;
    assert!((20..15_000).contains(&total));
}

#[test]
fn only_labels_of_calls_since_the_last_report_are_there() {
    let mut stats = Stats::default();
    stats.record("a", 1);
    stats.record("a", 1);
    stats.record("b", 1);
    stats.print_calls_at(later(10));
    // An earlier time makes no report, and does not put off the next one.
    stats.record("b", 5);
    stats.print_calls_at(later(3));
    stats.print_calls_at(later(11));
    let reports = stats.collect_reports();
    let counts: Vec<Vec<_>> = reports
        .iter()
        .map(|report| report.calls.iter().map(|call| (call.label, call.count)).collect())
        .collect();
    assert_eq!(counts, vec![vec![("a", 2), ("b", 1)], vec![("b", 1)]]);
}

#[test]
fn every_frame_is_told_once() {
    let mut stats = FramerateStats::default();
    let mut told = 0;
    for number in 0..100u128 {
        if let Some(rate) = stats.tick_at(Moment { nanos: (100 + number) * 300_000_000 }) {
            told += rate;
        }
        assert!(stats.count() >= 1);
        assert_eq!(told + stats.count(), number as usize + 1);
    }
    assert!(told > 0);
}

#[test]
fn label_is_full_at_the_limit() {
    let mut stats = Stats::default();
    assert!(stats.has_room("a"));
    for _ in 0..u16::MAX {
        stats.record("a", 0);
    }
    assert!(!stats.has_room("a"));
    assert!(stats.has_room("b"));
}

#[test]
fn frames_are_counted_by_the_second() {
    let mut stats = FramerateStats::default();
    assert_eq!(stats.count(), 0);
    assert_eq!(stats.tick_at(Moment { nanos: 0 }), None);
    assert_eq!(stats.tick(), None);
    assert_eq!(stats.count(), 2);
    assert_eq!(stats.tick_at(later(10)), Some(2));
    assert_eq!(stats.count(), 1);
    assert_eq!(stats.tick_at(later(11)), None);
    assert_eq!(stats.tick_at(Moment { nanos: 11_001_000_000 }), Some(2));
}
