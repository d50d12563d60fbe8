//! Times of capture.

use stp_postmortem::binary64::Binary64;
use stp_postmortem::time::{Interval, Moment, Timestamp};

fn value(x: Binary64) -> f64 {
    f64::from_bits(x.to_bits())
}

fn at(sec: u32, usec: u32) -> Timestamp {
    Timestamp { sec, usec }
}

fn machine_seconds(t: Timestamp) -> f64 {
    t.sec as f64 + t.usec as f64 / 1_000_000.0
}

fn machine_ms(a: Timestamp, b: Timestamp) -> f64 {
    (machine_seconds(a) - machine_seconds(b)) * 1000.0
}

const TIMES: [Timestamp; 10] = [
    Timestamp { sec: 0, usec: 0 },
    Timestamp { sec: 0, usec: 1 },
    Timestamp { sec: 1, usec: 500_000 },
    Timestamp { sec: 1_700_000_000, usec: 123_456 },
    Timestamp { sec: 1_700_000_000, usec: 999_999 },
    Timestamp { sec: 1_700_000_010, usec: 123_456 },
    Timestamp { sec: 1_700_000_030, usec: 1 },
    Timestamp { sec: u32::MAX, usec: 999_999 },
    Timestamp { sec: u32::MAX, usec: u32::MAX },
    Timestamp { sec: 5, usec: 4_000_000_000 },
];

#[test]
fn seconds_are_those_of_the_machine() {
    for t in TIMES {
        assert_eq!(value(t.to_f64()).to_bits(), machine_seconds(t).to_bits());
    }
    assert_eq!(value(at(1, 500_000).to_f64()), 1.5);
}

#[test]
fn differences_are_those_of_the_machine() {
    for a in TIMES {
        for b in TIMES {
            assert_eq!(value(a.diff_ms(&b)).to_bits(), machine_ms(a, b).to_bits());
        }
    }
    assert_eq!(value(at(12, 0).diff_ms(&at(2, 0))), 10_000.0);
}

#[test]
fn a_difference_is_mirrored() {
    for a in TIMES {
        assert_eq!(value(a.diff_ms(&a)), 0.0);
        for b in TIMES {
            assert_eq!(value(a.diff_ms(&b)), -value(b.diff_ms(&a)));
        }
    }
}

#[test]
fn time_goes_on() {
    let start = at(1_700_000_000, 0);
    let mut last = start;
    for usec in (0..1_000_000).step_by(9_973) {
        let next = at(1_700_000_001, usec);
        assert!(!next.to_f64().less_than(last.to_f64()));
        assert!(!next.diff_ms(&start).less_than(last.diff_ms(&start)));
        last = next;
    }
}

#[test]
fn whole_seconds_are_exact() {
    for (a, b) in [(10u32, 0u32), (0, 10), (u32::MAX, 0), (1_700_000_030, 1_700_000_000)] {
        assert_eq!(value(at(a, 0).diff_ms(&at(b, 0))), (a as f64 - b as f64) * 1000.0);
    }
}

#[test]
fn more_than_a_second_later_is_a_later_second() {
    for a in TIMES {
        for b in TIMES {
            let proper = a.usec < 1_000_000 && b.usec < 1_000_000;
            if proper && value(a.diff_ms(&b)) > 1000.0 {
                assert!(a.sec > b.sec);
            }
        }
    }
    assert!(value(at(9, 999_999).diff_ms(&at(9, 0))) <= 1000.0);
    assert!(value(at(u32::MAX, 999_999).diff_ms(&at(u32::MAX, 0))) <= 1000.0);
}

#[test]
fn an_interval_is_written_in_whole_milliseconds() {
    for start in TIMES {
        for end in TIMES {
            let mut text = String::new();
            Interval { start, end }.push_ms(&mut text);
            assert_eq!(text, format!("{:.0}", machine_ms(end, start)));
        }
    }
    let mut text = String::new();
    Interval { start: at(1, 0), end: at(3, 250_600) }.push_ms(&mut text);
    assert_eq!(text, "2251");
    assert_eq!(value(Interval { start: at(1, 0), end: at(3, 0) }.ms()), 2000.0);
}

#[test]
fn a_moment_is_a_while_later() {
    for ts in TIMES {
        for (after_ms, delay) in [(0u32, 0.0f64), (100, 0.1), (500, 0.5), (1000, 1.0)] {
            let moment = Moment { ts, after_ms };
            let expected = machine_seconds(ts) + delay;
            assert_eq!(value(moment.to_f64()).to_bits(), expected.to_bits());
        }
    }
}
