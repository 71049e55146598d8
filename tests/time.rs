use tg_kernel::timer::{get_time_ms, time_from_halves, timespec_of_ticks};
use tg_kernel::user::{sleep_deadline, sleep_over, time_ms, trace_read, TimeSpec};

#[test]
fn milliseconds_from_ticks() {
    assert_eq!(get_time_ms(0), 0);
    assert_eq!(get_time_ms(9_999), 0);
    assert_eq!(get_time_ms(10_000_000), 1000);
    assert_eq!(get_time_ms(25_000), 2);
}

#[test]
fn counter_from_halves() {
    assert_eq!(time_from_halves(1, 5, 1), Some((1u64 << 32) + 5));
    assert_eq!(time_from_halves(1, 5, 2), None);
}

#[test]
fn clock_gettime_fields() {
    assert_eq!(timespec_of_ticks(12_345_678), (1, 234_567_800));
    assert_eq!(timespec_of_ticks(9_999_999), (0, 999_999_900));
}

#[test]
fn timespec_from_milliseconds() {
    assert_eq!(TimeSpec::from_millsecond(1500), TimeSpec { tv_sec: 1, tv_nsec: 500_000_000 });
    assert_eq!(TimeSpec::from_millsecond(7), TimeSpec { tv_sec: 0, tv_nsec: 7_000_000 });
}

#[test]
fn timespec_addition_carries() {
    let a = TimeSpec { tv_sec: 1, tv_nsec: 700_000_000 };
    let b = TimeSpec { tv_sec: 2, tv_nsec: 400_000_000 };
    assert_eq!(a.add(b), TimeSpec { tv_sec: 4, tv_nsec: 100_000_000 });
    let c = TimeSpec { tv_sec: 0, tv_nsec: 500_000_000 };
    assert_eq!(c.add(c), TimeSpec { tv_sec: 0, tv_nsec: 1_000_000_000 });
}

#[test]
fn ordering_and_sleep() {
    let now = TimeSpec { tv_sec: 3, tv_nsec: 900_000_000 };
    let deadline = sleep_deadline(now, 250).unwrap();
    assert_eq!(deadline, TimeSpec { tv_sec: 4, tv_nsec: 150_000_000 });
    assert!(!sleep_over(now, deadline));
    assert!(!sleep_over(deadline, deadline));
    assert!(sleep_over(TimeSpec { tv_sec: 4, tv_nsec: 150_000_001 }, deadline));
    assert!(TimeSpec { tv_sec: 5, tv_nsec: 0 }.is_after(&deadline));
    assert_eq!(sleep_deadline(TimeSpec { tv_sec: usize::MAX, tv_nsec: 0 }, 5000), None);
}

#[test]
fn milliseconds_of_timespec() {
    assert_eq!(time_ms(TimeSpec { tv_sec: 2, tv_nsec: 345_678_901 }), 2345);
}

#[test]
fn trace_read_decodes_bytes() {
    assert_eq!(trace_read(0), Some(0));
    assert_eq!(trace_read(255), Some(255));
    assert_eq!(trace_read(256), None);
    assert_eq!(trace_read(-1), None);
}
