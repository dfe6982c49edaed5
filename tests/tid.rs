use byteserver::tid::{clock_tid, later_than, next, tm_tid, DateTime};
use byteserver::util::p64;

#[test]
fn test_later_than() {
    assert_eq!(
        later_than([3, 180, 48, 88, 255, 255, 255, 255], [3, 180, 48, 88, 242, 76, 187, 82]),
        [3, 180, 48, 88, 255, 255, 255, 255]
    );

    assert_eq!(
        later_than([3, 180, 48, 88, 242, 76, 187, 82], [3, 180, 48, 88, 255, 255, 255, 255]),
        [3, 180, 48, 89, 0, 0, 0, 0]
    );
}

#[test]
fn test_tm_tid() {
    let dt = DateTime {
        year: 2016,
        month: 1,
        day: 2,
        hour: 3,
        minute: 4,
        second: 59,
        nanosecond: 999_999_999,
    };
    assert_eq!(tm_tid(&dt), [3, 180, 48, 88, 255, 255, 255, 255]);
    let dt = DateTime { second: 56, nanosecond: 789_000_000, ..dt };
    assert_eq!(tm_tid(&dt), [3, 180, 48, 88, 242, 76, 187, 82]);
}

#[test]
fn later_than_equal_steps_by_one() {
    assert_eq!(later_than(p64(7), p64(7)), p64(8));
    assert_eq!(next(&p64(255)), p64(256));
}

#[test]
fn clock_before_1900_gives_zero() {
    let dt = DateTime { year: 1899, month: 12, day: 31, hour: 23, minute: 59, second: 0, nanosecond: 0 };
    assert_eq!(clock_tid(&dt), p64(0));
    let dt = DateTime { year: 1900, month: 1, day: 1, hour: 0, minute: 1, second: 0, nanosecond: 0 };
    assert_eq!(clock_tid(&dt), p64(1 << 32));
}

#[test]
fn clock_reads_after_2020() {
    let dt = DateTime { year: 2020, month: 1, day: 1, hour: 0, minute: 0, second: 0, nanosecond: 0 };
    let t2020 = byteserver::util::u64_of(&tm_tid(&dt));
    assert!(byteserver::util::u64_of(&byteserver::tid::now_tid()) > t2020);
}
