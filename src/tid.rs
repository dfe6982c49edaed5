//! Transaction identifiers from the wall clock: minutes since 1900 in the
//! high 32 bits, the second scaled to 2^32 in the low 32 bits.

use vstd::prelude::*;

use crate::util::{be64, p64, u64_of, Tid};

verus! {

/// A UTC date and time of day, as the clock reports it.
#[derive(Debug, Clone, Copy, PartialEq, Eq)]
pub struct DateTime {
    pub year: i32,
    pub month: u8,
    pub day: u8,
    pub hour: u8,
    pub minute: u8,
    pub second: u8,
    pub nanosecond: u32,
}

/// Each field lies in its calendar range.
pub open spec fn datetime_wf(dt: DateTime) -> bool {
    &&& 1 <= dt.month <= 12
    &&& 1 <= dt.day <= 31
    &&& dt.hour < 24
    &&& dt.minute < 60
    &&& dt.second < 60
    &&& dt.nanosecond < 1_000_000_000
}

/// Minutes since 1900, counting every month as 31 days.
pub open spec fn tid_minutes(dt: DateTime) -> int {
    ((((dt.year - 1900) * 12 + dt.month - 1) * 31 + dt.day - 1) * 24 + dt.hour) * 60 + dt.minute
}

/// The position within the minute, scaled so that a minute is 2^32.
pub open spec fn tid_seconds(dt: DateTime) -> int {
    ((dt.second * 1_000_000_000 + dt.nanosecond) * 0x1_0000_0000) / 60_000_000_000
}

/// The clock reading can be stamped: not before 1900, and its minutes fit
/// in 32 bits.
pub open spec fn tid_in_range(dt: DateTime) -> bool {
    datetime_wf(dt) && dt.year >= 1900 && tid_minutes(dt) < 0x1_0000_0000
}

/// The value of the identifier stamped for `dt`.
pub open spec fn tid_value(dt: DateTime) -> int {
    tid_minutes(dt) * 0x1_0000_0000 + tid_seconds(dt)
}

/// The identifier for the clock reading `dt`.
pub fn tm_tid(dt: &DateTime) -> (r: Tid)
    requires
        tid_in_range(*dt),
    ensures
        be64(r@) == tid_value(*dt),
{
    let y: u64 = (dt.year - 1900) as u64;
    let days: u64 = (y * 12 + dt.month as u64 - 1) * 31 + dt.day as u64 - 1;
    assert(days == ((dt.year - 1900) * 12 + dt.month - 1) * 31 + dt.day - 1) by (nonlinear_arith)
        requires
            y == dt.year - 1900,
            days == (y * 12 + dt.month - 1) * 31 + dt.day - 1,
    ;
    let minutes: u64 = (days * 24 + dt.hour as u64) * 60 + dt.minute as u64;
    let fraction: u64 = dt.second as u64 * 1_000_000_000 + dt.nanosecond as u64;
    let seconds: u64 = ((fraction as u128 * 0x1_0000_0000u128) / 60_000_000_000u128) as u64;
    assert(seconds < 0x1_0000_0000) by (nonlinear_arith)
        requires
            fraction < 60_000_000_000,
            seconds == (fraction * 0x1_0000_0000) / 60_000_000_000,
    ;
    assert(minutes * 0x1_0000_0000 + seconds < 0x1_0000_0000_0000_0000) by (nonlinear_arith)
        requires
            minutes < 0x1_0000_0000,
            seconds < 0x1_0000_0000,
    ;
    p64(minutes * 0x1_0000_0000 + seconds)
}

/// The identifier just after `tid`.
pub fn next(tid: &Tid) -> (r: Tid)
    requires
        be64(tid@) < u64::MAX,
    ensures
        be64(r@) == be64(tid@) + 1,
{
    p64(u64_of(tid) + 1)
}

/// `new` if it comes after `old`, else the identifier just after `old`.
pub fn later_than(new: Tid, old: Tid) -> (r: Tid)
    requires
        be64(new@) > be64(old@) || be64(old@) < u64::MAX,
    ensures
        be64(r@) == if be64(new@) > be64(old@) {
            be64(new@)
        } else {
            (be64(old@) + 1) as u64
        },
        be64(r@) > be64(old@),
{
    if u64_of(&new) > u64_of(&old) {
        new
    } else {
        next(&old)
    }
}

/// Relies on time::OffsetDateTime::now_utc and its accessors, whose
/// documentation gives each field's range.
#[verifier::external_body]
fn now_utc() -> (r: DateTime)
    ensures
        datetime_wf(r),
{
    let t = time::OffsetDateTime::now_utc();
    DateTime {
        year: t.year(),
        month: t.month() as u8,
        day: t.day(),
        hour: t.hour(),
        minute: t.minute(),
        second: t.second(),
        nanosecond: t.nanosecond(),
    }
}

/// The identifier for the clock reading `dt`, or zero where the reading
/// falls outside the stampable range.
pub fn clock_tid(dt: &DateTime) -> (r: Tid)
    requires
        datetime_wf(*dt),
    ensures
        tid_in_range(*dt) ==> be64(r@) == tid_value(*dt),
        !tid_in_range(*dt) ==> be64(r@) == 0,
{
    if dt.year < 1900 || dt.year > 9999 {
        return p64(0);
    }
    let y: u64 = (dt.year - 1900) as u64;
    let days: u64 = (y * 12 + dt.month as u64 - 1) * 31 + dt.day as u64 - 1;
    let minutes: u64 = (days * 24 + dt.hour as u64) * 60 + dt.minute as u64;
    assert(minutes == tid_minutes(*dt)) by (nonlinear_arith)
        requires
            y == dt.year - 1900,
            days == (y * 12 + dt.month - 1) * 31 + dt.day - 1,
            minutes == (days * 24 + dt.hour) * 60 + dt.minute,
    ;
    if minutes >= 0x1_0000_0000 {
        return p64(0);
    }
    tm_tid(dt)
}

/// The identifier for the current time: a candidate that `later_than`
/// then orders after the last one handed out.
pub fn now_tid() -> (r: Tid)
    ensures
        exists|dt: DateTime|
            datetime_wf(dt) && (tid_in_range(dt) ==> be64(r@) == tid_value(dt)) && (!tid_in_range(
                dt,
            ) ==> be64(r@) == 0),
{
    let dt = now_utc();
    let r = clock_tid(&dt);
    assert(datetime_wf(dt) && (tid_in_range(dt) ==> be64(r@) == tid_value(dt)) && (!tid_in_range(dt)
        ==> be64(r@) == 0));
    r
}

} // verus!
