//! Points in time on the UTC time line, and the few calendar computations the
//! bookkeeping needs. The calendar arithmetic itself is left to `chrono`.

use vstd::prelude::*;

verus! {

/// The earliest second `chrono` can represent: -262143-01-01T00:00:00.
pub const MIN_TIMESTAMP: i64 = -8_334_601_228_800;

/// The last second `chrono` can represent: +262142-12-31T23:59:59.
pub const MAX_TIMESTAMP: i64 = 8_210_266_876_799;

pub const NANOS_PER_SECOND: u32 = 1_000_000_000;

pub const SECONDS_PER_DAY: i64 = 86_400;

/// A date and time read as UTC: whole seconds since 1970-01-01T00:00:00 and the
/// nanoseconds elapsed in that second (the plain content of a `NaiveDateTime`).
#[derive(Clone, Copy, Debug, PartialEq, Eq, Structural)]
pub struct Moment {
    pub secs: i64,
    pub nanos: u32,
}

impl Moment {
    /// Inside the range of the calendar, and not inside a leap second.
    pub open spec fn wf(self) -> bool {
        &&& MIN_TIMESTAMP <= self.secs <= MAX_TIMESTAMP
        &&& self.nanos < NANOS_PER_SECOND
    }

    /// The position on the time line, in nanoseconds since the epoch.
    pub open spec fn instant(self) -> int {
        self.secs * 1_000_000_000 + self.nanos
    }

    /// The calendar day, counted in days since 1970-01-01.
    pub open spec fn day(self) -> int {
        self.secs / 86_400
    }

    /// Whether `self` is a moment the calendar can hold.
    pub fn is_valid(&self) -> (r: bool)
        ensures
            r == self.wf(),
    {
        MIN_TIMESTAMP <= self.secs && self.secs <= MAX_TIMESTAMP && self.nanos < NANOS_PER_SECOND
    }

    /// Midnight at the start of a calendar day.
    pub fn start_of_day(day: i64) -> (r: Moment)
        requires
            MIN_TIMESTAMP <= day * 86_400 <= MAX_TIMESTAMP,
        ensures
            r.wf(),
            r.secs == day * 86_400,
            r.nanos == 0,
            r.day() == day,
    {
        Moment { secs: day * SECONDS_PER_DAY, nanos: 0 }
    }
}

/// Whole seconds in a span of nanoseconds, the fraction cut off toward zero.
pub open spec fn whole_seconds(span: int) -> int {
    if span >= 0 {
        span / 1_000_000_000
    } else {
        -((-span) / 1_000_000_000)
    }
}

/// `a` comes strictly later than `b` in `chrono`'s order of date-times: by the
/// second first, then by the fraction of the second.
pub open spec fn later(a: Moment, b: Moment) -> bool {
    a.secs > b.secs || (a.secs == b.secs && a.nanos > b.nanos)
}

/// Whether `a` comes strictly later than `b`.
pub fn is_after(a: &Moment, b: &Moment) -> (r: bool)
    ensures
        r == later(*a, *b),
{
    a.secs > b.secs || (a.secs == b.secs && a.nanos > b.nanos)
}

/// Outside leap seconds the order of date-times is the order on the time line.
pub proof fn lemma_later_is_time_order(a: Moment, b: Moment)
    requires
        a.nanos < NANOS_PER_SECOND,
        b.nanos < NANOS_PER_SECOND,
    ensures
        later(a, b) == (a.instant() > b.instant()),
{
}

/// `(end - start).num_seconds()` on `chrono`'s `NaiveDateTime`: the span
/// from `start` to `end`, in whole seconds, the fraction cut off toward zero
/// (as `TimeDelta::num_seconds` documents it).
#[verifier::external_body]
pub(crate) fn seconds_between(end: &Moment, start: &Moment) -> (r: i64)
    requires
        end.wf(),
        start.wf(),
    ensures
        r == whole_seconds(end.instant() - start.instant()),
{
    let a = chrono::DateTime::from_timestamp(end.secs, end.nanos).unwrap().naive_utc();
    let b = chrono::DateTime::from_timestamp(start.secs, start.nanos).unwrap().naive_utc();
    (a - b).num_seconds()
}

/// `NaiveDateTime::date` followed by `NaiveDate::to_epoch_days`: the calendar
/// day of a moment, which `chrono` takes as the seconds divided by a day's
/// length, rounded down.
#[verifier::external_body]
pub(crate) fn calendar_day(m: &Moment) -> (d: i64)
    requires
        m.wf(),
    ensures
        d == m.day(),
{
    let t = chrono::DateTime::from_timestamp(m.secs, m.nanos).unwrap().naive_utc();
    t.date().to_epoch_days() as i64
}

/// `DateTime<Utc> + TimeDelta::seconds(delta)` in `chrono`: the moment `delta`
/// seconds later (earlier when negative), with the same fraction of a second.
#[verifier::external_body]
pub(crate) fn shift_seconds(m: &Moment, delta: i64) -> (r: Moment)
    requires
        m.wf(),
        MIN_TIMESTAMP <= m.secs + delta <= MAX_TIMESTAMP,
    ensures
        r.secs == m.secs + delta,
        r.nanos == m.nanos,
{
    let t = chrono::DateTime::from_timestamp(m.secs, m.nanos).unwrap();
    let s = t + chrono::TimeDelta::seconds(delta);
    Moment { secs: s.timestamp(), nanos: s.timestamp_subsec_nanos() }
}

} // verus!
