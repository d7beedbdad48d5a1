//! The daily scheduler's time arithmetic: from a wall-clock "now", the
//! moment of the next broadcast — 08:00:00 on the following calendar day,
//! deliberately the following day even when today's 08:00 is still ahead —
//! and how long to sleep until it, counted in civil seconds.

use vstd::prelude::*;

verus! {

/// Number of seconds in a civil day.
pub const SECS_PER_DAY: u32 = 86400;

/// The fixed second-of-day at which the daily broadcast fires (08:00:00).
pub const BROADCAST_SECOND: u32 = 28800;

/// A proleptic Gregorian calendar date.
#[derive(Clone, Copy, PartialEq, Eq, Structural, Debug)]
pub struct Date {
    pub year: i64,
    pub month: u8,
    pub day: u8,
}

/// A wall-clock moment: a date and the seconds since its midnight.
#[derive(Clone, Copy, PartialEq, Eq, Structural, Debug)]
pub struct LocalTime {
    pub date: Date,
    pub secs: u32,
}

pub open spec fn is_leap_year(y: int) -> bool {
    y % 4 == 0 && (y % 100 != 0 || y % 400 == 0)
}

pub open spec fn days_in_month(y: int, m: int) -> int {
    if m == 2 {
        if is_leap_year(y) {
            29
        } else {
            28
        }
    } else if m == 4 || m == 6 || m == 9 || m == 11 {
        30
    } else {
        31
    }
}

/// Years are kept well inside the range any calendar library offers, so
/// date arithmetic can never overflow.
pub open spec fn valid_date(d: Date) -> bool {
    &&& -300000 <= d.year <= 300000
    &&& 1 <= d.month <= 12
    &&& 1 <= d.day <= days_in_month(d.year as int, d.month as int)
}

pub open spec fn valid_time(t: LocalTime) -> bool {
    valid_date(t.date) && t.secs < SECS_PER_DAY
}

/// The calendar day after `d`.
pub open spec fn next_day_spec(d: Date) -> Date {
    if d.day < days_in_month(d.year as int, d.month as int) {
        Date { year: d.year, month: d.month, day: (d.day + 1) as u8 }
    } else if d.month < 12 {
        Date { year: d.year, month: (d.month + 1) as u8, day: 1 }
    } else {
        Date { year: (d.year + 1) as i64, month: 1, day: 1 }
    }
}

/// Strict calendar order.
pub open spec fn date_lt(a: Date, b: Date) -> bool {
    ||| a.year < b.year
    ||| (a.year == b.year && a.month < b.month)
    ||| (a.year == b.year && a.month == b.month && a.day < b.day)
}

/// Strict order on moments.
pub open spec fn time_lt(a: LocalTime, b: LocalTime) -> bool {
    date_lt(a.date, b.date) || (a.date == b.date && a.secs < b.secs)
}

/// The moment the scheduler aims at from `now`.
pub open spec fn target_of(now: LocalTime) -> LocalTime {
    LocalTime { date: next_day_spec(now.date), secs: BROADCAST_SECOND }
}

fn days_in_month_x(year: i64, month: u8) -> (r: u8)
    requires
        -300000 <= year <= 300000,
        1 <= month <= 12,
    ensures
        r == days_in_month(year as int, month as int),
{
    if month == 2 {
        if year % 4 == 0 && (year % 100 != 0 || year % 400 == 0) {
            29
        } else {
            28
        }
    } else if month == 4 || month == 6 || month == 9 || month == 11 {
        30
    } else {
        31
    }
}

/// The calendar day after `d`.
pub fn next_day(d: Date) -> (r: Date)
    requires
        valid_date(d),
        d.year < 300000,
    ensures
        r == next_day_spec(d),
        valid_date(r),
        date_lt(d, r),
{
    let dim = days_in_month_x(d.year, d.month);
    if d.day < dim {
        Date { year: d.year, month: d.month, day: d.day + 1 }
    } else if d.month < 12 {
        Date { year: d.year, month: d.month + 1, day: 1 }
    } else {
        Date { year: d.year + 1, month: 1, day: 1 }
    }
}

/// The next broadcast moment after `now`, and the civil seconds to sleep
/// until it: always 08:00:00 tomorrow, so the wait is the rest of today
/// plus eight hours, and never zero or negative.
pub fn next_broadcast(now: LocalTime) -> (r: (LocalTime, u64))
    requires
        valid_time(now),
        now.date.year < 300000,
    ensures
        r.0 == target_of(now),
        valid_time(r.0),
        r.1 == SECS_PER_DAY - now.secs + BROADCAST_SECOND,
        r.1 > 0,
        time_lt(now, r.0),
{
    let target = LocalTime { date: next_day(now.date), secs: BROADCAST_SECOND };
    let sleep: u64 = (SECS_PER_DAY - now.secs) as u64 + BROADCAST_SECOND as u64;
    (target, sleep)
}

/// Relies on chrono::Local::now with its Datelike and Timelike accessors:
/// year, month and day of a chrono date always form a valid Gregorian
/// date within about ±262000 years, and num_seconds_from_midnight maps
/// every time of day into 0..=86399. Nothing relates two calls: the
/// result depends on the clock.
#[verifier::external_body]
pub fn local_now() -> (r: LocalTime)
    ensures
        valid_time(r),
        -263000 <= r.date.year <= 263000,
{
    let now = chrono::Local::now();
    let year = chrono::Datelike::year(&now) as i64;
    let month = chrono::Datelike::month(&now) as u8;
    let day = chrono::Datelike::day(&now) as u8;
    let secs = chrono::Timelike::num_seconds_from_midnight(&now);
    LocalTime { date: Date { year, month, day }, secs }
}

/// Whether a moment is a valid calendar moment inside the scheduler's
/// year range; callers can test clock values with this before handing
/// them to `next_broadcast`.
pub fn is_schedulable_moment(t: &LocalTime) -> (r: bool)
    ensures
        r == (valid_time(*t) && t.date.year < 300000),
{
    if t.date.year < -300000 || t.date.year >= 300000 {
        return false;
    }
    if t.date.month < 1 || t.date.month > 12 {
        return false;
    }
    let dim = days_in_month_x(t.date.year, t.date.month);
    1 <= t.date.day && t.date.day <= dim && t.secs < SECS_PER_DAY
}

/// What one wake of the scheduler does.
#[derive(Debug, PartialEq, Eq)]
pub enum SchedulerAction {
    /// Send this message to every known chat.
    Broadcast(Vec<u8>),
    /// Skip this cycle and sleep again.
    Skip,
}

/// The morning broadcast text for a fetched weather line.
pub open spec fn morning_message_spec(w: Seq<u8>) -> Seq<u8> {
    seq![
        71u8,
        111,
        111,
        100,
        32,
        77,
        111,
        114,
        110,
        105,
        110,
        103,
        33,
        10,
        10,
        84,
        111,
        100,
        97,
        121,
        39,
        115,
        32,
        119,
        101,
        97,
        116,
        104,
        101,
        114,
        32,
        105,
        110,
        32,
    ] + w
}

/// Decides one wake, after the weather fetch came back: with a text, the
/// morning message goes out; with nothing — the fetch failed — this cycle
/// is skipped and the loop goes back to sleep, it never stops.
pub fn scheduler_wake(weather: Option<Vec<u8>>) -> (a: SchedulerAction)
    ensures
        match weather {
            Some(w) => a matches SchedulerAction::Broadcast(m) && m@ == morning_message_spec(w@),
            None => a is Skip,
        },
{
    match weather {
        Some(w) => {
            let mut m: Vec<u8> = vec![
                71u8, 111, 111, 100, 32, 77, 111, 114, 110, 105, 110, 103, 33, 10, 10, 84, 111,
                100, 97, 121, 39, 115, 32, 119, 101, 97, 116, 104, 101, 114, 32, 105, 110, 32,
            ];
            let mut tail = crate::store::copy_bytes(&w);
            m.append(&mut tail);
            proof {
                assert(m@ =~= morning_message_spec(w@));
            }
            SchedulerAction::Broadcast(m)
        },
        None => SchedulerAction::Skip,
    }
}

/// The scheduler's promise: from any moment, the computed wake lies
/// strictly in the future, on the calendar day immediately after it, at
/// 08:00:00.
pub proof fn lemma_next_broadcast_strictly_future(now: LocalTime)
    requires
        valid_time(now),
    ensures
        time_lt(now, target_of(now)),
        target_of(now).date == next_day_spec(now.date),
        date_lt(now.date, target_of(now).date),
        target_of(now).secs == BROADCAST_SECOND,
        SECS_PER_DAY - now.secs + BROADCAST_SECOND > 0,
{
}

} // verus!
