//! A moment one billion seconds after a given calendar date and time. The
//! calendar arithmetic itself is the `time` crate's; this module models the
//! moment as plain values and states what a valid one looks like.
use vstd::prelude::*;

verus! {

/// A calendar moment held as plain values.
#[derive(Clone, Copy, PartialEq, Eq, Structural, Debug)]
pub struct PlainMoment {
    pub year: i32,
    pub month: u8,
    pub day: u8,
    pub hour: u8,
    pub minute: u8,
    pub second: u8,
}

impl View for PlainMoment {
    type V = (int, int, int, int, int, int);

    open spec fn view(&self) -> (int, int, int, int, int, int) {
        (
            self.year as int,
            self.month as int,
            self.day as int,
            self.hour as int,
            self.minute as int,
            self.second as int,
        )
    }
}

/// Whether a year is a leap year in the proleptic Gregorian calendar.
pub open spec fn is_leap_year(y: int) -> bool {
    y % 4 == 0 && (y % 100 != 0 || y % 400 == 0)
}

/// How many days the month has.
pub open spec fn days_in_month(y: int, m: int) -> int {
    if m == 2 {
        if is_leap_year(y) {
            29
        } else {
            28
        }
    } else if m == 4 || m == 6 || m == 9 || m == 11 {
        30
    } else {
        31
    }
}

/// Whether the moment names a real calendar date and clock time within the
/// representable years.
pub open spec fn valid_moment(v: (int, int, int, int, int, int)) -> bool {
    &&& -9999 <= v.0 <= 9999
    &&& 1 <= v.1 <= 12
    &&& 1 <= v.2 <= days_in_month(v.0, v.1)
    &&& 0 <= v.3 <= 23
    &&& 0 <= v.4 <= 59
    &&& 0 <= v.5 <= 59
}

/// The moment a number of seconds after the given one, as the calendar
/// counts; the value is fixed by the arguments alone.
pub uninterp spec fn shifted_by_seconds(v: (int, int, int, int, int, int), secs: int) -> (
    int,
    int,
    int,
    int,
    int,
    int,
);

/// Relies on time::PlainDateTime::checked_add of SignedDuration::seconds,
/// with the moment assembled by Month::try_from, Date::from_calendar_date and
/// Time::from_hms and taken apart by the matching accessors. The result is
/// the moment `secs` seconds later, a function of the arguments alone, and it
/// exists exactly when that moment's year stays within the representable
/// years: every failing path of checked_add is a date before year -9999 or
/// after year 9999.
#[verifier::external_body]
fn add_seconds_raw(m: PlainMoment, secs: i64) -> (r: Option<PlainMoment>)
    requires
        valid_moment(m@),
    ensures
        r is Some <==> -9999 <= shifted_by_seconds(m@, secs as int).0 <= 9999,
        r is Some ==> r->Some_0@ == shifted_by_seconds(m@, secs as int),
{
    let month = time::Month::try_from(m.month).ok()?;
    let date = time::Date::from_calendar_date(m.year, month, m.day).ok()?;
    let clock = time::Time::from_hms(m.hour, m.minute, m.second).ok()?;
    let dt = time::PlainDateTime::new(date, clock)
        .checked_add(time::SignedDuration::seconds(secs))?;
    let (year, month, day) = (dt.year(), u8::from(dt.month()), dt.day());
    let (hour, minute, second) = (dt.hour(), dt.minute(), dt.second());
    Some(PlainMoment { year, month, day, hour, minute, second })
}

/// Whether a moment is valid, decided at run time.
pub fn moment_is_valid(m: &PlainMoment) -> (r: bool)
    ensures
        r == valid_moment(m@),
{
    let dim: u8 = if m.month == 2 {
        if (m.year % 4 == 0) && (m.year % 100 != 0 || m.year % 400 == 0) {
            29
        } else {
            28
        }
    } else if m.month == 4 || m.month == 6 || m.month == 9 || m.month == 11 {
        30
    } else {
        31
    };
    -9999 <= m.year && m.year <= 9999 && 1 <= m.month && m.month <= 12 && 1 <= m.day && m.day
        <= dim && m.hour <= 23 && m.minute <= 59 && m.second <= 59
}

/// The moment one billion seconds after `start`: exactly when that moment
/// still lies within the representable years, and nothing otherwise.
pub fn after(start: &PlainMoment) -> (r: Option<PlainMoment>)
    requires
        valid_moment(start@),
    ensures
        r is Some <==> -9999 <= shifted_by_seconds(start@, 1000000000).0 <= 9999,
        r is Some ==> r->Some_0@ == shifted_by_seconds(start@, 1000000000),
{
    add_seconds_raw(*start, 1000000000)
}

} // verus!
