//! Instants on the UTC time line and the calendar questions asked of them.
//!
//! The calendar itself is chrono's: this module asks it for dates and
//! instants and does the comparisons and the arithmetic around them.

use chrono::{Datelike, TimeZone};
use vstd::prelude::*;

use crate::utils::random::random_below;

verus! {

/// The text form of an instant: date, time, and offset from UTC.
pub const APP_TIME_FORMAT: &'static str = "%Y-%m-%d %H:%M:%S%:z";

/// The text form of an instant that tax tools read.
pub const BITCOINTAX_TIME_FORMAT: &'static str = "%Y-%m-%d %H:%M:%S %z";

/// An instant, as milliseconds since 1970-01-01T00:00:00Z.
#[derive(Clone, Copy, Debug, PartialEq, Eq, Structural)]
pub struct Timestamp {
    pub millis: i64,
}

/// A day of the calendar.
#[derive(Clone, Copy, Debug, PartialEq, Eq, Structural)]
pub struct CivilDate {
    pub year: i32,
    pub month: u32,
    pub day: u32,
}

#[verifier::external_type_specification]
#[verifier::external_body]
pub struct ExParseError(chrono::ParseError);

/// The instant that chrono reads from `text` in [`APP_TIME_FORMAT`], in
/// milliseconds; `None` where it reads none.
pub uninterp spec fn parsed_instant(text: Seq<char>) -> Option<int>;

/// The text that chrono writes for an instant in [`APP_TIME_FORMAT`], in
/// UTC; `None` for an instant outside its calendar.
pub uninterp spec fn formatted_instant(millis: int) -> Option<Seq<char>>;

/// The text that chrono writes for an instant in
/// [`BITCOINTAX_TIME_FORMAT`], in UTC; `None` for an instant outside its
/// calendar.
pub uninterp spec fn formatted_tax_instant(millis: int) -> Option<Seq<char>>;

/// Year, month and day, in UTC, of the day that comes `days` days after the
/// day of an instant; `None` outside chrono's calendar.
pub uninterp spec fn utc_date_after(millis: int, days: int) -> Option<(int, int, int)>;

/// The instant, in milliseconds, of a time of day on a calendar day in UTC;
/// `None` where chrono has no such day or time.
pub uninterp spec fn utc_instant_of(
    year: int,
    month: int,
    day: int,
    hour: int,
    minute: int,
    second: int,
    milli: int,
) -> Option<int>;

/// `found` is the instant `named`, or both are none.
pub open spec fn same_instant(found: Option<i64>, named: Option<int>) -> bool {
    match found {
        Some(millis) => named == Some(millis as int),
        None => named is None,
    }
}

/// `found` is at the instant `named`, or both are none.
pub open spec fn at_instant(found: Option<Timestamp>, named: Option<int>) -> bool {
    match found {
        Some(at) => named == Some(at.millis as int),
        None => named is None,
    }
}

/// Calls chrono's `DateTime::parse_from_str` with [`APP_TIME_FORMAT`] and
/// turns what it read to UTC milliseconds. Trusted: the result is the one
/// named [`parsed_instant`], and the error is chrono's where it read nothing.
#[verifier::external_body]
fn parse_instant(text: &str) -> (parsed: Result<i64, chrono::ParseError>)
    ensures
        match parsed {
            Ok(millis) => parsed_instant(text@) == Some(millis as int),
            Err(_) => parsed_instant(text@) is None,
        },
{
    match chrono::DateTime::parse_from_str(text, APP_TIME_FORMAT) {
        Ok(at) => Ok(at.with_timezone(&chrono_tz::UTC).timestamp_millis()),
        Err(error) => Err(error),
    }
}

/// Calls chrono's `TimeZone::timestamp_millis_opt` on UTC and
/// `DateTime::format` with [`APP_TIME_FORMAT`]. Trusted: the result is the
/// one named [`formatted_instant`].
#[verifier::external_body]
fn format_instant(millis: i64) -> (text: Option<String>)
    ensures
        match text {
            Some(text) => formatted_instant(millis as int) == Some(text@),
            None => formatted_instant(millis as int) is None,
        },
{
    match chrono_tz::UTC.timestamp_millis_opt(millis) {
        chrono::LocalResult::Single(at) => Some(at.format(APP_TIME_FORMAT).to_string()),
        _ => None,
    }
}

/// Calls chrono's `TimeZone::timestamp_millis_opt` on UTC and
/// `DateTime::format` with [`BITCOINTAX_TIME_FORMAT`]. Trusted: the result is
/// the one named [`formatted_tax_instant`].
#[verifier::external_body]
fn format_tax_instant(millis: i64) -> (text: Option<String>)
    ensures
        match text {
            Some(text) => formatted_tax_instant(millis as int) == Some(text@),
            None => formatted_tax_instant(millis as int) is None,
        },
{
    match chrono_tz::UTC.timestamp_millis_opt(millis) {
        chrono::LocalResult::Single(at) => Some(at.format(BITCOINTAX_TIME_FORMAT).to_string()),
        _ => None,
    }
}

/// Calls chrono's `TimeZone::timestamp_millis_opt` on UTC, takes the day
/// with `DateTime::date_naive` and moves it with
/// `NaiveDate::checked_add_days`. Trusted: the result is the one named
/// [`utc_date_after`].
#[verifier::external_body]
fn date_after(millis: i64, days: u64) -> (date: Option<CivilDate>)
    ensures
        match date {
            Some(date) => utc_date_after(millis as int, days as int) == Some(
                (date.year as int, date.month as int, date.day as int),
            ),
            None => utc_date_after(millis as int, days as int) is None,
        },
{
    match chrono_tz::UTC.timestamp_millis_opt(millis) {
        chrono::LocalResult::Single(at) => {
            match at.date_naive().checked_add_days(chrono::Days::new(days)) {
                Some(day) => Some(CivilDate { year: day.year(), month: day.month(), day: day.day() }),
                None => None,
            }
        },
        _ => None,
    }
}

/// Calls chrono's `NaiveDate::from_ymd_opt` and
/// `NaiveDate::and_hms_milli_opt`, and reads the result as a time in UTC with
/// `TimeZone::from_local_datetime`. Trusted: the result is the one named
/// [`utc_instant_of`].
#[verifier::external_body]
fn instant_of(date: CivilDate, hour: u32, minute: u32, second: u32, milli: u32) -> (millis: Option<
    i64,
>)
    ensures
        same_instant(
            millis,
            utc_instant_of(
                date.year as int,
                date.month as int,
                date.day as int,
                hour as int,
                minute as int,
                second as int,
                milli as int,
            ),
        ),
{
    match chrono::NaiveDate::from_ymd_opt(date.year, date.month, date.day) {
        Some(day) => match day.and_hms_milli_opt(hour, minute, second, milli) {
            Some(naive) => match chrono_tz::UTC.from_local_datetime(&naive) {
                chrono::LocalResult::Single(at) => Some(at.timestamp_millis()),
                _ => None,
            },
            None => None,
        },
        None => None,
    }
}

/// An instant drawn at random from `[dt_from, dt_to)`.
pub fn generate_random_datetime(dt_from: &Timestamp, dt_to: &Timestamp) -> (drawn: Timestamp)
    requires
        dt_from.millis < dt_to.millis,
    ensures
        dt_from.millis <= drawn.millis < dt_to.millis,
{
    let span = ((dt_to.millis as i128) - (dt_from.millis as i128)) as u64;
    let offset = random_below(span);
    Timestamp { millis: ((dt_from.millis as i128) + (offset as i128)) as i64 }
}

/// Reads an instant from text in [`APP_TIME_FORMAT`].
pub fn datetime_from_str(s: &str) -> (parsed: Result<Timestamp, chrono::ParseError>)
    ensures
        match parsed {
            Ok(at) => parsed_instant(s@) == Some(at.millis as int),
            Err(_) => parsed_instant(s@) is None,
        },
{
    match parse_instant(s) {
        Ok(millis) => Ok(Timestamp { millis }),
        Err(error) => Err(error),
    }
}

/// Writes an instant in [`APP_TIME_FORMAT`], in UTC. `None` for an instant
/// that the calendar cannot show.
pub fn datetime_to_str(dt: &Timestamp) -> (text: Option<String>)
    ensures
        match text {
            Some(text) => formatted_instant(dt.millis as int) == Some(text@),
            None => formatted_instant(dt.millis as int) is None,
        },
{
    format_instant(dt.millis)
}

/// Writes an instant in [`BITCOINTAX_TIME_FORMAT`], in UTC. `None` for an
/// instant that the calendar cannot show.
pub fn datetime_to_tax_str(dt: &Timestamp) -> (text: Option<String>)
    ensures
        match text {
            Some(text) => formatted_tax_instant(dt.millis as int) == Some(text@),
            None => formatted_tax_instant(dt.millis as int) is None,
        },
{
    format_tax_instant(dt.millis)
}

/// Whether `dt` lies in the window `[dt_from, dt_to)`.
pub open spec fn within_limits(dt: Timestamp, dt_from: Timestamp, dt_to: Timestamp) -> bool {
    dt_from.millis <= dt.millis < dt_to.millis
}

/// Tests [`within_limits`].
pub fn is_datetime_within_limits(dt: &Timestamp, dt_from: &Timestamp, dt_to: &Timestamp) -> (within:
    bool)
    requires
        dt_from.millis < dt_to.millis,
    ensures
        within == within_limits(*dt, *dt_from, *dt_to),
{
    dt.millis >= dt_from.millis && dt.millis < dt_to.millis
}

/// `picked` are the places in `times` of the instants that lie in the
/// window `[from, to)`: all of them, each once, in rising order.
pub open spec fn is_selection(picked: Seq<usize>, times: Seq<Timestamp>, from: Timestamp, to: Timestamp) -> bool {
    &&& forall|j: int|
        0 <= j < picked.len() ==> (#[trigger] picked[j]) < times.len() && within_limits(
            times[picked[j] as int],
            from,
            to,
        )
    &&& forall|j: int, k: int| 0 <= j < k < picked.len() ==> #[trigger] picked[j] < #[trigger] picked[k]
    &&& forall|i: int|
        0 <= i < times.len() && within_limits(#[trigger] times[i], from, to) ==> picked.contains(
            i as usize,
        )
}

/// Picks the instants that lie in the window `[dt_from, dt_to)`.
pub fn indices_within(times: &Vec<Timestamp>, dt_from: &Timestamp, dt_to: &Timestamp) -> (picked: Vec<
    usize,
>)
    requires
        dt_from.millis < dt_to.millis,
    ensures
        is_selection(picked@, times@, *dt_from, *dt_to),
{
    let mut picked: Vec<usize> = Vec::new();
    let mut i: usize = 0;
    while i < times.len()
        invariant
            i <= times.len(),
            dt_from.millis < dt_to.millis,
            is_selection(picked@, times@.take(i as int), *dt_from, *dt_to),
        decreases times.len() - i,
    {
        let ghost before = picked@;
        let ghost seen = times@.take(i as int);
        if is_datetime_within_limits(&times[i], dt_from, dt_to) {
            picked.push(i);
        }
        proof {
            let more = times@.take(i + 1);
            assert forall|j: int| 0 <= j < picked@.len() implies (#[trigger] picked@[j])
                < more.len() && within_limits(more[picked@[j] as int], *dt_from, *dt_to) by {
                if j < before.len() {
                    assert(picked@[j] == before[j]);
                    assert(more[before[j] as int] == seen[before[j] as int]);
                }
            }
            assert forall|j: int, k: int| 0 <= j < k < picked@.len() implies #[trigger] picked@[j]
                < #[trigger] picked@[k] by {
                assert(picked@[j] == before[j]);
                if k < before.len() {
                    assert(picked@[k] == before[k]);
                }
            }
            assert forall|x: int|
                0 <= x < more.len() && within_limits(
                    #[trigger] more[x],
                    *dt_from,
                    *dt_to,
                ) implies picked@.contains(x as usize) by {
                if x < i {
                    assert(seen[x] == more[x]);
                    assert(before.contains(x as usize));
                    let j = choose|j: int| 0 <= j < before.len() && before[j] == x as usize;
                    assert(picked@[j] == x as usize);
                } else {
                    assert(picked@[picked@.len() - 1] == x as usize);
                }
            }
        }
        i += 1;
    }
    assert(times@.take(times@.len() as int) =~= times@);
    picked
}

/// The instant of a time of day on the UTC day of `millis`.
pub open spec fn same_day_at(millis: int, hour: int, minute: int, second: int, milli: int) -> Option<
    int,
> {
    match utc_date_after(millis, 0) {
        Some(date) => utc_instant_of(date.0, date.1, date.2, hour, minute, second, milli),
        None => None,
    }
}

/// The first instant of the UTC day of `dt`.
pub fn start_of_the_day(dt: &Timestamp) -> (start: Option<Timestamp>)
    ensures
        at_instant(start, same_day_at(dt.millis as int, 0, 0, 0, 0)),
{
    match date_after(dt.millis, 0) {
        Some(date) => match instant_of(date, 0, 0, 0, 0) {
            Some(millis) => Some(Timestamp { millis }),
            None => None,
        },
        None => None,
    }
}

/// The last millisecond of the UTC day of `dt`.
pub fn end_of_the_day(dt: &Timestamp) -> (end: Option<Timestamp>)
    ensures
        at_instant(end, same_day_at(dt.millis as int, 23, 59, 59, 999)),
{
    match date_after(dt.millis, 0) {
        Some(date) => match instant_of(date, 23, 59, 59, 999) {
            Some(millis) => Some(Timestamp { millis }),
            None => None,
        },
        None => None,
    }
}

/// February 29.
pub open spec fn is_leap_day(month: int, day: int) -> bool {
    month == 2 && day == 29
}

impl CivilDate {
    /// Whether the day is a February 29.
    pub fn is_leap_day(&self) -> (leap: bool)
        ensures
            leap == is_leap_day(self.month as int, self.day as int),
    {
        self.month == 2 && self.day == 29
    }

    /// The same month and day one year on; `None` past the last year that
    /// fits.
    pub fn a_year_later(&self) -> (later: Option<CivilDate>)
        ensures
            later == if self.year < i32::MAX {
                Some(CivilDate { year: (self.year + 1) as i32, month: self.month, day: self.day })
            } else {
                None
            },
    {
        if self.year < i32::MAX {
            Some(CivilDate { year: self.year + 1, month: self.month, day: self.day })
        } else {
            None
        }
    }
}

/// The day from which the holding period of a purchase at `buy` counts: the
/// day after the purchase, or the day after that where it would be a
/// February 29.
pub open spec fn holding_starts(buy: int) -> Option<(int, int, int)> {
    match utc_date_after(buy, 1) {
        Some(next) => if is_leap_day(next.1, next.2) {
            utc_date_after(buy, 2)
        } else {
            Some(next)
        },
        None => None,
    }
}

/// The first instant at which a sale of what was bought at `buy` is long
/// term: midnight, one year after the day from which the holding period
/// counts.
pub open spec fn long_term_from(buy: int) -> Option<int> {
    match holding_starts(buy) {
        Some(start) => if start.0 < i32::MAX {
            utc_instant_of(start.0 + 1, start.1, start.2, 0, 0, 0, 0)
        } else {
            None
        },
        None => None,
    }
}

/// Computes [`long_term_from`].
pub fn long_term_threshold(buy: &Timestamp) -> (threshold: Option<Timestamp>)
    ensures
        at_instant(threshold, long_term_from(buy.millis as int)),
{
    let next = match date_after(buy.millis, 1) {
        Some(next) => next,
        None => { return None; },
    };
    let start = if next.is_leap_day() {
        match date_after(buy.millis, 2) {
            Some(start) => start,
            None => { return None; },
        }
    } else {
        next
    };
    let anchor = match start.a_year_later() {
        Some(anchor) => anchor,
        None => { return None; },
    };
    match instant_of(anchor, 0, 0, 0, 0) {
        Some(millis) => Some(Timestamp { millis }),
        None => None,
    }
}

} // verus!
