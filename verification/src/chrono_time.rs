//! What is asked of chrono.

use chrono::{Datelike, TimeZone, Timelike};

use vstd::prelude::*;

use crate::time::{Civil, DateTime};
use crate::utc_time::{
    UTCTIME, UTCTIME_WITH_OFFSET, UTCTIME_WITH_SECONDS, UTCTIME_WITH_SECONDS_AND_OFFSET,
};

verus! {

/// What chrono reads from `text` as a time in UTC that is written in `format`.
pub uninterp spec fn utc_from_str(text: Seq<char>, format: Seq<char>) -> Option<Civil>;

/// What chrono reads from `text` as a time with its offset from UTC that is written in `format`.
/// It is given in UTC.
pub uninterp spec fn with_offset_from_str(text: Seq<char>, format: Seq<char>) -> Option<Civil>;

/// chrono's `TimeZone::datetime_from_str` for `Utc`. What it reads from a text in a format depends
/// on nothing else. The two formats leave the century to chrono, which takes it that the year is
/// one from 1970 to 2069, and they have no fraction of a second. A second numbered 60 is read as a
/// leap second, which is the 59th with a thousand million nanoseconds. Pairs of digits and a `Z`
/// are read as the time that the digits show, if there is such a time and there are as many pairs
/// as the format has, and else as nothing. Nor is a text that does not end in `Z` anything.
#[verifier::external_body]
pub(crate) fn parse_in_utc(text: &str, format: &str) -> (r: Option<DateTime>)
    requires
        format@ == UTCTIME_WITH_SECONDS@ || format@ == UTCTIME@,
    ensures
        crate::time::civil_of(r) == utc_from_str(text@, format@),
        r matches Some(t) ==> t@.valid() && 1970 <= t@.year <= 2069 && (t@.nanosecond == 0
            || t@.nanosecond == 1_000_000_000),
        r is Some ==> text@.len() > 0 && text@.last() == 'Z',
        (forall|digits: Seq<u8>|
            text@ == crate::utf8::ascii_text(#[trigger] crate::utc_time::in_utc(digits))
                && crate::utc_time::is_clock_digits(digits) ==> crate::time::civil_of(r) == (if (
            digits.len() == 12) == (format@ == UTCTIME_WITH_SECONDS@) {
                crate::utc_time::shown_time(crate::utc_time::clock(digits))
            } else {
                None
            })),
{
    let t = chrono::Utc.datetime_from_str(text, format).ok()?;
    Some(DateTime {
        year: t.year(),
        month: t.month() as u8,
        day: t.day() as u8,
        hour: t.hour() as u8,
        minute: t.minute() as u8,
        second: t.second() as u8,
        nanosecond: t.nanosecond(),
    })
}

/// chrono's `DateTime::parse_from_str`, and what it reads turned into a time in UTC by `into`. What
/// it reads from a text in a format depends on nothing else. The two formats leave the century to
/// chrono, which takes it that the year, where the clock is, is one from 1970 to 2069, and they
/// have no fraction of a second. A second numbered 60 is read as a leap second, which is the 59th
/// with a thousand million nanoseconds. Pairs of digits, a sign, and two pairs of digits for the
/// hours and minutes by which the clock is ahead of UTC or behind it, are read as the time that it
/// then is in UTC, if there is such a time, there are as many pairs as the format has, and the
/// hours are under 24 and the minutes under 60, and else as nothing. Nor is a text in which there
/// is no sign anything.
#[verifier::external_body]
pub(crate) fn parse_with_offset(text: &str, format: &str) -> (r: Option<DateTime>)
    requires
        format@ == UTCTIME_WITH_SECONDS_AND_OFFSET@ || format@ == UTCTIME_WITH_OFFSET@,
    ensures
        crate::time::civil_of(r) == with_offset_from_str(text@, format@),
        r matches Some(t) ==> t@.valid() && 1969 <= t@.year <= 2070 && (t@.nanosecond == 0
            || t@.nanosecond == 1_000_000_000),
        (forall|i: int| 0 <= i < text@.len() ==> #[trigger] text@[i] != '+' && text@[i] != '-')
            ==> r is None,
        (forall|digits: Seq<u8>, behind: bool, offset: Seq<u8>|
            text@ == crate::utf8::ascii_text(
                #[trigger] crate::utc_time::with_sign(digits, behind, offset),
            ) && crate::utc_time::is_clock_digits(digits) && crate::utc_time::is_offset_digits(
                offset,
            ) ==> crate::time::is_earlier(
                crate::time::civil_of(r),
                (if (digits.len() == 12) == (format@ == UTCTIME_WITH_SECONDS_AND_OFFSET@)
                    && crate::utc_time::can_be_offset(offset) {
                    crate::utc_time::shown_time(crate::utc_time::clock(digits))
                } else {
                    None
                }),
                60 * crate::utc_time::minutes_ahead(behind, offset),
            )),
{
    let local = chrono::DateTime::parse_from_str(text, format).ok()?;
    let t: chrono::DateTime<chrono::Utc> = local.into();
    Some(DateTime {
        year: t.year(),
        month: t.month() as u8,
        day: t.day() as u8,
        hour: t.hour() as u8,
        minute: t.minute() as u8,
        second: t.second() as u8,
        nanosecond: t.nanosecond(),
    })
}

/// chrono's `TimeZone::ymd` for `Utc` and `Date::and_hms`: the given date with the given time, at
/// the start of the second. Both panic where there is none.
#[verifier::external_body]
pub(crate) fn utc_at(year: i32, month: u8, day: u8, hour: u8, minute: u8, second: u8) -> (r:
    DateTime)
    requires
        (Civil {
            year: year as int,
            month: month as int,
            day: day as int,
            hour: hour as int,
            minute: minute as int,
            second: second as int,
            nanosecond: 0,
        }).valid(),
    ensures
        r@ == (Civil {
            year: year as int,
            month: month as int,
            day: day as int,
            hour: hour as int,
            minute: minute as int,
            second: second as int,
            nanosecond: 0,
        }),
{
    let date = chrono::Utc.ymd(year, u32::from(month), u32::from(day));
    let t = date.and_hms(u32::from(hour), u32::from(minute), u32::from(second));
    DateTime {
        year: t.year(),
        month: t.month() as u8,
        day: t.day() as u8,
        hour: t.hour() as u8,
        minute: t.minute() as u8,
        second: t.second() as u8,
        nanosecond: t.nanosecond(),
    }
}

} // verus!
