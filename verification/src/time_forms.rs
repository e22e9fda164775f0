//! What dates, clocks and `UTCTime` are, in figures.

use vstd::prelude::*;

use crate::chrono_time;
use crate::element::SimpleAsn1Element;
use crate::error::{ParseError, ParseResult};
use crate::time::{self, Civil, DateTime};
use crate::utc_time::{self, UtcTime};

verus! {

/// The lengths of the months.
pub proof fn lemma_month_lengths(year: int)
    ensures
        time::days_in_month(year, 1) == 31,
        time::days_in_month(year, 2) == (if year % 400 == 0 || (year % 4 == 0 && year % 100 != 0) {
            29int
        } else {
            28
        }),
        time::days_in_month(year, 3) == 31,
        time::days_in_month(year, 4) == 30,
        time::days_in_month(year, 5) == 31,
        time::days_in_month(year, 6) == 30,
        time::days_in_month(year, 7) == 31,
        time::days_in_month(year, 8) == 31,
        time::days_in_month(year, 9) == 30,
        time::days_in_month(year, 10) == 31,
        time::days_in_month(year, 11) == 30,
        time::days_in_month(year, 12) == 31,
{
    assert(year % 400 == 0 ==> year % 4 == 0);
}

/// What figures there are on a calendar and on a clock.
pub proof fn lemma_valid(c: Civil)
    ensures
        c.valid() <==> -262_144 <= c.year <= 262_143 && 1 <= c.month <= 12 && 1 <= c.day
            <= time::days_in_month(c.year, c.month) && 0 <= c.hour <= 23 && 0 <= c.minute <= 59
            && 0 <= c.second <= 59 && 0 <= c.nanosecond < 2_000_000_000,
{
}

/// Seconds are counted one by one, through minutes, hours, days, months and years, and from zero at
/// the start of the year one.
pub proof fn lemma_next_second(c: Civil)
    requires
        c.valid(),
    ensures
        (Civil {
            year: 1,
            month: 1,
            day: 1,
            hour: 0,
            minute: 0,
            second: 0,
            nanosecond: 0,
        }).seconds() == 0,
        c.seconds() + 1 == (if c.second < 59 {
            Civil { second: c.second + 1, ..c }
        } else if c.minute < 59 {
            Civil { second: 0, minute: c.minute + 1, ..c }
        } else if c.hour < 23 {
            Civil { second: 0, minute: 0, hour: c.hour + 1, ..c }
        } else if c.day < time::days_in_month(c.year, c.month) {
            Civil { second: 0, minute: 0, hour: 0, day: c.day + 1, ..c }
        } else if c.month < 12 {
            Civil { second: 0, minute: 0, hour: 0, day: 1, month: c.month + 1, ..c }
        } else {
            Civil { second: 0, minute: 0, hour: 0, day: 1, month: 1, year: c.year + 1, ..c }
        }).seconds(),
{
    reveal_with_fuel(time::days_before_month, 13);
    let y = c.year;
    assert(y / 4 - (y - 1) / 4 == (if y % 4 == 0 {
        1int
    } else {
        0
    }));
    assert(y / 100 - (y - 1) / 100 == (if y % 100 == 0 {
        1int
    } else {
        0
    }));
    assert(y / 400 - (y - 1) / 400 == (if y % 400 == 0 {
        1int
    } else {
        0
    }));
    assert(y % 400 == 0 ==> y % 100 == 0);
    assert(y % 100 == 0 ==> y % 4 == 0);
}

/// The view of a time is that of the time itself.
pub proof fn lemma_views(t: DateTime)
    ensures
        time::civil_of(Some(t)) == Some(t@),
        time::civil_of(None) is None,
        time::civil_result(Ok(t)) == Ok::<Civil, ParseError>(t@),
{
}

/// A time with an offset goes before one without, a leap second is refused, and a year from 2050 on
/// is one of the century before.
pub proof fn lemma_settled(with_offset: Option<Civil>, in_utc: Option<Civil>)
    ensures
        ({
            let r = utc_time::settled(utc_time::first_of(with_offset, in_utc));
            let c = if with_offset is Some {
                with_offset->0
            } else {
                in_utc->0
            };
            if with_offset is None && in_utc is None || c.nanosecond >= 1_000_000 {
                r == Err::<Civil, ParseError>(ParseError::InvalidValue)
            } else if c.year < 2050 {
                r == Ok::<Civil, ParseError>(c)
            } else {
                r == Ok::<Civil, ParseError>(
                    Civil {
                        year: c.year - 100,
                        month: c.month,
                        day: c.day,
                        hour: c.hour,
                        minute: c.minute,
                        second: c.second,
                        nanosecond: 0,
                    },
                )
            }
        }),
{
}

/// Contents are read as text in UTF-8, in the format with seconds and an offset, or else in the one
/// with an offset, or else in the one with seconds, or else in the one without.
pub proof fn lemma_formats<'a>(data: Seq<u8>)
    ensures
        ({
            let text = vstd::utf8::decode_utf8(data);
            let a = chrono_time::with_offset_from_str(text, "%y%m%d%H%M%S%z"@);
            let b = chrono_time::with_offset_from_str(text, "%y%m%d%H%M%z"@);
            let c = chrono_time::utc_from_str(text, "%y%m%d%H%M%SZ"@);
            let d = chrono_time::utc_from_str(text, "%y%m%d%H%MZ"@);
            <UtcTime as SimpleAsn1Element<'a>>::decode(data) == (
            if !vstd::utf8::valid_utf8(data) {
                Err(ParseError::InvalidValue)
            } else if a is Some {
                utc_time::settled(a)
            } else if b is Some {
                utc_time::settled(b)
            } else if c is Some {
                utc_time::settled(c)
            } else {
                utc_time::settled(d)
            })
        }),
{
}

proof fn lemma_figures(
    digits: Seq<u8>,
    year: int,
    month: int,
    day: int,
    hour: int,
    minute: int,
    second: int,
)
    requires
        0 <= year < 100,
        0 <= month < 100,
        0 <= day < 100,
        0 <= hour < 100,
        0 <= minute < 100,
        0 <= second < 100,
        digits.len() == 10 || digits.len() == 12,
        digits[0] == 48 + year / 10,
        digits[1] == 48 + year % 10,
        digits[2] == 48 + month / 10,
        digits[3] == 48 + month % 10,
        digits[4] == 48 + day / 10,
        digits[5] == 48 + day % 10,
        digits[6] == 48 + hour / 10,
        digits[7] == 48 + hour % 10,
        digits[8] == 48 + minute / 10,
        digits[9] == 48 + minute % 10,
        digits.len() == 10 ==> second == 0,
        digits.len() == 12 ==> digits[10] == 48 + second / 10 && digits[11] == 48 + second % 10,
    ensures
        utc_time::is_clock_digits(digits),
        ({
            let c = Civil {
                year: if year < 50 {
                    2000 + year
                } else {
                    1900 + year
                },
                month,
                day,
                hour,
                minute,
                second,
                nanosecond: 0,
            };
            &&& utc_time::meaning(digits) == (if c.valid() {
                Ok(c)
            } else {
                Err(ParseError::InvalidValue)
            })
            &&& c.valid() ==> utc_time::clock(digits).valid() && utc_time::clock(digits).seconds()
                == c.seconds() + (if 50 <= year < 70 {
                3_155_760_000int
            } else {
                0
            })
        }),
{
    let c = Civil {
        year: if year < 50 {
            2000 + year
        } else {
            1900 + year
        },
        month,
        day,
        hour,
        minute,
        second,
        nanosecond: 0,
    };
    let shown = utc_time::clock(digits);
    assert(utc_time::number_at(digits, 0) == year);
    assert(utc_time::number_at(digits, 2) == month);
    assert(utc_time::number_at(digits, 4) == day);
    assert(utc_time::number_at(digits, 6) == hour);
    assert(utc_time::number_at(digits, 8) == minute);
    assert(digits.len() == 12 ==> utc_time::number_at(digits, 10) == second);
    if 50 <= year < 70 {
        utc_time::lemma_century_later(c);
        assert(shown == (Civil { year: c.year + 100, ..c }));
    } else {
        assert(shown == c);
    }
}

/// Six pairs of digits and a `Z` are read as a year from 1950 to 2049, a month, a day, an hour, a
/// minute and a second, if there is such a time, and else refused.
pub proof fn lemma_read_seconds<'a>(
    year: int,
    month: int,
    day: int,
    hour: int,
    minute: int,
    second: int,
    r: ParseResult<Civil>,
)
    requires
        0 <= year < 100,
        0 <= month < 100,
        0 <= day < 100,
        0 <= hour < 100,
        0 <= minute < 100,
        0 <= second < 100,
        <UtcTime as SimpleAsn1Element<'a>>::assures(
            seq![
                (48 + year / 10) as u8,
                (48 + year % 10) as u8,
                (48 + month / 10) as u8,
                (48 + month % 10) as u8,
                (48 + day / 10) as u8,
                (48 + day % 10) as u8,
                (48 + hour / 10) as u8,
                (48 + hour % 10) as u8,
                (48 + minute / 10) as u8,
                (48 + minute % 10) as u8,
                (48 + second / 10) as u8,
                (48 + second % 10) as u8,
                90u8,
            ],
            r,
        ),
    ensures
        ({
            let c = Civil {
                year: if year < 50 {
                    2000 + year
                } else {
                    1900 + year
                },
                month,
                day,
                hour,
                minute,
                second,
                nanosecond: 0,
            };
            r == (if c.valid() {
                Ok(c)
            } else {
                Err(ParseError::InvalidValue)
            })
        }),
{
    let data = seq![
            (48 + year / 10) as u8,
            (48 + year % 10) as u8,
            (48 + month / 10) as u8,
            (48 + month % 10) as u8,
            (48 + day / 10) as u8,
            (48 + day % 10) as u8,
            (48 + hour / 10) as u8,
            (48 + hour % 10) as u8,
            (48 + minute / 10) as u8,
            (48 + minute % 10) as u8,
            (48 + second / 10) as u8,
            (48 + second % 10) as u8,
            90u8,
        ];
    let digits = seq![
        (48 + year / 10) as u8,
        (48 + year % 10) as u8,
        (48 + month / 10) as u8,
        (48 + month % 10) as u8,
        (48 + day / 10) as u8,
        (48 + day % 10) as u8,
        (48 + hour / 10) as u8,
        (48 + hour % 10) as u8,
        (48 + minute / 10) as u8,
        (48 + minute % 10) as u8,
        (48 + second / 10) as u8,
        (48 + second % 10) as u8,
    ];
    lemma_figures(digits, year, month, day, hour, minute, second);
    assert(data =~= utc_time::in_utc(digits));
}

/// Five pairs of digits and a `Z` are read as a year from 1950 to 2049, a month, a day, an hour and
/// a minute, if there is such a time, and else refused.
pub proof fn lemma_read_minutes<'a>(
    year: int,
    month: int,
    day: int,
    hour: int,
    minute: int,
    r: ParseResult<Civil>,
)
    requires
        0 <= year < 100,
        0 <= month < 100,
        0 <= day < 100,
        0 <= hour < 100,
        0 <= minute < 100,
        <UtcTime as SimpleAsn1Element<'a>>::assures(
            seq![
                (48 + year / 10) as u8,
                (48 + year % 10) as u8,
                (48 + month / 10) as u8,
                (48 + month % 10) as u8,
                (48 + day / 10) as u8,
                (48 + day % 10) as u8,
                (48 + hour / 10) as u8,
                (48 + hour % 10) as u8,
                (48 + minute / 10) as u8,
                (48 + minute % 10) as u8,
                90u8,
            ],
            r,
        ),
    ensures
        ({
            let c = Civil {
                year: if year < 50 {
                    2000 + year
                } else {
                    1900 + year
                },
                month,
                day,
                hour,
                minute,
                second: 0,
                nanosecond: 0,
            };
            r == (if c.valid() {
                Ok(c)
            } else {
                Err(ParseError::InvalidValue)
            })
        }),
{
    let data = seq![
            (48 + year / 10) as u8,
            (48 + year % 10) as u8,
            (48 + month / 10) as u8,
            (48 + month % 10) as u8,
            (48 + day / 10) as u8,
            (48 + day % 10) as u8,
            (48 + hour / 10) as u8,
            (48 + hour % 10) as u8,
            (48 + minute / 10) as u8,
            (48 + minute % 10) as u8,
            90u8,
        ];
    let digits = seq![
        (48 + year / 10) as u8,
        (48 + year % 10) as u8,
        (48 + month / 10) as u8,
        (48 + month % 10) as u8,
        (48 + day / 10) as u8,
        (48 + day % 10) as u8,
        (48 + hour / 10) as u8,
        (48 + hour % 10) as u8,
        (48 + minute / 10) as u8,
        (48 + minute % 10) as u8,
    ];
    lemma_figures(digits, year, month, day, hour, minute, 0);
    assert(data =~= utc_time::in_utc(digits));
}

/// Six pairs of digits, a sign and two pairs are read as the time that a clock shows which is so
/// many hours and minutes ahead of UTC, or behind it, if there are such a time and such an offset.
/// The result is in UTC, and of the years from 1950 to 2049, for which it may be a century off.
pub proof fn lemma_read_seconds_and_offset<'a>(
    year: int,
    month: int,
    day: int,
    hour: int,
    minute: int,
    second: int,
    behind: bool,
    hours: int,
    minutes: int,
    r: ParseResult<Civil>,
)
    requires
        0 <= year < 100,
        0 <= month < 100,
        0 <= day < 100,
        0 <= hour < 100,
        0 <= minute < 100,
        0 <= second < 100,
        0 <= hours < 100,
        0 <= minutes < 100,
        <UtcTime as SimpleAsn1Element<'a>>::assures(
            seq![
                (48 + year / 10) as u8,
                (48 + year % 10) as u8,
                (48 + month / 10) as u8,
                (48 + month % 10) as u8,
                (48 + day / 10) as u8,
                (48 + day % 10) as u8,
                (48 + hour / 10) as u8,
                (48 + hour % 10) as u8,
                (48 + minute / 10) as u8,
                (48 + minute % 10) as u8,
                (48 + second / 10) as u8,
                (48 + second % 10) as u8,
                if behind {
                    45u8
                } else {
                    43u8
                },
                (48 + hours / 10) as u8,
                (48 + hours % 10) as u8,
                (48 + minutes / 10) as u8,
                (48 + minutes % 10) as u8,
            ],
            r,
        ),
    ensures
        ({
            let c = Civil {
                year: if year < 50 {
                    2000 + year
                } else {
                    1900 + year
                },
                month,
                day,
                hour,
                minute,
                second,
                nanosecond: 0,
            };
            let ahead = if behind {
                -(60 * hours + minutes)
            } else {
                60 * hours + minutes
            };
            if c.valid() && hours < 24 && minutes < 60 {
                &&& r is Ok
                &&& r->Ok_0.valid() && r->Ok_0.nanosecond == 0 && 1950 <= r->Ok_0.year < 2050
                &&& {
                    let apart = r->Ok_0.seconds() - (c.seconds() - 60 * ahead);
                    apart == 0 || apart == 3_155_760_000 || apart == -3_155_760_000
                }
            } else {
                r == Err::<Civil, ParseError>(ParseError::InvalidValue)
            }
        }),
{
    let data = seq![
            (48 + year / 10) as u8,
            (48 + year % 10) as u8,
            (48 + month / 10) as u8,
            (48 + month % 10) as u8,
            (48 + day / 10) as u8,
            (48 + day % 10) as u8,
            (48 + hour / 10) as u8,
            (48 + hour % 10) as u8,
            (48 + minute / 10) as u8,
            (48 + minute % 10) as u8,
            (48 + second / 10) as u8,
            (48 + second % 10) as u8,
            if behind {
                45u8
            } else {
                43u8
            },
            (48 + hours / 10) as u8,
            (48 + hours % 10) as u8,
            (48 + minutes / 10) as u8,
            (48 + minutes % 10) as u8,
        ];
    let digits = seq![
        (48 + year / 10) as u8,
        (48 + year % 10) as u8,
        (48 + month / 10) as u8,
        (48 + month % 10) as u8,
        (48 + day / 10) as u8,
        (48 + day % 10) as u8,
        (48 + hour / 10) as u8,
        (48 + hour % 10) as u8,
        (48 + minute / 10) as u8,
        (48 + minute % 10) as u8,
        (48 + second / 10) as u8,
        (48 + second % 10) as u8,
    ];
    lemma_figures(digits, year, month, day, hour, minute, second);
    let offset = seq![
        (48 + hours / 10) as u8,
        (48 + hours % 10) as u8,
        (48 + minutes / 10) as u8,
        (48 + minutes % 10) as u8,
    ];
    assert(utc_time::number_at(offset, 0) == hours && utc_time::number_at(offset, 2) == minutes);
    assert(data =~= utc_time::with_sign(digits, behind, offset));
    utc_time::lemma_meaning(digits);
    if utc_time::clock(digits).valid() && hours < 24 && minutes < 60 {
        utc_time::lemma_clock_second(digits, behind, offset);
    }
}

/// Five pairs of digits, a sign and two pairs are read as the time that a clock shows which is so
/// many hours and minutes ahead of UTC, or behind it, if there are such a time and such an offset.
/// The result is in UTC, and of the years from 1950 to 2049, for which it may be a century off.
pub proof fn lemma_read_minutes_and_offset<'a>(
    year: int,
    month: int,
    day: int,
    hour: int,
    minute: int,
    behind: bool,
    hours: int,
    minutes: int,
    r: ParseResult<Civil>,
)
    requires
        0 <= year < 100,
        0 <= month < 100,
        0 <= day < 100,
        0 <= hour < 100,
        0 <= minute < 100,
        0 <= hours < 100,
        0 <= minutes < 100,
        <UtcTime as SimpleAsn1Element<'a>>::assures(
            seq![
                (48 + year / 10) as u8,
                (48 + year % 10) as u8,
                (48 + month / 10) as u8,
                (48 + month % 10) as u8,
                (48 + day / 10) as u8,
                (48 + day % 10) as u8,
                (48 + hour / 10) as u8,
                (48 + hour % 10) as u8,
                (48 + minute / 10) as u8,
                (48 + minute % 10) as u8,
                if behind {
                    45u8
                } else {
                    43u8
                },
                (48 + hours / 10) as u8,
                (48 + hours % 10) as u8,
                (48 + minutes / 10) as u8,
                (48 + minutes % 10) as u8,
            ],
            r,
        ),
    ensures
        ({
            let c = Civil {
                year: if year < 50 {
                    2000 + year
                } else {
                    1900 + year
                },
                month,
                day,
                hour,
                minute,
                second: 0,
                nanosecond: 0,
            };
            let ahead = if behind {
                -(60 * hours + minutes)
            } else {
                60 * hours + minutes
            };
            if c.valid() && hours < 24 && minutes < 60 {
                &&& r is Ok
                &&& r->Ok_0.valid() && r->Ok_0.nanosecond == 0 && 1950 <= r->Ok_0.year < 2050
                &&& {
                    let apart = r->Ok_0.seconds() - (c.seconds() - 60 * ahead);
                    apart == 0 || apart == 3_155_760_000 || apart == -3_155_760_000
                }
            } else {
                r == Err::<Civil, ParseError>(ParseError::InvalidValue)
            }
        }),
{
    let data = seq![
            (48 + year / 10) as u8,
            (48 + year % 10) as u8,
            (48 + month / 10) as u8,
            (48 + month % 10) as u8,
            (48 + day / 10) as u8,
            (48 + day % 10) as u8,
            (48 + hour / 10) as u8,
            (48 + hour % 10) as u8,
            (48 + minute / 10) as u8,
            (48 + minute % 10) as u8,
            if behind {
                45u8
            } else {
                43u8
            },
            (48 + hours / 10) as u8,
            (48 + hours % 10) as u8,
            (48 + minutes / 10) as u8,
            (48 + minutes % 10) as u8,
        ];
    let digits = seq![
        (48 + year / 10) as u8,
        (48 + year % 10) as u8,
        (48 + month / 10) as u8,
        (48 + month % 10) as u8,
        (48 + day / 10) as u8,
        (48 + day % 10) as u8,
        (48 + hour / 10) as u8,
        (48 + hour % 10) as u8,
        (48 + minute / 10) as u8,
        (48 + minute % 10) as u8,
    ];
    lemma_figures(digits, year, month, day, hour, minute, 0);
    let offset = seq![
        (48 + hours / 10) as u8,
        (48 + hours % 10) as u8,
        (48 + minutes / 10) as u8,
        (48 + minutes % 10) as u8,
    ];
    assert(utc_time::number_at(offset, 0) == hours && utc_time::number_at(offset, 2) == minutes);
    assert(data =~= utc_time::with_sign(digits, behind, offset));
    utc_time::lemma_meaning(digits);
    if utc_time::clock(digits).valid() && hours < 24 && minutes < 60 {
        utc_time::lemma_clock_second(digits, behind, offset);
    }
}

/// Six pairs of digits and a `Z` are written of a time: the last two digits of the year, the month,
/// the day, the hour, the minute and the second.
pub proof fn lemma_write_time<'a>(val: DateTime, data: Seq<u8>)
    requires
        val@.valid(),
    ensures
        <UtcTime as SimpleAsn1Element<'a>>::encodes(val, data) <==> data == seq![
            (48 + (val@.year % 100) / 10) as u8,
            (48 + (val@.year % 100) % 10) as u8,
            (48 + val@.month / 10) as u8,
            (48 + val@.month % 10) as u8,
            (48 + val@.day / 10) as u8,
            (48 + val@.day % 10) as u8,
            (48 + val@.hour / 10) as u8,
            (48 + val@.hour % 10) as u8,
            (48 + val@.minute / 10) as u8,
            (48 + val@.minute % 10) as u8,
            (48 + val@.second / 10) as u8,
            (48 + val@.second % 10) as u8,
            90u8,
        ],
        <UtcTime as SimpleAsn1Element<'a>>::writable(val) <==> 1950 <= val@.year <= 2049,
{
    let digits = utc_time::clock_octets(val@, true);
    let written = seq![
        (48 + (val@.year % 100) / 10) as u8,
        (48 + (val@.year % 100) % 10) as u8,
        (48 + val@.month / 10) as u8,
        (48 + val@.month % 10) as u8,
        (48 + val@.day / 10) as u8,
        (48 + val@.day % 10) as u8,
        (48 + val@.hour / 10) as u8,
        (48 + val@.hour % 10) as u8,
        (48 + val@.minute / 10) as u8,
        (48 + val@.minute % 10) as u8,
        (48 + val@.second / 10) as u8,
        (48 + val@.second % 10) as u8,
        90u8,
    ];
    assert(utc_time::in_utc(digits) =~= written);
}

/// Whatever may be written of a time at the start of a second is read back as that time.
pub proof fn lemma_time_round_trip<'a>(val: DateTime, data: Seq<u8>, r: ParseResult<Civil>)
    requires
        val@.valid(),
        val@.nanosecond == 0,
        <UtcTime as SimpleAsn1Element<'a>>::writable(val),
        <UtcTime as SimpleAsn1Element<'a>>::encodes(val, data),
        <UtcTime as SimpleAsn1Element<'a>>::assures(data, r),
    ensures
        r == Ok::<Civil, ParseError>(val@),
{
}

/// Whatever is read is a time that can be written, at the start of a second.
pub proof fn lemma_read_is_writable<'a>(data: Seq<u8>, r: ParseResult<Civil>)
    requires
        <UtcTime as SimpleAsn1Element<'a>>::assures(data, r),
    ensures
        r matches Ok(c) ==> c.valid() && c.nanosecond == 0 && 1950 <= c.year <= 2049,
{
}

} // verus!
