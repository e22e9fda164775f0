//! Dates with a time of day, in UTC.

use vstd::prelude::*;

use crate::error::ParseResult;

verus! {

/// Whether `year` is a leap year of the Gregorian calendar.
pub open spec fn is_leap_year(year: int) -> bool {
    year % 4 == 0 && (year % 100 != 0 || year % 400 == 0)
}

/// The number of days of a month.
pub open spec fn days_in_month(year: int, month: int) -> int {
    if month == 2 {
        if is_leap_year(year) {
            29
        } else {
            28
        }
    } else if month == 4 || month == 6 || month == 9 || month == 11 {
        30
    } else {
        31
    }
}

/// The number of days of a year before the first of a month of it.
pub open spec fn days_before_month(year: int, month: int) -> int
    decreases month,
{
    if month <= 1 {
        0
    } else {
        days_before_month(year, month - 1) + days_in_month(year, month - 1)
    }
}

/// A date with a time of day, as a calendar and a clock show it.
pub struct Civil {
    pub year: int,
    pub month: int,
    pub day: int,
    pub hour: int,
    pub minute: int,
    pub second: int,
    /// From 1,000,000,000 on, it is a leap second that follows `second`.
    pub nanosecond: int,
}

impl Civil {
    /// Whether there is such a date, and such a time on it.
    pub open spec fn valid(self) -> bool {
        &&& -262_144 <= self.year <= 262_143
        &&& 1 <= self.month <= 12
        &&& 1 <= self.day <= days_in_month(self.year, self.month)
        &&& 0 <= self.hour < 24
        &&& 0 <= self.minute < 60
        &&& 0 <= self.second < 60
        &&& 0 <= self.nanosecond < 2_000_000_000
    }

    /// The same date and time in another year, at the start of the second.
    pub open spec fn with_year(self, year: int) -> Civil {
        Civil { year, nanosecond: 0, ..self }
    }

    /// The number of whole seconds since the start of the first day of the year one, if each day
    /// had 86,400 of them.
    pub open spec fn seconds(self) -> int {
        let years = self.year - 1;
        let days = 365 * years + years / 4 - years / 100 + years / 400 + days_before_month(
            self.year,
            self.month,
        ) + self.day - 1;
        86_400 * days + 3_600 * self.hour + 60 * self.minute + self.second
    }
}

/// The number of seconds since the start of the year one at the start of a year.
pub open spec fn start_of_year(year: int) -> int {
    (Civil { year, month: 1, day: 1, hour: 0, minute: 0, second: 0, nanosecond: 0 }).seconds()
}

/// The months are as long in one year as in another if both are leap years, or neither is.
pub proof fn lemma_days_before_month(year: int, other: int, month: int)
    requires
        is_leap_year(year) == is_leap_year(other),
    ensures
        days_before_month(year, month) == days_before_month(other, month),
    decreases month,
{
    if month > 1 {
        lemma_days_before_month(year, other, month - 1);
    }
}

/// The seconds of a year are numbered from its start to the start of the next one.
pub proof fn lemma_year(c: Civil)
    requires
        c.valid(),
    ensures
        start_of_year(c.year) <= c.seconds() < start_of_year(c.year + 1),
{
    reveal_with_fuel(days_before_month, 13);
}

/// Later months of a year begin on later days of it.
proof fn lemma_month(year: int, month: int, other: int)
    requires
        month < other,
        1 <= month,
    ensures
        days_before_month(year, month) + days_in_month(year, month) <= days_before_month(
            year,
            other,
        ),
    decreases other,
{
    if month < other - 1 {
        lemma_month(year, month, other - 1);
    }
}

/// Later years begin at later seconds.
proof fn lemma_year_order(year: int, other: int)
    requires
        year < other,
    ensures
        start_of_year(year + 1) <= start_of_year(other),
{
    reveal_with_fuel(days_before_month, 2);
    let (a, b) = (year, other - 1);
    assert(365 * a + a / 4 - a / 100 + a / 400 <= 365 * b + b / 4 - b / 100 + b / 400);
}

/// The number of the second, and the nanosecond in it, tell one time from another.
pub proof fn lemma_seconds_injective(a: Civil, b: Civil)
    requires
        a.valid(),
        b.valid(),
        a.seconds() == b.seconds(),
        a.nanosecond == b.nanosecond,
    ensures
        a == b,
{
    lemma_year(a);
    lemma_year(b);
    if a.year < b.year {
        lemma_year_order(a.year, b.year);
    } else if b.year < a.year {
        lemma_year_order(b.year, a.year);
    }
    if a.month < b.month {
        lemma_month(a.year, a.month, b.month);
    } else if b.month < a.month {
        lemma_month(a.year, b.month, a.month);
    }
}

/// A date with a time of day, in UTC. There is such a date, and such a time on it.
#[derive(Debug, Clone, Copy, PartialEq, Eq)]
pub struct DateTime {
    pub(crate) year: i32,
    pub(crate) month: u8,
    pub(crate) day: u8,
    pub(crate) hour: u8,
    pub(crate) minute: u8,
    pub(crate) second: u8,
    pub(crate) nanosecond: u32,
}

impl View for DateTime {
    type V = Civil;

    closed spec fn view(&self) -> Civil {
        Civil {
            year: self.year as int,
            month: self.month as int,
            day: self.day as int,
            hour: self.hour as int,
            minute: self.minute as int,
            second: self.second as int,
            nanosecond: self.nanosecond as int,
        }
    }
}

/// The view of a date with a time has the figures that it holds.
pub(crate) proof fn lemma_view(t: DateTime)
    ensures
        t@.year == t.year,
        t@.month == t.month,
        t@.day == t.day,
        t@.hour == t.hour,
        t@.minute == t.minute,
        t@.second == t.second,
        t@.nanosecond == t.nanosecond,
{
}

/// The view of a date with a time, where there is one.
pub open spec fn civil_of(time: Option<DateTime>) -> Option<Civil> {
    match time {
        Some(t) => Some(t@),
        None => None,
    }
}

/// The view of a date with a time that was read, or why there is none.
pub open spec fn civil_result(r: ParseResult<DateTime>) -> ParseResult<Civil> {
    match r {
        Ok(t) => Ok(t@),
        Err(e) => Err(e),
    }
}

/// Whether `time` is so many seconds before `other`, or neither is there.
pub open spec fn is_earlier(time: Option<Civil>, other: Option<Civil>, seconds: int) -> bool {
    match (time, other) {
        (Some(t), Some(o)) => t.seconds() == o.seconds() - seconds && t.nanosecond == o.nanosecond,
        (None, None) => true,
        _ => false,
    }
}

impl DateTime {
    #[verifier::type_invariant]
    spec fn well_formed(self) -> bool {
        self@.valid()
    }

    /// The given date with the given time of day, at the start of the second. There may be no
    /// such date, or no such time.
    pub fn new(year: i32, month: u8, day: u8, hour: u8, minute: u8, second: u8) -> (r: Option<
        DateTime,
    >)
        ensures
            r is Some <==> (Civil {
                year: year as int,
                month: month as int,
                day: day as int,
                hour: hour as int,
                minute: minute as int,
                second: second as int,
                nanosecond: 0,
            }).valid(),
            r matches Some(t) ==> t@ == (Civil {
                year: year as int,
                month: month as int,
                day: day as int,
                hour: hour as int,
                minute: minute as int,
                second: second as int,
                nanosecond: 0,
            }),
    {
        DateTime::new_nano(year, month, day, hour, minute, second, 0)
    }

    /// The given date with the given time of day, so many nanoseconds after the start of the
    /// second. From 1,000,000,000 on, they are those of a leap second. There may be no such date,
    /// or no such time.
    pub fn new_nano(
        year: i32,
        month: u8,
        day: u8,
        hour: u8,
        minute: u8,
        second: u8,
        nanosecond: u32,
    ) -> (r: Option<DateTime>)
        ensures
            r is Some <==> (Civil {
                year: year as int,
                month: month as int,
                day: day as int,
                hour: hour as int,
                minute: minute as int,
                second: second as int,
                nanosecond: nanosecond as int,
            }).valid(),
            r matches Some(t) ==> t@ == (Civil {
                year: year as int,
                month: month as int,
                day: day as int,
                hour: hour as int,
                minute: minute as int,
                second: second as int,
                nanosecond: nanosecond as int,
            }),
    {
        if year < -262_144 || year > 262_143 || month < 1 || month > 12 || day < 1 || hour >= 24
            || minute >= 60 || second >= 60 || nanosecond >= 2_000_000_000 {
            return None;
        }
        let y: u32 = (year + 262_400) as u32;
        assert(y % 4 == year as int % 4);
        assert(y % 100 == year as int % 100);
        assert(y % 400 == year as int % 400);
        let days: u8 = if month == 2 {
            if y % 4 == 0 && (y % 100 != 0 || y % 400 == 0) {
                29
            } else {
                28
            }
        } else if month == 4 || month == 6 || month == 9 || month == 11 {
            30
        } else {
            31
        };
        if day > days {
            return None;
        }
        Some(DateTime { year, month, day, hour, minute, second, nanosecond })
    }

    pub fn year(&self) -> (r: i32)
        ensures
            r == self@.year,
            self@.valid(),
    {
        proof {
            use_type_invariant(self);
        }
        self.year
    }

    pub fn month(&self) -> (r: u8)
        ensures
            r == self@.month,
            self@.valid(),
    {
        proof {
            use_type_invariant(self);
        }
        self.month
    }

    pub fn day(&self) -> (r: u8)
        ensures
            r == self@.day,
            self@.valid(),
    {
        proof {
            use_type_invariant(self);
        }
        self.day
    }

    pub fn hour(&self) -> (r: u8)
        ensures
            r == self@.hour,
            self@.valid(),
    {
        proof {
            use_type_invariant(self);
        }
        self.hour
    }

    pub fn minute(&self) -> (r: u8)
        ensures
            r == self@.minute,
            self@.valid(),
    {
        proof {
            use_type_invariant(self);
        }
        self.minute
    }

    pub fn second(&self) -> (r: u8)
        ensures
            r == self@.second,
            self@.valid(),
    {
        proof {
            use_type_invariant(self);
        }
        self.second
    }

    pub fn nanosecond(&self) -> (r: u32)
        ensures
            r == self@.nanosecond,
            self@.valid(),
    {
        proof {
            use_type_invariant(self);
        }
        self.nanosecond
    }
}

} // verus!
