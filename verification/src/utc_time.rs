//! ASN.1 `UTCTime`.

use vstd::prelude::*;

use crate::chrono_time;
use crate::element::SimpleAsn1Element;
use crate::error::{ParseError, ParseResult};
use crate::time::{self, Civil, DateTime};

verus! {

pub const UTCTIME_WITH_SECONDS_AND_OFFSET: &'static str = "%y%m%d%H%M%S%z";

pub const UTCTIME_WITH_SECONDS: &'static str = "%y%m%d%H%M%SZ";

pub const UTCTIME_WITH_OFFSET: &'static str = "%y%m%d%H%M%z";

pub const UTCTIME: &'static str = "%y%m%d%H%MZ";

/// The last two decimal digits of `n`, in ASCII.
pub open spec fn two_digits(n: int) -> Seq<u8> {
    seq![(0x30 + (n / 10) % 10) as u8, (0x30 + n % 10) as u8]
}

/// What is written of a date and a time, up to the minute or up to the second.
pub open spec fn clock_octets(c: Civil, seconds: bool) -> Seq<u8> {
    two_digits(c.year % 100) + two_digits(c.month) + two_digits(c.day) + two_digits(c.hour)
        + two_digits(c.minute) + if seconds {
        two_digits(c.second)
    } else {
        Seq::empty()
    }
}

/// Digits with the mark of a time in UTC behind them.
pub open spec fn in_utc(digits: Seq<u8>) -> Seq<u8> {
    digits + seq!['Z' as u8]
}

/// Digits with a sign and the digits of an offset behind them.
pub open spec fn with_sign(digits: Seq<u8>, behind: bool, offset: Seq<u8>) -> Seq<u8> {
    digits + seq![if behind {
        '-' as u8
    } else {
        '+' as u8
    }] + offset
}

/// The digits of an offset of so many minutes, whatever its sign.
pub open spec fn offset_digits(offset: int) -> Seq<u8> {
    if offset < 0 {
        two_digits(-offset / 60) + two_digits(-offset % 60)
    } else {
        two_digits(offset / 60) + two_digits(offset % 60)
    }
}

/// Digits with the hours and minutes behind them by which the clock is `offset` minutes ahead of
/// UTC.
pub open spec fn at_offset(digits: Seq<u8>, offset: int) -> Seq<u8> {
    with_sign(digits, offset < 0, offset_digits(offset))
}

/// What is written of a time in UTC.
pub open spec fn utc_octets(c: Civil, seconds: bool) -> Seq<u8> {
    in_utc(clock_octets(c, seconds))
}

/// What is written of a time on a clock that is `offset` minutes ahead of UTC.
pub open spec fn offset_octets(c: Civil, seconds: bool, offset: int) -> Seq<u8> {
    at_offset(clock_octets(c, seconds), offset)
}

/// Whether `c` is a time that `clock_octets` gives in full, but for the century.
pub open spec fn is_clock_time(c: Civil, seconds: bool) -> bool {
    c.valid() && c.nanosecond == 0 && (seconds || c.second == 0)
}

/// Whether a clock can be `offset` minutes ahead of UTC: it is less than a day.
pub open spec fn is_offset(offset: int) -> bool {
    -1440 < offset < 1440
}

/// Whether `data` is all decimal digits in ASCII.
pub open spec fn is_digits(data: Seq<u8>) -> bool {
    forall|i: int| 0 <= i < data.len() ==> 0x30 <= #[trigger] data[i] <= 0x39
}

/// Whether `digits` are pairs of digits for a date and a time, with or without the seconds.
pub open spec fn is_clock_digits(digits: Seq<u8>) -> bool {
    is_digits(digits) && (digits.len() == 10 || digits.len() == 12)
}

/// The number that the two digits at `i` are.
pub open spec fn number_at(digits: Seq<u8>, i: int) -> int {
    10 * (digits[i] - 0x30) + (digits[i + 1] - 0x30)
}

/// Whether `offset` are pairs of digits for hours and minutes.
pub open spec fn is_offset_digits(offset: Seq<u8>) -> bool {
    is_digits(offset) && offset.len() == 4
}

/// Whether a clock can be off by the hours and minutes that `offset` are.
pub open spec fn can_be_offset(offset: Seq<u8>) -> bool {
    number_at(offset, 0) < 24 && number_at(offset, 2) < 60
}

/// The number of minutes by which a clock is ahead of UTC that is off by the hours and minutes that
/// `offset` are. It is negative if the clock is `behind`.
pub open spec fn minutes_ahead(behind: bool, offset: Seq<u8>) -> int {
    if behind {
        -(60 * number_at(offset, 0) + number_at(offset, 2))
    } else {
        60 * number_at(offset, 0) + number_at(offset, 2)
    }
}

/// What a clock shows where it shows `digits`, whether or not there is such a time. The year is
/// one from 1970 to 2069.
pub open spec fn clock(digits: Seq<u8>) -> Civil {
    Civil {
        year: if number_at(digits, 0) < 70 {
            2000 + number_at(digits, 0)
        } else {
            1900 + number_at(digits, 0)
        },
        month: number_at(digits, 2),
        day: number_at(digits, 4),
        hour: number_at(digits, 6),
        minute: number_at(digits, 8),
        second: if digits.len() == 12 {
            number_at(digits, 10)
        } else {
            0
        },
        nanosecond: 0,
    }
}

/// The time that it is when a clock shows `c`, if there is such a time. A second numbered 60 is a
/// leap second.
pub open spec fn shown_time(c: Civil) -> Option<Civil> {
    if c.valid() {
        Some(c)
    } else if c.second == 60 && (Civil { second: 59, ..c }).valid() {
        Some(Civil { second: 59, nanosecond: 1_000_000_000, ..c })
    } else {
        None
    }
}

/// The first of two that there is.
pub open spec fn first_of(a: Option<Civil>, b: Option<Civil>) -> Option<Civil> {
    match a {
        Some(c) => Some(c),
        None => b,
    }
}

/// The time that is read from `text`: in one of the formats with an offset, or else in one of those
/// without.
pub open spec fn read_time(text: Seq<char>) -> Option<Civil> {
    first_of(
        first_of(
            chrono_time::with_offset_from_str(text, UTCTIME_WITH_SECONDS_AND_OFFSET@),
            chrono_time::with_offset_from_str(text, UTCTIME_WITH_OFFSET@),
        ),
        first_of(
            chrono_time::utc_from_str(text, UTCTIME_WITH_SECONDS@),
            chrono_time::utc_from_str(text, UTCTIME@),
        ),
    )
}

/// The time in the century that `UTCTime` means: a year from 2050 on is one of the century before.
pub open spec fn in_century(c: Civil) -> Civil {
    if c.year >= 2050 {
        c.with_year(c.year - 100)
    } else {
        c
    }
}

/// The number of seconds in the hundred years up to one from 2050 to 2070.
pub open spec fn century() -> int {
    36_525int * 86_400int
}

/// The number of the second that is numbered `seconds`, or of the one a century from it, so that it
/// is one of the years from 1950 to 2049.
pub open spec fn second_in_century(seconds: int) -> int {
    if seconds < time::start_of_year(1950) {
        seconds + century()
    } else if seconds >= time::start_of_year(2050) {
        seconds - century()
    } else {
        seconds
    }
}

/// What becomes of the time that was read. A leap second is none that ASN.1 allows.
pub open spec fn settled(read: Option<Civil>) -> ParseResult<Civil> {
    match read {
        Some(c) => if c.nanosecond >= 1_000_000 {
            Err(ParseError::InvalidValue)
        } else {
            Ok(in_century(c))
        },
        None => Err(ParseError::InvalidValue),
    }
}

/// What `digits` mean with the mark of a time in UTC behind them.
pub open spec fn meaning(digits: Seq<u8>) -> ParseResult<Civil> {
    settled(shown_time(clock(digits)))
}

/// Whether `r` is what `digits` mean on a clock that is `offset` minutes ahead of UTC.
pub open spec fn is_meaning(r: ParseResult<Civil>, digits: Seq<u8>, offset: int) -> bool {
    match meaning(digits) {
        Ok(_) => r matches Ok(c) && c.seconds() == second_in_century(
            clock(digits).seconds() - 60 * offset,
        ),
        Err(e) => r == Err::<Civil, ParseError>(e),
    }
}

/// Whether `r` is what `digits` mean with a sign and the digits of an offset behind them.
pub open spec fn is_meaning_at(
    r: ParseResult<Civil>,
    digits: Seq<u8>,
    behind: bool,
    offset: Seq<u8>,
) -> bool {
    if can_be_offset(offset) {
        &&& is_meaning(r, digits, minutes_ahead(behind, offset))
        &&& minutes_ahead(behind, offset) == 0 ==> r == meaning(digits)
    } else {
        r == Err::<Civil, ParseError>(ParseError::InvalidValue)
    }
}

/// Whether `r` is what comes of reading `data`, where they are digits with the mark of a time in
/// UTC or with an offset behind them. Whatever is read can be written, and a time that was written
/// is read back. So is one without the seconds. A time with an offset is read as the time that it
/// is in UTC. What digits mean does not depend on whether they are marked as UTC or have an offset
/// of zero, whatever its sign. Digits that are no time, or a leap second, are refused with any
/// offset, and so is an offset of a day and more, or with minutes from 60 on.
pub open spec fn is_reading(data: Seq<u8>, r: ParseResult<Civil>) -> bool {
    &&& r matches Ok(c) ==> is_clock_time(c, true) && 1950 <= c.year < 2050
    &&& forall|c: Civil, seconds: bool|
        data == #[trigger] utc_octets(c, seconds) && is_clock_time(c, seconds) && 1950 <= c.year
            < 2050 ==> r == Ok::<Civil, ParseError>(c)
    &&& forall|c: Civil, seconds: bool, offset: int|
        data == #[trigger] offset_octets(c, seconds, offset) && is_clock_time(c, seconds) && 1950
            <= c.year < 2050 && is_offset(offset) ==> (r matches Ok(t) && t.seconds()
            == second_in_century(c.seconds() - 60 * offset))
    &&& forall|digits: Seq<u8>|
        data == #[trigger] in_utc(digits) && is_clock_digits(digits) ==> r == meaning(digits)
    &&& forall|digits: Seq<u8>, behind: bool, offset: Seq<u8>|
        data == #[trigger] with_sign(digits, behind, offset) && is_clock_digits(digits)
            && is_offset_digits(offset) ==> is_meaning_at(r, digits, behind, offset)
}

/// Placeholder type for use with `Parser.read_element` for parsing an ASN.1 `UTCTime`. Parsing a
/// `UtcTime` will return a `DateTime`. Handles all four variants described in
/// ASN.1: with and without explicit seconds, and with either a fixed offset or directly in UTC.
pub struct UtcTime {
    _private: (),
}

proof fn lemma_two_digits(n: int)
    ensures
        is_digits(two_digits(n)),
        two_digits(n).len() == 2,
        0 <= n < 100 ==> number_at(two_digits(n), 0) == n,
{
    assert(0 <= n % 10 < 10 && 0 <= (n / 10) % 10 < 10);
}

/// A time is read off its digits, but for the century.
proof fn lemma_clock_octets(c: Civil, seconds: bool)
    requires
        is_clock_time(c, seconds),
        1950 <= c.year < 2050,
    ensures
        is_clock_digits(clock_octets(c, seconds)),
        clock_octets(c, seconds).len() == 12 <==> seconds,
        clock(clock_octets(c, seconds)) == written_year(c),
{
    let digits = clock_octets(c, seconds);
    let year = c.year % 100;
    lemma_two_digits(year);
    lemma_two_digits(c.month);
    lemma_two_digits(c.day);
    lemma_two_digits(c.hour);
    lemma_two_digits(c.minute);
    lemma_two_digits(c.second);
    assert(digits.subrange(0, 2) =~= two_digits(year));
    assert(digits.subrange(2, 4) =~= two_digits(c.month));
    assert(digits.subrange(4, 6) =~= two_digits(c.day));
    assert(digits.subrange(6, 8) =~= two_digits(c.hour));
    assert(digits.subrange(8, 10) =~= two_digits(c.minute));
    if seconds {
        assert(digits.subrange(10, 12) =~= two_digits(c.second));
    }
    assert forall|i: int| 0 <= i < digits.len() implies 0x30 <= #[trigger] digits[i] <= 0x39 by {
        let k = i / 2;
        assert(digits[i] == digits.subrange(2 * k, 2 * k + 2)[i - 2 * k]);
        assert(k == 0 || k == 1 || k == 2 || k == 3 || k == 4 || k == 5);
    }
    assert(number_at(digits, 0) == number_at(digits.subrange(0, 2), 0));
    assert(number_at(digits, 2) == number_at(digits.subrange(2, 4), 0));
    assert(number_at(digits, 4) == number_at(digits.subrange(4, 6), 0));
    assert(number_at(digits, 6) == number_at(digits.subrange(6, 8), 0));
    assert(number_at(digits, 8) == number_at(digits.subrange(8, 10), 0));
    if seconds {
        assert(number_at(digits, 10) == number_at(digits.subrange(10, 12), 0));
    }
}

/// Digits with a mark behind them are ASCII, and there is no sign in them.
proof fn lemma_in_utc(digits: Seq<u8>)
    requires
        is_clock_digits(digits),
    ensures
        forall|i: int|
            0 <= i < in_utc(digits).len() ==> #[trigger] in_utc(digits)[i] < 0x80
                && in_utc(digits)[i] != '+' as u8 && in_utc(digits)[i] != '-' as u8,
{
}

/// Digits with an offset behind them are ASCII, and do not end in the mark of a time in UTC.
proof fn lemma_with_sign(digits: Seq<u8>, behind: bool, offset: Seq<u8>)
    requires
        is_clock_digits(digits),
        is_offset_digits(offset),
    ensures
        forall|i: int|
            0 <= i < with_sign(digits, behind, offset).len() ==> #[trigger] with_sign(
                digits,
                behind,
                offset,
            )[i] < 0x80,
        with_sign(digits, behind, offset).len() > 0,
        with_sign(digits, behind, offset).last() <= 0x39,
        can_be_offset(offset) ==> is_offset(minutes_ahead(behind, offset)),
{
    assert(with_sign(digits, behind, offset).last() == offset[3]);
    assert(offset[0] >= 0x30 && offset[1] >= 0x30 && offset[2] >= 0x30);
}

/// The digits of an offset give that offset.
proof fn lemma_offset_digits(offset: int)
    requires
        is_offset(offset),
    ensures
        is_offset_digits(offset_digits(offset)),
        can_be_offset(offset_digits(offset)),
        minutes_ahead(offset < 0, offset_digits(offset)) == offset,
{
    let minutes = if offset < 0 {
        -offset
    } else {
        offset
    };
    let digits = offset_digits(offset);
    lemma_two_digits(minutes / 60);
    lemma_two_digits(minutes % 60);
    assert(digits.subrange(0, 2) =~= two_digits(minutes / 60));
    assert(digits.subrange(2, 4) =~= two_digits(minutes % 60));
    assert(number_at(digits, 0) == number_at(digits.subrange(0, 2), 0));
    assert(number_at(digits, 2) == number_at(digits.subrange(2, 4), 0));
}

/// The hundred years up to one from 2050 to 2070 are equally long, and the one has a leap day if
/// the other has.
proof fn lemma_century(c: Civil)
    requires
        c.valid(),
        2050 <= c.year <= 2070,
        c.nanosecond == 0,
    ensures
        c.with_year(c.year - 100).valid(),
        c.with_year(c.year - 100).seconds() == c.seconds() - century(),
{
    let y = c.year;
    assert((y - 1) / 4 == (y - 101) / 4 + 25 && y % 4 == (y - 100) % 4);
    assert((y - 1) / 100 == 20 && (y - 101) / 100 == 19 && y % 100 != 0 && (y - 100) % 100 != 0);
    assert((y - 1) / 400 == 5 && (y - 101) / 400 == 4);
    assert(time::is_leap_year(y) == time::is_leap_year(y - 100));
    time::lemma_days_before_month(y, y - 100, c.month);
}

/// The time that chrono takes for `c` where only the last two digits of the year are written.
spec fn written_year(c: Civil) -> Civil {
    if c.year < 1970 {
        c.with_year(c.year + 100)
    } else {
        c
    }
}

proof fn lemma_written_year(c: Civil)
    requires
        c.valid(),
        1950 <= c.year < 2050,
        c.nanosecond == 0,
    ensures
        written_year(c).valid(),
        1970 <= written_year(c).year <= 2069,
        in_century(written_year(c)) == c,
        c.year < 1970 ==> written_year(c).seconds() == c.seconds() + century(),
{
    if c.year < 1970 {
        lemma_century(c.with_year(c.year + 100));
    }
}

/// A time with an offset is put into the century that its year in UTC has.
proof fn lemma_local_time(c: Civil, offset: int, t: Civil)
    requires
        c.valid(),
        1970 <= c.year <= 2069,
        c.nanosecond == 0,
        is_offset(offset),
        t.valid(),
        1969 <= t.year <= 2070,
        t.nanosecond == 0,
        t.seconds() == c.seconds() - 60 * offset,
    ensures
        in_century(t).seconds() == second_in_century(c.seconds() - 60 * offset),
{
    time::lemma_year(t);
    if t.year >= 2050 {
        lemma_century(t);
    }
}

/// A century more makes no difference to the second in the century.
proof fn lemma_written_second(c: Civil, offset: int)
    requires
        c.valid(),
        1950 <= c.year < 2050,
        c.nanosecond == 0,
        is_offset(offset),
    ensures
        second_in_century(written_year(c).seconds() - 60 * offset) == second_in_century(
            c.seconds() - 60 * offset,
        ),
{
    lemma_written_year(c);
    time::lemma_year(c);
}

/// The time that is read from `text` in one of the formats without an offset.
fn read_in_utc(text: &str) -> (r: Option<DateTime>)
    ensures
        time::civil_of(r) == first_of(
            chrono_time::utc_from_str(text@, UTCTIME_WITH_SECONDS@),
            chrono_time::utc_from_str(text@, UTCTIME@),
        ),
        r matches Some(t) ==> t@.valid() && 1970 <= t@.year <= 2069 && (t@.nanosecond == 0
            || t@.nanosecond == 1_000_000_000),
        r is Some ==> text@.len() > 0 && text@.last() == 'Z',
        forall|digits: Seq<u8>|
            text@ == crate::utf8::ascii_text(#[trigger] in_utc(digits)) && is_clock_digits(digits)
                ==> time::civil_of(r) == shown_time(clock(digits)),
{
    proof {
        reveal_strlit("%y%m%d%H%M%SZ");
        reveal_strlit("%y%m%d%H%MZ");
        assert(UTCTIME_WITH_SECONDS@.len() != UTCTIME@.len());
    }
    match chrono_time::parse_in_utc(text, UTCTIME_WITH_SECONDS) {
        Some(t) => Some(t),
        None => chrono_time::parse_in_utc(text, UTCTIME),
    }
}

/// The time that is read from `text` in one of the formats with an offset.
fn read_with_offset(text: &str) -> (r: Option<DateTime>)
    ensures
        time::civil_of(r) == first_of(
            chrono_time::with_offset_from_str(text@, UTCTIME_WITH_SECONDS_AND_OFFSET@),
            chrono_time::with_offset_from_str(text@, UTCTIME_WITH_OFFSET@),
        ),
        r matches Some(t) ==> t@.valid() && 1969 <= t@.year <= 2070 && (t@.nanosecond == 0
            || t@.nanosecond == 1_000_000_000),
        (forall|i: int| 0 <= i < text@.len() ==> #[trigger] text@[i] != '+' && text@[i] != '-')
            ==> r is None,
        forall|digits: Seq<u8>, behind: bool, offset: Seq<u8>|
            text@ == crate::utf8::ascii_text(#[trigger] with_sign(digits, behind, offset))
                && is_clock_digits(digits) && is_offset_digits(offset) ==> time::is_earlier(
                time::civil_of(r),
                (if can_be_offset(offset) {
                    shown_time(clock(digits))
                } else {
                    None
                }),
                60 * minutes_ahead(behind, offset),
            ),
{
    proof {
        reveal_strlit("%y%m%d%H%M%S%z");
        reveal_strlit("%y%m%d%H%M%z");
        assert(UTCTIME_WITH_SECONDS_AND_OFFSET@.len() != UTCTIME_WITH_OFFSET@.len());
    }
    match chrono_time::parse_with_offset(text, UTCTIME_WITH_SECONDS_AND_OFFSET) {
        Some(t) => Some(t),
        None => chrono_time::parse_with_offset(text, UTCTIME_WITH_OFFSET),
    }
}

/// The digits that are written of a time, with or without the seconds, mean that time.
pub proof fn lemma_written_time(c: Civil, seconds: bool)
    requires
        is_clock_time(c, seconds),
        1950 <= c.year < 2050,
    ensures
        is_clock_digits(clock_octets(c, seconds)),
        meaning(clock_octets(c, seconds)) == Ok::<Civil, ParseError>(c),
{
    lemma_clock_octets(c, seconds);
    lemma_written_year(c);
}

/// A time of the years from 1950 to 1969 and the one a hundred years later are both there or
/// neither is.
pub proof fn lemma_century_later(c: Civil)
    requires
        1950 <= c.year < 1970,
        c.nanosecond == 0,
    ensures
        (Civil { year: c.year + 100, ..c }).valid() <==> c.valid(),
        (Civil { second: 59, year: c.year + 100, ..c }).valid() <==> (Civil {
            second: 59,
            ..c
        }).valid(),
        c.valid() ==> (Civil { year: c.year + 100, ..c }).seconds() == c.seconds() + century(),
{
    let later = Civil { year: c.year + 100, ..c };
    let y = c.year;
    assert((y + 100) % 4 == y % 4 && y % 100 != 0 && (y + 100) % 100 != 0);
    if c.valid() {
        lemma_century(later);
    }
}

/// What digits with an offset mean is the second that the clock shows less the offset, or the one a
/// century from it.
pub proof fn lemma_clock_second(digits: Seq<u8>, behind: bool, offset: Seq<u8>)
    requires
        is_clock_digits(digits),
        is_offset_digits(offset),
        can_be_offset(offset),
        clock(digits).valid(),
    ensures
        ({
            let s = clock(digits).seconds() - 60 * minutes_ahead(behind, offset);
            second_in_century(s) == s || (second_in_century(s) == s - 3_155_760_000 && s
                >= time::start_of_year(2050))
        }),
{
    lemma_with_sign(digits, behind, offset);
    assert(0x30 <= digits[0] <= 0x39 && 0x30 <= digits[1] <= 0x39);
    time::lemma_year(clock(digits));
    reveal_with_fuel(time::days_before_month, 2);
}

/// Seconds that are left out are zero.
pub proof fn lemma_omitted_seconds(digits: Seq<u8>)
    requires
        is_clock_digits(digits),
        digits.len() == 10,
    ensures
        is_clock_digits(digits + two_digits(0)),
        meaning(digits + two_digits(0)) == meaning(digits),
{
    let whole = digits + two_digits(0);
    lemma_two_digits(0);
    assert forall|i: int| 0 <= i < whole.len() implies 0x30 <= #[trigger] whole[i] <= 0x39 by {
        assert(whole[i] == if i < 10 {
            digits[i]
        } else {
            two_digits(0)[i - 10]
        });
    }
    assert(clock(whole) == clock(digits));
}

/// Digits mean no other times than those that can be written, and a leap second is none.
pub proof fn lemma_meaning(digits: Seq<u8>)
    requires
        is_clock_digits(digits),
    ensures
        meaning(digits) matches Ok(c) ==> is_clock_time(c, true) && 1950 <= c.year < 2050,
        meaning(digits) matches Err(e) ==> e == ParseError::InvalidValue,
        clock(digits).second >= 60 ==> meaning(digits) is Err,
{
    let c = clock(digits);
    assert(0x30 <= digits[0] <= 0x39 && 0x30 <= digits[1] <= 0x39);
    if c.valid() && c.year >= 2050 {
        lemma_century(c);
    }
}

/// Without an offset and with one of zero, digits mean the same.
proof fn lemma_offset_zero(digits: Seq<u8>, r: ParseResult<Civil>)
    requires
        is_clock_digits(digits),
        is_meaning(r, digits, 0),
        r matches Ok(c) ==> is_clock_time(c, true),
    ensures
        r == meaning(digits),
{
    if let Ok(m) = meaning(digits) {
        let c = clock(digits);
        assert(0x30 <= digits[0] <= 0x39 && 0x30 <= digits[1] <= 0x39);
        time::lemma_year(c);
        if c.year >= 2050 {
            lemma_century(c);
        }
        time::lemma_seconds_injective(r->Ok_0, m);
    }
}

/// The time that `text` means.
fn read_text(text: &str) -> (r: ParseResult<DateTime>)
    ensures
        time::civil_result(r) == settled(read_time(text@)),
        r matches Ok(p) ==> is_clock_time(p@, true) && 1950 <= p@.year < 2050,
        forall|digits: Seq<u8>|
            text@ == crate::utf8::ascii_text(#[trigger] in_utc(digits)) && is_clock_digits(digits)
                ==> time::civil_result(r) == meaning(digits),
        forall|digits: Seq<u8>, behind: bool, offset: Seq<u8>|
            text@ == crate::utf8::ascii_text(#[trigger] with_sign(digits, behind, offset))
                && is_clock_digits(digits) && is_offset_digits(offset) ==> is_meaning_at(
                time::civil_result(r),
                digits,
                behind,
                offset,
            ),
{
    let in_utc: Option<DateTime> = read_in_utc(text);
    let with_offset: Option<DateTime> = read_with_offset(text);
    proof {
        assert forall|digits: Seq<u8>|
            text@ == crate::utf8::ascii_text(#[trigger] self::in_utc(digits)) && is_clock_digits(
                digits,
            ) implies with_offset is None && time::civil_of(in_utc) == shown_time(
            clock(digits),
        ) by {
            lemma_in_utc(digits);
            assert forall|i: int| 0 <= i < text@.len() implies #[trigger] text@[i] != '+'
                && text@[i] != '-' by {
                assert(self::in_utc(digits)[i] < 0x80);
            }
        }
        if let Some(t) = with_offset {
            if t@.year >= 2050 && t@.nanosecond == 0 {
                lemma_century(t@);
            }
        } else if let Some(t) = in_utc {
            if t@.year >= 2050 && t@.nanosecond == 0 {
                lemma_century(t@);
            }
        }
        let r = settled(first_of(time::civil_of(with_offset), time::civil_of(in_utc)));
        assert forall|digits: Seq<u8>, behind: bool, offset: Seq<u8>|
            text@ == crate::utf8::ascii_text(#[trigger] with_sign(digits, behind, offset))
                && is_clock_digits(digits) && is_offset_digits(offset) implies is_meaning_at(
            r,
            digits,
            behind,
            offset,
        ) by {
            lemma_with_sign(digits, behind, offset);
            assert(text@.last() != 'Z');
            let c = clock(digits);
            let ahead = minutes_ahead(behind, offset);
            assert(0x30 <= digits[0] <= 0x39 && 0x30 <= digits[1] <= 0x39);
            if can_be_offset(offset) {
                if c.valid() {
                    lemma_local_time(c, ahead, with_offset->0@);
                }
                if ahead == 0 {
                    lemma_offset_zero(digits, r);
                }
            }
        }
    }
    UtcTime::settle(in_utc, with_offset)
}

fn push_two_digits(dest: &mut Vec<u8>, val: u8)
    ensures
        final(dest)@ == old(dest)@ + two_digits(val as int),
{
    dest.push('0' as u8 + ((val / 10) % 10));
    dest.push('0' as u8 + (val % 10));
}

impl UtcTime {
    /// The time that is meant, given what was read as a time in UTC and what was read as a time
    /// with an offset.
    pub fn settle(in_utc: Option<DateTime>, with_offset: Option<DateTime>) -> (r: ParseResult<
        DateTime,
    >)
        requires
            first_of(time::civil_of(with_offset), time::civil_of(in_utc)) matches Some(c)
                ==> c.nanosecond >= 1_000_000 || in_century(c).valid(),
        ensures
            (match r {
                Ok(t) => Ok(t@),
                Err(e) => Err(e),
            }) == settled(first_of(time::civil_of(with_offset), time::civil_of(in_utc))),
    {
        let read: Option<DateTime> = match with_offset {
            Some(t) => Some(t),
            None => in_utc,
        };
        match read {
            Some(t) => {
                if t.nanosecond() >= 1_000_000 {
                    return Err(ParseError::InvalidValue);
                }
                // The X.509 mapping of two-digit years to full ones:
                // https://tools.ietf.org/html/rfc5280#section-4.1.2.5.1
                if t.year() >= 2050 {
                    return Ok(
                        chrono_time::utc_at(
                            t.year() - 100,
                            t.month(),
                            t.day(),
                            t.hour(),
                            t.minute(),
                            t.second(),
                        ),
                    );
                }
                Ok(t)
            },
            None => Err(ParseError::InvalidValue),
        }
    }
}

impl<'a> SimpleAsn1Element<'a> for UtcTime {
    const TAG: u8 = 0x17;

    type ParsedType = DateTime;

    type WriteType = DateTime;

    type Value = Civil;

    open spec fn tag() -> u8 {
        0x17
    }

    open spec fn parsed_value(parsed: DateTime) -> Civil {
        parsed@
    }

    open spec fn decode(data: Seq<u8>) -> ParseResult<Civil> {
        if vstd::utf8::valid_utf8(data) {
            settled(read_time(vstd::utf8::decode_utf8(data)))
        } else {
            Err(ParseError::InvalidValue)
        }
    }

    open spec fn assures(data: Seq<u8>, r: ParseResult<Civil>) -> bool {
        is_reading(data, r)
    }

    /// A `UTCTime` only encodes times of the years from 1950 to 2049.
    open spec fn writable(val: DateTime) -> bool {
        1950 <= val@.year < 2050
    }

    open spec fn encodes(val: DateTime, data: Seq<u8>) -> bool {
        data == utc_octets(val@, true)
    }

    open spec fn adds(val: DateTime, before: Seq<u8>, data: Seq<u8>) -> bool {
        true
    }

    proof fn lemma_tag() {
    }

    fn parse_data(data: &'a [u8]) -> (r: ParseResult<DateTime>) {
        proof {
            assert forall|digits: Seq<u8>|
                data@ == #[trigger] in_utc(digits) && is_clock_digits(
                    digits,
                ) implies vstd::utf8::valid_utf8(data@) && vstd::utf8::decode_utf8(data@)
                == crate::utf8::ascii_text(data@) by {
                lemma_in_utc(digits);
                crate::utf8::lemma_ascii(data@);
            }
            assert forall|digits: Seq<u8>, behind: bool, offset: Seq<u8>|
                data@ == #[trigger] with_sign(digits, behind, offset) && is_clock_digits(digits)
                    && is_offset_digits(offset) implies vstd::utf8::valid_utf8(data@)
                && vstd::utf8::decode_utf8(data@) == crate::utf8::ascii_text(data@) by {
                lemma_with_sign(digits, behind, offset);
                crate::utf8::lemma_ascii(data@);
            }
            assert forall|c: Civil, seconds: bool|
                is_clock_time(c, seconds) && 1950 <= c.year < 2050 implies is_clock_digits(
                #[trigger] clock_octets(c, seconds),
            ) && meaning(clock_octets(c, seconds)) == Ok::<Civil, ParseError>(c) && clock(
                clock_octets(c, seconds),
            ) == written_year(c) by {
                lemma_clock_octets(c, seconds);
                lemma_written_time(c, seconds);
            }
            assert forall|offset: int| is_offset(offset) implies is_offset_digits(
                #[trigger] offset_digits(offset),
            ) && can_be_offset(offset_digits(offset)) && minutes_ahead(
                offset < 0,
                offset_digits(offset),
            ) == offset by {
                lemma_offset_digits(offset);
            }
        }
        let text = match core::str::from_utf8(data) {
            Ok(text) => text,
            Err(_) => return Err(ParseError::InvalidValue),
        };
        proof {
            vstd::utf8::encode_utf8_decode_utf8(text@);
        }
        let r = read_text(text);
        proof {
            let result = time::civil_result(r);
            assert forall|c: Civil, seconds: bool, offset: int|
                data@ == #[trigger] offset_octets(c, seconds, offset) && is_clock_time(c, seconds)
                    && 1950 <= c.year < 2050 && is_offset(offset) implies (result matches Ok(t)
                && t.seconds() == second_in_century(c.seconds() - 60 * offset)) by {
                let digits = clock_octets(c, seconds);
                assert(is_meaning_at(result, digits, offset < 0, offset_digits(offset)));
                lemma_written_second(c, offset);
            }
            assert(is_reading(data@, result));
        }
        r
    }

    fn write_data(dest: &mut Vec<u8>, val: DateTime) {
        let year: i32 = if val.year() < 2000 {
            val.year() - 1900
        } else {
            val.year() - 2000
        };
        assert(year == val@.year % 100);
        let ghost before = dest@;
        let ghost c = val@;
        push_two_digits(dest, year as u8);
        push_two_digits(dest, val.month());
        let ghost date = two_digits(c.year % 100) + two_digits(c.month);
        assert(dest@ =~= before + date);
        push_two_digits(dest, val.day());
        assert(dest@ =~= before + (date + two_digits(c.day)));
        push_two_digits(dest, val.hour());
        let ghost hour = date + two_digits(c.day) + two_digits(c.hour);
        assert(dest@ =~= before + hour);
        push_two_digits(dest, val.minute());
        assert(dest@ =~= before + (hour + two_digits(c.minute)));
        push_two_digits(dest, val.second());
        assert(dest@ =~= before + clock_octets(c, true));
        dest.push('Z' as u8);
        proof {
            let data = utc_octets(val@, true);
            assert(dest@ =~= before + data);
            assert(Self::encodes(val, data));
        }
    }
}

} // verus!
