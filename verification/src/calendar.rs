//! Dates: from a count of days, and from a count of seconds, to the stamp that
//! the configuration file keeps.

use vstd::prelude::*;

use crate::numerals::{decimal, law_padding_keeps_the_number, number, padded, padded_of};

verus! {

/// Whether a year of the Gregorian calendar has a 29th of February.
pub open spec fn is_leap(year: int) -> bool {
    year % 4 == 0 && (year % 100 != 0 || year % 400 == 0)
}

/// How many days a month has.
pub open spec fn days_in_month(year: int, month: int) -> int {
    if month == 2 {
        if is_leap(year) {
            29
        } else {
            28
        }
    } else if month == 4 || month == 6 || month == 9 || month == 11 {
        30
    } else {
        31
    }
}

/// How many days of a year lie before a month.
pub open spec fn days_before_month(year: int, month: int) -> int
    decreases month,
{
    if month <= 1 {
        0
    } else {
        days_before_month(year, month - 1) + days_in_month(year, month - 1)
    }
}

/// How many leap years there are from the year 1 to the year before `year`,
/// counted downwards where `year` is not positive.
pub open spec fn leap_years_before(year: int) -> int {
    (year - 1) / 4 - (year - 1) / 100 + (year - 1) / 400
}

/// How many days lie between 1970-01-01 and the first day of a year.
pub open spec fn days_before_year(year: int) -> int {
    365 * (year - 1970) + leap_years_before(year) - leap_years_before(1970)
}

/// Whether the calendar has such a date.
pub open spec fn is_date(year: int, month: int, day: int) -> bool {
    1 <= month <= 12 && 1 <= day <= days_in_month(year, month)
}

/// How many days lie between 1970-01-01 and a date.
pub open spec fn day_number(year: int, month: int, day: int) -> int {
    days_before_year(year) + days_before_month(year, month) + day - 1
}

/// How a count of leap years goes on from one year to the next.
proof fn lemma_multiples(year: int)
    ensures
        year / 4 == (year - 1) / 4 + (if year % 4 == 0 {
            1int
        } else {
            0int
        }),
        year / 100 == (year - 1) / 100 + (if year % 100 == 0 {
            1int
        } else {
            0int
        }),
        year / 400 == (year - 1) / 400 + (if year % 400 == 0 {
            1int
        } else {
            0int
        }),
        year % 400 == 0 ==> year % 100 == 0,
        year % 100 == 0 ==> year % 4 == 0,
{
}

/// Years are as long as the calendar makes them, and so are their months taken
/// together.
pub proof fn law_a_year_follows_the_year_before(year: int)
    ensures
        days_before_year(1970) == 0,
        days_before_year(year + 1) == days_before_year(year) + (if is_leap(year) {
            366int
        } else {
            365int
        }),
        days_before_month(year, 13) == (if is_leap(year) {
            366int
        } else {
            365int
        }),
{
    lemma_multiples(year);
    lemma_months(year);
}

proof fn lemma_months(y: int)
    ensures
        ({
            let l = if is_leap(y) {
                1int
            } else {
                0int
            };
            &&& days_before_month(y, 1) == 0
            &&& days_before_month(y, 2) == 31
            &&& days_before_month(y, 3) == 59 + l
            &&& days_before_month(y, 4) == 90 + l
            &&& days_before_month(y, 5) == 120 + l
            &&& days_before_month(y, 6) == 151 + l
            &&& days_before_month(y, 7) == 181 + l
            &&& days_before_month(y, 8) == 212 + l
            &&& days_before_month(y, 9) == 243 + l
            &&& days_before_month(y, 10) == 273 + l
            &&& days_before_month(y, 11) == 304 + l
            &&& days_before_month(y, 12) == 334 + l
            &&& days_before_month(y, 13) == 365 + l
        }),
{
    reveal_with_fuel(days_before_month, 14);
}

/// The year that a day of a cycle of 400 years belongs to, where years begin
/// in March.
spec fn year_of_era(doe: int) -> int {
    (doe - doe / 1460 + doe / 36_524 - doe / 146_096) / 365
}

/// How many days of a cycle lie before one of its years.
spec fn era_days(yoe: int) -> int {
    365 * yoe + yoe / 4 - yoe / 100
}

proof fn lemma_year_of_era_parts(doe: int, c: int, q: int, y: int, t: int)
    requires
        0 <= c <= 3,
        0 <= q <= 24,
        0 <= y <= 3,
        0 <= t <= 365,
        t == 365 ==> y == 3 && (q < 24 || c == 3),
        doe == 36_524 * c + 1461 * q + 365 * y + t,
    ensures
        year_of_era(doe) == 100 * c + 4 * q + y,
{
    let a = doe / 1460;
    let b = doe / 36_524;
    let e = doe / 146_096;
    let left = 24 * c + q + t - a + b - e;
    assert(0 <= left < 365) by {
        assert(1460 * a <= doe < 1460 * a + 1460);
        if c == 0 {
        } else if c == 1 {
        } else if c == 2 {
        } else {
        }
    }
    assert(doe - a + b - e == 365 * (100 * c + 4 * q + y) + left);
}

proof fn lemma_era_days_parts(c: int, q: int, y: int, t: int)
    requires
        0 <= c <= 3,
        0 <= q <= 24,
        0 <= y <= 3,
        t == 365 ==> y == 3 && (q < 24 || c == 3),
    ensures
        era_days(100 * c + 4 * q + y) == 36_524 * c + 1461 * q + 365 * y,
        t == 365 ==> is_leap(100 * c + 4 * q + y + 1),
{
    let yoe = 100 * c + 4 * q + y;
    assert(yoe / 4 == 25 * c + q);
    assert(yoe / 100 == c);
    if t == 365 {
        assert((yoe + 1) % 4 == 0);
        if q < 24 {
            assert((yoe + 1) % 100 == 4 * q + 4);
        } else {
            assert(yoe + 1 == 400);
        }
    }
}

/// A day of a cycle by its century, its four years, its year and its day.
proof fn lemma_day_parts(doe: int) -> (parts: (int, int, int, int))
    requires
        0 <= doe < 146_097,
    ensures
        0 <= parts.0 <= 3,
        0 <= parts.1 <= 24,
        0 <= parts.2 <= 3,
        0 <= parts.3 <= 365,
        parts.3 == 365 ==> parts.2 == 3 && (parts.1 < 24 || parts.0 == 3),
        doe == 36_524 * parts.0 + 1461 * parts.1 + 365 * parts.2 + parts.3,
{
    let c = if doe == 146_096 {
        3int
    } else {
        doe / 36_524
    };
    let r = doe - 36_524 * c;
    assert(0 <= r <= 36_524 && (r == 36_524 ==> c == 3));
    let q = r / 1461;
    let s = r - 1461 * q;
    assert(0 <= s <= 1460);
    let y = if s == 1460 {
        3int
    } else {
        s / 365
    };
    (c, q, y, s - 365 * y)
}

proof fn lemma_year_of_era(doe: int)
    requires
        0 <= doe < 146_097,
    ensures
        0 <= year_of_era(doe) < 400,
        0 <= doe - era_days(year_of_era(doe)) <= 365,
        doe - era_days(year_of_era(doe)) == 365 ==> is_leap(year_of_era(doe) + 1),
{
    let (c, q, y, t) = lemma_day_parts(doe);
    lemma_year_of_era_parts(doe, c, q, y, t);
    lemma_era_days_parts(c, q, y, t);
}

/// The date that lies a number of days after 1970-01-01, or before it where
/// the number is negative.
pub open spec fn date_of(days: int) -> (int, int, int) {
    choose|date: (int, int, int)|
        #![trigger day_number(date.0, date.1, date.2)]
        is_date(date.0, date.1, date.2) && day_number(date.0, date.1, date.2) == days
}

/// The day of a cycle of 400 years, which begins on a 1st of March.
spec fn day_of_era(z: int) -> int {
    (z + 719_468) % 146_097
}

/// A date put together from a cycle, a year of it that begins in March, and a
/// day of that year.
proof fn lemma_date_in_era(era: int, yoe: int, doy: int)
    requires
        0 <= yoe < 400,
        0 <= doy <= 365,
        doy == 365 ==> is_leap(yoe + 1),
    ensures
        ({
            let mp = (5 * doy + 2) / 153;
            let d = doy - (153 * mp + 2) / 5 + 1;
            let m = if mp < 10 {
                mp + 3
            } else {
                mp - 9
            };
            let y = yoe + era * 400 + if m <= 2 {
                1int
            } else {
                0int
            };
            &&& 0 <= mp <= 11
            &&& is_date(y, m, d)
            &&& day_number(y, m, d) == era * 146_097 + era_days(yoe) + doy - 719_468
        }),
{
    let y0 = yoe + era * 400;
    let mp = (5 * doy + 2) / 153;
    let d = doy - (153 * mp + 2) / 5 + 1;
    lemma_months(y0);
    lemma_months(y0 + 1);
    assert(y0 / 4 == yoe / 4 + 100 * era);
    assert(y0 / 100 == yoe / 100 + 4 * era);
    assert(y0 / 400 == era);
    assert(is_leap(y0 + 1) == is_leap(yoe + 1));
    assert(leap_years_before(y0 + 1) == yoe / 4 - yoe / 100 + 97 * era);
    assert(days_before_year(y0 + 1) == 365 * yoe + yoe / 4 - yoe / 100 + 146_097 * era - 719_162);
    law_a_year_follows_the_year_before(y0);
    if mp == 0 {
    } else if mp == 1 {
    } else if mp == 2 {
    } else if mp == 3 {
    } else if mp == 4 {
    } else if mp == 5 {
    } else if mp == 6 {
    } else if mp == 7 {
    } else if mp == 8 {
    } else if mp == 9 {
    } else if mp == 10 {
    } else {
        assert(mp == 11);
    }
}

proof fn lemma_years_ascend(y1: int, y2: int)
    requires
        y1 <= y2,
    ensures
        days_before_year(y1) <= days_before_year(y2),
    decreases y2 - y1,
{
    if y1 < y2 {
        lemma_years_ascend(y1, y2 - 1);
        law_a_year_follows_the_year_before(y2 - 1);
    }
}

proof fn lemma_months_ascend(y: int, m1: int, m2: int)
    requires
        1 <= m1 <= m2,
    ensures
        days_before_month(y, m1) <= days_before_month(y, m2),
    decreases m2 - m1,
{
    if m1 < m2 {
        lemma_months_ascend(y, m1, m2 - 1);
    }
}

proof fn lemma_day_of_year(y: int, m: int, d: int)
    requires
        is_date(y, m, d),
    ensures
        days_before_year(y) <= day_number(y, m, d) < days_before_year(y + 1),
{
    lemma_months_ascend(y, 1, m);
    lemma_months_ascend(y, m + 1, 13);
    law_a_year_follows_the_year_before(y);
}

/// Every day has one date only.
pub proof fn law_a_day_has_one_date(y1: int, m1: int, d1: int, y2: int, m2: int, d2: int)
    requires
        is_date(y1, m1, d1),
        is_date(y2, m2, d2),
        day_number(y1, m1, d1) == day_number(y2, m2, d2),
    ensures
        y1 == y2,
        m1 == m2,
        d1 == d2,
{
    lemma_day_of_year(y1, m1, d1);
    lemma_day_of_year(y2, m2, d2);
    if y1 < y2 {
        lemma_years_ascend(y1 + 1, y2);
    } else if y2 < y1 {
        lemma_years_ascend(y2 + 1, y1);
    } else if m1 < m2 {
        lemma_months_ascend(y1, m1 + 1, m2);
    } else if m2 < m1 {
        lemma_months_ascend(y1, m2 + 1, m1);
    }
}

/// Every day has a date, and a date is the one of its day.
pub proof fn law_dates_and_days(days: int, year: int, month: int, day: int)
    ensures
        ({
            let date = date_of(days);
            is_date(date.0, date.1, date.2) && day_number(date.0, date.1, date.2) == days
        }),
        is_date(year, month, day) ==> date_of(day_number(year, month, day)) == (year, month, day),
{
    lemma_has_date(days);
    if is_date(year, month, day) {
        let n = day_number(year, month, day);
        lemma_has_date(n);
        let date = date_of(n);
        law_a_day_has_one_date(date.0, date.1, date.2, year, month, day);
    }
}

proof fn lemma_has_date(days: int)
    ensures
        ({
            let date = date_of(days);
            is_date(date.0, date.1, date.2) && day_number(date.0, date.1, date.2) == days
        }),
{
    let era = (days + 719_468) / 146_097;
    let doe = day_of_era(days);
    let yoe = year_of_era(doe);
    let doy = doe - era_days(yoe);
    lemma_year_of_era(doe);
    lemma_date_in_era(era, yoe, doy);
    let mp = (5 * doy + 2) / 153;
    let d = doy - (153 * mp + 2) / 5 + 1;
    let m = if mp < 10 {
        mp + 3
    } else {
        mp - 9
    };
    let y = yoe + era * 400 + if m <= 2 {
        1int
    } else {
        0int
    };
    let date = (y, m, d);
    assert(is_date(date.0, date.1, date.2) && day_number(date.0, date.1, date.2) == days);
}

/// The date that lies a number of days after 1970-01-01 (or before it), by
/// Howard Hinnant's algorithm.
pub fn civil_from_days(z: i64) -> (date: (i64, u32, u32))
    requires
        z <= i64::MAX - 719_468,
    ensures
        is_date(date.0 as int, date.1 as int, date.2 as int),
        day_number(date.0 as int, date.1 as int, date.2 as int) == z,
        (date.0 as int, date.1 as int, date.2 as int) == date_of(z as int),
{
    let days: i64 = z + 719_468;
    let era: i64 = if days >= 0 {
        days / 146_097
    } else {
        -((146_096 - days) / 146_097)
    };
    let doe: u64 = (days - era * 146_097) as u64;
    let yoe: u64 = (doe - doe / 1460 + doe / 36_524 - doe / 146_096) / 365;
    proof {
        lemma_year_of_era(doe as int);
        lemma_date_in_era(era as int, yoe as int, doe - era_days(yoe as int));
    }
    let y: i64 = yoe as i64 + era * 400;
    let doy: u64 = doe - (365 * yoe + yoe / 4 - yoe / 100);
    let mp: u64 = (5 * doy + 2) / 153;
    let d: u32 = (doy - (153 * mp + 2) / 5 + 1) as u32;
    let m: u32 = if mp < 10 {
        (mp + 3) as u32
    } else {
        (mp - 9) as u32
    };
    let year: i64 = if m <= 2 {
        y + 1
    } else {
        y
    };
    proof {
        law_dates_and_days(z as int, year as int, m as int, d as int);
    }
    (year, m, d)
}

/// The stamp of a second counted from 1970-01-01T00:00:00Z, in the form
/// `YYYY-MM-DDThh:mm:ssZ`; a year past 9999 takes the digits it needs.
pub open spec fn stamp(secs: nat) -> Seq<char> {
    let date = date_of((secs / 86_400) as int);
    let rem = secs % 86_400;
    padded(date.0 as nat, 4) + seq!['-'] + padded(date.1 as nat, 2) + seq!['-'] + padded(
        date.2 as nat,
        2,
    ) + seq!['T'] + padded(rem / 3600, 2) + seq![':'] + padded((rem % 3600) / 60, 2) + seq![':']
        + padded(rem % 60, 2) + seq!['Z']
}

/// The stamp of a second counted from 1970-01-01T00:00:00Z.
pub fn iso8601(secs: u64) -> (r: String)
    ensures
        r@ == stamp(secs as nat),
{
    let days: u64 = secs / 86_400;
    let rem: u64 = secs % 86_400;
    let (year, month, day) = civil_from_days(days as i64);
    proof {
        lemma_not_before_1970(days as int);
    }
    let mut r = padded_of(year as u64, 4);
    r.push('-');
    r.append(padded_of(month as u64, 2).as_str());
    r.push('-');
    r.append(padded_of(day as u64, 2).as_str());
    r.push('T');
    r.append(padded_of(rem / 3600, 2).as_str());
    r.push(':');
    r.append(padded_of((rem % 3600) / 60, 2).as_str());
    r.push(':');
    r.append(padded_of(rem % 60, 2).as_str());
    r.push('Z');
    assert(r@ == stamp(secs as nat));
    r
}

/// No day after the start of 1970 belongs to an earlier year.
proof fn lemma_not_before_1970(days: int)
    requires
        0 <= days,
    ensures
        date_of(days).0 >= 1970,
{
    law_dates_and_days(days, 1970, 1, 1);
    let date = date_of(days);
    lemma_day_of_year(date.0, date.1, date.2);
    if date.0 < 1970 {
        lemma_years_ascend(date.0 + 1, 1970);
    }
}

#[verifier::external_type_specification]
#[verifier::external_body]
pub struct ExSystemTime(std::time::SystemTime);

/// `SystemTime::now` of the standard library. Nothing is claimed of the time
/// that it reads.
pub assume_specification[ std::time::SystemTime::now ]() -> std::time::SystemTime
;

/// `SystemTime::duration_since`, measured from `UNIX_EPOCH` and given in whole
/// seconds; `None` where the clock stands before it. Nothing is claimed of the
/// number.
#[verifier::external_body]
fn seconds_since_epoch(now: std::time::SystemTime) -> (r: Option<u64>)
{
    match now.duration_since(std::time::UNIX_EPOCH) {
        Ok(elapsed) => Some(elapsed.as_secs()),
        Err(_) => None,
    }
}

/// The stamp of a clock that stands a number of seconds after the epoch; of the
/// epoch itself where the clock stands before it.
pub fn stamp_of_clock(elapsed: Option<u64>) -> (r: String)
    ensures
        r@ == stamp(
            match elapsed {
                Some(secs) => secs as nat,
                None => 0,
            },
        ),
{
    let secs: u64 = match elapsed {
        Some(secs) => secs,
        None => 0,
    };
    iso8601(secs)
}

/// The stamp of this moment, or of the epoch where the clock stands before it.
/// Which moment it is, is not stated: only that the result is a stamp.
pub fn now_iso8601() -> (r: String)
    ensures
        exists|secs: u64| r@ == #[trigger] stamp(secs as nat),
{
    let elapsed = seconds_since_epoch(std::time::SystemTime::now());
    let r = stamp_of_clock(elapsed);
    assert(r@ == stamp(0u64 as nat) || elapsed is Some && r@ == stamp(elapsed->0 as nat));
    r
}

/// Until the end of the year 9999 a stamp has twenty characters, with a `T`
/// between the date and the time and a `Z` at the end.
pub proof fn law_stamps_have_one_shape(secs: nat)
    requires
        secs < 253_402_300_800,
    ensures
        stamp(secs).len() == 20,
        stamp(secs)[4] == '-',
        stamp(secs)[7] == '-',
        stamp(secs)[10] == 'T',
        stamp(secs)[13] == ':',
        stamp(secs)[16] == ':',
        stamp(secs)[19] == 'Z',
{
    let days = (secs / 86_400) as int;
    let rem = secs % 86_400;
    let date = date_of(days);
    law_dates_and_days(days, 1970, 1, 1);
    lemma_not_before_1970(days);
    lemma_day_of_year(date.0, date.1, date.2);
    assert(days_before_year(10_000) == 2_932_897);
    if date.0 >= 10_000 {
        lemma_years_ascend(10_000, date.0);
    }
    lemma_width(date.0 as nat, 4);
    lemma_width(date.1 as nat, 2);
    lemma_width(date.2 as nat, 2);
    lemma_width(rem / 3600, 2);
    lemma_width((rem % 3600) / 60, 2);
    lemma_width(rem % 60, 2);
}

/// A number with no more digits than the width is written in that width.
proof fn lemma_width(n: nat, width: nat)
    requires
        width == 2 && n < 100 || width == 4 && n < 10_000,
    ensures
        padded(n, width).len() == width,
{
    reveal_with_fuel(decimal, 5);
}

/// The calendar goes on from one day to the next: 1970 begins at the day from which
/// days are counted; a day later is the next day of the month, the first of the next
/// month, or the first of the next year. February has a 29th every fourth year, but for
/// the hundredth that are not four-hundredth.
pub proof fn law_one_day_follows_another(year: int, month: int, day: int)
    requires
        is_date(year, month, day),
    ensures
        is_date(1970, 1, 1),
        day_number(1970, 1, 1) == 0,
        1 <= month <= 12,
        ({
            let leap = year % 4 == 0 && (year % 100 != 0 || year % 400 == 0);
            let length: int = if month == 2 {
                if leap {
                    29
                } else {
                    28
                }
            } else if month == 4 || month == 6 || month == 9 || month == 11 {
                30
            } else {
                31
            };
            &&& 1 <= day <= length
            &&& day < length ==> is_date(year, month, day + 1) && day_number(year, month, day + 1)
                == day_number(year, month, day) + 1
            &&& day == length && month < 12 ==> is_date(year, month + 1, 1) && day_number(
                year,
                month + 1,
                1,
            ) == day_number(year, month, day) + 1
            &&& day == length && month == 12 ==> is_date(year + 1, 1, 1) && day_number(
                year + 1,
                1,
                1,
            ) == day_number(year, month, day) + 1
        }),
{
    law_a_year_follows_the_year_before(year);
    law_a_year_follows_the_year_before(1970);
    lemma_months(1970);
    lemma_months(year);
    lemma_months(year + 1);
}

/// No year before a later one has passed without a day.
proof fn lemma_a_year_has_days(year: int)
    requires
        1970 <= year,
    ensures
        year - 1970 <= days_before_year(year),
    decreases year,
{
    if year > 1970 {
        lemma_a_year_has_days(year - 1);
        law_a_year_follows_the_year_before(year - 1);
    }
}

/// The parts of a stamp stand where its form has them, counted from its end.
proof fn lemma_parts_stand_apart(
    y: Seq<char>,
    m: Seq<char>,
    d: Seq<char>,
    hh: Seq<char>,
    mm: Seq<char>,
    ss: Seq<char>,
)
    requires
        m.len() == 2,
        d.len() == 2,
        hh.len() == 2,
        mm.len() == 2,
        ss.len() == 2,
    ensures
        ({
            let s = y + seq!['-'] + m + seq!['-'] + d + seq!['T'] + hh + seq![':'] + mm + seq![':']
                + ss + seq!['Z'];
            let n = y.len() as int;
            &&& s.len() == n + 16
            &&& s.subrange(0, n) == y
            &&& s.subrange(n + 1, n + 3) == m
            &&& s.subrange(n + 4, n + 6) == d
            &&& s.subrange(n + 7, n + 9) == hh
            &&& s.subrange(n + 10, n + 12) == mm
            &&& s.subrange(n + 13, n + 15) == ss
            &&& s[n] == '-' && s[n + 3] == '-' && s[n + 6] == 'T' && s[n + 9] == ':' && s[n + 12]
                == ':' && s[n + 15] == 'Z'
        }),
{
}

/// A part of a stamp has its width and is read back.
proof fn lemma_part_is_read_back(n: nat, max: int)
    requires
        n <= max < 100,
    ensures
        padded(n, 2).len() == 2,
        number(padded(n, 2), max) == Some(n as int),
{
    lemma_width(n, 2);
    law_padding_keeps_the_number(n, 2, max);
}

/// A stamp, read part by part, gives the very second it was made of, however many digits
/// its year takes: at least four, and behind them sixteen characters.
pub proof fn law_a_stamp_is_read_back(secs: nat, latest: int)
    requires
        1970 + secs / 86_400 <= latest,
    ensures
        ({
            let s = stamp(secs);
            let n = s.len() - 16;
            let year = number(s.subrange(0, n), latest);
            let month = number(s.subrange(n + 1, n + 3), 12);
            let day = number(s.subrange(n + 4, n + 6), 31);
            let hour = number(s.subrange(n + 7, n + 9), 23);
            let minute = number(s.subrange(n + 10, n + 12), 59);
            let second = number(s.subrange(n + 13, n + 15), 59);
            &&& n >= 4
            &&& s[n] == '-' && s[n + 3] == '-' && s[n + 6] == 'T' && s[n + 9] == ':' && s[n + 12]
                == ':' && s[n + 15] == 'Z'
            &&& year is Some
            &&& month is Some
            &&& day is Some
            &&& hour is Some
            &&& minute is Some
            &&& second is Some
            &&& is_date(year->0, month->0, day->0)
            &&& day_number(year->0, month->0, day->0) * 86_400 + hour->0 * 3600 + minute->0 * 60
                + second->0 == secs
        }),
{
    let days = (secs / 86_400) as int;
    let rem = secs % 86_400;
    let date = date_of(days);
    law_dates_and_days(days, 1970, 1, 1);
    lemma_not_before_1970(days);
    lemma_day_of_year(date.0, date.1, date.2);
    lemma_a_year_has_days(date.0);
    let y = date.0 as nat;
    let m = date.1 as nat;
    let d = date.2 as nat;
    let hh = rem / 3600;
    let mm = (rem % 3600) / 60;
    let ss = rem % 60;
    law_padding_keeps_the_number(y, 4, latest);
    lemma_part_is_read_back(m, 12);
    lemma_part_is_read_back(d, 31);
    lemma_part_is_read_back(hh, 23);
    lemma_part_is_read_back(mm, 59);
    lemma_part_is_read_back(ss, 59);
    lemma_parts_stand_apart(
        padded(y, 4),
        padded(m, 2),
        padded(d, 2),
        padded(hh, 2),
        padded(mm, 2),
        padded(ss, 2),
    );
    assert(hh * 3600 + mm * 60 + ss == rem);
}

} // verus!
