//! The proleptic Gregorian calendar in UTC, and calendar buckets over unix
//! time: hours and days to their boundaries, weeks to Mondays, months and
//! years to their firsts.

use vstd::prelude::*;

verus! {

/// Seconds in an hour.
pub const HOUR: i64 = 3600;

/// Seconds in a day.
pub const DAY: i64 = 86400;

/// The day (since 1970-01-01) of the first supported date, 1 January of the
/// year −999999.
pub const FIRST_DAY: i64 = -365961662;

/// The day just past the last supported date, 1 January of the year
/// 1000000.
pub const END_DAY: i64 = 364522972;

/// Whether `year` is a leap year.
pub open spec fn is_leap(year: int) -> bool {
    year % 4 == 0 && (year % 100 != 0 || year % 400 == 0)
}

/// The leap years before `year`, counted from a fixed origin: only its
/// differences matter.
pub open spec fn leaps_before(year: int) -> int {
    (year - 1) / 4 - (year - 1) / 100 + (year - 1) / 400
}

/// The day (since 1970-01-01) that 1 January of `year` falls on.
pub open spec fn year_start(year: int) -> int {
    365 * (year - 1970) + leaps_before(year) - leaps_before(1970)
}

/// The days of a year before the first of `month`.
pub open spec fn days_before_month(month: int, leap: bool) -> int {
    let common: int = if month <= 1 {
        0
    } else if month == 2 {
        31
    } else if month == 3 {
        59
    } else if month == 4 {
        90
    } else if month == 5 {
        120
    } else if month == 6 {
        151
    } else if month == 7 {
        181
    } else if month == 8 {
        212
    } else if month == 9 {
        243
    } else if month == 10 {
        273
    } else if month == 11 {
        304
    } else {
        334
    };
    common + if leap && month > 2 {
        1int
    } else {
        0int
    }
}

/// The days in `month` of `year`.
pub open spec fn month_length(year: int, month: int) -> int {
    if month == 2 {
        if is_leap(year) {
            29
        } else {
            28
        }
    } else if month == 4 || month == 6 || month == 9 || month == 11 {
        30
    } else {
        31
    }
}

/// The day the first of `month` of `year` falls on.
pub open spec fn month_start(year: int, month: int) -> int {
    year_start(year) + days_before_month(month, is_leap(year))
}

/// The day `year-month-day` falls on.
pub open spec fn spec_days_from_civil(year: int, month: int, day: int) -> int {
    month_start(year, month) + day - 1
}

/// The year day `days` falls in.
pub open spec fn year_of(days: int) -> int {
    choose|year: int| #[trigger] year_start(year) <= days < year_start(year + 1)
}

/// The month day `days` falls in.
pub open spec fn month_of(days: int) -> int {
    choose|month: int|
        1 <= month <= 12 && #[trigger] month_start(year_of(days), month) <= days < month_start(
            year_of(days),
            month,
        ) + month_length(year_of(days), month)
}

/// `a / d` rounded toward negative infinity.
fn floor_div(a: i64, d: i64) -> (q: i64)
    requires
        a > i64::MIN,
        d > 0,
    ensures
        q == a as int / d as int,
{
    if a >= 0 {
        let q = a / d;
        proof {
            vstd::arithmetic::div_mod::lemma_fundamental_div_mod(a as int, d as int);
        }
        q
    } else {
        let n = -a - 1;
        let q = n / d;
        proof {
            let (ai, di, ni, qi) = (a as int, d as int, n as int, q as int);
            vstd::arithmetic::div_mod::lemma_fundamental_div_mod(ni, di);
            let r = ni % di;
            assert(ai == di * (-qi - 1) + (di - r - 1)) by (nonlinear_arith)
                requires
                    ni == di * (ni / di) + r,
                    qi == ni / di,
                    ai == -ni - 1,
            ;
            vstd::arithmetic::div_mod::lemma_fundamental_div_mod_converse(ai, di, -qi - 1, di - r - 1);
        }
        -q - 1
    }
}

/// `y / d - (y - 1) / d` is one exactly when `d` divides `y`.
proof fn lemma_floor_step(y: int, d: int)
    requires
        d > 0,
    ensures
        y / d - (y - 1) / d == (if y % d == 0 {
            1int
        } else {
            0int
        }),
{
    vstd::arithmetic::div_mod::lemma_fundamental_div_mod(y, d);
    vstd::arithmetic::div_mod::lemma_mod_bound(y, d);
    let q = y / d;
    let r = y % d;
    if r == 0 {
        assert(y - 1 == (q - 1) * d + (d - 1)) by (nonlinear_arith)
            requires
                y == d * q + r,
                r == 0,
        ;
        vstd::arithmetic::div_mod::lemma_fundamental_div_mod_converse(y - 1, d, q - 1, d - 1);
    } else {
        assert(y - 1 == q * d + (r - 1)) by (nonlinear_arith)
            requires
                y == d * q + r,
        ;
        vstd::arithmetic::div_mod::lemma_fundamental_div_mod_converse(y - 1, d, q, r - 1);
    }
}

/// Divisibility by a multiple implies divisibility by its factor.
proof fn lemma_divides_factor(y: int, a: int, k: int)
    requires
        a > 0,
        k > 0,
        y % (a * k) == 0,
    ensures
        y % a == 0,
{
    assert(a * k > 0) by (nonlinear_arith)
        requires
            a > 0,
            k > 0,
    ;
    vstd::arithmetic::div_mod::lemma_fundamental_div_mod(y, a * k);
    let q = y / (a * k);
    assert(y == (q * k) * a) by (nonlinear_arith)
        requires
            y == (a * k) * q + 0,
    ;
    vstd::arithmetic::div_mod::lemma_mod_multiples_basic(q * k, a);
}

/// A year is 365 days, 366 in a leap year.
pub proof fn lemma_year_length(year: int)
    ensures
        year_start(year + 1) - year_start(year) == 365 + if is_leap(year) {
            1int
        } else {
            0int
        },
{
    lemma_floor_step(year, 4);
    lemma_floor_step(year, 100);
    lemma_floor_step(year, 400);
    if year % 400 == 0 {
        lemma_divides_factor(year, 100, 4);
        lemma_divides_factor(year, 4, 100);
    } else if year % 100 == 0 {
        lemma_divides_factor(year, 4, 25);
    }
}

/// Years start further on the later they are, by 365 to 366 days a year.
pub proof fn lemma_year_starts_grow(a: int, b: int)
    requires
        a <= b,
    ensures
        365 * (b - a) <= year_start(b) - year_start(a) <= 366 * (b - a),
    decreases b - a,
{
    if a < b {
        lemma_year_starts_grow(a, b - 1);
        lemma_year_length(b - 1);
    }
}

/// A day falls in one year only.
pub proof fn lemma_one_year(days: int, y1: int, y2: int)
    requires
        year_start(y1) <= days < year_start(y1 + 1),
        year_start(y2) <= days < year_start(y2 + 1),
    ensures
        y1 == y2,
{
    if y1 < y2 {
        lemma_year_starts_grow(y1 + 1, y2);
    } else if y2 < y1 {
        lemma_year_starts_grow(y2 + 1, y1);
    }
}

/// The months of a year tile it: each starts where the one before ends,
/// and the twelfth ends where the next year starts.
pub proof fn lemma_months_tile(year: int, month: int)
    requires
        1 <= month <= 12,
    ensures
        month < 12 ==> month_start(year, month + 1) == month_start(year, month) + month_length(
            year,
            month,
        ),
        month == 12 ==> year_start(year + 1) == month_start(year, month) + month_length(year, month),
        month_start(year, 1) == year_start(year),
        month_length(year, month) >= 28,
{
    lemma_year_length(year);
}

/// A day of a year falls in one month only.
pub proof fn lemma_one_month(year: int, days: int, m1: int, m2: int)
    requires
        1 <= m1 <= 12,
        1 <= m2 <= 12,
        month_start(year, m1) <= days < month_start(year, m1) + month_length(year, m1),
        month_start(year, m2) <= days < month_start(year, m2) + month_length(year, m2),
    ensures
        m1 == m2,
{
    if m1 < m2 {
        lemma_month_starts_grow(year, m1 + 1, m2);
        lemma_months_tile(year, m1);
    } else if m2 < m1 {
        lemma_month_starts_grow(year, m2 + 1, m1);
        lemma_months_tile(year, m2);
    }
}

/// Later months start later.
proof fn lemma_month_starts_grow(year: int, a: int, b: int)
    requires
        1 <= a <= b <= 12,
    ensures
        month_start(year, a) <= month_start(year, b),
    decreases b - a,
{
    if a < b {
        lemma_month_starts_grow(year, a, b - 1);
        lemma_months_tile(year, b - 1);
    }
}

/// 1 January of a year within reach of the supported range.
fn year_start_exec(year: i64) -> (day: i64)
    requires
        -1000001 <= year <= 1000001,
    ensures
        day == year_start(year as int),
{
    let y1 = year - 1;
    let leaps = floor_div(y1, 4) - floor_div(y1, 100) + floor_div(y1, 400);
    365 * (year - 1970) + leaps - 477
}

/// The days of a year before the first of `month`.
fn days_before_month_exec(month: u32, leap: bool) -> (days: i64)
    requires
        1 <= month <= 12,
    ensures
        days == days_before_month(month as int, leap),
{
    let common: i64 = match month {
        1 => 0,
        2 => 31,
        3 => 59,
        4 => 90,
        5 => 120,
        6 => 151,
        7 => 181,
        8 => 212,
        9 => 243,
        10 => 273,
        11 => 304,
        _ => 334,
    };
    if leap && month > 2 {
        common + 1
    } else {
        common
    }
}

/// Whether `year` is a leap year.
fn is_leap_exec(year: i64) -> (leap: bool)
    requires
        -1000001 <= year <= 1000001,
    ensures
        leap == is_leap(year as int),
{
    let four = year - floor_div(year, 4) * 4;
    let hundred = year - floor_div(year, 100) * 100;
    let four_hundred = year - floor_div(year, 400) * 400;
    proof {
        vstd::arithmetic::div_mod::lemma_fundamental_div_mod(year as int, 4);
        vstd::arithmetic::div_mod::lemma_fundamental_div_mod(year as int, 100);
        vstd::arithmetic::div_mod::lemma_fundamental_div_mod(year as int, 400);
    }
    four == 0 && (hundred != 0 || four_hundred == 0)
}

/// The day `year-month-day` falls on, counted from 1970-01-01.
pub fn days_from_civil(year: i64, month: u32, day: u32) -> (days: i64)
    requires
        -1000001 <= year <= 1000001,
        1 <= month <= 12,
        1 <= day <= 31,
    ensures
        days == spec_days_from_civil(year as int, month as int, day as int),
{
    let leap = is_leap_exec(year);
    year_start_exec(year) + days_before_month_exec(month, leap) + day as i64 - 1
}

/// The date day `days` (since 1970-01-01) falls on, as `(year, month, day)`.
pub fn civil_from_days(days: i64) -> (date: (i64, u32, u32))
    requires
        FIRST_DAY <= days < END_DAY,
    ensures
        -999999 <= date.0 <= 999999,
        1 <= date.1 <= 12,
        year_start(date.0 as int) <= days < year_start(date.0 + 1),
        month_start(date.0 as int, date.1 as int) <= days < month_start(date.0 as int, date.1 as int)
            + month_length(date.0 as int, date.1 as int),
        date.0 == year_of(days as int),
        date.1 == month_of(days as int),
        days == spec_days_from_civil(date.0 as int, date.1 as int, date.2 as int),
        1 <= date.2 <= month_length(date.0 as int, date.1 as int),
{
    assert(year_start(-999999) == FIRST_DAY);
    assert(year_start(1000000) == END_DAY);
    let mut low: i64 = -999999;
    let mut high: i64 = 1000000;
    while high - low > 1
        invariant
            -999999 <= low < high <= 1000000,
            year_start(low as int) <= days < year_start(high as int),
        decreases high - low,
    {
        let middle = low + (high - low) / 2;
        if year_start_exec(middle) <= days {
            low = middle;
        } else {
            high = middle;
        }
    }
    let year = low;
    proof {
        assert(high == low + 1);
        let chosen = year_of(days as int);
        assert(year_start(chosen) <= days < year_start(chosen + 1));
        lemma_one_year(days as int, year as int, chosen);
    }
    let leap = is_leap_exec(year);
    let start = year_start_exec(year);
    let mut month: u32 = 12;
    proof {
        lemma_months_tile(year as int, 12);
    }
    while start + days_before_month_exec(month, leap) > days
        invariant
            1 <= month <= 12,
            -999999 <= year <= 999999,
            leap == is_leap(year as int),
            start == year_start(year as int),
            start <= days,
            days < month_start(year as int, month as int) + month_length(year as int, month as int),
        decreases month,
    {
        proof {
            lemma_months_tile(year as int, 1);
            lemma_months_tile(year as int, (month - 1) as int);
        }
        month = month - 1;
    }
    let first = start + days_before_month_exec(month, leap);
    let day = (days - first + 1) as u32;
    proof {
        lemma_months_tile(year as int, month as int);
        let chosen = month_of(days as int);
        assert(1 <= chosen <= 12 && month_start(year as int, chosen) <= days < month_start(
            year as int,
            chosen,
        ) + month_length(year as int, chosen));
        lemma_one_month(year as int, days as int, month as int, chosen);
    }
    (year, month, day)
}

/// The first supported second, the start of the year −999999.
pub const FIRST_SECOND: i64 = -31619087596800;

/// The last supported second, the end of the year 999999.
pub const LAST_SECOND: i64 = 31494784780799;

/// The supported range of unix seconds, as `(first, last)`.
pub fn supported_seconds() -> (range: (i64, i64))
    ensures
        range == (FIRST_SECOND, LAST_SECOND),
        FIRST_SECOND == FIRST_DAY * DAY,
        LAST_SECOND == END_DAY * DAY - 1,
{
    (FIRST_SECOND, LAST_SECOND)
}

/// Whether `t` lies in the supported calendar.
pub open spec fn supported(t: int) -> bool {
    FIRST_SECOND <= t <= LAST_SECOND
}

/// A calendar unit, aligned as the time axis aligns it (UTC): hours and
/// days to their boundaries, weeks to Mondays, months and years to their
/// firsts.
#[derive(Debug, Clone, Copy, PartialEq, Eq, Hash, Structural)]
pub enum TimeUnit {
    /// Clock hours.
    Hour,
    /// Calendar days.
    Day,
    /// ISO weeks, Monday to Monday.
    Week,
    /// Calendar months, of their true length.
    Month,
    /// Calendar years.
    Year,
}

/// The start of the bucket of `unit` holding the second `t`.
pub open spec fn spec_floor(unit: TimeUnit, t: int) -> int {
    let days = t / DAY as int;
    match unit {
        TimeUnit::Hour => (t / HOUR as int) * HOUR,
        TimeUnit::Day => days * DAY,
        // the epoch was a Thursday: three days on from a Monday
        TimeUnit::Week => (days - (days + 3) % 7) * DAY,
        TimeUnit::Month => month_start(year_of(days), month_of(days)) * DAY,
        TimeUnit::Year => year_start(year_of(days)) * DAY,
    }
}

/// The start of the bucket of `unit` after the one starting at `start`.
pub open spec fn spec_next(unit: TimeUnit, start: int) -> int {
    let days = start / DAY as int;
    match unit {
        TimeUnit::Hour => start + HOUR,
        TimeUnit::Day => start + DAY,
        TimeUnit::Week => start + 7 * DAY,
        TimeUnit::Month => (if month_of(days) == 12 {
            year_start(year_of(days) + 1)
        } else {
            month_start(year_of(days), month_of(days) + 1)
        }) * DAY,
        TimeUnit::Year => year_start(year_of(days) + 1) * DAY,
    }
}

/// Where the `next` of a unit may start from: the supported calendar, or
/// up to a week before it for the units that need no date.
pub open spec fn next_allowed(unit: TimeUnit, start: int) -> bool {
    &&& FIRST_SECOND - 7 * DAY <= start <= LAST_SECOND
    &&& (unit is Month || unit is Year) ==> supported(start)
}

impl TimeUnit {
    /// The start of the bucket holding `t` (unix seconds).
    pub fn floor(self, t: i64) -> (r: Option<i64>)
        requires
            supported(t as int),
        ensures
            r == Some(spec_floor(self, t as int) as i64),
            FIRST_SECOND - 7 * DAY <= spec_floor(self, t as int) <= t,
            (self is Month || self is Year) ==> FIRST_SECOND <= spec_floor(self, t as int),
    {
        let days = floor_div(t, DAY);
        match self {
            TimeUnit::Hour => Some(floor_div(t, HOUR) * HOUR),
            TimeUnit::Day => Some(days * DAY),
            TimeUnit::Week => {
                let shifted = days + 3;
                let weekday = shifted - floor_div(shifted, 7) * 7;
                proof {
                    vstd::arithmetic::div_mod::lemma_fundamental_div_mod(shifted as int, 7);
                }
                Some((days - weekday) * DAY)
            },
            TimeUnit::Month => {
                let (year, month, _) = civil_from_days(days);
                proof {
                    lemma_year_starts_grow(-999999, year as int);
                    lemma_months_tile(year as int, 1);
                    lemma_month_starts_grow(year as int, 1, month as int);
                }
                Some(days_from_civil(year, month, 1) * DAY)
            },
            TimeUnit::Year => {
                let (year, _, _) = civil_from_days(days);
                proof {
                    lemma_year_starts_grow(-999999, year as int);
                }
                Some(days_from_civil(year, 1, 1) * DAY)
            },
        }
    }

    /// The start of the bucket after the one starting at `start`.
    pub fn next(self, start: i64) -> (r: Option<i64>)
        requires
            next_allowed(self, start as int),
        ensures
            r == Some(spec_next(self, start as int) as i64),
            start < spec_next(self, start as int) <= LAST_SECOND + 366 * DAY,
    {
        match self {
            TimeUnit::Hour => Some(start + HOUR),
            TimeUnit::Day => Some(start + DAY),
            TimeUnit::Week => Some(start + 7 * DAY),
            TimeUnit::Month => {
                let days = floor_div(start, DAY);
                let (year, month, _) = civil_from_days(days);
                proof {
                    lemma_months_tile(year as int, month as int);
                    lemma_year_starts_grow(year as int, 1000000);
                    lemma_year_length(999999);
                }
                if month == 12 {
                    Some(days_from_civil(year + 1, 1, 1) * DAY)
                } else {
                    Some(days_from_civil(year, month + 1, 1) * DAY)
                }
            },
            TimeUnit::Year => {
                let days = floor_div(start, DAY);
                let (year, _, _) = civil_from_days(days);
                proof {
                    lemma_year_starts_grow(year as int + 1, 1000000);
                    lemma_year_length(year as int);
                }
                Some(days_from_civil(year + 1, 1, 1) * DAY)
            },
        }
    }
}

/// Every day between two year starts falls in some year.
proof fn lemma_year_exists(days: int, low: int, high: int)
    requires
        low < high,
        year_start(low) <= days < year_start(high),
    ensures
        year_start(year_of(days)) <= days < year_start(year_of(days) + 1),
    decreases high - low,
{
    if year_start(low + 1) > days {
        assert(year_start(low) <= days < year_start(low + 1));
    } else {
        lemma_year_exists(days, low + 1, high);
    }
}

/// Every day of a year falls in some month of it.
proof fn lemma_month_exists(year: int, days: int, month: int)
    requires
        1 <= month <= 12,
        year_start(year) <= days,
        days < month_start(year, month) + month_length(year, month),
        year_of(days) == year,
    ensures
        1 <= month_of(days) <= 12,
        month_start(year, month_of(days)) <= days < month_start(year, month_of(days)) + month_length(
            year,
            month_of(days),
        ),
    decreases month,
{
    lemma_months_tile(year, 1);
    if month_start(year, month) <= days {
        assert(1 <= month <= 12 && month_start(year_of(days), month) <= days < month_start(
            year_of(days),
            month,
        ) + month_length(year_of(days), month));
    } else {
        lemma_months_tile(year, month - 1);
        lemma_month_exists(year, days, month - 1);
    }
}

/// The year and month a supported day falls in are the ones its date
/// names.
pub proof fn lemma_day_has_a_date(days: int)
    requires
        FIRST_DAY <= days < END_DAY,
    ensures
        year_start(year_of(days)) <= days < year_start(year_of(days) + 1),
        -999999 <= year_of(days) <= 999999,
        1 <= month_of(days) <= 12,
        month_start(year_of(days), month_of(days)) <= days < month_start(year_of(days), month_of(days))
            + month_length(year_of(days), month_of(days)),
{
    assert(year_start(-999999) == FIRST_DAY);
    assert(year_start(1000000) == END_DAY);
    lemma_year_exists(days, -999999, 1000000);
    let year = year_of(days);
    if year < -999999 {
        lemma_year_starts_grow(year + 1, -999999);
    }
    if year > 999999 {
        lemma_year_starts_grow(1000000, year);
    }
    lemma_months_tile(year, 12);
    lemma_month_exists(year, days, 12);
}

/// Dates round-trip: the day a valid date of the supported calendar falls
/// on is a supported day, and the year, month and day of that day are the
/// date itself — `civil_from_days` undoes `days_from_civil`.
pub proof fn law_dates_round_trip(year: int, month: int, day: int)
    requires
        -999999 <= year <= 999999,
        1 <= month <= 12,
        1 <= day <= month_length(year, month),
    ensures
        FIRST_DAY <= spec_days_from_civil(year, month, day) < END_DAY,
        year_of(spec_days_from_civil(year, month, day)) == year,
        month_of(spec_days_from_civil(year, month, day)) == month,
        spec_days_from_civil(year, month, day) - month_start(year, month) + 1 == day,
{
    let days = spec_days_from_civil(year, month, day);
    lemma_months_tile(year, 1);
    lemma_months_tile(year, month);
    lemma_months_tile(year, 12);
    lemma_month_starts_grow(year, 1, month);
    if month < 12 {
        lemma_month_starts_grow(year, month + 1, 12);
    }
    assert(year_start(year) <= days < year_start(year + 1));
    lemma_one_year(days, year, year_of(days));
    assert(year_start(-999999) == FIRST_DAY);
    assert(year_start(1000000) == END_DAY);
    lemma_year_starts_grow(-999999, year);
    lemma_year_starts_grow(year + 1, 1000000);
    assert(month_start(year_of(days), month) <= days < month_start(year_of(days), month)
        + month_length(year_of(days), month));
    lemma_one_month(year, days, month, month_of(days));
}

/// Hours, days and weeks are buckets of fixed length: the bucket holding a
/// second starts on a whole hour (3600 s), a midnight (86400 s) or a
/// Monday midnight, holds the second, and ends exactly one hour, one day or
/// seven days later.
pub proof fn law_fixed_buckets_have_their_length(t: int)
    ensures
        spec_floor(TimeUnit::Hour, t) % 3600 == 0,
        spec_floor(TimeUnit::Hour, t) <= t < spec_floor(TimeUnit::Hour, t) + 3600,
        spec_next(TimeUnit::Hour, spec_floor(TimeUnit::Hour, t)) == spec_floor(TimeUnit::Hour, t)
            + 3600,
        spec_floor(TimeUnit::Day, t) % 86400 == 0,
        spec_floor(TimeUnit::Day, t) <= t < spec_floor(TimeUnit::Day, t) + 86400,
        spec_next(TimeUnit::Day, spec_floor(TimeUnit::Day, t)) == spec_floor(TimeUnit::Day, t)
            + 86400,
        spec_floor(TimeUnit::Week, t) % 86400 == 0,
        (spec_floor(TimeUnit::Week, t) / 86400 + 3) % 7 == 0,
        spec_floor(TimeUnit::Week, t) <= t < spec_floor(TimeUnit::Week, t) + 604800,
        spec_next(TimeUnit::Week, spec_floor(TimeUnit::Week, t)) == spec_floor(TimeUnit::Week, t)
            + 604800,
{
    let days = t / 86400;
    vstd::arithmetic::div_mod::lemma_fundamental_div_mod(t, 86400);
    vstd::arithmetic::div_mod::lemma_mod_bound(t, 86400);
    vstd::arithmetic::div_mod::lemma_fundamental_div_mod(t, 3600);
    vstd::arithmetic::div_mod::lemma_mod_bound(t, 3600);
    vstd::arithmetic::div_mod::lemma_mod_multiples_basic(t / 3600, 3600);
    vstd::arithmetic::div_mod::lemma_mod_multiples_basic(days, 86400);
    let monday = days - (days + 3) % 7;
    vstd::arithmetic::div_mod::lemma_mod_bound(days + 3, 7);
    vstd::arithmetic::div_mod::lemma_fundamental_div_mod(days + 3, 7);
    vstd::arithmetic::div_mod::lemma_mod_multiples_basic(monday, 86400);
    vstd::arithmetic::div_mod::lemma_div_multiples_vanish(monday, 86400);
    assert(monday + 3 == 7 * ((days + 3) / 7));
    vstd::arithmetic::div_mod::lemma_mod_multiples_basic((days + 3) / 7, 7);
    assert((monday * 86400) / 86400 == monday) by {
        vstd::arithmetic::div_mod::lemma_div_multiples_vanish(monday, 86400);
    }
    assert(monday * 86400 <= t < monday * 86400 + 604800) by (nonlinear_arith)
        requires
            t == 86400 * days + t % 86400,
            0 <= t % 86400 < 86400,
            days - 6 <= monday <= days,
    ;
}

/// Every supported second lies in the bucket its floor starts: the floor
/// is at or before it, and the next bucket starts after it — a month
/// bucket spanning exactly its month's days, a year bucket its year's.
pub proof fn law_buckets_hold_their_seconds(unit: TimeUnit, t: int)
    requires
        supported(t),
    ensures
        spec_floor(unit, t) <= t < spec_next(unit, spec_floor(unit, t)),
        unit is Month ==> spec_next(unit, spec_floor(unit, t)) - spec_floor(unit, t) == month_length(
            year_of(t / DAY as int),
            month_of(t / DAY as int),
        ) * DAY,
        unit is Year ==> spec_next(unit, spec_floor(unit, t)) - spec_floor(unit, t) == (365 + if is_leap(
            year_of(t / DAY as int),
        ) {
            1int
        } else {
            0int
        }) * DAY,
{
    let days = t / DAY as int;
    vstd::arithmetic::div_mod::lemma_fundamental_div_mod(t, DAY as int);
    vstd::arithmetic::div_mod::lemma_mod_bound(t, DAY as int);
    match unit {
        TimeUnit::Hour => {
            vstd::arithmetic::div_mod::lemma_fundamental_div_mod(t, HOUR as int);
            vstd::arithmetic::div_mod::lemma_mod_bound(t, HOUR as int);
        },
        TimeUnit::Day => {},
        TimeUnit::Week => {
            vstd::arithmetic::div_mod::lemma_mod_bound(days + 3, 7);
        },
        TimeUnit::Month => {
            lemma_day_has_a_date(days);
            let (year, month) = (year_of(days), month_of(days));
            let first = month_start(year, month);
            lemma_months_tile(year, month);
            lemma_months_tile(year, 1);
            lemma_month_starts_grow(year, 1, month);
            lemma_year_length(year);
            vstd::arithmetic::div_mod::lemma_div_multiples_vanish(first, DAY as int);
            // the bucket's first day is a day of the same year and month
            assert(year_start(year) <= first < year_start(year + 1));
            lemma_year_exists(first, year, year + 1);
            lemma_one_year(first, year, year_of(first));
            lemma_month_exists(year, first, 12);
            lemma_one_month(year, first, month, month_of(first));
        },
        TimeUnit::Year => {
            lemma_day_has_a_date(days);
            let year = year_of(days);
            let first = year_start(year);
            vstd::arithmetic::div_mod::lemma_div_multiples_vanish(first, DAY as int);
            lemma_year_length(year);
            lemma_year_exists(first, year, year + 1);
            lemma_one_year(first, year, year_of(first));
        },
    }
}

/// Defensive ceiling on the buckets one call may produce.
pub const MAX_STAT_ELEMENTS: usize = 1000000;

/// The bucket starts of `unit` from `first` on: `first`, then each next.
pub open spec fn bucket_chain(unit: TimeUnit, first: int, n: nat) -> Seq<int>
    decreases n,
{
    if n == 0 {
        seq![first]
    } else {
        let before = bucket_chain(unit, first, (n - 1) as nat);
        before.push(spec_next(unit, before.last()))
    }
}

/// How many of `times` lie in `[low, high)`.
pub open spec fn count_within(times: Seq<i64>, low: int, high: int) -> nat
    decreases times.len(),
{
    if times.len() == 0 {
        0
    } else {
        count_within(times.drop_last(), low, high) + if low <= times.last() < high {
            1nat
        } else {
            0nat
        }
    }
}

/// The smallest and largest of the times.
pub open spec fn min_of(times: Seq<i64>) -> int
    decreases times.len(),
{
    if times.len() <= 1 {
        times[0] as int
    } else {
        let rest = min_of(times.drop_last());
        if times.last() < rest {
            times.last() as int
        } else {
            rest
        }
    }
}

/// The largest of the times.
pub open spec fn max_of(times: Seq<i64>) -> int
    decreases times.len(),
{
    if times.len() <= 1 {
        times[0] as int
    } else {
        let rest = max_of(times.drop_last());
        if times.last() > rest {
            times.last() as int
        } else {
            rest
        }
    }
}

/// Calendar buckets over the extent of a series of unix seconds, every
/// bucket present: starts, ends (each the next start), and counts.
#[derive(Debug, Clone, PartialEq, Eq)]
pub struct CalendarBuckets {
    /// The left edge of every bucket.
    pub starts: Vec<i64>,
    /// The right edge of every bucket — the next bucket's start.
    pub ends: Vec<i64>,
    /// How many of the times fall in each bucket.
    pub counts: Vec<u64>,
}

/// The shape of a bucket chain: one start more than steps, `first` first,
/// and each start the next of the one before.
pub proof fn lemma_chain(unit: TimeUnit, first: int, n: nat)
    ensures
        bucket_chain(unit, first, n).len() == n + 1,
        bucket_chain(unit, first, n)[0] == first,
        forall|j: int|
            0 <= j < n ==> #[trigger] bucket_chain(unit, first, n)[j + 1] == spec_next(
                unit,
                bucket_chain(unit, first, n)[j],
            ),
    decreases n,
{
    if n > 0 {
        lemma_chain(unit, first, (n - 1) as nat);
        let before = bucket_chain(unit, first, (n - 1) as nat);
        assert forall|j: int| 0 <= j < n implies #[trigger] bucket_chain(unit, first, n)[j + 1]
            == spec_next(unit, bucket_chain(unit, first, n)[j]) by {
            if j + 1 < n {
                assert(bucket_chain(unit, first, n)[j + 1] == before[j + 1]);
            }
        }
    }
}

/// The bucket starts from `first` up to the first one past `high`, with
/// their ends: `None` when more than [`MAX_STAT_ELEMENTS`] buckets start at
/// or before `high`.
fn bucket_starts(unit: TimeUnit, first: i64, high: i64) -> (r: Option<(Vec<i64>, Vec<i64>)>)
    requires
        FIRST_SECOND - 7 * DAY <= first <= high <= LAST_SECOND,
        (unit is Month || unit is Year) ==> FIRST_SECOND <= first,
    ensures
        r is None <==> forall|k: int|
            0 <= k <= MAX_STAT_ELEMENTS ==> #[trigger] bucket_chain(
                unit,
                first as int,
                MAX_STAT_ELEMENTS as nat,
            )[k] <= high,
        r matches Some((starts, ends)) ==> {
            let n = starts@.len();
            &&& 1 <= n <= MAX_STAT_ELEMENTS
            &&& ends@.len() == n
            &&& starts@[0] == first
            &&& forall|k: int|
                0 <= k < n ==> #[trigger] starts@[k] == bucket_chain(unit, first as int, (n - 1) as nat)[k]
            &&& forall|k: int| 0 <= k < n ==> #[trigger] ends@[k] == spec_next(unit, starts@[k] as int)
            &&& forall|k: int| 0 <= k < n ==> #[trigger] starts@[k] <= high
            &&& forall|a: int, b: int| 0 <= a < b < n ==> starts@[a] < starts@[b]
            &&& ends@[n - 1] > high
        },
{
    let mut starts: Vec<i64> = Vec::new();
    starts.push(first);
    let mut ends: Vec<i64> = Vec::new();
    let mut done = false;
    proof {
        lemma_chain(unit, first as int, 0);
    }
    while !done
        invariant
            1 <= starts@.len() <= MAX_STAT_ELEMENTS,
            ends@.len() == if done {
                starts@.len()
            } else {
                (starts@.len() - 1) as nat
            },
            FIRST_SECOND - 7 * DAY <= first <= high <= LAST_SECOND,
            (unit is Month || unit is Year) ==> FIRST_SECOND <= first,
            starts@[0] == first,
            forall|k: int|
                0 <= k < starts@.len() ==> #[trigger] starts@[k] == bucket_chain(
                    unit,
                    first as int,
                    (starts@.len() - 1) as nat,
                )[k],
            forall|k: int| 0 <= k < ends@.len() ==> #[trigger] ends@[k] == spec_next(unit, starts@[k] as int),
            forall|k: int| 0 <= k < starts@.len() ==> first <= #[trigger] starts@[k] <= high,
            forall|a: int, b: int| 0 <= a < b < starts@.len() ==> starts@[a] < starts@[b],
            done ==> ends@[ends@.len() - 1] > high,
        decreases MAX_STAT_ELEMENTS + 1 - starts@.len() - if done {
            1int
        } else {
            0int
        },
    {
        let count = starts.len();
        let last = starts[count - 1];
        let ghost chain = bucket_chain(unit, first as int, (count - 1) as nat);
        proof {
            lemma_chain(unit, first as int, (count - 1) as nat);
            lemma_chain(unit, first as int, count as nat);
            assert(chain.last() == last);
        }
        let next = match unit.next(last) {
            Some(next) => next,
            None => {
                return None;
            },
        };
        ends.push(next);
        if next > high {
            done = true;
            proof {
                if count == MAX_STAT_ELEMENTS {
                    assert(bucket_chain(unit, first as int, count as nat)[count as int] == next);
                }
            }
        } else {
            if count >= MAX_STAT_ELEMENTS {
                proof {
                    let full = bucket_chain(unit, first as int, MAX_STAT_ELEMENTS as nat);
                    assert(full == chain.push(next as int));
                    assert forall|k: int| 0 <= k <= MAX_STAT_ELEMENTS implies #[trigger] full[k]
                        <= high by {
                        if k < count {
                            assert(full[k] == starts@[k]);
                        }
                    }
                }
                return None;
            }
            starts.push(next);
            proof {
                let grown = bucket_chain(unit, first as int, count as nat);
                assert(grown == chain.push(next as int));
                assert forall|k: int| 0 <= k < starts@.len() implies #[trigger] starts@[k] == grown[k] by {
                    if k < count {
                        assert(grown[k] == chain[k]);
                    }
                }
            }
        }
    }
    proof {
        let n = starts@.len();
        if n <= MAX_STAT_ELEMENTS {
            lemma_chain(unit, first as int, MAX_STAT_ELEMENTS as nat);
            lemma_chain_prefix(unit, first as int, n as nat, MAX_STAT_ELEMENTS as nat);
            let full = bucket_chain(unit, first as int, MAX_STAT_ELEMENTS as nat);
            lemma_chain(unit, first as int, (n - 1) as nat);
            assert(full[n - 1] == starts@[n - 1]);
            assert(full[n as int] == spec_next(unit, full[n - 1]));
            assert(full[n as int] == ends@[n - 1]);
        }
    }
    Some((starts, ends))
}

/// A shorter chain is a prefix of a longer one.
proof fn lemma_chain_prefix(unit: TimeUnit, first: int, n: nat, m: nat)
    requires
        n <= m,
    ensures
        forall|k: int| 0 <= k <= n ==> #[trigger] bucket_chain(unit, first, m)[k] == bucket_chain(unit, first, n)[k],
    decreases m - n,
{
    lemma_chain(unit, first, n);
    lemma_chain(unit, first, m);
    if n < m {
        lemma_chain_prefix(unit, first, n, (m - 1) as nat);
        lemma_chain(unit, first, (m - 1) as nat);
        assert forall|k: int| 0 <= k <= n implies #[trigger] bucket_chain(unit, first, m)[k]
            == bucket_chain(unit, first, n)[k] by {
            assert(bucket_chain(unit, first, m)[k] == bucket_chain(unit, first, (m - 1) as nat)[k]);
        }
    }
}

/// How many of `times` fall in each bucket `[starts[k], ends[k])`.
fn count_buckets(times: &Vec<i64>, starts: &Vec<i64>, ends: &Vec<i64>) -> (counts: Vec<u64>)
    requires
        starts@.len() >= 1,
        ends@.len() == starts@.len(),
        forall|t: int| 0 <= t < times@.len() ==> starts@[0] <= #[trigger] times@[t] < ends@[starts@.len() - 1],
        forall|a: int, b: int| 0 <= a < b < starts@.len() ==> starts@[a] < starts@[b],
        forall|j: int| 0 <= j < starts@.len() - 1 ==> #[trigger] ends@[j] == starts@[j + 1],
    ensures
        counts@.len() == starts@.len(),
        forall|j: int|
            0 <= j < starts@.len() ==> #[trigger] counts@[j] == count_within(
                times@,
                starts@[j] as int,
                ends@[j] as int,
            ),
{
    let n = starts.len();
    let mut counts: Vec<u64> = Vec::new();
    let mut k: usize = 0;
    while k < n
        invariant
            k <= n,
            n == starts@.len(),
            counts@.len() == k,
            forall|j: int| 0 <= j < k ==> #[trigger] counts@[j] == 0,
        decreases n - k,
    {
        counts.push(0);
        k = k + 1;
    }
    let mut i: usize = 0;
    proof {
        assert(times@.take(0) =~= Seq::<i64>::empty());
    }
    while i < times.len()
        invariant
            n == starts@.len() == ends@.len() == counts@.len(),
            1 <= n,
            i <= times@.len(),
            forall|t: int| 0 <= t < times@.len() ==> starts@[0] <= #[trigger] times@[t] < ends@[n - 1],
            forall|a: int, b: int| 0 <= a < b < n ==> starts@[a] < starts@[b],
            forall|j: int| 0 <= j < n - 1 ==> #[trigger] ends@[j] == starts@[j + 1],
            forall|j: int|
                0 <= j < n ==> #[trigger] counts@[j] == count_within(
                    times@.take(i as int),
                    starts@[j] as int,
                    ends@[j] as int,
                ),
            forall|j: int| 0 <= j < n ==> #[trigger] counts@[j] <= i,
        decreases times@.len() - i,
    {
        let t = times[i];
        let bucket = bucket_of(starts, t);
        proof {
            let before = times@.take(i as int);
            assert(times@.take(i + 1) =~= before.push(t));
            assert(before.push(t).drop_last() =~= before);
            assert forall|j: int| 0 <= j < n implies count_within(
                before.push(t),
                starts@[j] as int,
                ends@[j] as int,
            ) == count_within(before, starts@[j] as int, ends@[j] as int) + if j == bucket {
                1nat
            } else {
                0nat
            } by {
                if j < bucket {
                    assert(ends@[j] == starts@[j + 1]);
                    if j + 1 < bucket {
                        assert(starts@[j + 1] < starts@[bucket as int]);
                    }
                } else if j > bucket {
                    assert(ends@[bucket as int] == starts@[bucket + 1]);
                    if j > bucket + 1 {
                        assert(starts@[bucket + 1] < starts@[j]);
                    }
                } else {
                    if bucket + 1 < n {
                        assert(ends@[bucket as int] == starts@[bucket + 1]);
                    }
                }
            }
        }
        let current = counts[bucket];
        counts.set(bucket, current + 1);
        i = i + 1;
    }
    proof {
        assert(times@.take(i as int) =~= times@);
    }
    counts
}

/// Counts `times` (unix seconds) per calendar `unit` over their extent,
/// empties included: buckets from the one holding the earliest time
/// through the one holding the latest, each of its true length. `None`
/// when more than [`MAX_STAT_ELEMENTS`] buckets would start at or before
/// the latest time.
pub fn calendar_buckets(times: &Vec<i64>, unit: TimeUnit) -> (r: Option<CalendarBuckets>)
    requires
        times@.len() > 0,
        forall|i: int| 0 <= i < times@.len() ==> supported(#[trigger] times@[i] as int),
    ensures
        r is None <==> forall|k: int|
            0 <= k <= MAX_STAT_ELEMENTS ==> #[trigger] bucket_chain(
                unit,
                spec_floor(unit, min_of(times@)),
                MAX_STAT_ELEMENTS as nat,
            )[k] <= max_of(times@),
        r matches Some(b) ==> {
            let first = spec_floor(unit, min_of(times@));
            let n = b.starts@.len();
            &&& 1 <= n <= MAX_STAT_ELEMENTS
            &&& b.ends@.len() == n
            &&& b.counts@.len() == n
            &&& forall|k: int|
                0 <= k < n ==> #[trigger] b.starts@[k] == bucket_chain(unit, first, (n - 1) as nat)[k]
            &&& forall|k: int| 0 <= k < n ==> #[trigger] b.ends@[k] == spec_next(unit, b.starts@[k] as int)
            &&& forall|k: int| 0 <= k < n ==> #[trigger] b.starts@[k] <= max_of(times@)
            &&& b.ends@[n - 1] > max_of(times@)
            &&& forall|k: int|
                0 <= k < n ==> #[trigger] b.counts@[k] == count_within(
                    times@,
                    b.starts@[k] as int,
                    b.ends@[k] as int,
                )
        },
{
    let (low, high) = extent(times);
    let first = match unit.floor(low) {
        Some(first) => first,
        None => {
            return None;
        },
    };
    let (starts, ends) = match bucket_starts(unit, first, high) {
        Some(found) => found,
        None => {
            return None;
        },
    };
    proof {
        let n = starts@.len();
        assert forall|j: int| 0 <= j < n - 1 implies #[trigger] ends@[j] == starts@[j + 1] by {
            lemma_chain(unit, first as int, (n - 1) as nat);
            assert(starts@[j + 1] == bucket_chain(unit, first as int, (n - 1) as nat)[j + 1]);
        }
    }
    let counts = count_buckets(times, &starts, &ends);
    Some(CalendarBuckets { starts, ends, counts })
}

/// The index of the bucket holding `t`: the last start at or before it.
fn bucket_of(starts: &Vec<i64>, t: i64) -> (k: usize)
    requires
        starts@.len() >= 1,
        starts@[0] <= t,
        forall|a: int, b: int| 0 <= a < b < starts@.len() ==> starts@[a] < starts@[b],
    ensures
        k < starts@.len(),
        starts@[k as int] <= t,
        k + 1 < starts@.len() ==> t < starts@[k + 1],
{
    let mut low: usize = 0;
    let mut high: usize = starts.len();
    while high - low > 1
        invariant
            low < high <= starts@.len(),
            starts@[low as int] <= t,
            high < starts@.len() ==> t < starts@[high as int],
        decreases high - low,
    {
        let middle = low + (high - low) / 2;
        if starts[middle] <= t {
            low = middle;
        } else {
            high = middle;
        }
    }
    low
}

/// The earliest and latest of the times.
fn extent(times: &Vec<i64>) -> (r: (i64, i64))
    requires
        times@.len() > 0,
        forall|i: int| 0 <= i < times@.len() ==> supported(#[trigger] times@[i] as int),
    ensures
        r.0 == min_of(times@),
        r.1 == max_of(times@),
        supported(r.0 as int),
        supported(r.1 as int),
        r.0 <= r.1,
        forall|i: int| 0 <= i < times@.len() ==> r.0 <= #[trigger] times@[i] <= r.1,
{
    let mut low = times[0];
    let mut high = times[0];
    let mut i: usize = 1;
    proof {
        assert(times@.take(1).len() == 1);
    }
    while i < times.len()
        invariant
            1 <= i <= times@.len(),
            low == min_of(times@.take(i as int)),
            high == max_of(times@.take(i as int)),
            supported(low as int),
            supported(high as int),
            low <= high,
            forall|k: int| 0 <= k < i ==> low <= #[trigger] times@[k] <= high,
            forall|k: int| 0 <= k < times@.len() ==> supported(#[trigger] times@[k] as int),
        decreases times@.len() - i,
    {
        let t = times[i];
        proof {
            assert(times@.take(i + 1).drop_last() =~= times@.take(i as int));
        }
        if t < low {
            low = t;
        }
        if t > high {
            high = t;
        }
        i = i + 1;
    }
    proof {
        assert(times@.take(i as int) =~= times@);
    }
    (low, high)
}

} // verus!
