//! The proleptic Gregorian calendar of UTC instants, as `chrono` computes
//! it: the civil date of an instant, month starts, fixed and calendar-month
//! offsets, and strftime-style formatting.

use vstd::prelude::*;
use vstd::arithmetic::div_mod::lemma_fundamental_div_mod;
use vstd::arithmetic::div_mod::lemma_fundamental_div_mod_converse;

use chrono::{DateTime, Datelike, Days, Months, NaiveDate, TimeDelta, Timelike};
use std::fmt::Write;

verus! {

/// Microseconds in one day.
pub open spec fn day_micros() -> int {
    86_400_000_000
}

/// The day number (days since 1970-01-01) of an instant.
pub open spec fn day_of(micros: int) -> int {
    micros / day_micros()
}

/// The earliest year `chrono` represents.
pub const MIN_YEAR: i32 = -262_143;

/// The latest year `chrono` represents.
pub const MAX_YEAR: i32 = 262_142;

/// The day number of January 1st of `MIN_YEAR`.
pub const MIN_DAY: i64 = -96_465_292;

/// The day number of December 31st of `MAX_YEAR`.
pub const MAX_DAY: i64 = 95_026_236;

/// Whether `chrono` can represent the instant.
pub open spec fn instant_in_range(micros: int) -> bool {
    MIN_DAY <= day_of(micros) <= MAX_DAY
}

/// Whether `year` is a Gregorian leap year.
pub open spec fn is_leap_year(year: int) -> bool {
    year % 4 == 0 && (year % 100 != 0 || year % 400 == 0)
}

/// The number of days of a month (`1 <= month <= 12`).
pub open spec fn days_in_month(year: int, month: int) -> int {
    if month == 2 {
        if is_leap_year(year) {
            29
        } else {
            28
        }
    } else if month == 4 || month == 6 || month == 9 || month == 11 {
        30
    } else {
        31
    }
}

/// Whether `(year, month, day)` names a date of the proleptic Gregorian
/// calendar that `chrono` represents.
pub open spec fn valid_date(year: int, month: int, day: int) -> bool {
    &&& MIN_YEAR <= year <= MAX_YEAR
    &&& 1 <= month <= 12
    &&& 1 <= day <= days_in_month(year, month)
}

/// The day number (days since 1970-01-01) of a proleptic Gregorian date:
/// years are counted from March so that the leap day ends a year.
pub open spec fn days_from_civil(year: int, month: int, day: int) -> int {
    let y = if month <= 2 {
        year - 1
    } else {
        year
    };
    let shifted_month = if month > 2 {
        month - 3
    } else {
        month + 9
    };
    365 * y + y / 4 - y / 100 + y / 400 + (153 * shifted_month + 2) / 5 + day - 1 - 719_468
}

/// The day number of the first day of a month, months counted from January
/// 1970 (index 0).
pub open spec fn month_start_day(index: int) -> int {
    days_from_civil(1970 + index / 12, index % 12 + 1, 1)
}

/// The month index (months since January 1970) of a year and month.
pub open spec fn month_index(year: int, month: int) -> int {
    (year - 1970) * 12 + month - 1
}

/// `y / d` grows by one exactly when `y` is a multiple of `d`.
proof fn lemma_floor_step(y: int, d: int)
    requires
        d > 0,
    ensures
        y / d - (y - 1) / d == (if y % d == 0 {
            1int
        } else {
            0int
        }),
{
    lemma_fundamental_div_mod(y, d);
    let q = y / d;
    let r = y % d;
    if r == 0 {
        assert(y - 1 == (q - 1) * d + (d - 1)) by (nonlinear_arith)
            requires
                y == d * q + r,
                r == 0,
        ;
        lemma_fundamental_div_mod_converse(y - 1, d, q - 1, d - 1);
    } else {
        assert(y - 1 == q * d + (r - 1)) by (nonlinear_arith)
            requires
                y == d * q + r,
        ;
        lemma_fundamental_div_mod_converse(y - 1, d, q, r - 1);
    }
}

/// A multiple of 400 is a multiple of 100, and a multiple of 100 is a
/// multiple of 4.
proof fn lemma_divisibility_chain(y: int)
    ensures
        y % 400 == 0 ==> y % 100 == 0,
        y % 100 == 0 ==> y % 4 == 0,
{
    lemma_fundamental_div_mod(y, 400);
    lemma_fundamental_div_mod(y, 100);
    if y % 400 == 0 {
        lemma_fundamental_div_mod_converse(y, 100, 4 * (y / 400), 0);
    }
    if y % 100 == 0 {
        lemma_fundamental_div_mod_converse(y, 4, 25 * (y / 100), 0);
    }
}

/// The month index of a month start maps back to its year and month.
pub proof fn lemma_month_index_fields(year: int, month: int)
    requires
        1 <= month <= 12,
    ensures
        month_index(year, month) / 12 == year - 1970,
        month_index(year, month) % 12 == month - 1,
        month_start_day(month_index(year, month)) == days_from_civil(year, month, 1),
{
    lemma_fundamental_div_mod_converse(month_index(year, month), 12, year - 1970, month - 1);
}

/// The next month starts `days_in_month` days after this one.
pub proof fn lemma_next_month_start(index: int)
    ensures
        month_start_day(index + 1) == month_start_day(index) + days_in_month(
            1970 + index / 12,
            index % 12 + 1,
        ),
{
    let y = 1970 + index / 12;
    let m = index % 12 + 1;
    lemma_fundamental_div_mod(index, 12);
    if m < 12 {
        lemma_fundamental_div_mod_converse(index + 1, 12, index / 12, index % 12 + 1);
    } else {
        lemma_fundamental_div_mod_converse(index + 1, 12, index / 12 + 1, 0);
    }
    if m == 2 {
        lemma_floor_step(y, 4);
        lemma_floor_step(y, 100);
        lemma_floor_step(y, 400);
        lemma_divisibility_chain(y);
    }
}

/// Later months start later: at least 28 days per month.
pub proof fn lemma_month_starts_increase(i: int, j: int)
    requires
        i <= j,
    ensures
        month_start_day(j) - month_start_day(i) >= 28 * (j - i),
    decreases j - i,
{
    if i < j {
        lemma_month_starts_increase(i, j - 1);
        lemma_next_month_start(j - 1);
    }
}

/// A valid date lies within its month: on or after the month's first day
/// and before the next month's.
pub proof fn lemma_date_within_month(year: int, month: int, day: int)
    requires
        valid_date(year, month, day),
    ensures
        month_start_day(month_index(year, month)) <= days_from_civil(year, month, day),
        days_from_civil(year, month, day) < month_start_day(month_index(year, month) + 1),
{
    lemma_month_index_fields(year, month);
    lemma_next_month_start(month_index(year, month));
}

/// Distinct valid dates have distinct day numbers.
pub proof fn lemma_civil_date_unique(y1: int, m1: int, d1: int, y2: int, m2: int, d2: int)
    requires
        valid_date(y1, m1, d1),
        valid_date(y2, m2, d2),
        days_from_civil(y1, m1, d1) == days_from_civil(y2, m2, d2),
    ensures
        y1 == y2,
        m1 == m2,
        d1 == d2,
{
    let i1 = month_index(y1, m1);
    let i2 = month_index(y2, m2);
    lemma_date_within_month(y1, m1, d1);
    lemma_date_within_month(y2, m2, d2);
    if i1 < i2 {
        lemma_month_starts_increase(i1 + 1, i2);
    } else if i2 < i1 {
        lemma_month_starts_increase(i2 + 1, i1);
    }
    lemma_month_index_fields(y1, m1);
    lemma_month_index_fields(y2, m2);
}

/// The calendar fields of an instant are determined by the instant.
pub proof fn lemma_civil_fields_unique(a: CivilInstant, b: CivilInstant, micros: int)
    requires
        civil_fields_of(a, micros),
        civil_fields_of(b, micros),
    ensures
        a == b,
{
    lemma_civil_date_unique(
        a.year as int,
        a.month as int,
        a.day as int,
        b.year as int,
        b.month as int,
        b.day as int,
    );
}

/// The calendar fields of an instant.
#[derive(Debug, Clone, Copy, PartialEq, Eq)]
pub struct CivilInstant {
    pub year: i32,
    /// 1 to 12.
    pub month: u32,
    /// 1 to 31.
    pub day: u32,
    /// The day of the year, from 1.
    pub ordinal: u32,
    /// Days since 1970-01-01.
    pub epoch_day: i64,
    /// Whole seconds since midnight.
    pub second_of_day: u32,
    /// Nanoseconds within the second.
    pub nanosecond: u32,
}

/// What `civil_instant` reports of `micros`.
pub open spec fn civil_fields_of(c: CivilInstant, micros: int) -> bool {
    &&& valid_date(c.year as int, c.month as int, c.day as int)
    &&& days_from_civil(c.year as int, c.month as int, c.day as int) == day_of(micros)
    &&& c.epoch_day == day_of(micros)
    &&& c.ordinal == day_of(micros) - days_from_civil(c.year as int, 1, 1) + 1
    &&& c.second_of_day == (micros % day_micros()) / 1_000_000
    &&& c.nanosecond == (micros % 1_000_000) * 1000
}

/// The calendar fields of an instant `chrono` represents.
pub open spec fn civil_of(micros: int) -> CivilInstant {
    choose|c: CivilInstant| civil_fields_of(c, micros)
}

/// Fields that describe an instant are its calendar fields.
pub proof fn lemma_civil_of(c: CivilInstant, micros: int)
    requires
        civil_fields_of(c, micros),
    ensures
        civil_of(micros) == c,
{
    let d = civil_of(micros);
    assert(civil_fields_of(d, micros));
    lemma_civil_fields_unique(c, d, micros);
}

/// The UTC calendar fields of an instant (`DateTime::from_timestamp_micros`
/// and the `Datelike`/`Timelike` accessors of its date and time). `chrono`
/// represents the instants whose day lies between `MIN_DAY` and `MAX_DAY`; its
/// dates are the proleptic Gregorian ones, so the date's day number is the
/// instant's day.
#[verifier::external_body]
pub(crate) fn civil_instant(micros: i64) -> (c: Option<CivilInstant>)
    ensures
        c is Some <==> instant_in_range(micros as int),
        c matches Some(c) ==> civil_fields_of(c, micros as int),
{
    let dt = DateTime::from_timestamp_micros(micros)?;
    let date = dt.date_naive();
    Some(
        CivilInstant {
            year: date.year(),
            month: date.month(),
            day: date.day(),
            ordinal: date.ordinal(),
            epoch_day: date.to_epoch_days() as i64,
            second_of_day: dt.time().num_seconds_from_midnight(),
            nanosecond: dt.time().nanosecond(),
        },
    )
}

/// Midnight UTC of the first day of a month, in microseconds
/// (`NaiveDate::from_ymd_opt(year, month, 1)`, at 00:00:00, as a UTC
/// timestamp). `chrono` refuses months outside 1 to 12 and years outside
/// `MIN_YEAR..=MAX_YEAR`; the dates it accepts are within its range.
#[verifier::external_body]
pub(crate) fn month_start_micros(year: i32, month: u32) -> (micros: Option<i64>)
    ensures
        micros is Some <==> (MIN_YEAR <= year <= MAX_YEAR && 1 <= month <= 12),
        micros matches Some(m) ==> m == days_from_civil(year as int, month as int, 1)
            * day_micros() && instant_in_range(m as int),
{
    Some(NaiveDate::from_ymd_opt(year, month, 1)?.and_hms_opt(0, 0, 0)?.and_utc().timestamp_micros())
}

/// Midnight UTC `days` days after the date of `micros`
/// (`NaiveDate::checked_add_days`, at 00:00:00, as a UTC timestamp): `None`
/// when either date is out of `chrono`'s range.
#[verifier::external_body]
pub(crate) fn midnight_after_days(micros: i64, days: u64) -> (midnight: Option<i64>)
    ensures
        midnight is Some <==> (instant_in_range(micros as int) && day_of(micros as int) + days
            <= MAX_DAY),
        midnight matches Some(m) ==> m == (day_of(micros as int) + days) * day_micros(),
{
    let date = DateTime::from_timestamp_micros(micros)?.date_naive();
    Some(date.checked_add_days(Days::new(days))?.and_hms_opt(0, 0, 0)?.and_utc().timestamp_micros())
}

/// `micros` shifted by `delta` microseconds
/// (`DateTime::checked_add_signed(TimeDelta::microseconds(delta))`): `None`
/// when the instant or the result is out of `chrono`'s range.
#[verifier::external_body]
pub(crate) fn add_fixed_micros(micros: i64, delta: i64) -> (shifted: Option<i64>)
    ensures
        shifted is Some <==> (instant_in_range(micros as int) && instant_in_range(
            micros + delta,
        )),
        shifted matches Some(s) ==> s == micros + delta,
{
    Some(
        DateTime::from_timestamp_micros(micros)?.checked_add_signed(
            TimeDelta::microseconds(delta),
        )?.timestamp_micros(),
    )
}

/// The instant `delta` calendar months from `micros` (earlier when `delta`
/// is negative): the month moves by `delta`, the day of the month is kept
/// but clamped to the last day of the target month, and the time of day is
/// kept. None when the instant or the target year is out of range.
#[verifier::opaque]
pub open spec fn shifted_months(micros: int, delta: int) -> Option<int> {
    if !instant_in_range(micros) {
        None
    } else {
        let c = civil_of(micros);
        let total = c.year * 12 + c.month - 1 + delta;
        let year = total / 12;
        let month = total % 12 + 1;
        let day = if c.day > days_in_month(year, month) {
            days_in_month(year, month)
        } else {
            c.day as int
        };
        if MIN_YEAR <= year <= MAX_YEAR {
            Some(days_from_civil(year, month, day) * day_micros() + micros % day_micros())
        } else {
            None
        }
    }
}

/// What `DateTime::checked_add_months` gives for an instant and a month
/// count, as a timestamp: the shifted instant; none for more than
/// `i32::MAX` months.
pub open spec fn months_added(micros: int, months: int) -> Option<int> {
    if months > i32::MAX {
        None
    } else {
        shifted_months(micros, months)
    }
}

/// What `DateTime::checked_sub_months` gives for an instant and a month
/// count, as a timestamp: the instant shifted back; none for more than
/// `i32::MAX` months.
pub open spec fn months_subtracted(micros: int, months: int) -> Option<int> {
    if months > i32::MAX {
        None
    } else {
        shifted_months(micros, -months)
    }
}

/// `micros` moved `months` calendar months later, the day clamped to the
/// last day of a shorter month (`DateTime::checked_add_months`): the
/// contract claims the result is `months_added` of the arguments, and that
/// both instants are in range whenever there is one (a `DateTime` always is).
#[verifier::external_body]
pub(crate) fn add_calendar_months(micros: i64, months: u32) -> (shifted: Option<i64>)
    ensures
        shifted matches Some(s) ==> months_added(micros as int, months as int) == Some(s as int)
            && instant_in_range(micros as int) && instant_in_range(s as int),
        shifted is None ==> months_added(micros as int, months as int) is None,
{
    Some(DateTime::from_timestamp_micros(micros)?.checked_add_months(Months::new(months))?.timestamp_micros())
}

/// `micros` moved `months` calendar months earlier, the day clamped to the
/// last day of a shorter month (`DateTime::checked_sub_months`): the
/// contract claims the result is `months_subtracted` of the arguments, and
/// that both instants are in range whenever there is one (a `DateTime`
/// always is).
#[verifier::external_body]
pub(crate) fn subtract_calendar_months(micros: i64, months: u32) -> (shifted: Option<i64>)
    ensures
        shifted matches Some(s) ==> months_subtracted(micros as int, months as int) == Some(
            s as int,
        ) && instant_in_range(micros as int) && instant_in_range(s as int),
        shifted is None ==> months_subtracted(micros as int, months as int) is None,
{
    Some(DateTime::from_timestamp_micros(micros)?.checked_sub_months(Months::new(months))?.timestamp_micros())
}

/// The text `chrono` renders for an instant and a strftime pattern, or
/// `None` when the instant is out of range or `chrono` reports a formatting
/// error for the pattern.
pub uninterp spec fn strftime_text(micros: int, pattern: Seq<char>) -> Option<Seq<char>>;

/// Render an instant with a strftime pattern
/// (`DateTime::from_timestamp_micros(micros)?.format(pattern)` written into a
/// `String`). The rendered text is only named; `None` comes exactly when the
/// instant is out of range or the formatting reports an error.
#[verifier::external_body]
pub(crate) fn format_instant(micros: i64, pattern: &str) -> (text: Option<String>)
    ensures
        text matches Some(t) ==> strftime_text(micros as int, pattern@) == Some(t@)
            && instant_in_range(micros as int),
        text is None ==> strftime_text(micros as int, pattern@) is None,
{
    let dt = DateTime::from_timestamp_micros(micros)?;
    let mut out = String::new();
    write!(out, "{}", dt.format(pattern)).ok()?;
    Some(out)
}

} // verus!
