//! Temporal tick planning: the automatic tick ladder for time axes, explicit
//! `tickInterval` cadences on calendar and clock grids, and temporal bucket
//! arithmetic. Instants are UTC microseconds since the Unix epoch.

use vstd::prelude::*;
use vstd::arithmetic::div_mod::lemma_fundamental_div_mod;
use vstd::arithmetic::div_mod::lemma_fundamental_div_mod_converse;

use crate::calendar::{
    add_calendar_months, add_fixed_micros, civil_fields_of, civil_instant, day_micros, day_of,
    days_from_civil, instant_in_range, lemma_month_index_fields, lemma_month_starts_increase,
    month_index, month_start_day, month_start_micros, months_added, months_subtracted,
    subtract_calendar_months, CivilInstant, MAX_YEAR, MIN_YEAR, civil_of, lemma_civil_of,
    midnight_after_days, MAX_DAY, format_instant, strftime_text,
};

verus! {

pub const MICROS_PER_MILLISECOND: i64 = 1_000;

pub const MICROS_PER_SECOND: i64 = 1_000_000;

pub const MICROS_PER_MINUTE: i64 = 60_000_000;

pub const MICROS_PER_HOUR: i64 = 3_600_000_000;

pub const MICROS_PER_DAY: i64 = 86_400_000_000;

pub const MICROS_PER_WEEK: i64 = 604_800_000_000;

/// 1970-01-05 was the first ISO Monday on or after the Unix epoch, so the
/// Monday week grid is the epoch grid shifted by four days.
pub const MONDAY_GRID_OFFSET: i64 = 345_600_000_000;

/// Explicit `tickInterval` ticks beyond this budget promote the step count.
pub const MAX_INTERVAL_TICKS: usize = 40;

// ---------------------------------------------------------------------------
// Integer helpers
// ---------------------------------------------------------------------------

/// `value` clamped into the `i64` range.
pub open spec fn clamp_i64(value: int) -> int {
    if value > i64::MAX {
        i64::MAX as int
    } else if value < i64::MIN {
        i64::MIN as int
    } else {
        value
    }
}

fn saturating_add(a: i64, b: i64) -> (r: i64)
    ensures
        r == clamp_i64(a + b),
{
    match a.checked_add(b) {
        Some(r) => r,
        None => if b > 0 {
            i64::MAX
        } else {
            i64::MIN
        },
    }
}

fn saturating_sub(a: i64, b: i64) -> (r: i64)
    ensures
        r == clamp_i64(a - b),
{
    match a.checked_sub(b) {
        Some(r) => r,
        None => if b < 0 {
            i64::MAX
        } else {
            i64::MIN
        },
    }
}

fn saturating_mul(a: i64, b: i64) -> (r: i64)
    requires
        a >= 0,
        b >= 0,
    ensures
        r == clamp_i64(a * b),
{
    proof {
        assert(a * b >= 0) by (nonlinear_arith)
            requires
                a >= 0,
                b >= 0,
        ;
    }
    match a.checked_mul(b) {
        Some(r) => r,
        None => i64::MAX,
    }
}

fn saturating_mul_signed(a: i64, b: i64) -> (r: i64)
    requires
        b > 0,
    ensures
        r == clamp_i64(a * b),
{
    proof {
        if a < 0 {
            assert(a * b < 0) by (nonlinear_arith)
                requires
                    a < 0,
                    b > 0,
            ;
        } else {
            assert(a * b >= 0) by (nonlinear_arith)
                requires
                    a >= 0,
                    b > 0,
            ;
        }
    }
    match a.checked_mul(b) {
        Some(r) => r,
        None => if a < 0 {
            i64::MIN
        } else {
            i64::MAX
        },
    }
}

pub(crate) fn rem_euclid(a: i64, b: i64) -> (r: i64)
    requires
        b > 0,
    ensures
        r == a % b,
        0 <= r < b,
{
    match a.checked_rem_euclid(b) {
        Some(r) => r,
        None => 0,
    }
}

pub(crate) fn div_euclid(a: i64, b: i64) -> (q: i64)
    requires
        b > 0,
    ensures
        q == a / b,
{
    proof {
        lemma_fundamental_div_mod(a as int, b as int);
        if a >= 0 {
            assert(0 <= a / b <= a) by (nonlinear_arith)
                requires
                    b > 0,
                    a >= 0,
                    a == b * (a / b) + a % b,
                    0 <= a % b < b,
            ;
        } else {
            assert(a <= a / b <= 0) by (nonlinear_arith)
                requires
                    b > 0,
                    a < 0,
                    a == b * (a / b) + a % b,
                    0 <= a % b < b,
            ;
        }
    }
    match a.checked_div_euclid(b) {
        Some(q) => q,
        None => 0,
    }
}

/// `(a + b) % d == b` when `a` is a multiple of `d` and `0 <= b < d`.
proof fn lemma_mod_offset(a: int, b: int, d: int)
    requires
        d > 0,
        a % d == 0,
        0 <= b < d,
    ensures
        (a + b) % d == b,
{
    lemma_fundamental_div_mod(a, d);
    assert(a + b == (a / d) * d + b) by (nonlinear_arith)
        requires
            a == d * (a / d) + a % d,
            a % d == 0,
    ;
    lemma_fundamental_div_mod_converse(a + b, d, a / d, b);
}

/// Adding `d` to a multiple of `d` gives a multiple of `d`; so is zero.
proof fn lemma_multiple_next(a: int, d: int)
    requires
        d > 0,
        a % d == 0,
    ensures
        (a + d) % d == 0,
        0int % d == 0,
{
    lemma_fundamental_div_mod(a, d);
    assert(a + d == (a / d + 1) * d) by (nonlinear_arith)
        requires
            a == d * (a / d) + a % d,
            a % d == 0,
    ;
    lemma_fundamental_div_mod_converse(a + d, d, a / d + 1, 0);
    lemma_fundamental_div_mod_converse(0, d, 0, 0);
}

/// Two distinct multiples of `s` lie at least `s` apart.
proof fn lemma_multiples_apart(x: int, y: int, s: int)
    requires
        s > 0,
        x % s == 0,
        y % s == 0,
        x < y,
    ensures
        y - x >= s,
{
    lemma_fundamental_div_mod(x, s);
    lemma_fundamental_div_mod(y, s);
    let qx = x / s;
    let qy = y / s;
    assert(y - x >= s) by (nonlinear_arith)
        requires
            s > 0,
            x == s * qx,
            y == s * qy,
            x < y,
    ;
}

// ---------------------------------------------------------------------------
// Units, intervals and precision
// ---------------------------------------------------------------------------

/// The unit of an explicit tick interval.
#[derive(Debug, Clone, Copy, PartialEq, Eq, Structural)]
pub enum TemporalTickUnit {
    Millisecond,
    Second,
    Minute,
    Hour,
    Day,
    Week,
    Month,
    Quarter,
    Year,
}

/// An explicit tick cadence such as "6 hours" or "3 months".
#[derive(Debug, Clone, Copy, PartialEq, Eq, Structural)]
pub struct TemporalTickInterval {
    pub count: u32,
    pub unit: TemporalTickUnit,
}

/// Whether a temporal column holds dates or date-times.
#[derive(Debug, Clone, Copy, PartialEq, Eq, Structural)]
pub enum TemporalPrecision {
    Date,
    DateTime,
}

/// The nominal length of one unit in microseconds (months, quarters and
/// years use 30, 91 and 365 days).
pub open spec fn unit_micros(unit: TemporalTickUnit) -> int {
    match unit {
        TemporalTickUnit::Millisecond => 1_000,
        TemporalTickUnit::Second => 1_000_000,
        TemporalTickUnit::Minute => 60_000_000,
        TemporalTickUnit::Hour => 3_600_000_000,
        TemporalTickUnit::Day => 86_400_000_000,
        TemporalTickUnit::Week => 604_800_000_000,
        TemporalTickUnit::Month => 2_592_000_000_000,
        TemporalTickUnit::Quarter => 7_862_400_000_000,
        TemporalTickUnit::Year => 31_536_000_000_000,
    }
}

/// The approximate length of one unit, used to estimate tick counts.
pub fn approx_step_micros(unit: TemporalTickUnit) -> (step: i64)
    ensures
        step == unit_micros(unit),
{
    match unit {
        TemporalTickUnit::Millisecond => MICROS_PER_MILLISECOND,
        TemporalTickUnit::Second => MICROS_PER_SECOND,
        TemporalTickUnit::Minute => MICROS_PER_MINUTE,
        TemporalTickUnit::Hour => MICROS_PER_HOUR,
        TemporalTickUnit::Day => MICROS_PER_DAY,
        TemporalTickUnit::Week => MICROS_PER_WEEK,
        TemporalTickUnit::Month => 30 * MICROS_PER_DAY,
        TemporalTickUnit::Quarter => 91 * MICROS_PER_DAY,
        TemporalTickUnit::Year => 365 * MICROS_PER_DAY,
    }
}

// ---------------------------------------------------------------------------
// Clock ladder
// ---------------------------------------------------------------------------

/// The least multiple of `interval` that is not below `value`.
pub open spec fn ceil_multiple(value: int, interval: int) -> int {
    if value % interval == 0 {
        value
    } else {
        value + interval - value % interval
    }
}

/// Round `value` up to the next multiple of `interval`; `None` when that
/// multiple does not fit in an `i64`.
pub fn ceil_to_interval(value: i64, interval: i64) -> (r: Option<i64>)
    requires
        interval > 0,
    ensures
        r == (if ceil_multiple(value as int, interval as int) <= i64::MAX {
            Some(ceil_multiple(value as int, interval as int) as i64)
        } else {
            None
        }),
{
    let rem = rem_euclid(value, interval);
    if rem == 0 {
        Some(value)
    } else {
        value.checked_add(interval - rem)
    }
}

/// `ceil_multiple` is the least multiple of the interval at or above the
/// value.
pub proof fn lemma_ceil_multiple_is_least(value: int, interval: int)
    requires
        interval > 0,
    ensures
        ceil_multiple(value, interval) % interval == 0,
        value <= ceil_multiple(value, interval) < value + interval,
{
    let r = value % interval;
    lemma_fundamental_div_mod(value, interval);
    if r != 0 {
        let q = value / interval;
        assert(value + interval - r == (q + 1) * interval) by (nonlinear_arith)
            requires
                value == interval * q + r,
        ;
        lemma_fundamental_div_mod_converse(value + interval - r, interval, q + 1, 0);
    }
}

/// The clock steps of the automatic ladder, finest first: 1 ms, 10 ms,
/// 100 ms, 1 s, 5 s, 15 s, 30 s, 1 min, 5 min, 15 min, 30 min, 1 h, 6 h,
/// 12 h, 1 day and 1 week.
pub open spec fn clock_step(k: int) -> int {
    if k == 0 {
        1_000
    } else if k == 1 {
        10_000
    } else if k == 2 {
        100_000
    } else if k == 3 {
        1_000_000
    } else if k == 4 {
        5_000_000
    } else if k == 5 {
        15_000_000
    } else if k == 6 {
        30_000_000
    } else if k == 7 {
        60_000_000
    } else if k == 8 {
        300_000_000
    } else if k == 9 {
        900_000_000
    } else if k == 10 {
        1_800_000_000
    } else if k == 11 {
        3_600_000_000
    } else if k == 12 {
        21_600_000_000
    } else if k == 13 {
        43_200_000_000
    } else if k == 14 {
        86_400_000_000
    } else {
        604_800_000_000
    }
}

pub const CLOCK_STEP_COUNT: usize = 16;

fn clock_step_at(k: usize) -> (step: i64)
    requires
        k < CLOCK_STEP_COUNT,
    ensures
        step == clock_step(k as int),
        0 < step <= MICROS_PER_WEEK,
{
    if k == 0 {
        1_000
    } else if k == 1 {
        10_000
    } else if k == 2 {
        100_000
    } else if k == 3 {
        1_000_000
    } else if k == 4 {
        5_000_000
    } else if k == 5 {
        15_000_000
    } else if k == 6 {
        30_000_000
    } else if k == 7 {
        60_000_000
    } else if k == 8 {
        300_000_000
    } else if k == 9 {
        900_000_000
    } else if k == 10 {
        1_800_000_000
    } else if k == 11 {
        3_600_000_000
    } else if k == 12 {
        21_600_000_000
    } else if k == 13 {
        43_200_000_000
    } else if k == 14 {
        86_400_000_000
    } else {
        604_800_000_000
    }
}

/// How many multiples of `step`, starting at `first`, lie at or below `max`.
pub open spec fn multiples_up_to(first: int, max: int, step: int) -> int {
    if first > max {
        0
    } else {
        (max - first) / step + 1
    }
}

/// `count` ticks starting at `first`, `step` apart.
pub open spec fn even_ticks(first: int, step: int, count: nat) -> Seq<i64> {
    Seq::new(count, |i: int| (first + i * step) as i64)
}

/// The clock ladder from rung `k` on: the first step whose aligned ticks in
/// `[min, max]` number two to eight. A rung whose first aligned instant
/// overflows ends the ladder.
pub open spec fn clock_ladder(min: int, max: int, k: int) -> Option<Seq<i64>>
    decreases 16 - k,
{
    if k >= 16 || k < 0 {
        None
    } else {
        let step = clock_step(k);
        let first = ceil_multiple(min, step);
        if first > i64::MAX {
            None
        } else {
            let count = multiples_up_to(first, max, step);
            if 2 <= count <= 8 {
                Some(even_ticks(first, step, count as nat))
            } else {
                clock_ladder(min, max, k + 1)
            }
        }
    }
}

/// Clock-aligned ticks for sub-week spans: the finest ladder step that
/// yields two to eight ticks inside `[min, max]`.
pub fn clock_interval_ticks(min: i64, max: i64) -> (ticks: Option<Vec<i64>>)
    ensures
        match ticks {
            Some(t) => 0 < max - min <= i64::MAX && clock_ladder(min as int, max as int, 0) == Some(
                t@,
            ),
            None => max - min <= 0 || max - min > i64::MAX || clock_ladder(
                min as int,
                max as int,
                0,
            ) is None,
        },
{
    let span = match max.checked_sub(min) {
        Some(span) => span,
        None => return None,
    };
    if span <= 0 {
        return None;
    }
    let mut k: usize = 0;
    while k < CLOCK_STEP_COUNT
        invariant
            k <= CLOCK_STEP_COUNT,
            span == max - min,
            span > 0,
            clock_ladder(min as int, max as int, 0) == clock_ladder(min as int, max as int, k as int),
        decreases CLOCK_STEP_COUNT - k,
    {
        let step = clock_step_at(k);
        let first = match ceil_to_interval(min, step) {
            Some(first) => first,
            None => return None,
        };
        proof {
            lemma_ceil_multiple_is_least(min as int, step as int);
        }
        let count: i64 = if first > max {
            0
        } else {
            (max - first) / step + 1
        };
        if 2 <= count && count <= 8 {
            let mut ticks: Vec<i64> = Vec::new();
            let mut i: i64 = 0;
            while i < count
                invariant
                    0 <= i <= count <= 8,
                    first <= max,
                    0 < step <= MICROS_PER_WEEK,
                    count == (max - first) / (step as int) + 1,
                    ticks@ == even_ticks(first as int, step as int, i as nat),
                decreases count - i,
            {
                proof {
                    assert(first + i * step <= max) by (nonlinear_arith)
                        requires
                            0 <= i < count,
                            count == (max - first) / (step as int) + 1,
                            step > 0,
                            first <= max,
                    ;
                    assert(0 <= i * step <= 8 * MICROS_PER_WEEK) by (nonlinear_arith)
                        requires
                            0 <= i < 8,
                            0 < step <= MICROS_PER_WEEK,
                    ;
                }
                ticks.push(first + i * step);
                assert(ticks@ =~= even_ticks(first as int, step as int, (i + 1) as nat));
                i = i + 1;
            }
            return Some(ticks);
        }
        k = k + 1;
    }
    None
}

// ---------------------------------------------------------------------------
// Midpoints
// ---------------------------------------------------------------------------

/// Half the sum of `a` and `b`, rounded toward zero.
pub open spec fn midpoint(a: int, b: int) -> int {
    let sum = a + b;
    if sum >= 0 {
        sum / 2
    } else {
        -((-sum) / 2)
    }
}

/// The midpoint of two instants, computed without overflow.
pub fn midpoint_micros(a: i64, b: i64) -> (mid: i64)
    ensures
        mid == midpoint(a as int, b as int),
{
    let sum: i128 = a as i128 + b as i128;
    if sum >= 0 {
        (sum / 2) as i64
    } else {
        let half: i128 = (0 - sum) / 2;
        (0 - half) as i64
    }
}

/// The midpoint lies between its two instants.
pub proof fn lemma_midpoint_between(a: int, b: int)
    requires
        a <= b,
    ensures
        a <= midpoint(a, b) <= b,
{
}

// ---------------------------------------------------------------------------
// Advancing and retreating by an interval
// ---------------------------------------------------------------------------

/// The step count of an interval; a zero count means one.
pub open spec fn interval_count(interval: TemporalTickInterval) -> int {
    if interval.count == 0 {
        1
    } else {
        interval.count as int
    }
}

/// The length of a clock or day unit in microseconds; `None` for calendar
/// units (months, quarters, years).
pub open spec fn fixed_unit_micros(unit: TemporalTickUnit) -> Option<int> {
    match unit {
        TemporalTickUnit::Millisecond => Some(1_000),
        TemporalTickUnit::Second => Some(1_000_000),
        TemporalTickUnit::Minute => Some(60_000_000),
        TemporalTickUnit::Hour => Some(3_600_000_000),
        TemporalTickUnit::Day => Some(86_400_000_000),
        TemporalTickUnit::Week => Some(604_800_000_000),
        _ => None,
    }
}

/// The months in one calendar unit.
pub open spec fn unit_months(unit: TemporalTickUnit) -> int {
    match unit {
        TemporalTickUnit::Quarter => 3,
        TemporalTickUnit::Year => 12,
        _ => 1,
    }
}

/// `micros` moved by `delta` microseconds, where `chrono` represents both
/// instants.
pub open spec fn shifted_fixed(micros: int, delta: int) -> Option<int> {
    if instant_in_range(micros) && instant_in_range(micros + delta) {
        Some(micros + delta)
    } else {
        None
    }
}

/// The instant one interval after `micros`.
pub open spec fn advanced(micros: int, interval: TemporalTickInterval) -> Option<int> {
    let n = interval_count(interval);
    match fixed_unit_micros(interval.unit) {
        Some(u) => if n * u > i64::MAX {
            None
        } else {
            shifted_fixed(micros, n * u)
        },
        None => if n * unit_months(interval.unit) > u32::MAX {
            None
        } else {
            months_added(micros, n * unit_months(interval.unit))
        },
    }
}

/// The instant one interval before `micros`.
pub open spec fn retreated(micros: int, interval: TemporalTickInterval) -> Option<int> {
    let n = interval_count(interval);
    match fixed_unit_micros(interval.unit) {
        Some(u) => if n * u > i64::MAX {
            None
        } else {
            shifted_fixed(micros, -(n * u))
        },
        None => if n * unit_months(interval.unit) > u32::MAX {
            None
        } else {
            months_subtracted(micros, n * unit_months(interval.unit))
        },
    }
}

fn fixed_unit_micros_of(unit: TemporalTickUnit) -> (u: Option<i64>)
    ensures
        match fixed_unit_micros(unit) {
            Some(v) => u == Some(v as i64) && v > 0,
            None => u is None,
        },
{
    match unit {
        TemporalTickUnit::Millisecond => Some(MICROS_PER_MILLISECOND),
        TemporalTickUnit::Second => Some(MICROS_PER_SECOND),
        TemporalTickUnit::Minute => Some(MICROS_PER_MINUTE),
        TemporalTickUnit::Hour => Some(MICROS_PER_HOUR),
        TemporalTickUnit::Day => Some(MICROS_PER_DAY),
        TemporalTickUnit::Week => Some(MICROS_PER_WEEK),
        _ => None,
    }
}

fn unit_months_of(unit: TemporalTickUnit) -> (m: i64)
    ensures
        m == unit_months(unit),
{
    match unit {
        TemporalTickUnit::Quarter => 3,
        TemporalTickUnit::Year => 12,
        _ => 1,
    }
}

fn interval_count_of(interval: TemporalTickInterval) -> (n: i64)
    ensures
        n == interval_count(interval),
        1 <= n <= u32::MAX,
{
    if interval.count == 0 {
        1
    } else {
        interval.count as i64
    }
}

/// Advance an instant by the authored interval: clock and day units add a
/// fixed duration, calendar units add calendar months.
pub fn advance_by_interval(micros: i64, interval: TemporalTickInterval) -> (next: Option<i64>)
    ensures
        match next {
            Some(n) => advanced(micros as int, interval) == Some(n as int),
            None => advanced(micros as int, interval) is None,
        },
{
    let count = interval_count_of(interval);
    match fixed_unit_micros_of(interval.unit) {
        Some(unit) => {
            let delta = count.checked_mul(unit)?;
            add_fixed_micros(micros, delta)
        },
        None => {
            let months = count.checked_mul(unit_months_of(interval.unit))?;
            if months > 4_294_967_295 {
                return None;
            }
            add_calendar_months(micros, months as u32)
        },
    }
}

/// Move an instant back by the authored interval: clock and day units
/// subtract a fixed duration, calendar units subtract calendar months.
pub fn retreat_by_interval(micros: i64, interval: TemporalTickInterval) -> (previous: Option<i64>)
    ensures
        match previous {
            Some(p) => retreated(micros as int, interval) == Some(p as int),
            None => retreated(micros as int, interval) is None,
        },
{
    let count = interval_count_of(interval);
    match fixed_unit_micros_of(interval.unit) {
        Some(unit) => {
            let delta = count.checked_mul(unit)?;
            add_fixed_micros(micros, -delta)
        },
        None => {
            let months = count.checked_mul(unit_months_of(interval.unit))?;
            if months > 4_294_967_295 {
                return None;
            }
            subtract_calendar_months(micros, months as u32)
        },
    }
}

/// For clock and day units, retreating undoes advancing.
pub proof fn lemma_retreat_undoes_advance(micros: int, interval: TemporalTickInterval)
    requires
        fixed_unit_micros(interval.unit) is Some,
        advanced(micros, interval) is Some,
    ensures
        retreated(advanced(micros, interval).unwrap(), interval) == Some(micros),
{
}

/// The bucket around an instant: from the midpoint with the previous
/// anchor to the midpoint with the next one.
pub open spec fn bucket_bounds(micros: int, interval: TemporalTickInterval) -> Option<(int, int)> {
    match (retreated(micros, interval), advanced(micros, interval)) {
        (Some(p), Some(n)) => Some((midpoint(p, micros), midpoint(micros, n))),
        _ => None,
    }
}

/// A temporal bar bucket centred on the row's anchor instant.
pub fn centered_bucket_bounds(micros: i64, interval: TemporalTickInterval) -> (bounds: Option<
    (i64, i64),
>)
    ensures
        match bounds {
            Some((lo, hi)) => bucket_bounds(micros as int, interval) == Some((lo as int, hi as int)),
            None => bucket_bounds(micros as int, interval) is None,
        },
{
    let previous = retreat_by_interval(micros, interval)?;
    let next = advance_by_interval(micros, interval)?;
    Some((midpoint_micros(previous, micros), midpoint_micros(micros, next)))
}

/// A bucket holds its anchor whenever the neighbouring anchors lie on either
/// side of it (always so for clock and day units).
pub proof fn lemma_bucket_holds_anchor(micros: int, interval: TemporalTickInterval)
    requires
        bucket_bounds(micros, interval) is Some,
        fixed_unit_micros(interval.unit) is Some || (retreated(micros, interval).unwrap() <= micros
            && micros <= advanced(micros, interval).unwrap()),
    ensures
        bucket_bounds(micros, interval).unwrap().0 <= micros <= bucket_bounds(
            micros,
            interval,
        ).unwrap().1,
{
    let n = interval_count(interval);
    if let Some(u) = fixed_unit_micros(interval.unit) {
        assert(n * u >= 0) by (nonlinear_arith)
            requires
                n >= 1,
                u > 0,
        ;
    }
    lemma_midpoint_between(retreated(micros, interval).unwrap(), micros);
    lemma_midpoint_between(micros, advanced(micros, interval).unwrap());
}

// ---------------------------------------------------------------------------
// Grid tick generators
// ---------------------------------------------------------------------------

/// The most ticks a grid generator returns (one past the promotion budget,
/// so callers can tell that the budget was exceeded).
pub open spec fn tick_cap() -> nat {
    (MAX_INTERVAL_TICKS + 1) as nat
}

/// `ticks` holds `first`, `first + step`, ... (saturating at `i64::MAX`) for
/// as long as they stay at or below `max`, stopping after `tick_cap()` ticks.
pub open spec fn stepped_run(ticks: Seq<i64>, first: int, step: int, max: int) -> bool {
    &&& ticks.len() <= tick_cap()
    &&& forall|j: int|
        0 <= j < ticks.len() ==> #[trigger] ticks[j] == clamp_i64(first + j * step) && ticks[j]
            <= max
    &&& ticks.len() == tick_cap() || clamp_i64(first + ticks.len() * step) > max
}

/// The first tick of a phase-shifted epoch grid at or after `min`.
pub open spec fn epoch_first(min: int, step: int, phase: int) -> int {
    let rem = clamp_i64(min - phase) % step;
    if rem == 0 {
        min
    } else {
        clamp_i64(min + step - rem)
    }
}

/// What the epoch grid yields for a domain, a step and a phase.
pub open spec fn epoch_grid_result(ticks: Seq<i64>, min: int, max: int, step: int, phase: int) -> bool {
    if step <= 0 || min > max {
        ticks.len() == 0
    } else {
        stepped_run(ticks, epoch_first(min, step, phase), step, max)
    }
}

/// A stepped run is determined by its first tick, step and bound.
pub proof fn lemma_stepped_run_unique(a: Seq<i64>, b: Seq<i64>, first: int, step: int, max: int)
    requires
        stepped_run(a, first, step, max),
        stepped_run(b, first, step, max),
    ensures
        a == b,
{
    if a.len() < b.len() {
        assert(b[a.len() as int] == clamp_i64(first + a.len() * step));
    } else if b.len() < a.len() {
        assert(a[b.len() as int] == clamp_i64(first + b.len() * step));
    }
    assert(a =~= b);
}

/// Fixed-duration steps on the Unix epoch grid, shifted by `phase` (the ISO
/// Monday week grid is the epoch grid shifted by four days).
pub fn epoch_grid_ticks(min: i64, max: i64, step: i64, phase: i64) -> (ticks: Vec<i64>)
    ensures
        epoch_grid_result(ticks@, min as int, max as int, step as int, phase as int),
{
    let mut ticks: Vec<i64> = Vec::new();
    if step <= 0 || min > max {
        return ticks;
    }
    let rem = rem_euclid(saturating_sub(min, phase), step);
    let first = if rem == 0 {
        min
    } else {
        saturating_add(min, step - rem)
    };
    let ghost g = first as int;
    assert(g >= min);
    assert(g + 0 * step == g);
    let mut tick = first;
    let mut full = false;
    while tick <= max && !full
        invariant
            step > 0,
            g >= min,
            tick == clamp_i64(g + ticks@.len() * step),
            full ==> ticks@.len() == tick_cap(),
            !full ==> ticks@.len() < tick_cap(),
            forall|j: int|
                0 <= j < ticks@.len() ==> #[trigger] ticks@[j] == clamp_i64(g + j * step)
                    && ticks@[j] <= max,
        decreases tick_cap() - ticks@.len(),
    {
        let ghost n = ticks@.len() as int;
        ticks.push(tick);
        if ticks.len() > MAX_INTERVAL_TICKS {
            full = true;
        }
        proof {
            assert(g + (n + 1) * step == g + n * step + step) by (nonlinear_arith);
            assert(n * step >= 0) by (nonlinear_arith)
                requires
                    n >= 0,
                    step > 0,
            ;
        }
        tick = saturating_add(tick, step);
    }
    ticks
}

/// The difference of two multiples of `s` is a multiple of `s`.
proof fn lemma_multiple_diff(x: int, y: int, s: int)
    requires
        s > 0,
        x % s == 0,
        y % s == 0,
    ensures
        (y - x) % s == 0,
{
    lemma_fundamental_div_mod(x, s);
    lemma_fundamental_div_mod(y, s);
    assert(y - x == (y / s - x / s) * s) by (nonlinear_arith)
        requires
            x == s * (x / s),
            y == s * (y / s),
    ;
    lemma_fundamental_div_mod_converse(y - x, s, y / s - x / s, 0);
}

/// Without saturation, the first epoch-grid tick is the least grid instant at
/// or after `min`.
proof fn lemma_epoch_first(min: int, step: int, phase: int)
    requires
        step > 0,
        i64::MIN <= min - phase <= i64::MAX,
        min + step <= i64::MAX,
        i64::MIN <= min,
    ensures
        (epoch_first(min, step, phase) - phase) % step == 0,
        min <= epoch_first(min, step, phase) < min + step,
{
    lemma_ceil_multiple_is_least(min - phase, step);
    lemma_fundamental_div_mod(min - phase, step);
}

/// Epoch-grid ticks are ascending, exactly `step` apart and phase-aligned,
/// and list every phase-aligned instant of `[min, max]` up to the cap, as
/// long as nothing saturates.
pub proof fn lemma_epoch_grid_ticks_are_aligned(
    ticks: Seq<i64>,
    min: int,
    max: int,
    step: int,
    phase: int,
)
    requires
        step > 0,
        i64::MIN <= min <= max,
        i64::MIN <= min - phase <= i64::MAX,
        max + step <= i64::MAX,
        stepped_run(ticks, epoch_first(min, step, phase), step, max),
    ensures
        ascending(ticks),
        forall|i: int|
            0 <= i < ticks.len() ==> min <= #[trigger] ticks[i] <= max && (ticks[i] - phase) % step
                == 0,
        forall|i: int| 0 <= i && i + 1 < ticks.len() ==> ticks[i + 1] - #[trigger] ticks[i] == step,
        forall|t: int|
            min <= t <= max && #[trigger] ((t - phase) % step) == 0 && (ticks.len() < tick_cap()
                || t <= ticks.last()) ==> has_tick(ticks, t),
{
    let first = epoch_first(min, step, phase);
    lemma_epoch_first(min, step, phase);
    assert forall|j: int| 0 <= j < ticks.len() implies #[trigger] ticks[j] == first + j * step by {
        assert(j * step >= 0) by (nonlinear_arith)
            requires
                j >= 0,
                step > 0,
        ;
    }
    assert forall|i: int, j: int| 0 <= i < j < ticks.len() implies ticks[i] < ticks[j] by {
        assert(ticks[i] == first + i * step);
        assert(ticks[j] == first + j * step);
        assert(i * step < j * step) by (nonlinear_arith)
            requires
                i < j,
                step > 0,
        ;
    }
    assert forall|i: int| 0 <= i < ticks.len() implies min <= #[trigger] ticks[i] <= max && (ticks[i]
        - phase) % step == 0 by {
        assert(ticks[i] == first + i * step);
        assert(i * step >= 0) by (nonlinear_arith)
            requires
                i >= 0,
                step > 0,
        ;
        lemma_fundamental_div_mod_converse(i * step, step, i, 0);
        lemma_fundamental_div_mod(first - phase, step);
        assert(first + i * step - phase == ((first - phase) / step + i) * step) by (nonlinear_arith)
            requires
                first - phase == step * ((first - phase) / step),
        ;
        lemma_fundamental_div_mod_converse(
            first + i * step - phase,
            step,
            (first - phase) / step + i,
            0,
        );
    }
    assert forall|i: int| 0 <= i && i + 1 < ticks.len() implies ticks[i + 1] - #[trigger] ticks[i]
        == step by {
        assert(ticks[i] == first + i * step);
        assert(ticks[i + 1] == first + (i + 1) * step);
        assert((i + 1) * step == i * step + step) by (nonlinear_arith);
    }
    assert forall|t: int|
        min <= t <= max && #[trigger] ((t - phase) % step) == 0 && (ticks.len() < tick_cap() || t
            <= ticks.last()) implies has_tick(ticks, t) by {
        lemma_multiple_diff(first - phase, t - phase, step);
        if t < first {
            lemma_multiples_apart(t - phase, first - phase, step);
        }
        let k = (t - first) / step;
        lemma_fundamental_div_mod(t - first, step);
        assert(t == first + k * step) by (nonlinear_arith)
            requires
                t - first == step * k + (t - first) % step,
                (t - first) % step == 0,
        ;
        assert(k >= 0) by (nonlinear_arith)
            requires
                t >= first,
                t == first + k * step,
                step > 0,
        ;
        if k < ticks.len() {
            assert(ticks[k] == t);
        } else if ticks.len() < tick_cap() {
            let n = ticks.len() as int;
            assert(first + n * step <= t) by (nonlinear_arith)
                requires
                    n <= k,
                    step > 0,
                    t == first + k * step,
            ;
            assert(n * step >= 0) by (nonlinear_arith)
                requires
                    n >= 0,
                    step > 0,
            ;
        } else {
            let n = ticks.len() as int;
            assert(ticks[n - 1] == first + (n - 1) * step);
            assert(first + (n - 1) * step < t) by (nonlinear_arith)
                requires
                    n <= k,
                    step > 0,
                    t == first + k * step,
            ;
        }
    }
}

/// Whether `t` is a clock tick of a grid that restarts every day at `day0`
/// (a UTC midnight unless `day0` saturated) and steps `step` within a day.
pub open spec fn on_clock_grid(t: int, day0: int, step: int) -> bool {
    t >= day0 && ((t - day0) % (MICROS_PER_DAY as int)) % step == 0
}

/// The first day start of the clock grid for a domain starting at `min`.
pub open spec fn clock_day0(min: int) -> int {
    clamp_i64((min / (MICROS_PER_DAY as int)) * (MICROS_PER_DAY as int))
}

/// Every element is smaller than the next one.
pub open spec fn ascending(s: Seq<i64>) -> bool {
    forall|i: int, j: int| 0 <= i < j < s.len() ==> s[i] < s[j]
}

/// Whether `t` occurs in `ticks`.
pub open spec fn has_tick(ticks: Seq<i64>, t: int) -> bool {
    exists|i: int| 0 <= i < ticks.len() && ticks[i] == t
}

/// `ticks` lists, ascending, the clock-grid instants of `[min, max]`,
/// stopping after `tick_cap()` of them.
pub open spec fn lists_clock_grid(ticks: Seq<i64>, min: int, max: int, step: int) -> bool {
    let day0 = clock_day0(min);
    &&& ticks.len() <= tick_cap()
    &&& ascending(ticks)
    &&& forall|i: int|
        0 <= i < ticks.len() ==> min <= #[trigger] ticks[i] <= max && on_clock_grid(
            ticks[i] as int,
            day0,
            step,
        )
    &&& forall|t: int|
        min <= t <= max && #[trigger] on_clock_grid(t, day0, step) && (ticks.len() < tick_cap()
            || t <= ticks.last()) ==> has_tick(ticks, t)
}

/// What the day-anchored clock grid yields for a domain and a step.
pub open spec fn clock_grid_result(ticks: Seq<i64>, min: int, max: int, step: int) -> bool {
    if step <= 0 || min > max {
        ticks.len() == 0
    } else {
        lists_clock_grid(ticks, min, max, step)
    }
}

/// Clock-unit steps restart at every UTC midnight, so "6 hours" always lands
/// on 00:00, 06:00, 12:00 and 18:00 whatever the domain.
pub fn day_anchored_clock_ticks(min: i64, max: i64, step: i64) -> (ticks: Vec<i64>)
    requires
        max < i64::MAX,
    ensures
        clock_grid_result(ticks@, min as int, max as int, step as int),
{
    let mut ticks: Vec<i64> = Vec::new();
    if step <= 0 || min > max {
        return ticks;
    }
    let ghost day_len = MICROS_PER_DAY as int;
    let mut day = saturating_mul_signed(div_euclid(min, MICROS_PER_DAY), MICROS_PER_DAY);
    let ghost day0 = day as int;
    proof {
        lemma_fundamental_div_mod(min as int, day_len);
        assert(day0 <= min);
        assert((day - day0) % day_len == 0);
    }
    let mut full = false;
    while day <= max && !full
        invariant
            step > 0,
            min <= max < i64::MAX,
            day_len == MICROS_PER_DAY,
            day0 == clock_day0(min as int),
            day0 <= min,
            day0 <= day,
            day <= max ==> (day - day0) % day_len == 0,
            full ==> ticks@.len() == tick_cap(),
            !full ==> ticks@.len() < tick_cap(),
            ascending(ticks@),
            forall|i: int|
                0 <= i < ticks@.len() ==> min <= #[trigger] ticks@[i] <= max && on_clock_grid(
                    ticks@[i] as int,
                    day0,
                    step as int,
                ),
            !full ==> forall|i: int| 0 <= i < ticks@.len() ==> #[trigger] ticks@[i] < day,
            forall|t: int|
                min <= t <= max && #[trigger] on_clock_grid(t, day0, step as int) && (if full {
                    t <= ticks@.last()
                } else {
                    t < day
                }) ==> has_tick(ticks@, t),
        decreases i64::MAX - day,
    {
        let day_end = saturating_add(day, MICROS_PER_DAY);
        let mut tick = day;
        proof {
            lemma_multiple_next(0, step as int);
        }
        while tick < day_end && !full
            invariant
                step > 0,
                min <= max < i64::MAX,
                day_len == MICROS_PER_DAY,
                day0 == clock_day0(min as int),
                day0 <= min,
                day0 <= day <= max,
                (day - day0) % day_len == 0,
                day_end == clamp_i64(day + day_len),
                day <= tick,
                tick < day_end ==> (tick - day) % (step as int) == 0,
                full ==> ticks@.len() == tick_cap(),
                !full ==> ticks@.len() < tick_cap(),
                ascending(ticks@),
                forall|i: int|
                    0 <= i < ticks@.len() ==> min <= #[trigger] ticks@[i] <= max && on_clock_grid(
                        ticks@[i] as int,
                        day0,
                        step as int,
                    ),
                !full ==> forall|i: int| 0 <= i < ticks@.len() ==> #[trigger] ticks@[i] < tick,
                !full ==> forall|i: int| 0 <= i < ticks@.len() ==> #[trigger] ticks@[i] < day_end,
                forall|t: int|
                    min <= t <= max && #[trigger] on_clock_grid(t, day0, step as int) && (if full {
                        t <= ticks@.last()
                    } else {
                        t < tick && t < day_end || t < day
                    }) ==> has_tick(ticks@, t),
            decreases i64::MAX - tick,
        {
            proof {
                lemma_mod_offset(day - day0, tick - day, day_len);
            }
            if tick >= min && tick <= max {
                let ghost before = ticks@;
                ticks.push(tick);
                proof {
                    assert(ticks@[before.len() as int] == tick);
                    assert forall|i: int| 0 <= i < ticks@.len() implies min <= #[trigger] ticks@[i]
                        <= max && on_clock_grid(ticks@[i] as int, day0, step as int) by {
                        if i < before.len() {
                            assert(ticks@[i] == before[i]);
                        }
                    }
                    assert forall|t: int|
                        min <= t <= max && #[trigger] on_clock_grid(t, day0, step as int) && (t
                            < tick && t < day_end || t < day || t == tick) implies has_tick(
                        ticks@,
                        t,
                    ) by {
                        if t == tick {
                            assert(ticks@[before.len() as int] == t);
                        } else {
                            let i = choose|i: int| 0 <= i < before.len() && before[i] == t;
                            assert(ticks@[i] == t);
                        }
                    }
                }
                if ticks.len() > MAX_INTERVAL_TICKS {
                    full = true;
                }
            }
            let next = saturating_add(tick, step);
            proof {
                if next < day_end {
                    lemma_multiple_next(tick - day, step as int);
                }
                assert forall|t: int|
                    min <= t <= max && #[trigger] on_clock_grid(t, day0, step as int) && (!full && (
                    t < next && t < day_end || t < day)) implies has_tick(ticks@, t) by {
                    if t >= tick && t < next && t < day_end && t >= day {
                        if t != tick {
                            lemma_mod_offset(day - day0, t - day, day_len);
                            lemma_multiples_apart(tick - day, t - day, step as int);
                        }
                    }
                }
            }
            tick = next;
        }
        proof {
            if day_end <= max {
                lemma_multiple_next(day - day0, day_len);
            }
        }
        day = day_end;
    }
    ticks
}

// ---------------------------------------------------------------------------
// Calendar grids
// ---------------------------------------------------------------------------

/// Whether `chrono` represents the year of a month index.
pub open spec fn month_index_valid(index: int) -> bool {
    MIN_YEAR <= 1970 + index / 12 <= MAX_YEAR
}

/// Midnight UTC of the first day of the month with this index.
pub open spec fn month_tick(index: int) -> int {
    month_start_day(index) * day_micros()
}

/// The month index of the instant's month, rounded down to the grid.
pub open spec fn month_grid_origin(c: CivilInstant, count: int) -> int {
    let i = month_index(c.year as int, c.month as int);
    i - i % count
}

/// How many grid months before the first tick were skipped: the origin
/// month itself when it starts before `min`.
pub open spec fn month_grid_skip(origin: int, min: int) -> int {
    if month_index_valid(origin) && month_tick(origin) < min {
        1
    } else {
        0
    }
}

/// The grid month of the `j`-th tick.
#[verifier::opaque]
pub open spec fn run_index(origin: int, count: int, skip: int, j: int) -> int {
    origin + (skip + j) * count
}

/// `ticks` holds the starts of the grid months `origin + (skip + j) * count`
/// for as long as `chrono` represents them and they stay at or below `max`,
/// stopping after `tick_cap()` ticks.
pub open spec fn month_run(ticks: Seq<i64>, origin: int, count: int, skip: int, max: int) -> bool {
    let next = run_index(origin, count, skip, ticks.len() as int);
    &&& ticks.len() <= tick_cap()
    &&& forall|j: int|
        #![trigger ticks[j]]
        #![trigger run_index(origin, count, skip, j)]
        0 <= j < ticks.len() ==> month_index_valid(run_index(origin, count, skip, j)) && ticks[j]
            == month_tick(run_index(origin, count, skip, j)) && ticks[j] <= max
    &&& ticks.len() == tick_cap() || !month_index_valid(next) || month_tick(next) > max
}

/// What the month grid yields for a domain and a month count.
pub open spec fn month_grid_result(ticks: Seq<i64>, min: int, max: int, count: int) -> bool {
    if count <= 0 || min > max || !instant_in_range(min) {
        ticks.len() == 0
    } else {
        exists|c: CivilInstant|
            civil_fields_of(c, min) && month_run(
                ticks,
                month_grid_origin(c, count),
                count,
                month_grid_skip(month_grid_origin(c, count), min),
                max,
            )
    }
}

/// A month run is determined by its origin, count, skip and bound.
pub proof fn lemma_month_run_unique(
    a: Seq<i64>,
    b: Seq<i64>,
    origin: int,
    count: int,
    skip: int,
    max: int,
)
    requires
        month_run(a, origin, count, skip, max),
        month_run(b, origin, count, skip, max),
    ensures
        a == b,
{
    if a.len() < b.len() {
        assert(b[a.len() as int] == month_tick(run_index(origin, count, skip, a.len() as int)));
    } else if b.len() < a.len() {
        assert(a[b.len() as int] == month_tick(run_index(origin, count, skip, b.len() as int)));
    }
    assert forall|j: int| 0 <= j < a.len() implies a[j] == b[j] by {
        assert(a[j] == month_tick(run_index(origin, count, skip, j)));
        assert(b[j] == month_tick(run_index(origin, count, skip, j)));
    }
    assert(a =~= b);
}

/// The month grid yields one sequence per domain and count.
pub proof fn lemma_month_grid_unique(a: Seq<i64>, b: Seq<i64>, min: int, max: int, count: int)
    requires
        month_grid_result(a, min, max, count),
        month_grid_result(b, min, max, count),
    ensures
        a == b,
{
    if count <= 0 || min > max || !instant_in_range(min) {
        assert(a =~= b);
    } else {
        let ca = choose|c: CivilInstant|
            civil_fields_of(c, min) && month_run(
                a,
                month_grid_origin(c, count),
                count,
                month_grid_skip(month_grid_origin(c, count), min),
                max,
            );
        let cb = choose|c: CivilInstant|
            civil_fields_of(c, min) && month_run(
                b,
                month_grid_origin(c, count),
                count,
                month_grid_skip(month_grid_origin(c, count), min),
                max,
            );
        crate::calendar::lemma_civil_fields_unique(ca, cb, min);
        lemma_month_run_unique(
            a,
            b,
            month_grid_origin(ca, count),
            count,
            month_grid_skip(month_grid_origin(ca, count), min),
            max,
        );
    }
}

/// Month steps on the epoch month grid (January 1970): steps that divide 12
/// land on the same months every year, so "3 months" reads January, April,
/// July and October.
pub fn month_grid_ticks(min: i64, max: i64, count: i64) -> (ticks: Vec<i64>)
    ensures
        month_grid_result(ticks@, min as int, max as int, count as int),
{
    let mut ticks: Vec<i64> = Vec::new();
    if count <= 0 || min > max {
        return ticks;
    }
    let start = match civil_instant(min) {
        Some(c) => c,
        None => return ticks,
    };
    let ghost c = start;
    proof {
        assert(civil_fields_of(c, min as int));
    }
    let first_index: i64 = (start.year as i64 - 1970) * 12 + (start.month as i64 - 1);
    proof {
        lemma_fundamental_div_mod(first_index as int, count as int);
        if first_index < 0 && -first_index <= count {
            lemma_fundamental_div_mod_converse(
                first_index as int,
                count as int,
                -1,
                first_index + count,
            );
        }
    }
    let mut index = first_index - rem_euclid(first_index, count);
    let ghost origin = index as int;
    let ghost skip = month_grid_skip(origin, min as int);
    let ghost day_len = day_micros();
    proof {
        lemma_month_index_fields(c.year as int, c.month as int);
        crate::calendar::lemma_next_month_start(first_index as int);
        lemma_fundamental_div_mod(min as int, day_len);
        assert forall|idx: int| idx > first_index implies #[trigger] month_tick(idx) > min by {
            lemma_month_starts_increase(first_index + 1, idx);
            assert(month_start_day(idx) >= day_of(min as int) + 1);
            assert(month_tick(idx) >= (day_of(min as int) + 1) * day_len) by (nonlinear_arith)
                requires
                    month_start_day(idx) >= day_of(min as int) + 1,
                    day_len > 0,
                    month_tick(idx) == month_start_day(idx) * day_len,
            ;
        }
        reveal(run_index);
    }
    let ghost mut k: int = 0;
    loop
        invariant_except_break
            count > 0,
            min <= max,
            k >= 0,
            origin <= first_index < origin + count,
            skip == month_grid_skip(origin, min as int),
            forall|idx: int| idx > first_index ==> #[trigger] month_tick(idx) > min,
            k == 0 ==> ticks@.len() == 0 && index == origin,
            k >= 1 ==> index > first_index && run_index(origin, count as int, skip, ticks@.len() as int)
                == index,
            ticks@.len() < tick_cap(),
            forall|j: int|
                #![trigger ticks@[j]]
                #![trigger run_index(origin, count as int, skip, j)]
                0 <= j < ticks@.len() ==> month_index_valid(run_index(origin, count as int, skip, j))
                    && ticks@[j] == month_tick(run_index(origin, count as int, skip, j)) && ticks@[j]
                    <= max,
        ensures
            month_run(ticks@, origin, count as int, skip, max as int),
        decreases i64::MAX - index,
    {
        let year = 1970 + div_euclid(index, 12);
        let month = rem_euclid(index, 12) + 1;
        proof {
            lemma_fundamental_div_mod(index as int, 12);
            lemma_month_index_fields(year as int, month as int);
            assert(month_index(year as int, month as int) == index);
            if k == 0 {
                reveal(run_index);
                assert(origin + (0 + 0) * count == origin) by (nonlinear_arith);
                assert(run_index(origin, count as int, 0, 0) == index);
            }
        }
        if year < MIN_YEAR as i64 || year > MAX_YEAR as i64 {
            break;
        }
        let micros = match month_start_micros(year as i32, month as u32) {
            Some(m) => m,
            None => break,
        };
        assert(micros == month_tick(index as int));
        if micros > max {
            break;
        }
        if micros >= min {
            let ghost before = ticks@;
            let ghost pos = run_index(origin, count as int, skip, before.len() as int);
            proof {
                if k == 0 {
                    assert(skip == 0);
                }
                assert(pos == index);
            }
            ticks.push(micros);
            proof {
                assert forall|j: int|
                    #![trigger ticks@[j]]
                    #![trigger run_index(origin, count as int, skip, j)]
                    0 <= j < ticks@.len() implies month_index_valid(
                        run_index(origin, count as int, skip, j),
                    ) && ticks@[j] == month_tick(run_index(origin, count as int, skip, j))
                        && ticks@[j] <= max by {
                    if j < before.len() {
                        assert(ticks@[j] == before[j]);
                    }
                }
                reveal(run_index);
                let n = before.len() as int;
                assert(origin + (skip + (n + 1)) * count == origin + (skip + n) * count + count)
                    by (nonlinear_arith);
                assert(run_index(origin, count as int, skip, ticks@.len() as int) == pos + count);
            }
            if ticks.len() > MAX_INTERVAL_TICKS {
                break;
            }
        } else {
            proof {
                assert(k == 0);
                assert(skip == 1);
                reveal(run_index);
                assert(origin + (1 + 0) * count == origin + count) by (nonlinear_arith);
                assert(run_index(origin, count as int, 1, 0) == origin + count);
            }
        }
        let next = match index.checked_add(count) {
            Some(n) => n,
            None => {
                proof {
                    assert(ticks@.len() < tick_cap());
                }
                break;
            },
        };
        proof {
            k = k + 1;
        }
        index = next;
    }
    proof {
        assert(origin == month_grid_origin(c, count as int));
    }
    ticks
}

/// Whether `chrono` represents the year.
pub open spec fn year_valid(year: int) -> bool {
    MIN_YEAR <= year <= MAX_YEAR
}

/// Midnight UTC of January 1st of `year`.
pub open spec fn year_tick(year: int) -> int {
    days_from_civil(year, 1, 1) * day_micros()
}

/// How many grid years before the first tick were skipped: the origin year
/// itself when it starts before `min`.
pub open spec fn year_grid_skip(origin: int, min: int) -> int {
    if year_valid(origin) && year_tick(origin) < min {
        1
    } else {
        0
    }
}

/// `ticks` holds January 1st of the grid years `origin + (skip + j) * count`
/// for as long as `chrono` represents them and they stay at or below `max`,
/// stopping after `tick_cap()` ticks.
pub open spec fn year_run(ticks: Seq<i64>, origin: int, count: int, skip: int, max: int) -> bool {
    let next = run_index(origin, count, skip, ticks.len() as int);
    &&& ticks.len() <= tick_cap()
    &&& forall|j: int|
        #![trigger ticks[j]]
        #![trigger run_index(origin, count, skip, j)]
        0 <= j < ticks.len() ==> year_valid(run_index(origin, count, skip, j)) && ticks[j]
            == year_tick(run_index(origin, count, skip, j)) && ticks[j] <= max
    &&& ticks.len() == tick_cap() || !year_valid(next) || year_tick(next) > max
}

/// What the year grid yields for a domain and a year count.
pub open spec fn year_grid_result(ticks: Seq<i64>, min: int, max: int, count: int) -> bool {
    if count <= 0 || min > max || !instant_in_range(min) {
        ticks.len() == 0
    } else {
        exists|c: CivilInstant|
            civil_fields_of(c, min) && year_run(
                ticks,
                c.year - (c.year as int) % count,
                count,
                year_grid_skip(c.year - (c.year as int) % count, min),
                max,
            )
    }
}

/// The year grid yields one sequence per domain and count.
pub proof fn lemma_year_grid_unique(a: Seq<i64>, b: Seq<i64>, min: int, max: int, count: int)
    requires
        year_grid_result(a, min, max, count),
        year_grid_result(b, min, max, count),
    ensures
        a == b,
{
    if count <= 0 || min > max || !instant_in_range(min) {
        assert(a =~= b);
    } else {
        let ca = choose|c: CivilInstant|
            civil_fields_of(c, min) && year_run(
                a,
                c.year - (c.year as int) % count,
                count,
                year_grid_skip(c.year - (c.year as int) % count, min),
                max,
            );
        let cb = choose|c: CivilInstant|
            civil_fields_of(c, min) && year_run(
                b,
                c.year - (c.year as int) % count,
                count,
                year_grid_skip(c.year - (c.year as int) % count, min),
                max,
            );
        crate::calendar::lemma_civil_fields_unique(ca, cb, min);
        let origin = ca.year - (ca.year as int) % count;
        let skip = year_grid_skip(origin, min);
        if a.len() < b.len() {
            assert(b[a.len() as int] == year_tick(run_index(origin, count, skip, a.len() as int)));
        } else if b.len() < a.len() {
            assert(a[b.len() as int] == year_tick(run_index(origin, count, skip, b.len() as int)));
        }
        assert forall|j: int| 0 <= j < a.len() implies a[j] == b[j] by {
            assert(a[j] == year_tick(run_index(origin, count, skip, j)));
            assert(b[j] == year_tick(run_index(origin, count, skip, j)));
        }
        assert(a =~= b);
    }
}

/// Year steps land on years divisible by the step count, so "5 years" reads
/// 1995, 2000, 2005 rather than years relative to the domain.
pub fn year_grid_ticks(min: i64, max: i64, count: i64) -> (ticks: Vec<i64>)
    ensures
        year_grid_result(ticks@, min as int, max as int, count as int),
{
    let mut ticks: Vec<i64> = Vec::new();
    if count <= 0 || min > max {
        return ticks;
    }
    let start = match civil_instant(min) {
        Some(c) => c,
        None => return ticks,
    };
    let ghost c = start;
    proof {
        assert(civil_fields_of(c, min as int));
    }
    let first_year: i64 = start.year as i64;
    proof {
        lemma_fundamental_div_mod(first_year as int, count as int);
        if first_year < 0 && -first_year <= count {
            lemma_fundamental_div_mod_converse(first_year as int, count as int, -1, first_year + count);
        }
    }
    let mut year = first_year - rem_euclid(first_year, count);
    let ghost origin = year as int;
    let ghost skip = year_grid_skip(origin, min as int);
    let ghost day_len = day_micros();
    let ghost first_index = month_index(c.year as int, c.month as int);
    proof {
        lemma_month_index_fields(c.year as int, c.month as int);
        crate::calendar::lemma_next_month_start(first_index);
        lemma_fundamental_div_mod(min as int, day_len);
        assert forall|y: int| y > first_year implies #[trigger] year_tick(y) > min by {
            lemma_month_index_fields(y, 1);
            assert(month_index(y, 1) > first_index);
            lemma_month_starts_increase(first_index + 1, month_index(y, 1));
            assert(days_from_civil(y, 1, 1) >= day_of(min as int) + 1);
            assert(year_tick(y) >= (day_of(min as int) + 1) * day_len) by (nonlinear_arith)
                requires
                    days_from_civil(y, 1, 1) >= day_of(min as int) + 1,
                    day_len > 0,
                    year_tick(y) == days_from_civil(y, 1, 1) * day_len,
            ;
        }
        reveal(run_index);
    }
    let ghost mut k: int = 0;
    loop
        invariant_except_break
            count > 0,
            min <= max,
            k >= 0,
            origin <= first_year < origin + count,
            skip == year_grid_skip(origin, min as int),
            forall|y: int| y > first_year ==> #[trigger] year_tick(y) > min,
            k == 0 ==> ticks@.len() == 0 && year == origin,
            k >= 1 ==> year > first_year && run_index(origin, count as int, skip, ticks@.len() as int)
                == year,
            ticks@.len() < tick_cap(),
            forall|j: int|
                #![trigger ticks@[j]]
                #![trigger run_index(origin, count as int, skip, j)]
                0 <= j < ticks@.len() ==> year_valid(run_index(origin, count as int, skip, j))
                    && ticks@[j] == year_tick(run_index(origin, count as int, skip, j)) && ticks@[j]
                    <= max,
        ensures
            year_run(ticks@, origin, count as int, skip, max as int),
        decreases i64::MAX - year,
    {
        proof {
            if k == 0 {
                reveal(run_index);
                assert(origin + (0 + 0) * count == origin) by (nonlinear_arith);
                assert(run_index(origin, count as int, 0, 0) == year);
            }
        }
        if year < MIN_YEAR as i64 || year > MAX_YEAR as i64 {
            break;
        }
        let micros = match month_start_micros(year as i32, 1) {
            Some(m) => m,
            None => break,
        };
        assert(micros == year_tick(year as int));
        if micros > max {
            break;
        }
        if micros >= min {
            let ghost before = ticks@;
            let ghost pos = run_index(origin, count as int, skip, before.len() as int);
            proof {
                if k == 0 {
                    assert(skip == 0);
                }
                assert(pos == year);
            }
            ticks.push(micros);
            proof {
                assert forall|j: int|
                    #![trigger ticks@[j]]
                    #![trigger run_index(origin, count as int, skip, j)]
                    0 <= j < ticks@.len() implies year_valid(run_index(origin, count as int, skip, j))
                        && ticks@[j] == year_tick(run_index(origin, count as int, skip, j))
                        && ticks@[j] <= max by {
                    if j < before.len() {
                        assert(ticks@[j] == before[j]);
                    }
                }
                reveal(run_index);
                let n = before.len() as int;
                assert(origin + (skip + (n + 1)) * count == origin + (skip + n) * count + count)
                    by (nonlinear_arith);
                assert(run_index(origin, count as int, skip, ticks@.len() as int) == pos + count);
            }
            if ticks.len() > MAX_INTERVAL_TICKS {
                break;
            }
        } else {
            proof {
                assert(k == 0);
                assert(skip == 1);
                reveal(run_index);
                assert(origin + (1 + 0) * count == origin + count) by (nonlinear_arith);
                assert(run_index(origin, count as int, 1, 0) == origin + count);
            }
        }
        let next = match year.checked_add(count) {
            Some(n) => n,
            None => break,
        };
        proof {
            k = k + 1;
        }
        year = next;
    }
    ticks
}

// ---------------------------------------------------------------------------
// Explicit tick intervals
// ---------------------------------------------------------------------------

/// Whether a unit is a clock unit (milliseconds to hours), whose steps
/// restart at every midnight.
pub open spec fn is_clock_unit(unit: TemporalTickUnit) -> bool {
    unit == TemporalTickUnit::Millisecond || unit == TemporalTickUnit::Second || unit
        == TemporalTickUnit::Minute || unit == TemporalTickUnit::Hour
}

/// What the grid of `count` units yields for a domain.
pub open spec fn interval_grid_result(
    ticks: Seq<i64>,
    min: int,
    max: int,
    count: int,
    unit: TemporalTickUnit,
) -> bool {
    match unit {
        TemporalTickUnit::Millisecond => clock_grid_result(ticks, min, max, clamp_i64(count * 1_000)),
        TemporalTickUnit::Second => clock_grid_result(ticks, min, max, clamp_i64(count * 1_000_000)),
        TemporalTickUnit::Minute => clock_grid_result(ticks, min, max, clamp_i64(count * 60_000_000)),
        TemporalTickUnit::Hour => clock_grid_result(
            ticks,
            min,
            max,
            clamp_i64(count * 3_600_000_000),
        ),
        TemporalTickUnit::Day => epoch_grid_result(
            ticks,
            min,
            max,
            clamp_i64(count * 86_400_000_000),
            0,
        ),
        TemporalTickUnit::Week => epoch_grid_result(
            ticks,
            min,
            max,
            clamp_i64(count * 604_800_000_000),
            345_600_000_000,
        ),
        TemporalTickUnit::Month => month_grid_result(ticks, min, max, count),
        TemporalTickUnit::Quarter => month_grid_result(ticks, min, max, clamp_i64(count * 3)),
        TemporalTickUnit::Year => year_grid_result(ticks, min, max, count),
    }
}

/// Grid ticks for `count` units: clock units on the midnight-anchored clock
/// grid, days and weeks on the (Monday-shifted) epoch grid, months and
/// quarters on the epoch month grid, years on years divisible by `count`.
pub fn interval_grid_ticks(min: i64, max: i64, count: i64, unit: TemporalTickUnit) -> (ticks: Vec<
    i64,
>)
    requires
        is_clock_unit(unit) ==> max < i64::MAX,
    ensures
        interval_grid_result(ticks@, min as int, max as int, count as int, unit),
{
    match unit {
        TemporalTickUnit::Millisecond => day_anchored_clock_ticks(
            min,
            max,
            saturating_mul_signed(count, MICROS_PER_MILLISECOND),
        ),
        TemporalTickUnit::Second => day_anchored_clock_ticks(
            min,
            max,
            saturating_mul_signed(count, MICROS_PER_SECOND),
        ),
        TemporalTickUnit::Minute => day_anchored_clock_ticks(
            min,
            max,
            saturating_mul_signed(count, MICROS_PER_MINUTE),
        ),
        TemporalTickUnit::Hour => day_anchored_clock_ticks(
            min,
            max,
            saturating_mul_signed(count, MICROS_PER_HOUR),
        ),
        TemporalTickUnit::Day => epoch_grid_ticks(
            min,
            max,
            saturating_mul_signed(count, MICROS_PER_DAY),
            0,
        ),
        TemporalTickUnit::Week => epoch_grid_ticks(
            min,
            max,
            saturating_mul_signed(count, MICROS_PER_WEEK),
            MONDAY_GRID_OFFSET,
        ),
        TemporalTickUnit::Month => month_grid_ticks(min, max, count),
        TemporalTickUnit::Quarter => month_grid_ticks(min, max, saturating_mul_signed(count, 3)),
        TemporalTickUnit::Year => year_grid_ticks(min, max, count),
    }
}

/// A later month than the instant's starts after the instant.
pub proof fn lemma_later_month_tick(c: CivilInstant, min: int, index: int)
    requires
        civil_fields_of(c, min),
        index > month_index(c.year as int, c.month as int),
    ensures
        month_tick(index) > min,
{
    let first_index = month_index(c.year as int, c.month as int);
    let day_len = day_micros();
    lemma_month_index_fields(c.year as int, c.month as int);
    crate::calendar::lemma_next_month_start(first_index);
    lemma_fundamental_div_mod(min, day_len);
    lemma_month_starts_increase(first_index + 1, index);
    assert(month_start_day(index) >= day_of(min) + 1);
    assert(month_tick(index) >= (day_of(min) + 1) * day_len) by (nonlinear_arith)
        requires
            month_start_day(index) >= day_of(min) + 1,
            day_len > 0,
            month_tick(index) == month_start_day(index) * day_len,
    ;
}

/// A later year than the instant's starts after the instant.
pub proof fn lemma_later_year_tick(c: CivilInstant, min: int, year: int)
    requires
        civil_fields_of(c, min),
        year > c.year,
    ensures
        year_tick(year) > min,
{
    lemma_month_index_fields(year, 1);
    lemma_month_index_fields(c.year as int, c.month as int);
    lemma_later_month_tick(c, min, month_index(year, 1));
}

/// When some grid instant lies below `first` and the run is full, the other
/// run of the same clock grid is full as well: both list the same instants.
proof fn lemma_clock_embedding(a: Seq<i64>, b: Seq<i64>, min: int, max: int, step: int, i: int)
    requires
        lists_clock_grid(a, min, max, step),
        lists_clock_grid(b, min, max, step),
        b.len() < tick_cap(),
        0 <= i < a.len(),
    ensures
        exists|j: int| i <= j < b.len() && b[j] == a[i],
    decreases i,
{
    let day0 = clock_day0(min);
    assert(min <= a[i] <= max && on_clock_grid(a[i] as int, day0, step));
    assert(has_tick(b, a[i] as int));
    let j = choose|j: int| 0 <= j < b.len() && b[j] == a[i];
    if i > 0 {
        lemma_clock_embedding(a, b, min, max, step, i - 1);
        let jp = choose|jp: int| i - 1 <= jp < b.len() && b[jp] == a[i - 1];
        assert(a[i - 1] < a[i]);
        if j <= jp {
            if j < jp {
                assert(b[j] < b[jp]);
            }
        }
        assert(j > jp);
    }
}

/// Two runs of the same clock grid agree on whether the cap was reached.
pub proof fn lemma_clock_grid_full(a: Seq<i64>, b: Seq<i64>, min: int, max: int, step: int)
    requires
        lists_clock_grid(a, min, max, step),
        lists_clock_grid(b, min, max, step),
        a.len() == tick_cap(),
    ensures
        b.len() == tick_cap(),
{
    if b.len() < tick_cap() {
        lemma_clock_embedding(a, b, min, max, step, a.len() - 1);
    }
}

/// Two results of the same interval grid agree on exceeding the budget.
pub proof fn lemma_grid_over_budget(
    a: Seq<i64>,
    b: Seq<i64>,
    min: int,
    max: int,
    count: int,
    unit: TemporalTickUnit,
)
    requires
        interval_grid_result(a, min, max, count, unit),
        interval_grid_result(b, min, max, count, unit),
        a.len() > MAX_INTERVAL_TICKS,
    ensures
        b.len() > MAX_INTERVAL_TICKS,
{
    match unit {
        TemporalTickUnit::Millisecond => {
            lemma_clock_grid_full(a, b, min, max, clamp_i64(count * 1_000));
        },
        TemporalTickUnit::Second => {
            lemma_clock_grid_full(a, b, min, max, clamp_i64(count * 1_000_000));
        },
        TemporalTickUnit::Minute => {
            lemma_clock_grid_full(a, b, min, max, clamp_i64(count * 60_000_000));
        },
        TemporalTickUnit::Hour => {
            lemma_clock_grid_full(a, b, min, max, clamp_i64(count * 3_600_000_000));
        },
        TemporalTickUnit::Day => {
            let step = clamp_i64(count * 86_400_000_000);
            lemma_stepped_run_unique(a, b, epoch_first(min, step, 0), step, max);
        },
        TemporalTickUnit::Week => {
            let step = clamp_i64(count * 604_800_000_000);
            lemma_stepped_run_unique(a, b, epoch_first(min, step, 345_600_000_000), step, max);
        },
        TemporalTickUnit::Month => {
            lemma_month_grid_unique(a, b, min, max, count);
        },
        TemporalTickUnit::Quarter => {
            lemma_month_grid_unique(a, b, min, max, clamp_i64(count * 3));
        },
        TemporalTickUnit::Year => {
            lemma_year_grid_unique(a, b, min, max, count);
        },
    }
}

/// Fewer than 41 midnights of the clock grid lie in `[min, max]`.
pub open spec fn clock_budget_fits(min: int, max: int) -> bool {
    let day0 = clock_day0(min);
    let first = if day0 == min {
        day0
    } else {
        day0 + MICROS_PER_DAY
    };
    first + 40 * MICROS_PER_DAY > max
}

/// The domains on which budget promotion ends: a fixed-step grid reaching
/// `i64::MAX` repeats its last tick, and a clock grid keeps every midnight
/// whatever the step, so neither may hold more than the budget of either.
pub open spec fn interval_promotion_ends(min: int, max: int, unit: TemporalTickUnit) -> bool {
    min <= max ==> (is_clock_unit(unit) ==> max < i64::MAX && clock_budget_fits(min, max)) && ((
    unit == TemporalTickUnit::Day || unit == TemporalTickUnit::Week) ==> max < i64::MAX)
}

/// A step count from which the grid of `unit` fits the budget.
pub open spec fn promotion_bound(min: int, max: int, unit: TemporalTickUnit) -> int {
    if is_clock_unit(unit) {
        86_400_000_000int / unit_micros(unit)
    } else {
        (max - min) / (40 * MICROS_PER_DAY) + 1
    }
}

/// Ascending instants that are multiples of `d` apart from `base` lie at
/// least `d` apart.
proof fn lemma_spaced(r: Seq<i64>, base: int, d: int, i: int)
    requires
        d > 0,
        ascending(r),
        forall|k: int| 0 <= k < r.len() ==> (#[trigger] r[k] - base) % d == 0,
        0 <= i < r.len(),
    ensures
        r[i] - r[0] >= i * d,
    decreases i,
{
    if i == 0 {
        assert(0 * d == 0);
    } else {
        lemma_spaced(r, base, d, i - 1);
        assert(r[i - 1] < r[i]);
        assert((r[i - 1] - base) % d == 0);
        assert((r[i] - base) % d == 0);
        lemma_multiples_apart(r[i - 1] - base, r[i] - base, d);
        assert(i * d == (i - 1) * d + d) by (nonlinear_arith);
    }
}

/// From the promotion bound on, a clock grid holds at most the budget.
proof fn lemma_clock_grid_fits(r: Seq<i64>, min: int, max: int, step: int)
    requires
        i64::MIN <= min <= max,
        step >= MICROS_PER_DAY,
        clock_budget_fits(min, max),
        lists_clock_grid(r, min, max, step),
    ensures
        r.len() <= MAX_INTERVAL_TICKS,
{
    let day0 = clock_day0(min);
    let day_len = MICROS_PER_DAY as int;
    if r.len() == tick_cap() {
        assert forall|k: int| 0 <= k < r.len() implies (#[trigger] r[k] - day0) % day_len == 0 by {
            assert(on_clock_grid(r[k] as int, day0, step));
            let x = (r[k] - day0) % day_len;
            lemma_fundamental_div_mod(r[k] - day0, day_len);
            lemma_fundamental_div_mod_converse(x, step, 0, x);
        }
        lemma_spaced(r, day0, day_len, 40);
        assert(min <= r[0]);
        if day0 != min {
            lemma_fundamental_div_mod(min, day_len);
            assert(day0 < min);
            lemma_multiple_next(0, day_len);
            assert((r[0] - day0) % day_len == 0);
            lemma_multiples_apart(0, r[0] - day0, day_len);
        }
        assert(r[40] <= max);
    }
}

/// From the promotion bound on, an epoch grid holds at most the budget.
proof fn lemma_epoch_grid_fits(r: Seq<i64>, min: int, max: int, step: int, phase: int, unit: int)
    requires
        i64::MIN <= min <= max < i64::MAX,
        unit >= MICROS_PER_DAY,
        step > 0,
        step == i64::MAX || step >= ((max - min) / (40 * MICROS_PER_DAY) + 1) * unit,
        stepped_run(r, epoch_first(min, step, phase), step, max),
    ensures
        r.len() <= MAX_INTERVAL_TICKS,
{
    let first = epoch_first(min, step, phase);
    if r.len() == tick_cap() {
        assert(r[40] == clamp_i64(first + 40 * step));
        assert(first >= min);
        let q = (max - min) / (40 * MICROS_PER_DAY);
        lemma_fundamental_div_mod(max - min, 40 * MICROS_PER_DAY);
        if step != i64::MAX {
            assert(40 * step > max - min) by (nonlinear_arith)
                requires
                    step >= (q + 1) * unit,
                    unit >= MICROS_PER_DAY,
                    max - min == (40 * MICROS_PER_DAY) * q + (max - min) % (40 * MICROS_PER_DAY),
                    (max - min) % (40 * MICROS_PER_DAY) < 40 * MICROS_PER_DAY,
                    q >= 0,
            ;
        }
    }
}

/// Grid months `origin + k * count` (from `k == 1` on, when the origin does
/// not precede the instant's month by a full count) start after `min`; a run
/// of the month grid with count at least the bound holds at most the budget.
proof fn lemma_month_grid_fits(r: Seq<i64>, min: int, max: int, count: int)
    requires
        min <= max,
        count >= (max - min) / (40 * MICROS_PER_DAY) + 1,
        count >= 1,
        month_grid_result(r, min, max, count),
    ensures
        r.len() <= MAX_INTERVAL_TICKS,
{
    if r.len() == tick_cap() && instant_in_range(min) {
        let c = choose|c: CivilInstant|
            civil_fields_of(c, min) && month_run(
                r,
                month_grid_origin(c, count),
                count,
                month_grid_skip(month_grid_origin(c, count), min),
                max,
            );
        let origin = month_grid_origin(c, count);
        let skip = month_grid_skip(origin, min);
        let first_index = month_index(c.year as int, c.month as int);
        lemma_fundamental_div_mod(first_index, count);
        let i1 = run_index(origin, count, skip, 1);
        let i40 = run_index(origin, count, skip, 40);
        reveal(run_index);
        assert(i1 > first_index) by (nonlinear_arith)
            requires
                i1 == origin + (skip + 1) * count,
                skip >= 0,
                count >= 1,
                origin == first_index - first_index % count,
                first_index % count < count,
        ;
        assert(i40 - i1 == 39 * count) by (nonlinear_arith)
            requires
                i1 == origin + (skip + 1) * count,
                i40 == origin + (skip + 40) * count,
        ;
        lemma_later_month_tick(c, min, i1);
        lemma_month_starts_increase(i1, i40);
        assert(r[1] == month_tick(i1));
        assert(r[40] == month_tick(i40));
        let q = (max - min) / (40 * MICROS_PER_DAY);
        lemma_fundamental_div_mod(max - min, 40 * MICROS_PER_DAY);
        assert(month_tick(i40) - month_tick(i1) > max - min) by (nonlinear_arith)
            requires
                month_tick(i40) == month_start_day(i40) * 86_400_000_000,
                month_tick(i1) == month_start_day(i1) * 86_400_000_000,
                month_start_day(i40) - month_start_day(i1) >= 28 * (39 * count),
                count >= q + 1,
                max - min == (40 * MICROS_PER_DAY) * q + (max - min) % (40 * MICROS_PER_DAY),
                (max - min) % (40 * MICROS_PER_DAY) < 40 * MICROS_PER_DAY,
                q >= 0,
        ;
    }
}

/// A run of the year grid with count at least the bound holds at most the
/// budget.
proof fn lemma_year_grid_fits(r: Seq<i64>, min: int, max: int, count: int)
    requires
        min <= max,
        count >= (max - min) / (40 * MICROS_PER_DAY) + 1,
        count >= 1,
        year_grid_result(r, min, max, count),
    ensures
        r.len() <= MAX_INTERVAL_TICKS,
{
    if r.len() == tick_cap() && instant_in_range(min) {
        let c = choose|c: CivilInstant|
            civil_fields_of(c, min) && year_run(
                r,
                c.year - (c.year as int) % count,
                count,
                year_grid_skip(c.year - (c.year as int) % count, min),
                max,
            );
        let origin = c.year - (c.year as int) % count;
        let skip = year_grid_skip(origin, min);
        lemma_fundamental_div_mod(c.year as int, count);
        let y1 = run_index(origin, count, skip, 1);
        let y40 = run_index(origin, count, skip, 40);
        reveal(run_index);
        assert(y1 > c.year) by (nonlinear_arith)
            requires
                y1 == origin + (skip + 1) * count,
                skip >= 0,
                count >= 1,
                origin == c.year - (c.year as int) % count,
                (c.year as int) % count < count,
        ;
        assert(y40 - y1 == 39 * count) by (nonlinear_arith)
            requires
                y1 == origin + (skip + 1) * count,
                y40 == origin + (skip + 40) * count,
        ;
        lemma_later_year_tick(c, min, y1);
        lemma_month_index_fields(y1, 1);
        lemma_month_index_fields(y40, 1);
        lemma_month_starts_increase(month_index(y1, 1), month_index(y40, 1));
        assert(r[1] == year_tick(y1));
        assert(r[40] == year_tick(y40));
        let q = (max - min) / (40 * MICROS_PER_DAY);
        lemma_fundamental_div_mod(max - min, 40 * MICROS_PER_DAY);
        assert(year_tick(y40) - year_tick(y1) > max - min) by (nonlinear_arith)
            requires
                year_tick(y40) == month_start_day(month_index(y40, 1)) * 86_400_000_000,
                year_tick(y1) == month_start_day(month_index(y1, 1)) * 86_400_000_000,
                month_start_day(month_index(y40, 1)) - month_start_day(month_index(y1, 1)) >= 28 * (
                month_index(y40, 1) - month_index(y1, 1)),
                month_index(y40, 1) - month_index(y1, 1) == 12 * (39 * count),
                count >= q + 1,
                max - min == (40 * MICROS_PER_DAY) * q + (max - min) % (40 * MICROS_PER_DAY),
                (max - min) % (40 * MICROS_PER_DAY) < 40 * MICROS_PER_DAY,
                q >= 0,
        ;
    }
}

/// From the promotion bound on, every interval grid holds at most the
/// budget.
proof fn lemma_interval_grid_fits(
    r: Seq<i64>,
    min: int,
    max: int,
    count: int,
    unit: TemporalTickUnit,
)
    requires
        i64::MIN <= min <= max <= i64::MAX,
        interval_promotion_ends(min, max, unit),
        count >= promotion_bound(min, max, unit),
        1 <= count <= i64::MAX,
        interval_grid_result(r, min, max, count, unit),
    ensures
        r.len() <= MAX_INTERVAL_TICKS,
{
    let b = (max - min) / (40 * MICROS_PER_DAY) + 1;
    match unit {
        TemporalTickUnit::Millisecond => {
            assert(count * 1_000 >= 86_400_000_000) by (nonlinear_arith)
                requires
                    count >= 86_400_000,
            ;
            lemma_clock_grid_fits(r, min, max, clamp_i64(count * 1_000));
        },
        TemporalTickUnit::Second => {
            assert(count * 1_000_000 >= 86_400_000_000) by (nonlinear_arith)
                requires
                    count >= 86_400,
            ;
            lemma_clock_grid_fits(r, min, max, clamp_i64(count * 1_000_000));
        },
        TemporalTickUnit::Minute => {
            assert(count * 60_000_000 >= 86_400_000_000) by (nonlinear_arith)
                requires
                    count >= 1_440,
            ;
            lemma_clock_grid_fits(r, min, max, clamp_i64(count * 60_000_000));
        },
        TemporalTickUnit::Hour => {
            assert(count * 3_600_000_000 >= 86_400_000_000) by (nonlinear_arith)
                requires
                    count >= 24,
            ;
            lemma_clock_grid_fits(r, min, max, clamp_i64(count * 3_600_000_000));
        },
        TemporalTickUnit::Day => {
            let step = clamp_i64(count * 86_400_000_000);
            assert(count * 86_400_000_000 >= b * 86_400_000_000) by (nonlinear_arith)
                requires
                    count >= b,
            ;
            assert(count * 86_400_000_000 > 0) by (nonlinear_arith)
                requires
                    count >= 1,
            ;
            lemma_epoch_grid_fits(r, min, max, step, 0, 86_400_000_000);
        },
        TemporalTickUnit::Week => {
            let step = clamp_i64(count * 604_800_000_000);
            assert(count * 604_800_000_000 >= b * 604_800_000_000) by (nonlinear_arith)
                requires
                    count >= b,
            ;
            assert(count * 604_800_000_000 > 0) by (nonlinear_arith)
                requires
                    count >= 1,
            ;
            lemma_epoch_grid_fits(r, min, max, step, 345_600_000_000, 604_800_000_000);
        },
        TemporalTickUnit::Month => {
            lemma_month_grid_fits(r, min, max, count);
        },
        TemporalTickUnit::Quarter => {
            lemma_month_grid_fits(r, min, max, clamp_i64(count * 3));
        },
        TemporalTickUnit::Year => {
            lemma_year_grid_fits(r, min, max, count);
        },
    }
}

/// The step multiplier promotion starts from: the estimated tick count over
/// the budget, at least one.
pub open spec fn promotion_start(min: int, max: int, interval: TemporalTickInterval) -> int {
    let diff = clamp_i64(max - min);
    let span = if diff < 1 {
        1
    } else {
        diff
    };
    let per_step = clamp_i64(unit_micros(interval.unit) * interval_count(interval));
    let estimated = span / (if per_step < 1 {
        1
    } else {
        per_step
    });
    if estimated / 40 < 1 {
        1
    } else {
        estimated / 40
    }
}

/// The promoted step count for a multiplier.
pub open spec fn promoted_count(interval: TemporalTickInterval, multiplier: int) -> int {
    clamp_i64(interval_count(interval) * multiplier)
}

/// `ticks` and `count` are what promotion settles on: the first multiplier
/// from `promotion_start` on whose grid fits the budget.
pub open spec fn promoted_ticks(
    ticks: Seq<i64>,
    count: int,
    min: int,
    max: int,
    interval: TemporalTickInterval,
) -> bool {
    exists|m: int|
        promotion_start(min, max, interval) <= m && count == promoted_count(interval, m)
            && interval_grid_result(ticks, min, max, count, interval.unit) && ticks.len()
            <= MAX_INTERVAL_TICKS && forall|m2: int, r: Seq<i64>|
            promotion_start(min, max, interval) <= m2 < m && #[trigger] interval_grid_result(
                r,
                min,
                max,
                promoted_count(interval, m2),
                interval.unit,
            ) ==> r.len() > MAX_INTERVAL_TICKS
}

/// Grid ticks for an explicit interval, with the step count promoted by the
/// smallest multiplier whose ticks fit the budget; also returns that count.
pub fn interval_ticks_with_step(min: i64, max: i64, interval: TemporalTickInterval) -> (result: (
    Vec<i64>,
    i64,
))
    requires
        interval_promotion_ends(min as int, max as int, interval.unit),
    ensures
        promoted_ticks(result.0@, result.1 as int, min as int, max as int, interval),
{
    let base = interval_count_of(interval);
    let diff = saturating_sub(max, min);
    let span = if diff < 1 {
        1
    } else {
        diff
    };
    let per_step = saturating_mul(approx_step_micros(interval.unit), base);
    let divisor = if per_step < 1 {
        1
    } else {
        per_step
    };
    let estimated = span / divisor;
    let mut multiplier: i64 = if estimated / 40 < 1 {
        1
    } else {
        estimated / 40
    };
    let ghost start = multiplier as int;
    let ghost bound = promotion_bound(min as int, max as int, interval.unit);
    let ghost m_star = if bound > start {
        bound
    } else {
        start
    };
    proof {
        assert(start == promotion_start(min as int, max as int, interval));
        assert(estimated <= span);
        assert(m_star < i64::MAX);
    }
    loop
        invariant
            1 <= base <= u32::MAX,
            base == interval_count(interval),
            interval_promotion_ends(min as int, max as int, interval.unit),
            start == promotion_start(min as int, max as int, interval),
            bound == promotion_bound(min as int, max as int, interval.unit),
            m_star == (if bound > start {
                bound
            } else {
                start
            }),
            m_star < i64::MAX,
            start <= multiplier <= m_star,
            forall|m2: int, r: Seq<i64>|
                start <= m2 < multiplier && #[trigger] interval_grid_result(
                    r,
                    min as int,
                    max as int,
                    promoted_count(interval, m2),
                    interval.unit,
                ) ==> r.len() > MAX_INTERVAL_TICKS,
        decreases m_star - multiplier,
    {
        let count = saturating_mul(base, multiplier);
        assert(count == promoted_count(interval, multiplier as int));
        let ticks = interval_grid_ticks(min, max, count, interval.unit);
        if ticks.len() <= MAX_INTERVAL_TICKS {
            return (ticks, count);
        }
        proof {
            assert(min <= max);
            assert forall|r: Seq<i64>| #[trigger]
                interval_grid_result(
                    r,
                    min as int,
                    max as int,
                    promoted_count(interval, multiplier as int),
                    interval.unit,
                ) implies r.len() > MAX_INTERVAL_TICKS by {
                lemma_grid_over_budget(ticks@, r, min as int, max as int, count as int, interval.unit);
            }
            if multiplier >= bound {
                assert(count >= multiplier) by (nonlinear_arith)
                    requires
                        count == clamp_i64(base * multiplier),
                        base >= 1,
                        multiplier >= 1,
                        multiplier <= i64::MAX,
                ;
                lemma_interval_grid_fits(ticks@, min as int, max as int, count as int, interval.unit);
            }
        }
        multiplier = multiplier + 1;
    }
}

/// Grid ticks for an explicit interval (see `interval_ticks_with_step`).
pub fn interval_ticks(min: i64, max: i64, interval: TemporalTickInterval) -> (ticks: Vec<i64>)
    requires
        interval_promotion_ends(min as int, max as int, interval.unit),
    ensures
        exists|count: int| promoted_ticks(ticks@, count, min as int, max as int, interval),
{
    let (ticks, count) = interval_ticks_with_step(min, max, interval);
    ticks
}

/// The step count that `interval_ticks` settled on after promotion; equal to
/// the interval's count when no promotion was needed.
pub fn interval_effective_count(min: i64, max: i64, interval: TemporalTickInterval) -> (count: i64)
    requires
        interval_promotion_ends(min as int, max as int, interval.unit),
    ensures
        exists|ticks: Seq<i64>| promoted_ticks(ticks, count as int, min as int, max as int, interval),
{
    let (ticks, count) = interval_ticks_with_step(min, max, interval);
    count
}

// ---------------------------------------------------------------------------
// Hinted ticks
// ---------------------------------------------------------------------------

/// The integer side of a temporal scale that tick planning reads.
#[derive(Debug, Clone, PartialEq, Eq)]
pub struct TemporalDomain {
    /// The domain's first instant.
    pub min: i64,
    /// The domain's last instant.
    pub max: i64,
    /// Whether the column holds dates or date-times.
    pub precision: TemporalPrecision,
    /// Ticks requested ahead of time (from an explicit interval or guide).
    pub tick_values: Vec<i64>,
    /// The domain the requested ticks were planned for.
    pub tick_span: Option<(i64, i64)>,
    /// Whether the requested ticks come from an explicit interval and must be
    /// kept as they are.
    pub exact_ticks: bool,
}

impl TemporalDomain {
    /// A domain without requested ticks; a single instant widens by one
    /// microsecond on each side.
    pub fn new(min: i64, max: i64, precision: TemporalPrecision) -> (domain: Self)
        requires
            min == max ==> i64::MIN < min && max < i64::MAX,
        ensures
            min != max ==> domain.min == min && domain.max == max,
            min == max ==> domain.min == min - 1 && domain.max == max + 1,
            domain.precision == precision,
            domain.tick_values@.len() == 0,
            domain.tick_span is None,
            !domain.exact_ticks,
    {
        let (lo, hi) = if min == max {
            (min - 1, max + 1)
        } else {
            (min, max)
        };
        TemporalDomain {
            min: lo,
            max: hi,
            precision,
            tick_values: Vec::new(),
            tick_span: None,
            exact_ticks: false,
        }
    }
}

/// The values of `s` inside `[min, max]`, in order.
pub open spec fn within(s: Seq<i64>, min: int, max: int) -> Seq<i64>
    decreases s.len(),
{
    if s.len() == 0 {
        Seq::empty()
    } else if min <= s.last() <= max {
        within(s.drop_last(), min, max).push(s.last())
    } else {
        within(s.drop_last(), min, max)
    }
}

/// Every `stride`-th value of `s`, starting with the first.
pub open spec fn every_nth(s: Seq<i64>, stride: int) -> Seq<i64> {
    Seq::new(((s.len() + stride - 1) / stride) as nat, |k: int| s[k * stride])
}

/// The requested ticks a domain keeps: those inside it, when there are at
/// least two and they were planned for this very domain; thinned to at most
/// eight by a regular index stride unless they are exact.
pub open spec fn hinted_ticks(domain: TemporalDomain) -> Option<Seq<i64>> {
    let values = within(domain.tick_values@, domain.min as int, domain.max as int);
    if values.len() < 2 {
        None
    } else if domain.tick_span != Some((domain.min, domain.max)) {
        None
    } else if domain.exact_ticks || values.len() <= 8 {
        Some(values)
    } else {
        let thinned = every_nth(values, (values.len() + 7) as int / 8);
        if thinned.len() >= 2 {
            Some(thinned)
        } else {
            None
        }
    }
}

/// The requested ticks the domain keeps, if any.
pub fn hinted_temporal_ticks(domain: &TemporalDomain) -> (ticks: Option<Vec<i64>>)
    ensures
        match ticks {
            Some(t) => hinted_ticks(*domain) == Some(t@),
            None => hinted_ticks(*domain) is None,
        },
{
    let mut values: Vec<i64> = Vec::new();
    let mut i: usize = 0;
    while i < domain.tick_values.len()
        invariant
            i <= domain.tick_values@.len(),
            values@ == within(domain.tick_values@.take(i as int), domain.min as int, domain.max as int),
        decreases domain.tick_values@.len() - i,
    {
        let value = domain.tick_values[i];
        proof {
            assert(domain.tick_values@.take(i + 1).drop_last() =~= domain.tick_values@.take(i as int));
        }
        if value >= domain.min && value <= domain.max {
            values.push(value);
        }
        i = i + 1;
    }
    assert(domain.tick_values@.take(i as int) =~= domain.tick_values@);
    if values.len() < 2 {
        return None;
    }
    match domain.tick_span {
        Some((lo, hi)) => {
            if lo != domain.min || hi != domain.max {
                return None;
            }
        },
        None => {
            return None;
        },
    }
    if domain.exact_ticks || values.len() <= 8 {
        return Some(values);
    }
    let len = values.len();
    let stride = (len - 1) / 8 + 1;
    let count = (len - 1) / stride + 1;
    proof {
        lemma_fundamental_div_mod((len - 1) as int, 8);
        lemma_fundamental_div_mod_converse((len + 7) as int, 8, (len - 1) as int / 8 + 1, (len as int - 1) % 8);
        lemma_fundamental_div_mod((len - 1) as int, stride as int);
        let q = (len - 1) as int / stride as int;
        let r = (len - 1) as int % stride as int;
        assert(len + stride - 1 == (q + 1) * stride + r) by (nonlinear_arith)
            requires
                len - 1 == stride * q + r,
        ;
        lemma_fundamental_div_mod_converse(len + stride - 1, stride as int, q + 1, r);
    }
    let mut ticks: Vec<i64> = Vec::new();
    let mut index: usize = 0;
    let mut k: usize = 0;
    while k < count
        invariant
            len == values@.len(),
            len > 8,
            stride == (len + 7) / 8,
            stride >= 2,
            count == (len - 1) / (stride as int) + 1,
            k <= count,
            k < count ==> index == k * stride,
            ticks@.len() == k,
            forall|j: int| 0 <= j < k ==> #[trigger] ticks@[j] == values@[j * stride],
        decreases count - k,
    {
        proof {
            lemma_fundamental_div_mod((len - 1) as int, stride as int);
            assert(k * stride <= len - 1) by (nonlinear_arith)
                requires
                    k < count,
                    count == (len - 1) / (stride as int) + 1,
                    stride >= 2,
                    len - 1 == stride * ((len - 1) / (stride as int)) + (len - 1) % (stride as int),
                    (len - 1) % (stride as int) >= 0,
            ;
        }
        ticks.push(values[index]);
        k = k + 1;
        if k < count {
            proof {
                assert(k * stride <= len - 1) by (nonlinear_arith)
                    requires
                        k < count,
                        count == (len - 1) / (stride as int) + 1,
                        stride >= 2,
                        len - 1 == stride * ((len - 1) / (stride as int)) + (len - 1) % (stride as int),
                        (len - 1) % (stride as int) >= 0,
                ;
                assert(k * stride == (k - 1) * stride + stride) by (nonlinear_arith);
            }
            index = index + stride;
        }
    }
    proof {
        assert(ticks@ =~= every_nth(values@, stride as int));
    }
    if ticks.len() >= 2 {
        Some(ticks)
    } else {
        None
    }
}

// ---------------------------------------------------------------------------
// The automatic ladder
// ---------------------------------------------------------------------------

/// The epoch grid's ticks for a domain, step and phase.
pub open spec fn epoch_grid(min: int, max: int, step: int, phase: int) -> Seq<i64> {
    choose|r: Seq<i64>| epoch_grid_result(r, min, max, step, phase)
}

/// The month grid's ticks for a domain and month count.
pub open spec fn month_grid(min: int, max: int, count: int) -> Seq<i64> {
    choose|r: Seq<i64>| month_grid_result(r, min, max, count)
}

/// The absolute value of an integer.
pub open spec fn abs(x: int) -> int {
    if x < 0 {
        -x
    } else {
        x
    }
}

/// The whole days between the dates of two instants.
pub open spec fn day_span(min: int, max: int) -> int {
    abs(day_of(max) - day_of(min))
}

/// The smallest day stride that keeps a span under eight labels.
pub open spec fn daily_stride(span: int) -> Option<int> {
    if span / 1 < 8 {
        Some(1)
    } else if span / 2 < 8 {
        Some(2)
    } else if span / 3 < 8 {
        Some(3)
    } else if span / 5 < 8 {
        Some(5)
    } else if span / 7 < 8 {
        Some(7)
    } else if span / 14 < 8 {
        Some(14)
    } else {
        None
    }
}

/// Midnights `0, stride, 2 * stride, ...` days (up to `span` days) after the
/// day `start_day`.
pub open spec fn day_midnights(start_day: int, stride: int, span: int) -> Seq<i64> {
    Seq::new(
        (span / stride + 1) as nat,
        |k: int| ((start_day + k * stride) * day_micros()) as i64,
    )
}

/// Whole-day ticks for spans of one to forty days: every `stride`-th
/// midnight from the first day's, kept inside the domain, when two to eight
/// remain.
pub open spec fn daily_ladder(min: int, max: int) -> Option<Seq<i64>> {
    if !instant_in_range(min) || !instant_in_range(max) {
        None
    } else {
        let span = day_span(min, max);
        if span < 1 || span > 40 {
            None
        } else {
            match daily_stride(span) {
                None => None,
                Some(stride) => if day_of(min) + (span / stride) * stride > MAX_DAY {
                    None
                } else {
                    let ticks = within(day_midnights(day_of(min), stride, span), min, max);
                    if 2 <= ticks.len() <= 8 {
                        Some(ticks)
                    } else {
                        None
                    }
                },
            }
        }
    }
}

/// Whole-day ticks: the smallest stride that produces at most eight labels,
/// so ticks land on day boundaries even when the span is not a multiple of
/// five days.
pub fn daily_ticks(min: i64, max: i64) -> (ticks: Option<Vec<i64>>)
    ensures
        match ticks {
            Some(t) => daily_ladder(min as int, max as int) == Some(t@),
            None => daily_ladder(min as int, max as int) is None,
        },
{
    let start = civil_instant(min)?;
    let end = civil_instant(max)?;
    let difference = end.epoch_day - start.epoch_day;
    let span = if difference < 0 {
        -difference
    } else {
        difference
    };
    if span < 1 || span > 40 {
        return None;
    }
    let stride: i64 = if span / 1 < 8 {
        1
    } else if span / 2 < 8 {
        2
    } else if span / 3 < 8 {
        3
    } else if span / 5 < 8 {
        5
    } else if span / 7 < 8 {
        7
    } else if span / 14 < 8 {
        14
    } else {
        return None;
    };
    proof {
        assert(start.epoch_day == day_of(min as int));
        assert(end.epoch_day == day_of(max as int));
    }
    let ghost day0 = day_of(min as int);
    let ghost candidates = day_midnights(day0, stride as int, span as int);
    let count = span / stride + 1;
    let mut ticks: Vec<i64> = Vec::new();
    let mut k: i64 = 0;
    while k < count
        invariant
            1 <= span <= 40,
            1 <= stride <= 14,
            count == span / stride + 1,
            0 <= k <= count,
            day0 == day_of(min as int),
            instant_in_range(min as int),
            instant_in_range(max as int),
            span == day_span(min as int, max as int),
            daily_stride(span as int) == Some(stride as int),
            candidates == day_midnights(day0, stride as int, span as int),
            candidates.len() == count,
            day0 + (k - 1) * stride <= MAX_DAY || k == 0,
            ticks@ == within(candidates.take(k as int), min as int, max as int),
        decreases count - k,
    {
        proof {
            assert(0 <= k * stride <= span) by (nonlinear_arith)
                requires
                    0 <= k < count,
                    count == span / stride + 1,
                    stride >= 1,
                    span >= 0,
            ;
        }
        let offset = k * stride;
        let micros = match midnight_after_days(min, offset as u64) {
            Some(m) => m,
            None => {
                proof {
                    assert(k * stride <= (span / stride) * stride) by (nonlinear_arith)
                        requires
                            0 <= k <= span / stride,
                            stride >= 1,
                    ;
                    assert(span == day_span(min as int, max as int));
                    assert(daily_stride(span as int) == Some(stride as int));
                    assert(day_of(min as int) + (span / stride) * stride > MAX_DAY);
                    assert(daily_ladder(min as int, max as int) is None);
                }
                return None;
            },
        };
        proof {
            assert(candidates[k as int] == micros);
            assert(candidates.take(k + 1).drop_last() =~= candidates.take(k as int));
        }
        if micros >= min && micros <= max {
            ticks.push(micros);
        }
        k = k + 1;
    }
    proof {
        assert(candidates.take(k as int) =~= candidates);
        assert(k - 1 == span / stride);
    }
    if ticks.len() >= 2 && ticks.len() <= 8 {
        Some(ticks)
    } else {
        None
    }
}

/// The epoch grid's result is its ticks.
proof fn lemma_epoch_grid_is(r: Seq<i64>, min: int, max: int, step: int, phase: int)
    requires
        epoch_grid_result(r, min, max, step, phase),
    ensures
        epoch_grid(min, max, step, phase) == r,
{
    let g = epoch_grid(min, max, step, phase);
    assert(epoch_grid_result(g, min, max, step, phase));
    if step <= 0 || min > max {
        assert(g =~= r);
    } else {
        lemma_stepped_run_unique(g, r, epoch_first(min, step, phase), step, max);
    }
}

/// The month grid's result is its ticks.
proof fn lemma_month_grid_is(r: Seq<i64>, min: int, max: int, count: int)
    requires
        month_grid_result(r, min, max, count),
    ensures
        month_grid(min, max, count) == r,
{
    let g = month_grid(min, max, count);
    assert(month_grid_result(g, min, max, count));
    lemma_month_grid_unique(g, r, min, max, count);
}

/// Monday-anchored week ticks for spans of two to twenty weeks: one- or
/// two-week strides, the first that yields two to eight ticks.
pub open spec fn weekly_ladder(min: int, max: int) -> Option<Seq<i64>> {
    if !instant_in_range(min) || !instant_in_range(max) {
        None
    } else {
        let span = day_span(min, max);
        if span < 14 || span > 140 {
            None
        } else {
            let one = epoch_grid(min, max, MICROS_PER_WEEK as int, MONDAY_GRID_OFFSET as int);
            let two = epoch_grid(min, max, 2 * MICROS_PER_WEEK, MONDAY_GRID_OFFSET as int);
            if 2 <= one.len() <= 8 {
                Some(one)
            } else if 2 <= two.len() <= 8 {
                Some(two)
            } else {
                None
            }
        }
    }
}

/// Monday-anchored week boundaries between the daily and monthly rungs.
pub fn weekly_ticks(min: i64, max: i64) -> (ticks: Option<Vec<i64>>)
    ensures
        match ticks {
            Some(t) => weekly_ladder(min as int, max as int) == Some(t@),
            None => weekly_ladder(min as int, max as int) is None,
        },
{
    let start = civil_instant(min)?;
    let end = civil_instant(max)?;
    proof {
        assert(start.epoch_day == day_of(min as int));
        assert(end.epoch_day == day_of(max as int));
    }
    let difference = end.epoch_day - start.epoch_day;
    let span = if difference < 0 {
        -difference
    } else {
        difference
    };
    if span < 14 || span > 140 {
        return None;
    }
    let one = epoch_grid_ticks(min, max, MICROS_PER_WEEK, MONDAY_GRID_OFFSET);
    proof {
        lemma_epoch_grid_is(one@, min as int, max as int, MICROS_PER_WEEK as int, MONDAY_GRID_OFFSET as int);
    }
    if one.len() >= 2 && one.len() <= 8 {
        return Some(one);
    }
    let two = epoch_grid_ticks(min, max, 2 * MICROS_PER_WEEK, MONDAY_GRID_OFFSET);
    proof {
        lemma_epoch_grid_is(two@, min as int, max as int, 2 * MICROS_PER_WEEK, MONDAY_GRID_OFFSET as int);
    }
    if two.len() >= 2 && two.len() <= 8 {
        return Some(two);
    }
    None
}

/// Month-start ticks for spans of four weeks or more: 1-, 2-, 3- or 6-month
/// strides on the epoch month grid, the first that yields two to eight
/// ticks.
pub open spec fn monthly_ladder(min: int, max: int) -> Option<Seq<i64>> {
    if !instant_in_range(min) || !instant_in_range(max) {
        None
    } else if day_span(min, max) < 28 {
        None
    } else if 2 <= month_grid(min, max, 1).len() <= 8 {
        Some(month_grid(min, max, 1))
    } else if 2 <= month_grid(min, max, 2).len() <= 8 {
        Some(month_grid(min, max, 2))
    } else if 2 <= month_grid(min, max, 3).len() <= 8 {
        Some(month_grid(min, max, 3))
    } else if 2 <= month_grid(min, max, 6).len() <= 8 {
        Some(month_grid(min, max, 6))
    } else {
        None
    }
}

/// Month-start boundaries with 1-, 2-, 3- and 6-month strides on the epoch
/// month grid, so multi-month strides keep the same calendar phase every
/// year.
pub fn monthly_ticks(min: i64, max: i64) -> (ticks: Option<Vec<i64>>)
    ensures
        match ticks {
            Some(t) => monthly_ladder(min as int, max as int) == Some(t@),
            None => monthly_ladder(min as int, max as int) is None,
        },
{
    let start = civil_instant(min)?;
    let end = civil_instant(max)?;
    proof {
        assert(start.epoch_day == day_of(min as int));
        assert(end.epoch_day == day_of(max as int));
    }
    let difference = end.epoch_day - start.epoch_day;
    let span = if difference < 0 {
        -difference
    } else {
        difference
    };
    if span < 28 {
        return None;
    }
    let one = month_grid_ticks(min, max, 1);
    proof {
        lemma_month_grid_is(one@, min as int, max as int, 1);
    }
    if one.len() >= 2 && one.len() <= 8 {
        return Some(one);
    }
    let two = month_grid_ticks(min, max, 2);
    proof {
        lemma_month_grid_is(two@, min as int, max as int, 2);
    }
    if two.len() >= 2 && two.len() <= 8 {
        return Some(two);
    }
    let three = month_grid_ticks(min, max, 3);
    proof {
        lemma_month_grid_is(three@, min as int, max as int, 3);
    }
    if three.len() >= 2 && three.len() <= 8 {
        return Some(three);
    }
    let six = month_grid_ticks(min, max, 6);
    proof {
        lemma_month_grid_is(six@, min as int, max as int, 6);
    }
    if six.len() >= 2 && six.len() <= 8 {
        return Some(six);
    }
    None
}

/// The smallest year stride that keeps a year count under eight labels.
pub open spec fn year_stride(total: int) -> Option<int> {
    if total / 1 < 8 {
        Some(1)
    } else if total / 2 < 8 {
        Some(2)
    } else if total / 5 < 8 {
        Some(5)
    } else if total / 10 < 8 {
        Some(10)
    } else if total / 20 < 8 {
        Some(20)
    } else if total / 25 < 8 {
        Some(25)
    } else if total / 50 < 8 {
        Some(50)
    } else if total / 100 < 8 {
        Some(100)
    } else if total / 200 < 8 {
        Some(200)
    } else if total / 250 < 8 {
        Some(250)
    } else if total / 500 < 8 {
        Some(500)
    } else if total / 1000 < 8 {
        Some(1000)
    } else {
        None
    }
}

/// The first whole year of the domain: the start's year when the domain
/// starts on January 1st, the next one otherwise.
pub open spec fn first_whole_year(min: int) -> int {
    if civil_of(min).ordinal > 1 {
        civil_of(min).year + 1
    } else {
        civil_of(min).year as int
    }
}

/// January 1st of the years `first, first + stride, ...` up to `last`.
pub open spec fn year_starts(first: int, stride: int, last: int) -> Seq<i64> {
    Seq::new(
        (if first <= last {
            (last - first) / stride + 1
        } else {
            0
        }) as nat,
        |k: int| year_tick(first + k * stride) as i64,
    )
}

/// Year-start ticks for spans of a year or more: the smallest stride from
/// 1, 2, 5, 10, ... 1000 years that keeps fewer than eight steps, kept
/// inside the domain, when two to eight remain.
pub open spec fn yearly_ladder(min: int, max: int) -> Option<Seq<i64>> {
    if !instant_in_range(min) || !instant_in_range(max) {
        None
    } else if day_span(min, max) < 365 {
        None
    } else {
        let first = first_whole_year(min);
        let last = civil_of(max).year as int;
        let total = if last - first < 0 {
            0
        } else {
            last - first
        };
        match year_stride(total) {
            None => None,
            Some(stride) => {
                let ticks = within(year_starts(first, stride, last), min, max);
                if 2 <= ticks.len() <= 8 {
                    Some(ticks)
                } else {
                    None
                }
            },
        }
    }
}

proof fn lemma_within_members(s: Seq<i64>, min: int, max: int)
    ensures
        forall|j: int|
            0 <= j < within(s, min, max).len() ==> min <= #[trigger] within(s, min, max)[j] <= max
                && exists|k: int| 0 <= k < s.len() && within(s, min, max)[j] == s[k],
    decreases s.len(),
{
    if s.len() > 0 {
        lemma_within_members(s.drop_last(), min, max);
        let w = within(s.drop_last(), min, max);
        assert forall|j: int| 0 <= j < within(s, min, max).len() implies min <= #[trigger] within(
            s,
            min,
            max,
        )[j] <= max && exists|k: int| 0 <= k < s.len() && within(s, min, max)[j] == s[k] by {
            if j < w.len() {
                assert(within(s, min, max)[j] == w[j]);
                let k = choose|k: int| 0 <= k < s.drop_last().len() && w[j] == s.drop_last()[k];
                assert(s[k] == s.drop_last()[k]);
            } else {
                assert(within(s, min, max)[j] == s[s.len() - 1]);
            }
        }
    }
}

proof fn lemma_within_first(s: Seq<i64>, min: int, max: int)
    requires
        s.len() > 0,
        min <= s[0] <= max,
    ensures
        within(s, min, max).len() > 0,
        within(s, min, max)[0] == s[0],
    decreases s.len(),
{
    let w = within(s.drop_last(), min, max);
    if s.len() > 1 {
        lemma_within_first(s.drop_last(), min, max);
        assert(s.drop_last()[0] == s[0]);
        if min <= s.last() <= max {
            assert(within(s, min, max) == w.push(s.last()));
            assert(w.push(s.last())[0] == w[0]);
        }
    } else {
        assert(s.drop_last().len() == 0);
        assert(w == Seq::<i64>::empty());
        assert(s.last() == s[0]);
        assert(within(s, min, max) == w.push(s.last()));
    }
}

/// January 1st of a later year is later.
proof fn lemma_year_tick_increasing(a: int, b: int)
    requires
        a < b,
    ensures
        year_tick(a) < year_tick(b),
{
    lemma_month_index_fields(a, 1);
    lemma_month_index_fields(b, 1);
    lemma_month_starts_increase(month_index(a, 1), month_index(b, 1));
}

/// January 1st of every year `chrono` represents is an `i64` instant.
proof fn lemma_year_tick_in_i64(y: int)
    requires
        MIN_YEAR <= y <= MAX_YEAR + 1,
    ensures
        i64::MIN <= year_tick(y) <= i64::MAX,
{
    assert(days_from_civil(MIN_YEAR as int, 1, 1) == -96_465_292);
    assert(days_from_civil(MAX_YEAR + 1, 1, 1) == 95_026_237);
    if y > MIN_YEAR {
        lemma_year_tick_increasing(MIN_YEAR as int, y);
    }
    if y < MAX_YEAR + 1 {
        lemma_year_tick_increasing(y, MAX_YEAR + 1);
    }
}

/// The candidates of the yearly rung are January 1sts of their years.
proof fn lemma_year_candidates(first: int, stride: int, last: int)
    requires
        MIN_YEAR <= first,
        last <= MAX_YEAR,
        stride >= 1,
    ensures
        forall|k: int|
            0 <= k < year_starts(first, stride, last).len() ==> #[trigger] year_starts(
                first,
                stride,
                last,
            )[k] as int == year_tick(first + k * stride) && first <= first + k * stride <= last,
{
    let s = year_starts(first, stride, last);
    assert forall|k: int| 0 <= k < s.len() implies #[trigger] s[k] as int == year_tick(
        first + k * stride,
    ) && first <= first + k * stride <= last by {
        assert(0 <= k * stride <= last - first) by (nonlinear_arith)
            requires
                0 <= k < (last - first) / stride + 1,
                first <= last,
                stride >= 1,
        ;
        lemma_year_tick_in_i64(first + k * stride);
    }
}

/// An instant lies on or after January 1st of its year, strictly after it
/// unless it falls on that day.
proof fn lemma_instant_in_its_year(c: CivilInstant, min: int)
    requires
        civil_fields_of(c, min),
    ensures
        year_tick(c.year as int) <= min,
        c.ordinal >= 1,
        c.ordinal > 1 ==> year_tick(c.year as int) < min,
{
    lemma_month_index_fields(c.year as int, 1);
    lemma_month_index_fields(c.year as int, c.month as int);
    lemma_month_starts_increase(month_index(c.year as int, 1), month_index(c.year as int, c.month as int));
    crate::calendar::lemma_date_within_month(c.year as int, c.month as int, c.day as int);
    vstd::arithmetic::div_mod::lemma_fundamental_div_mod(min, day_micros());
    let d0 = days_from_civil(c.year as int, 1, 1);
    assert(d0 <= day_of(min));
    assert(d0 * day_micros() <= day_of(min) * day_micros()) by (nonlinear_arith)
        requires
            d0 <= day_of(min),
    ;
    if c.ordinal > 1 {
        assert((d0 + 1) * day_micros() <= day_of(min) * day_micros()) by (nonlinear_arith)
            requires
                d0 + 1 <= day_of(min),
        ;
    }
}

/// The yearly rung lists January-1st midnights inside the domain, and it
/// starts at the earliest one at or after the domain's start: in particular
/// a domain that starts at a January-1st midnight has that instant as its
/// first tick. (The one exception: a domain starting on January 1st after
/// midnight counts its years from that year, so with a stride above one the
/// first tick may be a later year start.)
#[verifier::spinoff_prover]
pub proof fn lemma_yearly_ladder_first_tick(
    min: int,
    max: int,
    cmin: CivilInstant,
    cmax: CivilInstant,
    t: Seq<i64>,
)
    requires
        civil_fields_of(cmin, min),
        civil_fields_of(cmax, max),
        yearly_ladder(min, max) == Some(t),
    ensures
        t.len() >= 2,
        forall|j: int|
            0 <= j < t.len() ==> min <= #[trigger] t[j] <= max && exists|y: int|
                t[j] == #[trigger] year_tick(y),
        min == year_tick(cmin.year as int) ==> t[0] == min,
        forall|y: int|
            min <= #[trigger] year_tick(y) < t[0] ==> cmin.ordinal == 1 && year_tick(
                cmin.year as int,
            ) < min,
{
    lemma_civil_of(cmin, min);
    lemma_civil_of(cmax, max);
    lemma_instant_in_its_year(cmin, min);
    let y0 = cmin.year as int;
    let first = first_whole_year(min);
    let last = cmax.year as int;
    let total = if last - first < 0 {
        0
    } else {
        last - first
    };
    let stride = year_stride(total)->0;
    let s = year_starts(first, stride, last);
    assert(t == within(s, min, max));
    assert(1 <= stride);
    lemma_within_members(s, min, max);
    lemma_year_candidates(first, stride, last);
    assert forall|j: int| 0 <= j < t.len() implies min <= #[trigger] t[j] <= max && exists|y: int|
        t[j] == #[trigger] year_tick(y) by {
        let k = choose|k: int| 0 <= k < s.len() && t[j] == s[k];
        assert(s[k] as int == year_tick(first + k * stride));
    }
    if cmin.ordinal > 1 {
        lemma_first_tick_after_day_one(min, max, cmin, s, first, stride);
    } else if year_tick(y0) == min {
        assert(first == y0);
        assert(s[0] as int == year_tick(first));
        assert(min <= max) by {
            assert(min <= t[0] <= max);
        }
        lemma_within_first(s, min, max);
    }
}

/// When the domain starts after January 1st, its first tick is January 1st
/// of the next year, and no year start lies between the two.
proof fn lemma_first_tick_after_day_one(
    min: int,
    max: int,
    cmin: CivilInstant,
    s: Seq<i64>,
    first: int,
    stride: int,
)
    requires
        civil_fields_of(cmin, min),
        cmin.ordinal > 1,
        first == cmin.year + 1,
        stride >= 1,
        within(s, min, max).len() > 0,
        forall|k: int| 0 <= k < s.len() ==> #[trigger] s[k] as int == year_tick(first + k * stride),
        forall|j: int|
            0 <= j < within(s, min, max).len() ==> min <= #[trigger] within(s, min, max)[j] <= max
                && exists|k: int| 0 <= k < s.len() && within(s, min, max)[j] == s[k],
    ensures
        within(s, min, max)[0] == year_tick(first),
        forall|y: int| min <= #[trigger] year_tick(y) ==> year_tick(y) >= within(s, min, max)[0],
{
    let t = within(s, min, max);
    let y0 = cmin.year as int;
    lemma_instant_in_its_year(cmin, min);
    lemma_later_year_tick(cmin, min, y0 + 1);
    assert(min <= t[0] <= max);
    let k0 = choose|k: int| 0 <= k < s.len() && t[0] == s[k];
    assert(s[k0] as int == year_tick(first + k0 * stride));
    assert(s[0] as int == year_tick(first));
    if k0 > 0 {
        assert(first < first + k0 * stride) by (nonlinear_arith)
            requires
                k0 > 0,
                stride >= 1,
        ;
        lemma_year_tick_increasing(first, first + k0 * stride);
    }
    lemma_within_first(s, min, max);
    assert forall|y: int| min <= #[trigger] year_tick(y) implies year_tick(y) >= t[0] by {
        if y <= y0 {
            if y < y0 {
                lemma_year_tick_increasing(y, y0);
            }
        } else if y > y0 + 1 {
            lemma_year_tick_increasing(y0 + 1, y);
        }
    }
}

fn year_stride_of(total: i32) -> (stride: Option<i32>)
    requires
        total >= 0,
    ensures
        match stride {
            Some(s) => year_stride(total as int) == Some(s as int),
            None => year_stride(total as int) is None,
        },
{
    if total / 1 < 8 {
        Some(1)
    } else if total / 2 < 8 {
        Some(2)
    } else if total / 5 < 8 {
        Some(5)
    } else if total / 10 < 8 {
        Some(10)
    } else if total / 20 < 8 {
        Some(20)
    } else if total / 25 < 8 {
        Some(25)
    } else if total / 50 < 8 {
        Some(50)
    } else if total / 100 < 8 {
        Some(100)
    } else if total / 200 < 8 {
        Some(200)
    } else if total / 250 < 8 {
        Some(250)
    } else if total / 500 < 8 {
        Some(500)
    } else if total / 1000 < 8 {
        Some(1000)
    } else {
        None
    }
}

/// The January firsts of `first_year, first_year + stride, ...` up to
/// `end_year` that lie in `[min, max]`.
#[verifier::spinoff_prover]
fn year_start_ticks(min: i64, max: i64, first_year: i32, end_year: i32, stride: i32) -> (ticks:
    Vec<i64>)
    requires
        1 <= stride <= 1000,
        MIN_YEAR <= first_year,
        end_year <= MAX_YEAR,
    ensures
        ticks@ == within(
            year_starts(first_year as int, stride as int, end_year as int),
            min as int,
            max as int,
        ),
{
    let ghost candidates = year_starts(first_year as int, stride as int, end_year as int);
    let count: i32 = if first_year <= end_year {
        (end_year - first_year) / stride + 1
    } else {
        0
    };
    let mut ticks: Vec<i64> = Vec::new();
    let mut k: i32 = 0;
    while k < count
        invariant
            1 <= stride <= 1000,
            MIN_YEAR <= first_year,
            end_year <= MAX_YEAR,
            count == (if first_year <= end_year {
                (end_year - first_year) / (stride as int) + 1
            } else {
                0
            }),
            0 <= k <= count,
            candidates == year_starts(first_year as int, stride as int, end_year as int),
            candidates.len() == count,
            ticks@ == within(candidates.take(k as int), min as int, max as int),
        decreases count - k,
    {
        proof {
            assert(0 <= k * stride <= end_year - first_year) by (nonlinear_arith)
                requires
                    0 <= k < count,
                    count == (end_year - first_year) / (stride as int) + 1,
                    first_year <= end_year,
                    stride >= 1,
            ;
        }
        let year = first_year + k * stride;
        let micros = match month_start_micros(year, 1) {
            Some(m) => m,
            None => {
                assert(false);
                return Vec::new();
            },
        };
        proof {
            assert(candidates[k as int] == micros);
            assert(candidates.take(k + 1).drop_last() =~= candidates.take(k as int));
        }
        if micros >= min && micros <= max {
            ticks.push(micros);
        }
        k = k + 1;
    }
    proof {
        assert(candidates.take(k as int) =~= candidates);
    }
    ticks
}

/// Year-start ticks with a stride from 1 to 1000 years.
#[verifier::spinoff_prover]
pub fn yearly_ticks(min: i64, max: i64) -> (ticks: Option<Vec<i64>>)
    ensures
        match ticks {
            Some(t) => yearly_ladder(min as int, max as int) == Some(t@),
            None => yearly_ladder(min as int, max as int) is None,
        },
{
    let start = civil_instant(min)?;
    let end = civil_instant(max)?;
    proof {
        assert(start.epoch_day == day_of(min as int));
        assert(end.epoch_day == day_of(max as int));
        lemma_civil_of(start, min as int);
        lemma_civil_of(end, max as int);
    }
    let difference = end.epoch_day - start.epoch_day;
    let span = if difference < 0 {
        -difference
    } else {
        difference
    };
    if span < 365 {
        return None;
    }
    let mut first_year = start.year;
    if start.ordinal > 1 {
        first_year = first_year + 1;
    }
    let end_year = end.year;
    let total = if end_year - first_year < 0 {
        0
    } else {
        end_year - first_year
    };
    let stride = year_stride_of(total)?;
    let ticks = year_start_ticks(min, max, first_year, end_year, stride);
    if ticks.len() >= 2 && ticks.len() <= 8 {
        Some(ticks)
    } else {
        None
    }
}

/// The clock rung of the ladder: clock-aligned ticks for a positive span
/// that fits an `i64`.
pub open spec fn clock_rung(min: int, max: int) -> Option<Seq<i64>> {
    if max - min <= 0 || max - min > i64::MAX {
        None
    } else {
        clock_ladder(min, max, 0)
    }
}

/// `a / b` rounded toward zero (`b > 0`).
pub open spec fn div_toward_zero(a: int, b: int) -> int {
    if a >= 0 {
        a / b
    } else {
        -((-a) / b)
    }
}

/// Six equally spaced instants from `min` to `max`.
pub open spec fn equal_ticks(min: int, max: int) -> Seq<i64> {
    Seq::new(6, |i: int| (min + div_toward_zero((max - min) * i, 5)) as i64)
}

/// The calendar-aware ladder: hinted ticks, then (for date-times) clock
/// steps, then days, Monday weeks, months and years; `None` when no rung
/// fits.
pub open spec fn temporal_ladder(domain: TemporalDomain) -> Option<Seq<i64>> {
    let min = domain.min as int;
    let max = domain.max as int;
    if hinted_ticks(domain) is Some {
        hinted_ticks(domain)
    } else if domain.precision != TemporalPrecision::Date && clock_rung(min, max) is Some {
        clock_rung(min, max)
    } else if daily_ladder(min, max) is Some {
        daily_ladder(min, max)
    } else if weekly_ladder(min, max) is Some {
        weekly_ladder(min, max)
    } else if monthly_ladder(min, max) is Some {
        monthly_ladder(min, max)
    } else {
        yearly_ladder(min, max)
    }
}

/// The ticks of a temporal axis: the first ladder rung that fits, else six
/// equally spaced instants.
pub open spec fn temporal_ticks_of(domain: TemporalDomain) -> Seq<i64> {
    match temporal_ladder(domain) {
        Some(ticks) => ticks,
        None => equal_ticks(domain.min as int, domain.max as int),
    }
}

/// Tick instants for a temporal axis.
pub fn temporal_ticks(domain: &TemporalDomain) -> (ticks: Vec<i64>)
    requires
        temporal_ladder(*domain) is None ==> i64::MIN <= (domain.max - domain.min) * 5 <= i64::MAX,
    ensures
        ticks@ == temporal_ticks_of(*domain),
{
    if let Some(ticks) = hinted_temporal_ticks(domain) {
        return ticks;
    }
    if domain.precision != TemporalPrecision::Date {
        if let Some(ticks) = clock_interval_ticks(domain.min, domain.max) {
            return ticks;
        }
    }
    if let Some(ticks) = daily_ticks(domain.min, domain.max) {
        return ticks;
    }
    if let Some(ticks) = weekly_ticks(domain.min, domain.max) {
        return ticks;
    }
    if let Some(ticks) = monthly_ticks(domain.min, domain.max) {
        return ticks;
    }
    if let Some(ticks) = yearly_ticks(domain.min, domain.max) {
        return ticks;
    }
    let span = domain.max - domain.min;
    let mut ticks: Vec<i64> = Vec::new();
    let mut i: i64 = 0;
    while i <= 5
        invariant
            0 <= i <= 6,
            span == domain.max - domain.min,
            i64::MIN <= span * 5 <= i64::MAX,
            ticks@ =~= equal_ticks(domain.min as int, domain.max as int).take(i as int),
        decreases 6 - i,
    {
        proof {
            assert(i64::MIN <= span * i <= i64::MAX) by (nonlinear_arith)
                requires
                    0 <= i <= 5,
                    i64::MIN <= span * 5 <= i64::MAX,
            ;
        }
        let scaled = span * i;
        let part = scaled / 5;
        proof {
            assert(part == div_toward_zero(scaled as int, 5));
            if span >= 0 {
                assert(0 <= scaled / 5 <= span) by (nonlinear_arith)
                    requires
                        0 <= i <= 5,
                        scaled == span * i,
                        span >= 0,
                ;
            } else {
                assert(scaled <= 0 && -scaled <= -span * 5) by (nonlinear_arith)
                    requires
                        0 <= i <= 5,
                        scaled == span * i,
                        span < 0,
                ;
                let m = -(scaled as int);
                assert(0 <= m / 5 <= -span) by (nonlinear_arith)
                    requires
                        0 <= m <= -span * 5,
                ;
            }
        }
        ticks.push(domain.min + part);
        i = i + 1;
    }
    ticks
}

/// Whether an instant is the first midnight of a year, of a month, or a
/// midnight at all.
pub open spec fn starts_year(micros: int) -> bool {
    civil_of(micros).day == 1 && civil_of(micros).month == 1
}

pub open spec fn starts_month(micros: int) -> bool {
    civil_of(micros).day == 1
}

pub open spec fn at_midnight(micros: int) -> bool {
    civil_of(micros).second_of_day == 0 && civil_of(micros).nanosecond == 0
}

/// The default label pattern for a tick list: `%Y` when every tick starts a
/// year, `%Y-%m` when every tick starts a month, `%Y-%m-%d` for other
/// midnight ticks; `None` for fewer than two ticks or any sub-day tick.
pub open spec fn tick_pattern(ticks: Seq<i64>) -> Option<Seq<char>> {
    if ticks.len() < 2 {
        None
    } else if exists|i: int|
        0 <= i < ticks.len() && !(instant_in_range(#[trigger] ticks[i] as int) && at_midnight(
            ticks[i] as int,
        )) {
        None
    } else if forall|i: int| 0 <= i < ticks.len() ==> starts_year(#[trigger] ticks[i] as int) {
        Some("%Y"@)
    } else if forall|i: int| 0 <= i < ticks.len() ==> starts_month(#[trigger] ticks[i] as int) {
        Some("%Y-%m"@)
    } else {
        Some("%Y-%m-%d"@)
    }
}

/// Pick a label pattern from the granularity of the ticks.
pub fn default_tick_pattern(ticks: &[i64]) -> (pattern: Option<&'static str>)
    ensures
        match pattern {
            Some(p) => tick_pattern(ticks@) == Some(p@),
            None => tick_pattern(ticks@) is None,
        },
{
    if ticks.len() < 2 {
        return None;
    }
    let mut all_year_starts = true;
    let mut all_month_starts = true;
    let mut i: usize = 0;
    while i < ticks.len()
        invariant
            i <= ticks@.len(),
            forall|j: int|
                0 <= j < i ==> instant_in_range(#[trigger] ticks@[j] as int) && at_midnight(
                    ticks@[j] as int,
                ),
            all_year_starts == (forall|j: int| 0 <= j < i ==> starts_year(#[trigger] ticks@[j] as int)),
            all_month_starts == (forall|j: int|
                0 <= j < i ==> starts_month(#[trigger] ticks@[j] as int)),
        decreases ticks@.len() - i,
    {
        let micros = ticks[i];
        let c = match civil_instant(micros) {
            Some(c) => c,
            None => {
                assert(!instant_in_range(ticks@[i as int] as int));
                return None;
            },
        };
        proof {
            lemma_civil_of(c, micros as int);
        }
        if !(c.second_of_day == 0 && c.nanosecond == 0) {
            assert(!at_midnight(ticks@[i as int] as int));
            return None;
        }
        all_month_starts = all_month_starts && c.day == 1;
        all_year_starts = all_year_starts && c.day == 1 && c.month == 1;
        proof {
            assert(all_month_starts == (forall|j: int|
                0 <= j < i + 1 ==> starts_month(#[trigger] ticks@[j] as int))) by {
                if !all_month_starts && c.day == 1 {
                    let j = choose|j: int| 0 <= j < i && !starts_month(#[trigger] ticks@[j] as int);
                }
            }
            assert(all_year_starts == (forall|j: int|
                0 <= j < i + 1 ==> starts_year(#[trigger] ticks@[j] as int))) by {
                if !all_year_starts && c.day == 1 && c.month == 1 {
                    let j = choose|j: int| 0 <= j < i && !starts_year(#[trigger] ticks@[j] as int);
                }
            }
        }
        i = i + 1;
    }
    if all_year_starts {
        Some("%Y")
    } else if all_month_starts {
        Some("%Y-%m")
    } else {
        Some("%Y-%m-%d")
    }
}

// ---------------------------------------------------------------------------
// Labels
// ---------------------------------------------------------------------------

/// A temporal label format: a named preset or a custom strftime pattern.
#[derive(Debug, Clone, PartialEq, Eq)]
pub enum TemporalFormat {
    IsoDate,
    IsoMinute,
    IsoSecond,
    IsoMillis,
    Rfc3339,
    Year,
    Month,
    MonthDay,
    TimeMinute,
    TimeSecond,
    Custom(String),
}

/// The strftime pattern of a label format; without one, dates read
/// `%Y-%m-%d` and date-times `%Y-%m-%d %H:%M`.
pub open spec fn pattern_of(precision: TemporalPrecision, format: Option<TemporalFormat>) -> Seq<
    char,
> {
    match format {
        Some(TemporalFormat::IsoDate) => "%Y-%m-%d"@,
        Some(TemporalFormat::IsoMinute) => "%Y-%m-%d %H:%M"@,
        Some(TemporalFormat::IsoSecond) => "%Y-%m-%d %H:%M:%S"@,
        Some(TemporalFormat::IsoMillis) => "%Y-%m-%d %H:%M:%S%.3f"@,
        Some(TemporalFormat::Rfc3339) => "%Y-%m-%dT%H:%M:%SZ"@,
        Some(TemporalFormat::Year) => "%Y"@,
        Some(TemporalFormat::Month) => "%Y-%m"@,
        Some(TemporalFormat::MonthDay) => "%b %-d"@,
        Some(TemporalFormat::TimeMinute) => "%H:%M"@,
        Some(TemporalFormat::TimeSecond) => "%H:%M:%S"@,
        Some(TemporalFormat::Custom(pattern)) => pattern@,
        None => match precision {
            TemporalPrecision::Date => "%Y-%m-%d"@,
            TemporalPrecision::DateTime => "%Y-%m-%d %H:%M"@,
        },
    }
}

/// The format an optional reference points at.
pub open spec fn format_value(format: Option<&TemporalFormat>) -> Option<TemporalFormat> {
    match format {
        Some(f) => Some(*f),
        None => None,
    }
}

/// The strftime pattern of a label format.
pub fn temporal_pattern<'a>(precision: TemporalPrecision, format: Option<&'a TemporalFormat>) -> (pattern: &'a str)
    ensures
        pattern@ == pattern_of(precision, format_value(format)),
{
    match format {
        Some(TemporalFormat::IsoDate) => "%Y-%m-%d",
        Some(TemporalFormat::IsoMinute) => "%Y-%m-%d %H:%M",
        Some(TemporalFormat::IsoSecond) => "%Y-%m-%d %H:%M:%S",
        Some(TemporalFormat::IsoMillis) => "%Y-%m-%d %H:%M:%S%.3f",
        Some(TemporalFormat::Rfc3339) => "%Y-%m-%dT%H:%M:%SZ",
        Some(TemporalFormat::Year) => "%Y",
        Some(TemporalFormat::Month) => "%Y-%m",
        Some(TemporalFormat::MonthDay) => "%b %-d",
        Some(TemporalFormat::TimeMinute) => "%H:%M",
        Some(TemporalFormat::TimeSecond) => "%H:%M:%S",
        Some(TemporalFormat::Custom(pattern)) => pattern.as_str(),
        None => match precision {
            TemporalPrecision::Date => "%Y-%m-%d",
            TemporalPrecision::DateTime => "%Y-%m-%d %H:%M",
        },
    }
}

/// The ISO presets all write the ISO calendar date `%Y-%m-%d` (year, month,
/// day, in that order) and then the time of day: the minute preset adds the
/// hour and minute after a space, the second preset adds `:` and the seconds
/// to that, the millisecond preset adds the fraction to that, and RFC 3339
/// writes the date, `T`, the time to the second and `Z`. The date-only
/// presets are prefixes of the ISO date, and a format-less label is the ISO
/// date for dates and the minute preset for date-times.
pub proof fn lemma_iso_presets(precision: TemporalPrecision)
    ensures
        ({
            let iso_date = "%Y-%m-%d"@;
            let date = pattern_of(precision, Some(TemporalFormat::IsoDate));
            let minute = pattern_of(precision, Some(TemporalFormat::IsoMinute));
            let second = pattern_of(precision, Some(TemporalFormat::IsoSecond));
            let millis = pattern_of(precision, Some(TemporalFormat::IsoMillis));
            let rfc = pattern_of(precision, Some(TemporalFormat::Rfc3339));
            let time_minute = pattern_of(precision, Some(TemporalFormat::TimeMinute));
            let time_second = pattern_of(precision, Some(TemporalFormat::TimeSecond));
            &&& iso_date == seq!['%', 'Y', '-', '%', 'm', '-', '%', 'd']
            &&& date == iso_date
            &&& minute == iso_date + seq![' '] + time_minute
            &&& time_minute == seq!['%', 'H', ':', '%', 'M']
            &&& second == minute + seq![':', '%', 'S']
            &&& time_second == time_minute + seq![':', '%', 'S']
            &&& millis == second + seq!['%', '.', '3', 'f']
            &&& rfc == iso_date + seq!['T'] + time_second + seq!['Z']
            &&& pattern_of(precision, Some(TemporalFormat::Year)) == iso_date.subrange(0, 2)
            &&& pattern_of(precision, Some(TemporalFormat::Month)) == iso_date.subrange(0, 5)
            &&& pattern_of(TemporalPrecision::Date, None) == date
            &&& pattern_of(TemporalPrecision::DateTime, None) == minute
        }),
{
    reveal_strlit("%Y-%m-%d");
    reveal_strlit("%Y-%m-%d %H:%M");
    reveal_strlit("%Y-%m-%d %H:%M:%S");
    reveal_strlit("%Y-%m-%d %H:%M:%S%.3f");
    reveal_strlit("%Y-%m-%dT%H:%M:%SZ");
    reveal_strlit("%Y");
    reveal_strlit("%Y-%m");
    reveal_strlit("%H:%M");
    reveal_strlit("%H:%M:%S");
    assert("%Y-%m-%d"@ =~= seq!['%', 'Y', '-', '%', 'm', '-', '%', 'd']);
    assert("%Y-%m-%d %H:%M"@ =~= "%Y-%m-%d"@ + seq![' '] + "%H:%M"@);
    assert("%H:%M"@ =~= seq!['%', 'H', ':', '%', 'M']);
    assert("%Y-%m-%d %H:%M:%S"@ =~= "%Y-%m-%d %H:%M"@ + seq![':', '%', 'S']);
    assert("%H:%M:%S"@ =~= "%H:%M"@ + seq![':', '%', 'S']);
    assert("%Y-%m-%d %H:%M:%S%.3f"@ =~= "%Y-%m-%d %H:%M:%S"@ + seq!['%', '.', '3', 'f']);
    assert("%Y-%m-%dT%H:%M:%SZ"@ =~= "%Y-%m-%d"@ + seq!['T'] + "%H:%M:%S"@ + seq!['Z']);
    assert("%Y"@ =~= "%Y-%m-%d"@.subrange(0, 2));
    assert("%Y-%m"@ =~= "%Y-%m-%d"@.subrange(0, 5));
}

/// The label `chrono` renders for an instant and pattern; empty for an
/// instant it does not represent.
pub open spec fn label_text(micros: int, pattern: Seq<char>) -> Seq<char> {
    match strftime_text(micros, pattern) {
        Some(text) => text,
        None => Seq::empty(),
    }
}

/// Whether `chrono` renders the pattern for a representable instant (it
/// reports an error for malformed patterns).
pub open spec fn renders(micros: int, pattern: Seq<char>) -> bool {
    instant_in_range(micros) ==> strftime_text(micros, pattern) is Some
}

/// Format one instant with a strftime pattern; empty when the instant is
/// out of range.
pub fn format_with_pattern(micros: i64, pattern: &str) -> (label: String)
    requires
        renders(micros as int, pattern@),
    ensures
        label@ == label_text(micros as int, pattern@),
{
    match format_instant(micros, pattern) {
        Some(text) => text,
        None => String::new(),
    }
}

/// Format one instant with a strftime pattern, or `None` when `chrono`
/// reports an error for the pattern.
pub fn try_format_with_pattern(micros: i64, pattern: &str) -> (label: Option<String>)
    ensures
        match label {
            Some(l) => renders(micros as int, pattern@) && l@ == label_text(micros as int, pattern@),
            None => !renders(micros as int, pattern@),
        },
{
    let representable = civil_instant(micros).is_some();
    if representable && format_instant(micros, pattern).is_none() {
        return None;
    }
    Some(format_with_pattern(micros, pattern))
}

/// Format a temporal value with its label format, or by its precision when
/// it has none.
pub fn format_temporal(
    micros: i64,
    precision: TemporalPrecision,
    format: Option<&TemporalFormat>,
) -> (label: String)
    requires
        renders(micros as int, pattern_of(precision, format_value(format))),
    ensures
        label@ == label_text(micros as int, pattern_of(precision, format_value(format))),
{
    format_with_pattern(micros, temporal_pattern(precision, format))
}

/// Format a temporal value, or `None` when `chrono` reports an error for its
/// custom pattern.
pub fn try_format_temporal(
    micros: i64,
    precision: TemporalPrecision,
    format: Option<&TemporalFormat>,
) -> (label: Option<String>)
    ensures
        match label {
            Some(l) => renders(micros as int, pattern_of(precision, format_value(format))) && l@
                == label_text(micros as int, pattern_of(precision, format_value(format))),
            None => !renders(micros as int, pattern_of(precision, format_value(format))),
        },
{
    let pattern = temporal_pattern(precision, format);
    let representable = civil_instant(micros).is_some();
    if representable && format_instant(micros, pattern).is_none() {
        return None;
    }
    Some(format_temporal(micros, precision, format))
}

// ---------------------------------------------------------------------------
// Laws of the tick planners
// ---------------------------------------------------------------------------

/// Away from the bottom of the `i64` range, the clock grid restarts at UTC
/// midnights: its instants are those whose time of day is a multiple of the
/// step.
pub proof fn lemma_clock_grid_anchored_to_midnight(t: int, min: int, step: int)
    requires
        i64::MIN + MICROS_PER_DAY <= min <= t <= i64::MAX,
        step > 0,
    ensures
        on_clock_grid(t, clock_day0(min), step) <==> (t % (MICROS_PER_DAY as int)) % step == 0,
{
    let day_len = MICROS_PER_DAY as int;
    let q = min / day_len;
    lemma_fundamental_div_mod(min, day_len);
    let day0 = q * day_len;
    assert(day0 >= i64::MIN) by (nonlinear_arith)
        requires
            min == day_len * q + min % day_len,
            0 <= min % day_len < day_len,
            min >= i64::MIN + day_len,
            day0 == q * day_len,
    ;
    assert(day0 <= min);
    assert(clock_day0(min) == day0);
    lemma_fundamental_div_mod(t, day_len);
    let qt = t / day_len;
    let rt = t % day_len;
    assert(t - day0 == (qt - q) * day_len + rt) by (nonlinear_arith)
        requires
            t == day_len * qt + rt,
            day0 == q * day_len,
    ;
    lemma_fundamental_div_mod_converse(t - day0, day_len, qt - q, rt);
}

/// The clock ladder's ticks number two to eight, `clock_step(k)` apart.
proof fn lemma_clock_ladder_len(min: int, max: int, k: int)
    requires
        clock_ladder(min, max, k) is Some,
    ensures
        2 <= clock_ladder(min, max, k).unwrap().len() <= 8,
    decreases 16 - k,
{
    if k < 16 && k >= 0 {
        let step = clock_step(k);
        let first = ceil_multiple(min, step);
        let count = multiples_up_to(first, max, step);
        if first <= i64::MAX && !(2 <= count <= 8) {
            lemma_clock_ladder_len(min, max, k + 1);
        }
    }
}

/// Every non-hinted rung of the automatic ladder yields two to eight ticks.
pub proof fn lemma_ladder_rungs_hold_two_to_eight(domain: TemporalDomain)
    requires
        hinted_ticks(domain) is None,
        temporal_ladder(domain) is Some,
    ensures
        2 <= temporal_ladder(domain).unwrap().len() <= 8,
{
    let min = domain.min as int;
    let max = domain.max as int;
    if domain.precision != TemporalPrecision::Date && clock_rung(min, max) is Some {
        lemma_clock_ladder_len(min, max, 0);
    }
}

/// Index-stride thinning keeps at most eight hinted ticks.
pub proof fn lemma_thinning_keeps_at_most_eight(values: Seq<i64>)
    requires
        values.len() > 8,
    ensures
        every_nth(values, (values.len() + 7) as int / 8).len() <= 8,
{
    let len = values.len() as int;
    let stride = (len + 7) / 8;
    lemma_fundamental_div_mod(len + 7, 8);
    lemma_fundamental_div_mod(len + stride - 1, stride);
    assert((len + stride - 1) / stride <= 8) by (nonlinear_arith)
        requires
            stride >= 2,
            8 * stride >= len,
            len + stride - 1 == stride * ((len + stride - 1) / stride) + (len + stride - 1)
                % stride,
            (len + stride - 1) % stride >= 0,
    ;
}

/// Month-grid ticks are ascending month starts whose month index (months
/// since January 1970) is a multiple of the count: "3 months" and "1
/// quarter" both read January, April, July and October.
pub proof fn lemma_month_grid_ticks_are_aligned(ticks: Seq<i64>, min: int, max: int, count: int)
    requires
        count > 0,
        month_grid_result(ticks, min, max, count),
    ensures
        ascending(ticks),
        forall|j: int|
            0 <= j < ticks.len() ==> exists|index: int|
                index % count == 0 && #[trigger] ticks[j] == month_tick(index),
{
    if min <= max && instant_in_range(min) {
        let c = choose|c: CivilInstant|
            civil_fields_of(c, min) && month_run(
                ticks,
                month_grid_origin(c, count),
                count,
                month_grid_skip(month_grid_origin(c, count), min),
                max,
            );
        let origin = month_grid_origin(c, count);
        let skip = month_grid_skip(origin, min);
        let first_index = month_index(c.year as int, c.month as int);
        lemma_fundamental_div_mod(first_index, count);
        assert(origin == (first_index / count) * count) by (nonlinear_arith)
            requires
                first_index == count * (first_index / count) + first_index % count,
                origin == first_index - first_index % count,
        ;
        lemma_fundamental_div_mod_converse(origin, count, first_index / count, 0);
        reveal(run_index);
        assert forall|i: int, j: int| 0 <= i < j < ticks.len() implies ticks[i] < ticks[j] by {
            let a = run_index(origin, count, skip, i);
            let b = run_index(origin, count, skip, j);
            assert(a + count <= b) by (nonlinear_arith)
                requires
                    a == origin + (skip + i) * count,
                    b == origin + (skip + j) * count,
                    i < j,
                    count > 0,
            ;
            lemma_month_starts_increase(a, b);
            assert(ticks[i] == month_tick(a));
            assert(ticks[j] == month_tick(b));
            assert(month_tick(a) < month_tick(b)) by (nonlinear_arith)
                requires
                    month_start_day(b) - month_start_day(a) >= 28 * (b - a),
                    b - a >= count,
                    count > 0,
                    month_tick(a) == month_start_day(a) * 86_400_000_000,
                    month_tick(b) == month_start_day(b) * 86_400_000_000,
            ;
        }
        assert forall|j: int| 0 <= j < ticks.len() implies exists|index: int|
            index % count == 0 && #[trigger] ticks[j] == month_tick(index) by {
            let idx = run_index(origin, count, skip, j);
            assert(ticks[j] == month_tick(idx));
            assert(origin % count == 0);
            lemma_fundamental_div_mod(origin, count);
            assert(idx == (origin / count + skip + j) * count) by (nonlinear_arith)
                requires
                    idx == origin + (skip + j) * count,
                    origin == count * (origin / count),
            ;
            lemma_fundamental_div_mod_converse(idx, count, origin / count + skip + j, 0);
        }
    }
}

/// Year-grid ticks are ascending January firsts of years divisible by the
/// count: "5 years" reads 1995, 2000, 2005.
pub proof fn lemma_year_grid_ticks_are_aligned(ticks: Seq<i64>, min: int, max: int, count: int)
    requires
        count > 0,
        year_grid_result(ticks, min, max, count),
    ensures
        ascending(ticks),
        forall|j: int|
            0 <= j < ticks.len() ==> exists|year: int|
                year % count == 0 && #[trigger] ticks[j] == year_tick(year),
{
    if min <= max && instant_in_range(min) {
        let c = choose|c: CivilInstant|
            civil_fields_of(c, min) && year_run(
                ticks,
                c.year - (c.year as int) % count,
                count,
                year_grid_skip(c.year - (c.year as int) % count, min),
                max,
            );
        let origin = c.year - (c.year as int) % count;
        let skip = year_grid_skip(origin, min);
        lemma_fundamental_div_mod(c.year as int, count);
        assert(origin == ((c.year as int) / count) * count) by (nonlinear_arith)
            requires
                c.year == count * ((c.year as int) / count) + (c.year as int) % count,
                origin == c.year - (c.year as int) % count,
        ;
        lemma_fundamental_div_mod_converse(origin, count, (c.year as int) / count, 0);
        reveal(run_index);
        assert forall|i: int, j: int| 0 <= i < j < ticks.len() implies ticks[i] < ticks[j] by {
            let a = run_index(origin, count, skip, i);
            let b = run_index(origin, count, skip, j);
            assert(a + count <= b) by (nonlinear_arith)
                requires
                    a == origin + (skip + i) * count,
                    b == origin + (skip + j) * count,
                    i < j,
                    count > 0,
            ;
            lemma_month_index_fields(a, 1);
            lemma_month_index_fields(b, 1);
            lemma_month_starts_increase(month_index(a, 1), month_index(b, 1));
            assert(ticks[i] == year_tick(a));
            assert(ticks[j] == year_tick(b));
            assert(year_tick(a) < year_tick(b)) by (nonlinear_arith)
                requires
                    month_start_day(month_index(b, 1)) - month_start_day(month_index(a, 1)) >= 28 * (
                    month_index(b, 1) - month_index(a, 1)),
                    month_index(b, 1) - month_index(a, 1) == 12 * (b - a),
                    b - a >= count,
                    count > 0,
                    year_tick(a) == month_start_day(month_index(a, 1)) * 86_400_000_000,
                    year_tick(b) == month_start_day(month_index(b, 1)) * 86_400_000_000,
            ;
        }
        assert forall|j: int| 0 <= j < ticks.len() implies exists|year: int|
            year % count == 0 && #[trigger] ticks[j] == year_tick(year) by {
            let y = run_index(origin, count, skip, j);
            assert(ticks[j] == year_tick(y));
            lemma_fundamental_div_mod(origin, count);
            assert(y == (origin / count + skip + j) * count) by (nonlinear_arith)
                requires
                    y == origin + (skip + j) * count,
                    origin == count * (origin / count),
            ;
            lemma_fundamental_div_mod_converse(y, count, origin / count + skip + j, 0);
        }
    }
}

/// Promotion multiplies the authored count: the effective count is never
/// below it.
pub proof fn lemma_promotion_keeps_count(
    ticks: Seq<i64>,
    count: int,
    min: int,
    max: int,
    interval: TemporalTickInterval,
)
    requires
        promoted_ticks(ticks, count, min, max, interval),
    ensures
        count >= interval_count(interval),
        ticks.len() <= MAX_INTERVAL_TICKS,
{
    let m = choose|m: int|
        promotion_start(min, max, interval) <= m && count == promoted_count(interval, m)
            && interval_grid_result(ticks, min, max, count, interval.unit) && ticks.len()
            <= MAX_INTERVAL_TICKS && forall|m2: int, r: Seq<i64>|
            promotion_start(min, max, interval) <= m2 < m && #[trigger] interval_grid_result(
                r,
                min,
                max,
                promoted_count(interval, m2),
                interval.unit,
            ) ==> r.len() > MAX_INTERVAL_TICKS;
    let base = interval_count(interval);
    assert(base * m >= base) by (nonlinear_arith)
        requires
            m >= 1,
            base >= 1,
    ;
}

/// Promoted day ticks stay on the epoch day grid: consecutive ticks are
/// exactly the effective count of days apart (when nothing saturates).
pub proof fn lemma_promoted_day_ticks_spacing(
    ticks: Seq<i64>,
    count: int,
    min: int,
    max: int,
    interval: TemporalTickInterval,
)
    requires
        interval.unit == TemporalTickUnit::Day,
        promoted_ticks(ticks, count, min, max, interval),
        i64::MIN <= min <= max,
        max + count * MICROS_PER_DAY <= i64::MAX,
    ensures
        forall|i: int|
            0 <= i && i + 1 < ticks.len() ==> ticks[i + 1] - #[trigger] ticks[i] == count
                * MICROS_PER_DAY,
{
    lemma_promotion_keeps_count(ticks, count, min, max, interval);
    assert(count * MICROS_PER_DAY > 0) by (nonlinear_arith)
        requires
            count >= 1,
    ;
    let step = clamp_i64(count * MICROS_PER_DAY);
    let m = choose|m: int|
        promotion_start(min, max, interval) <= m && count == promoted_count(interval, m)
            && interval_grid_result(ticks, min, max, count, interval.unit) && ticks.len()
            <= MAX_INTERVAL_TICKS && forall|m2: int, r: Seq<i64>|
            promotion_start(min, max, interval) <= m2 < m && #[trigger] interval_grid_result(
                r,
                min,
                max,
                promoted_count(interval, m2),
                interval.unit,
            ) ==> r.len() > MAX_INTERVAL_TICKS;
    assert(epoch_grid_result(ticks, min, max, step, 0));
    lemma_epoch_grid_ticks_are_aligned(ticks, min, max, step, 0);
}

} // verus!
