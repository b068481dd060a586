//! Calendar histogram bins over temporal cells: every instant is assigned to
//! the minute, hour, day, Monday-based week, month, quarter or year that
//! holds it (or, with right-closed bins, the one that ends at it), and the
//! bins between the earliest and the latest instant are counted.

use vstd::prelude::*;
use vstd::arithmetic::div_mod::lemma_div_is_ordered;
use vstd::arithmetic::div_mod::lemma_fundamental_div_mod;
use vstd::arithmetic::div_mod::lemma_fundamental_div_mod_converse;

use crate::calendar::{
    civil_fields_of, days_in_month, lemma_date_within_month, lemma_month_index_fields,
    lemma_month_starts_increase, lemma_next_month_start, month_index, month_start_day,
    shifted_months, CivilInstant, MAX_YEAR, MIN_YEAR,
    add_calendar_months, add_fixed_micros, civil_instant, civil_of, day_micros, day_of,
    days_from_civil, instant_in_range, lemma_civil_of, month_start_micros, months_added,
    months_subtracted, subtract_calendar_months, MAX_DAY, MIN_DAY,
};
use crate::stats::{BinClosed, BinInterval};
use crate::temporal::{
    div_euclid, rem_euclid, TemporalPrecision, MICROS_PER_DAY, MICROS_PER_HOUR,
    MICROS_PER_MINUTE, MICROS_PER_WEEK,
};

verus! {

/// The most bins one histogram lists.
pub const MAX_CALENDAR_BINS: usize = 20_000;

/// One cell of a temporal column: an instant in microseconds since the Unix
/// epoch and whether the column holds dates or date-times.
#[derive(Debug, Clone, Copy, PartialEq, Eq)]
pub struct TemporalCell {
    pub micros: i64,
    pub precision: TemporalPrecision,
}

// ---------------------------------------------------------------------------
// Intervals
// ---------------------------------------------------------------------------

/// The length of a minute, hour, day or week interval in microseconds;
/// months, quarters and years have none.
pub open spec fn fixed_interval_micros(interval: BinInterval) -> Option<int> {
    match interval {
        BinInterval::Minute => Some(60_000_000),
        BinInterval::Hour => Some(3_600_000_000),
        BinInterval::Day => Some(86_400_000_000),
        BinInterval::Week => Some(604_800_000_000),
        _ => None,
    }
}

/// The number of calendar months of a month, quarter or year interval.
pub open spec fn interval_months(interval: BinInterval) -> int {
    match interval {
        BinInterval::Quarter => 3,
        BinInterval::Year => 12,
        _ => 1,
    }
}

/// The day number of the Monday that starts the week holding day `day`
/// (1970-01-01 was a Thursday).
pub open spec fn monday_of(day: int) -> int {
    day - (day + 3) % 7
}

/// The first month of the quarter holding `month`.
pub open spec fn quarter_month(month: int) -> int {
    ((month - 1) / 3) * 3 + 1
}

/// The start of the interval that holds an instant: the instant truncated
/// to its minute, hour or day; midnight of the Monday of its week (none when
/// that Monday is before the first representable day); or midnight of the
/// first day of its month, quarter or year. Out-of-range instants have none.
pub open spec fn interval_floor(micros: int, interval: BinInterval) -> Option<int> {
    if !instant_in_range(micros) {
        None
    } else {
        let c = civil_of(micros);
        match interval {
            BinInterval::Minute => Some(micros - micros % 60_000_000),
            BinInterval::Hour => Some(micros - micros % 3_600_000_000),
            BinInterval::Day => Some(day_of(micros) * day_micros()),
            BinInterval::Week => if monday_of(day_of(micros)) >= MIN_DAY {
                Some(monday_of(day_of(micros)) * day_micros())
            } else {
                None
            },
            BinInterval::Month => Some(
                days_from_civil(c.year as int, c.month as int, 1) * day_micros(),
            ),
            BinInterval::Quarter => Some(
                days_from_civil(c.year as int, quarter_month(c.month as int), 1) * day_micros(),
            ),
            BinInterval::Year => Some(days_from_civil(c.year as int, 1, 1) * day_micros()),
        }
    }
}

/// The start of the next interval: a fixed length later, or the same point
/// of the next month, quarter or year.
pub open spec fn next_bin_start(micros: int, interval: BinInterval) -> Option<int> {
    match fixed_interval_micros(interval) {
        Some(len) => if instant_in_range(micros) && instant_in_range(micros + len) {
            Some(micros + len)
        } else {
            None
        },
        None => months_added(micros, interval_months(interval)),
    }
}

/// The start of the previous interval.
pub open spec fn previous_bin_start(micros: int, interval: BinInterval) -> Option<int> {
    match fixed_interval_micros(interval) {
        Some(len) => if instant_in_range(micros) && instant_in_range(micros - len) {
            Some(micros - len)
        } else {
            None
        },
        None => months_subtracted(micros, interval_months(interval)),
    }
}

/// Every instant within range is at least the first instant of its first
/// day and before the day after its last.
proof fn lemma_range_bounds(micros: int)
    requires
        instant_in_range(micros),
    ensures
        MIN_DAY * day_micros() <= micros < (MAX_DAY + 1) * day_micros(),
        i64::MIN + 604_800_000_000 < micros < i64::MAX - 604_800_000_000,
{
    lemma_fundamental_div_mod(micros, day_micros());
}

/// Every instant between the first instant of the first day and the last
/// day's end is in range.
proof fn lemma_bounds_in_range(micros: int)
    requires
        MIN_DAY * day_micros() <= micros < (MAX_DAY + 1) * day_micros(),
    ensures
        instant_in_range(micros),
{
    lemma_fundamental_div_mod(micros, day_micros());
}

/// Truncating an instant to a length that divides a day keeps it in range.
proof fn lemma_floor_stays_in_range(micros: int, len: int, per_day: int)
    requires
        instant_in_range(micros),
        len > 0,
        per_day > 0,
        len * per_day == day_micros(),
    ensures
        instant_in_range(micros - micros % len),
{
    lemma_range_bounds(micros);
    lemma_fundamental_div_mod(micros, day_micros());
    lemma_fundamental_div_mod(micros, len);
    let q = day_of(micros) * per_day;
    assert(day_of(micros) * day_micros() == len * q) by (nonlinear_arith)
        requires
            len * per_day == day_micros(),
            q == day_of(micros) * per_day,
    ;
    assert(len * q == q * len) by (nonlinear_arith);
    lemma_fundamental_div_mod_converse(len * q, len, q, 0);
    lemma_div_is_ordered(len * q, micros, len);
    assert(len * q <= len * (micros / len)) by (nonlinear_arith)
        requires
            len > 0,
            q <= micros / len,
    ;
    lemma_bounds_in_range(micros - micros % len);
}

fn fixed_interval_micros_of(interval: BinInterval) -> (len: Option<i64>)
    ensures
        match fixed_interval_micros(interval) {
            Some(l) => len == Some(l as i64),
            None => len is None,
        },
{
    match interval {
        BinInterval::Minute => Some(MICROS_PER_MINUTE),
        BinInterval::Hour => Some(MICROS_PER_HOUR),
        BinInterval::Day => Some(MICROS_PER_DAY),
        BinInterval::Week => Some(MICROS_PER_WEEK),
        _ => None,
    }
}

fn interval_months_of(interval: BinInterval) -> (months: u32)
    ensures
        months == interval_months(interval),
{
    match interval {
        BinInterval::Quarter => 3,
        BinInterval::Year => 12,
        _ => 1,
    }
}

/// The start of the interval that holds `micros`.
pub fn floor_interval(micros: i64, interval: BinInterval) -> (start: Option<i64>)
    ensures
        match start {
            Some(s) => interval_floor(micros as int, interval) == Some(s as int) && instant_in_range(
                s as int,
            ),
            None => interval_floor(micros as int, interval) is None,
        },
{
    let c = civil_instant(micros)?;
    proof {
        lemma_civil_of(c, micros as int);
        lemma_range_bounds(micros as int);
    }
    match interval {
        BinInterval::Minute => {
            proof {
                lemma_floor_stays_in_range(micros as int, 60_000_000, 1440);
            }
            Some(micros - rem_euclid(micros, MICROS_PER_MINUTE))
        },
        BinInterval::Hour => {
            proof {
                lemma_floor_stays_in_range(micros as int, 3_600_000_000, 24);
            }
            Some(micros - rem_euclid(micros, MICROS_PER_HOUR))
        },
        BinInterval::Day => {
            proof {
                lemma_fundamental_div_mod(micros as int, day_micros());
                lemma_floor_stays_in_range(micros as int, day_micros(), 1);
            }
            Some(micros - rem_euclid(micros, MICROS_PER_DAY))
        },
        BinInterval::Week => {
            let day = div_euclid(micros, MICROS_PER_DAY);
            let monday = day - rem_euclid(day + 3, 7);
            if monday < MIN_DAY {
                return None;
            }
            proof {
                assert(MIN_DAY * day_micros() <= monday * day_micros() <= MAX_DAY * day_micros())
                    by (nonlinear_arith)
                    requires
                        MIN_DAY <= monday <= MAX_DAY,
                ;
                lemma_bounds_in_range(monday * day_micros());
            }
            Some(monday * MICROS_PER_DAY)
        },
        BinInterval::Month => month_start_micros(c.year, c.month),
        BinInterval::Quarter => month_start_micros(c.year, ((c.month - 1) / 3) * 3 + 1),
        BinInterval::Year => month_start_micros(c.year, 1),
    }
}

/// The start of the interval after the one starting at `micros`.
pub fn add_interval(micros: i64, interval: BinInterval) -> (next: Option<i64>)
    ensures
        match next {
            Some(n) => next_bin_start(micros as int, interval) == Some(n as int) && instant_in_range(
                n as int,
            ),
            None => next_bin_start(micros as int, interval) is None,
        },
{
    match fixed_interval_micros_of(interval) {
        Some(len) => add_fixed_micros(micros, len),
        None => add_calendar_months(micros, interval_months_of(interval)),
    }
}

/// The start of the interval before the one starting at `micros`.
pub fn previous_interval(micros: i64, interval: BinInterval) -> (previous: Option<i64>)
    ensures
        match previous {
            Some(p) => previous_bin_start(micros as int, interval) == Some(p as int)
                && instant_in_range(p as int),
            None => previous_bin_start(micros as int, interval) is None,
        },
{
    match fixed_interval_micros_of(interval) {
        Some(len) => add_fixed_micros(micros, -len),
        None => subtract_calendar_months(micros, interval_months_of(interval)),
    }
}

// ---------------------------------------------------------------------------
// The domain of a temporal column
// ---------------------------------------------------------------------------

/// The earliest and latest instant of the present cells, and the column's
/// precision: date-time as soon as one cell is a date-time. No present cell
/// gives no domain.
pub open spec fn cells_domain(cells: Seq<Option<TemporalCell>>) -> Option<
    (int, int, TemporalPrecision),
>
    decreases cells.len(),
{
    if cells.len() == 0 {
        None
    } else {
        let rest = cells_domain(cells.drop_last());
        match cells.last() {
            None => rest,
            Some(c) => match rest {
                None => Some((c.micros as int, c.micros as int, c.precision)),
                Some((lo, hi, p)) => Some(
                    (
                        if c.micros < lo {
                            c.micros as int
                        } else {
                            lo
                        },
                        if c.micros > hi {
                            c.micros as int
                        } else {
                            hi
                        },
                        if c.precision == TemporalPrecision::DateTime {
                            TemporalPrecision::DateTime
                        } else {
                            p
                        },
                    ),
                ),
            },
        }
    }
}

/// The earliest and latest instant of a temporal column and its precision.
pub fn temporal_domain(cells: &[Option<TemporalCell>]) -> (domain: Option<
    (i64, i64, TemporalPrecision),
>)
    ensures
        match domain {
            Some((lo, hi, p)) => cells_domain(cells@) == Some((lo as int, hi as int, p)),
            None => cells_domain(cells@) is None,
        },
{
    let mut min: i64 = i64::MAX;
    let mut max: i64 = i64::MIN;
    let mut precision = TemporalPrecision::Date;
    let mut seen = false;
    let mut i: usize = 0;
    while i < cells.len()
        invariant
            i <= cells@.len(),
            seen ==> cells_domain(cells@.take(i as int)) == Some(
                (min as int, max as int, precision),
            ),
            !seen ==> cells_domain(cells@.take(i as int)) is None,
        decreases cells@.len() - i,
    {
        assert(cells@.take(i + 1).drop_last() =~= cells@.take(i as int));
        if let Some(c) = cells[i] {
            if !seen {
                min = c.micros;
                max = c.micros;
                precision = c.precision;
            } else {
                if c.micros < min {
                    min = c.micros;
                }
                if c.micros > max {
                    max = c.micros;
                }
                if c.precision == TemporalPrecision::DateTime {
                    precision = TemporalPrecision::DateTime;
                }
            }
            seen = true;
        }
        i = i + 1;
    }
    assert(cells@.take(cells@.len() as int) =~= cells@);
    if seen {
        Some((min, max, precision))
    } else {
        None
    }
}

// ---------------------------------------------------------------------------
// Bin starts
// ---------------------------------------------------------------------------

/// The bin an instant is counted in: the start of the interval holding it
/// (`first` when there is none), except that with right-closed bins an
/// instant exactly on a start later than `first` closes the previous bin.
pub open spec fn bin_of(micros: int, first: int, interval: BinInterval, closed: BinClosed) -> int {
    let s = match interval_floor(micros, interval) {
        Some(s) => s,
        None => first,
    };
    if closed == BinClosed::Right && micros == s && micros > first {
        match previous_bin_start(s, interval) {
            Some(p) => p,
            None => s,
        }
    } else {
        s
    }
}

/// The starts from `cursor` up to `last`, interval by interval, at most
/// `remaining` of them; the run stops where the next start cannot be formed
/// or does not move forward.
pub open spec fn bin_starts_from(cursor: int, last: int, interval: BinInterval, remaining: nat) -> Seq<
    int,
>
    decreases remaining,
{
    if remaining == 0 || cursor > last {
        Seq::empty()
    } else {
        let rest = match next_bin_start(cursor, interval) {
            Some(n) => if n > cursor {
                bin_starts_from(n, last, interval, (remaining - 1) as nat)
            } else {
                Seq::empty()
            },
            None => Seq::empty(),
        };
        seq![cursor] + rest
    }
}

/// The bin starts of a domain whose earliest instant falls in the interval
/// starting at `first` and whose latest instant is `max`; never empty.
pub open spec fn bin_starts(first: int, max: int, interval: BinInterval, closed: BinClosed) -> Seq<
    int,
> {
    let run = bin_starts_from(
        first,
        bin_of(max, first, interval, closed),
        interval,
        MAX_CALENDAR_BINS as nat,
    );
    if run.len() == 0 {
        seq![first]
    } else {
        run
    }
}

/// A sequence of microsecond values as integers.
pub open spec fn ints(s: Seq<i64>) -> Seq<int> {
    s.map_values(|x: i64| x as int)
}

/// Whether a sequence strictly increases.
pub open spec fn strictly_increasing(s: Seq<int>) -> bool {
    forall|i: int, j: int| 0 <= i < j < s.len() ==> s[i] < s[j]
}

/// A run of starts strictly increases and begins at its cursor.
pub proof fn lemma_bin_starts_from_increase(
    cursor: int,
    last: int,
    interval: BinInterval,
    remaining: nat,
)
    ensures
        strictly_increasing(bin_starts_from(cursor, last, interval, remaining)),
        bin_starts_from(cursor, last, interval, remaining).len() <= remaining,
        forall|i: int|
            0 <= i < bin_starts_from(cursor, last, interval, remaining).len() ==> cursor <= (
            #[trigger] bin_starts_from(cursor, last, interval, remaining)[i]) <= last,
    decreases remaining,
{
    if remaining > 0 && cursor <= last {
        match next_bin_start(cursor, interval) {
            Some(n) => if n > cursor {
                lemma_bin_starts_from_increase(n, last, interval, (remaining - 1) as nat);
            },
            None => {},
        }
    }
}

/// The bin starts strictly increase, and there are at most
/// `MAX_CALENDAR_BINS` of them.
pub proof fn lemma_bin_starts_increase(
    first: int,
    max: int,
    interval: BinInterval,
    closed: BinClosed,
)
    ensures
        strictly_increasing(bin_starts(first, max, interval, closed)),
        1 <= bin_starts(first, max, interval, closed).len() <= MAX_CALENDAR_BINS,
        bin_starts(first, max, interval, closed)[0] == first,
{
    lemma_bin_starts_from_increase(
        first,
        bin_of(max, first, interval, closed),
        interval,
        MAX_CALENDAR_BINS as nat,
    );
}

fn bin_start_of(micros: i64, first: i64, interval: BinInterval, closed: BinClosed) -> (start: i64)
    ensures
        start == bin_of(micros as int, first as int, interval, closed),
{
    let s = match floor_interval(micros, interval) {
        Some(s) => s,
        None => first,
    };
    if closed == BinClosed::Right && micros == s && micros > first {
        match previous_interval(s, interval) {
            Some(p) => p,
            None => s,
        }
    } else {
        s
    }
}

/// The starts of the bins from `first` through the bin of `max`.
fn calendar_bin_starts(first: i64, max: i64, interval: BinInterval, closed: BinClosed) -> (starts:
    Vec<i64>)
    requires
        instant_in_range(first as int),
    ensures
        ints(starts@) == bin_starts(first as int, max as int, interval, closed),
        forall|k: int| 0 <= k < starts@.len() ==> instant_in_range(#[trigger] starts@[k] as int),
{
    let last = bin_start_of(max, first, interval, closed);
    let ghost total = MAX_CALENDAR_BINS as nat;
    let mut starts: Vec<i64> = Vec::new();
    let mut cursor = first;
    let mut guard: usize = 0;
    assert(ints(starts@) =~= Seq::<int>::empty());
    while cursor <= last && guard < MAX_CALENDAR_BINS
        invariant_except_break
            guard <= MAX_CALENDAR_BINS,
            instant_in_range(cursor as int),
            ints(starts@) + bin_starts_from(
                cursor as int,
                last as int,
                interval,
                (MAX_CALENDAR_BINS - guard) as nat,
            ) == bin_starts_from(first as int, last as int, interval, total),
        invariant
            instant_in_range(first as int),
            forall|k: int| 0 <= k < starts@.len() ==> instant_in_range(#[trigger] starts@[k] as int),
        ensures
            ints(starts@) == bin_starts_from(first as int, last as int, interval, total),
        decreases MAX_CALENDAR_BINS - guard,
    {
        let ghost before = ints(starts@);
        let ghost rem = (MAX_CALENDAR_BINS - guard) as nat;
        starts.push(cursor);
        assert(ints(starts@) =~= before.push(cursor as int));
        let next = match add_interval(cursor, interval) {
            Some(n) => n,
            None => {
                assert(ints(starts@) =~= before + bin_starts_from(
                    cursor as int,
                    last as int,
                    interval,
                    rem,
                ));
                break ;
            },
        };
        if next <= cursor {
            assert(ints(starts@) =~= before + bin_starts_from(
                cursor as int,
                last as int,
                interval,
                rem,
            ));
            break ;
        }
        assert(bin_starts_from(cursor as int, last as int, interval, rem) == seq![cursor as int]
            + bin_starts_from(next as int, last as int, interval, (rem - 1) as nat));
        assert(ints(starts@) + bin_starts_from(next as int, last as int, interval, (rem - 1) as nat)
            =~= before + bin_starts_from(cursor as int, last as int, interval, rem));
        cursor = next;
        guard = guard + 1;
    }
    if starts.len() == 0 {
        starts.push(first);
        assert(ints(starts@) =~= seq![first as int]);
    }
    starts
}

// ---------------------------------------------------------------------------
// Bin ends and centres
// ---------------------------------------------------------------------------

/// The end of the bin starting at `start`: the next start, or `start` itself
/// when there is none.
pub open spec fn bin_end(start: int, interval: BinInterval) -> int {
    match next_bin_start(start, interval) {
        Some(n) => n,
        None => start,
    }
}

/// Half of `x`, rounded toward zero.
pub open spec fn half_toward_zero(x: int) -> int {
    if x >= 0 {
        x / 2
    } else {
        -((-x) / 2)
    }
}

/// The centre of a bin: for dates, midnight of the day half the whole days
/// after the start (none past the last representable day); for date-times,
/// the instant halfway between start and end (none out of range).
pub open spec fn bin_center(start: int, end: int, precision: TemporalPrecision) -> Option<int> {
    match precision {
        TemporalPrecision::Date => {
            let days = day_of(end) - day_of(start);
            let d = day_of(start) + (if days > 0 {
                days
            } else {
                0
            }) / 2;
            if d <= MAX_DAY {
                Some(d * day_micros())
            } else {
                None
            }
        },
        TemporalPrecision::DateTime => {
            let m = start + half_toward_zero(end - start);
            if instant_in_range(m) {
                Some(m)
            } else {
                None
            }
        },
    }
}

/// An optional microsecond value as an optional integer.
pub open spec fn opt_int(o: Option<i64>) -> Option<int> {
    match o {
        Some(v) => Some(v as int),
        None => None,
    }
}

/// The centre of the bin from `start` to `end` at the column's precision.
pub fn midpoint_temporal(start: i64, end: i64, precision: TemporalPrecision) -> (center: Option<
    i64,
>)
    requires
        instant_in_range(start as int),
        instant_in_range(end as int),
    ensures
        opt_int(center) == bin_center(start as int, end as int, precision),
{
    proof {
        lemma_range_bounds(start as int);
        lemma_range_bounds(end as int);
        lemma_fundamental_div_mod(start as int, day_micros());
        lemma_fundamental_div_mod(end as int, day_micros());
    }
    match precision {
        TemporalPrecision::Date => {
            let start_day = div_euclid(start, MICROS_PER_DAY);
            let end_day = div_euclid(end, MICROS_PER_DAY);
            let days = if end_day - start_day > 0 {
                end_day - start_day
            } else {
                0
            };
            let d = start_day + days / 2;
            if d > MAX_DAY {
                return None;
            }
            proof {
                assert(MIN_DAY * day_micros() <= d * day_micros() <= MAX_DAY * day_micros())
                    by (nonlinear_arith)
                    requires
                        MIN_DAY <= d <= MAX_DAY,
                ;
            }
            Some(d * MICROS_PER_DAY)
        },
        TemporalPrecision::DateTime => {
            let diff: i128 = end as i128 - start as i128;
            let half: i128 = if diff >= 0 {
                diff / 2
            } else {
                0 - (0 - diff) / 2
            };
            let m = (start as i128 + half) as i64;
            if civil_instant(m).is_some() {
                Some(m)
            } else {
                None
            }
        },
    }
}

// ---------------------------------------------------------------------------
// Counting
// ---------------------------------------------------------------------------

/// Whether a cell is counted in the bin starting at `start`.
pub open spec fn falls_in(
    cell: Option<TemporalCell>,
    start: int,
    first: int,
    interval: BinInterval,
    closed: BinClosed,
) -> bool {
    match cell {
        Some(c) => instant_in_range(c.micros as int) && bin_of(
            c.micros as int,
            first,
            interval,
            closed,
        ) == start,
        None => false,
    }
}

/// The number of cells counted in the bin starting at `start`.
pub open spec fn bin_count(
    cells: Seq<Option<TemporalCell>>,
    start: int,
    first: int,
    interval: BinInterval,
    closed: BinClosed,
) -> nat
    decreases cells.len(),
{
    if cells.len() == 0 {
        0
    } else {
        bin_count(cells.drop_last(), start, first, interval, closed) + if falls_in(
            cells.last(),
            start,
            first,
            interval,
            closed,
        ) {
            1nat
        } else {
            0nat
        }
    }
}

/// Whether a cell is counted in one of the listed bins.
pub open spec fn binned(
    cell: Option<TemporalCell>,
    starts: Seq<int>,
    first: int,
    interval: BinInterval,
    closed: BinClosed,
) -> bool {
    match cell {
        Some(c) => instant_in_range(c.micros as int) && starts.contains(
            bin_of(c.micros as int, first, interval, closed),
        ),
        None => false,
    }
}

/// The number of cells counted in one of the listed bins.
pub open spec fn binned_count(
    cells: Seq<Option<TemporalCell>>,
    starts: Seq<int>,
    first: int,
    interval: BinInterval,
    closed: BinClosed,
) -> nat
    decreases cells.len(),
{
    if cells.len() == 0 {
        0
    } else {
        binned_count(cells.drop_last(), starts, first, interval, closed) + if binned(
            cells.last(),
            starts,
            first,
            interval,
            closed,
        ) {
            1nat
        } else {
            0nat
        }
    }
}

/// The sum of a sequence of counts.
pub open spec fn sum_counts(s: Seq<usize>) -> int
    decreases s.len(),
{
    if s.len() == 0 {
        0
    } else {
        sum_counts(s.drop_last()) + s.last()
    }
}

proof fn lemma_sum_counts_update(s: Seq<usize>, k: int, v: usize)
    requires
        0 <= k < s.len(),
    ensures
        sum_counts(s.update(k, v)) == sum_counts(s) - s[k] + v,
    decreases s.len(),
{
    if k < s.len() - 1 {
        assert(s.update(k, v).drop_last() =~= s.drop_last().update(k, v));
        lemma_sum_counts_update(s.drop_last(), k, v);
    } else {
        assert(s.update(k, v).drop_last() =~= s.drop_last());
    }
}

fn position_of(starts: &Vec<i64>, s: i64) -> (p: Option<usize>)
    ensures
        match p {
            Some(k) => k < starts@.len() && starts@[k as int] == s,
            None => forall|j: int| 0 <= j < starts@.len() ==> starts@[j] != s,
        },
{
    let mut k: usize = 0;
    while k < starts.len()
        invariant
            k <= starts@.len(),
            forall|j: int| 0 <= j < k ==> starts@[j] != s,
        decreases starts@.len() - k,
    {
        if starts[k] == s {
            return Some(k);
        }
        k = k + 1;
    }
    None
}

/// The counts of the listed bins over all cells, and how many cells they
/// hold together.
fn count_cells(
    cells: &[Option<TemporalCell>],
    starts: &Vec<i64>,
    first: i64,
    interval: BinInterval,
    closed: BinClosed,
) -> (result: (Vec<usize>, usize))
    requires
        strictly_increasing(ints(starts@)),
    ensures
        result.0@.len() == starts@.len(),
        forall|k: int|
            0 <= k < starts@.len() ==> result.0@[k] == bin_count(
                cells@,
                starts@[k] as int,
                first as int,
                interval,
                closed,
            ),
        result.1 == binned_count(cells@, ints(starts@), first as int, interval, closed),
        result.1 == sum_counts(result.0@),
{
    let ghost sp = ints(starts@);
    let mut counts: Vec<usize> = Vec::new();
    let mut k: usize = 0;
    while k < starts.len()
        invariant
            k <= starts@.len(),
            counts@.len() == k,
            forall|j: int| 0 <= j < k ==> counts@[j] == 0,
            sum_counts(counts@) == 0,
        decreases starts@.len() - k,
    {
        let ghost before = counts@;
        counts.push(0);
        assert(counts@.drop_last() =~= before);
        k = k + 1;
    }
    let mut total: usize = 0;
    let mut i: usize = 0;
    while i < cells.len()
        invariant
            sp == ints(starts@),
            strictly_increasing(sp),
            i <= cells@.len(),
            counts@.len() == starts@.len(),
            forall|k: int|
                0 <= k < starts@.len() ==> #[trigger] counts@[k] == bin_count(
                    cells@.take(i as int),
                    sp[k],
                    first as int,
                    interval,
                    closed,
                ) && counts@[k] <= i,
            total == binned_count(cells@.take(i as int), sp, first as int, interval, closed),
            total == sum_counts(counts@),
            total <= i,
        decreases cells@.len() - i,
    {
        let ghost prefix = cells@.take(i as int);
        let ghost next = cells@.take(i + 1);
        assert(next.drop_last() =~= prefix);
        assert(next.last() == cells@[i as int]);
        let ghost old_counts = counts@;
        match cells[i] {
            Some(c) => {
                if civil_instant(c.micros).is_some() {
                    let s = bin_start_of(c.micros, first, interval, closed);
                    match position_of(starts, s) {
                        Some(idx) => {
                            let v = counts[idx];
                            counts.set(idx, v + 1);
                            total = total + 1;
                            proof {
                                lemma_sum_counts_update(old_counts, idx as int, (v + 1) as usize);
                                assert(sp[idx as int] == s);
                                assert(sp.contains(s as int));
                                assert forall|k: int| 0 <= k < starts@.len() && k != idx implies sp[k]
                                    != s by {
                                    if k < idx {
                                        assert(sp[k] < sp[idx as int]);
                                    } else {
                                        assert(sp[idx as int] < sp[k]);
                                    }
                                }
                            }
                        },
                        None => {
                            proof {
                                assert forall|k: int| 0 <= k < starts@.len() implies sp[k] != s by {
                                    assert(sp[k] == starts@[k] as int);
                                }
                                assert(!sp.contains(s as int));
                            }
                        },
                    }
                }
            },
            None => {},
        }
        i = i + 1;
    }
    assert(cells@.take(cells@.len() as int) =~= cells@);
    proof {
        assert forall|k: int| 0 <= k < starts@.len() implies #[trigger] counts@[k] == bin_count(
            cells@,
            starts@[k] as int,
            first as int,
            interval,
            closed,
        ) by {
            assert(sp[k] == starts@[k] as int);
        }
    }
    (counts, total)
}

// ---------------------------------------------------------------------------
// Calendar bins
// ---------------------------------------------------------------------------

/// The calendar bins of a temporal column: for each bin its start, end and
/// centre (microseconds), and the number of instants it holds.
#[derive(Debug, Clone, PartialEq, Eq)]
pub struct TemporalBins {
    pub starts: Vec<i64>,
    pub ends: Vec<i64>,
    /// `None` where the centre cannot be represented.
    pub centers: Vec<Option<i64>>,
    pub counts: Vec<usize>,
    /// The number of instants counted in some bin.
    pub total: usize,
    /// The precision of the column: the bins are dates or date-times.
    pub precision: TemporalPrecision,
}

/// The first bin start, the bin starts and the precision of a column's
/// calendar bins; none when the column has no instant, an extreme instant is
/// out of range, or the earliest has no interval start.
pub open spec fn calendar_layout(
    cells: Seq<Option<TemporalCell>>,
    interval: BinInterval,
    closed: BinClosed,
) -> Option<(int, Seq<int>, TemporalPrecision)> {
    match cells_domain(cells) {
        None => None,
        Some((lo, hi, p)) => if instant_in_range(lo) && instant_in_range(hi) {
            match interval_floor(lo, interval) {
                Some(first) => Some((first, bin_starts(first, hi, interval, closed), p)),
                None => None,
            }
        } else {
            None
        },
    }
}

/// What the calendar bins of `cells` are.
#[verifier::opaque]
pub open spec fn calendar_bins_of(
    bins: TemporalBins,
    cells: Seq<Option<TemporalCell>>,
    interval: BinInterval,
    closed: BinClosed,
) -> bool {
    match calendar_layout(cells, interval, closed) {
        None => {
            &&& bins.starts@.len() == 0
            &&& bins.ends@.len() == 0
            &&& bins.centers@.len() == 0
            &&& bins.counts@.len() == 0
            &&& bins.total == 0
        },
        Some((first, starts, p)) => {
            &&& bins.precision == p
            &&& ints(bins.starts@) == starts
            &&& bins.ends@.len() == starts.len()
            &&& bins.centers@.len() == starts.len()
            &&& bins.counts@.len() == starts.len()
            &&& forall|i: int|
                0 <= i < starts.len() ==> #[trigger] bins.ends@[i] == bin_end(starts[i], interval)
            &&& forall|i: int|
                0 <= i < starts.len() ==> opt_int(#[trigger] bins.centers@[i]) == bin_center(
                    starts[i],
                    bin_end(starts[i], interval),
                    p,
                )
            &&& forall|i: int|
                0 <= i < starts.len() ==> #[trigger] bins.counts@[i] == bin_count(
                    cells,
                    starts[i],
                    first,
                    interval,
                    closed,
                )
            &&& bins.total == binned_count(cells, starts, first, interval, closed)
        },
    }
}

/// Bin a temporal column by calendar interval. The bins run from the one
/// holding the earliest instant through the one holding the latest (at most
/// `MAX_CALENDAR_BINS`); each instant is counted in its bin, and right-closed
/// bins count an instant on a bin start in the bin before.
pub fn temporal_calendar_bin(
    cells: &[Option<TemporalCell>],
    interval: BinInterval,
    closed: BinClosed,
) -> (bins: TemporalBins)
    ensures
        calendar_bins_of(bins, cells@, interval, closed),
        strictly_increasing(ints(bins.starts@)),
        bins.total == sum_counts(bins.counts@),
{
    let empty = TemporalBins {
        starts: Vec::new(),
        ends: Vec::new(),
        centers: Vec::new(),
        counts: Vec::new(),
        total: 0,
        precision: TemporalPrecision::Date,
    };
    proof {
        assert(ints(empty.starts@) =~= Seq::<int>::empty());
    }
    let (min, max, precision) = match temporal_domain(cells) {
        Some(d) => d,
        None => {
            proof {
                reveal(calendar_bins_of);
            }
            return empty;
        },
    };
    if civil_instant(min).is_none() || civil_instant(max).is_none() {
        proof {
            reveal(calendar_bins_of);
        }
        return empty;
    }
    let first = match floor_interval(min, interval) {
        Some(f) => f,
        None => {
            proof {
                reveal(calendar_bins_of);
            }
            return empty;
        },
    };
    let starts = calendar_bin_starts(first, max, interval, closed);
    let ghost sp = bin_starts(first as int, max as int, interval, closed);
    proof {
        lemma_bin_starts_increase(first as int, max as int, interval, closed);
        assert forall|k: int| 0 <= k < sp.len() implies instant_in_range(#[trigger] sp[k]) by {
            assert(sp[k] == starts@[k] as int);
        }
    }
    let (counts, total) = count_cells(cells, &starts, first, interval, closed);
    let mut ends: Vec<i64> = Vec::new();
    let mut centers: Vec<Option<i64>> = Vec::new();
    let mut i: usize = 0;
    while i < starts.len()
        invariant
            sp == ints(starts@),
            i <= starts@.len(),
            ends@.len() == i,
            centers@.len() == i,
            forall|k: int| 0 <= k < sp.len() ==> instant_in_range(#[trigger] sp[k]),
            forall|k: int| 0 <= k < i ==> #[trigger] ends@[k] == bin_end(sp[k], interval),
            forall|k: int|
                0 <= k < i ==> opt_int(#[trigger] centers@[k]) == bin_center(
                    sp[k],
                    bin_end(sp[k], interval),
                    precision,
                ),
        decreases starts@.len() - i,
    {
        let start = starts[i];
        assert(sp[i as int] == start as int);
        let end = match add_interval(start, interval) {
            Some(e) => e,
            None => start,
        };
        ends.push(end);
        centers.push(midpoint_temporal(start, end, precision));
        i = i + 1;
    }
    let bins = TemporalBins { starts, ends, centers, counts, total, precision };
    proof {
        reveal(calendar_bins_of);
    }
    bins
}

/// Later months start at most 31 days per month later.
proof fn lemma_month_starts_bounded(i: int, j: int)
    requires
        i <= j,
    ensures
        month_start_day(j) - month_start_day(i) <= 31 * (j - i),
    decreases j - i,
{
    if i < j {
        lemma_month_starts_bounded(i, j - 1);
        lemma_next_month_start(j - 1);
    }
}

/// The calendar fields of midnight starting the first day of a month.
proof fn lemma_month_start_fields(year: i32, month: int, s: int)
    requires
        MIN_YEAR <= year <= MAX_YEAR,
        1 <= month <= 12,
        s == days_from_civil(year as int, month, 1) * day_micros(),
        instant_in_range(s),
    ensures
        civil_of(s).year == year,
        civil_of(s).month == month,
        civil_of(s).day == 1,
        s % day_micros() == 0,
{
    let d = days_from_civil(year as int, month, 1);
    lemma_fundamental_div_mod_converse(s, day_micros(), d, 0);
    lemma_fundamental_div_mod_converse(s, 1_000_000, d * 86_400, 0);
    lemma_month_index_fields(year as int, month);
    lemma_month_index_fields(year as int, 1);
    lemma_month_starts_increase(month_index(year as int, 1), month_index(year as int, month));
    lemma_month_starts_bounded(month_index(year as int, 1), month_index(year as int, month));
    let ordinal = d - days_from_civil(year as int, 1, 1) + 1;
    let c = CivilInstant {
        year,
        month: month as u32,
        day: 1,
        ordinal: ordinal as u32,
        epoch_day: d as i64,
        second_of_day: 0,
        nanosecond: 0,
    };
    assert(civil_fields_of(c, s));
    lemma_civil_of(c, s);
}

/// A calendar interval of `months` months starting at the first day of
/// month `first` of `year` ends after any date of that year whose month is
/// among them.
proof fn lemma_calendar_bin_holds(c: CivilInstant, micros: int, first: int, months: int, n: int)
    requires
        civil_fields_of(c, micros),
        1 <= first <= c.month,
        c.month < first + months,
        1 <= months <= 12,
        first + months <= 13,
        instant_in_range(days_from_civil(c.year as int, first, 1) * day_micros()),
        shifted_months(days_from_civil(c.year as int, first, 1) * day_micros(), months) == Some(n),
    ensures
        days_from_civil(c.year as int, first, 1) * day_micros() <= micros < n,
{
    let y = c.year as int;
    let s = days_from_civil(y, first, 1) * day_micros();
    lemma_month_start_fields(c.year, first, s);
    reveal(shifted_months);
    let total = civil_of(s).year * 12 + civil_of(s).month - 1 + months;
    let ny = total / 12;
    let nm = total % 12 + 1;
    lemma_fundamental_div_mod(total, 12);
    assert(n == days_from_civil(ny, nm, 1) * day_micros());
    lemma_month_index_fields(ny, nm);
    lemma_month_index_fields(y, first);
    lemma_month_index_fields(y, c.month as int);
    assert(month_index(ny, nm) == month_index(y, first) + months);
    lemma_date_within_month(y, c.month as int, c.day as int);
    lemma_month_starts_increase(month_index(y, first), month_index(y, c.month as int));
    lemma_month_starts_increase(month_index(y, c.month as int) + 1, month_index(ny, nm));
    lemma_fundamental_div_mod(micros, day_micros());
    let day = day_of(micros);
    assert(days_from_civil(y, first, 1) <= day);
    assert(day + 1 <= days_from_civil(ny, nm, 1));
    assert(days_from_civil(y, first, 1) * day_micros() <= day * day_micros()) by (nonlinear_arith)
        requires
            days_from_civil(y, first, 1) <= day,
    ;
    assert((day + 1) * day_micros() <= days_from_civil(ny, nm, 1) * day_micros())
        by (nonlinear_arith)
        requires
            day + 1 <= days_from_civil(ny, nm, 1),
    ;
}

/// Every instant lies in its own bin, whatever the interval: the start of
/// its interval is at or before it, and the next interval starts after it.
/// A quarter starts on the first day of January, April, July or October,
/// at most two months before the instant's month.
pub proof fn lemma_instant_in_its_interval(micros: int, c: CivilInstant, interval: BinInterval)
    requires
        civil_fields_of(c, micros),
    ensures
        interval_floor(micros, interval) matches Some(s) ==> s <= micros && (next_bin_start(
            s,
            interval,
        ) matches Some(n) ==> micros < n),
        interval == BinInterval::Quarter && interval_floor(micros, interval) is Some ==> exists|
            q: int,
        |
            (q == 1 || q == 4 || q == 7 || q == 10) && q <= c.month <= q + 2 && interval_floor(
                micros,
                interval,
            ) == Some(#[trigger] days_from_civil(c.year as int, q, 1) * day_micros()),
{
    if interval_floor(micros, interval) is Some {
        lemma_civil_of(c, micros);
        lemma_fundamental_div_mod(micros, 60_000_000);
        lemma_fundamental_div_mod(micros, 3_600_000_000);
        lemma_fundamental_div_mod(micros, day_micros());
        let day = day_of(micros);
        let s = interval_floor(micros, interval)->0;
        match interval {
            BinInterval::Week => {
                let monday = monday_of(day);
                assert(day - 6 <= monday <= day);
                assert(monday * day_micros() <= day * day_micros());
                assert((day + 1) * day_micros() <= (monday + 7) * day_micros());
            },
            BinInterval::Month | BinInterval::Quarter | BinInterval::Year => {
                let mo = c.month as int;
                let first = if interval == BinInterval::Month {
                    mo
                } else if interval == BinInterval::Quarter {
                    quarter_month(mo)
                } else {
                    1
                };
                let k = interval_months(interval);
                assert(first <= mo < first + k && first + k <= 13 && 1 <= first);
                if interval == BinInterval::Quarter {
                    assert(first == 1 || first == 4 || first == 7 || first == 10);
                    assert(first <= mo <= first + 2);
                }
                assert(s == days_from_civil(c.year as int, first, 1) * day_micros());
                lemma_month_index_fields(c.year as int, first);
                lemma_month_index_fields(c.year as int, mo);
                lemma_month_starts_increase(month_index(c.year as int, first), month_index(c.year as int, mo));
                lemma_date_within_month(c.year as int, mo, c.day as int);
                assert(days_from_civil(c.year as int, first, 1) <= day);
                assert(s <= day * day_micros()) by (nonlinear_arith)
                    requires
                        s == days_from_civil(c.year as int, first, 1) * day_micros(),
                        days_from_civil(c.year as int, first, 1) <= day,
                ;
                if next_bin_start(s, interval) is Some {
                    let n = next_bin_start(s, interval)->0;
                    assert(shifted_months(s, k) == Some(n));
                    assert(instant_in_range(s)) by {
                        reveal(shifted_months);
                    }
                    lemma_calendar_bin_holds(c, micros, first, k, n);
                }
            },
            _ => {},
        }
    }
}

/// With left-closed bins of a fixed length (minutes, hours, days, weeks),
/// an instant whose interval has a start lies in the bin it is counted in:
/// at or after the bin's start and before the next start.
pub proof fn lemma_instant_within_its_bin(micros: int, first: int, interval: BinInterval)
    requires
        fixed_interval_micros(interval) is Some,
        interval_floor(micros, interval) is Some,
    ensures
        bin_of(micros, first, interval, BinClosed::Left) <= micros,
        micros < bin_of(micros, first, interval, BinClosed::Left) + fixed_interval_micros(
            interval,
        )->0,
{
    lemma_fundamental_div_mod(micros, 60_000_000);
    lemma_fundamental_div_mod(micros, 3_600_000_000);
    lemma_fundamental_div_mod(micros, day_micros());
    let day = day_of(micros);
    if interval == BinInterval::Week {
        let monday = monday_of(day);
        assert(day - 6 <= monday <= day);
        assert(monday * day_micros() <= day * day_micros());
        assert((day + 1) * day_micros() <= (monday + 7) * day_micros());
    }
}

} // verus!
