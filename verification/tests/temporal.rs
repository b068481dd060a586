use algraf_render::temporal::{
    advance_by_interval, ceil_to_interval, centered_bucket_bounds, clock_interval_ticks,
    daily_ticks, day_anchored_clock_ticks, default_tick_pattern, epoch_grid_ticks,
    format_temporal, format_with_pattern, hinted_temporal_ticks, interval_effective_count,
    interval_ticks, midpoint_micros, month_grid_ticks, retreat_by_interval, temporal_ticks,
    try_format_with_pattern, weekly_ticks, year_grid_ticks, yearly_ticks, TemporalDomain,
    TemporalFormat, TemporalPrecision, TemporalTickInterval, TemporalTickUnit,
    MAX_INTERVAL_TICKS, MICROS_PER_DAY, MICROS_PER_HOUR, MICROS_PER_WEEK,
};
use chrono::{DateTime, Datelike};

fn micros(date: &str) -> i64 {
    let datetime = if date.len() == 10 {
        format!("{date}T00:00:00Z")
    } else {
        format!("{date}Z")
    };
    DateTime::parse_from_rfc3339(&datetime)
        .expect("test timestamp parses")
        .timestamp_micros()
}

fn interval(count: u32, unit: TemporalTickUnit) -> TemporalTickInterval {
    TemporalTickInterval { count, unit }
}

fn dates(ticks: &[i64]) -> Vec<String> {
    ticks
        .iter()
        .map(|tick| format_with_pattern(*tick, "%Y-%m-%d"))
        .collect()
}

fn date_scale(min: &str, max: &str) -> TemporalDomain {
    TemporalDomain::new(micros(min), micros(max), TemporalPrecision::Date)
}

/// Quarter and 3-month cadences share the epoch month grid, so both land
/// on January/April/July/October regardless of where the domain starts.
#[test]
fn quarterly_interval_ticks_land_on_calendar_quarters() {
    let min = micros("2022-05-21");
    let max = micros("2025-09-15");
    let months = interval_ticks(min, max, interval(3, TemporalTickUnit::Month));
    let quarters = interval_ticks(min, max, interval(1, TemporalTickUnit::Quarter));
    assert_eq!(months, quarters);
    assert_eq!(dates(&months)[0], "2022-07-01");
    assert_eq!(dates(&months).last().unwrap(), "2025-07-01");
    assert!(dates(&months)
        .iter()
        .all(|date| ["-01-01", "-04-01", "-07-01", "-10-01"]
            .iter()
            .any(|suffix| date.ends_with(suffix))));
}

/// Week ticks anchor to the ISO Monday grid, not the domain start.
#[test]
fn weekly_interval_ticks_anchor_to_monday() {
    let ticks = interval_ticks(
        micros("2025-02-19"),
        micros("2025-03-19"),
        interval(1, TemporalTickUnit::Week),
    );
    assert_eq!(
        dates(&ticks),
        ["2025-02-24", "2025-03-03", "2025-03-10", "2025-03-17"]
    );
}

/// Year steps land on years divisible by the count.
#[test]
fn multi_year_interval_ticks_use_divisible_years() {
    let ticks = interval_ticks(
        micros("1997-06-01"),
        micros("2013-02-01"),
        interval(5, TemporalTickUnit::Year),
    );
    assert_eq!(dates(&ticks), ["2000-01-01", "2005-01-01", "2010-01-01"]);
}

/// Clock steps restart at midnight, so 6-hour ticks always read
/// 00/06/12/18 even when the domain starts mid-afternoon.
#[test]
fn clock_interval_ticks_anchor_to_midnight() {
    let ticks = interval_ticks(
        micros("2025-03-01T15:30:00"),
        micros("2025-03-02T13:00:00"),
        interval(6, TemporalTickUnit::Hour),
    );
    let labels: Vec<String> = ticks
        .iter()
        .map(|tick| format_with_pattern(*tick, "%d %H:%M"))
        .collect();
    assert_eq!(labels, ["01 18:00", "02 00:00", "02 06:00", "02 12:00"]);
}

/// A cadence far over the budget promotes the step by an integer multiple
/// on the same grid instead of index-thinning.
#[test]
fn interval_ticks_promote_step_over_budget() {
    let min = micros("2020-01-01");
    let max = micros("2025-01-01");
    let ticks = interval_ticks(min, max, interval(1, TemporalTickUnit::Day));
    assert!(ticks.len() <= MAX_INTERVAL_TICKS);
    assert!(ticks.len() >= 2);
    let effective = interval_effective_count(min, max, interval(1, TemporalTickUnit::Day));
    assert!(effective > 1, "five years of daily ticks must promote");
    for pair in ticks.windows(2) {
        assert_eq!(pair[1] - pair[0], effective * MICROS_PER_DAY);
    }
}

/// An 18-month domain produces month-grid ticks.
#[test]
fn ladder_covers_eighteen_month_spans_with_calendar_ticks() {
    let scale = date_scale("2024-01-15", "2025-07-15");
    let ticks = temporal_ticks(&scale);
    assert!((2..=8).contains(&ticks.len()));
    for date in dates(&ticks) {
        assert!(date.ends_with("-01"), "{date} is not a month start");
    }
}

/// Multi-year spans get multi-month strides on the epoch month grid.
#[test]
fn ladder_uses_multi_month_strides_for_three_year_spans() {
    let scale = date_scale("2022-05-21", "2025-09-15");
    let ticks = temporal_ticks(&scale);
    assert!((4..=8).contains(&ticks.len()), "got {}", ticks.len());
    assert!(dates(&ticks)
        .iter()
        .all(|date| date.ends_with("-01-01") || date.ends_with("-07-01")));
}

/// Two-month spans get Monday-anchored weekly ticks.
#[test]
fn ladder_uses_monday_weeks_for_two_month_spans() {
    let scale = date_scale("2025-01-04", "2025-03-04");
    let ticks = temporal_ticks(&scale);
    assert!((2..=8).contains(&ticks.len()));
    for tick in &ticks {
        let weekday = DateTime::from_timestamp_micros(*tick)
            .expect("tick is a valid instant")
            .date_naive()
            .weekday();
        assert_eq!(weekday, chrono::Weekday::Mon);
    }
}

/// A century-long span stays on calendar year boundaries.
#[test]
fn ladder_covers_century_spans_with_year_ticks() {
    let scale = date_scale("1925-03-01", "2025-03-01");
    let ticks = temporal_ticks(&scale);
    assert!((2..=8).contains(&ticks.len()));
    for date in dates(&ticks) {
        assert!(date.ends_with("-01-01"), "{date} is not a year start");
    }
}

/// Default labels adapt to tick granularity.
#[test]
fn default_tick_pattern_adapts_to_granularity() {
    let years = [micros("2023-01-01"), micros("2024-01-01")];
    let months = [micros("2024-01-01"), micros("2024-04-01")];
    let days = [micros("2024-01-01"), micros("2024-01-15")];
    let clock = [micros("2024-01-01T06:00:00"), micros("2024-01-01T12:00:00")];
    assert_eq!(default_tick_pattern(&years), Some("%Y"));
    assert_eq!(default_tick_pattern(&months), Some("%Y-%m"));
    assert_eq!(default_tick_pattern(&days), Some("%Y-%m-%d"));
    assert_eq!(default_tick_pattern(&clock), None);
}

/// Explicit interval ticks bypass index-stride thinning.
#[test]
fn exact_ticks_skip_index_stride_thinning() {
    let mut scale = date_scale("2022-05-21", "2025-09-15");
    let ticks = interval_ticks(scale.min, scale.max, interval(3, TemporalTickUnit::Month));
    let expected = ticks.len();
    assert!(
        expected > 8,
        "quarterly over 3.4 years exceeds the auto budget"
    );
    scale.tick_values = ticks;
    scale.tick_span = Some((scale.min, scale.max));
    scale.exact_ticks = true;
    assert_eq!(temporal_ticks(&scale).len(), expected);
}

// ---------------------------------------------------------------------------
// Further cases
// ---------------------------------------------------------------------------

#[test]
fn ceil_to_interval_rounds_up_to_multiples() {
    assert_eq!(ceil_to_interval(0, 1_000), Some(0));
    assert_eq!(ceil_to_interval(1, 1_000), Some(1_000));
    assert_eq!(ceil_to_interval(-1, 1_000), Some(0));
    assert_eq!(ceil_to_interval(-1_001, 1_000), Some(-1_000));
    assert_eq!(ceil_to_interval(i64::MAX, 1_000), None);
}

#[test]
fn clock_ladder_picks_the_finest_fitting_step() {
    let min = micros("2024-05-01T10:07:00");
    let max = min + 3 * MICROS_PER_HOUR;
    let ticks = clock_interval_ticks(min, max).expect("a rung fits three hours");
    assert!((2..=8).contains(&ticks.len()));
    let step = ticks[1] - ticks[0];
    assert_eq!(step, 30 * 60 * 1_000_000);
    assert!(ticks.iter().all(|t| *t >= min && *t <= max && t % step == 0));
    assert_eq!(clock_interval_ticks(max, min), None);
    assert_eq!(clock_interval_ticks(i64::MIN, i64::MAX), None);
}

#[test]
fn midpoint_rounds_toward_zero_without_overflow() {
    assert_eq!(midpoint_micros(0, 10), 5);
    assert_eq!(midpoint_micros(0, 11), 5);
    assert_eq!(midpoint_micros(-11, 0), -5);
    assert_eq!(midpoint_micros(i64::MAX, i64::MAX), i64::MAX);
    assert_eq!(midpoint_micros(i64::MIN, i64::MAX), 0);
}

#[test]
fn epoch_grid_ticks_follow_the_phase() {
    let ticks = epoch_grid_ticks(10, 100, 25, 5);
    assert_eq!(ticks, vec![30, 55, 80]);
    assert!(epoch_grid_ticks(10, 5, 25, 0).is_empty());
    assert!(epoch_grid_ticks(10, 100, 0, 0).is_empty());
    let capped = epoch_grid_ticks(0, 1_000, 1, 0);
    assert_eq!(capped.len(), MAX_INTERVAL_TICKS + 1);
}

#[test]
fn epoch_grid_ticks_repeat_the_saturated_last_instant() {
    let ticks = epoch_grid_ticks(i64::MAX - 10, i64::MAX, 100, 0);
    assert_eq!(ticks.len(), MAX_INTERVAL_TICKS + 1);
    assert_eq!(ticks[0], i64::MAX - 7);
    assert!(ticks[1..].iter().all(|t| *t == i64::MAX));
}

#[test]
fn day_anchored_ticks_restart_each_midnight() {
    let min = micros("2025-03-01T20:00:00");
    let max = micros("2025-03-02T09:00:00");
    let ticks = day_anchored_clock_ticks(min, max, 7 * MICROS_PER_HOUR);
    let labels: Vec<String> = ticks
        .iter()
        .map(|t| format_with_pattern(*t, "%d %H:%M"))
        .collect();
    assert_eq!(labels, ["01 21:00", "02 00:00", "02 07:00"]);
}

#[test]
fn month_and_year_grids_align_to_their_counts() {
    let min = micros("2023-02-10");
    let max = micros("2024-02-10");
    let months = month_grid_ticks(min, max, 4);
    assert_eq!(dates(&months), ["2023-05-01", "2023-09-01", "2024-01-01"]);
    let years = year_grid_ticks(micros("1999-03-01"), micros("2031-01-01"), 10);
    assert_eq!(dates(&years), ["2000-01-01", "2010-01-01", "2020-01-01", "2030-01-01"]);
    assert!(month_grid_ticks(min, max, 0).is_empty());
    assert!(year_grid_ticks(max, min, 1).is_empty());
}

#[test]
fn daily_rung_strides_whole_days() {
    let min = micros("2024-03-01");
    let max = micros("2024-03-20");
    let ticks = daily_ticks(min, max).expect("nineteen days fit the daily rung");
    assert_eq!(ticks[1] - ticks[0], 3 * MICROS_PER_DAY);
    assert_eq!(dates(&ticks)[0], "2024-03-01");
    assert!(daily_ticks(min, min).is_none());
    assert!(daily_ticks(min, micros("2024-05-01")).is_none());
}

#[test]
fn weekly_rung_needs_two_to_twenty_weeks() {
    assert!(weekly_ticks(micros("2024-03-01"), micros("2024-03-05")).is_none());
    let ticks = weekly_ticks(micros("2024-03-01"), micros("2024-04-20")).expect("weeks fit");
    assert!(ticks.windows(2).all(|p| p[1] - p[0] == MICROS_PER_WEEK));
}

#[test]
fn yearly_rung_starts_at_the_first_whole_year() {
    let ticks = yearly_ticks(micros("2001-06-01"), micros("2006-06-01")).expect("years fit");
    assert_eq!(
        dates(&ticks),
        ["2002-01-01", "2003-01-01", "2004-01-01", "2005-01-01", "2006-01-01"]
    );
}

#[test]
fn hinted_ticks_thin_by_a_regular_stride() {
    let mut domain = TemporalDomain::new(0, 1_000, TemporalPrecision::DateTime);
    domain.tick_values = (0..=20).map(|i| i * 50).collect();
    domain.tick_span = Some((0, 1_000));
    let ticks = hinted_temporal_ticks(&domain).expect("hints apply");
    assert_eq!(ticks, vec![0, 150, 300, 450, 600, 750, 900]);
    domain.tick_span = Some((0, 999));
    assert_eq!(hinted_temporal_ticks(&domain), None);
}

#[test]
fn equal_spacing_is_the_last_resort() {
    let domain = TemporalDomain::new(0, 100, TemporalPrecision::Date);
    assert_eq!(temporal_ticks(&domain), vec![0, 20, 40, 60, 80, 100]);
    let widened = TemporalDomain::new(7, 7, TemporalPrecision::Date);
    assert_eq!((widened.min, widened.max), (6, 8));
}

#[test]
fn retreating_undoes_advancing_for_fixed_units() {
    let start = micros("2024-02-29T12:00:00");
    let step = interval(3, TemporalTickUnit::Hour);
    let next = advance_by_interval(start, step).unwrap();
    assert_eq!(next - start, 3 * MICROS_PER_HOUR);
    assert_eq!(retreat_by_interval(next, step), Some(start));
    let zero = interval(0, TemporalTickUnit::Day);
    assert_eq!(advance_by_interval(start, zero), Some(start + MICROS_PER_DAY));
}

#[test]
fn calendar_months_clamp_to_the_month_end() {
    let start = micros("2024-01-31");
    let next = advance_by_interval(start, interval(1, TemporalTickUnit::Month)).unwrap();
    assert_eq!(dates(&[next]), ["2024-02-29"]);
    let previous = retreat_by_interval(start, interval(1, TemporalTickUnit::Quarter)).unwrap();
    assert_eq!(dates(&[previous]), ["2023-10-31"]);
    assert_eq!(advance_by_interval(i64::MAX, interval(1, TemporalTickUnit::Second)), None);
}

#[test]
fn buckets_center_on_their_anchor() {
    let anchor = micros("2024-06-15");
    let (lo, hi) = centered_bucket_bounds(anchor, interval(1, TemporalTickUnit::Day)).unwrap();
    assert_eq!(anchor - lo, MICROS_PER_DAY / 2);
    assert_eq!(hi - anchor, MICROS_PER_DAY / 2);
}

#[test]
fn labels_follow_format_or_precision() {
    let at = micros("2024-07-04T09:05:00");
    assert_eq!(format_temporal(at, TemporalPrecision::Date, None), "2024-07-04");
    assert_eq!(format_temporal(at, TemporalPrecision::DateTime, None), "2024-07-04 09:05");
    assert_eq!(
        format_temporal(at, TemporalPrecision::Date, Some(&TemporalFormat::MonthDay)),
        "Jul 4"
    );
    let custom = TemporalFormat::Custom("%Y/%m".to_string());
    assert_eq!(format_temporal(at, TemporalPrecision::Date, Some(&custom)), "2024/07");
    assert_eq!(format_with_pattern(i64::MAX, "%Y"), "");
    assert_eq!(try_format_with_pattern(at, "%Q"), None);
    assert_eq!(try_format_with_pattern(at, "%H").as_deref(), Some("09"));
}
