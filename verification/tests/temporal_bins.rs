use algraf_render::stats::{BinClosed, BinInterval};
use algraf_render::temporal::TemporalPrecision;
use algraf_render::temporal_bins::{
    add_interval, floor_interval, midpoint_temporal, previous_interval, temporal_calendar_bin,
    temporal_domain, TemporalCell,
};

const DAY: i64 = 86_400_000_000;
const HOUR: i64 = 3_600_000_000;
const MINUTE: i64 = 60_000_000;

// Day numbers (days since 1970-01-01) of a few dates.
const JAN_1_2024: i64 = 19_723;
const FEB_1_2024: i64 = 19_754;
const MAR_1_2024: i64 = 19_783;
const APR_1_2024: i64 = 19_814;

fn at(micros: i64, precision: TemporalPrecision) -> Option<TemporalCell> {
    Some(TemporalCell { micros, precision })
}

fn date(day: i64) -> Option<TemporalCell> {
    at(day * DAY, TemporalPrecision::Date)
}

fn datetime(micros: i64) -> Option<TemporalCell> {
    at(micros, TemporalPrecision::DateTime)
}

#[test]
fn domain_spans_present_cells_and_widens_precision() {
    assert_eq!(temporal_domain(&[None, None]), None);
    let cells = [date(5), None, date(2), date(9)];
    assert_eq!(temporal_domain(&cells), Some((2 * DAY, 9 * DAY, TemporalPrecision::Date)));
    let mixed = [date(5), datetime(7 * DAY + HOUR), None];
    assert_eq!(
        temporal_domain(&mixed),
        Some((5 * DAY, 7 * DAY + HOUR, TemporalPrecision::DateTime))
    );
}

#[test]
fn floors_truncate_to_clock_units() {
    let t = 10 * DAY + 13 * HOUR + 7 * MINUTE + 30_500_000;
    assert_eq!(floor_interval(t, BinInterval::Minute), Some(10 * DAY + 13 * HOUR + 7 * MINUTE));
    assert_eq!(floor_interval(t, BinInterval::Hour), Some(10 * DAY + 13 * HOUR));
    assert_eq!(floor_interval(t, BinInterval::Day), Some(10 * DAY));
    assert_eq!(floor_interval(-1, BinInterval::Minute), Some(-MINUTE));
    assert_eq!(floor_interval(-1, BinInterval::Day), Some(-DAY));
}

#[test]
fn weeks_start_on_monday() {
    // 1970-01-01 was a Thursday; its week began on Monday 1969-12-29.
    assert_eq!(floor_interval(0, BinInterval::Week), Some(-3 * DAY));
    // 2024-01-01 was a Monday.
    assert_eq!(floor_interval((JAN_1_2024 + 2) * DAY + HOUR, BinInterval::Week), Some(JAN_1_2024 * DAY));
    assert_eq!(floor_interval(JAN_1_2024 * DAY, BinInterval::Week), Some(JAN_1_2024 * DAY));
}

#[test]
fn calendar_floors_use_month_quarter_and_year_starts() {
    let may_20 = (APR_1_2024 + 49) * DAY + 5 * HOUR;
    assert_eq!(floor_interval(may_20, BinInterval::Month), Some((APR_1_2024 + 30) * DAY));
    assert_eq!(floor_interval(may_20, BinInterval::Quarter), Some(APR_1_2024 * DAY));
    assert_eq!(floor_interval(may_20, BinInterval::Year), Some(JAN_1_2024 * DAY));
    assert_eq!(floor_interval(i64::MAX, BinInterval::Day), None);
}

#[test]
fn stepping_between_intervals() {
    assert_eq!(add_interval(0, BinInterval::Hour), Some(HOUR));
    assert_eq!(add_interval(0, BinInterval::Week), Some(7 * DAY));
    assert_eq!(previous_interval(0, BinInterval::Day), Some(-DAY));
    // January 31st plus a month is the last day of February.
    let jan_31 = (FEB_1_2024 - 1) * DAY;
    assert_eq!(add_interval(jan_31, BinInterval::Month), Some((MAR_1_2024 - 1) * DAY));
    assert_eq!(add_interval(JAN_1_2024 * DAY, BinInterval::Quarter), Some(APR_1_2024 * DAY));
    // 2024-02-29 minus a year is 2023-02-28.
    let feb_29 = (MAR_1_2024 - 1) * DAY;
    assert_eq!(previous_interval(feb_29, BinInterval::Year), Some((MAR_1_2024 - 1 - 366) * DAY));
    assert_eq!(add_interval(i64::MAX - 10, BinInterval::Minute), None);
}

#[test]
fn bin_centres_follow_precision() {
    assert_eq!(midpoint_temporal(0, 3, TemporalPrecision::DateTime), Some(1));
    assert_eq!(midpoint_temporal(0, -3, TemporalPrecision::DateTime), Some(-1));
    assert_eq!(midpoint_temporal(0, 3 * DAY, TemporalPrecision::Date), Some(DAY));
    assert_eq!(midpoint_temporal(0, 3 * DAY + HOUR, TemporalPrecision::Date), Some(DAY));
    assert_eq!(midpoint_temporal(5 * DAY, 0, TemporalPrecision::Date), Some(5 * DAY));
}

#[test]
fn daily_bins_left_closed() {
    let jan1 = JAN_1_2024 * DAY;
    let cells = [datetime(jan1 + 10 * HOUR), None, datetime(jan1 + 23 * HOUR), datetime(jan1 + 2 * DAY)];
    let bins = temporal_calendar_bin(&cells, BinInterval::Day, BinClosed::Left);
    assert_eq!(bins.starts, vec![jan1, jan1 + DAY, jan1 + 2 * DAY]);
    assert_eq!(bins.ends, vec![jan1 + DAY, jan1 + 2 * DAY, jan1 + 3 * DAY]);
    assert_eq!(
        bins.centers,
        vec![Some(jan1 + 12 * HOUR), Some(jan1 + 36 * HOUR), Some(jan1 + 60 * HOUR)]
    );
    assert_eq!(bins.counts, vec![2, 0, 1]);
    assert_eq!(bins.total, 3);
    assert_eq!(bins.precision, TemporalPrecision::DateTime);
}

#[test]
fn right_closed_bins_count_boundary_instants_in_the_bin_before() {
    let jan1 = JAN_1_2024 * DAY;
    let cells = [datetime(jan1 + 10 * HOUR), datetime(jan1 + 23 * HOUR), datetime(jan1 + 2 * DAY)];
    let bins = temporal_calendar_bin(&cells, BinInterval::Day, BinClosed::Right);
    assert_eq!(bins.starts, vec![jan1, jan1 + DAY]);
    assert_eq!(bins.counts, vec![2, 1]);
    assert_eq!(bins.total, 3);
}

#[test]
fn monthly_bins_have_date_centres() {
    let cells = [date(JAN_1_2024 + 14), date(MAR_1_2024)];
    let bins = temporal_calendar_bin(&cells, BinInterval::Month, BinClosed::Left);
    assert_eq!(bins.starts, vec![JAN_1_2024 * DAY, FEB_1_2024 * DAY, MAR_1_2024 * DAY]);
    assert_eq!(bins.ends, vec![FEB_1_2024 * DAY, MAR_1_2024 * DAY, APR_1_2024 * DAY]);
    assert_eq!(
        bins.centers,
        vec![
            Some((JAN_1_2024 + 15) * DAY),
            Some((FEB_1_2024 + 14) * DAY),
            Some((MAR_1_2024 + 15) * DAY)
        ]
    );
    assert_eq!(bins.counts, vec![1, 0, 1]);
    assert_eq!(bins.precision, TemporalPrecision::Date);
}

#[test]
fn weekly_bins_right_closed_fold_the_last_monday() {
    let cells = [date(JAN_1_2024 + 2), date(JAN_1_2024 + 7)];
    let left = temporal_calendar_bin(&cells, BinInterval::Week, BinClosed::Left);
    assert_eq!(left.starts, vec![JAN_1_2024 * DAY, (JAN_1_2024 + 7) * DAY]);
    assert_eq!(left.counts, vec![1, 1]);
    let right = temporal_calendar_bin(&cells, BinInterval::Week, BinClosed::Right);
    assert_eq!(right.starts, vec![JAN_1_2024 * DAY]);
    assert_eq!(right.counts, vec![2]);
}

#[test]
fn quarterly_and_yearly_bins() {
    let cells = [date(JAN_1_2024 + 40), date(APR_1_2024 + 49)];
    let q = temporal_calendar_bin(&cells, BinInterval::Quarter, BinClosed::Left);
    assert_eq!(q.starts, vec![JAN_1_2024 * DAY, APR_1_2024 * DAY]);
    assert_eq!(q.counts, vec![1, 1]);
    let y = temporal_calendar_bin(&cells, BinInterval::Year, BinClosed::Left);
    assert_eq!(y.starts, vec![JAN_1_2024 * DAY]);
    assert_eq!(y.ends, vec![(JAN_1_2024 + 366) * DAY]);
    assert_eq!(y.counts, vec![2]);
    assert_eq!(y.total, 2);
}

#[test]
fn no_instants_give_no_bins() {
    let bins = temporal_calendar_bin(&[None, None], BinInterval::Day, BinClosed::Left);
    assert!(bins.starts.is_empty());
    assert!(bins.ends.is_empty());
    assert!(bins.centers.is_empty());
    assert!(bins.counts.is_empty());
    assert_eq!(bins.total, 0);
    let far = [datetime(i64::MAX)];
    assert!(temporal_calendar_bin(&far, BinInterval::Hour, BinClosed::Left).starts.is_empty());
}

#[test]
fn counts_add_up_to_the_total() {
    let jan1 = JAN_1_2024 * DAY;
    let cells: Vec<Option<TemporalCell>> =
        (0..50).map(|k| datetime(jan1 + k * 7 * HOUR)).collect();
    let bins = temporal_calendar_bin(&cells, BinInterval::Day, BinClosed::Left);
    assert_eq!(bins.counts.iter().sum::<usize>(), bins.total);
    assert_eq!(bins.total, 50);
    assert!(bins.starts.windows(2).all(|w| w[0] < w[1]));
}
