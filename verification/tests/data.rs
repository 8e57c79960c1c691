use btc_regime::data::{series_from_chart, series_from_millis_points, ChartResult};
use btc_regime::day::{Day, FIRST_DAY, LAST_DAY, UNIX_EPOCH_DAY};
use chrono::{Datelike, NaiveDate};

fn ymd(y: i32, m: u32, d: u32) -> Day {
    Day { days_from_ce: NaiveDate::from_ymd_opt(y, m, d).unwrap().num_days_from_ce() }
}

#[test]
fn day_constants_match_chrono() {
    assert_eq!(ymd(1970, 1, 1).days_from_ce, UNIX_EPOCH_DAY);
    assert_eq!(NaiveDate::MIN.num_days_from_ce(), FIRST_DAY);
    assert_eq!(NaiveDate::MAX.num_days_from_ce(), LAST_DAY);
}

#[test]
fn millis_points_are_dated_by_utc_day_and_deduplicated() {
    // 2024-01-02 00:00 UTC, 2024-01-01 00:00 UTC, 2024-01-01 23:59:59.999 UTC
    let points = vec![
        (1_704_153_600_000i64, 2.0),
        (1_704_067_200_000i64, 1.0),
        (1_704_153_599_999i64, 1.5),
    ];
    let s = series_from_millis_points(&points);
    assert_eq!(s, vec![(ymd(2024, 1, 1), 1.0), (ymd(2024, 1, 2), 2.0)]);
}

#[test]
fn negative_millis_round_down_to_the_previous_day() {
    let points = vec![(-1i64, 7.0)];
    assert_eq!(series_from_millis_points(&points), vec![(ymd(1969, 12, 31), 7.0)]);
}

#[test]
fn unrepresentable_millis_are_dropped() {
    let points = vec![(i64::MIN, 1.0), (0i64, 2.0), (i64::MAX, 3.0)];
    assert_eq!(series_from_millis_points(&points), vec![(ymd(1970, 1, 1), 2.0)]);
}

#[test]
fn chart_without_result_is_none() {
    let results: Vec<ChartResult<f64>> = Vec::new();
    assert!(series_from_chart(&results).is_none());
}

#[test]
fn chart_zips_timestamps_with_first_quote_and_skips_missing_closes() {
    let results = vec![ChartResult {
        timestamp: vec![1_704_240_000, 1_704_153_600, 1_704_067_200, 1_704_326_400],
        quote_closes: vec![vec![Some(3.0), None, Some(1.0)], vec![Some(9.0), Some(9.0), Some(9.0)]],
    }];
    let s = series_from_chart(&results).unwrap();
    assert_eq!(s, vec![(ymd(2024, 1, 1), 1.0), (ymd(2024, 1, 3), 3.0)]);
}

#[test]
fn chart_without_quote_gives_an_empty_series() {
    let results = vec![ChartResult::<f64> { timestamp: vec![1_704_067_200], quote_closes: vec![] }];
    assert_eq!(series_from_chart(&results), Some(vec![]));
}

#[test]
fn chart_keeps_the_earliest_close_of_a_day() {
    let results = vec![ChartResult {
        timestamp: vec![1_704_067_200 + 3600, 1_704_067_200 + 60],
        quote_closes: vec![vec![Some(5.0), Some(6.0)]],
    }];
    assert_eq!(series_from_chart(&results), Some(vec![(ymd(2024, 1, 1), 5.0)]));
}
