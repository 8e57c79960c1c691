use btc_regime::day::Day;
use btc_regime::series::{align, dedup_by_date, log_returns};
use chrono::{Datelike, NaiveDate};

fn d(day: u32) -> Day {
    Day { days_from_ce: NaiveDate::from_ymd_opt(2026, 1, day).unwrap().num_days_from_ce() }
}

#[test]
fn align_keeps_only_shared_dates_sorted() {
    let a = vec![(d(3), 1.0), (d(1), 2.0), (d(2), 3.0)];
    let b = vec![(d(1), 10.0), (d(3), 30.0)];
    let joined = align(&a, &b);
    assert_eq!(joined, vec![(d(1), 2.0, 10.0), (d(3), 1.0, 30.0)]);
}

#[test]
fn align_takes_the_last_value_of_b_on_a_day() {
    let a = vec![(d(5), 1.0)];
    let b = vec![(d(5), 10.0), (d(4), 40.0), (d(5), 50.0)];
    assert_eq!(align(&a, &b), vec![(d(5), 1.0, 50.0)]);
}

#[test]
fn align_keeps_order_of_a_within_a_day() {
    let a = vec![(d(7), 1.0), (d(6), 2.0), (d(7), 3.0)];
    let b = vec![(d(7), 70.0), (d(6), 60.0)];
    assert_eq!(
        align(&a, &b),
        vec![(d(6), 2.0, 60.0), (d(7), 1.0, 70.0), (d(7), 3.0, 70.0)]
    );
}

#[test]
fn align_with_no_shared_day_is_empty() {
    let a = vec![(d(1), 1.0), (d(2), 2.0)];
    let b = vec![(d(3), 3.0)];
    assert!(align(&a, &b).is_empty());
    let empty: Vec<(Day, f64)> = Vec::new();
    assert!(align(&empty, &b).is_empty());
}

#[test]
fn align_of_daily_series_is_daily() {
    let a = vec![(d(1), 1.0), (d(2), 2.0), (d(4), 4.0), (d(5), 5.0)];
    let b = vec![(d(2), 20.0), (d(3), 30.0), (d(4), 40.0)];
    let joined = align(&a, &b);
    assert_eq!(joined, vec![(d(2), 2.0, 20.0), (d(4), 4.0, 40.0)]);
    for w in joined.windows(2) {
        assert!(w[0].0.days_from_ce < w[1].0.days_from_ce);
    }
}

#[test]
fn dedup_sorts_and_keeps_the_first_entry_of_each_day() {
    let s = vec![(d(3), 1.0), (d(1), 2.0), (d(3), 3.0), (d(2), 4.0), (d(1), 5.0)];
    assert_eq!(dedup_by_date(s), vec![(d(1), 2.0), (d(2), 4.0), (d(3), 1.0)]);
}

#[test]
fn dedup_keeps_a_daily_series_unchanged() {
    let s = vec![(d(1), 1.0), (d(2), 2.0), (d(9), 9.0)];
    assert_eq!(dedup_by_date(s.clone()), s);
    assert_eq!(dedup_by_date(dedup_by_date(s.clone())), s);
    let empty: Vec<(Day, f64)> = Vec::new();
    assert!(dedup_by_date(empty).is_empty());
}

#[test]
fn log_returns_length_and_sign() {
    let prices = [100.0, 110.0, 99.0];
    let r = log_returns(&prices[..], |a: f64, b: f64| (b / a).ln());
    assert_eq!(r.len(), 2);
    assert!(r[0] > 0.0);
    assert!(r[1] < 0.0);
}

#[test]
fn log_returns_pair_consecutive_prices() {
    let r = log_returns(&[1, 4, 9, 16][..], |a: i32, b: i32| b - a);
    assert_eq!(r, vec![3, 5, 7]);
    assert!(log_returns(&[5][..], |a: i32, b: i32| b - a).is_empty());
    assert!(log_returns(&[][..], |a: i32, b: i32| b - a).is_empty());
}

#[test]
fn align_of_unsorted_distinct_days_is_strictly_ascending() {
    let a = vec![(d(9), 9.0), (d(2), 2.0), (d(5), 5.0), (d(1), 1.0)];
    let b = vec![(d(5), 50.0), (d(1), 10.0), (d(9), 90.0)];
    let joined = align(&a, &b);
    assert_eq!(joined, vec![(d(1), 1.0, 10.0), (d(5), 5.0, 50.0), (d(9), 9.0, 90.0)]);
}

#[test]
fn swapping_daily_series_swaps_the_value_columns() {
    let a = vec![(d(4), 4.0), (d(1), 1.0), (d(3), 3.0)];
    let b = vec![(d(3), 30.0), (d(2), 20.0), (d(4), 40.0)];
    let ab = align(&a, &b);
    let ba = align(&b, &a);
    let swapped: Vec<(Day, f64, f64)> = ab.into_iter().map(|(day, x, y)| (day, y, x)).collect();
    assert_eq!(ba, swapped);
}
