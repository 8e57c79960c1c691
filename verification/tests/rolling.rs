use btc_regime::correlation::rolling_correlation;
use btc_regime::day::Day;
use btc_regime::regime::{date_by_window_end, recent_common_span, regime_correlations, rolling_series};

fn pearson(x: &[f64], y: &[f64]) -> Option<f64> {
    let n = x.len();
    if n == 0 || n != y.len() {
        return None;
    }
    let mx = x.iter().sum::<f64>() / n as f64;
    let my = y.iter().sum::<f64>() / n as f64;
    let (mut c, mut vx, mut vy) = (0.0, 0.0, 0.0);
    for i in 0..n {
        c += (x[i] - mx) * (y[i] - my);
        vx += (x[i] - mx) * (x[i] - mx);
        vy += (y[i] - my) * (y[i] - my);
    }
    if vx == 0.0 || vy == 0.0 {
        return None;
    }
    Some(c / (vx.sqrt() * vy.sqrt()))
}

#[test]
fn rolling_window_output_length() {
    let x = [1.0, 2.0, 1.5, 3.0, 2.5, 4.0, 3.5, 5.0, 4.5, 6.0];
    let y = [2.0, 3.0, 2.5, 4.0, 3.5, 5.0, 4.5, 6.0, 5.5, 7.0];
    let r = rolling_correlation(&x[..], &y[..], 4, pearson);
    assert_eq!(r.len(), x.len() - 4 + 1);
    assert!(r.iter().all(|v| v.is_some()));
}

#[test]
fn window_larger_than_input_is_empty() {
    let x = [1.0, 2.0];
    let y = [1.0, 2.0];
    assert!(rolling_correlation(&x[..], &y[..], 5, pearson).is_empty());
}

#[test]
fn rolling_windows_are_the_aligned_slices() {
    let x = [1, 2, 3, 4, 5];
    let y = [10, 20, 30, 40, 50];
    let r = rolling_correlation(&x[..], &y[..], 3, |a: &[i32], b: &[i32]| (a.to_vec(), b.to_vec()));
    assert_eq!(
        r,
        vec![
            (vec![1, 2, 3], vec![10, 20, 30]),
            (vec![2, 3, 4], vec![20, 30, 40]),
            (vec![3, 4, 5], vec![30, 40, 50]),
        ]
    );
}

#[test]
fn empty_window_or_mismatched_lengths_give_nothing() {
    let sum = |a: &[i32], b: &[i32]| a.iter().sum::<i32>() + b.iter().sum::<i32>();
    assert!(rolling_correlation(&[1, 2, 3][..], &[1, 2, 3][..], 0, sum).is_empty());
    assert!(rolling_correlation(&[1, 2, 3][..], &[1, 2][..], 1, sum).is_empty());
    assert_eq!(rolling_correlation(&[1, 2, 3][..], &[1, 2, 3][..], 3, sum), vec![12]);
}

fn day(n: i32) -> Day {
    Day { days_from_ce: 738_000 + n }
}

#[test]
fn rolling_values_are_dated_by_the_last_day_of_their_window() {
    let dates: Vec<Day> = (0..6).map(day).collect();
    // 5 returns, window 2: 4 window positions
    let values = vec![Some(0.1), None, Some(0.3), Some(0.4)];
    let (ds, vs) = date_by_window_end(&dates, &values, 2);
    assert_eq!(ds, vec![day(2), day(4), day(5)]);
    assert_eq!(vs, vec![0.1, 0.3, 0.4]);
}

#[test]
fn common_span_keeps_the_most_recent_entries() {
    let dates: Vec<Day> = (0..5).map(day).collect();
    let first = vec![1.0, 2.0, 3.0, 4.0, 5.0];
    let second = vec![30.0, 40.0, 50.0];
    let (d, f, s) = recent_common_span(&dates, &first, &second).unwrap();
    assert_eq!(d, vec![day(2), day(3), day(4)]);
    assert_eq!(f, vec![3.0, 4.0, 5.0]);
    assert_eq!(s, vec![30.0, 40.0, 50.0]);
}

#[test]
fn common_span_of_an_empty_series_is_none() {
    let dates: Vec<Day> = (0..3).map(day).collect();
    let first = vec![1.0, 2.0, 3.0];
    let second: Vec<f64> = vec![];
    assert!(recent_common_span(&dates, &first, &second).is_none());
}

#[test]
fn rolling_series_dates_each_window_by_its_last_day() {
    // prices double each day for the first column, the second is 1, 2, 4, 4, 8
    let aligned: Vec<(Day, i64, i64)> = vec![
        (day(0), 1, 1),
        (day(1), 2, 2),
        (day(2), 4, 4),
        (day(3), 8, 4),
        (day(4), 16, 8),
    ];
    // returns: first [1, 2, 4, 8], second [1, 2, 0, 4]; window 2 over the returns
    let (dates, values) = rolling_series(
        &aligned[..],
        2,
        &|a: i64, b: i64| b - a,
        &|x: &[i64], y: &[i64]| if y[1] == 0 { None } else { Some(x[1] * 100 + y[1]) },
    );
    assert_eq!(dates, vec![day(2), day(4)]);
    assert_eq!(values, vec![202, 804]);
}

#[test]
fn regime_aligns_each_pair_and_keeps_the_common_recent_span() {
    // base trades every day; the first other series skips day 2, the second has every day
    let base: Vec<(Day, i64)> = (0..6).map(|i| (day(i), 10 * i as i64)).collect();
    let first: Vec<(Day, i64)> = vec![(day(0), 0), (day(1), 1), (day(3), 3), (day(4), 4), (day(5), 5)];
    let second: Vec<(Day, i64)> = (0..6).map(|i| (day(i), i as i64)).collect();
    let r = regime_correlations(
        &base,
        &first,
        &second,
        2,
        |a: i64, b: i64| b - a,
        |x: &[i64], y: &[i64]| Some(x.iter().sum::<i64>() * 1000 + y.iter().sum::<i64>()),
    );
    // first pair: 5 aligned days -> 4 returns -> 3 windows, dated days 3, 4, 5
    // second pair: 6 aligned days -> 5 returns -> 4 windows; common span is the last 3
    let (dates, f, s) = r.unwrap();
    assert_eq!(dates, vec![day(3), day(4), day(5)]);
    assert_eq!(f, vec![30_003, 30_003, 20_002]);
    assert_eq!(s, vec![20_002, 20_002, 20_002]);
}

#[test]
fn regime_without_enough_common_days_is_none() {
    let base: Vec<(Day, i64)> = (0..3).map(|i| (day(i), i as i64)).collect();
    let other: Vec<(Day, i64)> = (0..3).map(|i| (day(i), i as i64)).collect();
    let r = regime_correlations(&base, &other, &other, 5, |a: i64, b: i64| b - a, |_: &[i64], _: &[i64]| Some(1));
    assert!(r.is_none());
}

#[test]
fn dropping_the_first_sample_drops_the_first_window() {
    let x = [1.0, 2.0, 1.5, 3.0, 2.5, 4.0, 3.5];
    let y = [2.0, 1.0, 2.5, 4.0, 3.0, 5.0, 6.5];
    let all = rolling_correlation(&x[..], &y[..], 3, pearson);
    let rest = rolling_correlation(&x[1..], &y[1..], 3, pearson);
    assert_eq!(rest, all[1..].to_vec());
}
