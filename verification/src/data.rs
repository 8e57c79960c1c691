use vstd::prelude::*;
use crate::day::{utc_day_from_millis, utc_day_from_seconds, utc_day_of_millis, utc_day_of_seconds, Day};
use crate::series::{dedup_by_date, has_day, is_first_entry, is_first_source, lemma_first_sources, strictly_by_day, Series};

verus! {

/// Each `(Unix milliseconds, value)` point dated by its UTC day, in order;
/// points whose day chrono cannot represent are left out.
pub open spec fn dated_by_millis<V>(points: Seq<(i64, V)>) -> Seq<(Day, V)>
    decreases points.len(),
{
    if points.len() == 0 {
        Seq::empty()
    } else {
        let rest = dated_by_millis(points.drop_last());
        match utc_day_of_millis(points.last().0 as int) {
            Some(d) => rest.push((d, points.last().1)),
            None => rest,
        }
    }
}

/// The first `n` pairs of the zip of `timestamps` (Unix seconds) and
/// `closes`, each dated by its UTC day, in order; pairs without a close, or
/// whose day chrono cannot represent, are left out.
pub open spec fn dated_closes<V>(timestamps: Seq<i64>, closes: Seq<Option<V>>, n: int) -> Seq<(Day, V)>
    decreases n,
{
    if n <= 0 {
        Seq::empty()
    } else {
        let rest = dated_closes(timestamps, closes, n - 1);
        match (closes[n - 1], utc_day_of_seconds(timestamps[n - 1] as int)) {
            (Some(c), Some(d)) => rest.push((d, c)),
            _ => rest,
        }
    }
}

/// Daily BTC closes from `(Unix milliseconds, price)` points: each point is
/// dated by its UTC day, then the series is sorted by day and keeps the
/// earliest point of each day.
pub fn series_from_millis_points<V: Copy>(points: &Vec<(i64, V)>) -> (r: Series<V>)
    ensures
        strictly_by_day(r@),
        forall|e: (Day, V)| r@.contains(e) <==> is_first_entry(dated_by_millis(points@), e),
        forall|i: int, j: int|
            0 <= i < j < r.len() ==> #[trigger] r@[i].0.days_from_ce < #[trigger] r@[j].0.days_from_ce,
        forall|i: int|
            0 <= i < points.len() && (#[trigger] utc_day_of_millis(points@[i].0 as int)) is Some
                ==> exists|k: int| 0 <= k < r.len() && r@[k].0 == utc_day_of_millis(points@[i].0 as int)->0,
        forall|e: (Day, V)| #[trigger] r@.contains(e) ==> exists|i: int|
            0 <= i < points.len() && #[trigger] utc_day_of_millis(points@[i].0 as int) == Some(e.0)
                && points@[i].1 == e.1 && forall|j: int|
                0 <= j < i ==> #[trigger] utc_day_of_millis(points@[j].0 as int) != Some(e.0),
{
    let mut dated: Vec<(Day, V)> = Vec::new();
    let ghost mut idx: Seq<int> = Seq::empty();
    let ghost produced = |i: int|
        match utc_day_of_millis(points@[i].0 as int) {
            Some(d) => Some((d, points@[i].1)),
            None => None,
        };
    let n = points.len();
    let mut i: usize = 0;
    while i < n
        invariant
            n == points.len(),
            i <= n,
            dated@ == dated_by_millis(points@.take(i as int)),
            produced == (|i: int|
                match utc_day_of_millis(points@[i].0 as int) {
                    Some(d) => Some((d, points@[i].1)),
                    None => None,
                }),
            idx.len() == dated@.len(),
            forall|m: int|
                0 <= m < idx.len() ==> 0 <= #[trigger] idx[m] < i && produced(idx[m]) == Some(dated@[m]),
            forall|k: int, l: int| 0 <= k < l < idx.len() ==> #[trigger] idx[k] < #[trigger] idx[l],
            forall|j: int|
                0 <= j < i && (#[trigger] produced(j)) is Some ==> exists|m: int|
                    0 <= m < idx.len() && idx[m] == j,
        decreases n - i,
    {
        let (ms, v) = points[i];
        proof {
            assert(points@.take(i + 1).drop_last() =~= points@.take(i as int));
        }
        let ghost old_idx = idx;
        match utc_day_from_millis(ms) {
            Some(d) => {
                dated.push((d, v));
                proof {
                    idx = idx.push(i as int);
                    assert(idx[idx.len() - 1] == i);
                }
            },
            None => {},
        }
        proof {
            assert forall|j: int| 0 <= j < i + 1 && (#[trigger] produced(j)) is Some implies exists|m: int|
                0 <= m < idx.len() && idx[m] == j by {
                if j < i {
                    let m = choose|m: int| 0 <= m < old_idx.len() && old_idx[m] == j;
                    assert(idx[m] == old_idx[m]);
                } else {
                    assert(idx[idx.len() - 1] == j);
                }
            }
        }
        i += 1;
    }
    proof {
        assert(points@.take(n as int) =~= points@);
    }
    let r = dedup_by_date(dated);
    proof {
        lemma_first_sources(produced, n as int, dated@, idx, r@);
        assert forall|i: int|
            0 <= i < points.len() && (#[trigger] utc_day_of_millis(points@[i].0 as int)) is Some
            implies exists|k: int| 0 <= k < r.len() && r@[k].0 == utc_day_of_millis(points@[i].0 as int)->0 by {
            assert(produced(i) is Some);
        }
        assert forall|e: (Day, V)| #[trigger] r@.contains(e) implies exists|i: int|
            0 <= i < points.len() && #[trigger] utc_day_of_millis(points@[i].0 as int) == Some(e.0)
                && points@[i].1 == e.1 && forall|j: int|
                0 <= j < i ==> #[trigger] utc_day_of_millis(points@[j].0 as int) != Some(e.0) by {
            let i = choose|i: int| #[trigger] is_first_source(produced, n as int, i, e);
            assert forall|j: int| 0 <= j < i implies #[trigger] utc_day_of_millis(points@[j].0 as int) != Some(e.0) by {
                if utc_day_of_millis(points@[j].0 as int) == Some(e.0) {
                    assert(produced(j) is Some);
                }
            }
            assert(utc_day_of_millis(points@[i].0 as int) == Some(e.0));
        }
    }
    r
}

/// One chart result of a daily quote feed: the timestamps (Unix seconds) and,
/// per quote, the closes that go with them (a close may be missing).
pub struct ChartResult<V> {
    pub timestamp: Vec<i64>,
    pub quote_closes: Vec<Vec<Option<V>>>,
}

/// The closes of the first quote of a chart result, or none if it has no quote.
pub open spec fn first_closes<V>(r: ChartResult<V>) -> Seq<Option<V>> {
    if r.quote_closes@.len() > 0 {
        r.quote_closes@[0]@
    } else {
        Seq::empty()
    }
}

/// The dated closes of a chart result: timestamps zipped with the closes of
/// its first quote, as far as the shorter of the two goes.
pub open spec fn chart_points<V>(r: ChartResult<V>) -> Seq<(Day, V)> {
    let n = if r.timestamp@.len() <= first_closes(r).len() {
        r.timestamp@.len()
    } else {
        first_closes(r).len()
    };
    dated_closes(r.timestamp@, first_closes(r), n as int)
}

/// Daily closes from the chart results of a quote feed: `None` when there is
/// no result; otherwise the first result's closes, dated by UTC day, sorted by
/// day, keeping the earliest close of each day.
pub fn series_from_chart<V: Copy>(results: &Vec<ChartResult<V>>) -> (r: Option<Series<V>>)
    ensures
        r is None <==> results@.len() == 0,
        r matches Some(s) ==> {
            &&& strictly_by_day(s@)
            &&& forall|e: (Day, V)| s@.contains(e) <==> is_first_entry(chart_points(results@[0]), e)
        },
        r matches Some(s) ==> forall|i: int, j: int|
            0 <= i < j < s.len() ==> #[trigger] s@[i].0.days_from_ce < #[trigger] s@[j].0.days_from_ce,
        r matches Some(s) ==> forall|i: int|
            0 <= i < results@[0].timestamp.len() && results@[0].quote_closes.len() > 0 && i
                < results@[0].quote_closes@[0].len() && (#[trigger] results@[0].quote_closes@[0]@[i]) is Some
                && utc_day_of_seconds(results@[0].timestamp@[i] as int) is Some ==> has_day(
                s@,
                utc_day_of_seconds(results@[0].timestamp@[i] as int).unwrap(),
            ),
        r matches Some(s) ==> forall|e: (Day, V)| #[trigger] s@.contains(e) ==> {
            &&& results@[0].quote_closes.len() > 0
            &&& exists|i: int|
                0 <= i < results@[0].timestamp.len() && i < results@[0].quote_closes@[0].len()
                    && #[trigger] results@[0].quote_closes@[0]@[i] == Some(e.1) && utc_day_of_seconds(
                    results@[0].timestamp@[i] as int,
                ) == Some(e.0) && forall|j: int|
                    0 <= j < i ==> !((#[trigger] results@[0].quote_closes@[0]@[j]) is Some
                        && utc_day_of_seconds(results@[0].timestamp@[j] as int) == Some(e.0))
        },
{
    if results.len() == 0 {
        return None;
    }
    let first = &results[0];
    let ts = &first.timestamp;
    let empty: Vec<Option<V>> = Vec::new();
    let closes: &Vec<Option<V>> = if first.quote_closes.len() > 0 {
        &first.quote_closes[0]
    } else {
        &empty
    };
    assert(closes@ == first_closes(*first));
    let n = if ts.len() <= closes.len() {
        ts.len()
    } else {
        closes.len()
    };
    let ghost produced = |i: int|
        match (closes@[i], utc_day_of_seconds(ts@[i] as int)) {
            (Some(c), Some(d)) => Some((d, c)),
            _ => None,
        };
    let ghost mut idx: Seq<int> = Seq::empty();
    let mut dated: Vec<(Day, V)> = Vec::new();
    let mut i: usize = 0;
    while i < n
        invariant
            n <= ts.len(),
            n <= closes.len(),
            i <= n,
            dated@ == dated_closes(ts@, closes@, i as int),
            produced == (|i: int|
                match (closes@[i], utc_day_of_seconds(ts@[i] as int)) {
                    (Some(c), Some(d)) => Some((d, c)),
                    _ => None,
                }),
            idx.len() == dated@.len(),
            forall|m: int|
                0 <= m < idx.len() ==> 0 <= #[trigger] idx[m] < i && produced(idx[m]) == Some(dated@[m]),
            forall|k: int, l: int| 0 <= k < l < idx.len() ==> #[trigger] idx[k] < #[trigger] idx[l],
            forall|j: int|
                0 <= j < i && (#[trigger] produced(j)) is Some ==> exists|m: int|
                    0 <= m < idx.len() && idx[m] == j,
        decreases n - i,
    {
        let close = closes[i];
        let secs = ts[i];
        let ghost old_idx = idx;
        match close {
            Some(c) => {
                match utc_day_from_seconds(secs) {
                    Some(d) => {
                        dated.push((d, c));
                        proof {
                            idx = idx.push(i as int);
                            assert(idx[idx.len() - 1] == i);
                        }
                    },
                    None => {},
                }
            },
            None => {},
        }
        proof {
            assert forall|j: int| 0 <= j < i + 1 && (#[trigger] produced(j)) is Some implies exists|m: int|
                0 <= m < idx.len() && idx[m] == j by {
                if j < i {
                    let m = choose|m: int| 0 <= m < old_idx.len() && old_idx[m] == j;
                    assert(idx[m] == old_idx[m]);
                } else {
                    assert(idx[idx.len() - 1] == j);
                }
            }
        }
        i += 1;
    }
    let s = dedup_by_date(dated);
    proof {
        lemma_first_sources(produced, n as int, dated@, idx, s@);
        assert forall|i: int|
            0 <= i < results@[0].timestamp.len() && results@[0].quote_closes.len() > 0 && i
                < results@[0].quote_closes@[0].len() && (#[trigger] results@[0].quote_closes@[0]@[i]) is Some
                && utc_day_of_seconds(results@[0].timestamp@[i] as int) is Some implies has_day(
                s@,
                utc_day_of_seconds(results@[0].timestamp@[i] as int).unwrap(),
            ) by {
            assert(closes@ == results@[0].quote_closes@[0]@);
            assert(ts@ == results@[0].timestamp@);
            assert(i < n);
            assert(produced(i) is Some);
        }
        assert forall|e: (Day, V)| #[trigger] s@.contains(e) implies {
            &&& results@[0].quote_closes.len() > 0
            &&& exists|i: int|
                0 <= i < results@[0].timestamp.len() && i < results@[0].quote_closes@[0].len()
                    && #[trigger] results@[0].quote_closes@[0]@[i] == Some(e.1) && utc_day_of_seconds(
                    results@[0].timestamp@[i] as int,
                ) == Some(e.0) && forall|j: int|
                    0 <= j < i ==> !((#[trigger] results@[0].quote_closes@[0]@[j]) is Some
                        && utc_day_of_seconds(results@[0].timestamp@[j] as int) == Some(e.0))
        } by {
            let i = choose|i: int| #[trigger] is_first_source(produced, n as int, i, e);
            assert(results@[0].quote_closes.len() > 0);
            assert(closes@ == results@[0].quote_closes@[0]@);
            assert forall|j: int| 0 <= j < i implies !((#[trigger] results@[0].quote_closes@[0]@[j]) is Some
                && utc_day_of_seconds(results@[0].timestamp@[j] as int) == Some(e.0)) by {
                if closes@[j] is Some && utc_day_of_seconds(ts@[j] as int) == Some(e.0) {
                    assert(produced(j) is Some);
                }
            }
            assert(results@[0].quote_closes@[0]@[i] == Some(e.1));
        }
    }
    Some(s)
}

} // verus!
