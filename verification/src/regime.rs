use vstd::prelude::*;
use crate::day::Day;
use crate::correlation::{are_window_values, rolling_correlation, window_count};
use crate::series::{align, are_returns, is_alignment, log_returns, Series};

verus! {

/// The first `n` rolling values that exist, each dated by the last day of its
/// window: value `i` covers the returns ending on `dates[i + window]`.
pub open spec fn window_end_dated<V>(dates: Seq<Day>, values: Seq<Option<V>>, window: int, n: int) -> Seq<(Day, V)>
    decreases n,
{
    if n <= 0 {
        Seq::empty()
    } else {
        let rest = window_end_dated(dates, values, window, n - 1);
        match values[n - 1] {
            Some(v) => rest.push((dates[n - 1 + window], v)),
            None => rest,
        }
    }
}

/// Dates each existing rolling value by the last day of its window and splits
/// the result into the dates and the values; missing values are dropped.
///
/// Value `i` of a rolling computation over daily returns covers the returns
/// `i .. i + window`, the last of which ends on `dates[i + window]`.
pub fn date_by_window_end<V: Copy>(dates: &Vec<Day>, values: &Vec<Option<V>>, window: usize) -> (r: (
    Vec<Day>,
    Vec<V>,
))
    requires
        forall|i: int|
            0 <= i < values.len() && (#[trigger] values@[i]) is Some ==> i + window < dates.len(),
    ensures
        r.0.len() == r.1.len(),
        r.0.len() == window_end_dated(dates@, values@, window as int, values.len() as int).len(),
        forall|k: int|
            0 <= k < r.0.len() ==> (#[trigger] r.0@[k], r.1@[k]) == window_end_dated(
                dates@,
                values@,
                window as int,
                values.len() as int,
            )[k],
        exists|idx: Seq<int>|
            #![trigger idx.len()]
            {
                &&& idx.len() == r.0.len()
                &&& forall|k: int|
                    0 <= k < idx.len() ==> 0 <= #[trigger] idx[k] < values.len() && values@[idx[k]]
                        == Some(r.1@[k]) && r.0@[k] == dates@[idx[k] + window]
                &&& forall|k: int, l: int| 0 <= k < l < idx.len() ==> #[trigger] idx[k] < #[trigger] idx[l]
                &&& forall|j: int|
                    0 <= j < values.len() && (#[trigger] values@[j]) is Some ==> exists|k: int|
                        0 <= k < idx.len() && idx[k] == j
            },
{
    let mut out_dates: Vec<Day> = Vec::new();
    let mut out_values: Vec<V> = Vec::new();
    let ghost mut idx: Seq<int> = Seq::empty();
    let n = values.len();
    let mut i: usize = 0;
    while i < n
        invariant
            n == values.len(),
            i <= n,
            idx.len() == out_dates.len(),
            out_dates.len() == out_values.len(),
            forall|k: int|
                0 <= k < idx.len() ==> 0 <= #[trigger] idx[k] < i && values@[idx[k]] == Some(
                    out_values@[k],
                ) && out_dates@[k] == dates@[idx[k] + window],
            forall|k: int, l: int| 0 <= k < l < idx.len() ==> #[trigger] idx[k] < #[trigger] idx[l],
            forall|j: int|
                0 <= j < i && (#[trigger] values@[j]) is Some ==> exists|k: int|
                    0 <= k < idx.len() && idx[k] == j,
            forall|j: int|
                0 <= j < values.len() && (#[trigger] values@[j]) is Some ==> j + window < dates.len(),
            out_dates.len() == out_values.len(),
            out_dates.len() == window_end_dated(dates@, values@, window as int, i as int).len(),
            forall|k: int|
                0 <= k < out_dates.len() ==> (#[trigger] out_dates@[k], out_values@[k])
                    == window_end_dated(dates@, values@, window as int, i as int)[k],
        decreases n - i,
    {
        let ghost old_idx = idx;
        match values[i] {
            Some(v) => {
                assert(values@[i as int] is Some);
                out_dates.push(dates[i + window]);
                out_values.push(v);
                proof {
                    idx = idx.push(i as int);
                    assert(idx[idx.len() - 1] == i);
                }
            },
            None => {},
        }
        proof {
            assert forall|j: int|
                0 <= j < i + 1 && (#[trigger] values@[j]) is Some implies exists|k: int|
                0 <= k < idx.len() && idx[k] == j by {
                if j < i {
                    let k = choose|k: int| 0 <= k < old_idx.len() && old_idx[k] == j;
                    assert(idx[k] == old_idx[k]);
                } else {
                    assert(idx[idx.len() - 1] == j);
                }
            }
        }
        i += 1;
    }
    assert(idx.len() == out_dates.len());
    (out_dates, out_values)
}

/// The smaller of two lengths.
pub open spec fn common_len(a: int, b: int) -> int {
    if a <= b {
        a
    } else {
        b
    }
}

/// The last `n` entries of `v`.
pub open spec fn last_entries<T>(v: Seq<T>, n: int) -> Seq<T> {
    v.subrange(v.len() - n, v.len() as int)
}

fn take_last<T: Copy>(v: &Vec<T>, n: usize) -> (r: Vec<T>)
    requires
        n <= v.len(),
    ensures
        r@ == last_entries(v@, n as int),
{
    let mut out: Vec<T> = Vec::new();
    let start = v.len() - n;
    let mut i = start;
    while i < v.len()
        invariant
            start == v.len() - n,
            start <= i <= v.len(),
            out@ == v@.subrange(start as int, i as int),
        decreases v.len() - i,
    {
        out.push(v[i]);
        i += 1;
    }
    out
}

/// Cuts two rolling series, and the dates of the first, to the length they
/// have in common, keeping the most recent entries; `None` when one of the
/// series is empty.
pub fn recent_common_span<V: Copy>(dates: &Vec<Day>, first: &Vec<V>, second: &Vec<V>) -> (r: Option<
    (Vec<Day>, Vec<V>, Vec<V>),
>)
    requires
        dates.len() >= common_len(first.len() as int, second.len() as int),
    ensures
        r is None <==> common_len(first.len() as int, second.len() as int) == 0,
        r matches Some((d, f, s)) ==> {
            let n = common_len(first.len() as int, second.len() as int);
            &&& d@ == last_entries(dates@, n)
            &&& f@ == last_entries(first@, n)
            &&& s@ == last_entries(second@, n)
        },
        r is None <==> first.len() == 0 || second.len() == 0,
        r matches Some((d, f, s)) ==> {
            &&& f@.len() == (if first.len() <= second.len() { first.len() } else { second.len() })
            &&& d@.len() == f@.len()
            &&& s@.len() == f@.len()
            &&& d@ == dates@.subrange(dates.len() - f@.len(), dates.len() as int)
            &&& f@ == first@.subrange(first.len() - f@.len(), first.len() as int)
            &&& s@ == second@.subrange(second.len() - s@.len(), second.len() as int)
        },
{
    let n = if first.len() <= second.len() {
        first.len()
    } else {
        second.len()
    };
    if n == 0 {
        return None;
    }
    Some((take_last(dates, n), take_last(first, n), take_last(second, n)))
}

/// Rolling correlations over the daily returns of `n_dates` aligned prices
/// (one return per consecutive pair of days) each have a window-end day:
/// every window position `i` has `i + window` within the dates.
pub proof fn lemma_every_window_has_an_end_day(n_dates: int, window: int)
    ensures
        forall|i: int|
            0 <= i < window_count(n_dates - 1, n_dates - 1, window) ==> #[trigger] (i + window)
                < n_dates,
{
}

/// The days of the joined entries, in order.
pub open spec fn joined_days<V>(aligned: Seq<(Day, V, V)>) -> Seq<Day> {
    aligned.map_values(|e: (Day, V, V)| e.0)
}

/// The first price of each joined entry, in order.
pub open spec fn first_prices<V>(aligned: Seq<(Day, V, V)>) -> Seq<V> {
    aligned.map_values(|e: (Day, V, V)| e.1)
}

/// The second price of each joined entry, in order.
pub open spec fn second_prices<V>(aligned: Seq<(Day, V, V)>) -> Seq<V> {
    aligned.map_values(|e: (Day, V, V)| e.2)
}

/// `dates` and `values` are the rolling correlations of an aligned price
/// series: the daily returns of both price columns, correlated over each
/// sliding window of `window` returns, each existing correlation dated by the
/// last day of its window.
pub open spec fn is_rolling_series<V, R, K, L: Fn(V, V) -> R, C: Fn(&[R], &[R]) -> Option<K>>(
    log_return: L,
    correlation: C,
    aligned: Seq<(Day, V, V)>,
    window: int,
    dates: Seq<Day>,
    values: Seq<K>,
) -> bool {
    exists|first: Seq<R>, second: Seq<R>, rolled: Seq<Option<K>>|
        #![trigger are_returns(log_return, first_prices(aligned), first), are_returns(log_return, second_prices(aligned), second), are_window_values(correlation, first, second, window, rolled)]
        {
            &&& are_returns(log_return, first_prices(aligned), first)
            &&& are_returns(log_return, second_prices(aligned), second)
            &&& are_window_values(correlation, first, second, window, rolled)
            &&& dates.len() == values.len()
            &&& dates.len() == window_end_dated(joined_days(aligned), rolled, window, rolled.len() as int).len()
            &&& forall|k: int|
                0 <= k < dates.len() ==> (#[trigger] dates[k], values[k]) == window_end_dated(
                    joined_days(aligned),
                    rolled,
                    window,
                    rolled.len() as int,
                )[k]
        }
}

/// Turns an aligned series `(day, price, other price)` into rolling
/// correlations computed on daily returns, each dated by the last day of its
/// window; windows whose correlation does not exist are dropped.
pub fn rolling_series<V: Copy, R, K: Copy, L: Fn(V, V) -> R, C: Fn(&[R], &[R]) -> Option<K>>(
    aligned: &[(Day, V, V)],
    window: usize,
    log_return: &L,
    correlation: &C,
) -> (r: (Vec<Day>, Vec<K>))
    requires
        forall|a: V, b: V| #[trigger] (*log_return).requires((a, b)),
        forall|a: &[R], b: &[R]| #[trigger] (*correlation).requires((a, b)),
    ensures
        is_rolling_series(*log_return, *correlation, aligned@, window as int, r.0@, r.1@),
{
    let mut dates: Vec<Day> = Vec::new();
    let mut firsts: Vec<V> = Vec::new();
    let mut seconds: Vec<V> = Vec::new();
    let n = aligned.len();
    let mut i: usize = 0;
    while i < n
        invariant
            n == aligned@.len(),
            i <= n,
            dates@.len() == i,
            firsts@.len() == i,
            seconds@.len() == i,
            forall|j: int| 0 <= j < i ==> #[trigger] dates@[j] == aligned@[j].0,
            forall|j: int| 0 <= j < i ==> #[trigger] firsts@[j] == aligned@[j].1,
            forall|j: int| 0 <= j < i ==> #[trigger] seconds@[j] == aligned@[j].2,
        decreases n - i,
    {
        let e = aligned[i];
        dates.push(e.0);
        firsts.push(e.1);
        seconds.push(e.2);
        i += 1;
    }
    assert(dates@ =~= joined_days(aligned@));
    assert(firsts@ =~= first_prices(aligned@));
    assert(seconds@ =~= second_prices(aligned@));
    let first_returns = log_returns(firsts.as_slice(), log_return);
    let second_returns = log_returns(seconds.as_slice(), log_return);
    let rolled = rolling_correlation(first_returns.as_slice(), second_returns.as_slice(), window, correlation);
    proof {
        lemma_every_window_has_an_end_day(n as int, window as int);
    }
    let r = date_by_window_end(&dates, &rolled, window);
    assert(are_returns(*log_return, first_prices(aligned@), first_returns@));
    assert(are_returns(*log_return, second_prices(aligned@), second_returns@));
    assert(are_window_values(*correlation, first_returns@, second_returns@, window as int, rolled@));
    r
}

/// `r` is what the correlation-regime reading makes of three daily series:
/// the first series aligned with each of the two others, the rolling
/// correlations of each alignment, and both cut to their common most recent
/// span, the dates being those of the first pair; `None` when one of the two
/// has no correlation at all.
pub open spec fn is_regime<V, R, K, L: Fn(V, V) -> R, C: Fn(&[R], &[R]) -> Option<K>>(
    log_return: L,
    correlation: C,
    base: Seq<(Day, V)>,
    first: Seq<(Day, V)>,
    second: Seq<(Day, V)>,
    window: int,
    r: Option<(Vec<Day>, Vec<K>, Vec<K>)>,
) -> bool {
    exists|fa: Seq<(Day, V, V)>, sa: Seq<(Day, V, V)>, fd: Seq<Day>, fv: Seq<K>, sd: Seq<Day>, sv: Seq<K>|
        #![trigger is_rolling_series(log_return, correlation, fa, window, fd, fv), is_rolling_series(log_return, correlation, sa, window, sd, sv)]
        {
            &&& is_alignment(base, first, fa)
            &&& is_alignment(base, second, sa)
            &&& is_rolling_series(log_return, correlation, fa, window, fd, fv)
            &&& is_rolling_series(log_return, correlation, sa, window, sd, sv)
            &&& (r is None <==> common_len(fv.len() as int, sv.len() as int) == 0)
            &&& (r matches Some((d, f, s)) ==> {
                let n = common_len(fv.len() as int, sv.len() as int);
                &&& d@ == last_entries(fd, n)
                &&& f@ == last_entries(fv, n)
                &&& s@ == last_entries(sv, n)
            })
        }
}

/// The correlation regime of `base` against `first` and `second`: `base` is
/// aligned separately with each (their trading calendars differ), rolling
/// correlations of daily returns are computed over each alignment, and the two
/// are cut to their common most recent span; `None` when there are not enough
/// common days for a single window.
pub fn regime_correlations<V: Copy, R, K: Copy, L: Fn(V, V) -> R, C: Fn(&[R], &[R]) -> Option<K>>(
    base: &Series<V>,
    first: &Series<V>,
    second: &Series<V>,
    window: usize,
    log_return: L,
    correlation: C,
) -> (r: Option<(Vec<Day>, Vec<K>, Vec<K>)>)
    requires
        forall|a: V, b: V| #[trigger] log_return.requires((a, b)),
        forall|a: &[R], b: &[R]| #[trigger] correlation.requires((a, b)),
    ensures
        is_regime(log_return, correlation, base@, first@, second@, window as int, r),
{
    let first_aligned = align(base, first);
    let second_aligned = align(base, second);
    let (first_dates, first_values) = rolling_series(first_aligned.as_slice(), window, &log_return, &correlation);
    let (second_dates, second_values) = rolling_series(second_aligned.as_slice(), window, &log_return, &correlation);
    let r = recent_common_span(&first_dates, &first_values, &second_values);
    assert(is_rolling_series(log_return, correlation, first_aligned@, window as int, first_dates@, first_values@));
    assert(is_rolling_series(log_return, correlation, second_aligned@, window as int, second_dates@, second_values@));
    r
}

/// The correlation regime keeps the most recent common span: when there is a
/// result, both rolling series are non-empty, the result has the length of the
/// shorter one, and it is the last entries of each (and the dates of the last
/// entries of the first); when there is none, one of them is empty.
pub proof fn lemma_regime_keeps_most_recent<V, R, K, L: Fn(V, V) -> R, C: Fn(&[R], &[R]) -> Option<K>>(
    log_return: L,
    correlation: C,
    base: Seq<(Day, V)>,
    first: Seq<(Day, V)>,
    second: Seq<(Day, V)>,
    window: int,
    r: Option<(Vec<Day>, Vec<K>, Vec<K>)>,
)
    requires
        is_regime(log_return, correlation, base, first, second, window, r),
    ensures
        exists|fa: Seq<(Day, V, V)>, sa: Seq<(Day, V, V)>, fd: Seq<Day>, fv: Seq<K>, sd: Seq<Day>, sv: Seq<K>|
            #![trigger is_rolling_series(log_return, correlation, fa, window, fd, fv), is_rolling_series(log_return, correlation, sa, window, sd, sv)]
            {
                &&& is_alignment(base, first, fa)
                &&& is_alignment(base, second, sa)
                &&& is_rolling_series(log_return, correlation, fa, window, fd, fv)
                &&& is_rolling_series(log_return, correlation, sa, window, sd, sv)
                &&& fd.len() == fv.len()
                &&& (r is None ==> fv.len() == 0 || sv.len() == 0)
                &&& (r matches Some((d, f, s)) ==> {
                    &&& fv.len() > 0
                    &&& sv.len() > 0
                    &&& f@.len() == (if fv.len() <= sv.len() { fv.len() } else { sv.len() })
                    &&& d@.len() == f@.len()
                    &&& s@.len() == f@.len()
                    &&& d@ == fd.subrange(fd.len() - f@.len(), fd.len() as int)
                    &&& f@ == fv.subrange(fv.len() - f@.len(), fv.len() as int)
                    &&& s@ == sv.subrange(sv.len() - s@.len(), sv.len() as int)
                })
            },
{
    let (fa, sa, fd, fv, sd, sv) = choose|fa: Seq<(Day, V, V)>, sa: Seq<(Day, V, V)>, fd: Seq<Day>, fv: Seq<K>, sd: Seq<Day>, sv: Seq<K>|
        #![trigger is_rolling_series(log_return, correlation, fa, window, fd, fv), is_rolling_series(log_return, correlation, sa, window, sd, sv)]
        {
            &&& is_alignment(base, first, fa)
            &&& is_alignment(base, second, sa)
            &&& is_rolling_series(log_return, correlation, fa, window, fd, fv)
            &&& is_rolling_series(log_return, correlation, sa, window, sd, sv)
            &&& (r is None <==> common_len(fv.len() as int, sv.len() as int) == 0)
            &&& (r matches Some((d, f, s)) ==> {
                let n = common_len(fv.len() as int, sv.len() as int);
                &&& d@ == last_entries(fd, n)
                &&& f@ == last_entries(fv, n)
                &&& s@ == last_entries(sv, n)
            })
        };
    assert(is_rolling_series(log_return, correlation, fa, window, fd, fv));
    assert(is_rolling_series(log_return, correlation, sa, window, sd, sv));
}

} // verus!
