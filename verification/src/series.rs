use vstd::prelude::*;
use crate::day::Day;

verus! {

/// A dated price series: one value per entry, each entry carrying its day.
pub type Series<V> = Vec<(Day, V)>;

/// Entries sorted by strictly increasing day: ascending, each day once.
pub open spec fn strictly_by_day<V>(s: Seq<(Day, V)>) -> bool {
    forall|i: int, j: int|
        0 <= i < j < s.len() ==> #[trigger] s[i].0.days_from_ce < #[trigger] s[j].0.days_from_ce
}

/// Each day occurs at most once among the entries, in whatever order.
pub open spec fn distinct_days<V>(s: Seq<(Day, V)>) -> bool {
    forall|i: int, j: int| 0 <= i < j < s.len() ==> (#[trigger] s[i]).0 != (#[trigger] s[j]).0
}

/// `e` is an entry of `s` and no earlier entry of `s` falls on its day.
pub open spec fn is_first_entry<V>(s: Seq<(Day, V)>, e: (Day, V)) -> bool {
    exists|j: int|
        0 <= j < s.len() && #[trigger] s[j] == e && forall|k: int|
            0 <= k < j ==> (#[trigger] s[k]).0 != e.0
}

/// Some entry of `s` falls on day `d`.
pub open spec fn has_day<V>(s: Seq<(Day, V)>, d: Day) -> bool {
    exists|k: int| 0 <= k < s.len() && (#[trigger] s[k]).0 == d
}

/// The value of the last entry of `s` that falls on day `d`, if any.
pub open spec fn last_value_on<V>(s: Seq<(Day, V)>, d: Day) -> Option<V>
    decreases s.len(),
{
    if s.len() == 0 {
        None
    } else if s.last().0 == d {
        Some(s.last().1)
    } else {
        last_value_on(s.drop_last(), d)
    }
}

/// The inner join of `a` with `b` on the day, in the order of `a`: each entry
/// of `a` whose day occurs in `b` is paired with the value of the last entry
/// of `b` on that day.
pub open spec fn joined<V>(a: Seq<(Day, V)>, b: Seq<(Day, V)>) -> Seq<(Day, V, V)>
    decreases a.len(),
{
    if a.len() == 0 {
        Seq::empty()
    } else {
        let rest = joined(a.drop_last(), b);
        match last_value_on(b, a.last().0) {
            Some(vb) => rest.push((a.last().0, a.last().1, vb)),
            None => rest,
        }
    }
}

/// Whether a joined entry falls on the day numbered `d`.
pub open spec fn falls_on<V>(d: int) -> spec_fn((Day, V, V)) -> bool {
    |e: (Day, V, V)| e.0.days_from_ce == d
}

/// The joined entries of `s` on the day numbered `d`, in their order in `s`.
pub open spec fn on_day<V>(s: Seq<(Day, V, V)>, d: int) -> Seq<(Day, V, V)> {
    s.filter(falls_on::<V>(d))
}

/// Joined entries sorted by strictly increasing day: ascending, each day once.
pub open spec fn strictly_joined_by_day<V>(s: Seq<(Day, V, V)>) -> bool {
    forall|i: int, j: int|
        0 <= i < j < s.len() ==> #[trigger] s[i].0.days_from_ce < #[trigger] s[j].0.days_from_ce
}

/// The joined entries with their two value columns exchanged.
pub open spec fn swap_values<V>(s: Seq<(Day, V, V)>) -> Seq<(Day, V, V)> {
    s.map_values(|e: (Day, V, V)| (e.0, e.2, e.1))
}

/// Joined entries sorted by ascending day.
pub open spec fn sorted_by_day<V>(s: Seq<(Day, V, V)>) -> bool {
    forall|i: int, j: int|
        0 <= i < j < s.len() ==> #[trigger] s[i].0.days_from_ce <= #[trigger] s[j].0.days_from_ce
}

proof fn lemma_first_entry_step<V>(s: Seq<(Day, V)>, i: int, x: (Day, V))
    requires
        0 <= i < s.len(),
    ensures
        is_first_entry(s.take(i + 1), x) <==> (is_first_entry(s.take(i), x) || (x == s[i]
            && forall|k: int| 0 <= k < i ==> s[k].0 != s[i].0)),
{
    let t = s.take(i);
    let t1 = s.take(i + 1);
    if is_first_entry(t1, x) {
        let j = choose|j: int|
            0 <= j < t1.len() && #[trigger] t1[j] == x && forall|k: int|
                0 <= k < j ==> (#[trigger] t1[k]).0 != x.0;
        if j < i {
            assert(t[j] == x);
            assert forall|k: int| 0 <= k < j implies (#[trigger] t[k]).0 != x.0 by {
                assert(t1[k] == t[k]);
            }
        } else {
            assert forall|k: int| 0 <= k < i implies s[k].0 != s[i].0 by {
                assert(t1[k] == s[k]);
            }
        }
    }
    if is_first_entry(t, x) {
        let j = choose|j: int|
            0 <= j < t.len() && #[trigger] t[j] == x && forall|k: int|
                0 <= k < j ==> (#[trigger] t[k]).0 != x.0;
        assert(t1[j] == x);
        assert forall|k: int| 0 <= k < j implies (#[trigger] t1[k]).0 != x.0 by {
            assert(t1[k] == t[k]);
        }
    }
    if x == s[i] && forall|k: int| 0 <= k < i ==> s[k].0 != s[i].0 {
        assert(t1[i] == x);
        assert forall|k: int| 0 <= k < i implies (#[trigger] t1[k]).0 != x.0 by {
            assert(t1[k] == s[k]);
        }
    }
}

/// Sorts a series by day and keeps, for each day, the earliest entry on it.
pub fn dedup_by_date<V: Copy>(series: Series<V>) -> (r: Series<V>)
    ensures
        strictly_by_day(r@),
        forall|e: (Day, V)| r@.contains(e) <==> is_first_entry(series@, e),
        forall|i: int, j: int|
            0 <= i < j < r.len() ==> #[trigger] r@[i].0.days_from_ce < #[trigger] r@[j].0.days_from_ce,
        forall|e: (Day, V)|
            #[trigger] r@.contains(e) <==> exists|j: int|
                0 <= j < series.len() && #[trigger] series@[j] == e && forall|k: int|
                    0 <= k < j ==> (#[trigger] series@[k]).0 != e.0,
{
    let ghost s = series@;
    let mut out: Vec<(Day, V)> = Vec::new();
    let n = series.len();
    let mut i: usize = 0;
    while i < n
        invariant
            n == series.len(),
            s == series@,
            i <= n,
            strictly_by_day(out@),
            forall|e: (Day, V)| out@.contains(e) <==> is_first_entry(s.take(i as int), e),
            forall|j: int| 0 <= j < i ==> has_day(out@, #[trigger] s[j].0),
        decreases n - i,
    {
        let e = series[i];
        let d = e.0.days_from_ce;
        let mut p: usize = 0;
        while p < out.len() && out[p].0.days_from_ce < d
            invariant
                p <= out.len(),
                forall|k: int| 0 <= k < p ==> (#[trigger] out@[k]).0.days_from_ce < d,
            decreases out.len() - p,
        {
            p += 1;
        }
        let ghost old_out = out@;
        if p < out.len() && out[p].0.days_from_ce == d {
            proof {
                let w = out@[p as int];
                assert(w.0 == e.0);
                assert(out@.contains(w));
                let jw = choose|j: int|
                    0 <= j < s.take(i as int).len() && #[trigger] s.take(i as int)[j] == w
                        && forall|k: int|
                        0 <= k < j ==> (#[trigger] s.take(i as int)[k]).0 != w.0;
                assert(s[jw].0 == s[i as int].0);
                assert forall|x: (Day, V)| out@.contains(x) <==> is_first_entry(
                    s.take(i + 1),
                    x,
                ) by {
                    lemma_first_entry_step(s, i as int, x);
                }
                assert forall|j: int| 0 <= j < i + 1 implies has_day(out@, #[trigger] s[j].0) by {
                    if j == i {
                        assert(out@[p as int].0 == s[j].0);
                    }
                }
            }
        } else {
            out.insert(p, e);
            proof {
                let o = out@;
                assert forall|a: int, b: int|
                    0 <= a < b < o.len() implies #[trigger] o[a].0.days_from_ce
                    < #[trigger] o[b].0.days_from_ce by {
                    if b < p {
                        assert(o[a] == old_out[a] && o[b] == old_out[b]);
                    } else if b == p {
                        assert(o[a] == old_out[a]);
                    } else if a < p {
                        assert(o[a] == old_out[a] && o[b] == old_out[b - 1]);
                    } else if a == p {
                        assert(o[b] == old_out[b - 1]);
                        assert(old_out[p as int].0.days_from_ce >= d);
                        assert(old_out[p as int].0.days_from_ce != d);
                        if b - 1 > p {
                            assert(old_out[p as int].0.days_from_ce < old_out[b - 1].0.days_from_ce);
                        }
                    } else {
                        assert(o[a] == old_out[a - 1] && o[b] == old_out[b - 1]);
                    }
                }
                // no earlier entry falls on this day
                assert forall|k: int| 0 <= k < i implies s[k].0 != s[i as int].0 by {
                    assert(has_day(old_out, s[k].0));
                    let m = choose|m: int| 0 <= m < old_out.len() && (#[trigger] old_out[m]).0 == s[k].0;
                    if m < p {
                    } else {
                        assert(old_out[p as int].0.days_from_ce != d);
                        if m > p {
                            assert(old_out[p as int].0.days_from_ce < old_out[m].0.days_from_ce);
                        }
                    }
                }
                assert forall|x: (Day, V)| o.contains(x) <==> is_first_entry(
                    s.take(i + 1),
                    x,
                ) by {
                    lemma_first_entry_step(s, i as int, x);
                    if o.contains(x) {
                        let m = choose|m: int| 0 <= m < o.len() && o[m] == x;
                        if m < p {
                            assert(old_out[m] == x);
                        } else if m > p {
                            assert(old_out[m - 1] == x);
                        }
                    }
                    if old_out.contains(x) {
                        let m = choose|m: int| 0 <= m < old_out.len() && old_out[m] == x;
                        if m < p {
                            assert(o[m] == x);
                        } else {
                            assert(o[m + 1] == x);
                        }
                    }
                    if x == e {
                        assert(o[p as int] == x);
                    }
                }
                assert forall|j: int| 0 <= j < i + 1 implies has_day(o, #[trigger] s[j].0) by {
                    if j == i {
                        assert(o[p as int].0 == s[j].0);
                    } else {
                        assert(has_day(old_out, s[j].0));
                        let m = choose|m: int| 0 <= m < old_out.len() && (#[trigger] old_out[m]).0 == s[j].0;
                        if m < p {
                            assert(o[m] == old_out[m]);
                        } else {
                            assert(o[m + 1] == old_out[m]);
                        }
                    }
                }
            }
        }
        i += 1;
    }
    proof {
        assert(s.take(n as int) =~= s);
    }
    out
}

proof fn lemma_filter_push<T>(s: Seq<T>, x: T, pred: spec_fn(T) -> bool)
    ensures
        s.push(x).filter(pred) == (if pred(x) {
            s.filter(pred).push(x)
        } else {
            s.filter(pred)
        }),
{
    reveal_with_fuel(Seq::filter, 1);
    assert(s.push(x).drop_last() =~= s);
}

proof fn lemma_filter_none<T>(s: Seq<T>, pred: spec_fn(T) -> bool)
    requires
        forall|k: int| 0 <= k < s.len() ==> !pred(#[trigger] s[k]),
    ensures
        s.filter(pred) =~= Seq::<T>::empty(),
    decreases s.len(),
{
    reveal_with_fuel(Seq::filter, 1);
    if s.len() > 0 {
        assert forall|k: int| 0 <= k < s.drop_last().len() implies !pred(
            #[trigger] s.drop_last()[k],
        ) by {
            assert(s.drop_last()[k] == s[k]);
        }
        lemma_filter_none(s.drop_last(), pred);
    }
}


/// `r` is the inner join of `a` with `b` sorted by day: ascending days, and
/// on each day the joined entries of that day in the order of `a`.
pub open spec fn is_alignment<V>(a: Seq<(Day, V)>, b: Seq<(Day, V)>, r: Seq<(Day, V, V)>) -> bool {
    &&& sorted_by_day(r)
    &&& forall|d: int| #[trigger] on_day(r, d) == on_day(joined(a, b), d)
}

/// Some joined entry of `s` falls on day `d`.
pub open spec fn has_joined_day<V>(s: Seq<(Day, V, V)>, d: Day) -> bool {
    exists|k: int| 0 <= k < s.len() && (#[trigger] s[k]).0 == d
}

proof fn lemma_filter_nonempty<T>(s: Seq<T>, pred: spec_fn(T) -> bool)
    ensures
        s.filter(pred).len() > 0 <==> exists|k: int| 0 <= k < s.len() && pred(#[trigger] s[k]),
    decreases s.len(),
{
    reveal_with_fuel(Seq::filter, 1);
    if s.len() > 0 {
        lemma_filter_nonempty(s.drop_last(), pred);
        if exists|k: int| 0 <= k < s.drop_last().len() && pred(#[trigger] s.drop_last()[k]) {
            let k = choose|k: int| 0 <= k < s.drop_last().len() && pred(#[trigger] s.drop_last()[k]);
            assert(s[k] == s.drop_last()[k]);
        }
        if exists|k: int| 0 <= k < s.len() && pred(#[trigger] s[k]) {
            let k = choose|k: int| 0 <= k < s.len() && pred(#[trigger] s[k]);
            if k < s.len() - 1 {
                assert(s.drop_last()[k] == s[k]);
            }
        }
    }
}

proof fn lemma_last_value_exists<V>(b: Seq<(Day, V)>, d: Day)
    ensures
        last_value_on(b, d) is Some <==> has_day(b, d),
    decreases b.len(),
{
    if b.len() > 0 {
        lemma_last_value_exists(b.drop_last(), d);
        if has_day(b.drop_last(), d) {
            let k = choose|k: int| 0 <= k < b.drop_last().len() && (#[trigger] b.drop_last()[k]).0 == d;
            assert(b[k] == b.drop_last()[k]);
        }
        if has_day(b, d) && b.last().0 != d {
            let k = choose|k: int| 0 <= k < b.len() && (#[trigger] b[k]).0 == d;
            assert(b.drop_last()[k] == b[k]);
        }
        if b.last().0 == d {
            assert(b[b.len() - 1].0 == d);
        }
    }
}

proof fn lemma_joined_days<V>(a: Seq<(Day, V)>, b: Seq<(Day, V)>, d: Day)
    ensures
        has_joined_day(joined(a, b), d) <==> has_day(a, d) && has_day(b, d),
    decreases a.len(),
{
    lemma_last_value_exists(b, d);
    if a.len() > 0 {
        let prev = joined(a.drop_last(), b);
        lemma_joined_days(a.drop_last(), b, d);
        lemma_last_value_exists(b, a.last().0);
        let j = joined(a, b);
        if has_joined_day(prev, d) {
            let k = choose|k: int| 0 <= k < prev.len() && (#[trigger] prev[k]).0 == d;
            assert(j[k] == prev[k]);
            let m = choose|m: int| 0 <= m < a.drop_last().len() && (#[trigger] a.drop_last()[m]).0 == d;
            assert(a[m] == a.drop_last()[m]);
        }
        if has_joined_day(j, d) {
            let k = choose|k: int| 0 <= k < j.len() && (#[trigger] j[k]).0 == d;
            if k < prev.len() {
                assert(prev[k] == j[k]);
            } else {
                assert(a[a.len() - 1].0 == d);
            }
        }
        if has_day(a, d) && has_day(b, d) {
            let m = choose|m: int| 0 <= m < a.len() && (#[trigger] a[m]).0 == d;
            if m < a.len() - 1 {
                assert(a.drop_last()[m] == a[m]);
                let k = choose|k: int| 0 <= k < prev.len() && (#[trigger] prev[k]).0 == d;
                assert(j[k] == prev[k]);
            } else {
                assert(j[j.len() - 1].0 == d);
            }
        }
    }
}

proof fn lemma_on_day_nonempty<V>(s: Seq<(Day, V, V)>, d: Day)
    ensures
        on_day(s, d.days_from_ce as int).len() > 0 <==> has_joined_day(s, d),
{
    let pred = falls_on::<V>(d.days_from_ce as int);
    lemma_filter_nonempty(s, pred);
    if has_joined_day(s, d) {
        let k = choose|k: int| 0 <= k < s.len() && (#[trigger] s[k]).0 == d;
        assert(pred(s[k]));
    }
    if exists|k: int| 0 <= k < s.len() && pred(#[trigger] s[k]) {
        let k = choose|k: int| 0 <= k < s.len() && pred(#[trigger] s[k]);
        assert(s[k].0 == d);
    }
}

proof fn lemma_last_value_on_is_last<V>(b: Seq<(Day, V)>, d: Day, v: V)
    ensures
        last_value_on(b, d) == Some(v) <==> exists|j: int|
            0 <= j < b.len() && #[trigger] b[j] == (d, v) && forall|q: int| j < q < b.len() ==> (#[trigger] b[q]).0 != d,
    decreases b.len(),
{
    if b.len() > 0 {
        let p = b.drop_last();
        lemma_last_value_on_is_last(p, d, v);
        if last_value_on(b, d) == Some(v) {
            if b.last().0 == d {
                assert(b[b.len() - 1] == (d, v));
            } else {
                let j = choose|j: int|
                    0 <= j < p.len() && #[trigger] p[j] == (d, v) && forall|q: int| j < q < p.len() ==> (#[trigger] p[q]).0 != d;
                assert(b[j] == (d, v));
                assert forall|q: int| j < q < b.len() implies (#[trigger] b[q]).0 != d by {
                    if q < b.len() - 1 {
                        assert(b[q] == p[q]);
                    }
                }
            }
        }
        if exists|j: int|
            0 <= j < b.len() && #[trigger] b[j] == (d, v) && forall|q: int| j < q < b.len() ==> (#[trigger] b[q]).0 != d {
            let j = choose|j: int|
                0 <= j < b.len() && #[trigger] b[j] == (d, v) && forall|q: int| j < q < b.len() ==> (#[trigger] b[q]).0 != d;
            if j == b.len() - 1 {
            } else {
                assert(b[b.len() - 1].0 != d);
                assert(p[j] == (d, v));
                assert forall|q: int| j < q < p.len() implies (#[trigger] p[q]).0 != d by {
                    assert(b[q] == p[q]);
                }
            }
        }
    }
}

/// Whether an entry falls on day `d`.
pub open spec fn entry_on<V>(d: Day) -> spec_fn((Day, V)) -> bool {
    |e: (Day, V)| e.0 == d
}

/// Pairs an entry with the value `vb`.
pub open spec fn joined_with<V>(vb: V) -> spec_fn((Day, V)) -> (Day, V, V) {
    |e: (Day, V)| (e.0, e.1, vb)
}

proof fn lemma_joined_on_day<V>(a: Seq<(Day, V)>, b: Seq<(Day, V)>, d: Day, vb: V)
    requires
        last_value_on(b, d) == Some(vb),
    ensures
        on_day(joined(a, b), d.days_from_ce as int) == a.filter(entry_on::<V>(d)).map_values(
            joined_with::<V>(vb),
        ),
    decreases a.len(),
{
    let pa = entry_on::<V>(d);
    let f = joined_with::<V>(vb);
    let pj = falls_on::<V>(d.days_from_ce as int);
    reveal_with_fuel(Seq::filter, 1);
    if a.len() == 0 {
        assert(a.filter(pa).map_values(f) =~= Seq::<(Day, V, V)>::empty());
        assert(joined(a, b) =~= Seq::<(Day, V, V)>::empty());
    } else {
        let p = a.drop_last();
        let x = a.last();
        lemma_joined_on_day(p, b, d, vb);
        let prev = joined(p, b);
        lemma_filter_push(p, x, pa);
        assert(a =~= p.push(x));
        lemma_last_value_exists(b, x.0);
        match last_value_on(b, x.0) {
            Some(wb) => {
                let y = (x.0, x.1, wb);
                lemma_filter_push(prev, y, pj);
                if x.0 == d {
                    assert(wb == vb);
                    assert(p.filter(pa).push(x).map_values(f) =~= p.filter(pa).map_values(f).push(f(x)));
                } else {
                    assert(x.0.days_from_ce != d.days_from_ce);
                }
            },
            None => {
                assert(x.0 != d);
            },
        }
    }
}

/// The value of the last entry of `b` on day `d`, found by scanning from the end.
fn last_value_on_day<V: Copy>(b: &Series<V>, d: Day) -> (r: Option<V>)
    ensures
        r == last_value_on(b@, d),
{
    let mut j = b.len();
    proof {
        assert(b@.take(j as int) =~= b@);
    }
    while j > 0
        invariant
            j <= b.len(),
            last_value_on(b@, d) == last_value_on(b@.take(j as int), d),
        decreases j,
    {
        proof {
            assert(b@.take(j as int).drop_last() =~= b@.take(j - 1));
        }
        if b[j - 1].0.days_from_ce == d.days_from_ce {
            return Some(b[j - 1].1);
        }
        j -= 1;
    }
    None
}

/// How many consecutive pairs a sequence of `n` entries has.
pub open spec fn pair_count(n: int) -> int {
    if n <= 0 {
        0
    } else {
        n - 1
    }
}

/// `rets` holds one return per pair of consecutive prices, in order, each
/// a value that `log_return` may give for that pair (earlier price first).
pub open spec fn are_returns<V, R, L: Fn(V, V) -> R>(log_return: L, prices: Seq<V>, rets: Seq<R>) -> bool {
    &&& rets.len() == pair_count(prices.len() as int)
    &&& forall|k: int|
        0 <= k < rets.len() ==> log_return.ensures((prices[k], prices[k + 1]), #[trigger] rets[k])
}

/// Daily returns from a price series, one per pair of consecutive prices
/// (n prices give n - 1 returns, none for fewer than two prices): entry `k` is
/// `log_return(prices[k], prices[k + 1])`.
pub fn log_returns<V: Copy, R, L: Fn(V, V) -> R>(prices: &[V], log_return: L) -> (r: Vec<R>)
    requires
        forall|a: V, b: V| #[trigger] log_return.requires((a, b)),
    ensures
        are_returns(log_return, prices@, r@),
        prices@.len() >= 1 ==> r.len() == prices@.len() - 1,
        prices@.len() == 0 ==> r.len() == 0,
        forall|k: int| 0 <= k < r.len() ==> log_return.ensures((prices@[k], prices@[k + 1]), #[trigger] r@[k]),
{
    let mut out: Vec<R> = Vec::new();
    let n = prices.len();
    let mut k: usize = 1;
    while k < n
        invariant
            n == prices@.len(),
            1 <= k,
            n > 0 ==> k <= n,
            n == 0 ==> k == 1,
            out.len() == k - 1,
            forall|a: V, b: V| #[trigger] log_return.requires((a, b)),
            forall|j: int|
                0 <= j < out.len() ==> log_return.ensures((prices@[j], prices@[j + 1]), #[trigger] out@[j]),
        decreases n - k,
    {
        let value = log_return(prices[k - 1], prices[k]);
        out.push(value);
        k += 1;
    }
    out
}

/// Inner-joins two price series on the day, sorted ascending by day.
///
/// Each entry of `a` whose day occurs in `b` gives one entry
/// `(day, value in a, value of the last entry of b on that day)`; entries on
/// the same day keep the order they have in `a`.
#[verifier::rlimit(40)]
pub fn align<V: Copy>(a: &Series<V>, b: &Series<V>) -> (r: Vec<(Day, V, V)>)
    ensures
        is_alignment(a@, b@, r@),
        forall|d: Day| #[trigger] has_joined_day(r@, d) <==> has_day(a@, d) && has_day(b@, d),
        forall|i: int, j: int|
            0 <= i < j < r.len() ==> #[trigger] r@[i].0.days_from_ce <= #[trigger] r@[j].0.days_from_ce,
        forall|e: (Day, V, V)|
            #[trigger] r@.contains(e) <==> (a@.contains((e.0, e.1)) && exists|j: int|
                0 <= j < b.len() && #[trigger] b@[j] == (e.0, e.2) && forall|q: int|
                    j < q < b.len() ==> (#[trigger] b@[q]).0 != e.0),
        forall|d: Day|
            #[trigger] last_value_on(b@, d) is Some ==> r@.filter(
                |e: (Day, V, V)| e.0.days_from_ce == d.days_from_ce,
            ) == a@.filter(|e: (Day, V)| e.0 == d).map_values(
                |e: (Day, V)| (e.0, e.1, last_value_on(b@, d).unwrap()),
            ),
{
    let mut out: Vec<(Day, V, V)> = Vec::new();
    let n = a.len();
    let mut i: usize = 0;
    while i < n
        invariant
            n == a.len(),
            i <= n,
            sorted_by_day(out@),
            forall|d: int| #[trigger] on_day(out@, d) == on_day(joined(a@.take(i as int), b@), d),
        decreases n - i,
    {
        let e = a[i];
        proof {
            assert(a@.take(i + 1).drop_last() =~= a@.take(i as int));
            assert(a@.take(i + 1).last() == e);
        }
        let found = last_value_on_day(b, e.0);
        match found {
            Some(vb) => {
                let x = (e.0, e.1, vb);
                let dx = e.0.days_from_ce;
                let mut p: usize = 0;
                while p < out.len() && out[p].0.days_from_ce <= dx
                    invariant
                        p <= out.len(),
                        forall|k: int| 0 <= k < p ==> (#[trigger] out@[k]).0.days_from_ce <= dx,
                    decreases out.len() - p,
                {
                    p += 1;
                }
                let ghost old_out = out@;
                let ghost left = old_out.subrange(0, p as int);
                let ghost right = old_out.subrange(p as int, old_out.len() as int);
                out.insert(p, x);
                proof {
                    let o = out@;
                    assert(old_out =~= left + right);
                    assert(o =~= left.push(x) + right);
                    assert forall|k: int| 0 <= k < right.len() implies (#[trigger] right[k]).0.days_from_ce > dx by {
                        if k > 0 {
                            assert(old_out[p as int].0.days_from_ce <= old_out[p + k].0.days_from_ce);
                        }
                    }
                    assert forall|a1: int, b1: int|
                        0 <= a1 < b1 < o.len() implies #[trigger] o[a1].0.days_from_ce
                        <= #[trigger] o[b1].0.days_from_ce by {
                        if b1 < p {
                            assert(o[a1] == old_out[a1] && o[b1] == old_out[b1]);
                        } else if b1 == p {
                            assert(o[a1] == old_out[a1]);
                        } else if a1 < p {
                            assert(o[a1] == old_out[a1] && o[b1] == old_out[b1 - 1]);
                        } else if a1 == p {
                            assert(o[b1] == right[b1 - 1 - p]);
                        } else {
                            assert(o[a1] == old_out[a1 - 1] && o[b1] == old_out[b1 - 1]);
                        }
                    }
                    let ja = joined(a@.take(i as int), b@);
                    let jb = joined(a@.take(i + 1), b@);
                    assert(jb == ja.push(x));
                    assert forall|d: int| #[trigger] on_day(o, d) == on_day(jb, d) by {
                        let pred = falls_on::<V>(d);
                        Seq::filter_distributes_over_add(left.push(x), right, pred);
                        Seq::filter_distributes_over_add(left, right, pred);
                        lemma_filter_push(left, x, pred);
                        lemma_filter_push(ja, x, pred);
                        assert(on_day(old_out, d) == on_day(ja, d));
                        if d == dx {
                            lemma_filter_none(right, pred);
                            assert(right.filter(pred) =~= Seq::<(Day, V, V)>::empty());
                            assert(on_day(o, d) =~= left.filter(pred).push(x));
                            assert(on_day(old_out, d) =~= left.filter(pred));
                        } else {
                            assert(on_day(o, d) =~= on_day(old_out, d));
                        }
                    }
                }
            },
            None => {
                proof {
                    assert(joined(a@.take(i + 1), b@) == joined(a@.take(i as int), b@));
                }
            },
        }
        i += 1;
    }
    proof {
        assert(a@.take(n as int) =~= a@);
        assert forall|d: Day| #[trigger] has_joined_day(out@, d) <==> has_day(a@, d) && has_day(b@, d) by {
            lemma_on_day_nonempty(out@, d);
            lemma_on_day_nonempty(joined(a@, b@), d);
            lemma_joined_days(a@, b@, d);
            assert(on_day(out@, d.days_from_ce as int) == on_day(joined(a@, b@), d.days_from_ce as int));
        }
        assert forall|e: (Day, V, V)|
            #[trigger] out@.contains(e) <==> (a@.contains((e.0, e.1)) && exists|j: int|
                0 <= j < b.len() && #[trigger] b@[j] == (e.0, e.2) && forall|q: int|
                    j < q < b.len() ==> (#[trigger] b@[q]).0 != e.0) by {
            lemma_alignment_contains(a@, b@, out@, e);
            lemma_joined_contains(a@, b@, e);
            lemma_last_value_on_is_last(b@, e.0, e.2);
        }
        assert forall|d: Day| #[trigger] last_value_on(b@, d) is Some implies out@.filter(
            |e: (Day, V, V)| e.0.days_from_ce == d.days_from_ce,
        ) == a@.filter(|e: (Day, V)| e.0 == d).map_values(
            |e: (Day, V)| (e.0, e.1, last_value_on(b@, d).unwrap()),
        ) by {
            let dd = d.days_from_ce as int;
            let vb = last_value_on(b@, d).unwrap();
            lemma_joined_on_day(a@, b@, d, vb);
            assert(on_day(out@, dd) == on_day(joined(a@, b@), dd));
            let pr = |e: (Day, V, V)| e.0.days_from_ce == d.days_from_ce;
            assert(pr =~= falls_on::<V>(dd));
            let f1 = |e: (Day, V)| (e.0, e.1, vb);
            let f2 = |e: (Day, V)| (e.0, e.1, last_value_on(b@, d).unwrap());
            assert(f1 =~= f2);
            assert(f1 =~= joined_with::<V>(vb));
            let pa = |e: (Day, V)| e.0 == d;
            assert(pa =~= entry_on::<V>(d));
            assert(out@.filter(pr) == a@.filter(pa).map_values(f1));
            assert(out@.filter(pr) == a@.filter(pa).map_values(f2));
        }
    }
    out
}

proof fn lemma_filter_two<T>(s: Seq<T>, pred: spec_fn(T) -> bool, i: int, j: int)
    requires
        0 <= i < j < s.len(),
        pred(s[i]),
        pred(s[j]),
    ensures
        s.filter(pred).len() >= 2,
    decreases s.len(),
{
    reveal_with_fuel(Seq::filter, 1);
    let prefix = s.drop_last();
    if j == s.len() - 1 {
        assert(prefix[i] == s[i]);
        lemma_filter_nonempty(prefix, pred);
    } else {
        assert(prefix[i] == s[i] && prefix[j] == s[j]);
        lemma_filter_two(prefix, pred, i, j);
    }
}

proof fn lemma_joined_once_per_day<V>(a: Seq<(Day, V)>, b: Seq<(Day, V)>, d: int)
    requires
        distinct_days(a),
    ensures
        on_day(joined(a, b), d).len() <= 1,
    decreases a.len(),
{
    if a.len() > 0 {
        let prefix = a.drop_last();
        assert(distinct_days(prefix)) by {
            assert forall|i: int, j: int|
                0 <= i < j < prefix.len() implies (#[trigger] prefix[i]).0 != (#[trigger] prefix[j]).0 by {
                assert(prefix[i] == a[i] && prefix[j] == a[j]);
            }
        }
        lemma_joined_once_per_day(prefix, b, d);
        let prev = joined(prefix, b);
        let last = a.last();
        match last_value_on(b, last.0) {
            Some(vb) => {
                let x = (last.0, last.1, vb);
                lemma_filter_push(prev, x, falls_on::<V>(d));
                if last.0.days_from_ce == d {
                    lemma_joined_days(prefix, b, last.0);
                    lemma_on_day_nonempty(prev, last.0);
                    if has_day(prefix, last.0) {
                        let k = choose|k: int| 0 <= k < prefix.len() && (#[trigger] prefix[k]).0 == last.0;
                        assert(prefix[k] == a[k]);
                        assert(a[k].0 != a[a.len() - 1].0);
                    }
                }
            },
            None => {},
        }
    }
}

/// Aligning a series that has each day at most once, in any order, with any
/// series gives a daily series: the joined entries have strictly increasing
/// days.
pub proof fn lemma_align_daily_series_is_daily<V>(
    a: Seq<(Day, V)>,
    b: Seq<(Day, V)>,
    r: Seq<(Day, V, V)>,
)
    requires
        distinct_days(a),
        is_alignment(a, b, r),
    ensures
        strictly_joined_by_day(r),
{
    assert forall|i: int, j: int|
        0 <= i < j < r.len() implies #[trigger] r[i].0.days_from_ce
        < #[trigger] r[j].0.days_from_ce by {
        let d = r[i].0.days_from_ce as int;
        if r[j].0.days_from_ce as int == d {
            lemma_filter_two(r, falls_on::<V>(d), i, j);
            lemma_joined_once_per_day(a, b, d);
            assert(on_day(r, d) == on_day(joined(a, b), d));
        }
    }
}

proof fn lemma_strictly_keyed_equal<T>(r: Seq<T>, s: Seq<T>, key: spec_fn(T) -> int)
    requires
        forall|i: int, j: int| 0 <= i < j < r.len() ==> key(#[trigger] r[i]) < key(#[trigger] r[j]),
        forall|i: int, j: int| 0 <= i < j < s.len() ==> key(#[trigger] s[i]) < key(#[trigger] s[j]),
        forall|e: T| r.contains(e) <==> s.contains(e),
    ensures
        r == s,
    decreases s.len(),
{
    if s.len() == 0 {
        if r.len() > 0 {
            assert(r.contains(r[0]));
        }
        assert(r =~= s);
    } else {
        assert(s.contains(s[0]));
        assert(r.contains(s[0]));
        let m = choose|m: int| 0 <= m < r.len() && r[m] == s[0];
        assert(r.contains(r[0]));
        let k = choose|k: int| 0 <= k < s.len() && s[k] == r[0];
        if m > 0 {
            assert(key(r[0]) < key(r[m]));
            if k > 0 {
                assert(key(s[0]) < key(s[k]));
            }
        }
        assert(r[0] == s[0]);
        let r1 = r.drop_first();
        let s1 = s.drop_first();
        assert forall|i: int, j: int| 0 <= i < j < r1.len() implies key(#[trigger] r1[i]) < key(
            #[trigger] r1[j],
        ) by {
            assert(r1[i] == r[i + 1] && r1[j] == r[j + 1]);
        }
        assert forall|i: int, j: int| 0 <= i < j < s1.len() implies key(#[trigger] s1[i]) < key(
            #[trigger] s1[j],
        ) by {
            assert(s1[i] == s[i + 1] && s1[j] == s[j + 1]);
        }
        assert forall|e: T| r1.contains(e) <==> s1.contains(e) by {
            if r1.contains(e) {
                let i = choose|i: int| 0 <= i < r1.len() && r1[i] == e;
                assert(r[i + 1] == e);
                assert(key(r[0]) < key(r[i + 1]));
                assert(s.contains(e));
                let j = choose|j: int| 0 <= j < s.len() && s[j] == e;
                assert(j != 0);
                assert(s1[j - 1] == e);
            }
            if s1.contains(e) {
                let i = choose|i: int| 0 <= i < s1.len() && s1[i] == e;
                assert(s[i + 1] == e);
                assert(key(s[0]) < key(s[i + 1]));
                assert(r.contains(e));
                let j = choose|j: int| 0 <= j < r.len() && r[j] == e;
                assert(j != 0);
                assert(r1[j - 1] == e);
            }
        }
        lemma_strictly_keyed_equal(r1, s1, key);
        assert(r.len() == s.len());
        assert forall|i: int| 0 <= i < r.len() implies r[i] == s[i] by {
            if i > 0 {
                assert(r[i] == r1[i - 1]);
                assert(s[i] == s1[i - 1]);
            }
        }
        assert(r =~= s);
    }
}

/// De-duplicating a daily series (days strictly increasing) gives it back
/// unchanged; in particular de-duplicating twice is the same as once.
pub proof fn lemma_dedup_keeps_daily_series<V>(s: Seq<(Day, V)>, r: Seq<(Day, V)>)
    requires
        strictly_by_day(s),
        strictly_by_day(r),
        forall|e: (Day, V)| r.contains(e) <==> is_first_entry(s, e),
    ensures
        r == s,
{
    assert forall|e: (Day, V)| r.contains(e) <==> s.contains(e) by {
        if s.contains(e) {
            let j = choose|j: int| 0 <= j < s.len() && s[j] == e;
            assert forall|k: int| 0 <= k < j implies (#[trigger] s[k]).0 != e.0 by {
                assert(s[k].0.days_from_ce < s[j].0.days_from_ce);
            }
            assert(is_first_entry(s, e));
        }
        if is_first_entry(s, e) {
            let j = choose|j: int|
                0 <= j < s.len() && #[trigger] s[j] == e && forall|k: int|
                    0 <= k < j ==> (#[trigger] s[k]).0 != e.0;
            assert(s.contains(e));
        }
    }
    let key = |e: (Day, V)| e.0.days_from_ce as int;
    assert forall|i: int, j: int| 0 <= i < j < r.len() implies key(#[trigger] r[i]) < key(#[trigger] r[j]) by {}
    assert forall|i: int, j: int| 0 <= i < j < s.len() implies key(#[trigger] s[i]) < key(#[trigger] s[j]) by {}
    lemma_strictly_keyed_equal(r, s, key);
}

proof fn lemma_filter_contains_iff<T>(s: Seq<T>, pred: spec_fn(T) -> bool, x: T)
    requires
        pred(x),
    ensures
        s.filter(pred).contains(x) <==> s.contains(x),
    decreases s.len(),
{
    reveal_with_fuel(Seq::filter, 1);
    if s.len() > 0 {
        let prefix = s.drop_last();
        lemma_filter_contains_iff(prefix, pred, x);
        let f = s.filter(pred);
        let fp = prefix.filter(pred);
        if s.contains(x) {
            let i = choose|i: int| 0 <= i < s.len() && s[i] == x;
            if i < s.len() - 1 {
                assert(prefix[i] == x);
                let k = choose|k: int| 0 <= k < fp.len() && fp[k] == x;
                if pred(s.last()) {
                    assert(f[k] == x);
                } else {
                    assert(f[k] == x);
                }
            } else {
                assert(f[f.len() - 1] == x);
            }
        }
        if f.contains(x) {
            let k = choose|k: int| 0 <= k < f.len() && f[k] == x;
            if pred(s.last()) && k == f.len() - 1 {
                assert(s[s.len() - 1] == x);
            } else {
                assert(fp[k] == x);
                let i = choose|i: int| 0 <= i < prefix.len() && prefix[i] == x;
                assert(s[i] == x);
            }
        }
    }
}

proof fn lemma_joined_contains<V>(a: Seq<(Day, V)>, b: Seq<(Day, V)>, e: (Day, V, V))
    ensures
        joined(a, b).contains(e) <==> (a.contains((e.0, e.1)) && last_value_on(b, e.0) == Some(e.2)),
    decreases a.len(),
{
    if a.len() > 0 {
        let prefix = a.drop_last();
        let prev = joined(prefix, b);
        let j = joined(a, b);
        lemma_joined_contains(prefix, b, e);
        if prev.contains(e) {
            let k = choose|k: int| 0 <= k < prev.len() && prev[k] == e;
            assert(j[k] == e);
            let i = choose|i: int| 0 <= i < prefix.len() && prefix[i] == (e.0, e.1);
            assert(a[i] == (e.0, e.1));
        }
        if j.contains(e) {
            let k = choose|k: int| 0 <= k < j.len() && j[k] == e;
            if k < prev.len() {
                assert(prev[k] == e);
            } else {
                assert(a[a.len() - 1] == (e.0, e.1));
            }
        }
        if a.contains((e.0, e.1)) && last_value_on(b, e.0) == Some(e.2) {
            let i = choose|i: int| 0 <= i < a.len() && a[i] == (e.0, e.1);
            if i < a.len() - 1 {
                assert(prefix[i] == (e.0, e.1));
                let k = choose|k: int| 0 <= k < prev.len() && prev[k] == e;
                assert(j[k] == e);
            } else {
                assert(j[j.len() - 1] == e);
            }
        }
    }
}

proof fn lemma_distinct_contains<V>(a: Seq<(Day, V)>, d: Day, v: V)
    requires
        distinct_days(a),
    ensures
        a.contains((d, v)) <==> last_value_on(a, d) == Some(v),
    decreases a.len(),
{
    if a.len() > 0 {
        let prefix = a.drop_last();
        assert(distinct_days(prefix)) by {
            assert forall|i: int, j: int|
                0 <= i < j < prefix.len() implies (#[trigger] prefix[i]).0 != (#[trigger] prefix[j]).0 by {
                assert(prefix[i] == a[i] && prefix[j] == a[j]);
            }
        }
        lemma_distinct_contains(prefix, d, v);
        if a.contains((d, v)) {
            let i = choose|i: int| 0 <= i < a.len() && a[i] == (d, v);
            if i < a.len() - 1 {
                assert(prefix[i] == (d, v));
                if a.last().0 == d {
                    assert(a[i].0 != a[a.len() - 1].0);
                }
            }
        }
        if last_value_on(a, d) == Some(v) {
            if a.last().0 == d {
                assert(a[a.len() - 1] == (d, v));
            } else {
                let i = choose|i: int| 0 <= i < prefix.len() && prefix[i] == (d, v);
                assert(a[i] == (d, v));
            }
        }
    }
}

proof fn lemma_alignment_contains<V>(a: Seq<(Day, V)>, b: Seq<(Day, V)>, r: Seq<(Day, V, V)>, e: (Day, V, V))
    requires
        is_alignment(a, b, r),
    ensures
        r.contains(e) <==> joined(a, b).contains(e),
{
    let d = e.0.days_from_ce as int;
    let pred = falls_on::<V>(d);
    lemma_filter_contains_iff(r, pred, e);
    lemma_filter_contains_iff(joined(a, b), pred, e);
    assert(on_day(r, d) == on_day(joined(a, b), d));
}

/// Swapping two daily series (each day at most once, in any order) swaps the
/// two value columns of their alignment: `align(b, a)` is `align(a, b)` with
/// each entry `(day, x, y)` turned into `(day, y, x)`.
pub proof fn lemma_align_swapped<V>(
    a: Seq<(Day, V)>,
    b: Seq<(Day, V)>,
    r: Seq<(Day, V, V)>,
    q: Seq<(Day, V, V)>,
)
    requires
        distinct_days(a),
        distinct_days(b),
        is_alignment(a, b, r),
        is_alignment(b, a, q),
    ensures
        q == swap_values(r),
{
    lemma_align_daily_series_is_daily(a, b, r);
    lemma_align_daily_series_is_daily(b, a, q);
    let w = swap_values(r);
    assert forall|e: (Day, V, V)| q.contains(e) <==> w.contains(e) by {
        let f = (e.0, e.2, e.1);
        lemma_alignment_contains(b, a, q, e);
        lemma_alignment_contains(a, b, r, f);
        lemma_joined_contains(b, a, e);
        lemma_joined_contains(a, b, f);
        lemma_distinct_contains(a, e.0, e.2);
        lemma_distinct_contains(b, e.0, e.1);
        if w.contains(e) {
            let k = choose|k: int| 0 <= k < w.len() && w[k] == e;
            assert(r[k] == f);
        }
        if r.contains(f) {
            let k = choose|k: int| 0 <= k < r.len() && r[k] == f;
            assert(w[k] == e);
        }
    }
    let key = |e: (Day, V, V)| e.0.days_from_ce as int;
    assert forall|i: int, j: int| 0 <= i < j < q.len() implies key(#[trigger] q[i]) < key(#[trigger] q[j]) by {}
    assert forall|i: int, j: int| 0 <= i < j < w.len() implies key(#[trigger] w[i]) < key(#[trigger] w[j]) by {
        assert(r[i].0.days_from_ce < r[j].0.days_from_ce);
    }
    lemma_strictly_keyed_equal(q, w, key);
}

/// Source `i` (of `n`) produces `e`, and no earlier source produces an entry
/// on the day of `e`.
pub open spec fn is_first_source<V>(produced: spec_fn(int) -> Option<(Day, V)>, n: int, i: int, e: (Day, V)) -> bool {
    &&& 0 <= i < n
    &&& produced(i) == Some(e)
    &&& forall|j: int| 0 <= j < i && (#[trigger] produced(j)) is Some ==> produced(j).unwrap().0 != e.0
}

proof fn lemma_first_entry_exists<V>(s: Seq<(Day, V)>, m: int)
    requires
        0 <= m < s.len(),
    ensures
        exists|e: (Day, V)| is_first_entry(s, e) && e.0 == s[m].0,
    decreases m,
{
    if exists|j: int| 0 <= j < m && s[j].0 == s[m].0 {
        let j = choose|j: int| 0 <= j < m && s[j].0 == s[m].0;
        lemma_first_entry_exists(s, j);
    } else {
        assert(is_first_entry(s, s[m]));
    }
}

/// Relates the de-duplicated series `r` to the sources that produced the
/// dated entries: source `i` (of `n`) produces `produced(i)`, the dated entries
/// are the produced ones in source order (`idx` maps each to its source), and
/// `r` keeps the first entry of each day. Then every produced day is in `r`,
/// and each entry of `r` is the first source producing its day.
#[verifier::rlimit(40)]
pub proof fn lemma_first_sources<V>(
    produced: spec_fn(int) -> Option<(Day, V)>,
    n: int,
    dated: Seq<(Day, V)>,
    idx: Seq<int>,
    r: Seq<(Day, V)>,
)
    requires
        idx.len() == dated.len(),
        forall|m: int|
            0 <= m < idx.len() ==> 0 <= #[trigger] idx[m] < n && produced(idx[m]) == Some(dated[m]),
        forall|k: int, l: int| 0 <= k < l < idx.len() ==> #[trigger] idx[k] < #[trigger] idx[l],
        forall|j: int|
            0 <= j < n && (#[trigger] produced(j)) is Some ==> exists|m: int| 0 <= m < idx.len() && idx[m] == j,
        forall|e: (Day, V)| r.contains(e) <==> is_first_entry(dated, e),
    ensures
        forall|j: int|
            0 <= j < n && (#[trigger] produced(j)) is Some ==> exists|k: int|
                0 <= k < r.len() && r[k].0 == produced(j).unwrap().0,
        forall|e: (Day, V)| #[trigger] r.contains(e) ==> exists|i: int| #[trigger] is_first_source(produced, n, i, e),
{
    assert forall|j: int| 0 <= j < n && (#[trigger] produced(j)) is Some implies exists|k: int|
        0 <= k < r.len() && r[k].0 == produced(j).unwrap().0 by {
        let m = choose|m: int| 0 <= m < idx.len() && idx[m] == j;
        assert(produced(idx[m]) == Some(dated[m]));
        lemma_first_entry_exists(dated, m);
        let e = choose|e: (Day, V)| is_first_entry(dated, e) && e.0 == dated[m].0;
        assert(r.contains(e));
        let k = choose|k: int| 0 <= k < r.len() && r[k] == e;
        assert(r[k].0 == produced(j).unwrap().0);
    }
    assert forall|e: (Day, V)| #[trigger] r.contains(e) implies exists|i: int| #[trigger] is_first_source(produced, n, i, e) by {
        let k = choose|k: int| 0 <= k < r.len() && r[k] == e;
        lemma_first_source_of(produced, n, dated, idx, r, k);
    }
}

proof fn lemma_first_source_of<V>(
    produced: spec_fn(int) -> Option<(Day, V)>,
    n: int,
    dated: Seq<(Day, V)>,
    idx: Seq<int>,
    r: Seq<(Day, V)>,
    k: int,
)
    requires
        idx.len() == dated.len(),
        forall|m: int|
            0 <= m < idx.len() ==> 0 <= #[trigger] idx[m] < n && produced(idx[m]) == Some(dated[m]),
        forall|a: int, b: int| 0 <= a < b < idx.len() ==> #[trigger] idx[a] < #[trigger] idx[b],
        forall|j: int|
            0 <= j < n && (#[trigger] produced(j)) is Some ==> exists|m: int| 0 <= m < idx.len() && idx[m] == j,
        forall|e: (Day, V)| r.contains(e) <==> is_first_entry(dated, e),
        0 <= k < r.len(),
    ensures
        exists|i: int| #[trigger] is_first_source(produced, n, i, r[k]),
{
        let e = r[k];
        assert(r.contains(e));
        let jj = choose|jj: int|
            0 <= jj < dated.len() && #[trigger] dated[jj] == e && forall|q: int|
                0 <= q < jj ==> (#[trigger] dated[q]).0 != e.0;
        let i = idx[jj];
        assert(produced(i) == Some(dated[jj]));
        assert forall|j: int| 0 <= j < i && (#[trigger] produced(j)) is Some implies produced(j).unwrap().0 != r[k].0 by {
            let m = choose|m: int| 0 <= m < idx.len() && idx[m] == j;
            assert(produced(idx[m]) == Some(dated[m]));
            if m >= jj {
                if m > jj {
                    assert(idx[jj] < idx[m]);
                }
            }
            assert(m < jj);
            assert(dated[m].0 != e.0);
        }
        assert(is_first_source(produced, n, i, r[k]));
}
} // verus!
