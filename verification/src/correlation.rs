use vstd::prelude::*;

verus! {

/// How many sliding windows of size `window` fit over two inputs of lengths
/// `x_len` and `y_len`: none when the window is empty, the lengths differ, or
/// the window is longer than the inputs; otherwise one per start position.
pub open spec fn window_count(x_len: int, y_len: int, window: int) -> int {
    if window == 0 || x_len != y_len || x_len < window {
        0
    } else {
        x_len - window + 1
    }
}

/// `value` is what `correlation` may return on the windows of `x` and `y`
/// that start at `start` and hold `window` entries.
pub open spec fn is_window_value<V, R, F: Fn(&[V], &[V]) -> R>(
    correlation: F,
    x: Seq<V>,
    y: Seq<V>,
    start: int,
    window: int,
    value: R,
) -> bool {
    exists|a: &[V], b: &[V]|
        {
            &&& a@ == x.subrange(start, start + window)
            &&& b@ == y.subrange(start, start + window)
            &&& #[trigger] correlation.ensures((a, b), value)
        }
}

/// `values` holds one correlation per window position of `x` and `y`, in
/// order, each a value that `correlation` may return on that window.
pub open spec fn are_window_values<V, R, F: Fn(&[V], &[V]) -> R>(
    correlation: F,
    x: Seq<V>,
    y: Seq<V>,
    window: int,
    values: Seq<R>,
) -> bool {
    &&& values.len() == window_count(x.len() as int, y.len() as int, window)
    &&& forall|k: int|
        0 <= k < values.len() ==> is_window_value(correlation, x, y, k, window, #[trigger] values[k])
}

/// Applies `correlation` to each pair of aligned sliding windows of size
/// `window` over `x` and `y`. The output has `x.len() - window + 1` entries,
/// entry `k` being the correlation of `x[k..k + window]` with
/// `y[k..k + window]`; it is empty when the window is empty, the inputs differ
/// in length, or the window is longer than the inputs.
pub fn rolling_correlation<V, R, F: Fn(&[V], &[V]) -> R>(
    x: &[V],
    y: &[V],
    window: usize,
    correlation: F,
) -> (r: Vec<R>)
    requires
        forall|a: &[V], b: &[V]| #[trigger] correlation.requires((a, b)),
    ensures
        are_window_values(correlation, x@, y@, window as int, r@),
        window >= 1 && x@.len() == y@.len() && x@.len() >= window ==> r.len() == x@.len() - window + 1,
        window == 0 || x@.len() != y@.len() || x@.len() < window ==> r.len() == 0,
        exists|windows: Seq<(&[V], &[V])>|
            #![trigger windows.len()]
            {
                &&& windows.len() == r.len()
                &&& forall|k: int|
                    0 <= k < r.len() ==> {
                        &&& (#[trigger] windows[k]).0@ == x@.subrange(k, k + window)
                        &&& windows[k].1@ == y@.subrange(k, k + window)
                        &&& correlation.ensures(windows[k], r@[k])
                    }
            },
{
    let mut out: Vec<R> = Vec::new();
    let ghost mut windows: Seq<(&[V], &[V])> = Seq::empty();
    if window == 0 || x.len() != y.len() || x.len() < window {
        assert(windows.len() == out.len());
        return out;
    }
    let count = x.len() - window + 1;
    let mut start: usize = 0;
    while start < count
        invariant
            count == x@.len() - window + 1,
            x@.len() <= usize::MAX,
            x@.len() == y@.len(),
            window <= x@.len(),
            start <= count,
            out.len() == start,
            windows.len() == start,
            forall|k: int|
                0 <= k < out.len() ==> {
                    &&& (#[trigger] windows[k]).0@ == x@.subrange(k, k + window)
                    &&& windows[k].1@ == y@.subrange(k, k + window)
                    &&& correlation.ensures(windows[k], out@[k])
                },
            forall|a: &[V], b: &[V]| #[trigger] correlation.requires((a, b)),
            forall|k: int|
                0 <= k < out.len() ==> is_window_value(
                    correlation,
                    x@,
                    y@,
                    k,
                    window as int,
                    #[trigger] out@[k],
                ),
        decreases count - start,
    {
        let a = &x[start..start + window];
        let b = &y[start..start + window];
        let value = correlation(a, b);
        let ghost before = out@;
        out.push(value);
        proof {
            windows = windows.push((a, b));
            assert forall|k: int| 0 <= k < out.len() implies is_window_value(
                correlation,
                x@,
                y@,
                k,
                window as int,
                #[trigger] out@[k],
            ) by {
                if k < start {
                    assert(out@[k] == before[k]);
                } else {
                    assert(correlation.ensures((a, b), out@[k]));
                }
            }
        }
        start += 1;
    }
    assert(windows.len() == out.len());
    out
}

/// `correlation` gives a single result for given window contents.
pub open spec fn is_deterministic<V, R, F: Fn(&[V], &[V]) -> R>(correlation: F) -> bool {
    forall|a1: &[V], b1: &[V], a2: &[V], b2: &[V], r1: R, r2: R|
        a1@ == a2@ && b1@ == b2@ && #[trigger] correlation.ensures((a1, b1), r1)
            && #[trigger] correlation.ensures((a2, b2), r2) ==> r1 == r2
}

/// With a deterministic correlation, dropping the first sample of both inputs
/// drops exactly the first window: the rolling correlations of the shortened
/// inputs are those of the full inputs without the first one.
pub proof fn lemma_rolling_drop_first_sample<V, R, F: Fn(&[V], &[V]) -> R>(
    correlation: F,
    x: Seq<V>,
    y: Seq<V>,
    window: int,
    all: Seq<R>,
    rest: Seq<R>,
)
    requires
        is_deterministic(correlation),
        x.len() == y.len(),
        1 <= window < x.len(),
        are_window_values(correlation, x, y, window, all),
        are_window_values(correlation, x.drop_first(), y.drop_first(), window, rest),
    ensures
        rest == all.drop_first(),
{
    assert(rest.len() == all.len() - 1);
    assert forall|k: int| 0 <= k < rest.len() implies rest[k] == all[k + 1] by {
        assert(is_window_value(correlation, x.drop_first(), y.drop_first(), k, window, rest[k]));
        assert(is_window_value(correlation, x, y, k + 1, window, all[k + 1]));
        let (a1, b1) = choose|a1: &[V], b1: &[V]|
            {
                &&& a1@ == x.drop_first().subrange(k, k + window)
                &&& b1@ == y.drop_first().subrange(k, k + window)
                &&& #[trigger] correlation.ensures((a1, b1), rest[k])
            };
        let (a2, b2) = choose|a2: &[V], b2: &[V]|
            {
                &&& a2@ == x.subrange(k + 1, k + 1 + window)
                &&& b2@ == y.subrange(k + 1, k + 1 + window)
                &&& #[trigger] correlation.ensures((a2, b2), all[k + 1])
            };
        assert(x.drop_first().subrange(k, k + window) =~= x.subrange(k + 1, k + 1 + window));
        assert(y.drop_first().subrange(k, k + window) =~= y.subrange(k + 1, k + 1 + window));
    }
    assert(rest =~= all.drop_first());
}

} // verus!
