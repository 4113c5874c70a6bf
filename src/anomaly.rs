use vstd::prelude::*;

use crate::error::SeriesError;

verus! {

/// The smallest sample on which an interquartile range is meaningful.
pub const MIN_DATA_IQR: usize = 6;

/// How many windows of width `w` fit in `len` values.
pub open spec fn window_count(len: int, w: int) -> int {
    if len >= w {
        len - w + 1
    } else {
        0
    }
}

/// Position `i` lies in one of the first `m` windows of width `w` that are
/// flagged; window `k` spans positions `k .. k + w`.
pub open spec fn covered_upto(flagged: Seq<bool>, w: int, m: int, i: int) -> bool {
    exists|k: int| 0 <= k < m && #[trigger] flagged[k] && k <= i < k + w
}

/// Position `i` lies in a flagged window.
pub open spec fn covered(flagged: Seq<bool>, w: int, i: int) -> bool {
    covered_upto(flagged, w, flagged.len() as int, i)
}

/// The sequence rises strictly.
pub open spec fn ascending(s: Seq<usize>) -> bool {
    forall|a: int, b: int| 0 <= a < b < s.len() ==> s[a] < s[b]
}

/// The detection parameters that are accepted, or the error they give.
pub open spec fn anomaly_config(window_width: usize, min_window_data: usize) -> Result<(), SeriesError> {
    if min_window_data < MIN_DATA_IQR {
        Err(SeriesError::InsufficientData { required: MIN_DATA_IQR, got: min_window_data })
    } else if min_window_data > window_width {
        Err(SeriesError::InvalidConfiguration)
    } else {
        Ok(())
    }
}

/// The linear (R-7) rank of the quantile `quarters / 4` in a sorted sample
/// of `n` values: `h = (n - 1) * quarters / 4`, split into its whole part and
/// its fractional part counted in quarters. The quantile lies between the
/// values at `whole` and `whole + 1`, which both exist.
pub fn quartile_rank(n: usize, quarters: usize) -> (r: (usize, usize))
    requires
        n >= 2,
        1 <= quarters <= 3,
    ensures
        r.0 as int == ((n - 1) * quarters) / 4,
        r.1 as int == ((n - 1) * quarters) % 4,
        r.0 + 1 < n,
{
    assert((n - 1) * quarters <= 3 * (usize::MAX as int)) by (nonlinear_arith)
        requires
            n >= 2,
            1 <= quarters <= 3,
    ;
    let h: u128 = (n as u128 - 1) * quarters as u128;
    let whole: u128 = h / 4;
    let quarter: u128 = h % 4;
    assert(whole < n - 1) by (nonlinear_arith)
        requires
            whole == h / 4,
            h == (n - 1) * quarters,
            1 <= quarters <= 3,
            n >= 2,
    ;
    (whole as usize, quarter as usize)
}

/// A flag per position below `n`, raised where a flagged window reaches.
fn coverage(n: usize, w: usize, flagged: &[bool]) -> (cover: Vec<bool>)
    requires
        w >= 1,
        flagged@.len() == window_count(n as int, w as int),
    ensures
        cover@.len() == n,
        forall|i: int| 0 <= i < n ==> cover@[i] == covered(flagged@, w as int, i),
{
    let mut cover: Vec<bool> = Vec::with_capacity(n);
    let mut i: usize = 0;
    while i < n
        invariant
            i <= n,
            cover@.len() == i,
            forall|j: int| 0 <= j < i ==> !cover@[j],
        decreases n - i,
    {
        cover.push(false);
        i = i + 1;
    }
    let m = flagged.len();
    let mut k: usize = 0;
    while k < m
        invariant
            k <= m,
            m == flagged@.len(),
            m == window_count(n as int, w as int),
            w >= 1,
            cover@.len() == n,
            forall|j: int| 0 <= j < n ==> cover@[j] == covered_upto(flagged@, w as int, k as int, j),
        decreases m - k,
    {
        if flagged[k] {
            let mut j: usize = k;
            while j < k + w
                invariant
                    k < m,
                    m == window_count(n as int, w as int),
                    w >= 1,
                    k <= j <= k + w,
                    flagged@[k as int],
                    cover@.len() == n,
                    forall|p: int|
                        0 <= p < n ==> cover@[p] == (covered_upto(flagged@, w as int, k as int, p) || (
                        k <= p < j)),
                decreases k + w - j,
            {
                cover.set(j, true);
                j = j + 1;
            }
            assert forall|p: int| 0 <= p < n implies cover@[p] == covered_upto(
                flagged@,
                w as int,
                k + 1,
                p,
            ) by {
                if covered_upto(flagged@, w as int, k + 1, p) && !(k <= p < k + w) {
                    let q = choose|q: int|
                        0 <= q < k + 1 && #[trigger] flagged@[q] && q <= p < q + w;
                    assert(q != k);
                    assert(covered_upto(flagged@, w as int, k as int, p));
                }
                if covered_upto(flagged@, w as int, k as int, p) {
                    let q = choose|q: int| 0 <= q < k && #[trigger] flagged@[q] && q <= p < q + w;
                    assert(covered_upto(flagged@, w as int, k + 1, p));
                }
                if k <= p < k + w {
                    assert(flagged@[k as int]);
                    assert(covered_upto(flagged@, w as int, k + 1, p));
                }
            }
        } else {
            assert forall|p: int| 0 <= p < n implies cover@[p] == covered_upto(
                flagged@,
                w as int,
                k + 1,
                p,
            ) by {
                if covered_upto(flagged@, w as int, k + 1, p) {
                    let q = choose|q: int|
                        0 <= q < k + 1 && #[trigger] flagged@[q] && q <= p < q + w;
                    assert(q != k);
                    assert(covered_upto(flagged@, w as int, k as int, p));
                }
                if covered_upto(flagged@, w as int, k as int, p) {
                    let q = choose|q: int| 0 <= q < k && #[trigger] flagged@[q] && q <= p < q + w;
                    assert(covered_upto(flagged@, w as int, k + 1, p));
                }
            }
        }
        k = k + 1;
    }
    cover
}

/// Collects the positions of every flagged window: window `k` spans
/// positions `k .. k + window_width` of `v`, and `flagged[k]` says whether
/// it was found anomalous. Returns the covered positions in ascending order,
/// each once, with the values of `v` at them.
///
/// Fails with `InsufficientData` when `min_window_data` is below
/// `MIN_DATA_IQR`, with `InvalidConfiguration` when it exceeds
/// `window_width`, and with `LengthMismatch` when there is not one flag per
/// window.
pub fn find_anomalies<T: Copy>(
    v: &[T],
    window_width: usize,
    min_window_data: usize,
    flagged: &[bool],
) -> (r: Result<(Vec<usize>, Vec<T>), SeriesError>)
    ensures
        anomaly_config(window_width, min_window_data) is Err ==> r == Err::<
            (Vec<usize>, Vec<T>),
            SeriesError,
        >(anomaly_config(window_width, min_window_data)->Err_0),
        anomaly_config(window_width, min_window_data) is Ok && flagged@.len() != window_count(
            v@.len() as int,
            window_width as int,
        ) ==> r == Err::<(Vec<usize>, Vec<T>), SeriesError>(
            SeriesError::LengthMismatch {
                expected: window_count(v@.len() as int, window_width as int) as usize,
                got: flagged@.len() as usize,
            },
        ),
        r matches Ok((idx, vals)) ==> {
            &&& ascending(idx@)
            &&& forall|j: int|
                0 <= j < idx@.len() ==> idx@[j] < v@.len() && covered(
                    flagged@,
                    window_width as int,
                    idx@[j] as int,
                )
            &&& forall|i: int|
                0 <= i < v@.len() && covered(flagged@, window_width as int, i) ==> exists|j: int|
                    0 <= j < idx@.len() && idx@[j] as int == i
            &&& vals@.len() == idx@.len()
            &&& forall|j: int| 0 <= j < vals@.len() ==> vals@[j] == v@[idx@[j] as int]
        },
        r is Ok <==> anomaly_config(window_width, min_window_data) is Ok && flagged@.len()
            == window_count(v@.len() as int, window_width as int),
{
    if min_window_data < MIN_DATA_IQR {
        return Err(SeriesError::InsufficientData { required: MIN_DATA_IQR, got: min_window_data });
    }
    if min_window_data > window_width {
        return Err(SeriesError::InvalidConfiguration);
    }
    let n = v.len();
    let windows: usize = if n >= window_width {
        n - window_width + 1
    } else {
        0
    };
    if flagged.len() != windows {
        return Err(SeriesError::LengthMismatch { expected: windows, got: flagged.len() });
    }
    let cover = coverage(n, window_width, flagged);
    let mut idx: Vec<usize> = Vec::new();
    let mut vals: Vec<T> = Vec::new();
    let mut i: usize = 0;
    while i < n
        invariant
            i <= n,
            n == v@.len(),
            cover@.len() == n,
            forall|p: int| 0 <= p < n ==> cover@[p] == covered(flagged@, window_width as int, p),
            ascending(idx@),
            forall|j: int| 0 <= j < idx@.len() ==> idx@[j] < i && cover@[idx@[j] as int],
            forall|p: int|
                0 <= p < i && cover@[p] ==> exists|j: int| 0 <= j < idx@.len() && idx@[j] as int == p,
            vals@.len() == idx@.len(),
            forall|j: int| 0 <= j < vals@.len() ==> vals@[j] == v@[idx@[j] as int],
        decreases n - i,
    {
        if cover[i] {
            let ghost before = idx@;
            idx.push(i);
            vals.push(v[i]);
            proof {
                let last = idx@.len() - 1;
                assert(idx@[last] as int == i as int);
                assert forall|p: int|
                    0 <= p < i + 1 && cover@[p] implies exists|j: int|
                    0 <= j < idx@.len() && idx@[j] as int == p by {
                    if p < i {
                        let j = choose|j: int| 0 <= j < before.len() && before[j] as int == p;
                        assert(idx@[j] == before[j]);
                    } else {
                        assert(idx@[last] as int == p);
                    }
                }
            }
        }
        i = i + 1;
    }
    assert forall|j: int| 0 <= j < idx@.len() implies idx@[j] < v@.len() && covered(
        flagged@,
        window_width as int,
        idx@[j] as int,
    ) by {
        assert(cover@[idx@[j] as int]);
    }
    assert forall|p: int| 0 <= p < v@.len() && covered(flagged@, window_width as int, p) implies exists|j: int|
        0 <= j < idx@.len() && idx@[j] as int == p by {
        assert(cover@[p]);
    }
    Ok((idx, vals))
}

} // verus!
