use vstd::prelude::*;

use crate::error::SeriesError;

verus! {

/// The shape check shared by the moving averages and the order selection:
/// a window of `len_w` weights over `len_v` values. Returns the number of
/// weights on each side of the central one. Fails with `WindowTooLarge`
/// unless the window is shorter than the series, then with
/// `EvenWindowLength` unless it has a central element.
pub fn window_side(len_v: usize, len_w: usize) -> (r: Result<usize, SeriesError>)
    ensures
        len_w >= len_v ==> r == Err::<usize, SeriesError>(
            SeriesError::WindowTooLarge { window: len_w, series: len_v },
        ),
        len_w < len_v && len_w % 2 == 0 ==> r == Err::<usize, SeriesError>(
            SeriesError::EvenWindowLength { window: len_w },
        ),
        len_w < len_v && len_w % 2 == 1 ==> r == Ok::<usize, SeriesError>(((len_w - 1) / 2) as usize),
{
    if len_w >= len_v {
        return Err(SeriesError::WindowTooLarge { window: len_w, series: len_v });
    }
    if len_w % 2 == 0 {
        return Err(SeriesError::EvenWindowLength { window: len_w });
    }
    Ok((len_w - 1) / 2)
}

/// The weight at position `i` of the window built from `arm`, which runs
/// from the edge weight to the central one.
pub open spec fn mirrored<T>(arm: Seq<T>, i: int) -> T {
    if i < arm.len() {
        arm[i]
    } else {
        arm[2 * (arm.len() - 1) - i]
    }
}

/// The window whose rising half is `arm`, from an edge to the centre: `arm`
/// followed by `arm` reversed without its last element. The result has an
/// odd length and reads the same from either end.
pub fn mirror_window<T: Copy>(arm: &[T]) -> (r: Vec<T>)
    requires
        arm@.len() >= 1,
        2 * arm@.len() - 1 <= usize::MAX,
    ensures
        r@.len() == 2 * arm@.len() - 1,
        forall|i: int| 0 <= i < r@.len() ==> r@[i] == mirrored(arm@, i),
        forall|i: int| 0 <= i < r@.len() ==> #[trigger] r@[i] == r@[r@.len() - 1 - i],
{
    let n = arm.len();
    let mut r: Vec<T> = Vec::with_capacity(n + (n - 1));
    let mut i: usize = 0;
    while i < n
        invariant
            i <= n,
            n == arm@.len(),
            r@.len() == i,
            forall|j: int| 0 <= j < i ==> r@[j] == mirrored(arm@, j),
        decreases n - i,
    {
        r.push(arm[i]);
        i = i + 1;
    }
    let mut j: usize = n - 1;
    while j > 0
        invariant
            j < n,
            n == arm@.len(),
            2 * n - 1 <= usize::MAX,
            r@.len() == 2 * n - 1 - j,
            forall|p: int| 0 <= p < r@.len() ==> r@[p] == mirrored(arm@, p),
        decreases j,
    {
        j = j - 1;
        r.push(arm[j]);
    }
    assert forall|i: int| 0 <= i < r@.len() implies #[trigger] r@[i] == r@[r@.len() - 1 - i] by {
        assert(r@[i] == mirrored(arm@, i));
        assert(r@[r@.len() - 1 - i] == mirrored(arm@, r@.len() - 1 - i));
    }
    r
}

/// The abscissae of a window of odd width `len_w`: the integers from
/// `-(len_w - 1) / 2` to `(len_w - 1) / 2`, ascending.
pub fn centered_basis(len_w: usize) -> (r: Vec<i64>)
    requires
        len_w % 2 == 1,
        len_w <= i64::MAX,
    ensures
        r@.len() == len_w,
        forall|i: int| 0 <= i < len_w ==> r@[i] == i - (len_w - 1) / 2,
{
    let half: i64 = ((len_w - 1) / 2) as i64;
    let mut r: Vec<i64> = Vec::with_capacity(len_w);
    let mut i: usize = 0;
    while i < len_w
        invariant
            i <= len_w,
            len_w <= i64::MAX,
            half == (len_w - 1) / 2,
            r@.len() == i,
            forall|j: int| 0 <= j < i ==> r@[j] == j - (len_w - 1) / 2,
        decreases len_w - i,
    {
        r.push(i as i64 - half);
        i = i + 1;
    }
    r
}

} // verus!
