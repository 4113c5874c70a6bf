use vstd::prelude::*;

use crate::error::SeriesError;

verus! {

/// Position `i` is named by one of the indices.
pub open spec fn in_index_set(vi: Seq<usize>, i: int) -> bool {
    exists|k: int| 0 <= k < vi.len() && vi[k] as int == i
}

/// Every index addresses a position below `n`.
pub open spec fn all_below(vi: Seq<usize>, n: int) -> bool {
    forall|k: int| 0 <= k < vi.len() ==> (vi[k] as int) < n
}

/// The elements of `ve` whose positions are not named by `vi`, in their order.
pub open spec fn kept<T>(ve: Seq<T>, vi: Seq<usize>) -> Seq<T>
    decreases ve.len(),
{
    if ve.len() == 0 {
        Seq::empty()
    } else {
        let rest = kept(ve.drop_last(), vi);
        if in_index_set(vi, ve.len() - 1) {
            rest
        } else {
            rest.push(ve.last())
        }
    }
}

/// `ve` with every position named by `vi` replaced by `missing`.
pub open spec fn marked<T>(ve: Seq<T>, vi: Seq<usize>, missing: T) -> Seq<T> {
    Seq::new(ve.len(), |i: int| if in_index_set(vi, i) { missing } else { ve[i] })
}

/// Marking the same positions a second time changes nothing: marking twice
/// gives what marking once gives.
pub proof fn lemma_mark_idempotent<T>(ve: Seq<T>, vi: Seq<usize>, missing: T)
    ensures
        marked(marked(ve, vi, missing), vi, missing) == marked(ve, vi, missing),
{
    assert(marked(marked(ve, vi, missing), vi, missing) =~= marked(ve, vi, missing));
}

/// Finds an index at or past `n`, if any.
fn first_out_of_range(vi: &[usize], n: usize) -> (r: Option<usize>)
    ensures
        r.is_none() <==> all_below(vi@, n as int),
        r matches Some(k) ==> k < vi@.len() && vi@[k as int] >= n,
{
    let mut k: usize = 0;
    while k < vi.len()
        invariant
            k <= vi@.len(),
            all_below(vi@.take(k as int), n as int),
        decreases vi@.len() - k,
    {
        if vi[k] >= n {
            return Some(k);
        }
        assert(vi@.take(k as int + 1) =~= vi@.take(k as int).push(vi@[k as int]));
        k = k + 1;
    }
    assert(vi@.take(k as int) =~= vi@);
    None
}

/// A flag per position below `n`, raised where `vi` names the position.
fn index_mask(vi: &[usize], n: usize) -> (mask: Vec<bool>)
    requires
        all_below(vi@, n as int),
    ensures
        mask@.len() == n,
        forall|i: int| 0 <= i < n ==> mask@[i] == in_index_set(vi@, i),
{
    let mut mask: Vec<bool> = Vec::with_capacity(n);
    let mut i: usize = 0;
    while i < n
        invariant
            i <= n,
            mask@.len() == i,
            forall|j: int| 0 <= j < i ==> !mask@[j],
        decreases n - i,
    {
        mask.push(false);
        i = i + 1;
    }
    let mut k: usize = 0;
    while k < vi.len()
        invariant
            k <= vi@.len(),
            mask@.len() == n,
            all_below(vi@, n as int),
            forall|j: int|
                0 <= j < n ==> mask@[j] == in_index_set(vi@.take(k as int), j),
        decreases vi@.len() - k,
    {
        let p = vi[k];
        mask.set(p, true);
        proof {
            let before = vi@.take(k as int);
            let after = vi@.take(k as int + 1);
            assert(after =~= before.push(p));
            assert forall|j: int| 0 <= j < n implies mask@[j] == in_index_set(after, j) by {
                if in_index_set(before, j) {
                    let w = choose|w: int| 0 <= w < before.len() && before[w] as int == j;
                    assert(after[w] == before[w]);
                }
                if j == p as int {
                    assert(after[k as int] == p);
                }
                if in_index_set(after, j) && j != p as int {
                    let w = choose|w: int| 0 <= w < after.len() && after[w] as int == j;
                    assert(w < k);
                    assert(before[w] == after[w]);
                }
            }
        }
        k = k + 1;
    }
    assert(vi@.take(vi@.len() as int) =~= vi@);
    mask
}

/// Returns `ve` without the positions named by `vi`; the remaining elements
/// keep their relative order. Indices may come in any order and may repeat.
/// Fails with `IndexOutOfRange` when an index is not below `ve.len()`.
pub fn discharge_by_index<T: Copy>(ve: &[T], vi: &[usize]) -> (r: Result<Vec<T>, SeriesError>)
    ensures
        r.is_ok() <==> all_below(vi@, ve@.len() as int),
        r matches Ok(out) ==> out@ == kept(ve@, vi@),
        r matches Err(e) ==> exists|k: int|
            0 <= k < vi@.len() && e == (SeriesError::IndexOutOfRange {
                index: vi@[k],
                len: ve@.len() as usize,
            }) && vi@[k] >= ve@.len(),
{
    let n = ve.len();
    if let Some(k) = first_out_of_range(vi, n) {
        return Err(SeriesError::IndexOutOfRange { index: vi[k], len: n });
    }
    let mask = index_mask(vi, n);
    let mut out: Vec<T> = Vec::with_capacity(n);
    let mut j: usize = 0;
    while j < n
        invariant
            j <= n,
            n == ve@.len(),
            mask@.len() == n,
            forall|i: int| 0 <= i < n ==> mask@[i] == in_index_set(vi@, i),
            out@ == kept(ve@.take(j as int), vi@),
        decreases n - j,
    {
        let prefix = Ghost(ve@.take(j as int + 1));
        assert(prefix@.drop_last() =~= ve@.take(j as int));
        if !mask[j] {
            out.push(ve[j]);
        }
        j = j + 1;
    }
    assert(ve@.take(n as int) =~= ve@);
    Ok(out)
}

/// Replaces by `missing` every element of `ve` whose position `vi` names;
/// the others are left as they were. An empty `vi` changes nothing.
/// Fails with `IndexOutOfRange`, and changes nothing, when an index is not
/// below `ve.len()`.
pub fn setnan_by_index<T: Copy>(ve: &mut Vec<T>, vi: &[usize], missing: T) -> (r: Result<(), SeriesError>)
    ensures
        r.is_ok() <==> all_below(vi@, old(ve)@.len() as int),
        r.is_ok() ==> final(ve)@ == marked(old(ve)@, vi@, missing),
        r.is_err() ==> final(ve)@ == old(ve)@,
        r matches Err(e) ==> exists|k: int|
            0 <= k < vi@.len() && e == (SeriesError::IndexOutOfRange {
                index: vi@[k],
                len: old(ve)@.len() as usize,
            }) && vi@[k] >= old(ve)@.len(),
{
    let n = ve.len();
    if let Some(k) = first_out_of_range(vi, n) {
        return Err(SeriesError::IndexOutOfRange { index: vi[k], len: n });
    }
    let mask = index_mask(vi, n);
    let mut j: usize = 0;
    while j < n
        invariant
            j <= n,
            n == ve@.len(),
            n == old(ve)@.len(),
            mask@.len() == n,
            forall|i: int| 0 <= i < n ==> mask@[i] == in_index_set(vi@, i),
            forall|i: int| 0 <= i < j ==> ve@[i] == marked(old(ve)@, vi@, missing)[i],
            forall|i: int| j <= i < n ==> ve@[i] == old(ve)@[i],
        decreases n - j,
    {
        if mask[j] {
            ve.set(j, missing);
        }
        j = j + 1;
    }
    assert(ve@ =~= marked(old(ve)@, vi@, missing));
    Ok(())
}

} // verus!
