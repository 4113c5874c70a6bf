use vstd::prelude::*;

use crate::error::{EmptyTimeLoad, SeriesError};
use crate::time::{hour_key_secs, time_of_day, Stamp};

verus! {

/// A load series: one value per stamp. The value type is left to the
/// caller, who also chooses the value that marks a missing reading.
#[derive(Debug, Clone)]
pub struct TimeLoad<T> {
    pub time: Vec<Stamp>,
    pub load: Vec<T>,
}

/// The stamps rise strictly.
pub open spec fn strictly_increasing(t: Seq<Stamp>) -> bool {
    forall|i: int| 0 <= i < t.len() - 1 ==> #[trigger] step(t, i) > 0
}

/// The distance in seconds from stamp `i` to stamp `i + 1`.
pub open spec fn step(t: Seq<Stamp>, i: int) -> int {
    t[i + 1].utc_secs - t[i].utc_secs
}

/// All consecutive stamps are the same distance apart.
pub open spec fn evenly_spaced(t: Seq<Stamp>) -> bool {
    forall|i: int| 0 <= i < t.len() - 1 ==> #[trigger] step(t, i) == step(t, 0)
}

/// The smallest distance between consecutive stamps among the first `m` gaps.
pub open spec fn min_step_upto(t: Seq<Stamp>, m: int) -> int
    decreases m,
{
    if m <= 1 {
        step(t, 0)
    } else {
        let rest = min_step_upto(t, m - 1);
        if step(t, m - 1) < rest {
            step(t, m - 1)
        } else {
            rest
        }
    }
}

/// The smallest distance between consecutive stamps: the sampling interval
/// that gap filling restores.
pub open spec fn min_step(t: Seq<Stamp>) -> int {
    min_step_upto(t, t.len() - 1)
}

/// How many stamps a gap of `g` seconds gets when walked in steps of `d`
/// from its start, the start included and the end excluded.
pub open spec fn gap_len(g: int, d: int) -> int {
    1 + (g - 1) / d
}

/// The stamps of the first `m` gaps once each is walked in steps of `d`.
pub open spec fn filled_times(t: Seq<Stamp>, d: int, m: int) -> Seq<Stamp>
    decreases m,
{
    if m <= 0 {
        Seq::empty()
    } else {
        filled_times(t, d, m - 1) + Seq::new(
            gap_len(step(t, m - 1), d) as nat,
            |k: int|
                Stamp {
                    utc_secs: (t[m - 1].utc_secs + k * d) as i64,
                    offset_secs: t[m - 1].offset_secs,
                },
        )
    }
}

/// The values that go with `filled_times`: each original value, then the
/// missing marker for every stamp added after it.
pub open spec fn filled_loads<T>(t: Seq<Stamp>, v: Seq<T>, d: int, m: int, missing: T) -> Seq<T>
    decreases m,
{
    if m <= 0 {
        Seq::empty()
    } else {
        filled_loads(t, v, d, m - 1, missing) + Seq::new(
            gap_len(step(t, m - 1), d) as nat,
            |k: int|
                if k == 0 {
                    v[m - 1]
                } else {
                    missing
                },
        )
    }
}

/// Position `i` is the first whose stamp is the instant of one of `bad`.
pub open spec fn first_hit(t: Seq<Stamp>, bad: Seq<Stamp>, i: int) -> bool {
    &&& exists|b: int| 0 <= b < bad.len() && bad[b].utc_secs == t[i].utc_secs
    &&& forall|k: int| 0 <= k < i ==> t[k].utc_secs != t[i].utc_secs
}

/// The stamp's local time of day lies strictly between `init` and `stop`.
pub open spec fn in_daily_interval(s: Stamp, init: u32, stop: u32) -> bool {
    init < time_of_day(s) < stop
}

/// The hour key of every stamp is representable.
pub open spec fn keys_in_range(t: Seq<Stamp>) -> bool {
    forall|i: int| 0 <= i < t.len() ==> i64::MIN + 3600 <= #[trigger] t[i].utc_secs <= i64::MAX - 3600
}

/// Where run `r` of the hourly grouping starts.
pub open spec fn run_start(ends: Seq<usize>, r: int) -> int {
    if r == 0 {
        0
    } else {
        ends[r - 1] as int
    }
}

/// Point `j` is reported under another hour than the point before it.
pub open spec fn hour_changes(t: Seq<Stamp>, j: int) -> bool {
    hour_key_secs(t[j]) != hour_key_secs(t[j - 1])
}

/// `ends` rises strictly.
pub open spec fn rising(s: Seq<usize>) -> bool {
    forall|a: int, b: int| 0 <= a < b < s.len() ==> s[a] < s[b]
}

proof fn lemma_min_step_upto(t: Seq<Stamp>, m: int)
    requires
        1 <= m < t.len(),
    ensures
        forall|i: int| 0 <= i < m ==> min_step_upto(t, m) <= #[trigger] step(t, i),
        exists|i: int| 0 <= i < m && min_step_upto(t, m) == step(t, i),
    decreases m,
{
    if m > 1 {
        lemma_min_step_upto(t, m - 1);
        if step(t, m - 1) < min_step_upto(t, m - 1) {
            assert(min_step_upto(t, m) == step(t, m - 1));
        } else {
            let w = choose|w: int| 0 <= w < m - 1 && min_step_upto(t, m - 1) == step(t, w);
            assert(min_step_upto(t, m) == step(t, w));
        }
    } else {
        assert(min_step_upto(t, m) == step(t, 0));
    }
}

proof fn lemma_walk_count(g: int, d: int, k: int)
    requires
        d > 0,
        k >= 0,
        k * d < g,
        g <= (k + 1) * d,
    ensures
        gap_len(g, d) == k + 1,
{
    assert((g - 1) / d == k) by (nonlinear_arith)
        requires
            d > 0,
            k >= 0,
            k * d <= g - 1,
            g - 1 < (k + 1) * d,
    {
        vstd::arithmetic::div_mod::lemma_fundamental_div_mod(g - 1, d);
    }
}

impl<T: Copy> TimeLoad<T> {
    /// The stamps and the values are equally many.
    pub open spec fn wf(&self) -> bool {
        self.time@.len() == self.load@.len()
    }

    /// An empty series with room for `capacity` points.
    pub fn new(capacity: usize) -> (r: TimeLoad<T>)
        ensures
            r.wf(),
            r.time@.len() == 0,
    {
        TimeLoad { time: Vec::with_capacity(capacity), load: Vec::with_capacity(capacity) }
    }

    /// Whether the stamps rise strictly.
    pub fn is_ordered(&self) -> (r: bool)
        ensures
            r == strictly_increasing(self.time@),
    {
        let n = self.time.len();
        if n < 2 {
            return true;
        }
        let mut i: usize = 0;
        while i + 1 < n
            invariant
                n == self.time@.len(),
                n >= 2,
                i + 1 <= n,
                forall|j: int| 0 <= j < i ==> #[trigger] step(self.time@, j) > 0,
            decreases n - i,
        {
            if self.time[i].utc_secs >= self.time[i + 1].utc_secs {
                assert(step(self.time@, i as int) <= 0);
                return false;
            }
            i = i + 1;
        }
        true
    }

    /// Whether the stamps rise strictly and are all the same distance apart.
    pub fn is_ordered_and_continuous(&self) -> (r: bool)
        ensures
            r == (strictly_increasing(self.time@) && evenly_spaced(self.time@)),
    {
        if !self.is_ordered() {
            return false;
        }
        let n = self.time.len();
        if n < 2 {
            return true;
        }
        let first: i128 = self.time[1].utc_secs as i128 - self.time[0].utc_secs as i128;
        let mut i: usize = 0;
        while i + 1 < n
            invariant
                n == self.time@.len(),
                n >= 2,
                i + 1 <= n,
                first == step(self.time@, 0),
                forall|j: int| 0 <= j < i ==> #[trigger] step(self.time@, j) == step(self.time@, 0),
            decreases n - i,
        {
            let d: i128 = self.time[i + 1].utc_secs as i128 - self.time[i].utc_secs as i128;
            if d != first {
                assert(step(self.time@, i as int) != step(self.time@, 0));
                return false;
            }
            i = i + 1;
        }
        true
    }

    /// A new series on a regular grid: the original points, and after each
    /// one a point marked `missing` at every multiple of the smallest step
    /// that falls strictly before the next original stamp. Added stamps keep
    /// the offset of the point they follow. Fails with `InsufficientData`
    /// when there are fewer than two points.
    pub fn fill_missing_with_nan(&self, missing: T) -> (r: Result<TimeLoad<T>, SeriesError>)
        requires
            self.wf(),
            strictly_increasing(self.time@),
        ensures
            r.is_err() <==> self.time@.len() < 2,
            r matches Err(e) ==> e == (SeriesError::InsufficientData {
                required: 2,
                got: self.time@.len() as usize,
            }),
            r matches Ok(out) ==> {
                let n = self.time@.len() as int;
                let d = min_step(self.time@);
                &&& out.wf()
                &&& out.time@ == filled_times(self.time@, d, n - 1).push(self.time@[n - 1])
                &&& out.load@ == filled_loads(self.time@, self.load@, d, n - 1, missing).push(
                    self.load@[n - 1],
                )
            },
    {
        let n = self.time.len();
        if n < 2 {
            return Err(SeriesError::InsufficientData { required: 2, got: n });
        }
        let ghost t = self.time@;
        let ghost v = self.load@;
        let mut d: i128 = self.time[1].utc_secs as i128 - self.time[0].utc_secs as i128;
        let mut i: usize = 1;
        while i + 1 < n
            invariant
                n == t.len(),
                t == self.time@,
                1 <= i < n,
                d == min_step_upto(t, i as int),
            decreases n - i,
        {
            let g: i128 = self.time[i + 1].utc_secs as i128 - self.time[i].utc_secs as i128;
            if g < d {
                d = g;
            }
            i = i + 1;
        }
        proof {
            lemma_min_step_upto(t, n - 1);
        }
        let mut out: TimeLoad<T> = TimeLoad::new(n);
        let mut i: usize = 0;
        while i + 1 < n
            invariant
                n == t.len(),
                n == v.len(),
                t == self.time@,
                v == self.load@,
                i + 1 <= n,
                strictly_increasing(t),
                d == min_step(t),
                d > 0,
                forall|j: int| 0 <= j < n - 1 ==> d <= #[trigger] step(t, j),
                out.time@ == filled_times(t, d as int, i as int),
                out.load@ == filled_loads(t, v, d as int, i as int, missing),
            decreases n - i,
        {
            let start = self.time[i];
            let next: i128 = self.time[i + 1].utc_secs as i128;
            let ghost g = step(t, i as int);
            let ghost base_t = out.time@;
            let ghost base_v = out.load@;
            let ghost seg_t = Seq::new(
                gap_len(g, d as int) as nat,
                |k: int|
                    Stamp {
                        utc_secs: (t[i as int].utc_secs + k * d) as i64,
                        offset_secs: t[i as int].offset_secs,
                    },
            );
            let ghost seg_v = Seq::new(
                gap_len(g, d as int) as nat,
                |k: int|
                    if k == 0 {
                        v[i as int]
                    } else {
                        missing
                    },
            );
            assert(g >= d);
            assert((g - 1) / (d as int) >= 0) by (nonlinear_arith)
                requires
                    g >= d,
                    d > 0,
            ;
            out.time.push(start);
            out.load.push(self.load[i]);
            let mut cur: i128 = start.utc_secs as i128;
            let ghost mut k: int = 0;
            proof {
                assert(seg_t[0] == start);
                assert(out.time@ =~= base_t + seg_t.take(1));
                assert(out.load@ =~= base_v + seg_v.take(1));
            }
            while cur + d < next
                invariant
                    n == t.len(),
                    i + 1 < n,
                    d > 0,
                    next == t[i + 1].utc_secs,
                    g == next - t[i as int].utc_secs,
                    g >= d,
                    cur == t[i as int].utc_secs + k * d,
                    k >= 0,
                    k * d < g,
                    k + 1 <= gap_len(g, d as int),
                    seg_t.len() == gap_len(g, d as int),
                    seg_v.len() == gap_len(g, d as int),
                    seg_t == Seq::new(
                        gap_len(g, d as int) as nat,
                        |k: int|
                            Stamp {
                                utc_secs: (t[i as int].utc_secs + k * d) as i64,
                                offset_secs: t[i as int].offset_secs,
                            },
                    ),
                    seg_v == Seq::new(
                        gap_len(g, d as int) as nat,
                        |k: int|
                            if k == 0 {
                                v[i as int]
                            } else {
                                missing
                            },
                    ),
                    start == t[i as int],
                    out.time@ == base_t + seg_t.take(k + 1),
                    out.load@ == base_v + seg_v.take(k + 1),
                decreases next - cur,
            {
                cur = cur + d;
                let ghost k1 = k + 1;
                assert(k1 * d < g) by (nonlinear_arith)
                    requires
                        cur == t[i as int].utc_secs + k * d + d,
                        cur < next,
                        g == next - t[i as int].utc_secs,
                        k1 == k + 1,
                ;
                assert(k1 + 1 <= gap_len(g, d as int)) by (nonlinear_arith)
                    requires
                        k1 * d < g,
                        d > 0,
                        k1 >= 1,
                {
                    assert((g - 1) / (d as int) >= k1) by (nonlinear_arith)
                        requires
                            k1 * d <= g - 1,
                            d > 0,
                            k1 >= 1,
                    {
                        vstd::arithmetic::div_mod::lemma_fundamental_div_mod(g - 1, d as int);
                    }
                }
                assert(i64::MIN <= t[i as int].utc_secs <= cur < next <= i64::MAX);
                out.time.push(Stamp { utc_secs: cur as i64, offset_secs: start.offset_secs });
                out.load.push(missing);
                proof {
                    k = k + 1;
                }
                proof {
                    assert(cur == t[i as int].utc_secs + k * d) by (nonlinear_arith)
                        requires
                            cur == t[i as int].utc_secs + (k - 1) * d + d,
                    ;
                    assert(seg_t[k as int].utc_secs == cur as i64);
                    assert(out.time@ =~= base_t + seg_t.take(k + 1));
                    assert(out.load@ =~= base_v + seg_v.take(k + 1));
                }
            }
            proof {
                assert(g <= (k + 1) * d) by (nonlinear_arith)
                    requires
                        cur == t[i as int].utc_secs + k * d,
                        cur + d >= next,
                        g == next - t[i as int].utc_secs,
                ;
                lemma_walk_count(g, d as int, k as int);
                assert(seg_t.take(k + 1) =~= seg_t);
                assert(seg_v.take(k + 1) =~= seg_v);
                assert(filled_times(t, d as int, i + 1) == base_t + seg_t);
                assert(filled_loads(t, v, d as int, i + 1, missing) == base_v + seg_v);
            }
            i = i + 1;
        }
        out.time.push(self.time[n - 1]);
        out.load.push(self.load[n - 1]);
        proof {
            lemma_filled_lengths(t, v, d as int, (n - 1) as int, missing);
        }
        Ok(out)
    }
}

/// Gap filling leaves an evenly spaced, strictly rising series as it is:
/// the stamps and the values come out unchanged.
pub proof fn lemma_fill_regular_unchanged<T>(t: Seq<Stamp>, v: Seq<T>, missing: T)
    requires
        t.len() >= 2,
        t.len() == v.len(),
        strictly_increasing(t),
        evenly_spaced(t),
    ensures
        filled_times(t, min_step(t), t.len() - 1).push(t[t.len() - 1]) == t,
        filled_loads(t, v, min_step(t), t.len() - 1, missing).push(v[v.len() - 1]) == v,
{
    let n = t.len() as int;
    lemma_regular_min_step(t);
    lemma_fill_regular_prefix(t, v, min_step(t), n - 1, missing);
    assert(t.take(n - 1).push(t[n - 1]) =~= t);
    assert(v.take(n - 1).push(v[n - 1]) =~= v);
}

proof fn lemma_regular_min_step(t: Seq<Stamp>)
    requires
        t.len() >= 2,
        strictly_increasing(t),
        evenly_spaced(t),
    ensures
        min_step(t) == step(t, 0),
        min_step(t) > 0,
{
    let n = t.len() as int;
    lemma_min_step_upto(t, n - 1);
    let w = choose|w: int| 0 <= w < n - 1 && min_step_upto(t, n - 1) == step(t, w);
    assert(step(t, w) == step(t, 0));
    assert(step(t, 0) > 0);
}

/// The stamps rise by exactly `d` from each one to the next, starting at `t0`.
pub open spec fn on_grid(s: Seq<Stamp>, t0: int, d: int) -> bool {
    forall|i: int| 0 <= i < s.len() ==> #[trigger] s[i].utc_secs == t0 + i * d
}

/// When every gap of a strictly rising series is a whole number of smallest
/// steps, gap filling yields stamps on a regular grid: each one the
/// smallest step after the one before.
pub proof fn lemma_fill_on_grid(t: Seq<Stamp>)
    requires
        t.len() >= 2,
        strictly_increasing(t),
        forall|j: int| 0 <= j < t.len() - 1 ==> #[trigger] step(t, j) % min_step(t) == 0,
    ensures
        on_grid(
            filled_times(t, min_step(t), t.len() - 1).push(t[t.len() - 1]),
            t[0].utc_secs as int,
            min_step(t),
        ),
        evenly_spaced(filled_times(t, min_step(t), t.len() - 1).push(t[t.len() - 1])),
{
    let n = t.len() as int;
    let d = min_step(t);
    lemma_min_step_upto(t, n - 1);
    let w = choose|w: int| 0 <= w < n - 1 && min_step_upto(t, n - 1) == step(t, w);
    assert(step(t, w) > 0);
    assert(d > 0);
    lemma_fill_grid_prefix(t, d, n - 1);
    let out = filled_times(t, d, n - 1).push(t[n - 1]);
    let len = filled_times(t, d, n - 1).len();
    assert(out[len as int].utc_secs == t[0].utc_secs + len * d);
    assert(on_grid(out, t[0].utc_secs as int, d));
    assert forall|i: int| 0 <= i < out.len() - 1 implies #[trigger] step(out, i) == step(out, 0) by {
        assert(out[i].utc_secs == t[0].utc_secs + i * d);
        assert(out[i + 1].utc_secs == t[0].utc_secs + (i + 1) * d);
        assert(out[0].utc_secs == t[0].utc_secs + 0 * d);
        assert(out[1].utc_secs == t[0].utc_secs + 1 * d);
        assert((i + 1) * d - i * d == d) by (nonlinear_arith);
    }
}

proof fn lemma_fill_grid_prefix(t: Seq<Stamp>, d: int, m: int)
    requires
        0 <= m < t.len(),
        d > 0,
        strictly_increasing(t),
        forall|j: int| 0 <= j < t.len() - 1 ==> d <= #[trigger] step(t, j),
        forall|j: int| 0 <= j < t.len() - 1 ==> #[trigger] step(t, j) % d == 0,
    ensures
        on_grid(filled_times(t, d, m), t[0].utc_secs as int, d),
        t[m].utc_secs == t[0].utc_secs + filled_times(t, d, m).len() * d,
    decreases m,
{
    if m == 0 {
        assert(t[0].utc_secs == t[0].utc_secs + 0 * d);
    } else {
        lemma_fill_grid_prefix(t, d, m - 1);
        let prev = filled_times(t, d, m - 1);
        let base = prev.len() as int;
        let g = step(t, m - 1);
        assert(g >= d);
        assert(g % d == 0);
        let count = gap_len(g, d);
        assert(count == g / d && count >= 1) by (nonlinear_arith)
            requires
                g >= d,
                d > 0,
                g % d == 0,
                count == 1 + (g - 1) / d,
        {
            vstd::arithmetic::div_mod::lemma_fundamental_div_mod(g, d);
            vstd::arithmetic::div_mod::lemma_fundamental_div_mod(g - 1, d);
        }
        assert(count * d == g) by (nonlinear_arith)
            requires
                count == g / d,
                g % d == 0,
                d > 0,
        {
            vstd::arithmetic::div_mod::lemma_fundamental_div_mod(g, d);
        }
        let seg = Seq::new(
            count as nat,
            |k: int|
                Stamp {
                    utc_secs: (t[m - 1].utc_secs + k * d) as i64,
                    offset_secs: t[m - 1].offset_secs,
                },
        );
        assert(filled_times(t, d, m) == prev + seg);
        assert forall|k: int| 0 <= k < count implies #[trigger] seg[k].utc_secs == t[0].utc_secs
            + (base + k) * d by {
            assert(0 <= k * d < g) by (nonlinear_arith)
                requires
                    0 <= k < count,
                    count * d == g,
                    d > 0,
            ;
            assert(t[m - 1].utc_secs + k * d < t[m].utc_secs);
            assert(t[m - 1].utc_secs + k * d == t[0].utc_secs + (base + k) * d) by (nonlinear_arith)
                requires
                    t[m - 1].utc_secs == t[0].utc_secs + base * d,
            ;
        }
        let all = prev + seg;
        assert forall|i: int| 0 <= i < all.len() implies #[trigger] all[i].utc_secs == t[0].utc_secs
            + i * d by {
            if i < base {
                assert(all[i] == prev[i]);
            } else {
                assert(all[i] == seg[i - base]);
                assert(seg[i - base].utc_secs == t[0].utc_secs + (base + (i - base)) * d);
            }
        }
        assert(t[m].utc_secs == t[0].utc_secs + (base + count) * d) by (nonlinear_arith)
            requires
                t[m].utc_secs == t[m - 1].utc_secs + g,
                t[m - 1].utc_secs == t[0].utc_secs + base * d,
                count * d == g,
        ;
    }
}

/// Gap filling on a series whose gaps are all the smallest step but one,
/// which is twice that step, adds exactly one point, marked missing, right
/// after the start of the wide gap.
pub proof fn lemma_fill_one_double_gap<T>(t: Seq<Stamp>, v: Seq<T>, j: int, missing: T)
    requires
        t.len() >= 3,
        t.len() == v.len(),
        strictly_increasing(t),
        0 <= j < t.len() - 1,
        forall|i: int| 0 <= i < t.len() - 1 && i != j ==> 2 * #[trigger] step(t, i) == step(t, j),
    ensures
        filled_times(t, min_step(t), t.len() - 1).push(t[t.len() - 1]).len() == t.len() + 1,
        filled_loads(t, v, min_step(t), t.len() - 1, missing).push(v[v.len() - 1]) == v.take(j + 1).push(
            missing,
        ) + v.skip(j + 1),
{
    let n = t.len() as int;
    let r = if j == 0 { 1int } else { 0int };
    let d = step(t, r);
    assert(2 * step(t, r) == step(t, j));
    assert(step(t, r) > 0);
    lemma_min_step_upto(t, n - 1);
    let w = choose|w: int| 0 <= w < n - 1 && min_step_upto(t, n - 1) == step(t, w);
    assert(min_step(t) <= step(t, r));
    assert(min_step(t) == d);
    lemma_fill_double_prefix(t, v, j, d, n - 1, missing);
    assert(v.take(j + 1).push(missing) + v.subrange(j + 1, n - 1) + seq![v[n - 1]] =~= v.take(j + 1).push(
        missing,
    ) + v.skip(j + 1));
    assert((v.take(j + 1).push(missing) + v.subrange(j + 1, n - 1)).push(v[n - 1]) =~= v.take(j + 1).push(
        missing,
    ) + v.subrange(j + 1, n - 1) + seq![v[n - 1]]);
}

proof fn lemma_fill_double_prefix<T>(t: Seq<Stamp>, v: Seq<T>, j: int, d: int, m: int, missing: T)
    requires
        0 <= m < t.len(),
        t.len() == v.len(),
        0 <= j < t.len() - 1,
        d > 0,
        forall|i: int| 0 <= i < t.len() - 1 && i != j ==> #[trigger] step(t, i) == d,
        step(t, j) == 2 * d,
    ensures
        m <= j ==> filled_loads(t, v, d, m, missing) == v.take(m),
        m <= j ==> filled_times(t, d, m).len() == m,
        m > j ==> filled_loads(t, v, d, m, missing) == v.take(j + 1).push(missing) + v.subrange(j + 1, m),
        m > j ==> filled_times(t, d, m).len() == m + 1,
    decreases m,
{
    if m > 0 {
        lemma_fill_double_prefix(t, v, j, d, m - 1, missing);
        let g = step(t, m - 1);
        if m - 1 == j {
            assert((2 * d - 1) / d == 1) by (nonlinear_arith)
                requires
                    d > 0,
            {
                vstd::arithmetic::div_mod::lemma_fundamental_div_mod(2 * d - 1, d);
            }
            assert(gap_len(g, d) == 2);
            assert(filled_loads(t, v, d, m, missing) =~= v.take(j + 1).push(missing) + v.subrange(
                j + 1,
                m,
            ));
        } else {
            assert((d - 1) / d == 0) by (nonlinear_arith)
                requires
                    d > 0,
            {
                vstd::arithmetic::div_mod::lemma_fundamental_div_mod(d - 1, d);
            }
            assert(gap_len(g, d) == 1);
            if m <= j {
                assert(filled_loads(t, v, d, m, missing) =~= v.take(m));
            } else {
                assert(filled_loads(t, v, d, m, missing) =~= v.take(j + 1).push(missing) + v.subrange(
                    j + 1,
                    m,
                ));
            }
        }
    } else {
        assert(v.take(0) =~= Seq::<T>::empty());
    }
}

proof fn lemma_fill_regular_prefix<T>(t: Seq<Stamp>, v: Seq<T>, d: int, m: int, missing: T)
    requires
        0 <= m < t.len(),
        t.len() == v.len(),
        d > 0,
        evenly_spaced(t),
        d == step(t, 0),
    ensures
        filled_times(t, d, m) == t.take(m),
        filled_loads(t, v, d, m, missing) == v.take(m),
    decreases m,
{
    if m > 0 {
        lemma_fill_regular_prefix(t, v, d, m - 1, missing);
        assert(step(t, m - 1) == d);
        assert((d - 1) / d == 0) by (nonlinear_arith)
            requires
                d > 0,
        {
            vstd::arithmetic::div_mod::lemma_fundamental_div_mod(d - 1, d);
        }
        assert(gap_len(step(t, m - 1), d) == 1);
        let seg = Seq::new(
            1nat,
            |k: int|
                Stamp {
                    utc_secs: (t[m - 1].utc_secs + k * d) as i64,
                    offset_secs: t[m - 1].offset_secs,
                },
        );
        assert(seg[0] == t[m - 1]);
        assert(filled_times(t, d, m) == filled_times(t, d, m - 1) + seg);
        assert(filled_times(t, d, m) =~= t.take(m));
        assert(filled_loads(t, v, d, m, missing) =~= v.take(m));
    } else {
        assert(t.take(0) =~= Seq::<Stamp>::empty());
        assert(v.take(0) =~= Seq::<T>::empty());
    }
}

impl<T: Copy> TimeLoad<T> {
    /// Marks `missing` the value at the first stamp equal, as an instant, to
    /// each of `bad`. Stamps of `bad` that match no point change nothing.
    pub fn replace_bad_datetimes_with_nan(&mut self, bad: Vec<Stamp>, missing: T)
        requires
            old(self).wf(),
        ensures
            final(self).wf(),
            final(self).time@ == old(self).time@,
            final(self).load@ == Seq::new(
                old(self).load@.len(),
                |i: int|
                    if first_hit(old(self).time@, bad@, i) {
                        missing
                    } else {
                        old(self).load@[i]
                    },
            ),
    {
        let n = self.time.len();
        let ghost t = self.time@;
        let ghost v = self.load@;
        let mut q: usize = 0;
        while q < bad.len()
            invariant
                q <= bad@.len(),
                n == t.len(),
                n == v.len(),
                self.time@ == t,
                self.load@.len() == n,
                forall|i: int|
                    0 <= i < n ==> self.load@[i] == if first_hit(t, bad@.take(q as int), i) {
                        missing
                    } else {
                        v[i]
                    },
            decreases bad@.len() - q,
        {
            let target = bad[q].utc_secs;
            let mut p: usize = 0;
            while p < n && self.time[p].utc_secs != target
                invariant
                    p <= n,
                    n == t.len(),
                    self.time@ == t,
                    forall|k: int| 0 <= k < p ==> t[k].utc_secs != target,
                decreases n - p,
            {
                p = p + 1;
            }
            if p < n {
                self.load.set(p, missing);
            }
            proof {
                let before = bad@.take(q as int);
                let after = bad@.take(q as int + 1);
                assert(after =~= before.push(bad@[q as int]));
                assert forall|i: int| 0 <= i < n implies self.load@[i] == if first_hit(t, after, i) {
                    missing
                } else {
                    v[i]
                } by {
                    if first_hit(t, before, i) {
                        let b = choose|b: int| 0 <= b < before.len() && before[b].utc_secs == t[i].utc_secs;
                        assert(after[b] == before[b]);
                    }
                    if first_hit(t, after, i) && !first_hit(t, before, i) {
                        let b = choose|b: int| 0 <= b < after.len() && after[b].utc_secs == t[i].utc_secs;
                        if b < q {
                            assert(before[b] == after[b]);
                        } else {
                            assert(t[i].utc_secs == target);
                            if p < i {
                                assert(t[p as int].utc_secs == target);
                            }
                            assert(i == p);
                        }
                    }
                    if i == p && p < n {
                        assert(after[q as int].utc_secs == t[i].utc_secs);
                    }
                }
            }
            q = q + 1;
        }
        assert(bad@.take(bad@.len() as int) =~= bad@);
        assert(self.load@ =~= Seq::new(
            v.len(),
            |i: int|
                if first_hit(t, bad@, i) {
                    missing
                } else {
                    v[i]
                },
        ));
    }

    /// Marks `missing` every value whose local time of day, in seconds after
    /// midnight, lies strictly between `time_init` and `time_stop`.
    pub fn replace_bad_time_interval_with_nan(&mut self, time_init: u32, time_stop: u32, missing: T)
        requires
            old(self).wf(),
        ensures
            final(self).wf(),
            final(self).time@ == old(self).time@,
            final(self).load@ == Seq::new(
                old(self).load@.len(),
                |i: int|
                    if in_daily_interval(old(self).time@[i], time_init, time_stop) {
                        missing
                    } else {
                        old(self).load@[i]
                    },
            ),
    {
        let n = self.time.len();
        let ghost v = self.load@;
        let ghost t = self.time@;
        let mut i: usize = 0;
        while i < n
            invariant
                i <= n,
                n == self.time@.len(),
                self.time@ == t,
                n == v.len(),
                self.load@.len() == n,
                forall|j: int|
                    0 <= j < i ==> self.load@[j] == if in_daily_interval(self.time@[j], time_init, time_stop) {
                        missing
                    } else {
                        v[j]
                    },
                forall|j: int| i <= j < n ==> self.load@[j] == v[j],
            decreases n - i,
        {
            let tod = self.time[i].time_of_day();
            if time_init < tod && tod < time_stop {
                self.load.set(i, missing);
            }
            i = i + 1;
        }
        assert(self.load@ =~= Seq::new(
            v.len(),
            |j: int|
                if in_daily_interval(self.time@[j], time_init, time_stop) {
                    missing
                } else {
                    v[j]
                },
        ));
    }

    /// Groups the points into runs of consecutive points reported under the
    /// same hour, in order. Returns the hour of each run, stamped in the
    /// offset of its first point, and the position just past each run's last
    /// point. Fails with `EmptyTimeLoad` on a series without points.
    pub fn hourly_runs(&self) -> (r: Result<(Vec<Stamp>, Vec<usize>), EmptyTimeLoad>)
        requires
            keys_in_range(self.time@),
        ensures
            r is Err <==> self.time@.len() == 0,
            r matches Ok((hours, ends)) ==> {
                let t = self.time@;
                &&& hours@.len() == ends@.len()
                &&& ends@.len() >= 1
                &&& rising(ends@)
                &&& ends@[ends@.len() - 1] == t.len()
                &&& forall|j: int|
                    1 <= j < t.len() ==> ((exists|q: int| 0 <= q < ends@.len() && ends@[q] == j)
                        <==> #[trigger] hour_changes(t, j))
                &&& forall|q: int|
                    0 <= q < hours@.len() ==> {
                        &&& hours@[q].utc_secs == hour_key_secs(t[run_start(ends@, q)])
                        &&& hours@[q].offset_secs == t[run_start(ends@, q)].offset_secs
                    }
            },
    {
        let n = self.time.len();
        if n == 0 {
            return Err(EmptyTimeLoad());
        }
        let ghost t = self.time@;
        let mut hours: Vec<Stamp> = Vec::new();
        let mut ends: Vec<usize> = Vec::new();
        let mut current = self.time[0].hour_key();
        let mut j: usize = 1;
        while j < n
            invariant
                1 <= j <= n,
                n == t.len(),
                t == self.time@,
                keys_in_range(t),
                hours@.len() == ends@.len(),
                rising(ends@),
                forall|q: int| 0 <= q < ends@.len() ==> 1 <= #[trigger] ends@[q] < j,
                forall|p: int|
                    1 <= p < j ==> ((exists|q: int| 0 <= q < ends@.len() && ends@[q] == p)
                        <==> #[trigger] hour_changes(t, p)),
                forall|q: int|
                    0 <= q < hours@.len() ==> {
                        &&& hours@[q].utc_secs == hour_key_secs(t[run_start(ends@, q)])
                        &&& hours@[q].offset_secs == t[run_start(ends@, q)].offset_secs
                    },
                current.utc_secs == hour_key_secs(t[run_start(ends@, ends@.len() as int)]),
                current.offset_secs == t[run_start(ends@, ends@.len() as int)].offset_secs,
                current.utc_secs == hour_key_secs(t[j - 1]),
                0 <= run_start(ends@, ends@.len() as int) < j,
            decreases n - j,
        {
            let key = self.time[j].hour_key();
            if key.utc_secs != current.utc_secs {
                let ghost old_ends = ends@;
                let ghost old_hours = hours@;
                hours.push(current);
                ends.push(j);
                current = key;
                proof {
                    assert(run_start(ends@, ends@.len() as int) == j);
                    assert forall|q: int| 0 <= q < hours@.len() implies {
                        &&& hours@[q].utc_secs == hour_key_secs(t[run_start(ends@, q)])
                        &&& hours@[q].offset_secs == t[run_start(ends@, q)].offset_secs
                    } by {
                        if q < old_hours.len() {
                            assert(run_start(ends@, q) == run_start(old_ends, q));
                        } else {
                            assert(run_start(ends@, q) == run_start(old_ends, old_ends.len() as int));
                        }
                    }
                    assert forall|p: int| 1 <= p < j + 1 implies ((exists|q: int|
                        0 <= q < ends@.len() && ends@[q] == p) <==> #[trigger] hour_changes(t, p)) by {
                        if p < j {
                            if exists|q: int| 0 <= q < old_ends.len() && old_ends[q] == p {
                                let q = choose|q: int| 0 <= q < old_ends.len() && old_ends[q] == p;
                                assert(ends@[q] == p);
                            }
                            if exists|q: int| 0 <= q < ends@.len() && ends@[q] == p {
                                let q = choose|q: int| 0 <= q < ends@.len() && ends@[q] == p;
                                assert(q < old_ends.len());
                                assert(old_ends[q] == p);
                            }
                        } else {
                            assert(ends@[ends@.len() - 1] == p);
                        }
                    }
                }
            } else {
                proof {
                    assert forall|p: int| 1 <= p < j + 1 implies ((exists|q: int|
                        0 <= q < ends@.len() && ends@[q] == p) <==> #[trigger] hour_changes(t, p)) by {
                        if p == j {
                            if exists|q: int| 0 <= q < ends@.len() && ends@[q] == p {
                                let q = choose|q: int| 0 <= q < ends@.len() && ends@[q] == p;
                                assert(ends@[q] < j);
                            }
                        }
                    }
                }
            }
            j = j + 1;
        }
        let ghost old_ends = ends@;
        let ghost old_hours = hours@;
        hours.push(current);
        ends.push(n);
        proof {
            assert forall|q: int| 0 <= q < hours@.len() implies {
                &&& hours@[q].utc_secs == hour_key_secs(t[run_start(ends@, q)])
                &&& hours@[q].offset_secs == t[run_start(ends@, q)].offset_secs
            } by {
                if q < old_hours.len() {
                    assert(run_start(ends@, q) == run_start(old_ends, q));
                } else {
                    assert(run_start(ends@, q) == run_start(old_ends, old_ends.len() as int));
                }
            }
            assert forall|p: int| 1 <= p < n implies ((exists|q: int|
                0 <= q < ends@.len() && ends@[q] == p) <==> #[trigger] hour_changes(t, p)) by {
                if exists|q: int| 0 <= q < old_ends.len() && old_ends[q] == p {
                    let q = choose|q: int| 0 <= q < old_ends.len() && old_ends[q] == p;
                    assert(ends@[q] == p);
                }
                if exists|q: int| 0 <= q < ends@.len() && ends@[q] == p {
                    let q = choose|q: int| 0 <= q < ends@.len() && ends@[q] == p;
                    assert(q < old_ends.len());
                    assert(old_ends[q] == p);
                }
            }
        }
        Ok((hours, ends))
    }
}

proof fn lemma_filled_lengths<T>(t: Seq<Stamp>, v: Seq<T>, d: int, m: int, missing: T)
    requires
        m >= 0,
        d > 0,
        m < t.len(),
        forall|j: int| 0 <= j < m ==> d <= #[trigger] step(t, j),
    ensures
        filled_times(t, d, m).len() == filled_loads(t, v, d, m, missing).len(),
    decreases m,
{
    if m > 0 {
        lemma_filled_lengths(t, v, d, m - 1, missing);
        assert(step(t, m - 1) >= d);
        assert((step(t, m - 1) - 1) / d >= 0) by (nonlinear_arith)
            requires
                step(t, m - 1) >= d,
                d > 0,
        ;
    }
}

} // verus!
