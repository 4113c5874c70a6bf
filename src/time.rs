use vstd::prelude::*;

verus! {

/// Seconds in one hour.
pub const SECS_PER_HOUR: i64 = 3600;

/// Seconds in one day.
pub const SECS_PER_DAY: i64 = 86400;

/// An instant with the fixed UTC offset it is read in, at a resolution of
/// one second. Two stamps denote the same instant when their `utc_secs`
/// agree, whatever their offsets.
#[derive(Debug, Clone, Copy, PartialEq, Eq, Structural)]
pub struct Stamp {
    /// Seconds since 1970-01-01T00:00:00Z.
    pub utc_secs: i64,
    /// Seconds east of UTC of the local reading.
    pub offset_secs: i32,
}

/// The wall-clock seconds of `s` in its own offset, counted from the epoch.
pub open spec fn local_secs(s: Stamp) -> int {
    s.utc_secs + s.offset_secs
}

/// The local time of day of `s`, in seconds after midnight.
pub open spec fn time_of_day(s: Stamp) -> int {
    local_secs(s) % (SECS_PER_DAY as int)
}

/// The local minute within the hour of `s`.
pub open spec fn minute_of_hour(s: Stamp) -> int {
    (local_secs(s) % (SECS_PER_HOUR as int)) / 60
}

/// The hour that `s` is reported under: moved one hour on from the
/// half-hour, with its minute then set to zero; the second within the
/// minute is kept.
pub open spec fn hour_key_secs(s: Stamp) -> int {
    s.utc_secs + (if minute_of_hour(s) >= 30 { SECS_PER_HOUR as int } else { 0 }) - 60
        * minute_of_hour(s)
}

/// Seconds in one week.
pub const SECS_PER_WEEK: i64 = 604800;

/// `a / b` rounded toward zero, as integer division in Rust does.
pub open spec fn div_toward_zero(a: int, b: int) -> int {
    if a >= 0 {
        a / b
    } else {
        -((-a) / b)
    }
}

/// The UTC seconds of the first local multiple of `rounding_secs` after
/// `utc_secs`: the wall-clock seconds `utc_secs + offset_secs` are moved on
/// by `rounding_secs` and rounded toward zero to a multiple of it.
pub open spec fn first_rounded_secs(utc_secs: int, offset_secs: int, rounding_secs: int) -> int {
    rounding_secs * div_toward_zero(utc_secs + offset_secs + rounding_secs, rounding_secs)
        - offset_secs
}

/// The first instant, in UTC seconds, at which a logger that reads every
/// `rounding_secs` seconds aligned on its local clock should read after
/// `utc_secs`.
pub fn first_rounded(utc_secs: i64, offset_secs: i32, rounding_secs: i64) -> (r: i64)
    requires
        0 < rounding_secs <= i32::MAX,
        i64::MIN / 2 <= utc_secs <= i64::MAX / 2,
    ensures
        r as int == first_rounded_secs(utc_secs as int, offset_secs as int, rounding_secs as int),
{
    let local: i128 = utc_secs as i128 + offset_secs as i128 + rounding_secs as i128;
    let q: i128 = match local.checked_div(rounding_secs as i128) {
        Some(q) => q,
        None => 0,
    };
    proof {
        let a = local as int;
        let b = rounding_secs as int;
        if a >= 0 {
            assert(0 <= a / b <= a) by (nonlinear_arith)
                requires
                    a >= 0,
                    b > 0,
            {
                vstd::arithmetic::div_mod::lemma_div_is_ordered_by_denominator(a, 1, b);
            }
            assert(q == a / b);
            vstd::arithmetic::div_mod::lemma_fundamental_div_mod(a, b);
            assert(a - b < b * q <= a);
        } else {
            assert(0 <= (-a) / b <= -a) by (nonlinear_arith)
                requires
                    a < 0,
                    b > 0,
            {
                vstd::arithmetic::div_mod::lemma_div_is_ordered_by_denominator(-a, 1, b);
            }
            assert(q == -((-a) / b));
            vstd::arithmetic::div_mod::lemma_fundamental_div_mod(-a, b);
            assert(b * q == -(b * ((-a) / b))) by (nonlinear_arith)
                requires
                    q == -((-a) / b),
            ;
            assert(a <= b * q < a + b);
        }
    }
    let first: i128 = rounding_secs as i128 * q - offset_secs as i128;
    first as i64
}

/// The reading slots a logger has missed: starting at `next` and every
/// `step` seconds on, each slot at or before `now`. Returns the missed slots
/// in order and the first slot after `now`.
pub fn missed_slots(next: i64, now: i64, step: i64) -> (r: (Vec<i64>, i64))
    requires
        step > 0,
        now <= i64::MAX - step,
    ensures
        r.1 > now,
        r.0@.len() == 0 ==> r.1 == next,
        r.0@.len() > 0 ==> r.0@[r.0@.len() - 1] <= now && r.1 == r.0@[r.0@.len() - 1] + step,
        forall|k: int| 0 <= k < r.0@.len() ==> #[trigger] r.0@[k] == next + k * step,
        next > now ==> r.0@.len() == 0,
{
    let mut slots: Vec<i64> = Vec::new();
    let mut cur: i64 = next;
    while cur <= now
        invariant
            step > 0,
            now <= i64::MAX - step,
            slots@.len() == 0 ==> cur == next,
            slots@.len() > 0 ==> slots@[slots@.len() - 1] <= now && cur == slots@[slots@.len() - 1] + step,
            cur == next + slots@.len() * step,
            cur <= now + step || slots@.len() == 0,
            forall|k: int| 0 <= k < slots@.len() ==> #[trigger] slots@[k] == next + k * step,
        decreases now + step - cur,
    {
        slots.push(cur);
        cur = cur + step;
        assert(cur == next + slots@.len() * step) by (nonlinear_arith)
            requires
                cur == next + (slots@.len() - 1) * step + step,
        ;
    }
    (slots, cur)
}

/// The format of the time axis for a span of `secs` seconds and
/// `subsec_nanos` nanoseconds: year, month and day beyond one week; month,
/// day and hour beyond one day; otherwise day, hour and minute.
pub fn suitable_xfmt(secs: i64, subsec_nanos: u32) -> (r: &'static str)
    ensures
        r@ == (if secs > SECS_PER_WEEK || (secs == SECS_PER_WEEK && subsec_nanos > 0) {
            "%y-%m-%d"@
        } else if secs > SECS_PER_DAY || (secs == SECS_PER_DAY && subsec_nanos > 0) {
            "%m-%d %H"@
        } else {
            "%d %H:%M"@
        }),
{
    if secs > SECS_PER_WEEK || (secs == SECS_PER_WEEK && subsec_nanos > 0) {
        "%y-%m-%d"
    } else if secs > SECS_PER_DAY || (secs == SECS_PER_DAY && subsec_nanos > 0) {
        "%m-%d %H"
    } else {
        "%d %H:%M"
    }
}

/// The smallest and the largest of the values.
pub fn min_and_max(s: &[i64]) -> (r: (i64, i64))
    requires
        s@.len() >= 1,
    ensures
        exists|i: int| 0 <= i < s@.len() && s@[i] == r.0,
        exists|i: int| 0 <= i < s@.len() && s@[i] == r.1,
        forall|i: int| 0 <= i < s@.len() ==> r.0 <= #[trigger] s@[i] <= r.1,
{
    let mut lo: i64 = s[0];
    let mut hi: i64 = s[0];
    let mut i: usize = 1;
    while i < s.len()
        invariant
            1 <= i <= s@.len(),
            lo <= hi,
            exists|j: int| 0 <= j < s@.len() && s@[j] == lo,
            exists|j: int| 0 <= j < s@.len() && s@[j] == hi,
            forall|j: int| 0 <= j < i ==> lo <= #[trigger] s@[j] <= hi,
        decreases s@.len() - i,
    {
        let e = s[i];
        if e > hi {
            hi = e;
        } else if e < lo {
            lo = e;
        }
        assert(lo <= s@[i as int] <= hi);
        i = i + 1;
    }
    (lo, hi)
}

impl Stamp {
    /// The local time of day, in seconds after midnight.
    pub fn time_of_day(&self) -> (r: u32)
        ensures
            r as int == time_of_day(*self),
            r < 86400,
    {
        let local: i128 = self.utc_secs as i128 + self.offset_secs as i128;
        match local.checked_rem_euclid(SECS_PER_DAY as i128) {
            Some(r) => r as u32,
            None => 0,
        }
    }

    /// The stamp of the hour this one is reported under, in the same offset.
    pub fn hour_key(&self) -> (r: Stamp)
        requires
            i64::MIN + 3600 <= self.utc_secs <= i64::MAX - 3600,
        ensures
            r.utc_secs as int == hour_key_secs(*self),
            r.offset_secs == self.offset_secs,
    {
        let local: i128 = self.utc_secs as i128 + self.offset_secs as i128;
        let in_hour: i128 = match local.checked_rem_euclid(SECS_PER_HOUR as i128) {
            Some(r) => r,
            None => 0,
        };
        let minute: i128 = in_hour / 60;
        let shift: i128 = if minute >= 30 { SECS_PER_HOUR as i128 } else { 0 };
        let key: i128 = self.utc_secs as i128 + shift - 60 * minute;
        Stamp { utc_secs: key as i64, offset_secs: self.offset_secs }
    }
}

} // verus!
