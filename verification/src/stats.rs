//! The statistics accumulator: a streaming fold of scalar values into
//! minimum, maximum, sum and sum of squares, from which mean, population
//! variance and standard deviation are derived with an externally
//! maintained count.
//!
//! The minimum starts at the largest representable value and the maximum at
//! zero, so an empty accumulator folded with one value yields that value as
//! both extremes.

use vstd::prelude::*;

verus! {

/// Sum of the values.
pub open spec fn sum_seq(s: Seq<u64>) -> int
    decreases s.len(),
{
    if s.len() == 0 {
        0
    } else {
        sum_seq(s.drop_last()) + s.last()
    }
}

/// Sum of the squared values.
pub open spec fn sq_sum_seq(s: Seq<u64>) -> int
    decreases s.len(),
{
    if s.len() == 0 {
        0
    } else {
        sq_sum_seq(s.drop_last()) + s.last() * s.last()
    }
}

/// Minimum of the values, starting from the largest representable value.
pub open spec fn min_seq(s: Seq<u64>) -> int
    decreases s.len(),
{
    if s.len() == 0 {
        u64::MAX as int
    } else {
        let m = min_seq(s.drop_last());
        if s.last() < m {
            s.last() as int
        } else {
            m
        }
    }
}

/// Maximum of the values, starting from zero.
pub open spec fn max_seq(s: Seq<u64>) -> int
    decreases s.len(),
{
    if s.len() == 0 {
        0
    } else {
        let m = max_seq(s.drop_last());
        if s.last() > m {
            s.last() as int
        } else {
            m
        }
    }
}

/// Mean of the values under integer division, given their count.
pub open spec fn mean_of(s: Seq<u64>) -> int {
    sum_seq(s) / s.len() as int
}

/// Population variance of the values under integer division.
pub open spec fn variance_of(s: Seq<u64>) -> int {
    sq_sum_seq(s) / s.len() as int - mean_of(s) * mean_of(s)
}

/// The sums are nonnegative and the extremes are in range.
pub proof fn lemma_stats_ranges(s: Seq<u64>)
    ensures
        sum_seq(s) >= 0,
        sq_sum_seq(s) >= 0,
        0 <= min_seq(s) <= u64::MAX,
        0 <= max_seq(s) <= u64::MAX,
    decreases s.len(),
{
    if s.len() > 0 {
        lemma_stats_ranges(s.drop_last());
        let x = s.last() as int;
        assert(x * x >= 0) by (nonlinear_arith);
    }
}

/// The sum lies between count times minimum and count times maximum.
pub proof fn lemma_sum_between_extremes(s: Seq<u64>)
    requires
        s.len() > 0,
    ensures
        s.len() * min_seq(s) <= sum_seq(s) <= s.len() * max_seq(s),
    decreases s.len(),
{
    let dl = s.drop_last();
    let x = s.last() as int;
    let n = s.len() as int;
    let mn = min_seq(s);
    let mx = max_seq(s);
    if dl.len() == 0 {
        assert(sum_seq(dl) == 0);
        assert(mn <= x && x <= mx);
        assert(n * mn <= sum_seq(s) <= n * mx) by (nonlinear_arith)
            requires
                n == 1,
                mn <= x,
                x <= mx,
                sum_seq(s) == x,
        ;
    } else {
        lemma_sum_between_extremes(dl);
        lemma_stats_ranges(dl);
        let m = dl.len() as int;
        let mnd = min_seq(dl);
        let mxd = max_seq(dl);
        assert(mn <= mnd && mn <= x);
        assert(mx >= mxd && mx >= x);
        assert(n * mn <= sum_seq(s)) by (nonlinear_arith)
            requires
                n == m + 1,
                m >= 1,
                m * mnd <= sum_seq(dl),
                sum_seq(s) == sum_seq(dl) + x,
                mn <= mnd,
                mn <= x,
        ;
        assert(sum_seq(s) <= n * mx) by (nonlinear_arith)
            requires
                n == m + 1,
                m >= 1,
                sum_seq(dl) <= m * mxd,
                sum_seq(s) == sum_seq(dl) + x,
                mxd <= mx,
                x <= mx,
        ;
    }
}

/// Count times the sum of squares dominates the square of the sum.
pub proof fn lemma_sq_sum_dominates(s: Seq<u64>)
    ensures
        s.len() * sq_sum_seq(s) >= sum_seq(s) * sum_seq(s),
    decreases s.len(),
{
    if s.len() == 0 {
        return ;
    }
    let dl = s.drop_last();
    let x = s.last() as int;
    let m = dl.len() as int;
    let sum0 = sum_seq(dl);
    let q = sq_sum_seq(dl);
    lemma_sq_sum_dominates(dl);
    lemma_stats_ranges(dl);
    if m == 0 {
        assert(sum0 == 0 && q == 0);
        assert((0 + 1) * (0 + x * x) >= (0 + x) * (0 + x)) by (nonlinear_arith);
    } else {
        assert(q + m * (x * x) - 2 * sum0 * x >= 0) by (nonlinear_arith)
            requires
                m >= 1,
                m * q >= sum0 * sum0,
        {
            assert(m * (q + m * (x * x) - 2 * sum0 * x) >= (sum0 - m * x) * (sum0 - m * x));
            assert((sum0 - m * x) * (sum0 - m * x) >= 0);
        }
        assert((m + 1) * (q + x * x) >= (sum0 + x) * (sum0 + x)) by (nonlinear_arith)
            requires
                m >= 0,
                m * q >= sum0 * sum0,
                q >= 0,
                q + m * (x * x) - 2 * sum0 * x >= 0,
        ;
    }
}

/// For a nonempty fold the mean lies between the extremes and the
/// population variance is nonnegative.
pub proof fn lemma_accumulator_bounds(s: Seq<u64>)
    requires
        s.len() > 0,
    ensures
        min_seq(s) <= mean_of(s) <= max_seq(s),
        variance_of(s) >= 0,
{
    let n = s.len() as int;
    let sum = sum_seq(s);
    let q = sq_sum_seq(s);
    let mn = min_seq(s);
    let mx = max_seq(s);
    lemma_stats_ranges(s);
    lemma_sum_between_extremes(s);
    let mean = sum / n;
    assert(mn <= mean) by (nonlinear_arith)
        requires
            n >= 1,
            n * mn <= sum,
            mean == sum / n,
            mn >= 0,
            sum >= 0,
    ;
    assert(mean <= mx) by (nonlinear_arith)
        requires
            n >= 1,
            sum <= n * mx,
            mean == sum / n,
            sum >= 0,
    ;
    lemma_sq_sum_dominates(s);
    assert(q >= n * (mean * mean)) by (nonlinear_arith)
        requires
            n >= 1,
            n * q >= sum * sum,
            mean == sum / n,
            sum >= 0,
    ;
    assert(q / n >= mean * mean) by (nonlinear_arith)
        requires
            n >= 1,
            q >= n * (mean * mean),
            mean >= 0,
    ;
}

/// Streaming statistics for one metric.
pub struct Accumulator {
    /// Least value folded so far, `u64::MAX` before any fold.
    pub min: u64,
    /// Greatest value folded so far, zero before any fold.
    pub max: u64,
    /// Sum of the folded values.
    pub sum: u128,
    /// Sum of the squares of the folded values.
    pub sq_sum: u128,
    /// The values folded so far.
    pub values: Ghost<Seq<u64>>,
}

impl Accumulator {
    /// The four counters agree with the folded values.
    pub open spec fn wf(self) -> bool {
        &&& self.min == min_seq(self.values@)
        &&& self.max == max_seq(self.values@)
        &&& self.sum == sum_seq(self.values@)
        &&& self.sq_sum == sq_sum_seq(self.values@)
    }

    pub fn new() -> (a: Accumulator)
        ensures
            a.wf(),
            a.values@ == Seq::<u64>::empty(),
    {
        Accumulator { min: u64::MAX, max: 0, sum: 0, sq_sum: 0, values: Ghost(Seq::empty()) }
    }

    /// Folds one value: extremes by comparison, sums by addition.
    pub fn add(&mut self, value: u64)
        requires
            old(self).wf(),
            sum_seq(old(self).values@) + value <= u128::MAX,
            sq_sum_seq(old(self).values@) + value * value <= u128::MAX,
        ensures
            final(self).wf(),
            final(self).values@ == old(self).values@.push(value),
    {
        proof {
            let v0 = self.values@;
            self.values@ = self.values@.push(value);
            assert(self.values@.drop_last() =~= v0);
            assert((value as int) * (value as int) <= (u64::MAX as int) * (u64::MAX as int))
                by (nonlinear_arith)
                requires
                    0 <= value <= u64::MAX,
            ;
        }
        if value < self.min {
            self.min = value;
        }
        if value > self.max {
            self.max = value;
        }
        self.sum = self.sum + (value as u128);
        self.sq_sum = self.sq_sum + (value as u128) * (value as u128);
    }

    /// Folds one value unless a sum would overflow; says whether it did
    /// fold, and leaves the accumulator unchanged when it did not.
    pub fn try_add(&mut self, value: u64) -> (ok: bool)
        requires
            old(self).wf(),
        ensures
            final(self).wf(),
            ok <==> (sum_seq(old(self).values@) + value <= u128::MAX && sq_sum_seq(
                old(self).values@,
            ) + value * value <= u128::MAX),
            ok ==> final(self).values@ == old(self).values@.push(value),
            !ok ==> *final(self) == *old(self),
    {
        proof {
            assert((value as int) * (value as int) <= (u64::MAX as int) * (u64::MAX as int))
                by (nonlinear_arith)
                requires
                    0 <= value <= u64::MAX,
            ;
        }
        let sq = (value as u128) * (value as u128);
        if self.sum > u128::MAX - (value as u128) {
            return false;
        }
        if self.sq_sum > u128::MAX - sq {
            return false;
        }
        self.add(value);
        true
    }

    /// Mean of the folded values given their count; it lies between the
    /// extremes.
    pub fn mean(&self, n: u64) -> (r: u64)
        requires
            self.wf(),
            n == self.values@.len(),
            n > 0,
        ensures
            r == mean_of(self.values@),
            min_seq(self.values@) <= r <= max_seq(self.values@),
    {
        proof {
            lemma_stats_ranges(self.values@);
            lemma_accumulator_bounds(self.values@);
        }
        (self.sum / (n as u128)) as u64
    }

    /// Population variance of the folded values given their count; never
    /// negative.
    pub fn variance(&self, n: u64) -> (r: u128)
        requires
            self.wf(),
            n == self.values@.len(),
            n > 0,
        ensures
            r == variance_of(self.values@),
    {
        proof {
            lemma_stats_ranges(self.values@);
            lemma_accumulator_bounds(self.values@);
            assert(mean_of(self.values@) * mean_of(self.values@) <= (u64::MAX as int) * (
            u64::MAX as int)) by (nonlinear_arith)
                requires
                    0 <= mean_of(self.values@) <= u64::MAX,
            ;
        }
        let mean = self.sum / (n as u128);
        self.sq_sum / (n as u128) - mean * mean
    }

    /// Standard deviation: the integer square root of the variance.
    pub fn stddev(&self, n: u64) -> (r: u64)
        requires
            self.wf(),
            n == self.values@.len(),
            n > 0,
        ensures
            r * r <= variance_of(self.values@) < (r + 1) * (r + 1),
            r == floor_sqrt(variance_of(self.values@) as nat),
    {
        let v = self.variance(n);
        isqrt(v)
    }
}

/// The integer square root: the greatest value whose square is at most
/// `v`.
pub open spec fn floor_sqrt(v: nat) -> nat
    decreases v,
{
    if v == 0 {
        0
    } else {
        let p = floor_sqrt((v - 1) as nat);
        if (p + 1) * (p + 1) <= v {
            p + 1
        } else {
            p
        }
    }
}

pub proof fn lemma_floor_sqrt(v: nat)
    ensures
        (floor_sqrt(v) as int) * (floor_sqrt(v) as int) <= v,
        v < (floor_sqrt(v) as int + 1) * (floor_sqrt(v) as int + 1),
    decreases v,
{
    if v == 0 {
        assert(floor_sqrt(0) == 0);
    } else {
        lemma_floor_sqrt((v - 1) as nat);
        let p = floor_sqrt((v - 1) as nat);
        assert(p * p <= v - 1);
        assert(v - 1 < (p + 1) * (p + 1));
        if (p + 1) * (p + 1) <= v {
            assert(floor_sqrt(v) == p + 1);
            assert(v < (p + 2) * (p + 2)) by (nonlinear_arith)
                requires
                    v - 1 < (p + 1) * (p + 1),
            ;
            assert((floor_sqrt(v) + 1) * (floor_sqrt(v) + 1) == (p + 2) * (p + 2));
        } else {
            assert(floor_sqrt(v) == p);
            assert(p * p <= v);
            assert((floor_sqrt(v) + 1) * (floor_sqrt(v) + 1) == (p + 1) * (p + 1));
        }
    }
}

/// Any value with the floor-square-root properties is `floor_sqrt` itself.
pub proof fn lemma_floor_sqrt_unique(v: nat, r: nat)
    requires
        (r as int) * (r as int) <= v,
        v < (r as int + 1) * (r as int + 1),
    ensures
        floor_sqrt(v) == r,
{
    lemma_floor_sqrt(v);
    let p = floor_sqrt(v);
    if p < r {
        assert(v < (p + 1) * (p + 1) <= r * r) by (nonlinear_arith)
            requires
                v < (p + 1) * (p + 1),
                p + 1 <= r,
        ;
    } else if r < p {
        assert(v < (r + 1) * (r + 1) <= p * p) by (nonlinear_arith)
            requires
                v < (r + 1) * (r + 1),
                r + 1 <= p,
        ;
    }
}

/// Integer square root: the greatest value whose square is at most `v`.
pub fn isqrt(v: u128) -> (r: u64)
    ensures
        r * r <= v < (r + 1) * (r + 1),
        r == floor_sqrt(v as nat),
{
    let mut lo: u128 = 0;
    let mut hi: u128 = 0x1_0000_0000_0000_0000;
    proof {
        assert((0x1_0000_0000_0000_0000 as int) * (0x1_0000_0000_0000_0000 as int) > u128::MAX
            as int) by (nonlinear_arith);
    }
    while hi - lo > 1
        invariant
            0 <= lo < hi <= 0x1_0000_0000_0000_0000,
            (lo as int) * (lo as int) <= v,
            (hi as int) * (hi as int) > v,
        decreases hi - lo,
    {
        let mid = lo + (hi - lo) / 2;
        proof {
            assert((mid as int) * (mid as int) <= (u128::MAX as int)) by (nonlinear_arith)
                requires
                    0 <= mid < 0x1_0000_0000_0000_0000,
            ;
        }
        if mid * mid <= v {
            lo = mid;
        } else {
            hi = mid;
        }
    }
    let r = lo as u64;
    proof {
        assert(hi == lo + 1);
        assert((r as int) == (lo as int));
        lemma_floor_sqrt_unique(v as nat, r as nat);
    }
    r
}

} // verus!
