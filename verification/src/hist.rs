//! A log-bucketed histogram: percentiles without keeping the samples.
//!
//! Values below 32 have a bucket each; from there on every doubling is split into sixteen
//! buckets, so that a bucket is never wider than a sixteenth of its lower end.
use crate::rounding;
use crate::rounding::{round_quotient, round_whole, Fraction};
use vstd::arithmetic::power2::*;
use vstd::prelude::*;

verus! {

/// The number of buckets that 64-bit values need.
pub const BUCKETS: usize = 976;

/// The bucket of `v`.
pub open spec fn bucket(v: nat) -> nat
    decreases v,
{
    if v < 32 {
        v
    } else {
        16 + bucket(v / 2)
    }
}

/// The least value in bucket number `i`.
pub open spec fn bucket_low(i: nat) -> nat
    decreases i,
{
    if i < 32 {
        i
    } else {
        2 * bucket_low((i - 16) as nat)
    }
}

/// What a histogram has recorded.
#[verifier::ext_equal]
pub struct HistModel {
    pub count: nat,
    pub sum: nat,
    pub min: nat,
    pub max: nat,
    pub buckets: Seq<nat>,
}

/// The histogram of no samples.
pub open spec fn nothing() -> HistModel {
    HistModel {
        count: 0,
        sum: 0,
        min: 0,
        max: 0,
        buckets: Seq::new(BUCKETS as nat, |i: int| 0nat),
    }
}

/// `h` after one more sample.
pub open spec fn recorded(h: HistModel, v: nat) -> HistModel {
    HistModel {
        count: h.count + 1,
        sum: h.sum + v,
        min: if h.count == 0 || v < h.min {
            v
        } else {
            h.min
        },
        max: if h.count == 0 || v > h.max {
            v
        } else {
            h.max
        },
        buckets: h.buckets.update(bucket(v) as int, h.buckets[bucket(v) as int] + 1),
    }
}

/// The histogram of `samples`.
pub open spec fn hist_of(samples: Seq<nat>) -> HistModel
    decreases samples.len(),
{
    if samples.len() == 0 {
        nothing()
    } else {
        recorded(hist_of(samples.drop_last()), samples.last())
    }
}

/// The sum of the first `n` buckets.
pub open spec fn below(buckets: Seq<nat>, n: int) -> nat
    decreases n,
{
    if n <= 0 {
        0
    } else {
        below(buckets, n - 1) + buckets[n - 1]
    }
}

/// The rank of the percentile `percent` among `count` samples, counted from one: the least rank
/// with at least that share of the samples at or below it.
pub open spec fn rank(count: nat, percent: nat) -> nat {
    let r = (count * percent + 99) / 100;
    if r == 0 {
        1
    } else {
        r
    }
}

/// The first bucket from `i` on that holds the sample of rank `r` among those from there on.
pub open spec fn bucket_of_rank(buckets: Seq<nat>, r: nat, i: int) -> int
    decreases buckets.len() - i,
{
    if i < 0 || i + 1 >= buckets.len() || r <= buckets[i] {
        i
    } else {
        bucket_of_rank(buckets, (r - buckets[i]) as nat, i + 1)
    }
}

/// The percentile `percent` of `h`: the lower end of the bucket that holds the sample of that
/// rank, but never less than the least sample.
pub open spec fn percentile(h: HistModel, percent: nat) -> nat {
    let low = bucket_low(bucket_of_rank(h.buckets, rank(h.count, percent), 0) as nat);
    if low < h.min {
        h.min
    } else {
        low
    }
}

/// The mean of the samples, as double precision gives it.
pub open spec fn mean_of(h: HistModel) -> (nat, nat) {
    rounding::quotient(rounding::whole(h.sum), rounding::whole(h.count))
}

/// Whether `h` is the histogram of some samples.
pub open spec fn consistent(h: HistModel) -> bool {
    &&& h.buckets.len() == BUCKETS
    &&& below(h.buckets, BUCKETS as int) == h.count
    &&& h.min <= h.max
    &&& h.max <= h.sum
}

/// A streaming histogram.
#[derive(Debug, Clone)]
pub struct Histogram {
    count: u64,
    sum: u64,
    min: u64,
    max: u64,
    buckets: Vec<u64>,
}

impl View for Histogram {
    type V = HistModel;

    closed spec fn view(&self) -> HistModel {
        HistModel {
            count: self.count as nat,
            sum: self.sum as nat,
            min: self.min as nat,
            max: self.max as nat,
            buckets: Seq::new(self.buckets@.len(), |i: int| self.buckets@[i] as nat),
        }
    }
}

impl Histogram {
    /// Whether the counts belong together.
    pub open spec fn wf(&self) -> bool {
        consistent(self@)
    }

    /// An empty histogram.
    pub fn new() -> (h: Histogram)
        ensures
            h.wf(),
            h@ == nothing(),
    {
        let mut buckets: Vec<u64> = Vec::new();
        while buckets.len() < BUCKETS
            invariant
                buckets@.len() <= BUCKETS,
                forall|i: int| 0 <= i < buckets@.len() ==> #[trigger] buckets@[i] == 0,
            decreases BUCKETS - buckets@.len(),
        {
            buckets.push(0);
        }
        let h = Histogram { count: 0, sum: 0, min: 0, max: 0, buckets };
        proof {
            assert(h@.buckets =~= nothing().buckets);
            lemma_below_nothing(BUCKETS as int);
        }
        h
    }

    /// Adds one sample.
    pub fn record(&mut self, value: u64)
        requires
            old(self).wf(),
            old(self)@.count < u64::MAX,
            old(self)@.sum + value <= u64::MAX,
        ensures
            final(self).wf(),
            final(self)@ == recorded(old(self)@, value as nat),
    {
        let i: usize = bucket_index(value);
        proof {
            lemma_bucket_within(self@.buckets, i as int);
            lemma_below_update(self@.buckets, i as int, BUCKETS as int);
        }
        let n: u64 = self.buckets[i];
        assert(n == self@.buckets[i as int]);
        self.buckets[i] = n + 1;
        if self.count == 0 || value < self.min {
            self.min = value;
        }
        if self.count == 0 || value > self.max {
            self.max = value;
        }
        self.count = self.count + 1;
        self.sum = self.sum + value;
        assert(self@.buckets =~= recorded(old(self)@, value as nat).buckets);
    }

    /// The number of samples.
    pub fn count(&self) -> (n: u64)
        ensures
            n == self@.count,
    {
        self.count
    }

    /// The least sample.
    pub fn min(&self) -> (v: Option<u64>)
        ensures
            v is None <==> self@.count == 0,
            v matches Some(m) ==> m == self@.min,
    {
        if self.count == 0 {
            None
        } else {
            Some(self.min)
        }
    }

    /// The greatest sample.
    pub fn max(&self) -> (v: Option<u64>)
        ensures
            v is None <==> self@.count == 0,
            v matches Some(m) ==> m == self@.max,
    {
        if self.count == 0 {
            None
        } else {
            Some(self.max)
        }
    }

    /// The mean of the samples.
    pub fn mean(&self) -> (v: Option<Fraction>)
        ensures
            v is None <==> self@.count == 0,
            v matches Some(m) ==> m@ == mean_of(self@) && 0 < m.den
                <= 0x80_0000_0000_0000_0000_0000_0000_0000 && m.num
                <= 0x8_0000_0000_0000_0000_0000,
    {
        if self.count == 0 {
            None
        } else {
            let sum: u128 = round_whole(self.sum as u128);
            let count: u128 = round_whole(self.count as u128);
            Some(round_quotient(sum, count))
        }
    }

    /// The percentile `percent` of the samples, to within a sixteenth.
    pub fn quantile(&self, percent: u64) -> (v: Option<u64>)
        requires
            self.wf(),
            percent <= 100,
        ensures
            v is None <==> self@.count == 0,
            v matches Some(q) ==> q == percentile(self@, percent as nat),
    {
        if self.count == 0 {
            return None;
        }
        assert(self.count * percent <= u64::MAX * 100) by (nonlinear_arith)
            requires
                self.count <= u64::MAX,
                percent <= 100,
        ;
        let share: u128 = (self.count as u128 * percent as u128 + 99) / 100;
        let goal: u128 = if share == 0 {
            1
        } else {
            share
        };
        assert(goal == rank(self@.count, percent as nat));
        let mut left: u128 = goal;
        let mut i: usize = 0;
        while i + 1 < BUCKETS && left > self.buckets[i] as u128
            invariant
                i < BUCKETS,
                self.buckets@.len() == BUCKETS,
                bucket_of_rank(self@.buckets, goal as nat, 0) == bucket_of_rank(
                    self@.buckets,
                    left as nat,
                    i as int,
                ),
            decreases BUCKETS - i,
        {
            left = left - self.buckets[i] as u128;
            i = i + 1;
        }
        let low: u64 = low_end(i);
        Some(
            if low < self.min {
                self.min
            } else {
                low
            },
        )
    }
}

/// Computes [`bucket`].
fn bucket_index(value: u64) -> (i: usize)
    ensures
        i == bucket(value as nat),
        i < BUCKETS,
{
    proof {
        lemma2_to64_rest();
        lemma_bucket_bound(value as nat, 59);
    }
    let mut v: u64 = value;
    let mut i: usize = 0;
    while v >= 32
        invariant
            bucket(value as nat) == i + bucket(v as nat),
            bucket(value as nat) < BUCKETS,
        decreases v,
    {
        v = v / 2;
        i = i + 16;
    }
    i + v as usize
}

/// Computes [`bucket_low`].
fn low_end(i: usize) -> (low: u64)
    requires
        i < BUCKETS,
    ensures
        low == bucket_low(i as nat),
{
    let mut j: usize = i;
    let mut factor: u64 = 1;
    let ghost mut steps: nat = 0;
    proof {
        lemma2_to64();
        lemma2_to64_rest();
    }
    while j >= 32
        invariant
            i < BUCKETS,
            j + 16 * steps == i,
            steps > 0 ==> j >= 16,
            factor == pow2(steps),
            bucket_low(i as nat) == factor * bucket_low(j as nat),
            pow2(59) == 0x800000000000000,
        decreases j,
    {
        proof {
            let half = bucket_low((j - 16) as nat);
            assert(factor * (2 * half) == (2 * factor) * half) by (nonlinear_arith);
            lemma_pow2_unfold(steps + 1);
            if steps + 1 < 59 {
                lemma_pow2_strictly_increases(steps + 1, 59);
            }
            steps = steps + 1;
        }
        factor = 2 * factor;
        j = j - 16;
    }
    proof {
        if steps < 59 {
            lemma_pow2_strictly_increases(steps, 59);
        }
        assert(factor * j <= 0x800000000000000 * 31) by (nonlinear_arith)
            requires
                factor <= 0x800000000000000,
                j <= 31,
        ;
    }
    factor * j as u64
}

// ---------------------------------------------------------------------------------------------
// Buckets
// ---------------------------------------------------------------------------------------------

/// Values below 32 times a power of two need sixteen buckets for each doubling beyond the first
/// thirty-two.
proof fn lemma_bucket_bound(v: nat, k: nat)
    requires
        v < 32 * pow2(k),
    ensures
        bucket(v) < 32 + 16 * k,
    decreases k,
{
    if v >= 32 {
        lemma2_to64();
        lemma_pow2_unfold(k);
        lemma_bucket_bound(v / 2, (k - 1) as nat);
    }
}

/// A value lies in its bucket.
pub proof fn lemma_bucket(v: nat)
    ensures
        bucket_low(bucket(v)) <= v < bucket_low(bucket(v) + 1),
    decreases v,
{
    reveal_with_fuel(bucket_low, 2);
    if v >= 32 {
        lemma_bucket(v / 2);
        lemma_bucket_large(v / 2);
    }
}

proof fn lemma_bucket_large(v: nat)
    requires
        v >= 16,
    ensures
        bucket(v) >= 16,
    decreases v,
{
    if v >= 32 {
        lemma_bucket_large(v / 2);
    }
}

/// Buckets go up; each is one wide or no wider than a sixteenth of its lower end.
proof fn lemma_bucket_width(i: nat)
    ensures
        16 * (bucket_low(i + 1) - bucket_low(i)) <= bucket_low(i) || bucket_low(i + 1) == bucket_low(
            i,
        ) + 1,
        bucket_low(i) < bucket_low(i + 1),
        i >= 16 ==> bucket_low(i + 1) - bucket_low(i) <= bucket_low(i) / 16,
    decreases i,
{
    reveal_with_fuel(bucket_low, 2);
    if i >= 32 {
        lemma_bucket_width((i - 16) as nat);
    }
}

proof fn lemma_low_increases(i: nat, j: nat)
    requires
        i < j,
    ensures
        bucket_low(i) < bucket_low(j),
    decreases j,
{
    lemma_bucket_width((j - 1) as nat);
    if i < j - 1 {
        lemma_low_increases(i, (j - 1) as nat);
    }
}

/// A value is in a lower bucket exactly where it is below the lower end of the bucket.
proof fn lemma_bucket_order(v: nat, i: nat)
    ensures
        bucket(v) < i <==> v < bucket_low(i),
{
    lemma_bucket(v);
    if bucket(v) < i {
        if bucket(v) + 1 < i {
            lemma_low_increases(bucket(v) + 1, i);
        }
    } else if i < bucket(v) {
        lemma_low_increases(i, bucket(v));
    }
}

proof fn lemma_below_nothing(n: int)
    requires
        n <= BUCKETS,
    ensures
        below(nothing().buckets, n) == 0,
    decreases n,
{
    if n > 0 {
        lemma_below_nothing(n - 1);
    }
}

/// Before the first sample the counts belong together.
pub proof fn lemma_nothing()
    ensures
        consistent(nothing()),
{
    lemma_below_nothing(BUCKETS as int);
}

/// One more sample keeps the counts together.
pub proof fn lemma_recorded(h: HistModel, v: nat)
    requires
        consistent(h),
        v <= u64::MAX,
    ensures
        consistent(recorded(h, v)),
{
    lemma2_to64_rest();
    lemma_bucket_bound(v, 59);
    lemma_below_update(h.buckets, bucket(v) as int, BUCKETS as int);
}

proof fn lemma_bucket_within(buckets: Seq<nat>, i: int)
    requires
        0 <= i < buckets.len(),
    ensures
        buckets[i] <= below(buckets, buckets.len() as int),
{
    lemma_below_grows(buckets, i + 1, buckets.len() as int);
}

proof fn lemma_below_grows(buckets: Seq<nat>, i: int, n: int)
    requires
        i <= n,
    ensures
        below(buckets, i) <= below(buckets, n),
    decreases n - i,
{
    if i < n {
        lemma_below_grows(buckets, i, n - 1);
    }
}

proof fn lemma_below_update(buckets: Seq<nat>, i: int, n: int)
    requires
        0 <= i < buckets.len(),
        n <= buckets.len(),
    ensures
        below(buckets.update(i, buckets[i] + 1), n) == below(buckets, n) + (if i < n {
            1nat
        } else {
            0nat
        }),
    decreases n,
{
    if n > 0 {
        lemma_below_update(buckets, i, n - 1);
    }
}

// ---------------------------------------------------------------------------------------------
// Samples
// ---------------------------------------------------------------------------------------------

/// The number of samples below `bound`.
pub open spec fn samples_below(samples: Seq<nat>, bound: nat) -> nat
    decreases samples.len(),
{
    if samples.len() == 0 {
        0
    } else {
        samples_below(samples.drop_last(), bound) + (if samples.last() < bound {
            1nat
        } else {
            0nat
        })
    }
}

/// The sum of the samples.
pub open spec fn samples_sum(samples: Seq<nat>) -> nat
    decreases samples.len(),
{
    if samples.len() == 0 {
        0
    } else {
        samples_sum(samples.drop_last()) + samples.last()
    }
}

/// Whether every sample fits into 64 bits.
pub open spec fn all_fit(samples: Seq<nat>) -> bool {
    forall|i: int| 0 <= i < samples.len() ==> #[trigger] samples[i] <= u64::MAX
}

proof fn lemma_hist_of(samples: Seq<nat>, n: int)
    requires
        all_fit(samples),
        0 <= n <= BUCKETS,
    ensures
        consistent(hist_of(samples)),
        hist_of(samples).count == samples.len(),
        hist_of(samples).sum == samples_sum(samples),
        below(hist_of(samples).buckets, n) == samples_below(samples, bucket_low(n as nat)),
    decreases samples.len(),
{
    if samples.len() == 0 {
        lemma_below_nothing(n);
        lemma_below_nothing(BUCKETS as int);
    } else {
        let before = samples.drop_last();
        let v = samples.last();
        assert(all_fit(before));
        lemma_hist_of(before, n);
        let h = hist_of(before);
        lemma2_to64_rest();
        lemma_bucket_bound(v, 59);
        lemma_below_update(h.buckets, bucket(v) as int, n);
        lemma_below_update(h.buckets, bucket(v) as int, BUCKETS as int);
        lemma_bucket_order(v, n as nat);
    }
}

/// The count, the sum and the extremes of a histogram are those of its samples.
pub proof fn law_summary_is_exact(samples: Seq<nat>)
    requires
        all_fit(samples),
    ensures
        hist_of(samples).count == samples.len(),
        hist_of(samples).sum == samples_sum(samples),
        forall|i: int|
            0 <= i < samples.len() ==> hist_of(samples).min <= #[trigger] samples[i] <= hist_of(
                samples,
            ).max,
        samples.len() > 0 ==> samples.contains(hist_of(samples).min) && samples.contains(
            hist_of(samples).max,
        ),
    decreases samples.len(),
{
    lemma_hist_of(samples, 0);
    if samples.len() > 0 {
        let before = samples.drop_last();
        let h = hist_of(before);
        let after = hist_of(samples);
        assert(all_fit(before));
        law_summary_is_exact(before);
        assert forall|i: int| 0 <= i < samples.len() implies after.min <= #[trigger] samples[i]
            <= after.max by {
            if i < samples.len() - 1 {
                assert(samples[i] == before[i]);
            }
        }
        assert(samples[samples.len() - 1] == samples.last());
        if before.len() > 0 {
            let a = choose|a: int| 0 <= a < before.len() && before[a] == h.min;
            let b = choose|b: int| 0 <= b < before.len() && before[b] == h.max;
            assert(samples[a] == h.min);
            assert(samples[b] == h.max);
        }
    }
}

proof fn lemma_bucket_of_rank(buckets: Seq<nat>, r: nat, i: int)
    requires
        0 <= i < buckets.len(),
        1 <= r,
        r + below(buckets, i) <= below(buckets, buckets.len() as int),
    ensures
        i <= bucket_of_rank(buckets, r, i) < buckets.len(),
        below(buckets, bucket_of_rank(buckets, r, i)) < r + below(buckets, i),
        r + below(buckets, i) <= below(buckets, bucket_of_rank(buckets, r, i) + 1),
    decreases buckets.len() - i,
{
    if i + 1 < buckets.len() && r > buckets[i] {
        lemma_bucket_of_rank(buckets, (r - buckets[i]) as nat, i + 1);
    }
}

proof fn lemma_none_below_min(samples: Seq<nat>, bound: nat)
    requires
        forall|i: int| 0 <= i < samples.len() ==> bound <= #[trigger] samples[i],
    ensures
        samples_below(samples, bound) == 0,
    decreases samples.len(),
{
    if samples.len() > 0 {
        let before = samples.drop_last();
        assert forall|i: int| 0 <= i < before.len() implies bound <= #[trigger] before[i] by {
            assert(before[i] == samples[i]);
        }
        lemma_none_below_min(before, bound);
        assert(samples[samples.len() - 1] == samples.last());
    }
}

proof fn lemma_below_monotone(samples: Seq<nat>, a: nat, b: nat)
    requires
        a <= b,
    ensures
        samples_below(samples, a) <= samples_below(samples, b),
    decreases samples.len(),
{
    if samples.len() > 0 {
        lemma_below_monotone(samples.drop_last(), a, b);
    }
}

/// A percentile is off by at most a sixteenth: the sample of its rank is at least the percentile
/// given, and exceeds it by no more than a sixteenth of it.
pub proof fn law_percentile_is_close(samples: Seq<nat>, percent: nat)
    requires
        all_fit(samples),
        samples.len() > 0,
        percent <= 100,
    ensures
        ({
            let q = percentile(hist_of(samples), percent);
            let r = rank(samples.len(), percent);
            samples_below(samples, q) < r <= samples_below(samples, q + q / 16 + 1)
        }),
{
    let h = hist_of(samples);
    let r = rank(samples.len(), percent);
    lemma_hist_of(samples, 0);
    assert(samples.len() * percent <= samples.len() * 100) by (nonlinear_arith)
        requires
            percent <= 100,
    ;
    assert(1 <= r <= samples.len());
    lemma_bucket_of_rank(h.buckets, r, 0);
    let b = bucket_of_rank(h.buckets, r, 0);
    lemma_hist_of(samples, b);
    lemma_hist_of(samples, b + 1);
    lemma_bucket_width(b as nat);
    let low = bucket_low(b as nat);
    let q = percentile(h, percent);
    law_summary_is_exact(samples);
    if low < h.min {
        lemma_none_below_min(samples, h.min);
    }
    assert(bucket_low((b + 1) as nat) <= q + q / 16 + 1) by {
        if b < 16 {
            assert(bucket_low((b + 1) as nat) == b + 1);
        }
    }
    lemma_below_monotone(samples, bucket_low((b + 1) as nat), q + q / 16 + 1);
}

/// Of a percentile it holds that less than `percent` in a hundred samples are below it, and at
/// least as many are below the next number that is more than a sixteenth above it. The percentile
/// zero is below none of them.
pub proof fn law_percentile_splits_the_samples(samples: Seq<nat>, percent: nat)
    requires
        all_fit(samples),
        samples.len() > 0,
        percent <= 100,
    ensures
        ({
            let q = percentile(hist_of(samples), percent);
            &&& percent > 0 ==> 100 * samples_below(samples, q) < percent * samples.len()
            &&& percent == 0 ==> samples_below(samples, q) == 0
            &&& percent * samples.len() <= 100 * samples_below(samples, q + q / 16 + 1)
            &&& samples_below(samples, q + q / 16 + 1) > 0
        }),
{
    law_percentile_is_close(samples, percent);
    let n = samples.len();
    assert(n * percent == percent * n) by (nonlinear_arith);
    if percent > 0 {
        assert(percent * n > 0) by (nonlinear_arith)
            requires
                percent > 0,
                n > 0,
        ;
    } else {
        assert(percent * n == 0) by (nonlinear_arith)
            requires
                percent == 0,
        ;
    }
}

/// The mean is the sum of the samples over their number, to within one part in `2^53`.
pub proof fn law_mean_is_near(samples: Seq<nat>)
    requires
        all_fit(samples),
        samples.len() > 0,
        samples.len() < 0x20_0000_0000_0000,
        samples_sum(samples) < 0x20_0000_0000_0000,
    ensures
        ({
            let (a, b) = mean_of(hist_of(samples));
            &&& b > 0
            &&& 0x20_0000_0000_0000 * (a * samples.len()) <= 0x20_0000_0000_0001 * (samples_sum(
                samples,
            ) * b)
            &&& 0x1F_FFFF_FFFF_FFFF * (samples_sum(samples) * b) <= 0x20_0000_0000_0000 * (a
                * samples.len())
        }),
{
    law_summary_is_exact(samples);
    rounding::law_nearest_double(samples_sum(samples));
    rounding::law_nearest_double(samples.len());
    rounding::law_quotient_is_near(samples_sum(samples), samples.len());
}

/// The mean is what double precision gives for the sum of the samples over their number: both and
/// their quotient are each rounded to the nearest double.
pub proof fn law_mean_is_that_of_doubles(samples: Seq<nat>)
    requires
        all_fit(samples),
        samples.len() > 0,
    ensures
        mean_of(hist_of(samples)) == rounding::quotient(
            rounding::whole(samples_sum(samples)),
            rounding::whole(samples.len()),
        ),
{
    law_summary_is_exact(samples);
}

/// The marks from which percentiles are taken: every number below 32, and from then on sixteen
/// between each power of two and the next.
proof fn lemma_mark(i: nat) -> (j: nat)
    ensures
        bucket_low(i + 1) == bucket_low(i) + pow2(j),
        bucket_low(i) % pow2(j) == 0,
        (j == 0 && bucket_low(i) < 32) || 16 * pow2(j) <= bucket_low(i) < 32 * pow2(j),
    decreases i,
{
    lemma2_to64();
    if i < 32 {
        reveal_with_fuel(bucket_low, 3);
        assert(bucket_low(i) % 1 == 0);
        0
    } else {
        let k = lemma_mark((i - 16) as nat);
        lemma_mark_is_large((i - 16) as nat);
        lemma_pow2_unfold(k + 1);
        let low = bucket_low((i - 16) as nat);
        let u = pow2(k);
        lemma_pow2_pos(k);
        assert((2 * low) % (2 * u) == 0) by {
            vstd::arithmetic::div_mod::lemma_fundamental_div_mod(low as int, u as int);
            let q = low as int / u as int;
            assert(2 * low == (2 * u) * q) by (nonlinear_arith)
                requires
                    low == u * q,
            ;
            vstd::arithmetic::div_mod::lemma_mod_multiples_basic(q, 2 * u as int);
            assert((2 * u) * q == q * (2 * u)) by (nonlinear_arith);
        }
        k + 1
    }
}

proof fn lemma_mark_is_large(i: nat)
    requires
        i >= 16,
    ensures
        bucket_low(i) >= 16,
    decreases i,
{
    if i >= 32 {
        lemma_mark_is_large((i - 16) as nat);
    }
}

/// A percentile is the last mark that fewer samples than its rank are below, or the least sample
/// where that is more. Marks are one apart below 32, and a sixteenth of the power of two before
/// them apart from then on; the rank is the number of samples that make up so many percent, at
/// least one.
pub proof fn law_percentile_is_taken_from_a_mark(
    samples: Seq<nat>,
    percent: nat,
) -> (mark: (nat, nat))
    requires
        all_fit(samples),
        samples.len() > 0,
        percent <= 100,
    ensures
        ({
            let (low, j) = mark;
            let q = percentile(hist_of(samples), percent);
            let w = pow2(j);
            &&& low % w == 0
            &&& (j == 0 && low < 32) || 16 * w <= low < 32 * w
            &&& 100 * samples_below(samples, low) < percent * samples.len() || samples_below(
                samples,
                low,
            ) == 0
            &&& percent * samples.len() <= 100 * samples_below(samples, low + w)
            &&& samples_below(samples, low + w) > 0
            &&& q >= low
            &&& samples_below(samples, q) == 0 || q == low
            &&& q > low ==> samples.contains(q)
            &&& forall|i: int| 0 <= i < samples.len() ==> q <= #[trigger] samples[i] || q == low
        }),
{
    let h = hist_of(samples);
    let n = samples.len();
    let r = rank(n, percent);
    lemma_hist_of(samples, 0);
    assert(n * percent <= n * 100) by (nonlinear_arith)
        requires
            percent <= 100,
    ;
    assert(n * percent == percent * n) by (nonlinear_arith);
    assert(1 <= r <= n);
    lemma_bucket_of_rank(h.buckets, r, 0);
    let b = bucket_of_rank(h.buckets, r, 0);
    lemma_hist_of(samples, b);
    lemma_hist_of(samples, b + 1);
    let low = bucket_low(b as nat);
    let j = lemma_mark(b as nat);
    law_summary_is_exact(samples);
    if low < h.min {
        lemma_none_below_min(samples, h.min);
        lemma_none_below_min(samples, low);
    }
    (low, j)
}

/// A percentile is no less than the least sample, and no more than the greatest one.
pub proof fn law_percentile_is_within_the_samples(samples: Seq<nat>, percent: nat)
    requires
        all_fit(samples),
        samples.len() > 0,
        percent <= 100,
    ensures
        ({
            let q = percentile(hist_of(samples), percent);
            &&& exists|i: int| 0 <= i < samples.len() && #[trigger] samples[i] <= q
            &&& exists|i: int| 0 <= i < samples.len() && q <= #[trigger] samples[i]
        }),
{
    let h = hist_of(samples);
    let q = percentile(h, percent);
    law_summary_is_exact(samples);
    assert(samples.contains(h.min));
    let k = choose|k: int| 0 <= k < samples.len() && samples[k] == h.min;
    assert(samples[k] <= q);
    law_percentile_is_close(samples, percent);
    if forall|i: int| 0 <= i < samples.len() ==> #[trigger] samples[i] < q {
        lemma_all_below(samples, q);
        assert(samples.len() * percent <= samples.len() * 100) by (nonlinear_arith)
            requires
                percent <= 100,
        ;
    }
}

proof fn lemma_all_below(samples: Seq<nat>, bound: nat)
    requires
        forall|i: int| 0 <= i < samples.len() ==> #[trigger] samples[i] < bound,
    ensures
        samples_below(samples, bound) == samples.len(),
    decreases samples.len(),
{
    if samples.len() > 0 {
        let before = samples.drop_last();
        assert forall|i: int| 0 <= i < before.len() implies #[trigger] before[i] < bound by {
            assert(before[i] == samples[i]);
        }
        lemma_all_below(before, bound);
        assert(samples[samples.len() - 1] == samples.last());
    }
}

} // verus!
