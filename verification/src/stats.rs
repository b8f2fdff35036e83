//! Summary statistics of a population of simulation samples.
//!
//! A simulation run keeps none of its per-iteration samples: only the
//! arithmetic mean, the population standard deviation (normalized by the
//! sample count, not by count minus one), the minimum and the maximum
//! survive.  Sums of exact integers are associative and commutative, so the
//! reduction is independent of any execution order by construction.

use vstd::prelude::*;

use crate::fixed::{
    mag, tdiv, fmul, ints_of, lemma_tdiv_shrinks, lemma_tdiv_bound, lemma_mag_mul_le,
    lemma_fmul_cap, div_t, fmul_e, isqrt, SCALE,
};

verus! {

/// Largest number of simulation iterations the engine accepts.
pub const ITER_LIMIT: usize = 1_000_000;

/// Largest magnitude of a per-iteration sample the statistics accept.
pub const SAMPLE_LIMIT: i128 = 1_000_000_000_000_000_000;

/// Bound on one squared deviation: `(2 * SAMPLE_LIMIT)^2 / SCALE`.
pub const DEV_SQ_LIMIT: i128 = 4_000_000_000_000_000_000_000_000_000_000;

/// Aggregate outcome of a simulation run.
#[derive(Clone, Copy, Debug, PartialEq, Eq, Structural)]
pub struct SimulationStats {
    pub mean: i128,
    pub std_dev: i128,
    pub min: i128,
    pub max: i128,
}

/// Sum of the first `n` samples.
pub open spec fn sum_prefix(s: Seq<int>, n: nat) -> int
    decreases n,
{
    if n == 0 {
        0
    } else {
        sum_prefix(s, (n - 1) as nat) + s[n - 1]
    }
}

/// Arithmetic mean, truncated toward zero.
pub open spec fn mean_of(s: Seq<int>) -> int {
    tdiv(sum_prefix(s, s.len()), s.len() as int)
}

/// Sum of the first `n` squared deviations from `m`.
pub open spec fn dev_sq_prefix(s: Seq<int>, m: int, n: nat) -> int
    decreases n,
{
    if n == 0 {
        0
    } else {
        dev_sq_prefix(s, m, (n - 1) as nat) + fmul(s[n - 1] - m, s[n - 1] - m)
    }
}

/// Population variance: mean of the squared deviations from the mean.
pub open spec fn var_of(s: Seq<int>) -> int {
    tdiv(dev_sq_prefix(s, mean_of(s), s.len()), s.len() as int)
}

/// Smallest of the first `n` samples.
pub open spec fn min_prefix(s: Seq<int>, n: nat) -> int
    decreases n,
{
    if n <= 1 {
        s[0]
    } else {
        let p = min_prefix(s, (n - 1) as nat);
        if s[n - 1] < p {
            s[n - 1]
        } else {
            p
        }
    }
}

/// Largest of the first `n` samples.
pub open spec fn max_prefix(s: Seq<int>, n: nat) -> int
    decreases n,
{
    if n <= 1 {
        s[0]
    } else {
        let p = max_prefix(s, (n - 1) as nat);
        if s[n - 1] > p {
            s[n - 1]
        } else {
            p
        }
    }
}

/// Smallest sample of a nonempty population.
pub open spec fn min_of(s: Seq<int>) -> int {
    min_prefix(s, s.len())
}

/// Largest sample of a nonempty population.
pub open spec fn max_of(s: Seq<int>) -> int {
    max_prefix(s, s.len())
}

/// The stated relation between a population and its aggregate: mean, min
/// and max are exact, and the standard deviation is the integer square
/// root of the scaled population variance.
pub open spec fn stats_describe(s: Seq<int>, st: SimulationStats) -> bool {
    &&& st.mean as int == mean_of(s)
    &&& st.min as int == min_of(s)
    &&& st.max as int == max_of(s)
    &&& 0 <= st.std_dev
    &&& (st.std_dev as int) * (st.std_dev as int) <= var_of(s) * SCALE as int
    &&& (st.std_dev as int + 1) * (st.std_dev as int + 1) > var_of(s) * SCALE as int
}

/// A bounded population has a bounded prefix sum.
pub proof fn lemma_sum_prefix_bound(s: Seq<int>, n: nat, limit: int)
    requires
        0 <= limit,
        n <= s.len(),
        forall|i: int| 0 <= i < s.len() ==> mag(#[trigger] s[i]) <= limit,
    ensures
        mag(sum_prefix(s, n)) <= n * limit,
    decreases n,
{
    if n == 0 {
    } else {
        lemma_sum_prefix_bound(s, (n - 1) as nat, limit);
        assert((n - 1) * limit + limit == n * limit) by (nonlinear_arith);
    }
}

/// The mean of a bounded population is bounded the same way.
pub proof fn lemma_mean_bound(s: Seq<int>, limit: int)
    requires
        0 <= limit,
        1 <= s.len(),
        forall|i: int| 0 <= i < s.len() ==> mag(#[trigger] s[i]) <= limit,
    ensures
        mag(mean_of(s)) <= limit,
{
    lemma_sum_prefix_bound(s, s.len(), limit);
    assert(mag(sum_prefix(s, s.len())) <= limit * mag(s.len() as int)) by (nonlinear_arith)
        requires
            mag(sum_prefix(s, s.len())) <= s.len() * limit,
            mag(s.len() as int) == s.len() as int,
            1 <= s.len(),
    ;
    lemma_tdiv_bound(sum_prefix(s, s.len()), s.len() as int, limit);
}

/// Squared deviations are nonnegative and bounded once samples and mean
/// are bounded.
pub proof fn lemma_dev_sq_prefix_bounds(s: Seq<int>, m: int, n: nat, limit: int)
    requires
        0 <= limit,
        mag(m) <= limit,
        n <= s.len(),
        limit <= SAMPLE_LIMIT as int,
        forall|i: int| 0 <= i < s.len() ==> mag(#[trigger] s[i]) <= limit,
    ensures
        0 <= dev_sq_prefix(s, m, n),
        dev_sq_prefix(s, m, n) <= n * DEV_SQ_LIMIT as int,
    decreases n,
{
    if n == 0 {
    } else {
        lemma_dev_sq_prefix_bounds(s, m, (n - 1) as nat, limit);
        let d = s[n - 1] - m;
        assert(mag(d) <= 2 * SAMPLE_LIMIT as int);
        lemma_mag_mul_le(d, d, 2 * SAMPLE_LIMIT as int, 2 * SAMPLE_LIMIT as int);
        lemma_fmul_cap(d, d, 2 * SAMPLE_LIMIT as int, 2 * SAMPLE_LIMIT as int,
            DEV_SQ_LIMIT as int);
        assert(0 <= d * d) by (nonlinear_arith);
        assert(0 <= fmul(d, d)) by {
            lemma_tdiv_shrinks(d * d, SCALE as int);
            assert(tdiv(d * d, SCALE as int) == mag(d * d) / (SCALE as int));
            assert(0 <= mag(d * d) / (SCALE as int)) by (nonlinear_arith)
                requires
                    0 <= mag(d * d),
            ;
        }
        assert((n - 1) * DEV_SQ_LIMIT as int + DEV_SQ_LIMIT as int == n * DEV_SQ_LIMIT as int)
            by (nonlinear_arith);
    }
}

/// The variance of a bounded population is nonnegative and bounded by one
/// squared deviation.
pub proof fn lemma_var_bounds(s: Seq<int>, limit: int)
    requires
        0 <= limit,
        1 <= s.len(),
        limit <= SAMPLE_LIMIT as int,
        forall|i: int| 0 <= i < s.len() ==> mag(#[trigger] s[i]) <= limit,
    ensures
        0 <= var_of(s),
        var_of(s) <= DEV_SQ_LIMIT as int,
{
    lemma_mean_bound(s, limit);
    lemma_dev_sq_prefix_bounds(s, mean_of(s), s.len(), limit);
    let total = dev_sq_prefix(s, mean_of(s), s.len());
    assert(mag(total) <= DEV_SQ_LIMIT as int * mag(s.len() as int)) by (nonlinear_arith)
        requires
            0 <= total <= s.len() * DEV_SQ_LIMIT as int,
            mag(total) == total,
            mag(s.len() as int) == s.len() as int,
            1 <= s.len(),
    ;
    lemma_tdiv_bound(total, s.len() as int, DEV_SQ_LIMIT as int);
    assert(var_of(s) == mag(total) / mag(s.len() as int));
    assert(0 <= mag(total) / mag(s.len() as int)) by (nonlinear_arith)
        requires
            0 <= mag(total),
            1 <= mag(s.len() as int),
    ;
}

/// The integer square root characterization has a unique solution, so any
/// two aggregates of the same population coincide.
pub proof fn lemma_stats_unique(s: Seq<int>, a: SimulationStats, b: SimulationStats)
    requires
        stats_describe(s, a),
        stats_describe(s, b),
    ensures
        a == b,
{
    assert(a.std_dev == b.std_dev) by (nonlinear_arith)
        requires
            0 <= a.std_dev,
            0 <= b.std_dev,
            (a.std_dev as int) * (a.std_dev as int) <= var_of(s) * SCALE as int,
            (a.std_dev as int + 1) * (a.std_dev as int + 1) > var_of(s) * SCALE as int,
            (b.std_dev as int) * (b.std_dev as int) <= var_of(s) * SCALE as int,
            (b.std_dev as int + 1) * (b.std_dev as int + 1) > var_of(s) * SCALE as int,
    ;
}

/// Reduce a nonempty population of samples to its aggregate statistics.
pub fn summarize(samples: &Vec<i128>) -> (st: SimulationStats)
    requires
        1 <= samples@.len() <= ITER_LIMIT,
        forall|i: int|
            0 <= i < samples@.len() ==> mag(#[trigger] samples@[i] as int) <= SAMPLE_LIMIT as int,
    ensures
        stats_describe(ints_of(samples@), st),
        var_of(ints_of(samples@)) == 0 ==> st.std_dev == 0,
{
    let ghost s = ints_of(samples@);
    proof {
        assert(forall|i: int| 0 <= i < s.len() ==> mag(#[trigger] s[i]) <= SAMPLE_LIMIT as int);
    }
    let n = samples.len();
    let mut sum: i128 = 0;
    let mut i: usize = 0;
    while i < n
        invariant
            n == samples@.len(),
            s == ints_of(samples@),
            1 <= n <= ITER_LIMIT,
            forall|k: int| 0 <= k < s.len() ==> mag(#[trigger] s[k]) <= SAMPLE_LIMIT as int,
            0 <= i <= n,
            sum as int == sum_prefix(s, i as nat),
            mag(sum as int) <= i * SAMPLE_LIMIT as int,
        decreases n - i,
    {
        proof {
            assert(s[i as int] == samples@[i as int] as int);
            assert((i + 1) * SAMPLE_LIMIT as int == i * SAMPLE_LIMIT as int + SAMPLE_LIMIT as int)
                by (nonlinear_arith);
            assert(i as int * SAMPLE_LIMIT as int <= ITER_LIMIT as int * SAMPLE_LIMIT as int)
                by (nonlinear_arith)
                requires
                    0 <= i as int <= ITER_LIMIT as int,
            ;
        }
        sum = sum + samples[i];
        i = i + 1;
    }
    proof {
        lemma_sum_prefix_bound(s, s.len(), SAMPLE_LIMIT as int);
        assert(mag(sum_prefix(s, s.len())) <= SAMPLE_LIMIT as int * mag(n as int))
            by (nonlinear_arith)
            requires
                mag(sum_prefix(s, s.len())) <= s.len() * SAMPLE_LIMIT as int,
                s.len() == n as int,
                mag(n as int) == n as int,
                1 <= n,
        ;
        lemma_tdiv_bound(sum_prefix(s, s.len()), n as int, SAMPLE_LIMIT as int);
    }
    let mean = div_t(sum, n as i128);
    let ghost m = mean_of(s);
    proof {
        assert(mean as int == m);
        lemma_mean_bound(s, SAMPLE_LIMIT as int);
    }
    let mut dev_sum: i128 = 0;
    i = 0;
    while i < n
        invariant
            n == samples@.len(),
            s == ints_of(samples@),
            1 <= n <= ITER_LIMIT,
            forall|k: int| 0 <= k < s.len() ==> mag(#[trigger] s[k]) <= SAMPLE_LIMIT as int,
            mean as int == m,
            m == mean_of(s),
            mag(m) <= SAMPLE_LIMIT as int,
            0 <= i <= n,
            dev_sum as int == dev_sq_prefix(s, m, i as nat),
            0 <= dev_sum as int <= i * DEV_SQ_LIMIT as int,
        decreases n - i,
    {
        proof {
            assert(s[i as int] == samples@[i as int] as int);
            lemma_dev_sq_prefix_bounds(s, m, (i + 1) as nat, SAMPLE_LIMIT as int);
            let d = s[i as int] - m;
            lemma_mag_mul_le(d, d, 2 * SAMPLE_LIMIT as int, 2 * SAMPLE_LIMIT as int);
            lemma_fmul_cap(d, d, 2 * SAMPLE_LIMIT as int, 2 * SAMPLE_LIMIT as int,
                DEV_SQ_LIMIT as int);
            assert((i + 1) * DEV_SQ_LIMIT as int == i * DEV_SQ_LIMIT as int + DEV_SQ_LIMIT as int)
                by (nonlinear_arith);
            assert(i as int * DEV_SQ_LIMIT as int <= ITER_LIMIT as int * DEV_SQ_LIMIT as int)
                by (nonlinear_arith)
                requires
                    0 <= i as int <= ITER_LIMIT as int,
            ;
        }
        let dev = samples[i] - mean;
        let sq = fmul_e(dev, dev);
        proof {
            let d = s[i as int] - m;
            assert(sq as int == fmul(d, d));
            assert(dev_sum as int + sq as int == dev_sq_prefix(s, m, (i + 1) as nat));
            assert(0 <= dev_sq_prefix(s, m, (i + 1) as nat)) by {
                lemma_dev_sq_prefix_bounds(s, m, (i + 1) as nat, SAMPLE_LIMIT as int);
            }
        }
        dev_sum = dev_sum + sq;
        i = i + 1;
    }
    proof {
        lemma_var_bounds(s, SAMPLE_LIMIT as int);
        assert(mag(dev_sum as int) <= DEV_SQ_LIMIT as int * mag(n as int)) by (nonlinear_arith)
            requires
                0 <= dev_sum as int <= n as int * DEV_SQ_LIMIT as int,
                mag(dev_sum as int) == dev_sum as int,
                mag(n as int) == n as int,
                1 <= n,
        ;
        lemma_tdiv_bound(dev_sum as int, n as int, DEV_SQ_LIMIT as int);
    }
    let variance = div_t(dev_sum, n as i128);
    proof {
        assert(variance as int == var_of(s));
        assert(0 <= variance as int);
    }
    let std_dev = isqrt(variance * SCALE);
    proof {
        if var_of(s) == 0 {
            assert(std_dev as int * std_dev as int <= 0);
            assert(std_dev == 0) by (nonlinear_arith)
                requires
                    0 <= std_dev,
                    std_dev as int * std_dev as int <= 0,
            ;
        }
    }
    let mut min_val: i128 = samples[0];
    let mut max_val: i128 = samples[0];
    i = 1;
    while i < n
        invariant
            n == samples@.len(),
            s == ints_of(samples@),
            1 <= n,
            1 <= i <= n,
            min_val as int == min_prefix(s, i as nat),
            max_val as int == max_prefix(s, i as nat),
        decreases n - i,
    {
        proof {
            assert(s[i as int] == samples@[i as int] as int);
        }
        let x = samples[i];
        if x < min_val {
            min_val = x;
        }
        if x > max_val {
            max_val = x;
        }
        i = i + 1;
    }
    SimulationStats { mean, std_dev, min: min_val, max: max_val }
}

} // verus!
