//! Economic Monte Carlo simulator: uncertainty of a cash-flow series under
//! three independent zero-mean noise sources.
//!
//! The committed initial investment passes through unchanged.  Every later
//! period combines a production-volume noise sample with a price noise
//! sample when the base flow is revenue (positive) or a cost noise sample
//! when it is a cost (negative), then discounts the adjusted flow.  The
//! sign rule models that input-price risk and output-price risk are
//! economically distinct, while volume risk scales both.
//!
//! The engine consumes the noise grid as plain values, one row per
//! iteration: the host derives each row deterministically from the seed and
//! the iteration index, so identical inputs reproduce identical statistics
//! regardless of scheduling.  Only the aggregate statistics survive.

use vstd::prelude::*;

use rayon::iter::{IntoParallelRefIterator, ParallelIterator};

use crate::fixed::{
    mag, tdiv, ints_of, lemma_mag_mul_le, lemma_fmul_cap, fmul, div_t, fmul_e, EngineError,
    SCALE, LEN_LIMIT, FLOW_LIMIT, RATE_LIMIT,
};
use crate::npv::{
    df_at, npv_prefix, npv_of, valid_rate, valid_flows, lemma_df_bound,
};
use crate::stats::{
    SimulationStats, stats_describe, lemma_stats_unique, summarize, sum_prefix, mean_of,
    dev_sq_prefix, var_of, min_of, max_of, ITER_LIMIT, SAMPLE_LIMIT,
};

verus! {

/// Largest magnitude of one relative noise sample (one thousand units, far
/// past any plausible draw from a unit-scale normal distribution).
pub const NOISE_LIMIT: i128 = 1_000_000_000;

/// Bound on one adjusted, discounted period contribution.
pub const MC_TERM_LIMIT: i128 = 5_000_000_000_000_000_000_000_000_000_000;

/// The three relative noise samples of one period of one iteration.
#[derive(Clone, Copy, Debug, PartialEq, Eq, Structural)]
pub struct PeriodNoise {
    /// Production-volume noise, applied to every later-period flow.
    pub production: i128,
    /// Price noise, applied when the base flow is revenue.
    pub price: i128,
    /// Cost noise, applied when the base flow is a cost.
    pub cost: i128,
}

/// A zero draw of every source: the deterministic degenerate case.
pub open spec fn zero_noise() -> PeriodNoise {
    PeriodNoise { production: 0, price: 0, cost: 0 }
}

/// One flow adjusted by the sign rule: revenue takes price noise, a cost
/// takes cost noise, both take production noise.
pub open spec fn adjusted_flow(flow: int, noise: PeriodNoise) -> int {
    if flow > 0 {
        fmul(fmul(flow, SCALE as int + noise.price as int), SCALE as int + noise.production as int)
    } else {
        fmul(fmul(flow, SCALE as int + noise.cost as int), SCALE as int + noise.production as int)
    }
}

/// One discounted period contribution of an iteration; the period-zero
/// flow passes through unchanged.
pub open spec fn mc_term(flow: int, noise: PeriodNoise, t: nat, rate: int) -> int {
    if t == 0 {
        flow
    } else {
        let df = df_at(rate, t);
        if df == 0 {
            0
        } else {
            tdiv(adjusted_flow(flow, noise) * SCALE, df)
        }
    }
}

/// Sum of the first `n` period contributions of one iteration.
pub open spec fn sample_prefix(
    flows: Seq<int>,
    noise: Seq<PeriodNoise>,
    rate: int,
    n: nat,
) -> int
    decreases n,
{
    if n == 0 {
        0
    } else {
        sample_prefix(flows, noise, rate, (n - 1) as nat) + mc_term(
            flows[n - 1],
            noise[n - 1],
            (n - 1) as nat,
            rate,
        )
    }
}

/// The one valuation sample of an iteration with the given noise row.
pub open spec fn mc_sample(flows: Seq<int>, noise: Seq<PeriodNoise>, rate: int) -> int {
    sample_prefix(flows, noise, rate, flows.len())
}

/// Admissible noise row: one entry per period, each sample bounded.
pub open spec fn valid_noise(noise: Seq<PeriodNoise>) -> bool {
    forall|i: int|
        0 <= i < noise.len() ==> {
            &&& mag(#[trigger] noise[i].production as int) <= NOISE_LIMIT as int
            &&& mag(noise[i].price as int) <= NOISE_LIMIT as int
            &&& mag(noise[i].cost as int) <= NOISE_LIMIT as int
        }
}

/// The per-iteration samples of a whole noise grid, in iteration order.
pub open spec fn samples_of(flows: Seq<int>, grid: Seq<Seq<PeriodNoise>>, rate: int) -> Seq<int> {
    Seq::new(grid.len(), |i: int| mc_sample(flows, grid[i], rate))
}

/// With zero noise every adjustment is exact, so an iteration sample
/// equals the plain valuation: the simulator degenerates to the
/// deterministic discounted sum.
pub proof fn lemma_zero_noise_prefix(flows: Seq<int>, noise: Seq<PeriodNoise>, rate: int, n: nat)
    requires
        SCALE as int + rate != 0,
        n <= flows.len(),
        n <= noise.len(),
        forall|i: int| 0 <= i < noise.len() ==> #[trigger] noise[i] == zero_noise(),
    ensures
        sample_prefix(flows, noise, rate, n) == npv_prefix(flows, rate, n),
    decreases n,
{
    if n == 0 {
    } else {
        lemma_zero_noise_prefix(flows, noise, rate, (n - 1) as nat);
        let t = (n - 1) as nat;
        let flow = flows[n - 1];
        assert(noise[n - 1] == zero_noise());
        if t == 0 {
            assert(df_at(rate, 0) == SCALE as int);
            assert(tdiv(flow * SCALE, SCALE as int) == flow) by (nonlinear_arith)
                requires
                    SCALE == 1_000_000i128,
            ;
        } else {
            assert(fmul(flow, SCALE as int + 0) == flow) by (nonlinear_arith)
                requires
                    SCALE == 1_000_000i128,
            ;
            assert(adjusted_flow(flow, zero_noise()) == flow);
        }
    }
}

/// The degenerate-case law for a whole sample.
pub proof fn lemma_zero_noise_sample(flows: Seq<int>, noise: Seq<PeriodNoise>, rate: int)
    requires
        SCALE as int + rate != 0,
        noise.len() == flows.len(),
        forall|i: int| 0 <= i < noise.len() ==> #[trigger] noise[i] == zero_noise(),
    ensures
        mc_sample(flows, noise, rate) == npv_of(flows, rate),
{
    lemma_zero_noise_prefix(flows, noise, rate, flows.len());
}

/// A one-iteration run with zero noise is fully deterministic: any
/// aggregate that describes it carries the plain valuation as mean,
/// minimum and maximum, and a zero standard deviation.
pub proof fn lemma_deterministic_run(
    flows: Seq<int>,
    noise: Seq<PeriodNoise>,
    rate: int,
    st: SimulationStats,
)
    requires
        SCALE as int + rate != 0,
        noise.len() == flows.len(),
        forall|i: int| 0 <= i < noise.len() ==> #[trigger] noise[i] == zero_noise(),
        stats_describe(samples_of(flows, seq![noise], rate), st),
    ensures
        st.mean as int == npv_of(flows, rate),
        st.min as int == npv_of(flows, rate),
        st.max as int == npv_of(flows, rate),
        st.std_dev == 0,
{
    let v = npv_of(flows, rate);
    lemma_zero_noise_sample(flows, noise, rate);
    let s = samples_of(flows, seq![noise], rate);
    assert(s =~= seq![v]);
    assert(sum_prefix(s, 0nat) == 0);
    assert(sum_prefix(s, 1nat) == v);
    assert(mag(v) / 1 == mag(v)) by (nonlinear_arith);
    assert(tdiv(v, 1) == v);
    assert(mean_of(s) == v);
    assert(mag(0) / (SCALE as int) == 0) by (nonlinear_arith)
        requires
            SCALE == 1_000_000i128,
    ;
    assert(fmul(v - v, v - v) == 0);
    assert(s[0] == v);
    assert(dev_sq_prefix(s, v, 0nat) == 0);
    assert(dev_sq_prefix(s, v, 1nat) == dev_sq_prefix(s, v, 0nat) + fmul(s[0] - v, s[0] - v));
    assert(dev_sq_prefix(s, v, 1nat) == 0);
    assert(tdiv(0, 1) == 0);
    assert(var_of(s) == 0);
    assert(min_of(s) == v);
    assert(max_of(s) == v);
    assert(st.std_dev == 0) by (nonlinear_arith)
        requires
            0 <= st.std_dev,
            (st.std_dev as int) * (st.std_dev as int) <= 0,
    ;
}

/// The simulation is reproducible: any two aggregates that describe the
/// same flows, noise grid and rate coincide, bit for bit.
pub proof fn lemma_simulation_reproducible(
    flows: Seq<int>,
    grid: Seq<Seq<PeriodNoise>>,
    rate: int,
    a: SimulationStats,
    b: SimulationStats,
)
    requires
        stats_describe(samples_of(flows, grid, rate), a),
        stats_describe(samples_of(flows, grid, rate), b),
    ensures
        a == b,
{
    lemma_stats_unique(samples_of(flows, grid, rate), a, b);
}

/// Compute the valuation sample of one iteration from its noise row.
pub fn simulate_iteration(flows: &Vec<i128>, noise: &Vec<PeriodNoise>, rate: i128) -> (s: i128)
    requires
        valid_flows(ints_of(flows@), FLOW_LIMIT as int),
        noise@.len() == flows@.len(),
        valid_noise(noise@),
        valid_rate(rate as int),
    ensures
        s as int == mc_sample(ints_of(flows@), noise@, rate as int),
        mag(s as int) <= flows@.len() * MC_TERM_LIMIT as int,
{
    let ghost gflows = ints_of(flows@);
    let n = flows.len();
    let mut acc: i128 = 0;
    let mut df: i128 = SCALE;
    let mut t: usize = 0;
    while t < n
        invariant
            n == flows@.len(),
            gflows == ints_of(flows@),
            valid_flows(gflows, FLOW_LIMIT as int),
            noise@.len() == n,
            valid_noise(noise@),
            valid_rate(rate as int),
            0 <= t <= n,
            df as int == df_at(rate as int, t as nat),
            acc as int == sample_prefix(gflows, noise@, rate as int, t as nat),
            mag(acc as int) <= t * MC_TERM_LIMIT as int,
        decreases n - t,
    {
        proof {
            assert(gflows[t as int] == flows@[t as int] as int);
            lemma_df_bound(rate as int, t as nat);
            assert((t + 1) * MC_TERM_LIMIT as int == t * MC_TERM_LIMIT as int
                + MC_TERM_LIMIT as int) by (nonlinear_arith);
            assert(t as int * MC_TERM_LIMIT as int <= LEN_LIMIT as int * MC_TERM_LIMIT as int)
                by (nonlinear_arith)
                requires
                    0 <= t as int <= LEN_LIMIT as int,
            ;
        }
        let flow = flows[t];
        let nz = noise[t];
        let term: i128 = if t == 0 {
            flow
        } else {
            let direct: i128 = if flow > 0 {
                nz.price
            } else {
                nz.cost
            };
            proof {
                assert(mag(noise@[t as int].production as int) <= NOISE_LIMIT as int);
                lemma_mag_mul_le(flow as int, SCALE as int + direct as int, FLOW_LIMIT as int,
                    2_000_000_000int);
                lemma_fmul_cap(flow as int, SCALE as int + direct as int, FLOW_LIMIT as int,
                    2_000_000_000int, 2_000_000_000_000_000_000_000int);
            }
            let first = fmul_e(flow, SCALE + direct);
            proof {
                lemma_mag_mul_le(first as int, SCALE as int + nz.production as int,
                    2_000_000_000_000_000_000_000int, 2_000_000_000int);
                lemma_fmul_cap(first as int, SCALE as int + nz.production as int,
                    2_000_000_000_000_000_000_000int, 2_000_000_000int,
                    4_000_000_000_000_000_000_000_000int);
            }
            let adjusted = fmul_e(first, SCALE + nz.production);
            proof {
                assert(adjusted as int == adjusted_flow(gflows[t as int], noise@[t as int]));
                lemma_mag_mul_le(adjusted as int, SCALE as int,
                    4_000_000_000_000_000_000_000_000int, SCALE as int);
            }
            if df == 0 {
                0
            } else {
                div_t(adjusted * SCALE, df)
            }
        };
        acc = acc + term;
        let dfm: i128 = if df < 0 {
            -df
        } else {
            df
        };
        if dfm < crate::fixed::DF_FREEZE {
            proof {
                lemma_mag_mul_le(df as int, SCALE as int + rate as int,
                    crate::fixed::DF_FREEZE as int, SCALE as int + RATE_LIMIT as int);
            }
            let f = fmul_e(df, SCALE + rate);
            df = if f > crate::fixed::DF_FREEZE {
                crate::fixed::DF_FREEZE
            } else if f < -crate::fixed::DF_FREEZE {
                -crate::fixed::DF_FREEZE
            } else {
                f
            };
        }
        t = t + 1;
    }
    proof {
        assert(flows@.len() * MC_TERM_LIMIT as int == n * MC_TERM_LIMIT as int);
    }
    acc
}

/// Relies on rayon's `par_iter`, `map` and `collect` into a `Vec`: an
/// indexed parallel map keeps item order, so slot `k` holds the sample of
/// iteration `k`, each computed by the verified `simulate_iteration`.
#[verifier::external_body]
fn par_map_samples(
    flows: &Vec<i128>,
    noise_grid: &Vec<Vec<PeriodNoise>>,
    discount_rate: i128,
) -> (r: Vec<i128>)
    requires
        valid_flows(ints_of(flows@), FLOW_LIMIT as int),
        forall|i: int|
            0 <= i < noise_grid@.len() ==> {
                &&& (#[trigger] noise_grid@[i])@.len() == flows@.len()
                &&& valid_noise(noise_grid@[i]@)
            },
        valid_rate(discount_rate as int),
    ensures
        r@.len() == noise_grid@.len(),
        forall|k: int|
            0 <= k < noise_grid@.len() ==> #[trigger] r@[k] as int == mc_sample(ints_of(flows@),
                noise_grid@[k]@, discount_rate as int),
        forall|k: int|
            0 <= k < noise_grid@.len() ==> mag(#[trigger] r@[k] as int) <= flows@.len()
                * MC_TERM_LIMIT as int,
{
    noise_grid.par_iter().map(|row: &Vec<PeriodNoise>|
        simulate_iteration(flows, row, discount_rate)).collect()
}

/// Run the economic Monte Carlo simulation over a caller-derived noise
/// grid and reduce the samples to aggregate statistics.
///
/// An empty series or an empty grid is `InvalidInput`.  A sample whose
/// magnitude leaves the statistics range is `RangeExceeded`, and the
/// contract says exactly when that happens.  Otherwise the aggregate
/// describes the modeled samples: exact mean, minimum and maximum, and the
/// integer square root of the scaled population variance.
pub fn run_economic_monte_carlo(
    flows: &Vec<i128>,
    noise_grid: &Vec<Vec<PeriodNoise>>,
    discount_rate: i128,
) -> (r: Result<SimulationStats, EngineError>)
    requires
        valid_flows(ints_of(flows@), FLOW_LIMIT as int),
        noise_grid@.len() <= ITER_LIMIT,
        forall|i: int|
            0 <= i < noise_grid@.len() ==> {
                &&& (#[trigger] noise_grid@[i])@.len() == flows@.len()
                &&& valid_noise(noise_grid@[i]@)
            },
        valid_rate(discount_rate as int),
    ensures
        r is Err <==> (flows@.len() == 0 || noise_grid@.len() == 0 || exists|i: int|
            0 <= i < noise_grid@.len() && mag(
                #[trigger] mc_sample(ints_of(flows@), noise_grid@[i]@, discount_rate as int),
            ) > SAMPLE_LIMIT as int),
        r matches Err(e) ==> (e == EngineError::InvalidInput <==> (flows@.len() == 0
            || noise_grid@.len() == 0)),
        r matches Err(e) ==> (e == EngineError::InvalidInput || e == EngineError::RangeExceeded),
        r matches Ok(st) ==> stats_describe(
            samples_of(ints_of(flows@), Seq::new(noise_grid@.len(), |i: int| noise_grid@[i]@),
                discount_rate as int),
            st,
        ),
{
    let ghost gflows = ints_of(flows@);
    let ghost grid = Seq::new(noise_grid@.len(), |i: int| noise_grid@[i]@);
    if flows.len() == 0 || noise_grid.len() == 0 {
        return Err(EngineError::InvalidInput);
    }
    let iterations = noise_grid.len();
    let samples = par_map_samples(flows, noise_grid, discount_rate);
    let mut i: usize = 0;
    while i < iterations
        invariant
            iterations == noise_grid@.len(),
            gflows == ints_of(flows@),
            samples@.len() == iterations,
            1 <= iterations <= ITER_LIMIT,
            forall|k: int|
                0 <= k < iterations ==> #[trigger] samples@[k] as int == mc_sample(gflows,
                    noise_grid@[k]@, discount_rate as int),
            forall|k: int|
                0 <= k < iterations ==> mag(#[trigger] samples@[k] as int) <= flows@.len()
                    * MC_TERM_LIMIT as int,
            flows@.len() * MC_TERM_LIMIT as int <= LEN_LIMIT as int * MC_TERM_LIMIT as int,
            0 <= i <= iterations,
            forall|k: int|
                0 <= k < i ==> mag(#[trigger] samples@[k] as int) <= SAMPLE_LIMIT as int,
        decreases iterations - i,
    {
        let sample = samples[i];
        let sm: i128 = if sample < 0 {
            -sample
        } else {
            sample
        };
        if sm > SAMPLE_LIMIT {
            proof {
                assert(mag(mc_sample(gflows, noise_grid@[i as int]@, discount_rate as int))
                    > SAMPLE_LIMIT as int);
            }
            return Err(EngineError::RangeExceeded);
        }
        i = i + 1;
    }
    let st = summarize(&samples);
    proof {
        assert(ints_of(samples@) =~= samples_of(gflows, grid, discount_rate as int));
        assert forall|k: int|
            0 <= k < noise_grid@.len() implies mag(#[trigger] mc_sample(gflows, noise_grid@[k]@,
                discount_rate as int)) <= SAMPLE_LIMIT as int by {
            assert(samples@[k] as int == mc_sample(gflows, noise_grid@[k]@, discount_rate as int));
            assert(mag(samples@[k] as int) <= SAMPLE_LIMIT as int);
        }
    }
    Ok(st)
}

} // verus!
