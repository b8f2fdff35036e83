//! Generic Monte Carlo simulator: one shared relative variation per value
//! per iteration, no discounting.
//!
//! Each iteration scales every base value by one plus its variation sample
//! and sums the results; the population of iteration sums is reduced to
//! the same aggregate statistics as the economic simulator.  The host
//! derives the variation grid; the engine is a pure function of it.

use vstd::prelude::*;

use rayon::iter::{IntoParallelRefIterator, ParallelIterator};

use crate::fixed::{
    mag, ints_of, lemma_mag_mul_le, lemma_fmul_cap, fmul, fmul_e, EngineError, SCALE, LEN_LIMIT,
    FLOW_LIMIT,
};
use crate::npv::valid_flows;
use crate::monte_carlo::NOISE_LIMIT;
use crate::stats::{SimulationStats, stats_describe, summarize, ITER_LIMIT, SAMPLE_LIMIT};

verus! {

/// Bound on one varied value: `FLOW_LIMIT * 2e9 / SCALE`.
pub const SIMPLE_TERM_LIMIT: i128 = 2_000_000_000_000_000_000_000;

/// Sum of the first `n` varied values of one iteration.
pub open spec fn varied_prefix(values: Seq<int>, vars: Seq<int>, n: nat) -> int
    decreases n,
{
    if n == 0 {
        0
    } else {
        varied_prefix(values, vars, (n - 1) as nat) + fmul(values[n - 1], SCALE as int + vars[n
            - 1])
    }
}

/// The iteration sum of one variation row.
pub open spec fn varied_sample(values: Seq<int>, vars: Seq<int>) -> int {
    varied_prefix(values, vars, values.len())
}

/// Admissible variation row: bounded relative samples.
pub open spec fn valid_variations(vars: Seq<int>) -> bool {
    forall|i: int| 0 <= i < vars.len() ==> mag(#[trigger] vars[i]) <= NOISE_LIMIT as int
}

/// The per-iteration sums of a whole variation grid, in iteration order.
pub open spec fn varied_samples_of(values: Seq<int>, grid: Seq<Seq<int>>) -> Seq<int> {
    Seq::new(grid.len(), |i: int| varied_sample(values, grid[i]))
}

/// Compute the sum of one iteration from its variation row.
pub fn simulate_varied_iteration(values: &Vec<i128>, vars: &Vec<i128>) -> (s: i128)
    requires
        valid_flows(ints_of(values@), FLOW_LIMIT as int),
        vars@.len() == values@.len(),
        valid_variations(ints_of(vars@)),
    ensures
        s as int == varied_sample(ints_of(values@), ints_of(vars@)),
        mag(s as int) <= values@.len() * SIMPLE_TERM_LIMIT as int,
{
    let ghost gvalues = ints_of(values@);
    let ghost gvars = ints_of(vars@);
    let n = values.len();
    let mut acc: i128 = 0;
    let mut i: usize = 0;
    while i < n
        invariant
            n == values@.len(),
            gvalues == ints_of(values@),
            gvars == ints_of(vars@),
            valid_flows(gvalues, FLOW_LIMIT as int),
            gvars.len() == n,
            valid_variations(gvars),
            0 <= i <= n,
            acc as int == varied_prefix(gvalues, gvars, i as nat),
            mag(acc as int) <= i * SIMPLE_TERM_LIMIT as int,
        decreases n - i,
    {
        proof {
            assert(gvalues[i as int] == values@[i as int] as int);
            assert(gvars[i as int] == vars@[i as int] as int);
            assert(mag(gvars[i as int]) <= NOISE_LIMIT as int);
            lemma_mag_mul_le(gvalues[i as int], SCALE as int + gvars[i as int],
                FLOW_LIMIT as int, 2_000_000_000int);
            lemma_fmul_cap(gvalues[i as int], SCALE as int + gvars[i as int], FLOW_LIMIT as int,
                2_000_000_000int, SIMPLE_TERM_LIMIT as int);
            assert((i + 1) * SIMPLE_TERM_LIMIT as int == i * SIMPLE_TERM_LIMIT as int
                + SIMPLE_TERM_LIMIT as int) by (nonlinear_arith);
            assert(i as int * SIMPLE_TERM_LIMIT as int
                <= LEN_LIMIT as int * SIMPLE_TERM_LIMIT as int) by (nonlinear_arith)
                requires
                    0 <= i as int <= LEN_LIMIT as int,
            ;
        }
        let varied = fmul_e(values[i], SCALE + vars[i]);
        acc = acc + varied;
        i = i + 1;
    }
    acc
}

/// Relies on rayon's `par_iter`, `map` and `collect` into a `Vec`: an
/// indexed parallel map keeps item order, so slot `k` holds the sum of
/// iteration `k`, each computed by the verified `simulate_varied_iteration`.
#[verifier::external_body]
fn par_map_varied_samples(values: &Vec<i128>, variation_grid: &Vec<Vec<i128>>) -> (r: Vec<i128>)
    requires
        valid_flows(ints_of(values@), FLOW_LIMIT as int),
        forall|i: int|
            0 <= i < variation_grid@.len() ==> {
                &&& (#[trigger] variation_grid@[i])@.len() == values@.len()
                &&& valid_variations(ints_of(variation_grid@[i]@))
            },
    ensures
        r@.len() == variation_grid@.len(),
        forall|k: int|
            0 <= k < variation_grid@.len() ==> #[trigger] r@[k] as int == varied_sample(
                ints_of(values@), ints_of(variation_grid@[k]@)),
        forall|k: int|
            0 <= k < variation_grid@.len() ==> mag(#[trigger] r@[k] as int) <= values@.len()
                * SIMPLE_TERM_LIMIT as int,
{
    variation_grid.par_iter().map(|row: &Vec<i128>|
        simulate_varied_iteration(values, row)).collect()
}

/// Run the generic Monte Carlo simulation over a caller-derived variation
/// grid and reduce the iteration sums to aggregate statistics.
///
/// An empty grid is `InvalidInput`; an iteration sum outside the
/// statistics range is `RangeExceeded`, exactly when the modeled sum is.
pub fn run_monte_carlo_simulation(
    values: &Vec<i128>,
    variation_grid: &Vec<Vec<i128>>,
) -> (r: Result<SimulationStats, EngineError>)
    requires
        valid_flows(ints_of(values@), FLOW_LIMIT as int),
        variation_grid@.len() <= ITER_LIMIT,
        forall|i: int|
            0 <= i < variation_grid@.len() ==> {
                &&& (#[trigger] variation_grid@[i])@.len() == values@.len()
                &&& valid_variations(ints_of(variation_grid@[i]@))
            },
    ensures
        r is Err <==> (variation_grid@.len() == 0 || exists|i: int|
            0 <= i < variation_grid@.len() && mag(
                #[trigger] varied_sample(ints_of(values@), ints_of(variation_grid@[i]@)),
            ) > SAMPLE_LIMIT as int),
        r matches Err(e) ==> (e == EngineError::InvalidInput <==> variation_grid@.len() == 0),
        r matches Err(e) ==> (e == EngineError::InvalidInput || e == EngineError::RangeExceeded),
        r matches Ok(st) ==> stats_describe(
            varied_samples_of(ints_of(values@), Seq::new(variation_grid@.len(), |i: int|
                ints_of(variation_grid@[i]@))),
            st,
        ),
{
    let ghost gvalues = ints_of(values@);
    let ghost grid = Seq::new(variation_grid@.len(), |i: int| ints_of(variation_grid@[i]@));
    if variation_grid.len() == 0 {
        return Err(EngineError::InvalidInput);
    }
    let iterations = variation_grid.len();
    let samples = par_map_varied_samples(values, variation_grid);
    let mut i: usize = 0;
    while i < iterations
        invariant
            iterations == variation_grid@.len(),
            gvalues == ints_of(values@),
            samples@.len() == iterations,
            1 <= iterations <= ITER_LIMIT,
            forall|k: int|
                0 <= k < iterations ==> #[trigger] samples@[k] as int == varied_sample(gvalues,
                    ints_of(variation_grid@[k]@)),
            forall|k: int|
                0 <= k < iterations ==> mag(#[trigger] samples@[k] as int) <= values@.len()
                    * SIMPLE_TERM_LIMIT as int,
            values@.len() * SIMPLE_TERM_LIMIT as int <= LEN_LIMIT as int * SIMPLE_TERM_LIMIT as int,
            0 <= i <= iterations,
            forall|k: int|
                0 <= k < i ==> mag(#[trigger] samples@[k] as int) <= SAMPLE_LIMIT as int,
        decreases iterations - i,
    {
        let sample = samples[i];
        let sm: i128 = if sample < 0 {
            -sample
        } else {
            sample
        };
        if sm > SAMPLE_LIMIT {
            proof {
                assert(mag(varied_sample(gvalues, ints_of(variation_grid@[i as int]@)))
                    > SAMPLE_LIMIT as int);
            }
            return Err(EngineError::RangeExceeded);
        }
        i = i + 1;
    }
    let st = summarize(&samples);
    proof {
        assert(ints_of(samples@) =~= varied_samples_of(gvalues, grid));
        assert forall|k: int|
            0 <= k < variation_grid@.len() implies mag(#[trigger] varied_sample(gvalues,
                ints_of(variation_grid@[k]@))) <= SAMPLE_LIMIT as int by {
            assert(samples@[k] as int == varied_sample(gvalues, ints_of(variation_grid@[k]@)));
            assert(mag(samples@[k] as int) <= SAMPLE_LIMIT as int);
        }
    }
    Ok(st)
}

} // verus!
