//! Internal rate of return: Newton-Raphson root finding on the valuation
//! primitive.
//!
//! The solver starts at ten percent, estimates the derivative by a forward
//! finite difference with a step of `1e-4`, and stops as soon as the
//! valuation magnitude falls under one tick (`1e-6` of a unit).  One hundred
//! failed iterations are a `NonConvergence` failure; a derivative of exactly
//! zero is surfaced as the distinct `ZeroDerivative` failure instead of
//! dividing by it.  Iterates are clamped into the representable rate range.

use vstd::prelude::*;

use crate::fixed::{
    mag, fdiv, ints_of, lemma_tdiv_shrinks, lemma_mul_mag, div_t, EngineError, SCALE,
    LEN_LIMIT, FLOW_LIMIT,
};
use crate::npv::{npv_of, valid_flows, lemma_npv_bound, calculate_npv};

verus! {

/// Tolerance of the convergence test: one tick, `1e-6` of a unit.
pub const IRR_TOLERANCE: i128 = 1;

/// Step of the forward finite difference: `1e-4` of a unit.
pub const IRR_DELTA: i128 = 100;

/// Initial guess of the solver: ten percent.
pub const IRR_START: i128 = 100_000;

/// Iteration cap of the solver.
pub const IRR_MAX_ITERATIONS: usize = 100;

/// Largest iterate magnitude: leaves room for the finite-difference step.
pub const IRR_RATE_CAP: i128 = 3_999_999_900;

/// Forward finite-difference estimate of the valuation's derivative.
pub open spec fn derivative_of(flows: Seq<int>, rate: int) -> int {
    fdiv(npv_of(flows, rate + IRR_DELTA) - npv_of(flows, rate), IRR_DELTA as int)
}

/// Clamp an iterate into the representable rate range.
pub open spec fn clamp_rate(r: int) -> int {
    if r > IRR_RATE_CAP as int {
        IRR_RATE_CAP as int
    } else if r < -IRR_RATE_CAP as int {
        -IRR_RATE_CAP as int
    } else {
        r
    }
}

/// The Newton iteration from a given rate with `fuel` iterations left.
pub open spec fn irr_search(flows: Seq<int>, rate: int, fuel: nat) -> Result<int, EngineError>
    decreases fuel,
{
    if fuel == 0 {
        Err(EngineError::NonConvergence)
    } else {
        let v = npv_of(flows, rate);
        if mag(v) < IRR_TOLERANCE as int {
            Ok(rate)
        } else {
            let d = derivative_of(flows, rate);
            if d == 0 {
                Err(EngineError::ZeroDerivative)
            } else {
                irr_search(flows, clamp_rate(rate - fdiv(v, d)), (fuel - 1) as nat)
            }
        }
    }
}

/// The view of an executable result as a mathematical one.
pub open spec fn rate_result_of(r: Result<i128, EngineError>) -> Result<int, EngineError> {
    match r {
        Ok(v) => Ok(v as int),
        Err(e) => Err(e),
    }
}

/// A converged search lands within tolerance of a valuation root.
pub proof fn lemma_irr_converged(flows: Seq<int>, rate: int, fuel: nat, root: int)
    requires
        irr_search(flows, rate, fuel) == Ok::<int, EngineError>(root),
    ensures
        mag(npv_of(flows, root)) < IRR_TOLERANCE as int,
    decreases fuel,
{
    if fuel == 0 {
    } else {
        let v = npv_of(flows, rate);
        if mag(v) < IRR_TOLERANCE as int {
        } else {
            let d = derivative_of(flows, rate);
            if d == 0 {
            } else {
                lemma_irr_converged(flows, clamp_rate(rate - fdiv(v, d)), (fuel - 1) as nat, root);
            }
        }
    }
}

/// Internal rate of return of a cash-flow series.
///
/// Returns exactly the outcome of the modeled Newton search: the first
/// iterate whose valuation magnitude is under one tick, `NonConvergence`
/// after one hundred failed iterations, or `ZeroDerivative` on a flat
/// objective.  A converged rate `r` satisfies `mag(npv_of(flows, r)) < 1`.
pub fn calculate_irr(flows: &Vec<i128>) -> (r: Result<i128, EngineError>)
    requires
        valid_flows(ints_of(flows@), FLOW_LIMIT as int),
    ensures
        rate_result_of(r) == irr_search(ints_of(flows@), IRR_START as int,
            IRR_MAX_ITERATIONS as nat),
        r matches Ok(root) ==> mag(npv_of(ints_of(flows@), root as int)) < IRR_TOLERANCE as int,
{
    let ghost gflows = ints_of(flows@);
    let mut rate: i128 = IRR_START;
    let mut i: usize = 0;
    while i < IRR_MAX_ITERATIONS
        invariant
            0 <= i <= IRR_MAX_ITERATIONS,
            valid_flows(gflows, FLOW_LIMIT as int),
            gflows == ints_of(flows@),
            mag(rate as int) <= IRR_RATE_CAP as int,
            irr_search(gflows, IRR_START as int, IRR_MAX_ITERATIONS as nat)
                == irr_search(gflows, rate as int, (IRR_MAX_ITERATIONS - i) as nat),
        decreases IRR_MAX_ITERATIONS - i,
    {
        proof {
            lemma_npv_bound(gflows, rate as int, FLOW_LIMIT as int);
            lemma_npv_bound(gflows, rate as int + IRR_DELTA as int, FLOW_LIMIT as int);
            assert(gflows.len() * (FLOW_LIMIT as int * SCALE as int)
                <= LEN_LIMIT as int * (FLOW_LIMIT as int * SCALE as int)) by (nonlinear_arith)
                requires
                    0 <= gflows.len() <= LEN_LIMIT as int,
            ;
        }
        let v = calculate_npv(flows, rate);
        if v == 0 {
            proof {
                lemma_irr_converged(gflows, IRR_START as int, IRR_MAX_ITERATIONS as nat,
                    rate as int);
            }
            return Ok(rate);
        }
        let v2 = calculate_npv(flows, rate + IRR_DELTA);
        proof {
            lemma_mul_mag((v2 - v) as int, SCALE as int);
            lemma_tdiv_shrinks((v2 - v) * SCALE, IRR_DELTA as int);
        }
        let d = div_t((v2 - v) * SCALE, IRR_DELTA);
        if d == 0 {
            return Err(EngineError::ZeroDerivative);
        }
        proof {
            lemma_mul_mag(v as int, SCALE as int);
            lemma_tdiv_shrinks(v * SCALE, d as int);
        }
        let step = div_t(v * SCALE, d);
        let next = rate - step;
        rate = if next > IRR_RATE_CAP {
            IRR_RATE_CAP
        } else if next < -IRR_RATE_CAP {
            -IRR_RATE_CAP
        } else {
            next
        };
        i = i + 1;
    }
    Err(EngineError::NonConvergence)
}

} // verus!
