//! Environmental peer utilities: allocation factors and eco-efficiency
//! ratios over fixed-point buffers.

use vstd::prelude::*;

use crate::fixed::{
    mag, fmul, fdiv, ints_of, lemma_mag_mul_le, fmul_e, fdiv_e,
    EngineError, SCALE, LEN_LIMIT, FLOW_LIMIT,
};
use crate::stats::sum_prefix;

verus! {

/// Largest magnitude of an impact or value entry in allocation work.
pub const ALLOC_LIMIT: i128 = 1_000_000_000_000_000;

/// One allocated impact: the value share of the total, times the impact.
pub open spec fn allocation_of(impact: int, value: int, total: int) -> int {
    fmul(fdiv(value, total), impact)
}

/// A weight clamped into the unit interval.
pub open spec fn clamp_unit(w: int) -> int {
    if w < 0 {
        0
    } else if w > SCALE as int {
        SCALE as int
    } else {
        w
    }
}

/// One hybrid factor: the clamped weight blends mass and economic factors.
pub open spec fn hybrid_of(m: int, e: int, w: int) -> int {
    fmul(clamp_unit(w), m) + fmul(SCALE as int - clamp_unit(w), e)
}

/// Eco-efficiency: economic value per unit of impact, zero for a
/// non-positive impact.
pub open spec fn efficiency_of(value: int, impact: int) -> int {
    if impact <= 0 {
        0
    } else {
        fdiv(value, impact)
    }
}

/// Allocate impacts across co-products in proportion to their values.
///
/// Fails with `InvalidInput` exactly when the value total is not positive;
/// otherwise each slot holds its value share of the total times its impact.
pub fn calculate_allocation(impacts: &Vec<i128>, values: &Vec<i128>) -> (r: Result<
    Vec<i128>,
    EngineError,
>)
    requires
        impacts@.len() == values@.len(),
        values@.len() <= LEN_LIMIT,
        forall|i: int|
            0 <= i < impacts@.len() ==> mag(#[trigger] impacts@[i] as int) <= ALLOC_LIMIT as int,
        forall|i: int|
            0 <= i < values@.len() ==> mag(#[trigger] values@[i] as int) <= ALLOC_LIMIT as int,
    ensures
        r is Err <==> sum_prefix(ints_of(values@), values@.len()) <= 0,
        r matches Err(e) ==> e == EngineError::InvalidInput,
        r matches Ok(factors) ==> {
            &&& factors@.len() == impacts@.len()
            &&& forall|i: int|
                0 <= i < factors@.len() ==> #[trigger] factors@[i] as int == allocation_of(
                    impacts@[i] as int,
                    values@[i] as int,
                    sum_prefix(ints_of(values@), values@.len()),
                )
        },
{
    let ghost gvalues = ints_of(values@);
    let n = values.len();
    let mut total: i128 = 0;
    let mut i: usize = 0;
    while i < n
        invariant
            n == values@.len(),
            gvalues == ints_of(values@),
            n <= LEN_LIMIT,
            forall|k: int|
                0 <= k < values@.len() ==> mag(#[trigger] values@[k] as int) <= ALLOC_LIMIT as int,
            0 <= i <= n,
            total as int == sum_prefix(gvalues, i as nat),
            mag(total as int) <= i * ALLOC_LIMIT as int,
        decreases n - i,
    {
        proof {
            assert(gvalues[i as int] == values@[i as int] as int);
            assert((i + 1) * ALLOC_LIMIT as int == i * ALLOC_LIMIT as int + ALLOC_LIMIT as int)
                by (nonlinear_arith);
            assert(i as int * ALLOC_LIMIT as int <= LEN_LIMIT as int * ALLOC_LIMIT as int)
                by (nonlinear_arith)
                requires
                    0 <= i as int <= LEN_LIMIT as int,
            ;
        }
        total = total + values[i];
        i = i + 1;
    }
    if total <= 0 {
        return Err(EngineError::InvalidInput);
    }
    let mut factors: Vec<i128> = Vec::new();
    i = 0;
    while i < n
        invariant
            n == values@.len(),
            n == impacts@.len(),
            gvalues == ints_of(values@),
            forall|k: int|
                0 <= k < values@.len() ==> mag(#[trigger] values@[k] as int) <= ALLOC_LIMIT as int,
            forall|k: int|
                0 <= k < impacts@.len() ==> mag(#[trigger] impacts@[k] as int)
                    <= ALLOC_LIMIT as int,
            total as int == sum_prefix(gvalues, n as nat),
            total > 0,
            0 <= i <= n,
            factors@.len() == i,
            forall|k: int|
                0 <= k < i ==> #[trigger] factors@[k] as int == allocation_of(
                    impacts@[k] as int,
                    values@[k] as int,
                    total as int,
                ),
        decreases n - i,
    {
        proof {
            lemma_mag_mul_le(values@[i as int] as int, SCALE as int, ALLOC_LIMIT as int,
                SCALE as int);
        }
        let share = fdiv_e(values[i], total);
        proof {
            lemma_mag_mul_le(share as int, impacts@[i as int] as int,
                ALLOC_LIMIT as int * SCALE as int, ALLOC_LIMIT as int);
        }
        let factor = fmul_e(share, impacts[i]);
        factors.push(factor);
        i = i + 1;
    }
    Ok(factors)
}

/// Blend mass-based and economic allocation factors with a clamped weight.
pub fn calculate_hybrid_allocation(
    mass_factors: &Vec<i128>,
    economic_factors: &Vec<i128>,
    weight: i128,
) -> (r: Vec<i128>)
    requires
        mass_factors@.len() == economic_factors@.len(),
        forall|i: int|
            0 <= i < mass_factors@.len() ==> mag(#[trigger] mass_factors@[i] as int)
                <= FLOW_LIMIT as int,
        forall|i: int|
            0 <= i < economic_factors@.len() ==> mag(#[trigger] economic_factors@[i] as int)
                <= FLOW_LIMIT as int,
    ensures
        r@.len() == mass_factors@.len(),
        forall|i: int|
            0 <= i < r@.len() ==> #[trigger] r@[i] as int == hybrid_of(
                mass_factors@[i] as int,
                economic_factors@[i] as int,
                weight as int,
            ),
{
    let w: i128 = if weight < 0 {
        0
    } else if weight > SCALE {
        SCALE
    } else {
        weight
    };
    let n = mass_factors.len();
    let mut results: Vec<i128> = Vec::new();
    let mut i: usize = 0;
    while i < n
        invariant
            n == mass_factors@.len(),
            n == economic_factors@.len(),
            forall|k: int|
                0 <= k < mass_factors@.len() ==> mag(#[trigger] mass_factors@[k] as int)
                    <= FLOW_LIMIT as int,
            forall|k: int|
                0 <= k < economic_factors@.len() ==> mag(#[trigger] economic_factors@[k] as int)
                    <= FLOW_LIMIT as int,
            w as int == clamp_unit(weight as int),
            0 <= w <= SCALE,
            0 <= i <= n,
            results@.len() == i,
            forall|k: int|
                0 <= k < i ==> #[trigger] results@[k] as int == hybrid_of(
                    mass_factors@[k] as int,
                    economic_factors@[k] as int,
                    weight as int,
                ),
        decreases n - i,
    {
        proof {
            lemma_mag_mul_le(w as int, mass_factors@[i as int] as int, SCALE as int,
                FLOW_LIMIT as int);
            lemma_mag_mul_le(SCALE as int - w as int, economic_factors@[i as int] as int,
                SCALE as int, FLOW_LIMIT as int);
        }
        let blended = fmul_e(w, mass_factors[i]) + fmul_e(SCALE - w, economic_factors[i]);
        results.push(blended);
        i = i + 1;
    }
    results
}

/// Economic value per unit of environmental impact.
pub fn calculate_efficiency(economic_value: i128, environmental_impact: i128) -> (r: i128)
    requires
        mag(economic_value as int) <= FLOW_LIMIT as int,
        mag(environmental_impact as int) <= FLOW_LIMIT as int,
    ensures
        r as int == efficiency_of(economic_value as int, environmental_impact as int),
{
    if environmental_impact <= 0 {
        return 0;
    }
    proof {
        lemma_mag_mul_le(economic_value as int, SCALE as int, FLOW_LIMIT as int, SCALE as int);
    }
    fdiv_e(economic_value, environmental_impact)
}

/// Element-wise eco-efficiency of paired value and impact buffers.
pub fn calculate_eco_efficiency_matrix(
    economic_values: &Vec<i128>,
    environmental_impacts: &Vec<i128>,
) -> (r: Vec<i128>)
    requires
        economic_values@.len() == environmental_impacts@.len(),
        forall|i: int|
            0 <= i < economic_values@.len() ==> mag(#[trigger] economic_values@[i] as int)
                <= FLOW_LIMIT as int,
        forall|i: int|
            0 <= i < environmental_impacts@.len() ==> mag(
                #[trigger] environmental_impacts@[i] as int,
            ) <= FLOW_LIMIT as int,
    ensures
        r@.len() == economic_values@.len(),
        forall|i: int|
            0 <= i < r@.len() ==> #[trigger] r@[i] as int == efficiency_of(
                economic_values@[i] as int,
                environmental_impacts@[i] as int,
            ),
{
    let n = economic_values.len();
    let mut results: Vec<i128> = Vec::new();
    let mut i: usize = 0;
    while i < n
        invariant
            n == economic_values@.len(),
            n == environmental_impacts@.len(),
            forall|k: int|
                0 <= k < economic_values@.len() ==> mag(#[trigger] economic_values@[k] as int)
                    <= FLOW_LIMIT as int,
            forall|k: int|
                0 <= k < environmental_impacts@.len() ==> mag(
                    #[trigger] environmental_impacts@[k] as int,
                ) <= FLOW_LIMIT as int,
            0 <= i <= n,
            results@.len() == i,
            forall|k: int|
                0 <= k < i ==> #[trigger] results@[k] as int == efficiency_of(
                    economic_values@[k] as int,
                    environmental_impacts@[k] as int,
                ),
        decreases n - i,
    {
        let value = calculate_efficiency(economic_values[i], environmental_impacts[i]);
        results.push(value);
        i = i + 1;
    }
    results
}

} // verus!
