//! Sensitivity engine: parametric sweeps of the valuation under
//! variable-specific cash-flow transformation rules.
//!
//! A sweep walks `steps + 1` equally spaced factors across an inclusive
//! range and revalues the series at each factor.  The transformation is
//! selected by the variable code: the discount rate itself, production
//! volume (revenue scales with a midpoint-relative multiplier, costs split
//! into fixed and variable portions), operating costs (only the variable
//! cost component scales), or revenue (only positive flows scale).  Any
//! unrecognized code falls back to a plain valuation at the supplied
//! discount rate: that fallback is the defined default.

use vstd::prelude::*;

use rayon::iter::{IntoParallelRefIterator, ParallelIterator};

use crate::fixed::{
    mag, tdiv, fmul, fdiv, ints_of, lemma_tdiv_shrinks, lemma_mag_mul_le, lemma_fmul_cap,
    div_t, fmul_e, fdiv_e, EngineError, SCALE, FLOW_LIMIT, RATE_LIMIT, RANGE_LIMIT,
    NPV_FLOW_LIMIT, STEPS_LIMIT,
};
use crate::npv::{npv_of, valid_rate, valid_flows, calculate_npv};

verus! {

/// Closed enumeration of the economic drivers a sweep can vary.
#[derive(Clone, Copy, Debug, PartialEq, Eq, Structural)]
pub enum SensitivityVariable {
    DiscountRate,
    ProductionVolume,
    OperatingCosts,
    Revenue,
}

/// Numeric code of each recognized variable, as callers supply it.
pub open spec fn index_of_variable(v: SensitivityVariable) -> int {
    match v {
        SensitivityVariable::DiscountRate => 0,
        SensitivityVariable::ProductionVolume => 1,
        SensitivityVariable::OperatingCosts => 2,
        SensitivityVariable::Revenue => 3,
    }
}

/// The numeric code of a variable, as `run_sensitivity_analysis` and
/// `evaluate_step` take it.
pub fn variable_code(v: SensitivityVariable) -> (c: usize)
    ensures
        c as int == index_of_variable(v),
{
    match v {
        SensitivityVariable::DiscountRate => 0,
        SensitivityVariable::ProductionVolume => 1,
        SensitivityVariable::OperatingCosts => 2,
        SensitivityVariable::Revenue => 3,
    }
}

/// Midpoint of the sweep range, the base production volume.
pub open spec fn base_volume_of(range_min: int, range_max: int) -> int {
    tdiv(range_min + range_max, 2)
}

/// Midpoint-relative multiplier of a production-volume factor; zero for a
/// non-positive factor.
pub open spec fn relative_factor_of(factor: int, base_volume: int) -> int {
    if factor > 0 {
        fdiv(factor, base_volume)
    } else {
        0
    }
}

/// Production-volume rule for one later-period flow: revenue scales with
/// the relative multiplier, a cost keeps its fixed portion and scales the
/// rest.
pub open spec fn volume_adjust(cf: int, rel: int, fcr: int) -> int {
    if cf > 0 {
        fmul(cf, rel)
    } else {
        fmul(cf, fcr) + fmul(fmul(cf, SCALE as int - fcr), rel)
    }
}

/// Operating-cost rule for one later-period flow: only the variable cost
/// component scales with the factor; revenue and fixed cost stand.
pub open spec fn opex_adjust(cf: int, factor: int, fcr: int, vcr: int) -> int {
    cf + fmul(mag(cf), vcr) - fmul(fmul(mag(cf), vcr), factor) - fmul(mag(cf), fcr)
}

/// Revenue rule for one later-period flow: positive flows scale, costs
/// stand.
pub open spec fn revenue_adjust(cf: int, factor: int) -> int {
    if cf > 0 {
        fmul(cf, factor)
    } else {
        cf
    }
}

/// Series under the production-volume rule; the initial investment stands.
pub open spec fn volume_flows(flows: Seq<int>, rel: int, fcr: int) -> Seq<int> {
    Seq::new(flows.len(), |i: int| if i == 0 {
        flows[0]
    } else {
        volume_adjust(flows[i], rel, fcr)
    })
}

/// Series under the operating-cost rule; the initial investment stands.
pub open spec fn opex_flows(flows: Seq<int>, factor: int, fcr: int, vcr: int) -> Seq<int> {
    Seq::new(flows.len(), |i: int| if i == 0 {
        flows[0]
    } else {
        opex_adjust(flows[i], factor, fcr, vcr)
    })
}

/// Series under the revenue rule; the initial investment stands.
pub open spec fn revenue_flows(flows: Seq<int>, factor: int) -> Seq<int> {
    Seq::new(flows.len(), |i: int| if i == 0 {
        flows[0]
    } else {
        revenue_adjust(flows[i], factor)
    })
}

/// Series with every later-period flow scaled by one modifier.
pub open spec fn scaled_flows(flows: Seq<int>, modifier: int) -> Seq<int> {
    Seq::new(flows.len(), |i: int| if i == 0 {
        flows[0]
    } else {
        fmul(flows[i], modifier)
    })
}

/// Value of one sweep sample for a given variable code and factor.
pub open spec fn step_value(
    flows: Seq<int>,
    variable_index: int,
    factor: int,
    discount_rate: int,
    fcr: int,
    vcr: int,
    range_min: int,
    range_max: int,
) -> int {
    if variable_index == 0 {
        npv_of(flows, factor)
    } else if variable_index == 1 {
        npv_of(
            volume_flows(flows, relative_factor_of(factor, base_volume_of(range_min, range_max)),
                fcr),
            discount_rate,
        )
    } else if variable_index == 2 {
        npv_of(opex_flows(flows, factor, fcr, vcr), discount_rate)
    } else if variable_index == 3 {
        npv_of(revenue_flows(flows, factor), discount_rate)
    } else {
        npv_of(flows, discount_rate)
    }
}

/// Distance between two consecutive sweep factors.
pub open spec fn step_size_of(range_min: int, range_max: int, steps: int) -> int {
    tdiv(range_max - range_min, steps)
}

/// The factor of sample `i`: `range_min + i * step_size`.
pub open spec fn factor_at(range_min: int, step_size: int, i: int) -> int {
    range_min + i * step_size
}

/// The whole ordered sweep result, one value per sample.
pub open spec fn sweep_values(
    flows: Seq<int>,
    variable_index: int,
    range_min: int,
    range_max: int,
    steps: int,
    discount_rate: int,
    fcr: int,
    vcr: int,
) -> Seq<int> {
    Seq::new((steps + 1) as nat, |i: int| step_value(
        flows,
        variable_index,
        factor_at(range_min, step_size_of(range_min, range_max, steps), i),
        discount_rate,
        fcr,
        vcr,
        range_min,
        range_max,
    ))
}

/// Every sweep factor stays within three range bounds of zero.
pub proof fn lemma_factor_bound(range_min: int, range_max: int, steps: int, i: int)
    requires
        mag(range_min) <= RANGE_LIMIT as int,
        mag(range_max) <= RANGE_LIMIT as int,
        1 <= steps,
        0 <= i <= steps,
    ensures
        mag(factor_at(range_min, step_size_of(range_min, range_max, steps), i))
            <= 3 * RANGE_LIMIT as int,
{
    let ss = step_size_of(range_min, range_max, steps);
    lemma_tdiv_shrinks(range_max - range_min, steps);
    assert(mag(i * ss) <= 2 * RANGE_LIMIT as int) by (nonlinear_arith)
        requires
            0 <= i <= steps,
            1 <= steps,
            mag(ss) == mag(range_max - range_min) / steps,
            mag(range_max - range_min) <= 2 * RANGE_LIMIT as int,
            0 <= mag(range_max - range_min),
    ;
}

/// A sweep of the discount rate over a degenerate range with one step
/// yields the same valuation twice.
pub proof fn lemma_sweep_degenerate_range(
    flows: Seq<int>,
    r0: int,
    discount_rate: int,
    fcr: int,
    vcr: int,
)
    ensures
        sweep_values(flows, 0, r0, r0, 1, discount_rate, fcr, vcr).len() == 2,
        sweep_values(flows, 0, r0, r0, 1, discount_rate, fcr, vcr)[0] == npv_of(flows, r0),
        sweep_values(flows, 0, r0, r0, 1, discount_rate, fcr, vcr)[1] == npv_of(flows, r0),
{
    assert(step_size_of(r0, r0, 1) == 0);
    assert(factor_at(r0, 0, 0) == r0);
    assert(factor_at(r0, 0, 1) == r0);
}

/// Valuation under the production-volume rule at one sweep factor.
pub fn calculate_with_volume_factor(
    flows: &Vec<i128>,
    factor: i128,
    discount_rate: i128,
    fixed_cost_ratio: i128,
    range_min: i128,
    range_max: i128,
) -> (r: i128)
    requires
        1 <= flows@.len(),
        valid_flows(ints_of(flows@), FLOW_LIMIT as int),
        mag(factor as int) <= RATE_LIMIT as int,
        valid_rate(discount_rate as int),
        0 <= fixed_cost_ratio <= SCALE,
        mag(range_min as int) <= RANGE_LIMIT as int,
        mag(range_max as int) <= RANGE_LIMIT as int,
        base_volume_of(range_min as int, range_max as int) != 0,
    ensures
        r as int == npv_of(
            volume_flows(ints_of(flows@), relative_factor_of(factor as int,
                base_volume_of(range_min as int, range_max as int)), fixed_cost_ratio as int),
            discount_rate as int,
        ),
{
    let ghost gflows = ints_of(flows@);
    let bv = div_t(range_min + range_max, 2);
    let rel: i128 = if factor > 0 {
        proof {
            lemma_mag_mul_le(factor as int, SCALE as int, RATE_LIMIT as int, SCALE as int);
        }
        fdiv_e(factor, bv)
    } else {
        0
    };
    proof {
        assert(mag(rel as int) <= 4_000_000_000_000_000int);
    }
    let ghost target = volume_flows(gflows, rel as int, fixed_cost_ratio as int);
    let n = flows.len();
    let mut modified: Vec<i128> = Vec::new();
    let mut i: usize = 0;
    while i < n
        invariant
            n == flows@.len(),
            gflows == ints_of(flows@),
            valid_flows(gflows, FLOW_LIMIT as int),
            target == volume_flows(gflows, rel as int, fixed_cost_ratio as int),
            0 <= i <= n,
            0 <= fixed_cost_ratio <= SCALE,
            mag(rel as int) <= 4_000_000_000_000_000int,
            modified@.len() == i,
            forall|j: int| 0 <= j < i ==> modified@[j] as int == target[j],
            forall|j: int| 0 <= j < i
                ==> mag(#[trigger] modified@[j] as int) <= NPV_FLOW_LIMIT as int,
        decreases n - i,
    {
        proof {
            assert(gflows[i as int] == flows@[i as int] as int);
        }
        let cf = flows[i];
        let adjusted: i128 = if i == 0 {
            cf
        } else if cf > 0 {
            proof {
                lemma_mag_mul_le(cf as int, rel as int, FLOW_LIMIT as int,
                    4_000_000_000_000_000int);
                lemma_fmul_cap(cf as int, rel as int, FLOW_LIMIT as int,
                    4_000_000_000_000_000int, NPV_FLOW_LIMIT as int);
            }
            fmul_e(cf, rel)
        } else {
            proof {
                lemma_mag_mul_le(cf as int, fixed_cost_ratio as int, FLOW_LIMIT as int,
                    SCALE as int);
                lemma_fmul_cap(cf as int, fixed_cost_ratio as int, FLOW_LIMIT as int,
                    SCALE as int, FLOW_LIMIT as int);
                lemma_mag_mul_le(cf as int, SCALE as int - fixed_cost_ratio as int,
                    FLOW_LIMIT as int, SCALE as int);
                lemma_fmul_cap(cf as int, SCALE as int - fixed_cost_ratio as int,
                    FLOW_LIMIT as int, SCALE as int, FLOW_LIMIT as int);
            }
            let fixed_portion = fmul_e(cf, fixed_cost_ratio);
            let variable_base = fmul_e(cf, SCALE - fixed_cost_ratio);
            proof {
                lemma_mag_mul_le(variable_base as int, rel as int, FLOW_LIMIT as int,
                    4_000_000_000_000_000int);
                lemma_fmul_cap(variable_base as int, rel as int, FLOW_LIMIT as int,
                    4_000_000_000_000_000int, 4_000_000_000_000_000_000_000_000_000int);
            }
            let variable_portion = fmul_e(variable_base, rel);
            fixed_portion + variable_portion
        };
        modified.push(adjusted);
        i = i + 1;
    }
    proof {
        assert(ints_of(modified@) =~= target);
    }
    calculate_npv(&modified, discount_rate)
}

/// Valuation under the operating-cost rule at one sweep factor.
pub fn calculate_with_opex_factor(
    flows: &Vec<i128>,
    factor: i128,
    discount_rate: i128,
    fixed_cost_ratio: i128,
    variable_cost_ratio: i128,
) -> (r: i128)
    requires
        1 <= flows@.len(),
        valid_flows(ints_of(flows@), FLOW_LIMIT as int),
        mag(factor as int) <= RATE_LIMIT as int,
        valid_rate(discount_rate as int),
        0 <= fixed_cost_ratio <= SCALE,
        0 <= variable_cost_ratio <= SCALE,
    ensures
        r as int == npv_of(
            opex_flows(ints_of(flows@), factor as int, fixed_cost_ratio as int,
                variable_cost_ratio as int),
            discount_rate as int,
        ),
{
    let ghost gflows = ints_of(flows@);
    let ghost target = opex_flows(gflows, factor as int, fixed_cost_ratio as int,
        variable_cost_ratio as int);
    let n = flows.len();
    let mut modified: Vec<i128> = Vec::new();
    let mut i: usize = 0;
    while i < n
        invariant
            n == flows@.len(),
            gflows == ints_of(flows@),
            valid_flows(gflows, FLOW_LIMIT as int),
            target == opex_flows(gflows, factor as int, fixed_cost_ratio as int,
                variable_cost_ratio as int),
            0 <= i <= n,
            0 <= fixed_cost_ratio <= SCALE,
            0 <= variable_cost_ratio <= SCALE,
            mag(factor as int) <= RATE_LIMIT as int,
            modified@.len() == i,
            forall|j: int| 0 <= j < i ==> modified@[j] as int == target[j],
            forall|j: int| 0 <= j < i
                ==> mag(#[trigger] modified@[j] as int) <= NPV_FLOW_LIMIT as int,
        decreases n - i,
    {
        proof {
            assert(gflows[i as int] == flows@[i as int] as int);
        }
        let cf = flows[i];
        let adjusted: i128 = if i == 0 {
            cf
        } else {
            let cfm: i128 = if cf < 0 {
                -cf
            } else {
                cf
            };
            proof {
                lemma_mag_mul_le(cfm as int, variable_cost_ratio as int, FLOW_LIMIT as int,
                    SCALE as int);
                lemma_fmul_cap(cfm as int, variable_cost_ratio as int, FLOW_LIMIT as int,
                    SCALE as int, FLOW_LIMIT as int);
                lemma_mag_mul_le(cfm as int, fixed_cost_ratio as int, FLOW_LIMIT as int,
                    SCALE as int);
                lemma_fmul_cap(cfm as int, fixed_cost_ratio as int, FLOW_LIMIT as int,
                    SCALE as int, FLOW_LIMIT as int);
            }
            let variable_cost = fmul_e(cfm, variable_cost_ratio);
            let fixed_cost = fmul_e(cfm, fixed_cost_ratio);
            proof {
                lemma_mag_mul_le(variable_cost as int, factor as int, FLOW_LIMIT as int,
                    RATE_LIMIT as int);
                lemma_fmul_cap(variable_cost as int, factor as int, FLOW_LIMIT as int,
                    RATE_LIMIT as int, 4_000_000_000_000_000_000_000int);
            }
            let scaled_variable = fmul_e(variable_cost, factor);
            cf + variable_cost - scaled_variable - fixed_cost
        };
        modified.push(adjusted);
        i = i + 1;
    }
    proof {
        assert(ints_of(modified@) =~= target);
    }
    calculate_npv(&modified, discount_rate)
}

/// Valuation under the revenue rule at one sweep factor.
pub fn calculate_with_revenue_factor(
    flows: &Vec<i128>,
    factor: i128,
    discount_rate: i128,
) -> (r: i128)
    requires
        1 <= flows@.len(),
        valid_flows(ints_of(flows@), FLOW_LIMIT as int),
        mag(factor as int) <= RATE_LIMIT as int,
        valid_rate(discount_rate as int),
    ensures
        r as int == npv_of(revenue_flows(ints_of(flows@), factor as int), discount_rate as int),
{
    let ghost gflows = ints_of(flows@);
    let ghost target = revenue_flows(gflows, factor as int);
    let n = flows.len();
    let mut modified: Vec<i128> = Vec::new();
    let mut i: usize = 0;
    while i < n
        invariant
            n == flows@.len(),
            gflows == ints_of(flows@),
            valid_flows(gflows, FLOW_LIMIT as int),
            target == revenue_flows(gflows, factor as int),
            0 <= i <= n,
            mag(factor as int) <= RATE_LIMIT as int,
            modified@.len() == i,
            forall|j: int| 0 <= j < i ==> modified@[j] as int == target[j],
            forall|j: int| 0 <= j < i
                ==> mag(#[trigger] modified@[j] as int) <= NPV_FLOW_LIMIT as int,
        decreases n - i,
    {
        proof {
            assert(gflows[i as int] == flows@[i as int] as int);
        }
        let cf = flows[i];
        let adjusted: i128 = if i > 0 && cf > 0 {
            proof {
                lemma_mag_mul_le(cf as int, factor as int, FLOW_LIMIT as int,
                    RATE_LIMIT as int);
                lemma_fmul_cap(cf as int, factor as int, FLOW_LIMIT as int, RATE_LIMIT as int,
                    4_000_000_000_000_000_000_000int);
            }
            fmul_e(cf, factor)
        } else {
            cf
        };
        modified.push(adjusted);
        i = i + 1;
    }
    proof {
        assert(ints_of(modified@) =~= target);
    }
    calculate_npv(&modified, discount_rate)
}

/// Valuation with every later-period flow scaled by one modifier.
pub fn calculate_npv_with_modified_flows(
    flows: &Vec<i128>,
    modifier: i128,
    discount_rate: i128,
) -> (r: i128)
    requires
        valid_flows(ints_of(flows@), FLOW_LIMIT as int),
        mag(modifier as int) <= RATE_LIMIT as int,
        valid_rate(discount_rate as int),
    ensures
        r as int == npv_of(scaled_flows(ints_of(flows@), modifier as int), discount_rate as int),
{
    let ghost gflows = ints_of(flows@);
    let ghost target = scaled_flows(gflows, modifier as int);
    let n = flows.len();
    let mut modified: Vec<i128> = Vec::new();
    let mut i: usize = 0;
    while i < n
        invariant
            n == flows@.len(),
            gflows == ints_of(flows@),
            valid_flows(gflows, FLOW_LIMIT as int),
            target == scaled_flows(gflows, modifier as int),
            0 <= i <= n,
            mag(modifier as int) <= RATE_LIMIT as int,
            modified@.len() == i,
            forall|j: int| 0 <= j < i ==> modified@[j] as int == target[j],
            forall|j: int| 0 <= j < i
                ==> mag(#[trigger] modified@[j] as int) <= NPV_FLOW_LIMIT as int,
        decreases n - i,
    {
        proof {
            assert(gflows[i as int] == flows@[i as int] as int);
        }
        let cf = flows[i];
        let adjusted: i128 = if i == 0 {
            cf
        } else {
            proof {
                lemma_mag_mul_le(cf as int, modifier as int, FLOW_LIMIT as int,
                    RATE_LIMIT as int);
                lemma_fmul_cap(cf as int, modifier as int, FLOW_LIMIT as int, RATE_LIMIT as int,
                    4_000_000_000_000_000_000_000int);
            }
            fmul_e(cf, modifier)
        };
        modified.push(adjusted);
        i = i + 1;
    }
    proof {
        assert(ints_of(modified@) =~= target);
    }
    calculate_npv(&modified, discount_rate)
}

/// Evaluate one sweep sample: dispatch on the variable code and value the
/// transformed series.  An unrecognized code is the defined fallback: a
/// plain valuation at the supplied discount rate.
pub fn evaluate_step(
    flows: &Vec<i128>,
    variable_index: usize,
    factor: i128,
    discount_rate: i128,
    fixed_cost_ratio: i128,
    variable_cost_ratio: i128,
    range_min: i128,
    range_max: i128,
) -> (r: i128)
    requires
        1 <= flows@.len(),
        valid_flows(ints_of(flows@), FLOW_LIMIT as int),
        mag(factor as int) <= RATE_LIMIT as int,
        mag(discount_rate as int) <= RANGE_LIMIT as int,
        0 <= fixed_cost_ratio <= SCALE,
        0 <= variable_cost_ratio <= SCALE,
        mag(range_min as int) <= RANGE_LIMIT as int,
        mag(range_max as int) <= RANGE_LIMIT as int,
        variable_index == 1 ==> base_volume_of(range_min as int, range_max as int) != 0,
    ensures
        r as int == step_value(ints_of(flows@), variable_index as int, factor as int,
            discount_rate as int, fixed_cost_ratio as int, variable_cost_ratio as int,
            range_min as int, range_max as int),
{
    if variable_index == 0 {
        calculate_npv(flows, factor)
    } else if variable_index == 1 {
        calculate_with_volume_factor(flows, factor, discount_rate, fixed_cost_ratio, range_min,
            range_max)
    } else if variable_index == 2 {
        calculate_with_opex_factor(flows, factor, discount_rate, fixed_cost_ratio,
            variable_cost_ratio)
    } else if variable_index == 3 {
        calculate_with_revenue_factor(flows, factor, discount_rate)
    } else {
        calculate_npv(flows, discount_rate)
    }
}

/// Relies on rayon's `par_iter`, `map` and `collect` into a `Vec`: an
/// indexed parallel map keeps item order, so slot `k` holds the step value
/// of factor `k`, each computed by the verified `evaluate_step`.
#[verifier::external_body]
fn par_map_step_values(
    flows: &Vec<i128>,
    variable_index: usize,
    factors: &Vec<i128>,
    discount_rate: i128,
    fixed_cost_ratio: i128,
    variable_cost_ratio: i128,
    range_min: i128,
    range_max: i128,
) -> (r: Vec<i128>)
    requires
        1 <= flows@.len(),
        valid_flows(ints_of(flows@), FLOW_LIMIT as int),
        forall|k: int|
            0 <= k < factors@.len() ==> mag(#[trigger] factors@[k] as int) <= RATE_LIMIT as int,
        mag(discount_rate as int) <= RANGE_LIMIT as int,
        0 <= fixed_cost_ratio <= SCALE,
        0 <= variable_cost_ratio <= SCALE,
        mag(range_min as int) <= RANGE_LIMIT as int,
        mag(range_max as int) <= RANGE_LIMIT as int,
        variable_index == 1 ==> base_volume_of(range_min as int, range_max as int) != 0,
    ensures
        r@.len() == factors@.len(),
        forall|k: int|
            0 <= k < factors@.len() ==> #[trigger] r@[k] as int == step_value(ints_of(flows@),
                variable_index as int, factors@[k] as int, discount_rate as int,
                fixed_cost_ratio as int, variable_cost_ratio as int, range_min as int,
                range_max as int),
{
    factors.par_iter().map(|f: &i128|
        evaluate_step(flows, variable_index, *f, discount_rate, fixed_cost_ratio,
            variable_cost_ratio, range_min, range_max)).collect()
}

/// Run a sensitivity sweep: `steps + 1` valuations across the inclusive
/// factor range, ordered by step index.
///
/// A zero step count, or a production-volume sweep whose range midpoint is
/// zero, is rejected as `InvalidInput` before any work; every other
/// admissible call succeeds, and each result slot holds exactly the sample
/// modeled by `sweep_values`.
pub fn run_sensitivity_analysis(
    flows: &Vec<i128>,
    variable_index: usize,
    range_min: i128,
    range_max: i128,
    steps: usize,
    discount_rate: i128,
    fixed_cost_ratio: i128,
    variable_cost_ratio: i128,
) -> (r: Result<Vec<i128>, EngineError>)
    requires
        1 <= flows@.len(),
        valid_flows(ints_of(flows@), FLOW_LIMIT as int),
        mag(range_min as int) <= RANGE_LIMIT as int,
        mag(range_max as int) <= RANGE_LIMIT as int,
        steps <= STEPS_LIMIT,
        mag(discount_rate as int) <= RANGE_LIMIT as int,
        0 <= fixed_cost_ratio <= SCALE,
        0 <= variable_cost_ratio <= SCALE,
    ensures
        r is Err <==> (steps == 0 || (variable_index == 1 && base_volume_of(range_min as int,
            range_max as int) == 0)),
        r matches Err(e) ==> e == EngineError::InvalidInput,
        r matches Ok(values) ==> {
            &&& values@.len() == steps + 1
            &&& forall|i: int|
                0 <= i < values@.len() ==> values@[i] as int == sweep_values(
                    ints_of(flows@),
                    variable_index as int,
                    range_min as int,
                    range_max as int,
                    steps as int,
                    discount_rate as int,
                    fixed_cost_ratio as int,
                    variable_cost_ratio as int,
                )[i]
        },
{
    let ghost gflows = ints_of(flows@);
    if steps == 0 {
        return Err(EngineError::InvalidInput);
    }
    if variable_index == 1 {
        let bv = div_t(range_min + range_max, 2);
        if bv == 0 {
            return Err(EngineError::InvalidInput);
        }
    }
    let ghost swept = sweep_values(gflows, variable_index as int, range_min as int,
        range_max as int, steps as int, discount_rate as int, fixed_cost_ratio as int,
        variable_cost_ratio as int);
    let step_size = div_t(range_max - range_min, steps as i128);
    let mut factors: Vec<i128> = Vec::new();
    let mut i: usize = 0;
    while i <= steps
        invariant
            1 <= steps <= STEPS_LIMIT,
            mag(range_min as int) <= RANGE_LIMIT as int,
            mag(range_max as int) <= RANGE_LIMIT as int,
            step_size as int == step_size_of(range_min as int, range_max as int, steps as int),
            0 <= i <= steps + 1,
            factors@.len() == i,
            forall|j: int|
                0 <= j < i ==> #[trigger] factors@[j] as int == factor_at(range_min as int,
                    step_size as int, j),
            forall|j: int|
                0 <= j < i ==> mag(#[trigger] factors@[j] as int) <= RATE_LIMIT as int,
        decreases steps + 1 - i,
    {
        proof {
            lemma_factor_bound(range_min as int, range_max as int, steps as int, i as int);
        }
        let factor = range_min + (i as i128) * step_size;
        factors.push(factor);
        i = i + 1;
    }
    let values = par_map_step_values(flows, variable_index, &factors, discount_rate,
        fixed_cost_ratio, variable_cost_ratio, range_min, range_max);
    proof {
        assert(forall|j: int| 0 <= j < values@.len() ==> #[trigger] values@[j] as int
            == swept[j]);
    }
    Ok(values)
}

/// Nine-slot summary of one-at-a-time sensitivities: the base valuation,
/// then low/high pairs for the discount rate, production volume, operating
/// costs, and revenue, each at eighty and one hundred twenty percent.
pub fn analyze_sensitivity(
    flows: &Vec<i128>,
    discount_rate: i128,
    _production_volume: i128,
    _operating_costs: i128,
    _revenue: i128,
) -> (r: Vec<i128>)
    requires
        valid_flows(ints_of(flows@), FLOW_LIMIT as int),
        mag(discount_rate as int) <= RANGE_LIMIT as int,
    ensures
        r@.len() == 9,
        r@[0] as int == npv_of(ints_of(flows@), discount_rate as int),
        r@[1] as int == npv_of(ints_of(flows@), fmul(discount_rate as int, 800_000)),
        r@[2] as int == npv_of(ints_of(flows@), fmul(discount_rate as int, 1_200_000)),
        forall|i: int| 3 <= i < 9 && i % 2 == 1
            ==> #[trigger] r@[i] as int == npv_of(scaled_flows(ints_of(flows@), 800_000),
                discount_rate as int),
        forall|i: int| 3 <= i < 9 && i % 2 == 0
            ==> #[trigger] r@[i] as int == npv_of(scaled_flows(ints_of(flows@), 1_200_000),
                discount_rate as int),
{
    let base_npv = calculate_npv(flows, discount_rate);
    proof {
        lemma_mag_mul_le(discount_rate as int, 1_200_000int, RANGE_LIMIT as int, 1_200_000int);
        lemma_mag_mul_le(discount_rate as int, 800_000int, RANGE_LIMIT as int, 800_000int);
        lemma_fmul_cap(discount_rate as int, 800_000int, RANGE_LIMIT as int, 800_000int,
            RATE_LIMIT as int);
        lemma_fmul_cap(discount_rate as int, 1_200_000int, RANGE_LIMIT as int, 1_200_000int,
            RATE_LIMIT as int);
    }
    let dr_low = fmul_e(discount_rate, 800_000);
    let dr_high = fmul_e(discount_rate, 1_200_000);
    let npv_dr_low = calculate_npv(flows, dr_low);
    let npv_dr_high = calculate_npv(flows, dr_high);
    let pv_low = calculate_npv_with_modified_flows(flows, 800_000, discount_rate);
    let pv_high = calculate_npv_with_modified_flows(flows, 1_200_000, discount_rate);
    let opex_low = calculate_npv_with_modified_flows(flows, 800_000, discount_rate);
    let opex_high = calculate_npv_with_modified_flows(flows, 1_200_000, discount_rate);
    let rev_low = calculate_npv_with_modified_flows(flows, 800_000, discount_rate);
    let rev_high = calculate_npv_with_modified_flows(flows, 1_200_000, discount_rate);
    let mut results: Vec<i128> = Vec::new();
    results.push(base_npv);
    results.push(npv_dr_low);
    results.push(npv_dr_high);
    results.push(pv_low);
    results.push(pv_high);
    results.push(opex_low);
    results.push(opex_high);
    results.push(rev_low);
    results.push(rev_high);
    results
}

} // verus!
