//! End-to-end checks of the valuation, rate solver, sweep and simulators,
//! with values in millionths of a unit.

use finmetrics::fixed::{EngineError, SCALE};
use finmetrics::irr::calculate_irr;
use finmetrics::monte_carlo::{run_economic_monte_carlo, PeriodNoise};
use finmetrics::npv::calculate_npv;
use finmetrics::sensitivity::{
    analyze_sensitivity, calculate_npv_with_modified_flows, calculate_with_opex_factor,
    calculate_with_revenue_factor, calculate_with_volume_factor, evaluate_step, variable_code,
    run_sensitivity_analysis, SensitivityVariable,
};
use finmetrics::simulator::run_monte_carlo_simulation;

use rand::rngs::StdRng;
use rand::SeedableRng;
use rand_distr::{Distribution, Normal};

fn units(x: i128) -> i128 {
    x * SCALE
}

#[test]
fn npv_empty_series_is_zero() {
    let flows: Vec<i128> = vec![];
    assert_eq!(calculate_npv(&flows, 100_000), 0);
    assert_eq!(calculate_npv(&flows, -500_000), 0);
    assert_eq!(calculate_npv(&flows, 0), 0);
}

#[test]
fn npv_single_flow_is_that_flow() {
    let flows = vec![units(42)];
    assert_eq!(calculate_npv(&flows, 100_000), units(42));
    assert_eq!(calculate_npv(&flows, 0), units(42));
    assert_eq!(calculate_npv(&flows, -900_000), units(42));
    let negative = vec![units(-7)];
    assert_eq!(calculate_npv(&negative, 250_000), units(-7));
}

#[test]
fn npv_degenerate_rate_is_zero() {
    let flows = vec![units(42), units(10)];
    assert_eq!(calculate_npv(&flows, -SCALE), 0);
}

#[test]
fn npv_concrete_three_period_project() {
    let flows = vec![units(-1000), units(500), units(500), units(500)];
    assert_eq!(calculate_npv(&flows, 100_000), 243_425_994);
}

#[test]
fn npv_decreases_as_rate_rises() {
    let flows = vec![units(-1000), units(500), units(500), units(500)];
    let low = calculate_npv(&flows, 50_000);
    let mid = calculate_npv(&flows, 100_000);
    let high = calculate_npv(&flows, 200_000);
    assert!(low >= mid && mid >= high);
}

#[test]
fn irr_finds_ten_percent_rate() {
    let flows = vec![units(-1000), units(1100)];
    assert_eq!(calculate_irr(&flows), Ok(100_000));
}

#[test]
fn irr_converged_rate_zeroes_npv() {
    let flows = vec![units(-1), units(2)];
    let rate = calculate_irr(&flows).unwrap();
    assert_eq!(rate, 1_000_000);
    assert_eq!(calculate_npv(&flows, rate), 0);
}

#[test]
fn irr_flat_objective_is_zero_derivative() {
    let flows = vec![units(100)];
    assert_eq!(calculate_irr(&flows), Err(EngineError::ZeroDerivative));
}

#[test]
fn irr_reports_non_convergence() {
    let flows = vec![units(-1000), units(600), units(600)];
    assert_eq!(calculate_irr(&flows), Err(EngineError::NonConvergence));
}

#[test]
fn sweep_degenerate_range_repeats_the_valuation() {
    let flows = vec![units(-1000), units(500), units(500), units(500)];
    let r0: i128 = 100_000;
    let result = run_sensitivity_analysis(&flows, 0, r0, r0, 1, 50_000, 0, 0).unwrap();
    let direct = calculate_npv(&flows, r0);
    assert_eq!(result, vec![direct, direct]);
}

#[test]
fn sweep_revenue_three_increasing_values() {
    let flows = vec![units(-1000), units(800)];
    let result = run_sensitivity_analysis(&flows, 3, 800_000, 1_200_000, 2, 100_000, 0, 0)
        .unwrap();
    assert_eq!(result, vec![-418_181_819, -272_727_273, -127_272_728]);
    assert!(result[0] < result[1] && result[1] < result[2]);
}

#[test]
fn sweep_zero_steps_is_invalid() {
    let flows = vec![units(-1000), units(800)];
    let result = run_sensitivity_analysis(&flows, 3, 800_000, 1_200_000, 0, 100_000, 0, 0);
    assert_eq!(result, Err(EngineError::InvalidInput));
}

#[test]
fn sweep_volume_zero_midpoint_is_invalid() {
    let flows = vec![units(-1000), units(800)];
    let result = run_sensitivity_analysis(&flows, 1, -500_000, 500_000, 2, 100_000, 0, 0);
    assert_eq!(result, Err(EngineError::InvalidInput));
}

#[test]
fn sweep_unknown_variable_falls_back_to_discount_rate() {
    let flows = vec![units(-1000), units(800)];
    let result = run_sensitivity_analysis(&flows, 9, 800_000, 1_200_000, 2, 100_000, 0, 0)
        .unwrap();
    let base = calculate_npv(&flows, 100_000);
    assert_eq!(result, vec![base, base, base]);
}

#[test]
fn sweep_volume_across_a_doubling_range() {
    let flows = vec![units(-1000), units(-200), units(300)];
    let result = run_sensitivity_analysis(&flows, 1, 1_000_000, 2_000_000, 2, 0, 500_000, 0)
        .unwrap();
    assert_eq!(result, vec![-966_666_800, -900_000_000, -833_333_400]);
}

#[test]
fn sweep_operating_costs_raises_cost_with_the_factor() {
    let flows = vec![units(-1000), units(-200), units(300)];
    let result = run_sensitivity_analysis(&flows, 2, 1_000_000, 2_000_000, 2, 100_000,
        300_000, 400_000).unwrap();
    assert_eq!(result, vec![-1_062_809_917, -1_148_760_330, -1_234_710_744]);
    assert!(result[0] > result[1] && result[1] > result[2]);
}

#[test]
fn volume_factor_splits_fixed_and_variable_costs() {
    let flows = vec![units(-1000), units(-200), units(300)];
    let value = calculate_with_volume_factor(&flows, 1_500_000, 0, 500_000, 1_000_000,
        2_000_000);
    assert_eq!(value, units(-900));
}

#[test]
fn opex_factor_scales_only_variable_costs() {
    let flows = vec![units(-1000), units(-200), units(300)];
    let value = calculate_with_opex_factor(&flows, 1_200_000, 0, 300_000, 400_000);
    assert_eq!(value, -1_090_000_000);
}

#[test]
fn revenue_factor_leaves_costs_alone() {
    let flows = vec![units(-1000), units(800)];
    let value = calculate_with_revenue_factor(&flows, 800_000, 100_000);
    assert_eq!(value, -418_181_819);
}

#[test]
fn evaluate_step_matches_each_dispatch() {
    let flows = vec![units(-1000), units(800)];
    assert_eq!(
        evaluate_step(&flows, 0, 100_000, 50_000, 0, 0, 800_000, 1_200_000),
        calculate_npv(&flows, 100_000),
    );
    assert_eq!(
        evaluate_step(&flows, 3, 800_000, 100_000, 0, 0, 800_000, 1_200_000),
        calculate_with_revenue_factor(&flows, 800_000, 100_000),
    );
}

#[test]
fn sensitivity_variable_codes_drive_the_sweep() {
    assert_eq!(variable_code(SensitivityVariable::DiscountRate), 0);
    assert_eq!(variable_code(SensitivityVariable::ProductionVolume), 1);
    assert_eq!(variable_code(SensitivityVariable::OperatingCosts), 2);
    assert_eq!(variable_code(SensitivityVariable::Revenue), 3);
    let flows = vec![units(-1000), units(800)];
    let by_code = run_sensitivity_analysis(&flows, 3, 800_000, 1_200_000, 2, 100_000, 0, 0);
    let by_enum = run_sensitivity_analysis(&flows, variable_code(SensitivityVariable::Revenue),
        800_000, 1_200_000, 2, 100_000, 0, 0);
    assert_eq!(by_code, by_enum);
}

#[test]
fn analyze_sensitivity_returns_nine_slots() {
    let flows = vec![units(-1000), units(500), units(500), units(500)];
    let report = analyze_sensitivity(&flows, 100_000, 0, 0, 0);
    assert_eq!(report.len(), 9);
    assert_eq!(report[0], calculate_npv(&flows, 100_000));
    assert_eq!(report[1], calculate_npv(&flows, 80_000));
    assert_eq!(report[2], calculate_npv(&flows, 120_000));
    let scaled_low = calculate_npv_with_modified_flows(&flows, 800_000, 100_000);
    let scaled_high = calculate_npv_with_modified_flows(&flows, 1_200_000, 100_000);
    assert_eq!(report[3], scaled_low);
    assert_eq!(report[4], scaled_high);
    assert_eq!(report[7], scaled_low);
    assert_eq!(report[8], scaled_high);
}

fn zero_noise_rows(periods: usize, iterations: usize) -> Vec<Vec<PeriodNoise>> {
    let row: Vec<PeriodNoise> = (0..periods)
        .map(|_| PeriodNoise { production: 0, price: 0, cost: 0 })
        .collect();
    (0..iterations).map(|_| row.clone()).collect()
}

#[test]
fn monte_carlo_zero_noise_reduces_to_npv() {
    let flows = vec![units(-1000), units(500), units(500), units(500)];
    let grid = zero_noise_rows(flows.len(), 1);
    let stats = run_economic_monte_carlo(&flows, &grid, 100_000).unwrap();
    let expected = calculate_npv(&flows, 100_000);
    assert_eq!(stats.mean, expected);
    assert_eq!(stats.min, expected);
    assert_eq!(stats.max, expected);
    assert_eq!(stats.std_dev, 0);
}

#[test]
fn monte_carlo_empty_inputs_are_invalid() {
    let flows: Vec<i128> = vec![];
    let grid = zero_noise_rows(0, 1);
    assert_eq!(run_economic_monte_carlo(&flows, &grid, 100_000),
        Err(EngineError::InvalidInput));
    let flows = vec![units(-1000), units(500)];
    let empty: Vec<Vec<PeriodNoise>> = vec![];
    assert_eq!(run_economic_monte_carlo(&flows, &empty, 100_000),
        Err(EngineError::InvalidInput));
}

#[test]
fn monte_carlo_oversized_sample_is_range_exceeded() {
    let flows = vec![units(-1000), 1_000_000_000_000_000_000];
    let row = vec![
        PeriodNoise { production: 0, price: 0, cost: 0 },
        PeriodNoise { production: 1_000_000_000, price: 1_000_000_000, cost: 0 },
    ];
    let grid = vec![row];
    assert_eq!(run_economic_monte_carlo(&flows, &grid, 0),
        Err(EngineError::RangeExceeded));
}

fn noise_from_seed(flows: &[i128], seed: u64, iterations: usize, sigma: f64)
    -> Vec<Vec<PeriodNoise>> {
    let dist = Normal::new(0.0, sigma).unwrap();
    (0..iterations)
        .map(|i| {
            let mut rng = StdRng::seed_from_u64(seed.wrapping_add(i as u64));
            flows
                .iter()
                .map(|_| {
                    let production = (dist.sample(&mut rng) * 1_000_000.0) as i128;
                    let price = (dist.sample(&mut rng) * 1_000_000.0) as i128;
                    let cost = (dist.sample(&mut rng) * 1_000_000.0) as i128;
                    PeriodNoise {
                        production: production.clamp(-1_000_000_000, 1_000_000_000),
                        price: price.clamp(-1_000_000_000, 1_000_000_000),
                        cost: cost.clamp(-1_000_000_000, 1_000_000_000),
                    }
                })
                .collect()
        })
        .collect()
}

#[test]
fn monte_carlo_identical_seeds_reproduce_statistics() {
    let flows = vec![units(-1000), units(500), units(-100), units(700)];
    let grid_a = noise_from_seed(&flows, 42, 64, 0.1);
    let grid_b = noise_from_seed(&flows, 42, 64, 0.1);
    assert_eq!(grid_a, grid_b);
    let first = run_economic_monte_carlo(&flows, &grid_a, 100_000).unwrap();
    let second = run_economic_monte_carlo(&flows, &grid_b, 100_000).unwrap();
    assert_eq!(first, second);
    assert!(first.min <= first.mean && first.mean <= first.max);
    assert!(first.std_dev >= 0);
}

#[test]
fn simulator_zero_variation_sums_the_values() {
    let values = vec![units(10), units(20)];
    let grid = vec![vec![0i128, 0i128]];
    let stats = run_monte_carlo_simulation(&values, &grid).unwrap();
    assert_eq!(stats.mean, units(30));
    assert_eq!(stats.min, units(30));
    assert_eq!(stats.max, units(30));
    assert_eq!(stats.std_dev, 0);
}

#[test]
fn simulator_statistics_over_two_iterations() {
    let values = vec![units(100)];
    // One iteration raises the value by ten percent, the other lowers it.
    let grid = vec![vec![100_000i128], vec![-100_000i128]];
    let stats = run_monte_carlo_simulation(&values, &grid).unwrap();
    assert_eq!(stats.mean, units(100));
    assert_eq!(stats.min, units(90));
    assert_eq!(stats.max, units(110));
    // Population deviation of {110, 90} around 100 is 10 units.
    assert_eq!(stats.std_dev, units(10));
}

#[test]
fn simulator_empty_grid_is_invalid() {
    let values = vec![units(10)];
    let grid: Vec<Vec<i128>> = vec![];
    assert_eq!(run_monte_carlo_simulation(&values, &grid), Err(EngineError::InvalidInput));
}
