//! Checks of the peer utilities: allocation, eco-efficiency, matrix
//! operations, and particle statistics, with values in millionths.

use finmetrics::environmental::{
    calculate_allocation, calculate_eco_efficiency_matrix, calculate_efficiency,
    calculate_hybrid_allocation,
};
use finmetrics::fixed::{EngineError, SCALE};
use finmetrics::matrix_ops::{matrix_inverse, matrix_multiply};
use finmetrics::particles::{
    analyze_particle_distribution, calculate_protein_recovery,
    calculate_separation_efficiency,
};

fn units(x: i128) -> i128 {
    x * SCALE
}

#[test]
fn allocation_shares_impacts_by_value() {
    let impacts = vec![units(10), units(20)];
    let values = vec![units(30), units(10)];
    let factors = calculate_allocation(&impacts, &values).unwrap();
    assert_eq!(factors, vec![7_500_000, 5_000_000]);
}

#[test]
fn allocation_rejects_non_positive_total() {
    let impacts = vec![units(10), units(20)];
    let values = vec![units(5), units(-5)];
    assert_eq!(calculate_allocation(&impacts, &values), Err(EngineError::InvalidInput));
}

#[test]
fn hybrid_allocation_blends_and_clamps_the_weight() {
    let mass = vec![units(2), units(4)];
    let econ = vec![units(10), units(20)];
    let half = calculate_hybrid_allocation(&mass, &econ, 500_000);
    assert_eq!(half, vec![units(6), units(12)]);
    let over = calculate_hybrid_allocation(&mass, &econ, units(5));
    assert_eq!(over, mass);
    let under = calculate_hybrid_allocation(&mass, &econ, units(-5));
    assert_eq!(under, econ);
}

#[test]
fn efficiency_is_value_per_impact() {
    assert_eq!(calculate_efficiency(units(10), units(4)), 2_500_000);
    assert_eq!(calculate_efficiency(units(10), 0), 0);
    assert_eq!(calculate_efficiency(units(10), units(-3)), 0);
}

#[test]
fn eco_efficiency_matrix_is_element_wise() {
    let values = vec![units(10), units(9), units(3)];
    let impacts = vec![units(4), units(-1), units(2)];
    let result = calculate_eco_efficiency_matrix(&values, &impacts);
    assert_eq!(result, vec![2_500_000, 0, 1_500_000]);
}

#[test]
fn protein_recovery_combines_three_factors() {
    assert_eq!(calculate_protein_recovery(units(80), units(50), 900_000), units(36));
}

#[test]
fn separation_efficiency_clamps_into_unit_interval() {
    assert_eq!(calculate_separation_efficiency(units(10), units(4), units(5), units(8)),
        640_000);
    assert_eq!(calculate_separation_efficiency(0, units(4), units(5), units(8)), 0);
    assert_eq!(calculate_separation_efficiency(units(10), units(40), units(5), units(8)),
        SCALE);
}

#[test]
fn matrix_multiply_two_by_two() {
    let a = vec![units(1), units(2), units(3), units(4)];
    let b = vec![units(5), units(6), units(7), units(8)];
    let c = matrix_multiply(&a, &b, 2, 2, 2);
    assert_eq!(c, vec![units(19), units(22), units(43), units(50)]);
}

#[test]
fn matrix_inverse_of_a_diagonal_matrix() {
    let m = vec![units(2), 0, 0, units(4)];
    let inv = matrix_inverse(&m, 2).unwrap();
    assert_eq!(inv, vec![500_000, 0, 0, 250_000]);
}

#[test]
fn matrix_inverse_of_the_identity_is_the_identity() {
    let m = vec![SCALE, 0, 0, SCALE];
    assert_eq!(matrix_inverse(&m, 2), Ok(vec![SCALE, 0, 0, SCALE]));
}

#[test]
fn matrix_inverse_rejects_a_singular_matrix() {
    let m = vec![0, 0, 0, 0];
    assert_eq!(matrix_inverse(&m, 2), Err(EngineError::Singular));
}

#[test]
fn particle_distribution_weighted_statistics() {
    let sizes = vec![units(10), units(30), units(20)];
    let weights = vec![units(1), units(1), units(2)];
    let stats = analyze_particle_distribution(&sizes, &weights).unwrap();
    assert_eq!(stats.mean, units(20));
    assert_eq!(stats.d10, units(10));
    assert_eq!(stats.d50, units(15));
    assert_eq!(stats.d90, units(26));
    assert_eq!(stats.std_dev, 7_071_067);
}

#[test]
fn particle_distribution_single_pair() {
    let sizes = vec![units(5)];
    let weights = vec![units(2)];
    let stats = analyze_particle_distribution(&sizes, &weights).unwrap();
    assert_eq!(stats.d10, units(5));
    assert_eq!(stats.d50, units(5));
    assert_eq!(stats.d90, units(5));
    assert_eq!(stats.mean, units(5));
    assert_eq!(stats.std_dev, 0);
}

#[test]
fn particle_distribution_rejects_empty_or_weightless_input() {
    let empty: Vec<i128> = vec![];
    assert_eq!(analyze_particle_distribution(&empty, &empty),
        Err(EngineError::InvalidInput));
    let sizes = vec![units(10)];
    let weights = vec![0i128];
    assert_eq!(analyze_particle_distribution(&sizes, &weights),
        Err(EngineError::InvalidInput));
}
