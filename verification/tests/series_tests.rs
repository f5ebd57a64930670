use lau_complex_analysis::argument::rouche_bounds;
use lau_complex_analysis::cauchy::CauchyIntegral;
use lau_complex_analysis::holomorphic::scan_grid;
use lau_complex_analysis::integration::{parametric_nodes, polygon_edge, ContourIntegrator};
use lau_complex_analysis::magnitude::INFINITE;
use lau_complex_analysis::residue::{pole_order, Residue, SingularityType};
use lau_complex_analysis::series::LaurentSeries;
use num_complex::Complex64;
use std::cell::Cell;

fn c(re: f64, im: f64) -> Complex64 {
    Complex64::new(re, im)
}

fn series(n_min: i32, coefficients: Vec<Complex64>) -> LaurentSeries<Complex64, f64> {
    let n_max = n_min + coefficients.len() as i32 - 1;
    LaurentSeries {
        center: c(0.0, 0.0),
        coefficients,
        n_min,
        n_max,
        inner_radius: 0.1,
        outer_radius: 2.0,
    }
}

/// The expansion of 1/z around 0 over orders -3..=3.
fn one_over_z() -> LaurentSeries<Complex64, f64> {
    let mut coefficients = vec![c(0.0, 0.0); 7];
    coefficients[2] = c(1.0, 0.0);
    series(-3, coefficients)
}

#[test]
fn integrator_and_cauchy_defaults() {
    assert_eq!(ContourIntegrator::default().n_points, 10000);
    assert_eq!(ContourIntegrator::new(50000).n_points, 50000);
    assert_eq!(CauchyIntegral::default().integrator().n_points, 50000);
    assert_eq!(CauchyIntegral::new(30000).integrator().n_points, 30000);
}

#[test]
fn laurent_coefficient_by_order() {
    let ls = one_over_z();
    assert_eq!(ls.coefficient(-1), Some(c(1.0, 0.0)));
    assert_eq!(ls.coefficient(0), Some(c(0.0, 0.0)));
    assert_eq!(ls.coefficient(-3), Some(c(0.0, 0.0)));
    assert_eq!(ls.coefficient(3), Some(c(0.0, 0.0)));
    assert_eq!(ls.coefficient(4), None);
    assert_eq!(ls.coefficient(-4), None);
    assert_eq!(ls.coefficient(i32::MAX - 3), None);
}

#[test]
fn laurent_principal_part_holds_the_negative_orders() {
    let mut coefficients = vec![c(0.0, 0.0); 7];
    coefficients[1] = c(1.0, 0.0);
    let ls = series(-3, coefficients);
    let pp = ls.principal_part();
    assert_eq!(pp, vec![(-3, c(0.0, 0.0)), (-2, c(1.0, 0.0)), (-1, c(0.0, 0.0))]);
    // an expansion that starts at order 2 has no principal part
    assert!(series(2, vec![c(1.0, 0.0); 3]).principal_part().is_empty());
    // one that ends below order 0 is all principal part
    let all = series(-10, vec![c(2.0, 0.0), c(3.0, 0.0)]);
    assert_eq!(all.principal_part(), vec![(-10, c(2.0, 0.0)), (-9, c(3.0, 0.0))]);
}

#[test]
fn pole_order_is_the_lowest_significant_negative_order() {
    // orders -5..=5
    let mut significant = vec![false; 11];
    assert_eq!(pole_order(-5, &significant), None);
    significant[4] = true; // order -1
    assert_eq!(pole_order(-5, &significant), Some(1));
    significant[2] = true; // order -3
    assert_eq!(pole_order(-5, &significant), Some(3));
    // significant coefficients of order 0 and above do not make a pole
    let mut regular = vec![false; 11];
    regular[5] = true;
    regular[10] = true;
    assert_eq!(pole_order(-5, &regular), None);
}

#[test]
fn singularity_kinds_by_pole_order() {
    assert_eq!(SingularityType::from_pole_order(None), SingularityType::Removable);
    assert_eq!(SingularityType::from_pole_order(Some(1)), SingularityType::SimplePole);
    assert_eq!(SingularityType::from_pole_order(Some(2)), SingularityType::PoleOfOrder(2));
    assert_eq!(SingularityType::from_pole_order(Some(5)), SingularityType::PoleOfOrder(5));
    assert_eq!(SingularityType::from_pole_order(Some(6)), SingularityType::EssentialSingularity);
}

#[test]
fn classify_a_simple_pole() {
    let ls = one_over_z();
    let significant: Vec<bool> = ls.coefficients.iter().map(|a| a.norm() > 1e-10).collect();
    let s = Residue::classify_expansion(c(0.0, 0.0), &ls, &significant, c(0.0, 0.0));
    assert_eq!(s.singularity_type, SingularityType::SimplePole);
    assert_eq!(s.order, Some(1));
    assert_eq!(s.residue, c(1.0, 0.0));
    assert_eq!(s.point, c(0.0, 0.0));
}

#[test]
fn classify_a_removable_singularity() {
    // sin(z)/z = 1 - z^2/6 + ...
    let mut coefficients = vec![c(0.0, 0.0); 11];
    coefficients[5] = c(1.0, 0.0);
    coefficients[7] = c(-1.0 / 6.0, 0.0);
    let ls = series(-5, coefficients);
    let significant: Vec<bool> = ls.coefficients.iter().map(|a| a.norm() > 1e-10).collect();
    let s = Residue::classify_expansion(c(0.0, 0.0), &ls, &significant, c(0.0, 0.0));
    assert_eq!(s.singularity_type, SingularityType::Removable);
    assert_eq!(s.order, None);
    assert_eq!(s.residue, c(0.0, 0.0));
}

#[test]
fn classify_without_a_residue_coefficient_uses_zero() {
    let ls = series(0, vec![c(1.0, 0.0), c(2.0, 0.0)]);
    let s = Residue::classify_expansion(c(1.0, 1.0), &ls, &vec![true, true], c(0.0, 0.0));
    assert_eq!(s.singularity_type, SingularityType::Removable);
    assert_eq!(s.residue, c(0.0, 0.0));
    assert_eq!(s.point, c(1.0, 1.0));
}

#[test]
fn classify_high_order_as_essential() {
    let mut significant = vec![false; 8];
    significant[1] = true; // order -6
    let ls = series(-7, vec![c(1.0, 0.0); 8]);
    let s = Residue::classify_expansion(c(0.0, 0.0), &ls, &significant, c(0.0, 0.0));
    assert_eq!(s.order, Some(6));
    assert_eq!(s.singularity_type, SingularityType::EssentialSingularity);
}

#[test]
fn polygon_edges_wrap_around() {
    assert_eq!(polygon_edge(0, 4), (0, 1));
    assert_eq!(polygon_edge(2, 4), (2, 3));
    assert_eq!(polygon_edge(3, 4), (3, 0));
    assert_eq!(polygon_edge(4, 4), (3, 0));
    assert_eq!(polygon_edge(usize::MAX, 4), (3, 0));
    assert_eq!(polygon_edge(0, 1), (0, 0));
}

#[test]
fn parametric_nodes_clamp_to_the_last_sample() {
    assert_eq!(parametric_nodes(0, 5), (0, 1));
    assert_eq!(parametric_nodes(3, 5), (3, 4));
    assert_eq!(parametric_nodes(4, 5), (4, 4));
    assert_eq!(parametric_nodes(9, 5), (4, 4));
    assert_eq!(parametric_nodes(0, 1), (0, 0));
}

fn norm_key(x: f64) -> Option<u64> {
    if x.is_nan() {
        None
    } else {
        Some(x.to_bits())
    }
}

#[test]
fn rouche_condition_on_the_unit_circle() {
    // f(z) = 5z^3 + z, g(z) = 5z^3 on |z| = 1: |f - g| = 1 < 4 <= |f|
    let n = 1000;
    let mut diffs = Vec::new();
    let mut f_norms = Vec::new();
    for k in 0..n {
        let theta = 2.0 * std::f64::consts::PI * (k as f64) / (n as f64);
        let z = Complex64::from_polar(1.0, theta);
        let fz = 5.0 * z * z * z + z;
        let gz = 5.0 * z * z * z;
        diffs.push(norm_key((fz - gz).norm()));
        f_norms.push(norm_key(fz.norm()));
    }
    let b = rouche_bounds(&diffs, &f_norms);
    assert!(b.condition_holds);
    assert!((f64::from_bits(b.max_difference) - 1.0).abs() < 1e-9);
    assert!(f64::from_bits(b.min_f_norm) > 3.9);
}

#[test]
fn rouche_condition_fails_when_a_difference_reaches_f() {
    let diffs = vec![norm_key(0.5), norm_key(2.0)];
    let f_norms = vec![norm_key(3.0), norm_key(2.0)];
    let b = rouche_bounds(&diffs, &f_norms);
    assert!(!b.condition_holds);
    let none = rouche_bounds(&vec![], &vec![]);
    assert!(none.condition_holds);
    assert_eq!(none.max_difference, 0);
    assert_eq!(none.min_f_norm, INFINITE);
}

#[test]
fn grid_scan_visits_rows_in_order_and_stops_at_the_first_failure() {
    let calls = Cell::new(0usize);
    let all = scan_grid(2, |_i, _j| {
        calls.set(calls.get() + 1);
        true
    });
    assert!(all);
    assert_eq!(calls.get(), 9);
    let calls = Cell::new(0usize);
    let all = scan_grid(3, |i, j| {
        calls.set(calls.get() + 1);
        !(i == 1 && j == 2)
    });
    assert!(!all);
    assert_eq!(calls.get(), 4 + 3);
    assert!(!scan_grid(0, |_, _| false));
    assert!(scan_grid(0, |_, _| true));
}

#[test]
fn principal_part_terms_are_the_coefficients_of_their_orders() {
    let coefficients: Vec<Complex64> = (0..9).map(|k| c(k as f64, -(k as f64))).collect();
    let ls = series(-4, coefficients);
    let pp = ls.principal_part();
    assert_eq!(pp.len(), 4);
    for &(n, a) in &pp {
        assert!(n < 0);
        assert_eq!(ls.coefficient(n), Some(a));
    }
    for n in -4..0 {
        let a = ls.coefficient(n).unwrap();
        assert!(pp.contains(&(n, a)));
    }
}

#[test]
fn rouche_condition_bounds_every_sample() {
    let diffs: Vec<Option<u64>> = [0.5, 1.0, 0.25, f64::NAN].iter().map(|&x| norm_key(x)).collect();
    let f_norms: Vec<Option<u64>> = [2.0, 1.5, f64::NAN, 3.0].iter().map(|&x| norm_key(x)).collect();
    let b = rouche_bounds(&diffs, &f_norms);
    assert!(b.condition_holds);
    for k in 0..diffs.len() {
        if let (Some(d), Some(f)) = (diffs[k], f_norms[k]) {
            assert!(f64::from_bits(d) < f64::from_bits(f));
        }
    }
}
