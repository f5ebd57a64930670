use lau_complex_analysis::agent_frequency::{
    admissible_period,
    dominant_bin,
    dominant_peaks,
    find_peaks,
    rank_peaks,
    spectral_radius,
    unstable_poles,
    AgentFrequencyAnalysis,
    MAX_REPORTED_PEAKS,
};
use lau_complex_analysis::magnitude::{largest, smallest, INFINITE, PEAK_FLOOR, UNIT};
use num_complex::Complex64;

fn key(x: f64) -> Option<u64> {
    if x.is_nan() {
        None
    } else {
        Some(x.to_bits())
    }
}

fn keys(xs: &[f64]) -> Vec<Option<u64>> {
    xs.iter().map(|&x| key(x)).collect()
}

#[test]
fn constants_are_the_bit_patterns_of_their_doubles() {
    assert_eq!(PEAK_FLOOR, 0.01f64.to_bits());
    assert_eq!(UNIT, 1.0f64.to_bits());
    assert_eq!(INFINITE, f64::INFINITY.to_bits());
}

#[test]
fn keys_order_like_non_negative_doubles() {
    let xs = [0.0, 1e-300, 0.01, 0.5, 1.0, 3.25, 1e300, f64::INFINITY];
    for i in 0..xs.len() {
        for j in 0..xs.len() {
            assert_eq!(xs[i] < xs[j], xs[i].to_bits() < xs[j].to_bits());
        }
    }
}

#[test]
fn analysis_defaults() {
    assert_eq!(AgentFrequencyAnalysis::default().n_frequency_bins, 256);
    assert_eq!(AgentFrequencyAnalysis::new(128).n_frequency_bins, 128);
}

#[test]
fn peaks_are_strict_interior_maxima_above_the_floor() {
    // bins:        0    1    2    3     4    5    6     7    8
    let s = keys(&[5.0, 1.0, 2.0, 1.0, 0.005, 0.0, 3.0, 3.0, 0.0]);
    // bin 2 is a peak; bin 4 lies below the floor; bins 6 and 7 tie; bin 0 is an edge
    assert_eq!(find_peaks(&s), vec![2]);
    let s = keys(&[0.0, 0.5, 0.0, 0.009, 0.0, 0.02, 0.0]);
    assert_eq!(find_peaks(&s), vec![1, 5]);
}

#[test]
fn a_value_that_is_not_a_number_is_never_a_peak_nor_beaten() {
    let s = keys(&[0.0, f64::NAN, 0.0, 1.0, f64::NAN, 2.0, 0.0]);
    // bins 3 and 5 would be peaks, but neither exceeds the NaN in bin 4
    assert!(find_peaks(&s).is_empty());
    let s = keys(&[1.0]);
    assert!(find_peaks(&s).is_empty());
}

#[test]
fn ranking_is_by_descending_magnitude_then_by_bin() {
    let s = keys(&[0.0, 2.0, 0.0, 5.0, 0.0, 2.0, 0.0, 7.0, 0.0]);
    let peaks = find_peaks(&s);
    assert_eq!(peaks, vec![1, 3, 5, 7]);
    assert_eq!(rank_peaks(&s, &peaks), vec![7, 3, 1, 5]);
}

#[test]
fn dominant_peaks_keep_the_strongest_ten() {
    // 12 peaks at odd bins with magnitudes 1..=12, the strongest at the lowest bins
    let mut m = vec![0.0f64; 25];
    for p in 0..12 {
        m[2 * p + 1] = (12 - p) as f64;
    }
    let top = dominant_peaks(&keys(&m));
    assert_eq!(top.len(), MAX_REPORTED_PEAKS);
    assert_eq!(top, vec![1, 3, 5, 7, 9, 11, 13, 15, 17, 19]);
    let few = dominant_peaks(&keys(&[0.0, 1.0, 0.0, 1.0, 0.0]));
    assert_eq!(few, vec![1, 3]);
}

#[test]
fn dominant_bin_is_the_first_interior_maximum() {
    let s = keys(&[9.0, 1.0, 4.0, 4.0, 2.0, 9.0]);
    assert_eq!(dominant_bin(&s), Some(2));
    let quiet = keys(&[9.0, 0.001, 0.009, 9.0]);
    assert_eq!(dominant_bin(&quiet), None);
    assert_eq!(dominant_bin(&keys(&[])), None);
    assert_eq!(dominant_bin(&keys(&[1.0, f64::NAN, 0.5, 1.0])), Some(2));
    assert_eq!(dominant_bin(&keys(&[0.0, 0.01, 0.0])), Some(1));
}

#[test]
fn periods_must_be_positive_and_shorter_than_the_signal() {
    assert_eq!(admissible_period(10, 100), Some(10));
    assert_eq!(admissible_period(0, 100), None);
    assert_eq!(admissible_period(100, 100), None);
    assert_eq!(admissible_period(101, 100), None);
}

fn moduli(poles: &[Complex64]) -> Vec<Option<u64>> {
    poles.iter().map(|p| key(p.norm())).collect()
}

#[test]
fn stable_poles() {
    let m = moduli(&[Complex64::new(0.5, 0.0), Complex64::new(0.3, 0.4)]);
    assert!(unstable_poles(&m).is_empty());
    let r = f64::from_bits(spectral_radius(&m));
    assert!(r < 1.0);
    assert!((r - 0.5).abs() < 1e-12);
}

#[test]
fn unstable_poles_are_listed() {
    let m = moduli(&[Complex64::new(0.5, 0.0), Complex64::new(1.2, 0.0)]);
    assert_eq!(unstable_poles(&m), vec![1]);
    let m = moduli(&[Complex64::new(0.5, 0.0), Complex64::new(1.5, 0.0)]);
    assert_eq!(unstable_poles(&m).len(), 1);
    assert_eq!(f64::from_bits(spectral_radius(&m)), 1.5);
    let m = moduli(&[Complex64::new(1.0, 0.0), Complex64::new(0.0, -2.0), Complex64::new(0.1, 0.0)]);
    assert_eq!(unstable_poles(&m), vec![0, 1]);
}

#[test]
fn stability_agrees_with_the_spectral_radius() {
    let sets: Vec<Vec<f64>> = vec![
        vec![],
        vec![0.999],
        vec![1.0],
        vec![0.2, 0.7, 0.3],
        vec![0.2, 4.0, f64::NAN],
        vec![f64::NAN],
    ];
    for set in sets {
        let m = keys(&set);
        let stable = unstable_poles(&m).is_empty();
        assert_eq!(stable, spectral_radius(&m) < UNIT);
    }
}

#[test]
fn spectral_radius_of_no_poles_is_zero() {
    assert_eq!(spectral_radius(&vec![]), 0);
    assert_eq!(spectral_radius(&vec![None, None]), 0);
}

#[test]
fn extremes_pass_over_values_that_are_not_numbers() {
    let k = keys(&[0.5, f64::NAN, 2.0, 0.25]);
    assert_eq!(f64::from_bits(largest(&k)), 2.0);
    assert_eq!(f64::from_bits(smallest(&k)), 0.25);
    assert_eq!(smallest(&vec![]), INFINITE);
    assert_eq!(smallest(&vec![None]), INFINITE);
}
