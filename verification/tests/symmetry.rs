use plato_mythos_bridge::symmetry_detection::{SymmetryDetection, SymmetryGroup, PERFECT};

/// A real value, in millionths.
fn micro(x: f64) -> i64 {
    (x * 1_000_000.0).round() as i64
}

fn series(xs: &[f64]) -> Vec<i64> {
    xs.iter().map(|&x| micro(x)).collect()
}

/// A strength in units of `1 / PERFECT`, as a real number.
fn unit_value(x: u64) -> f64 {
    x as f64 / PERFECT as f64
}

/// A real strength in units of `1 / PERFECT`.
fn threshold(x: f64) -> u64 {
    (x * PERFECT as f64).round() as u64
}

/// `a / b` rounded up.
fn ceil_div(a: u128, b: u128) -> u128 {
    (a + b - 1) / b
}

#[test]
fn symmetry_mirror_perfect() {
    let det = SymmetryDetection::new(threshold(0.3));
    // Perfect mirror: [1, 2, 3, 3, 2, 1]
    let data = series(&[1.0, 2.0, 3.0, 3.0, 2.0, 1.0]);
    let sym = det.detect_metric_symmetry(&data);
    assert!(unit_value(sym.strength()) > 0.8);
}

#[test]
fn symmetry_noisy_data() {
    let det = SymmetryDetection::new(threshold(0.95));
    let data = series(&[1.0, 5.0, 2.0, 8.0, 3.0, 7.0, 4.0, 6.0]);
    let sym = det.detect_metric_symmetry(&data);
    // Very high threshold — random data should not pass
    assert!(unit_value(sym.strength()) < 0.95 || matches!(sym, SymmetryGroup::NoSymmetry));
}

#[test]
fn symmetry_too_short() {
    let det = SymmetryDetection::new(threshold(0.3));
    let data = series(&[1.0, 2.0]);
    let sym = det.detect_metric_symmetry(&data);
    assert_eq!(sym, SymmetryGroup::NoSymmetry);
}

#[test]
fn symmetry_health_score() {
    let det = SymmetryDetection::new(threshold(0.3));
    let data = series(&[1.0, 2.0, 3.0, 3.0, 2.0, 1.0]);
    let score = det.symmetry_health_score(&data);
    assert!(unit_value(score) > 0.5);
}

#[test]
fn symmetry_group_strength() {
    let sym = SymmetryGroup::Translational { period: 4, strength: threshold(0.75) };
    assert!((unit_value(sym.strength()) - 0.75).abs() < 0.01);
}

#[test]
fn symmetry_significance() {
    let sym = SymmetryGroup::Mirror { center_index: 3, strength: threshold(0.5) };
    assert!(sym.is_significant(threshold(0.3)));
    assert!(!sym.is_significant(threshold(0.6)));
}

#[test]
fn symmetry_translational_periodic() {
    let det = SymmetryDetection::new(threshold(0.3));
    // Periodic with period 2
    let data = series(&[1.0, 2.0, 1.0, 2.0, 1.0, 2.0, 1.0, 2.0]);
    let sym = det.detect_metric_symmetry(&data);
    assert!(unit_value(sym.strength()) > 0.5);
}

#[test]
fn symmetry_constant_series() {
    let det = SymmetryDetection::new(threshold(0.3));
    let data = series(&[5.0; 10]);
    let sym = det.detect_metric_symmetry(&data);
    // Constant series has perfect symmetry of all types
    assert!(unit_value(sym.strength()) > 0.9);
}

#[test]
fn symmetry_default() {
    let det = SymmetryDetection::default();
    let data = series(&[1.0, 2.0, 3.0, 4.0, 5.0, 6.0]);
    let sym = det.detect_metric_symmetry(&data);
    // Just check it doesn't panic
    assert!(unit_value(sym.strength()) >= 0.0);
}

#[test]
fn symmetry_empty_data() {
    let det = SymmetryDetection::new(threshold(0.3));
    let data: Vec<i64> = vec![];
    let sym = det.detect_metric_symmetry(&data);
    assert_eq!(sym, SymmetryGroup::NoSymmetry);
}

#[test]
fn symmetry_constant_series_is_combined_and_perfect() {
    let det = SymmetryDetection::new(threshold(0.3));
    let sym = det.detect_metric_symmetry(&series(&[5.0; 10]));
    match sym {
        SymmetryGroup::Combined { groups, overall_strength } => {
            assert_eq!(overall_strength, PERFECT);
            assert_eq!(groups.len(), 3);
            assert_eq!(*groups[0], SymmetryGroup::Mirror { center_index: 5, strength: PERFECT });
            assert_eq!(*groups[1], SymmetryGroup::Translational { period: 2, strength: PERFECT });
            assert_eq!(*groups[2], SymmetryGroup::Rotational { shift: 1, strength: PERFECT });
        }
        other => panic!("expected a combination, got {:?}", other),
    }
}

#[test]
fn symmetry_mirror_exact_strength() {
    // len 6: center 3, pairs (0,5), (1,4) and (2,3); errors 0, |2-6|/8 = 0.5 and
    // |9-7|/16 = 0.125, averaged (rounded up): strength 1 - 0.625/3
    let det = SymmetryDetection::new(threshold(0.99));
    let data = vec![1, 2, 9, 7, 6, 1];
    let mirror_only = det.detect_metric_symmetry(&data);
    assert_eq!(mirror_only, SymmetryGroup::NoSymmetry);
    let det = SymmetryDetection::new(0);
    match det.detect_metric_symmetry(&data) {
        SymmetryGroup::Combined { groups, .. } => {
            let one = PERFECT as u128;
            let expected = one - ceil_div(one / 2 + one / 8, 3);
            assert_eq!(*groups[0], SymmetryGroup::Mirror { center_index: 3, strength: expected as u64 });
            assert!((unit_value(expected as u64) - (1.0 - 0.625 / 3.0)).abs() < 1e-15);
        }
        other => panic!("expected a combination, got {:?}", other),
    }
}

#[test]
fn symmetry_zero_sum_pairs() {
    // Opposite values sum to zero: a full error each, unless both are zero.
    let det = SymmetryDetection::new(threshold(0.3));
    assert_eq!(det.symmetry_health_score(&[0, 0, 0, 0]), PERFECT);
    let score = det.symmetry_health_score(&[1, -1, 1, -1]);
    assert!(score <= PERFECT);
}

#[test]
fn symmetry_mirror_compares_the_middle_pair() {
    let det = SymmetryDetection::new(0);
    // an even-length series whose middle pair differs is no perfect reflection
    // with no noise threshold every candidate is kept, so the mirror one is listed
    let g = det.detect_metric_symmetry(&[1, 2, 3, 4, 2, 1]);
    let mut mirror = None;
    if let SymmetryGroup::Combined { groups, .. } = &g {
        for b in groups {
            if let SymmetryGroup::Mirror { strength, .. } = **b {
                mirror = Some(strength);
            }
        }
    }
    // pairs (1,1), (2,2), (3,4): errors 0, 0 and 1/7 of a unit (rounded up), averaged
    // over three pairs (rounded up)
    let one = PERFECT as u128;
    let expected = one - ceil_div(ceil_div(one, 7), 3);
    assert_eq!(mirror, Some(expected as u64));
    let palindrome = det.detect_metric_symmetry(&[1, 2, 3, 3, 2, 1]);
    assert!(palindrome.strength() == PERFECT);
}

#[test]
fn symmetry_perfect_only_for_exact_reflections() {
    // 1.000001 against 1: the pair error is tiny but not zero, so the mirror is not perfect
    let det = SymmetryDetection::new(0);
    let g = det.detect_metric_symmetry(&series(&[1.0, 2.0, 3.0, 3.0, 2.0, 1.000001]));
    let mut mirror = None;
    if let SymmetryGroup::Combined { groups, .. } = &g {
        for b in groups {
            if let SymmetryGroup::Mirror { strength, .. } = **b {
                mirror = Some(strength);
            }
        }
    }
    let m = mirror.unwrap();
    assert!(m < PERFECT);
    // one pair of three differs by 1 part in 2000001
    assert!((unit_value(m) - (1.0 - 1.0 / 2000001.0 / 3.0)).abs() < 1e-12);
}
