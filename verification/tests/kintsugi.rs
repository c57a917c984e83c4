use plato_mythos_bridge::kintsugi_health::{Fraction, GoldenSeam, HealthReport, HealthStatus, KintsugiHealth};

/// A real score (1.0 is whole) in basis points.
fn bp(x: f64) -> u32 {
    (x * 10000.0).round() as u32
}

/// A score in basis points, as a real number.
fn score(x: u32) -> f64 {
    x as f64 / 10000.0
}

/// A beauty in hundred-thousandths, as a real number.
fn beauty(x: u32) -> f64 {
    x as f64 / 100000.0
}

/// An exact fraction as a real number.
fn as_real(f: Fraction) -> f64 {
    f.numerator as f64 / f.denominator as f64
}

/// A metric reading in thousandths.
fn milli(x: f64) -> i64 {
    (x * 1000.0).round() as i64
}

fn report(component: &str, status: HealthStatus, message: &str) -> HealthReport {
    HealthReport { component: component.into(), status, message: message.into(), metric_value: None }
}

#[test]
fn kintsugi_new_is_empty() {
    let k = KintsugiHealth::new();
    assert!(k.seams().is_empty());
}

#[test]
fn kintsugi_healthy_report() {
    let mut k = KintsugiHealth::new();
    let report = HealthReport {
        component: "room-A".into(),
        status: HealthStatus::Healthy,
        message: "All good".into(),
        metric_value: Some(milli(99.9)),
    };
    let seam = k.health_as_repair(&report);
    assert_eq!(score(seam.severity), 0.0);
    assert_eq!(score(seam.repair_quality), 1.0);
    assert_eq!(seam.position, "room-A");
}

#[test]
fn kintsugi_faulted_report() {
    let mut k = KintsugiHealth::new();
    let report = HealthReport {
        component: "room-B".into(),
        status: HealthStatus::Faulted,
        message: "Disk failure".into(),
        metric_value: None,
    };
    let seam = k.health_as_repair(&report);
    assert!((score(seam.severity) - 0.9).abs() < 0.01);
    assert!(score(seam.repair_quality) < 1.0);
}

#[test]
fn kintsugi_degraded_severity() {
    let status = HealthStatus::Degraded;
    assert!((score(status.severity()) - 0.4).abs() < 0.01);
}

#[test]
fn kintsugi_unknown_severity() {
    let status = HealthStatus::Unknown;
    assert!((score(status.severity()) - 0.6).abs() < 0.01);
}

#[test]
fn kintsugi_beauty_increases_with_experience() {
    let mut k = KintsugiHealth::new();
    let report = report("x", HealthStatus::Faulted, "err");
    let first = k.health_as_repair(&report);
    let second = k.health_as_repair(&report);
    assert!(second.repair_quality >= first.repair_quality);
}

#[test]
fn kintsugi_system_beauty_untested() {
    let k = KintsugiHealth::new();
    assert!((as_real(k.system_beauty()) - 0.5).abs() < 0.01);
}

#[test]
fn kintsugi_repair_all() {
    let mut k = KintsugiHealth::new();
    let reports = vec![report("a", HealthStatus::Healthy, "ok"), report("b", HealthStatus::Degraded, "slow")];
    let seams = k.repair_all(&reports);
    assert_eq!(seams.len(), 2);
    assert_eq!(k.seams().len(), 2);
}

#[test]
fn kintsugi_severity_distribution() {
    let mut k = KintsugiHealth::new();
    k.health_as_repair(&report("a", HealthStatus::Healthy, "ok"));
    k.health_as_repair(&report("b", HealthStatus::Degraded, "slow"));
    k.health_as_repair(&report("c", HealthStatus::Faulted, "dead"));
    let (low, mid, high) = k.severity_distribution();
    assert_eq!(low, 1);
    assert_eq!(mid, 1);
    assert_eq!(high, 1);
}

#[test]
fn kintsugi_golden_seam_beauty() {
    let seam = GoldenSeam {
        severity: bp(0.9),
        position: "test".into(),
        repair_quality: bp(1.0),
        repaired_at: 0,
        description: "perfect repair".into(),
    };
    assert!(beauty(seam.beauty()) > 0.8);
}

#[test]
fn kintsugi_default() {
    let k = KintsugiHealth::default();
    assert!(k.seams().is_empty());
}

#[test]
fn kintsugi_beauty_formula_exact() {
    // 0.4 * 0.5 + 0.6 * 0.25 = 0.35
    let seam = GoldenSeam {
        severity: 5000,
        position: "p".into(),
        repair_quality: 2500,
        repaired_at: 0,
        description: "d".into(),
    };
    assert_eq!(seam.beauty(), 35000);
}

#[test]
fn kintsugi_beauty_is_capped() {
    let seam = GoldenSeam {
        severity: 20000,
        position: "p".into(),
        repair_quality: 20000,
        repaired_at: 0,
        description: "d".into(),
    };
    assert_eq!(seam.beauty(), 100000);
}

#[test]
fn kintsugi_quality_grows_then_caps() {
    let mut k = KintsugiHealth::new();
    let r = report("x", HealthStatus::Faulted, "err");
    let mut qualities = Vec::new();
    for _ in 0..20 {
        qualities.push(k.health_as_repair(&r).repair_quality);
    }
    // 0.3 at first, 0.02 better per earlier repair, at most 0.3 better.
    assert_eq!(qualities[0], 3000);
    assert_eq!(qualities[1], 3200);
    assert_eq!(qualities[15], 6000);
    assert_eq!(qualities[19], 6000);
    for w in qualities.windows(2) {
        assert!(w[0] <= w[1]);
    }
}

#[test]
fn kintsugi_degraded_quality_caps_at_one() {
    let mut k = KintsugiHealth::new();
    let r = report("x", HealthStatus::Degraded, "slow");
    let mut last = 0;
    for _ in 0..30 {
        last = k.health_as_repair(&r).repair_quality;
    }
    assert_eq!(last, 9000);
    let u = report("y", HealthStatus::Unknown, "?");
    assert_eq!(k.health_as_repair(&u).repair_quality, 8000);
}

#[test]
fn kintsugi_repair_at_keeps_time_and_text() {
    let mut k = KintsugiHealth::new();
    let seam = k.health_as_repair_at(&report("room-Z", HealthStatus::Unknown, "odd"), 1234);
    assert_eq!(seam.repaired_at, 1234);
    assert_eq!(seam.description, "odd");
    assert_eq!(seam.severity, 6000);
    assert_eq!(seam.repair_quality, 5000);
    assert_eq!(k.seams()[0].position, "room-Z");
}

#[test]
fn kintsugi_system_beauty_exact() {
    let mut k = KintsugiHealth::new();
    k.health_as_repair_at(&report("a", HealthStatus::Healthy, "ok"), 0);
    k.health_as_repair_at(&report("b", HealthStatus::Faulted, "dead"), 0);
    // beauties: 0.6 and 0.4*0.9 + 0.6*0.32 = 0.552; average 0.576, plus 0.02 for two seams
    assert_eq!(k.system_beauty(), Fraction { numerator: 60000 + 55200 + 2 * 2000, denominator: 200000 });
    assert!((as_real(k.system_beauty()) - 0.596).abs() < 1e-12);
}

#[test]
fn kintsugi_distribution_bands_partition() {
    let mut k = KintsugiHealth::new();
    for s in [HealthStatus::Healthy, HealthStatus::Unknown, HealthStatus::Unknown, HealthStatus::Faulted] {
        k.health_as_repair_at(&report("c", s, "m"), 7);
    }
    let (low, mid, high) = k.severity_distribution();
    assert_eq!((low, mid, high), (1, 2, 1));
    assert_eq!(low + mid + high, k.seams().len());
}

#[test]
fn kintsugi_repair_count_follows_repairs() {
    let mut k = KintsugiHealth::new();
    assert_eq!(k.repair_count(), 0);
    k.repair_all(&[report("a", HealthStatus::Degraded, "x"), report("b", HealthStatus::Healthy, "y")]);
    assert_eq!(k.repair_count(), 2);
    assert_eq!(k.seams().len(), 2);
}

#[test]
fn kintsugi_clock_stamp_is_unix_seconds() {
    let before = std::time::SystemTime::now()
        .duration_since(std::time::UNIX_EPOCH)
        .unwrap()
        .as_secs();
    let mut k = KintsugiHealth::new();
    let seam = k.health_as_repair(&report("c", HealthStatus::Faulted, "disk"));
    let after = std::time::SystemTime::now()
        .duration_since(std::time::UNIX_EPOCH)
        .unwrap()
        .as_secs();
    assert!(before <= seam.repaired_at && seam.repaired_at <= after);
    assert!(seam.repaired_at > 1_000_000_000);
}

#[test]
fn kintsugi_one_repair_beats_untested() {
    let mut k = KintsugiHealth::new();
    assert_eq!(k.system_beauty(), Fraction { numerator: 1, denominator: 2 });
    k.health_as_repair_at(&report("d", HealthStatus::Degraded, "slow"), 3);
    // 0.4*0.4 + 0.6*0.6 = 0.52, plus 0.01 for one seam
    assert_eq!(k.system_beauty(), Fraction { numerator: 53000, denominator: 100000 });
    assert!(as_real(k.system_beauty()) > 0.5);
}

#[test]
fn kintsugi_beauty_and_system_beauty_are_exact() {
    // severity 0.0001, quality 0: beauty 0.00004
    let seam = GoldenSeam {
        severity: 1,
        position: "p".into(),
        repair_quality: 0,
        repaired_at: 0,
        description: "d".into(),
    };
    assert_eq!(seam.beauty(), 4);
    // healthy, faulted and degraded repairs: beauties 0.6, 0.552 (0.4*0.9 + 0.6*0.32)
    // and 0.544 (0.4*0.4 + 0.6*0.64); mean 0.565333..., plus 0.03
    let mut k = KintsugiHealth::new();
    k.health_as_repair_at(&report("a", HealthStatus::Healthy, "ok"), 0);
    k.health_as_repair_at(&report("b", HealthStatus::Faulted, "dead"), 0);
    k.health_as_repair_at(&report("c", HealthStatus::Degraded, "slow"), 0);
    let b = k.system_beauty();
    assert_eq!(b, Fraction { numerator: 60000 + 55200 + 54400 + 3 * 3000, denominator: 300000 });
    assert!((as_real(b) - 0.5953333333333333).abs() < 1e-12);
}
