//! The table-driven evaluator, held to the properties its design
//! promises: table sanity, convergence, periodicity, symmetry, the
//! circle identity, and agreement with an independent reference.

use toymath::backend::Real;
use toymath::decompose::decompose;
use toymath::fixed::{
    Fixed, HALF_PI_UNITS, PI_4_UNITS, PI_UNITS, SCALE, TWO_PI_UNITS,
};
use toymath::table::{build_half_table, build_unit_circle, closest};
use toymath::trig::{TrigEvaluator, DEFAULT_EPSILON_UNITS};

const SIN_PI_4: i64 = 707_106_781_186;

/// Each unit-circle anchor satisfies `sin^2 + cos^2 = 1` within the
/// backend's rounding, and matches an independent reference loosely.
#[test]
fn unit_circle_sanity() {
    let uc = build_unit_circle();
    assert_eq!(uc.len(), 5);
    for entry in &uc {
        let s = entry.sin.v as i128;
        let c = entry.cos.v as i128;
        let norm = s * s + c * c;
        let unit = (SCALE as i128) * (SCALE as i128);
        assert!((norm - unit).abs() <= 2 * SCALE as i128, "entry off the circle");
        let reference = (entry.degree.v as f64 / SCALE as f64).sin();
        let mine = entry.sin.v as f64 / SCALE as f64;
        assert!((mine - reference).abs() < 1e-5);
    }
}

/// The half table ascends strictly, holds no zero entry, and its first
/// entry is within the threshold and above half of it.
#[test]
fn half_table_monotonic() {
    let uc = build_unit_circle();
    let eps = DEFAULT_EPSILON_UNITS;
    let table = build_half_table(&uc, eps);
    assert!(table.len() > 1);
    for w in table.windows(2) {
        assert!(w[0].degree.v < w[1].degree.v);
    }
    for entry in &table {
        assert!(entry.degree.v >= 1);
    }
    assert!(table[0].degree.v <= eps);
    assert!(2 * table[0].degree.v + 1 > eps);
}

/// The decomposer lands within the threshold of every sampled target in
/// `[0, pi/2]`.
#[test]
fn decomposer_convergence() {
    let uc = build_unit_circle();
    let eps = DEFAULT_EPSILON_UNITS;
    let table = build_half_table(&uc, eps);
    let mut t: i64 = 0;
    while t <= HALF_PI_UNITS {
        let target = Fixed { v: t };
        let initial = closest(&uc, target);
        let ka = decompose(&table, eps, target, initial);
        assert!((ka.degree.v - t).abs() <= eps, "missed target {}", t);
        t += 12_345_678_901;
    }
}

/// The concrete anchor scenarios hold exactly: the evaluator returns the
/// anchors' own coordinates there.
#[test]
fn evaluator_scenarios() {
    let ev = TrigEvaluator::with_default_epsilon();
    assert_eq!(ev.sin(Fixed { v: 0 }).v, 0);
    assert_eq!(ev.cos(Fixed { v: 0 }).v, SCALE);
    assert_eq!(ev.sin(Fixed { v: HALF_PI_UNITS }).v, SCALE);
    assert_eq!(ev.cos(Fixed { v: HALF_PI_UNITS }).v, 0);
    assert_eq!(ev.sin(Fixed { v: PI_UNITS }).v, 0);
    assert_eq!(ev.cos(Fixed { v: PI_UNITS }).v, -SCALE);
    let (s, c) = ev.sin_cos(Fixed { v: PI_4_UNITS });
    assert_eq!(s.v, SIN_PI_4);
    assert_eq!(c.v, SIN_PI_4);
}

/// Shifting by whole turns leaves the results bit-for-bit identical.
#[test]
fn periodicity() {
    let ev = TrigEvaluator::with_default_epsilon();
    for k in [-3i64, -1, 1, 2, 5] {
        for x in [0i64, 1_000_000_000, PI_4_UNITS, 999_999_999_999, -777_777_777_777] {
            let (s0, c0) = ev.sin_cos(Fixed { v: x });
            let (s1, c1) = ev.sin_cos(Fixed { v: x + k * TWO_PI_UNITS });
            assert_eq!(s0.v, s1.v);
            assert_eq!(c0.v, c1.v);
        }
    }
}

/// Sine is odd and cosine is even, exactly, away from the quadrant
/// boundaries.
#[test]
fn odd_even_symmetry() {
    let ev = TrigEvaluator::with_default_epsilon();
    for x in [1i64, 123_456_789_012, PI_4_UNITS, 2_000_000_000_000, 5_500_000_000_000] {
        let (s0, c0) = ev.sin_cos(Fixed { v: x });
        let (s1, c1) = ev.sin_cos(Fixed { v: -x });
        assert_eq!(s1.v, -s0.v);
        assert_eq!(c1.v, c0.v);
    }
}

/// `sin^2 + cos^2` stays close to one everywhere.
#[test]
fn pythagorean_identity() {
    let ev = TrigEvaluator::with_default_epsilon();
    let mut x: i64 = -9_000_000_000_000;
    while x < 9_000_000_000_000 {
        let (s, c) = ev.sin_cos(Fixed { v: x });
        let norm = (s.v as i128) * (s.v as i128) + (c.v as i128) * (c.v as i128);
        let unit = (SCALE as i128) * (SCALE as i128);
        assert!((norm - unit).abs() < 1_000_000_000_000_000_000i128, "norm off at {}", x);
        x += 987_654_321_123;
    }
}

/// The evaluator agrees with the host's own sine over `[0, 100]`.
#[test]
fn reference_agreement() {
    let ev = TrigEvaluator::with_default_epsilon();
    for k in 0..200u32 {
        let x = k as f64 * 0.497 + 0.1234;
        let units = (x * SCALE as f64).round() as i64;
        let exact = units as f64 / SCALE as f64;
        let mine = ev.sin(Fixed { v: units }).v as f64 / SCALE as f64;
        let reference = exact.sin();
        assert!((mine - reference).abs() < 1e-6, "off at {}: {} vs {}", x, mine, reference);
    }
}

/// Non-finite arguments propagate as not-a-number; finite ones agree
/// with the plain evaluator.
#[test]
fn boundary_values() {
    let ev = TrigEvaluator::with_default_epsilon();
    assert!(ev.sin_real(Real::nan()).is_nan());
    assert!(ev.cos_real(Real::infinity()).is_nan());
    assert!(ev.sin_real(Real::neg_infinity()).is_nan());
    assert_eq!(ev.sin_real(Real::zero()), Real::zero());
    assert_eq!(ev.cos_real(Real::zero()), Real::from_int(1));
    assert_eq!(
        ev.sin_real(Real::from_units(PI_4_UNITS)),
        Real::from_units(SIN_PI_4)
    );
}
