use waywiserrr::agreement::{gmfr, ssd, spod, spdu, spds};
use waywiserrr::types::StatError;

const SCALE: i128 = 10_000;

#[test]
fn ssd_of_identical_series_is_zero() {
    let x = vec![1, 2, 3, 4];
    assert_eq!(ssd(&x, &x).unwrap(), 0);
}

#[test]
fn ssd_concrete_value() {
    let t = vec![1, 2, 3];
    let e = vec![2, 4, 6];
    assert_eq!(ssd(&t, &e).unwrap(), 1 + 4 + 9);
}

#[test]
fn ssd_is_symmetric() {
    let a = vec![1, 5, 2];
    let b = vec![4, 0, 7];
    assert_eq!(ssd(&a, &b).unwrap(), ssd(&b, &a).unwrap());
    assert_eq!(ssd(&a, &b).unwrap(), 9 + 25 + 25);
}

#[test]
fn ssd_zero_only_for_identical_series() {
    let a = vec![1, 2, 3];
    let b = vec![1, 2, 4];
    assert!(ssd(&a, &b).unwrap() > 0);
}

#[test]
fn ssd_errors() {
    let a = vec![1, 2];
    let b = vec![1, 2, 3];
    assert_eq!(ssd(&a, &b).unwrap_err(), StatError::DimensionMismatch);
    let empty: Vec<i64> = vec![];
    assert_eq!(ssd(&empty, &empty).unwrap_err(), StatError::DegenerateInput);
}

#[test]
fn gmfr_identity_fit_on_same_series() {
    let x = vec![1, 2, 3, 4];
    let (a, b) = gmfr(&x, &x, 1).unwrap();
    assert_eq!(a.num, 0);
    assert_eq!(b.num, SCALE);
    assert_eq!(b.den, SCALE);
    assert_eq!(a.den, SCALE * 4);
}

#[test]
fn gmfr_half_slope_when_estimate_is_double() {
    // estimate = 2 * truth exactly, so the slope is 1/2 and the intercept 0.
    let t = vec![1, 2, 3];
    let e = vec![2, 4, 6];
    let (a, b) = gmfr(&t, &e, 1).unwrap();
    assert_eq!(b.num, SCALE / 2);
    assert_eq!(b.den, SCALE);
    assert_eq!(a.num, 0);
}

#[test]
fn gmfr_negative_sign_reverses_slope() {
    let t = vec![1, 2, 3];
    let e = vec![3, 2, 1];
    let (a, b) = gmfr(&t, &e, -1).unwrap();
    assert_eq!(b.num, -SCALE);
    // intercept is 4: truth = 4 - estimate exactly
    assert_eq!(a.num, 120_000);
    assert_eq!(a.den, SCALE * 3);
}

#[test]
fn gmfr_errors() {
    let t = vec![1, 2, 3];
    let short = vec![1, 2];
    assert_eq!(gmfr(&t, &short, 1).unwrap_err(), StatError::DimensionMismatch);
    let one = vec![5];
    assert_eq!(gmfr(&one, &one, 1).unwrap_err(), StatError::DegenerateInput);
    let constant = vec![4, 4, 4];
    assert_eq!(gmfr(&t, &constant, 1).unwrap_err(), StatError::DegenerateInput);
}

#[test]
fn spod_of_identical_series_is_dispersion_only() {
    // no bias: the potential difference reduces to the squared deviations,
    // (36 + 4 + 4 + 36) / 16 = 5
    let x = vec![1, 2, 3, 4];
    let r = spod(&x, &x).unwrap();
    assert_eq!(r.num, 80);
    assert_eq!(r.den, 16);
}

#[test]
fn spod_concrete_value() {
    // means 2 and 4, bias 2; terms (2+1)(2+2), (2+0)(2+0), (2+1)(2+2) sum
    // to 28, held exactly as 252 / 9.
    let t = vec![1, 2, 3];
    let e = vec![2, 4, 6];
    let r = spod(&t, &e).unwrap();
    assert_eq!(r.num, 252);
    assert_eq!(r.den, 9);
}

#[test]
fn spod_errors() {
    let t = vec![1, 2, 3];
    let short = vec![1, 2];
    assert_eq!(spod(&t, &short).unwrap_err(), StatError::DimensionMismatch);
    let one = vec![5];
    assert_eq!(spod(&one, &one).unwrap_err(), StatError::DegenerateInput);
}

#[test]
fn spdu_zero_for_exact_linear_relation() {
    // estimate = 2 * truth: both fits predict exactly, no residual.
    let t = vec![1, 2, 3];
    let e = vec![2, 4, 6];
    let r = spdu(&t, &e, 1).unwrap();
    assert_eq!(r.num, 0);
    assert_eq!(r.den, (SCALE * 3) * (SCALE * 3));
}

#[test]
fn spds_decomposition_identity() {
    let t = vec![1, 2, 3];
    let e = vec![2, 4, 6];
    let u = spdu(&t, &e, 1).unwrap();
    let s = spds(&t, &e, 1).unwrap();
    let total = ssd(&t, &e).unwrap();
    assert_eq!(u.den, s.den);
    assert_eq!(u.num + s.num, total * s.den);
    assert_eq!(s.num, 14 * s.den);
}

#[test]
fn spds_decomposition_identity_inexact_fit() {
    let t = vec![1, 2, 4, 3];
    let e = vec![2, 1, 3, 5];
    let u = spdu(&t, &e, 1).unwrap();
    let s = spds(&t, &e, 1).unwrap();
    let total = ssd(&t, &e).unwrap();
    assert_eq!(u.den, s.den);
    assert!(u.num >= 0);
    assert_eq!(u.num + s.num, total * s.den);
}

#[test]
fn spdu_extreme_variance_ratio_stays_exact() {
    // the largest admissible values against a nearly constant series: the
    // slope numerators are far apart, yet every term stays exact
    let t = vec![1_000_000, -1_000_000, 1_000_000, -1_000_000];
    let e = vec![0, 1, 1, 0];
    let u = spdu(&t, &e, 1).unwrap();
    assert_eq!(u.num, 3_200_000_000_000_000);
    assert_eq!(u.den, 1_600_000_000);
    let s = spds(&t, &e, 1).unwrap();
    let total = ssd(&t, &e).unwrap();
    assert_eq!(u.num + s.num, total * u.den);
}

#[test]
fn spdu_errors() {
    let t = vec![1, 2, 3];
    let constant = vec![4, 4, 4];
    assert_eq!(spdu(&t, &constant, 1).unwrap_err(), StatError::DegenerateInput);
    assert_eq!(spdu(&constant, &t, 1).unwrap_err(), StatError::DegenerateInput);
    let short = vec![1, 2];
    assert_eq!(spds(&t, &short, 1).unwrap_err(), StatError::DimensionMismatch);
}
