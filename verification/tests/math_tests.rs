// Tests of the field-level polynomial engine: Horner evaluation and
// Lagrange interpolation on known values.

use quorum::math::{evaluate_polynomial, lagrange_interpolate, random_coefficients};
use quorum::{FragmentError, Scalar};

#[test]
fn test_polynomial_evaluation() {
    // polynomial: 5 + 3x + 2x^2
    // at x=2: 5 + 6 + 8 = 19
    let coeffs = vec![
        Scalar::from_u64(5),
        Scalar::from_u64(3),
        Scalar::from_u64(2),
    ];
    let x = Scalar::from_u64(2);
    let result = evaluate_polynomial(&coeffs, &x);
    assert_eq!(result, Scalar::from_u64(19));
}

#[test]
fn test_lagrange_interpolation() {
    // secret is 42, polynomial is 42 + 7x (threshold 2)
    // share at x=1: y = 49
    // share at x=2: y = 56
    let shares = vec![
        (Scalar::from_u64(1), Scalar::from_u64(49)),
        (Scalar::from_u64(2), Scalar::from_u64(56)),
    ];
    let secret = lagrange_interpolate(&shares).unwrap();
    assert_eq!(secret, Scalar::from_u64(42));
}

#[test]
fn evaluation_of_empty_polynomial_is_zero() {
    let coeffs: Vec<Scalar> = Vec::new();
    let x = Scalar::from_u64(17);
    assert_eq!(evaluate_polynomial(&coeffs, &x), Scalar::from_u64(0));
}

#[test]
fn random_coefficients_embed_the_secret() {
    let secret = Scalar::from_u64(4242);
    let coeffs = random_coefficients(3, &secret);
    assert_eq!(coeffs.len(), 3);
    assert_eq!(coeffs[0], secret);
    let again = random_coefficients(3, &secret);
    // coefficients are drawn freshly on every call; a full repeat of two
    // 256-bit values would be a vanishing coincidence
    assert!(coeffs[1] != again[1] || coeffs[2] != again[2]);
}

#[test]
fn interpolation_rejects_shared_abscissa() {
    let points = vec![
        (Scalar::from_u64(3), Scalar::from_u64(10)),
        (Scalar::from_u64(3), Scalar::from_u64(20)),
    ];
    assert!(matches!(
        lagrange_interpolate(&points),
        Err(FragmentError::DuplicateShareIndex)
    ));
}
