// End-to-end tests of the secret sharing scheme: splitting, recovery, and
// the error paths.

use quorum::{recover_secret, split_secret, FragmentError, Scalar, Share};

#[test]
fn test_split_and_recover() {
    // creating a known secret
    let secret = Scalar::from_u64(123456789);

    // splitting into 5 shares with threshold of 3
    let shares = split_secret(&secret, 3, 5).unwrap();
    assert_eq!(shares.len(), 5);

    // recovering with exactly 3 shares
    let recovered = recover_secret(&shares[0..3].to_vec()).unwrap();
    assert_eq!(recovered, secret);

    // recovering with different 3 shares should also work
    let recovered2 = recover_secret(&shares[2..5].to_vec()).unwrap();
    assert_eq!(recovered2, secret);
}

#[test]
fn test_invalid_threshold() {
    let secret = Scalar::from_u64(42);

    // threshold less than 2
    assert!(split_secret(&secret, 1, 5).is_err());

    // threshold greater than total
    assert!(split_secret(&secret, 6, 5).is_err());
}

#[test]
fn invalid_threshold_error_kind() {
    let secret = Scalar::from_u64(7);
    assert!(matches!(
        split_secret(&secret, 1, 5),
        Err(FragmentError::InvalidThreshold)
    ));
    assert!(matches!(
        split_secret(&secret, 6, 5),
        Err(FragmentError::InvalidThreshold)
    ));
}

#[test]
fn shares_carry_sequential_indices() {
    let secret = Scalar::from_u64(5555);
    let shares = split_secret(&secret, 3, 5).unwrap();
    assert_eq!(shares.len(), 5);
    for (i, share) in shares.iter().enumerate() {
        assert_eq!(share.x, Scalar::from_u64(i as u64 + 1));
    }
}

#[test]
fn every_threshold_subset_recovers() {
    // threshold 3 of 5: all 10 subsets of size 3 must recover the secret
    let secret = Scalar::from_u64(998877665544332211);
    let shares = split_secret(&secret, 3, 5).unwrap();
    let mut checked = 0;
    for a in 0..5 {
        for b in (a + 1)..5 {
            for c in (b + 1)..5 {
                let subset = vec![
                    shares[a].clone(),
                    shares[b].clone(),
                    shares[c].clone(),
                ];
                let recovered = recover_secret(&subset).unwrap();
                assert_eq!(recovered, secret);
                checked += 1;
            }
        }
    }
    assert_eq!(checked, 10);
}

#[test]
fn too_few_shares_rejected() {
    let secret = Scalar::from_u64(31337);
    let shares = split_secret(&secret, 2, 3).unwrap();
    let one = vec![shares[0].clone()];
    assert!(matches!(
        recover_secret(&one),
        Err(FragmentError::InsufficientShares)
    ));
    assert!(matches!(
        recover_secret(&Vec::new()),
        Err(FragmentError::InsufficientShares)
    ));
}

#[test]
fn below_original_threshold_is_not_detected() {
    // recover_secret sees only the shares, not the threshold they were
    // split with, so it accepts any two distinct-index shares; two shares
    // of a threshold-3 split interpolate to a value, not the secret.
    // Callers must themselves supply at least the original threshold.
    let secret = Scalar::from_u64(777);
    let shares = split_secret(&secret, 3, 5).unwrap();
    let two = vec![shares[0].clone(), shares[1].clone()];
    let interpolated = recover_secret(&two).unwrap();
    // with 256-bit random coefficients, a collision with the secret would
    // mean the quadratic's line through these two points hits it by chance
    assert_ne!(interpolated, secret);
}

#[test]
fn duplicate_share_index_rejected() {
    let secret = Scalar::from_u64(2024);
    let shares = split_secret(&secret, 2, 3).unwrap();
    let duplicated = vec![shares[0].clone(), shares[0].clone()];
    assert!(matches!(
        recover_secret(&duplicated),
        Err(FragmentError::DuplicateShareIndex)
    ));
}

#[test]
fn single_share_consistent_with_any_candidate_secret() {
    // confidentiality at threshold 2: one share (x, y) of a split of s1 is
    // also a sample of a degree-1 polynomial whose constant term is any
    // other candidate secret s2, so the shareholder learns nothing
    let s1 = Scalar::from_u64(1111);
    let shares = split_secret(&s1, 2, 3).unwrap();
    let share = &shares[0];

    let s2 = Scalar::from_u64(2222);
    // a1 = (y - s2) / x completes a polynomial [s2, a1] through (x, y)
    let xinv = share.x.invert().unwrap();
    let a1 = share.y.sub(&s2).mul(&xinv);
    let candidate_poly = vec![s2.clone(), a1];
    let y = quorum::math::evaluate_polynomial(&candidate_poly, &share.x);
    assert_eq!(y, share.y);
}

#[test]
fn share_clone_preserves_coordinates() {
    let secret = Scalar::from_u64(9);
    let shares = split_secret(&secret, 2, 2).unwrap();
    let copy: Share = shares[0].clone();
    assert_eq!(copy, shares[0]);
}
