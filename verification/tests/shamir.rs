use aggregation::crypto::field::F128;
use aggregation::crypto::shamir::{evaluate_shares, Shamir, ShamirError};
use rand::SeedableRng;
use rand_chacha::ChaCha20Rng;

#[test]
// test that the shares are non-zero and non-deterministic
fn test_share_randomization() {
    let shamir = Shamir::new(31, 16);
    let mut rng = ChaCha20Rng::from_entropy();

    // create two secret sharings of the same secret
    let shares_0 = shamir.share(F128::from(17), &mut rng).unwrap();
    let shares_1 = shamir.share(F128::from(17), &mut rng).unwrap();

    // check that the shares are non-zero
    for share in shares_0.iter() {
        assert!(share.1.to_u128() != 0);
    }
    for share in shares_1.iter() {
        assert!(share.1.to_u128() != 0);
    }

    // check that the two sharings have different shares
    for i in 0..shares_0.len() {
        assert!(shares_0[i].1 != shares_1[i].1);
    }
}

#[test]
// test that the secret can be reconstructed successfully
fn test_reconstruction() {
    let shamir = Shamir::new(31, 16);
    let mut rng = ChaCha20Rng::from_entropy();

    // create a secret sharing of the secret
    let shares = shamir.share(F128::from(17), &mut rng).unwrap();

    // reconstruct the secret from any t shares
    let secret = shamir.reconstruct(&shares).unwrap();
    assert_eq!(secret, F128::from(17));
}

#[test]
fn getters_give_the_parameters() {
    let shamir = Shamir::new(31, 16);
    assert_eq!(shamir.num_shares(), 31);
    assert_eq!(shamir.threshold(), 16);
}

#[test]
fn share_refuses_a_threshold_below_two() {
    let mut rng = ChaCha20Rng::from_seed([1u8; 32]);
    assert_eq!(Shamir::new(5, 1).share(F128::from(17), &mut rng).unwrap_err(), ShamirError::InvalidThreshold);
    assert_eq!(Shamir::new(5, 0).share(F128::from(17), &mut rng).unwrap_err(), ShamirError::InvalidThreshold);
    // the threshold is tested first
    assert_eq!(Shamir::new(0, 1).share(F128::from(17), &mut rng).unwrap_err(), ShamirError::InvalidThreshold);
}

#[test]
fn share_refuses_fewer_shares_than_the_threshold() {
    let mut rng = ChaCha20Rng::from_seed([1u8; 32]);
    assert_eq!(Shamir::new(2, 3).share(F128::from(17), &mut rng).unwrap_err(), ShamirError::InvalidNumShares);
    assert!(Shamir::new(3, 3).share(F128::from(17), &mut rng).is_ok());
}

#[test]
fn reconstruct_refuses_too_few_shares() {
    let shamir = Shamir::new(5, 3);
    let mut rng = ChaCha20Rng::from_seed([2u8; 32]);
    let shares = shamir.share(F128::from(17), &mut rng).unwrap();
    assert_eq!(shamir.reconstruct(&shares[..2]).unwrap_err(), ShamirError::InsufficientShares);
    assert_eq!(shamir.reconstruct(&[]).unwrap_err(), ShamirError::InsufficientShares);
}

#[test]
fn reconstruct_refuses_a_repeated_point() {
    let shamir = Shamir::new(5, 3);
    let mut rng = ChaCha20Rng::from_seed([2u8; 32]);
    let shares = shamir.share(F128::from(17), &mut rng).unwrap();
    let repeated = vec![shares[0], shares[1], shares[0]];
    assert_eq!(shamir.reconstruct(&repeated).unwrap_err(), ShamirError::ReconstructionFailed);
}

#[test]
fn shares_are_the_points_of_the_polynomial() {
    // 17 + 3 x + 5 x^2 at 1, 2, 3, 4
    let coeffs = vec![F128::from(17), F128::from(3), F128::from(5)];
    let shares = evaluate_shares(&coeffs, 4);
    let expected: Vec<(u128, u128)> = vec![(1, 25), (2, 43), (3, 71), (4, 109)];
    let got: Vec<(u128, u128)> = shares.iter().map(|s| (s.0.to_u128(), s.1.to_u128())).collect();
    assert_eq!(got, expected);
    assert!(evaluate_shares(&coeffs, 0).is_empty());
}

#[test]
fn the_same_seed_deals_the_same_shares() {
    let shamir = Shamir::new(5, 3);
    let a = shamir.share(F128::from(17), &mut ChaCha20Rng::from_seed([7u8; 32])).unwrap();
    let b = shamir.share(F128::from(17), &mut ChaCha20Rng::from_seed([7u8; 32])).unwrap();
    let c = shamir.share(F128::from(17), &mut ChaCha20Rng::from_seed([8u8; 32])).unwrap();
    assert_eq!(a, b);
    assert_ne!(a, c);
    for (i, share) in a.iter().enumerate() {
        assert_eq!(share.0.to_u128(), i as u128 + 1);
    }
}

#[test]
// modulus 2^127 - 1, n = 5, t = 3, secret = 17: any 3 of the 5 shares give 17
fn any_three_of_five_shares_reconstruct() {
    let shamir = Shamir::new(5, 3);
    let mut rng = ChaCha20Rng::from_seed([3u8; 32]);
    let shares = shamir.share(F128::from(17), &mut rng).unwrap();
    assert_eq!(shares.len(), 5);
    for a in 0..5 {
        for b in 0..5 {
            for c in 0..5 {
                if a != b && b != c && a != c {
                    let chosen = vec![shares[a], shares[b], shares[c]];
                    assert_eq!(shamir.reconstruct(&chosen).unwrap(), F128::from(17));
                }
            }
        }
    }
}

#[test]
// any 2 of the 5 shares do not: too few for the threshold, and with a
// threshold of 2 another value
fn two_of_five_shares_do_not_reconstruct() {
    let shamir = Shamir::new(5, 3);
    let mut rng = ChaCha20Rng::from_seed([3u8; 32]);
    let shares = shamir.share(F128::from(17), &mut rng).unwrap();
    let two = vec![shares[0], shares[1]];
    assert_eq!(shamir.reconstruct(&two).unwrap_err(), ShamirError::InsufficientShares);
    assert_ne!(Shamir::new(5, 2).reconstruct(&two).unwrap(), F128::from(17));
}

#[test]
fn sums_of_shares_reconstruct_the_sum_of_the_secrets() {
    let shamir = Shamir::new(5, 3);
    let mut rng = ChaCha20Rng::from_seed([4u8; 32]);
    let a = shamir.share(F128::from(17), &mut rng).unwrap();
    let b = shamir.share(F128::from(25), &mut rng).unwrap();
    let sum: Vec<(F128, F128)> = a.iter().zip(b.iter()).map(|(x, y)| (x.0, x.1.add(&y.1))).collect();
    assert_eq!(shamir.reconstruct(&sum[2..]).unwrap(), F128::from(42));
}

#[test]
fn reconstruction_does_not_depend_on_the_order() {
    let shamir = Shamir::new(9, 9);
    let mut rng = ChaCha20Rng::from_seed([5u8; 32]);
    let shares = shamir.share(F128::from(17), &mut rng).unwrap();
    let order = [3usize, 0, 8, 1, 7, 2, 6, 4, 5];
    let shuffled: Vec<(F128, F128)> = order.iter().map(|&i| shares[i]).collect();
    assert_eq!(shamir.reconstruct(&shuffled).unwrap(), shamir.reconstruct(&shares).unwrap());
    assert_eq!(shamir.reconstruct(&shuffled).unwrap(), F128::from(17));
}
