use aggregation::crypto::field::{F128, F128Config, MODULUS};

#[test]
fn modulus_is_the_mersenne_prime() {
    assert_eq!(MODULUS, (1u128 << 127) - 1);
    assert_eq!(F128Config::modulus(), MODULUS);
    assert_eq!(F128Config::generator().to_u128(), 3);
}

#[test]
fn from_u128_reduces() {
    assert_eq!(F128::from_u128(MODULUS).to_u128(), 0);
    assert_eq!(F128::from_u128(MODULUS + 5).to_u128(), 5);
    assert_eq!(F128::from_u128(u128::MAX).to_u128(), 1);
    assert_eq!(F128::from_u128(17).to_u128(), 17);
    assert_eq!(F128::from(17), F128::from_u64(17));
}

#[test]
fn from_canonical_refuses_what_is_not_reduced() {
    assert_eq!(F128::from_canonical(MODULUS - 1).map(|f| f.to_u128()), Some(MODULUS - 1));
    assert!(F128::from_canonical(MODULUS).is_none());
    assert!(F128::from_canonical(u128::MAX).is_none());
}

#[test]
fn addition_wraps_at_the_modulus() {
    let a = F128::from_u128(MODULUS - 1);
    let b = F128::from_u64(2);
    assert_eq!(a.add(&b).to_u128(), 1);
    assert_eq!(a.add(&a).to_u128(), MODULUS - 2);
    assert_eq!(F128::zero().add(&b), b);
}

#[test]
fn subtraction_and_negation() {
    let a = F128::from_u64(3);
    let b = F128::from_u64(5);
    assert_eq!(a.sub(&b).to_u128(), MODULUS - 2);
    assert_eq!(b.sub(&a).to_u128(), 2);
    assert_eq!(a.neg().to_u128(), MODULUS - 3);
    assert_eq!(F128::zero().neg().to_u128(), 0);
    assert_eq!(a.neg().add(&a), F128::zero());
}

#[test]
fn multiplication_of_large_values() {
    // (q - 1)^2 = 1, (q - 1) * 2 = q - 2, 2^64 * 2^64 = 2^128 = 2 (mod q)
    let minus_one = F128::from_u128(MODULUS - 1);
    assert_eq!(minus_one.mul(&minus_one).to_u128(), 1);
    assert_eq!(minus_one.mul(&F128::from_u64(2)).to_u128(), MODULUS - 2);
    let two_64 = F128::from_u128(1u128 << 64);
    assert_eq!(two_64.mul(&two_64).to_u128(), 2);
    let two_126 = F128::from_u128(1u128 << 126);
    assert_eq!(two_126.mul(&F128::from_u64(2)).to_u128(), 1);
    assert_eq!(two_126.mul(&two_126).to_u128(), 1u128 << 125);
    let x = F128::from_u128(0x1234_5678_9abc_def0_0fed_cba9_8765_4321);
    let y = F128::from_u128(0x0bad_cafe_dead_beef_0123_4567_89ab_cdef);
    // checked with an independent big-integer computation
    assert_eq!(x.mul(&y).to_u128(), 110296744292048995220124998972560039842);
    assert_eq!(x.mul(&F128::one()), x);
    assert!(x.mul(&F128::zero()).is_zero());
}

#[test]
fn inverse_of_zero_is_none() {
    assert!(F128::zero().inverse().is_none());
}

#[test]
fn inverse_times_value_is_one() {
    for v in [1u128, 2, 3, 17, 1 << 64, MODULUS - 1, 0x1234_5678_9abc_def0_0fed_cba9_8765_4321] {
        let a = F128::from_u128(v);
        let inv = a.inverse().unwrap();
        assert_eq!(a.mul(&inv), F128::one());
    }
    assert_eq!(F128::from_u64(2).inverse().unwrap().to_u128(), 1u128 << 126);
    assert_eq!(F128::one().inverse().unwrap(), F128::one());
}

#[test]
fn distributive_law_on_values() {
    let a = F128::from_u128(MODULUS - 7);
    let b = F128::from_u128(1u128 << 100);
    let c = F128::from_u128(0xffff_ffff_ffff_ffff_ffff);
    assert_eq!(a.mul(&b.add(&c)), a.mul(&b).add(&a.mul(&c)));
}
