use aggregation::protocols::opa::encoding::{decode_values, encode_with_noise, NUM_PARTIES_UPPER_BOUND};

#[test]
fn the_bound_on_the_clients_is_two_to_the_twenty() {
    assert_eq!(NUM_PARTIES_UPPER_BOUND, 1 << 20);
}

#[test]
fn encoding_formula() {
    // 2^40 * 2^20 * 3 + (5 & (2^40 - 1)) + 2^40
    let encoded = encode_with_noise(&vec![3], &vec![5], 40);
    assert_eq!(encoded, vec![(3u128 << 60) + 5 + (1u128 << 40)]);
    // the noise keeps its low bits only
    let encoded = encode_with_noise(&vec![3], &vec![u64::MAX], 8);
    assert_eq!(encoded, vec![(3u128 << 28) + 255 + 256]);
    let encoded = encode_with_noise(&vec![0, 1], &vec![0, 0], 0);
    assert_eq!(encoded, vec![1, (1u128 << 20) + 1]);
}

#[test]
fn decoding_formula() {
    // the sum over 2^60, rounded up, less one
    assert_eq!(decode_values(&vec![(3u128 << 60) + 1], 40), vec![3]);
    assert_eq!(decode_values(&vec![3u128 << 60], 40), vec![2]);
    assert_eq!(decode_values(&vec![1], 40), vec![0]);
    // in 32 bits
    assert_eq!(decode_values(&vec![0], 40), vec![u32::MAX]);
    assert_eq!(decode_values(&vec![(1u128 << 92) + (7u128 << 60) + 1], 40), vec![7]);
}

#[test]
// a coordinate of 2^32 - 1 with 40 bits of noise stays below 2^92, and decodes
fn encoding_boundary() {
    let v = u32::MAX;
    for noise in [0u64, 1, (1 << 40) - 1, u64::MAX] {
        let encoded = encode_with_noise(&vec![v], &vec![noise], 40);
        assert!(encoded[0] < 1u128 << 92);
        assert_eq!(decode_values(&encoded, 40), vec![v]);
    }
}

#[test]
fn decode_of_encode_is_the_value() {
    let values: Vec<u32> = vec![0, 1, 2, 1000, 1 << 20, u32::MAX - 1, u32::MAX];
    let noise: Vec<u64> = vec![0, u64::MAX, 12345, 1 << 39, 1 << 40, 99, 7];
    for kappa in [0u64, 1, 20, 40] {
        let encoded = encode_with_noise(&values, &noise, kappa);
        assert_eq!(decode_values(&encoded, kappa), values);
    }
}

#[test]
fn a_sum_of_encodings_decodes_to_the_sum() {
    let a = encode_with_noise(&vec![1, 2, 3], &vec![u64::MAX, 5, 0], 40);
    let b = encode_with_noise(&vec![100, 100, 100], &vec![u64::MAX, 9, 0], 40);
    let sum: Vec<u128> = a.iter().zip(b.iter()).map(|(x, y)| x + y).collect();
    assert_eq!(decode_values(&sum, 40), vec![101, 102, 103]);
}
