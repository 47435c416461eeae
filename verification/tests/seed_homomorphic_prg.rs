use aggregation::crypto::field::F128;
use aggregation::crypto::prg::{default_prg, populate_random, populate_random_bytes};
use aggregation::crypto::seed_homomorphic_prg::{expand_with, SeedHomomorphicPRG, LAMBDA, OUTPUT_LENGTH, P};
use aggregation::crypto::util::{matrix_vector_multiplication, round};
use rand::{RngCore, SeedableRng};
use rand_chacha::ChaCha20Rng;

fn sample_seed(len: usize, rng: &mut ChaCha20Rng) -> Vec<F128> {
    let mut seed = vec![F128::zero(); len];
    populate_random(&mut seed, rng);
    seed
}

fn circular_distance(a: u128, b: u128, m: u128) -> u128 {
    let delta = if a >= b { a - b } else { b - a };
    delta.min(m - delta)
}

#[test]
fn dimensions_and_modulus() {
    assert_eq!(LAMBDA, 3072);
    assert_eq!(OUTPUT_LENGTH, 4096);
    assert_eq!(P, 1u128 << 92);
}

#[test]
// the almost homomorphic property, on a matrix of 64 rows and 48 columns
fn expansions_add_up_to_one() {
    let matrix = SeedHomomorphicPRG::expand_public_parameter(64, 48, [0u8; 32]);
    let mut rng = ChaCha20Rng::from_entropy();
    let seed_0 = sample_seed(48, &mut rng);
    let seed_1 = sample_seed(48, &mut rng);
    let seed_sum: Vec<F128> = seed_0.iter().zip(seed_1.iter()).map(|(a, b)| a.add(b)).collect();
    let output_0 = round(matrix_vector_multiplication(&matrix, &seed_0), P);
    let output_1 = round(matrix_vector_multiplication(&matrix, &seed_1), P);
    let output_sum = round(matrix_vector_multiplication(&matrix, &seed_sum), P);
    assert_eq!(output_sum.len(), 64);
    for i in 0..64 {
        let sum_mod = (output_0[i].to_u128() + output_1[i].to_u128()) % P;
        assert!(circular_distance(sum_mod, output_sum[i].to_u128(), P) <= 1);
    }
}

#[test]
// summing k seeds drifts by k - 1 at most
fn expansions_of_many_seeds_drift_by_less_than_their_number() {
    let matrix = SeedHomomorphicPRG::expand_public_parameter(16, 8, [5u8; 32]);
    let mut rng = ChaCha20Rng::from_seed([6u8; 32]);
    let k = 10;
    let mut seed_sum = vec![F128::zero(); 8];
    let mut output_sum = vec![0u128; 16];
    for _ in 0..k {
        let seed = sample_seed(8, &mut rng);
        for (total, s) in seed_sum.iter_mut().zip(seed.iter()) {
            *total = total.add(s);
        }
        let output = round(matrix_vector_multiplication(&matrix, &seed), P);
        for (total, o) in output_sum.iter_mut().zip(output.iter()) {
            *total = (*total + o.to_u128()) % P;
        }
    }
    let expected = round(matrix_vector_multiplication(&matrix, &seed_sum), P);
    for i in 0..16 {
        assert!(circular_distance(output_sum[i], expected[i].to_u128(), P) <= k - 1);
    }
}

#[test]
fn the_public_matrix_is_a_function_of_the_seed() {
    let a = SeedHomomorphicPRG::expand_public_parameter(8, 6, [9u8; 32]);
    let b = SeedHomomorphicPRG::expand_public_parameter(8, 6, [9u8; 32]);
    let c = SeedHomomorphicPRG::expand_public_parameter(8, 6, [10u8; 32]);
    assert_eq!(a.len(), 8);
    assert_eq!(a[0].len(), 6);
    assert_eq!(a, b);
    assert_ne!(a, c);
    assert_ne!(a[0][0], a[0][1]);
    assert_ne!(a[0], a[1]);
}

#[test]
// the matrix is sampled row by row: a matrix of one row is the start of the
// keystream, and a second row goes on where the first ended
fn the_public_matrix_is_sampled_row_by_row() {
    let flat = SeedHomomorphicPRG::expand_public_parameter(1, 12, [9u8; 32]);
    let rows = SeedHomomorphicPRG::expand_public_parameter(3, 4, [9u8; 32]);
    let joined: Vec<F128> = rows.iter().flatten().copied().collect();
    assert_eq!(flat[0], joined);
    let mut direct = vec![F128::zero(); 12];
    populate_random(&mut direct, &mut ChaCha20Rng::from_seed([9u8; 32]));
    assert_eq!(flat[0], direct);
}

#[test]
fn sampled_values_are_the_low_bits_of_two_words() {
    let mut words = ChaCha20Rng::from_seed([4u8; 32]);
    let mut sampled = vec![F128::zero(); 3];
    populate_random(&mut sampled, &mut ChaCha20Rng::from_seed([4u8; 32]));
    for x in sampled.iter() {
        let low = words.next_u64() as u128;
        let high = (words.next_u64() as u128) & ((1 << 63) - 1);
        assert_eq!(x.to_u128(), ((high << 64) | low) % ((1u128 << 127) - 1));
    }
    let mut numbers = vec![0u64; 3];
    populate_random(&mut numbers, &mut ChaCha20Rng::from_seed([4u8; 32]));
    let mut words = ChaCha20Rng::from_seed([4u8; 32]);
    for n in numbers.iter() {
        assert_eq!(*n, words.next_u64());
    }
}

#[test]
fn generators_that_the_system_seeds_differ() {
    let mut first = vec![0u64; 4];
    let mut second = vec![0u64; 4];
    populate_random(&mut first, &mut default_prg());
    populate_random(&mut second, &mut default_prg());
    assert_ne!(first, second);
    assert_ne!(first, vec![0u64; 4]);
    let mut bytes = [0u8; 32];
    populate_random_bytes(&mut bytes, &mut default_prg());
    assert_ne!(bytes, [0u8; 32]);
}

#[test]
fn expansion_under_a_small_matrix() {
    let matrix = SeedHomomorphicPRG::expand_public_parameter(5, 3, [2u8; 32]);
    let seed = vec![F128::from_u64(1), F128::from_u64(0), F128::from_u64(2)];
    let output = expand_with(&matrix, &seed);
    assert_eq!(output, round(matrix_vector_multiplication(&matrix, &seed), P));
    assert_eq!(output.len(), 5);
    for (row, x) in matrix.iter().zip(output.iter()) {
        // the row times the seed is its first entry plus twice its third
        let product = row[0].add(&row[2]).add(&row[2]).to_u128();
        assert!(x.to_u128() < P);
        // x is the product times 2^92 over 2^127 - 1, rounded down: within one of the
        // product over 2^35
        let low = product >> 35;
        assert!(x.to_u128() == low || x.to_u128() + 1 == low || x.to_u128() == low + 1);
    }
}

#[test]
fn matrix_times_vector() {
    let q = (1u128 << 127) - 1;
    let matrix = vec![
        vec![F128::from_u64(1), F128::from_u64(2)],
        vec![F128::from_u128(q - 1), F128::from_u64(1)],
        vec![F128::from_u128(1 << 100), F128::from_u128(1 << 100)],
    ];
    let vector = vec![F128::from_u64(3), F128::from_u64(4)];
    let product = matrix_vector_multiplication(&matrix, &vector);
    let got: Vec<u128> = product.iter().map(|x| x.to_u128()).collect();
    assert_eq!(got, vec![11, 1, 7 << 100]);
    assert!(matrix_vector_multiplication(&Vec::new(), &vector).is_empty());
}

#[test]
fn rounding_is_the_product_over_the_modulus_rounded_down() {
    let q = (1u128 << 127) - 1;
    let values = vec![
        F128::from_u64(0),
        F128::from_u64(1),
        F128::from_u128(q - 1),
        F128::from_u128(1 << 126),
        F128::from_u128((1 << 35) - 1),
        F128::from_u128(1 << 35),
    ];
    let got: Vec<u128> = round(values, P).iter().map(|x| x.to_u128()).collect();
    // x * 2^92 / (2^127 - 1), rounded down
    assert_eq!(got, vec![0, 0, (1 << 92) - 1, 1 << 91, 0, 1]);
    let got: Vec<u128> = round(vec![F128::from_u128(q - 1)], 10).iter().map(|x| x.to_u128()).collect();
    assert_eq!(got, vec![9]);
}
