use aggregation::crypto::field::{F128, MODULUS};
use aggregation::util::wire::{
    read_field_matrix, read_field_vector, serialize_field_vector, write_field_matrix, write_field_vector,
};

fn elements(values: &[u128]) -> Vec<F128> {
    values.iter().map(|&v| F128::from_u128(v)).collect()
}

#[test]
fn vector_bytes() {
    let bytes = serialize_field_vector(&elements(&[1, 0x0102]));
    let mut expected = vec![2u8, 0, 0, 0, 0, 0, 0, 0];
    expected.extend_from_slice(&1u128.to_le_bytes());
    expected.extend_from_slice(&0x0102u128.to_le_bytes());
    assert_eq!(bytes, expected);
    assert_eq!(serialize_field_vector(&Vec::new()), vec![0u8; 8]);
}

#[test]
fn vector_round_trip() {
    let v = elements(&[0, 1, 17, MODULUS - 1, 1 << 100]);
    let bytes = serialize_field_vector(&v);
    let (read, end) = read_field_vector(&bytes, 0).unwrap();
    assert_eq!(read, v);
    assert_eq!(end, bytes.len());
}

#[test]
fn single_element_round_trip() {
    for value in [0u128, 1, MODULUS - 1] {
        let v = elements(&[value]);
        let (read, _) = read_field_vector(&serialize_field_vector(&v), 0).unwrap();
        assert_eq!(read[0].to_u128(), value);
    }
}

#[test]
fn vector_is_read_from_where_it_starts() {
    let v = elements(&[5, 6]);
    let mut bytes = vec![0xaau8; 3];
    write_field_vector(&v, &mut bytes);
    bytes.push(0xbb);
    let (read, end) = read_field_vector(&bytes, 3).unwrap();
    assert_eq!(read, v);
    assert_eq!(end, bytes.len() - 1);
}

#[test]
fn truncated_vectors_are_refused() {
    let bytes = serialize_field_vector(&elements(&[5, 6]));
    assert!(read_field_vector(&bytes[..bytes.len() - 1], 0).is_none());
    assert!(read_field_vector(&bytes[..7], 0).is_none());
    assert!(read_field_vector(&bytes, bytes.len()).is_none());
    assert!(read_field_vector(&[], 0).is_none());
    // a length that no buffer holds
    assert!(read_field_vector(&[0xff; 24], 0).is_none());
}

#[test]
fn values_that_are_not_reduced_are_refused() {
    let mut bytes = vec![1u8, 0, 0, 0, 0, 0, 0, 0];
    bytes.extend_from_slice(&MODULUS.to_le_bytes());
    assert!(read_field_vector(&bytes, 0).is_none());
    let mut bytes = vec![1u8, 0, 0, 0, 0, 0, 0, 0];
    bytes.extend_from_slice(&(MODULUS - 1).to_le_bytes());
    assert!(read_field_vector(&bytes, 0).is_some());
}

#[test]
fn matrix_round_trip() {
    let m = vec![elements(&[1, 2, 3]), elements(&[]), elements(&[MODULUS - 1])];
    let mut bytes = Vec::new();
    write_field_matrix(&m, &mut bytes);
    assert_eq!(bytes.len(), 8 + (8 + 48) + 8 + (8 + 16));
    let (read, end) = read_field_matrix(&bytes, 0).unwrap();
    assert_eq!(read, m);
    assert_eq!(end, bytes.len());
    assert!(read_field_matrix(&bytes[..bytes.len() - 1], 0).is_none());
    assert!(read_field_matrix(&[0xff; 8], 0).is_none());
}
