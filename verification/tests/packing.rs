use aggregation::util::packing::{pack_vector, unpack_vector};

#[test]
// test that the packing and unpacking functions work correctly
fn test_packing() {
    let input = vec![1u16, 2u16, 3u16, 4u16, 5u16, 6u16];

    // pack the input and check that it is smaller
    let packed = pack_vector(&input);
    assert!(packed.len() < input.len());

    // unpack the input and check that the size of the input is restored
    let unpacked = unpack_vector(&packed);
    assert!(unpacked.len() == input.len());

    // check that the unpacked input is the same as the input
    assert_eq!(input, unpacked);
}

#[test]
fn packs_the_first_value_lowest() {
    assert_eq!(pack_vector(&vec![1u16, 2, 3, 4, 5, 6]), vec![0x0002_0001, 0x0004_0003, 0x0006_0005]);
    assert_eq!(pack_vector(&vec![1u8, 2, 3, 4, 5]), vec![0x0403_0201, 0x0000_0005]);
    assert_eq!(pack_vector(&vec![0xffu8, 0, 0xff, 0x80]), vec![0x80ff_00ff]);
    assert_eq!(pack_vector(&vec![7u32, u32::MAX]), vec![7, u32::MAX]);
}

#[test]
fn empty_vectors_stay_empty() {
    assert_eq!(pack_vector(&Vec::<u8>::new()), Vec::<u32>::new());
    assert_eq!(unpack_vector::<u16>(&Vec::new()), Vec::<u16>::new());
}

#[test]
fn unpacking_reads_every_field() {
    assert_eq!(unpack_vector::<u8>(&vec![0x0403_0201, 0x0000_0005]), vec![1u8, 2, 3, 4, 5, 0, 0, 0]);
    assert_eq!(unpack_vector::<u16>(&vec![0xffff_0001]), vec![1u16, 0xffff]);
    assert_eq!(unpack_vector::<u32>(&vec![0xdead_beef]), vec![0xdead_beefu32]);
}

#[test]
fn a_last_word_that_is_not_full_unpacks_with_zeros() {
    let input = vec![1u16, 2, 3];
    let unpacked: Vec<u16> = unpack_vector(&pack_vector(&input));
    assert_eq!(unpacked, vec![1u16, 2, 3, 0]);
}

#[test]
fn round_trip_of_every_width() {
    let bytes: Vec<u8> = (0..=255u8).collect();
    assert_eq!(unpack_vector::<u8>(&pack_vector(&bytes)), bytes);
    let halves: Vec<u16> = (0..1000u16).map(|i| i.wrapping_mul(6553)).collect();
    assert_eq!(unpack_vector::<u16>(&pack_vector(&halves)), halves);
    let words: Vec<u32> = (0..100u32).map(|i| i.wrapping_mul(0x9e37_79b9)).collect();
    assert_eq!(unpack_vector::<u32>(&pack_vector(&words)), words);
}
