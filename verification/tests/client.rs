use aggregation::crypto::field::F128;
use aggregation::crypto::shamir::Shamir;
use aggregation::protocols::opa::client::{mask_encoded, share_seed, OPAClient};
use aggregation::protocols::opa::server::{OPAServer, OPASetupParameters, OPAState};
use aggregation::protocols::{Client, Server};
use rand::SeedableRng;
use rand_chacha::ChaCha20Rng;

#[test]
// test that decode(encode(x)) = x
fn test_encoding() {
    let input: Vec<u32> = vec![1, 2, 3, 4, 5, 6, 7, 8];
    let expected = input.clone();

    let opa_server = OPAServer::new(OPASetupParameters::new(40, 16, 16, 31));
    let state = opa_server.get_state();

    let mut opa_client = OPAClient::<u32>::new();
    opa_client.set_input(input);
    opa_client.set_server_state(state.clone());

    let encoded_input = opa_client.encode_input();
    let decoded_input = opa_client.decode_output(encoded_input);
    assert_eq!(expected, decoded_input);
}

fn small_state() -> OPAState {
    OPAState {
        succinct_seed: [3u8; 32],
        security_parameter: 40,
        corruption_threshold: 1,
        reconstruction_threshold: 2,
        committee_size: 3,
        committee_port_offsets: vec![1, 2, 3],
        server_port: 10000,
    }
}

#[test]
fn a_new_client_holds_nothing() {
    let client = OPAClient::<u16>::new();
    client.setup();
    assert!(client.get_input().is_none());
    assert!(client.encrypted_output().is_none());
    assert!(client.last_seed().is_none());
    assert!(client.input_message().is_none());
}

#[test]
fn set_input_keeps_the_input() {
    let mut client = OPAClient::<u16>::new();
    client.set_input(vec![17]);
    assert_eq!(client.get_input(), Some(&vec![17u16]));
}

#[test]
fn narrow_inputs_are_packed_before_they_are_encoded() {
    let mut client = OPAClient::<u16>::new();
    client.set_input(vec![1, 2, 3, 4, 5, 6]);
    client.set_server_state(small_state());
    let encoded = client.encode_input();
    assert_eq!(encoded.len(), 3);
    for (e, packed) in encoded.iter().zip([0x0002_0001u128, 0x0004_0003, 0x0006_0005]) {
        assert!(*e >= (packed << 60) + (1 << 40));
        assert!(*e < (packed << 60) + (1 << 41));
    }
    assert_eq!(client.decode_output(encoded), vec![1u16, 2, 3, 4, 5, 6]);
}

#[test]
fn masking_adds_the_encoding_to_the_mask() {
    let q = (1u128 << 127) - 1;
    let mask = vec![F128::from_u64(10), F128::from_u128(q - 1), F128::from_u64(30)];
    let masked = mask_encoded(&vec![5, 7], &mask);
    let got: Vec<u128> = masked.iter().map(|x| x.to_u128()).collect();
    assert_eq!(got, vec![15, 6, 30]);
}

#[test]
fn the_rows_of_a_shared_seed_reconstruct_it() {
    let shamir = Shamir::new(5, 3);
    let seed = vec![F128::from_u64(17), F128::from_u64(0), F128::from_u128(1 << 120)];
    let rows = share_seed(&shamir, &seed, &mut ChaCha20Rng::from_seed([6u8; 32]));
    assert_eq!(rows.len(), 5);
    for row in rows.iter() {
        assert_eq!(row.len(), 3);
    }
    for j in 0..3 {
        let pairs: Vec<(F128, F128)> = [4usize, 1, 2].iter().map(|&i| (F128::from(i as u64 + 1), rows[i][j])).collect();
        assert_eq!(shamir.reconstruct(&pairs).unwrap(), seed[j]);
    }
    // each entry has coefficients of its own
    assert_ne!(rows[0][0].sub(&seed[0]), rows[0][1].sub(&seed[1]));
}
