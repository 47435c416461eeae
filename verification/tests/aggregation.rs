use aggregation::crypto::field::F128;
use aggregation::crypto::prg::populate_random;
use aggregation::crypto::seed_homomorphic_prg::{SeedHomomorphicPRG, P};
use aggregation::crypto::shamir::{Shamir, ShamirError};
use aggregation::crypto::util::{matrix_vector_multiplication, round};
use aggregation::protocols::opa::aggregation::{
    collect_shares, committee_index, committee_reply, parse_client_message, parse_committee_message,
    reconstruct_seed, sum_ciphertexts, unmask_and_decode,
};
use aggregation::protocols::opa::client::{mask_encoded, share_seed};
use aggregation::protocols::opa::committee::{parse_shares, sum_shares, write_committee_message};
use aggregation::protocols::opa::encoding::encode_with_noise;
use aggregation::protocols::opa::server::{AggregationError, OPAServer, OPASetupParameters};
use aggregation::protocols::Server;
use aggregation::util::wire::{write_field_matrix, write_field_vector};
use rand::SeedableRng;
use rand_chacha::ChaCha20Rng;

fn elements(values: &[u128]) -> Vec<F128> {
    values.iter().map(|&v| F128::from_u128(v)).collect()
}

// a client's message whose masked input is `first` at the start and zero
// after, and whose rows of shares hold `row + 1` at the start and zero after
fn client_message_bytes(first: u128, rows: usize) -> Vec<u8> {
    let mut c = vec![F128::zero(); 4096];
    c[0] = F128::from_u128(first);
    c[1] = F128::from_u128(1);
    let shares: Vec<Vec<F128>> = (0..rows)
        .map(|i| {
            let mut row = vec![F128::zero(); 3072];
            row[0] = F128::from_u128(first + i as u128 + 1);
            row
        })
        .collect();
    let mut bytes = Vec::new();
    write_field_vector(&c, &mut bytes);
    write_field_matrix(&shares, &mut bytes);
    bytes
}

#[test]
fn the_index_is_the_port_less_the_servers_less_one() {
    assert_eq!(committee_index(10001, 10000), Some(0));
    assert_eq!(committee_index(10031, 10000), Some(30));
    assert_eq!(committee_index(10000, 10000), None);
    assert_eq!(committee_index(9999, 10000), None);
    assert_eq!(committee_index(u16::MAX, 0), Some(65534));
}

#[test]
fn committee_messages_are_read_back() {
    let share = elements(&[1, 2, 3]);
    let message = write_committee_message(7, &share);
    assert_eq!(parse_committee_message(&message), Some((7, share)));
    assert_eq!(parse_committee_message(&write_committee_message(0x1234, &Vec::new())), Some((0x1234, Vec::new())));
}

#[test]
fn broken_committee_messages_are_refused() {
    let message = write_committee_message(7, &elements(&[1, 2, 3]));
    assert!(parse_committee_message(&message[..message.len() - 1]).is_none());
    assert!(parse_committee_message(&message[..10]).is_none());
    assert!(parse_committee_message(b"committee").is_none());
    let mut other = message.clone();
    other[8] = b'x';
    assert!(parse_committee_message(&other).is_none());
    assert!(parse_committee_message(&[]).is_none());
}

#[test]
fn shares_stand_at_their_index() {
    let messages = vec![
        write_committee_message(2, &elements(&[20, 21])),
        b"no committee message".to_vec(),
        write_committee_message(0, &elements(&[1, 2])),
        // an index that no member has
        write_committee_message(3, &elements(&[30, 31])),
        // another length
        write_committee_message(1, &elements(&[10, 11, 12])),
        // the first share of an index stays
        write_committee_message(2, &elements(&[99, 99])),
    ];
    let slots = collect_shares(&messages, 3, 2);
    assert_eq!(slots, vec![Some(elements(&[1, 2])), None, Some(elements(&[20, 21]))]);
    assert_eq!(collect_shares(&Vec::new(), 2, 2), vec![None, None]);
}

fn slots_of_shared_seed(seed: &Vec<F128>, members: usize, threshold: usize, order: &[usize]) -> Vec<Option<Vec<F128>>> {
    let shamir = Shamir::new(members, threshold);
    let rows = share_seed(&shamir, seed, &mut ChaCha20Rng::from_seed([11u8; 32]));
    let messages: Vec<Vec<u8>> = order.iter().map(|&i| write_committee_message(i as u16, &rows[i])).collect();
    collect_shares(&messages, members, seed.len())
}

#[test]
fn the_first_shares_by_index_recover_the_seed() {
    let seed = elements(&[17, 0, 1 << 120, (1 << 127) - 2]);
    let slots = slots_of_shared_seed(&seed, 5, 3, &[4, 2, 0, 1]);
    assert_eq!(reconstruct_seed(&slots, 3, 4), Ok(seed.clone()));
    // the members 1, 3 and 4 alone
    let slots = slots_of_shared_seed(&seed, 5, 3, &[4, 3, 1]);
    assert!(slots[0].is_none() && slots[2].is_none());
    assert_eq!(reconstruct_seed(&slots, 3, 4), Ok(seed));
}

#[test]
fn too_few_shares_recover_nothing() {
    let seed = elements(&[17, 5]);
    let slots = slots_of_shared_seed(&seed, 5, 3, &[4, 2]);
    assert_eq!(reconstruct_seed(&slots, 3, 2), Err(ShamirError::InsufficientShares));
    assert_eq!(reconstruct_seed(&vec![None, None], 1, 2), Err(ShamirError::InsufficientShares));
    assert_eq!(reconstruct_seed(&Vec::new(), 0, 0), Ok(Vec::new()));
}

#[test]
// nine committee messages with the indices 3, 0, 8, 1, 7, 2, 6, 4, 5 recover
// the same seed as in the order 0, 1, up to 8
fn the_order_of_arrival_does_not_matter() {
    let seed = elements(&[17, 123456789, 1 << 100]);
    let in_order: Vec<usize> = (0..9).collect();
    for threshold in [9, 5] {
        let shuffled = slots_of_shared_seed(&seed, 9, threshold, &[3, 0, 8, 1, 7, 2, 6, 4, 5]);
        let ordered = slots_of_shared_seed(&seed, 9, threshold, &in_order);
        assert_eq!(shuffled, ordered);
        assert_eq!(reconstruct_seed(&shuffled, threshold, 3), reconstruct_seed(&ordered, threshold, 3));
        assert_eq!(reconstruct_seed(&shuffled, threshold, 3), Ok(seed.clone()));
    }
}

#[test]
fn client_messages_are_read_back() {
    let bytes = client_message_bytes(5, 2);
    let (c, rows) = parse_client_message(&bytes, 2).unwrap();
    assert_eq!(c.len(), 4096);
    assert_eq!(c[0].to_u128(), 5);
    assert_eq!(rows.len(), 2);
    assert_eq!(rows[1][0].to_u128(), 7);
    // a committee of another size
    assert!(parse_client_message(&bytes, 3).is_none());
    assert!(parse_client_message(&bytes[..bytes.len() - 1], 2).is_none());
    assert!(parse_client_message(&[], 2).is_none());
    // a masked input of another length
    let mut short = Vec::new();
    write_field_vector(&vec![F128::zero(); 4095], &mut short);
    write_field_matrix(&vec![vec![F128::zero(); 3072]; 2], &mut short);
    assert!(parse_client_message(&short, 2).is_none());
    // a row of another length
    let mut narrow = Vec::new();
    write_field_vector(&vec![F128::zero(); 4096], &mut narrow);
    write_field_matrix(&vec![vec![F128::zero(); 3072], vec![F128::zero(); 3071]], &mut narrow);
    assert!(parse_client_message(&narrow, 2).is_none());
}

#[test]
fn the_answer_to_a_signal_holds_the_members_rows() {
    let messages = vec![client_message_bytes(5, 2), b"garbage".to_vec(), client_message_bytes(50, 2)];
    let reply = committee_reply(&messages, 1, 2);
    let shares = parse_shares(&reply).unwrap();
    assert_eq!(shares.len(), 2);
    assert_eq!(shares[0][0].to_u128(), 7);
    assert_eq!(shares[1][0].to_u128(), 52);
    assert_eq!(shares[0].len(), 3072);
    // each item is a length of 4 bytes and a vector
    assert_eq!(reply.len(), 2 * (4 + 8 + 16 * 3072));
    assert_eq!(&reply[..4], &((8 + 16 * 3072) as u32).to_le_bytes());
    let reply = committee_reply(&messages, 0, 2);
    assert_eq!(parse_shares(&reply).unwrap()[0][0].to_u128(), 6);
    // no member has the index 2
    assert!(committee_reply(&messages, 2, 2).is_empty());
    assert!(committee_reply(&Vec::new(), 0, 2).is_empty());
}

#[test]
fn masked_inputs_are_summed_entry_by_entry() {
    let q = (1u128 << 127) - 1;
    let messages = vec![client_message_bytes(q - 1, 2), b"garbage".to_vec(), client_message_bytes(5, 2)];
    let sum = sum_ciphertexts(&messages, 2);
    assert_eq!(sum.len(), 4096);
    assert_eq!(sum[0].to_u128(), 4);
    assert_eq!(sum[1].to_u128(), 2);
    assert_eq!(sum[2].to_u128(), 0);
    assert_eq!(sum_ciphertexts(&Vec::new(), 2), vec![F128::zero(); 4096]);
}

#[test]
fn unmasking_takes_the_mask_off_and_decodes() {
    let q = (1u128 << 127) - 1;
    let encoded = (3u128 << 60) + (1 << 40) + 9;
    let aggregated = elements(&[encoded + 100, 5, 77]);
    let mask = elements(&[100, q - (7u128 << 60), 0]);
    // the second sum is 5 - (q - 7 * 2^60) = 7 * 2^60 + 5 in the field
    assert_eq!(unmask_and_decode(&aggregated, &mask, 2, 40), vec![3, 7]);
    assert!(unmask_and_decode(&aggregated, &mask, 0, 40).is_empty());
}

// a run of the protocol with a public matrix of as many rows as there are
// coordinates and `width` columns
fn run(inputs: &[Vec<u32>], members: usize, threshold: usize, width: usize, order: &[usize]) -> Vec<u32> {
    let coordinates = inputs[0].len();
    let matrix = SeedHomomorphicPRG::expand_public_parameter(coordinates, width, [1u8; 32]);
    let shamir = Shamir::new(members, threshold);
    let mut rng = ChaCha20Rng::from_entropy();
    let mut ciphertexts: Vec<Vec<F128>> = Vec::new();
    let mut shares_by_member: Vec<Vec<Vec<F128>>> = vec![Vec::new(); members];
    for input in inputs {
        let mut noise = vec![0u64; coordinates];
        populate_random(&mut noise, &mut rng);
        let encoded = encode_with_noise(input, &noise, 40);
        let mut seed = vec![F128::zero(); width];
        populate_random(&mut seed, &mut rng);
        let mask = round(matrix_vector_multiplication(&matrix, &seed), P);
        ciphertexts.push(mask_encoded(&encoded, &mask));
        let rows = share_seed(&shamir, &seed, &mut rng);
        for (member, row) in rows.into_iter().enumerate() {
            shares_by_member[member].push(row);
        }
    }
    let messages: Vec<Vec<u8>> =
        order.iter().map(|&i| write_committee_message(i as u16, &sum_shares(&shares_by_member[i]))).collect();
    let slots = collect_shares(&messages, members, width);
    let seed = reconstruct_seed(&slots, threshold, width).unwrap();
    let mask = round(matrix_vector_multiplication(&matrix, &seed), P);
    let mut aggregated = vec![F128::zero(); coordinates];
    for c in ciphertexts.iter() {
        for (total, x) in aggregated.iter_mut().zip(c.iter()) {
            *total = total.add(x);
        }
    }
    unmask_and_decode(&aggregated, &mask, coordinates, 40)
}

#[test]
// one client, 40 bits of noise, 31 members, threshold 16: the input comes
// back
fn one_client_gets_its_input_back() {
    let mut input = vec![0u32; 1024];
    for (j, x) in input.iter_mut().take(8).enumerate() {
        *x = j as u32 + 1;
    }
    let order: Vec<usize> = (0..31).collect();
    let output = run(&[input.clone()], 31, 16, 4, &order);
    assert_eq!(output, input);
    assert_eq!(&output[..9], &[1, 2, 3, 4, 5, 6, 7, 8, 0]);
}

#[test]
// two clients, one with the input j at the place j, one with 100 at every
// place: the output is j + 100
fn two_clients_get_their_sums() {
    let first: Vec<u32> = (0..1024).collect();
    let second = vec![100u32; 1024];
    let order: Vec<usize> = (0..31).rev().collect();
    let output = run(&[first, second], 31, 16, 4, &order);
    let expected: Vec<u32> = (0..1024).map(|j| j + 100).collect();
    assert_eq!(output, expected);
}

#[test]
fn many_clients_get_their_sums() {
    let inputs: Vec<Vec<u32>> = (0..40u32).map(|k| (0..16).map(|j| (k * 1000 + j) % (1 << 20)).collect()).collect();
    let expected: Vec<u32> = (0..16).map(|j| inputs.iter().map(|x| x[j]).sum()).collect();
    let output = run(&inputs, 9, 5, 6, &[3, 0, 8, 1, 7, 2, 6, 4, 5]);
    assert_eq!(output, expected);
}

#[test]
fn a_server_is_set_up_with_a_copy_of_its_parameters() {
    let server = OPAServer::new(OPASetupParameters::new(40, 15, 16, 31));
    let state = server.get_state();
    assert_eq!(state.security_parameter, 40);
    assert_eq!(state.corruption_threshold, 15);
    assert_eq!(state.reconstruction_threshold, 16);
    assert_eq!(state.committee_size, 31);
    assert_eq!(state.committee_port_offsets, (1..=31).collect::<Vec<u16>>());
    assert_eq!(state.server_port, 0);
    let other = OPAServer::new(OPASetupParameters::new(40, 15, 16, 31));
    assert_ne!(state.succinct_seed, other.get_state().succinct_seed);
}

#[test]
fn parameters_fit_together_or_not() {
    assert!(OPASetupParameters::new(40, 15, 16, 31).is_consistent());
    assert!(OPASetupParameters::new(40, 0, 1, 1).is_consistent());
    // as many members may be corrupt as recover a seed
    assert!(!OPASetupParameters::new(40, 16, 16, 31).is_consistent());
    // more members recover a seed than there are
    assert!(!OPASetupParameters::new(40, 1, 4, 3).is_consistent());
}

#[test]
fn a_server_keeps_the_seed_that_it_is_given_and_takes_its_port() {
    let mut server = OPAServer::with_seed(OPASetupParameters::new(40, 1, 2, 3), [7u8; 32]);
    assert_eq!(server.get_state().succinct_seed, [7u8; 32]);
    server.on_communicator_setup(10000);
    assert_eq!(server.get_state().server_port, 10000);
    assert_eq!(server.get_state().committee_port_offsets, vec![1, 2, 3]);
    server.setup(OPASetupParameters::new(20, 1, 2, 0));
    assert_eq!(server.get_state().security_parameter, 20);
    assert!(server.get_state().committee_port_offsets.is_empty());
    assert_eq!(server.get_state().server_port, 0);
}

#[test]
fn a_server_refuses_to_aggregate_what_it_cannot() {
    let too_much_noise = OPAServer::new(OPASetupParameters::new(41, 1, 2, 3));
    assert_eq!(too_much_noise.aggregate(&Vec::new(), &Vec::new()), Err(AggregationError::InvariantViolated));
    let no_committee = OPAServer::new(OPASetupParameters::new(40, 1, 2, 3));
    assert_eq!(
        no_committee.aggregate(&Vec::new(), &Vec::new()),
        Err(AggregationError::Shamir(ShamirError::InsufficientShares))
    );
    let threshold_above_size = OPAServer::new(OPASetupParameters::new(40, 1, 4, 3));
    assert_eq!(
        threshold_above_size.aggregate(&Vec::new(), &Vec::new()),
        Err(AggregationError::Shamir(ShamirError::InsufficientShares))
    );
    // two members with the same share: their points differ, the shares of a
    // seed of another length are passed over
    let messages = vec![write_committee_message(0, &elements(&[1])), write_committee_message(1, &elements(&[1]))];
    assert_eq!(
        no_committee.aggregate(&Vec::new(), &messages),
        Err(AggregationError::Shamir(ShamirError::InsufficientShares))
    );
}
