use aggregation::crypto::field::F128;
use aggregation::protocols::opa::committee::{
    parse_shares, sum_shares, write_committee_message, CommitteeError, OPACommittee,
};
use aggregation::protocols::opa::server::OPAState;
use aggregation::protocols::Committee;
use aggregation::util::wire::serialize_field_vector;

fn elements(values: &[u128]) -> Vec<F128> {
    values.iter().map(|&v| F128::from_u128(v)).collect()
}

fn state_with_port(server_port: u16) -> OPAState {
    OPAState {
        succinct_seed: [0u8; 32],
        security_parameter: 40,
        corruption_threshold: 1,
        reconstruction_threshold: 2,
        committee_size: 3,
        committee_port_offsets: vec![1, 2, 3],
        server_port,
    }
}

fn item(v: &Vec<F128>) -> Vec<u8> {
    let body = serialize_field_vector(v);
    let mut bytes = (body.len() as u32).to_le_bytes().to_vec();
    bytes.extend_from_slice(&body);
    bytes
}

#[test]
fn parses_the_items_of_an_answer() {
    let a = elements(&[1, 2, 3]);
    let b = elements(&[10, 20, 30]);
    let mut answer = item(&a);
    answer.extend_from_slice(&item(&b));
    assert_eq!(parse_shares(&answer).unwrap(), vec![a, b]);
    assert_eq!(parse_shares(&[]).unwrap(), Vec::<Vec<F128>>::new());
}

#[test]
fn refuses_an_answer_that_is_cut_short() {
    let answer = item(&elements(&[1, 2, 3]));
    assert!(parse_shares(&answer[..answer.len() - 1]).is_none());
    assert!(parse_shares(&answer[..3]).is_none());
    // an item whose bytes are no vector
    assert!(parse_shares(&[2, 0, 0, 0, 1, 1]).is_none());
}

#[test]
fn sums_entry_by_entry() {
    let q = (1u128 << 127) - 1;
    let shares = vec![elements(&[1, 2, q - 1]), elements(&[10, 20, 1]), elements(&[100, 200, 5])];
    assert_eq!(sum_shares(&shares), elements(&[111, 222, 5]));
}

#[test]
fn the_answer_carries_the_index() {
    let message = write_committee_message(0x0102, &elements(&[7]));
    let mut expected = b"committee".to_vec();
    expected.extend_from_slice(&[0x02, 0x01]);
    expected.extend_from_slice(&serialize_field_vector(&elements(&[7])));
    assert_eq!(message, expected);
}

#[test]
fn a_member_sums_what_it_retrieved() {
    let state = state_with_port(10000);
    let mut member = OPACommittee::new(10003);
    member.set_server_state(state);
    let mut answer = item(&elements(&[1, 2]));
    answer.extend_from_slice(&item(&elements(&[3, 4])));
    assert_eq!(member.retrieve_inputs(&answer), Ok(()));
    assert_eq!(member.get_input_shares().unwrap().len(), 2);
    let message = member.aggregate().unwrap();
    assert_eq!(message, write_committee_message(2, &elements(&[4, 6])));
}

#[test]
fn a_member_refuses_a_broken_answer_and_stays_as_it_was() {
    let mut member = OPACommittee::new(10001);
    assert_eq!(member.retrieve_inputs(&[1, 2, 3]), Err(CommitteeError::SerializationError));
    assert!(member.get_input_shares().is_none());
}

#[test]
fn a_member_without_shares_has_no_answer() {
    let state = state_with_port(10000);
    let mut member = OPACommittee::new(10001);
    member.set_server_state(state);
    assert_eq!(member.retrieve_inputs(&[]), Ok(()));
    assert!(member.aggregate().is_none());
}
