//! The committee member of the aggregation protocol: it takes its shares of
//! the clients' seeds from the server, and answers with their sum.

use crate::crypto::field::{field_add, matrix_values_of, values_of, F128};
use crate::protocols::base::committee::Committee;
use crate::protocols::opa::server::{OPAState, OPAStateView};
use crate::util::wire::{
    encoded_vector, read_field_vector, vector_at, vector_fits_at, write_field_vector,
};
use vstd::bytes::*;
use vstd::prelude::*;
use vstd::slice::slice_subrange;

verus! {

/// Why what the server handed out was refused.
#[derive(Clone, Copy, Debug, PartialEq, Eq, Structural)]
pub enum CommitteeError {
    /// The bytes are no sequence of items, each a length and a vector.
    SerializationError,
}

/// The length of the item that begins at `start`, as its first 4 bytes give
/// it.
pub open spec fn item_length_at(bytes: Seq<u8>, start: int) -> nat {
    spec_u32_from_le_bytes(bytes.subrange(start, start + 4)) as nat
}

/// The bytes of the item that begins at `start`, past its length.
pub open spec fn item_at(bytes: Seq<u8>, start: int) -> Seq<u8> {
    bytes.subrange(start + 4, start + 4 + item_length_at(bytes, start))
}

/// Whether an item begins at `start`: its length and its bytes lie within
/// the bytes, and a vector stands at the start of it.
pub open spec fn item_fits_at(bytes: Seq<u8>, start: int) -> bool {
    &&& 0 <= start
    &&& start + 4 <= bytes.len()
    &&& start + 4 + item_length_at(bytes, start) <= bytes.len()
    &&& vector_fits_at(item_at(bytes, start), 0)
}

/// The vectors of the items that follow one another from `start` to the end
/// of the bytes; `None` where one of them does not fit.
pub open spec fn shares_from(bytes: Seq<u8>, start: int) -> Option<Seq<Seq<nat>>>
    decreases bytes.len() - start,
{
    if start >= bytes.len() {
        Some(Seq::empty())
    } else if !item_fits_at(bytes, start) {
        None
    } else {
        match shares_from(bytes, start + 4 + item_length_at(bytes, start)) {
            Some(rest) => Some(seq![vector_at(item_at(bytes, start), 0)] + rest),
            None => None,
        }
    }
}

/// The sum of the `j`-th entries of the first `count` vectors.
pub open spec fn entry_sum(shares: Seq<Seq<nat>>, j: int, count: nat) -> nat
    decreases count,
{
    if count == 0 {
        0
    } else {
        field_add(entry_sum(shares, j, (count - 1) as nat), shares[count - 1][j])
    }
}

/// The sum of the vectors, entry by entry; they are as long as the first.
pub open spec fn sum_of_shares(shares: Seq<Seq<nat>>) -> Seq<nat> {
    Seq::new(shares[0].len(), |j: int| entry_sum(shares, j, shares.len()))
}

/// The bytes that a committee member answers with: the word `committee`,
/// its index as 2 bytes, and its share of the sum as a vector.
pub open spec fn committee_message(index: u16, share: Seq<nat>) -> Seq<u8> {
    seq![0x63u8, 0x6f, 0x6d, 0x6d, 0x69, 0x74, 0x74, 0x65, 0x65] + spec_u16_to_le_bytes(index)
        + encoded_vector(share)
}

/// Reads the items of the server's answer: each a length of 4 bytes and as
/// many bytes, at the start of which stands a vector.
pub fn parse_shares(received: &[u8]) -> (r: Option<Vec<Vec<F128>>>)
    ensures
        match r {
            Some(shares) => shares_from(received@, 0) == Some(matrix_values_of(shares@)),
            None => shares_from(received@, 0) is None,
        },
{
    let total: usize = received.len();
    let mut shares: Vec<Vec<F128>> = Vec::new();
    let mut pos: usize = 0;
    assert(matrix_values_of(shares@) =~= Seq::<Seq<nat>>::empty());
    while pos < total
        invariant
            pos <= total,
            total == received@.len(),
            shares_from(received@, 0) == (match shares_from(received@, pos as int) {
                Some(rest) => Some(matrix_values_of(shares@) + rest),
                None => None,
            }),
        decreases total - pos,
    {
        if total - pos < 4 {
            return None;
        }
        let len: usize = u32_from_le_bytes(slice_subrange(received, pos, pos + 4)) as usize;
        if len > total - pos - 4 {
            return None;
        }
        let item = slice_subrange(received, pos + 4, pos + 4 + len);
        match read_field_vector(item, 0) {
            Some((share, end)) => {
                proof {
                    let before = matrix_values_of(shares@);
                    let next = shares_from(received@, pos + 4 + len);
                    assert(matrix_values_of(shares@.push(share)) =~= before.push(
                        values_of(share@),
                    ));
                    if next is Some {
                        assert(before.push(values_of(share@)) + next.unwrap() =~= before + (
                        seq![values_of(share@)] + next.unwrap()));
                    }
                }
                shares.push(share);
            },
            None => {
                return None;
            },
        }
        pos = pos + 4 + len;
    }
    assert(matrix_values_of(shares@) + Seq::<Seq<nat>>::empty() =~= matrix_values_of(shares@));
    Some(shares)
}

/// The sum of the vectors, entry by entry. They have to be of one length,
/// and one of them at least.
pub fn sum_shares(shares: &Vec<Vec<F128>>) -> (sum: Vec<F128>)
    requires
        shares@.len() > 0,
        forall|i: int|
            0 <= i < shares@.len() ==> (#[trigger] shares@[i])@.len() == shares@[0]@.len(),
    ensures
        values_of(sum@) == sum_of_shares(matrix_values_of(shares@)),
{
    let ghost rows = matrix_values_of(shares@);
    let share_len: usize = shares[0].len();
    let mut output_share: Vec<F128> = Vec::with_capacity(share_len);
    let mut j: usize = 0;
    while j < share_len
        invariant
            j <= share_len,
            share_len == shares@[0]@.len(),
            shares@.len() > 0,
            rows == matrix_values_of(shares@),
            forall|i: int|
                0 <= i < shares@.len() ==> (#[trigger] shares@[i])@.len() == shares@[0]@.len(),
            output_share@.len() == j,
            forall|k: int|
                0 <= k < j ==> (#[trigger] output_share@[k])@ == entry_sum(
                    rows,
                    k,
                    shares@.len() as nat,
                ),
        decreases share_len - j,
    {
        let mut acc: F128 = F128::zero();
        let mut i: usize = 0;
        while i < shares.len()
            invariant
                i <= shares@.len(),
                j < share_len,
                share_len == shares@[0]@.len(),
                rows == matrix_values_of(shares@),
                forall|r: int|
                    0 <= r < shares@.len() ==> (#[trigger] shares@[r])@.len() == shares@[0]@.len(),
                acc@ == entry_sum(rows, j as int, i as nat),
            decreases shares@.len() - i,
        {
            proof {
                assert(rows[i as int][j as int] == shares@[i as int]@[j as int]@);
            }
            acc = acc.add(&shares[i][j]);
            i = i + 1;
        }
        output_share.push(acc);
        j = j + 1;
    }
    assert(rows[0].len() == share_len);
    assert(values_of(output_share@) =~= sum_of_shares(rows));
    output_share
}

/// The bytes that the member with the given index answers with.
pub fn write_committee_message(index: u16, share: &Vec<F128>) -> (message: Vec<u8>)
    ensures
        message@ == committee_message(index, values_of(share@)),
{
    let mut message: Vec<u8> = Vec::new();
    message.push(0x63);
    message.push(0x6f);
    message.push(0x6d);
    message.push(0x6d);
    message.push(0x69);
    message.push(0x74);
    message.push(0x74);
    message.push(0x65);
    message.push(0x65);
    let mut index_bytes = u16_to_le_bytes(index);
    message.append(&mut index_bytes);
    write_field_vector(share, &mut message);
    assert(message@ =~= committee_message(index, values_of(share@)));
    message
}

/// A member of the committee.
pub struct OPACommittee {
    server_state: Option<OPAState>,
    port: u16,
    input_shares: Option<Vec<Vec<F128>>>,
}

impl OPACommittee {
    /// The server's state, where it is set.
    pub closed spec fn server_state(&self) -> Option<OPAStateView> {
        match self.server_state {
            Some(s) => Some(s@),
            None => None,
        }
    }

    /// The port that the member listens on.
    pub closed spec fn port(&self) -> u16 {
        self.port
    }

    /// The values of the shares that were retrieved.
    pub closed spec fn input_shares(&self) -> Option<Seq<Seq<nat>>> {
        match self.input_shares {
            Some(s) => Some(matrix_values_of(s@)),
            None => None,
        }
    }

    /// The member's index: its port is the server's port, plus one, plus the
    /// index.
    pub open spec fn index(&self) -> int {
        self.port() - self.server_state().unwrap().server_port - 1
    }

    /// The shares that were retrieved.
    pub fn get_input_shares(&self) -> (shares: Option<&Vec<Vec<F128>>>)
        ensures
            match shares {
                Some(s) => self.input_shares() == Some(matrix_values_of(s@)),
                None => self.input_shares() is None,
            },
    {
        self.input_shares.as_ref()
    }
}

impl Committee for OPACommittee {
    type ServerState = OPAState;

    type Error = CommitteeError;

    /// Whether the state is set, the member's port lies above the server's,
    /// and shares of one length were retrieved.
    open spec fn ready(&self) -> bool {
        &&& self.server_state() is Some
        &&& self.input_shares() is Some
        &&& 0 <= self.index()
        &&& forall|i: int|
            0 <= i < self.input_shares().unwrap().len() ==> (
            #[trigger] self.input_shares().unwrap()[i]).len()
                == self.input_shares().unwrap()[0].len()
    }

    fn new(port: u16) -> (member: Self)
        ensures
            member.port() == port,
            member.server_state() is None,
            member.input_shares() is None,
    {
        Self { server_state: None, port, input_shares: None }
    }

    fn set_server_state(&mut self, state: Self::ServerState)
        ensures
            final(self).server_state() == Some(state@),
            final(self).port() == old(self).port(),
            final(self).input_shares() == old(self).input_shares(),
    {
        self.server_state = Some(state);
    }

    /// Takes the shares out of the server's answer to the member's signal;
    /// an answer that is no sequence of items is refused, and the member is
    /// left as it was.
    fn retrieve_inputs(&mut self, received: &[u8]) -> (r: Result<(), CommitteeError>)
        ensures
            final(self).server_state() == old(self).server_state(),
            final(self).port() == old(self).port(),
            match r {
                Ok(_) => shares_from(received@, 0) is Some && final(self).input_shares()
                    == shares_from(received@, 0),
                Err(e) => shares_from(received@, 0) is None && final(self).input_shares() == old(
                    self,
                ).input_shares(),
            },
    {
        match parse_shares(received) {
            Some(shares) => {
                self.input_shares = Some(shares);
                Ok(())
            },
            None => Err(CommitteeError::SerializationError),
        }
    }

    /// The member's answer: its index and the sum of its shares; `None`
    /// where it has no shares to sum.
    fn aggregate(&self) -> (message: Option<Vec<u8>>)
        ensures
            match message {
                Some(bytes) => self.input_shares().unwrap().len() > 0 && bytes@
                    == committee_message(
                    self.index() as u16,
                    sum_of_shares(self.input_shares().unwrap()),
                ),
                None => self.input_shares().unwrap().len() == 0,
            },
    {
        let shares: &Vec<Vec<F128>> = self.input_shares.as_ref().unwrap();
        let server_port: u16 = self.server_state.as_ref().unwrap().server_port;
        if shares.len() == 0 {
            return None;
        }
        let index: u16 = self.port - server_port - 1;
        proof {
            let rows = matrix_values_of(shares@);
            assert(self.input_shares() == Some(rows));
            assert forall|i: int| 0 <= i < shares@.len() implies (#[trigger] shares@[i])@.len()
                == shares@[0]@.len() by {
                assert(self.input_shares().unwrap()[i].len() == self.input_shares().unwrap()[0].len());
                assert(rows[i].len() == rows[0].len());
                assert(rows[i] == values_of(shares@[i]@));
                assert(rows[0] == values_of(shares@[0]@));
            }
        }
        let output_share: Vec<F128> = sum_shares(shares);
        Some(write_committee_message(index, &output_share))
    }
}

} // verus!
