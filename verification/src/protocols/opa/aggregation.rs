//! What the server makes of the messages that it holds: the answer to a
//! committee member's signal, the committee's shares by index, the seed that
//! they recover, the sum of the masked inputs, and the sum that is left when
//! the mask is taken off.

use crate::crypto::field::{field_add, field_sub, matrix_values_of, values_of, F128};
use crate::crypto::seed_homomorphic_prg::{LAMBDA, OUTPUT_LENGTH};
use crate::crypto::shamir::{
    denominators_invertible, interpolate_at_zero, lemma_denominators_of_x, points_of, Shamir,
    ShamirError,
};
use crate::protocols::opa::encoding::{decode_values, decoded_value, MAX_SECURITY_PARAMETER};
use crate::crypto::field::field_modulus;
use crate::protocols::opa::committee::committee_message;
use crate::util::wire::{
    encoded_matrix, encoded_vector, lemma_matrix_round_trip, lemma_vector_round_trip, matrix_at,
    read_field_matrix, read_field_vector, serialize_field_vector, vector_at, vector_end,
    vector_fits_at,
};
use vstd::bytes::*;
use vstd::prelude::*;
use vstd::slice::slice_subrange;

verus! {

/// The byte sequences of a list of messages.
pub open spec fn bytes_of(messages: Seq<Vec<u8>>) -> Seq<Seq<u8>> {
    messages.map_values(|m: Vec<u8>| m@)
}

/// The index of the committee member that signals from `signaling_port`:
/// its port is the server's port, plus one, plus the index.
pub open spec fn index_of_port(signaling_port: u16, server_port: u16) -> Option<nat> {
    if signaling_port > server_port {
        Some((signaling_port - server_port - 1) as nat)
    } else {
        None
    }
}

/// The masked input and the shares by party that a client's message holds
/// for a committee of `m` members: a vector as long as an expansion, then a
/// matrix of `m` rows as long as a seed; `None` where the bytes hold no such
/// message.
pub open spec fn client_message(bytes: Seq<u8>, m: nat) -> Option<(Seq<nat>, Seq<Seq<nat>>)> {
    if !vector_fits_at(bytes, 0) || vector_at(bytes, 0).len() != OUTPUT_LENGTH {
        None
    } else {
        match matrix_at(bytes, vector_end(bytes, 0)) {
            Some((rows, end)) => if rows.len() == m && forall|i: int|
                0 <= i < rows.len() ==> (#[trigger] rows[i]).len() == LAMBDA {
                Some((vector_at(bytes, 0), rows))
            } else {
                None
            },
            None => None,
        }
    }
}

/// An item of the server's answer: the length of the body as 4 bytes, then
/// the body.
pub open spec fn item_bytes(body: Seq<u8>) -> Seq<u8> {
    spec_u32_to_le_bytes(body.len() as u32) + body
}

/// The server's answer to the signal of the member with the given index:
/// for each client's message, in order, the member's row of shares as an
/// item. Messages that hold no client's message are passed over.
pub open spec fn reply_for(messages: Seq<Seq<u8>>, index: int, m: nat) -> Seq<u8>
    decreases messages.len(),
{
    if messages.len() == 0 {
        Seq::empty()
    } else {
        let head = reply_for(messages.drop_last(), index, m);
        match client_message(messages.last(), m) {
            Some((c, rows)) => if 0 <= index < m {
                head + item_bytes(encoded_vector(rows[index]))
            } else {
                head
            },
            None => head,
        }
    }
}

/// The index and the share that a committee member's message holds: the
/// word `committee`, the index as 2 bytes, then a vector; `None` where the
/// bytes hold no such message.
pub open spec fn committee_share(bytes: Seq<u8>) -> Option<(u16, Seq<nat>)> {
    if bytes.len() >= 11 && bytes.subrange(0, 9) == seq![
        0x63u8,
        0x6f,
        0x6d,
        0x6d,
        0x69,
        0x74,
        0x74,
        0x65,
        0x65,
    ] && vector_fits_at(bytes, 11) {
        Some((spec_u16_from_le_bytes(bytes.subrange(9, 11)), vector_at(bytes, 11)))
    } else {
        None
    }
}

/// The share of the member with the index `idx` among the first `n`
/// messages: that of the first message that holds a share of the length
/// `len` with that index.
pub open spec fn share_among(messages: Seq<Seq<u8>>, idx: int, len: nat, n: nat) -> Option<
    Seq<nat>,
>
    decreases n,
{
    if n == 0 {
        None
    } else {
        match share_among(messages, idx, len, (n - 1) as nat) {
            Some(share) => Some(share),
            None => match committee_share(messages[n - 1]) {
                Some((index, share)) => if index == idx && share.len() == len {
                    Some(share)
                } else {
                    None
                },
                None => None,
            },
        }
    }
}

/// The shares by index that the messages hold for a committee of `m`
/// members.
pub open spec fn shares_by_index(messages: Seq<Seq<u8>>, m: nat, len: nat) -> Seq<
    Option<Seq<nat>>,
> {
    Seq::new(m, |idx: int| share_among(messages, idx, len, messages.len()))
}

/// The values of shares by index.
pub open spec fn slots_of(slots: Seq<Option<Vec<F128>>>) -> Seq<Option<Seq<nat>>> {
    slots.map_values(
        |s: Option<Vec<F128>>|
            match s {
                Some(v) => Some(values_of(v@)),
                None => None,
            },
    )
}

/// The indices below `n` at which a share stands, in rising order.
pub open spec fn filled_indices(slots: Seq<Option<Seq<nat>>>, n: nat) -> Seq<int>
    decreases n,
{
    if n == 0 {
        Seq::empty()
    } else if slots[n - 1] is Some {
        filled_indices(slots, (n - 1) as nat).push(n - 1)
    } else {
        filled_indices(slots, (n - 1) as nat)
    }
}

/// The points through which the `j`-th entry of the seed is interpolated:
/// for each of the chosen indices, the index plus one and the `j`-th entry of
/// the share at that index.
pub open spec fn points_for(slots: Seq<Option<Seq<nat>>>, chosen: Seq<int>, j: int) -> Seq<
    (nat, nat),
> {
    Seq::new(chosen.len(), |k: int| ((chosen[k] + 1) as nat, slots[chosen[k]].unwrap()[j]))
}

/// The seed that the shares by index recover with the given threshold: each
/// entry interpolated at zero through the shares at the first `threshold`
/// indices at which one stands.
pub open spec fn recovered_seed(slots: Seq<Option<Seq<nat>>>, threshold: nat, len: nat) -> Result<
    Seq<nat>,
    ShamirError,
> {
    let filled = filled_indices(slots, slots.len());
    if filled.len() < threshold {
        Err(ShamirError::InsufficientShares)
    } else if len > 0 && !denominators_invertible(
        points_for(slots, filled.take(threshold as int), 0),
        threshold,
    ) {
        Err(ShamirError::ReconstructionFailed)
    } else {
        Ok(
            Seq::new(
                len,
                |j: int|
                    interpolate_at_zero(
                        points_for(slots, filled.take(threshold as int), j),
                        threshold,
                    ),
            ),
        )
    }
}

/// The sum of the `i`-th entries of the masked inputs that the first `n`
/// messages hold.
pub open spec fn ciphertext_sum(messages: Seq<Seq<u8>>, m: nat, i: int, n: nat) -> nat
    decreases n,
{
    if n == 0 {
        0
    } else {
        let rest = ciphertext_sum(messages, m, i, (n - 1) as nat);
        match client_message(messages[n - 1], m) {
            Some((c, rows)) => field_add(rest, c[i]),
            None => rest,
        }
    }
}

/// The sum of the masked inputs that the messages hold, entry by entry.
pub open spec fn summed_ciphertexts(messages: Seq<Seq<u8>>, m: nat) -> Seq<nat> {
    Seq::new(OUTPUT_LENGTH as nat, |i: int| ciphertext_sum(messages, m, i, messages.len()))
}

/// What is left of the first `count` sums when the mask is taken off,
/// decoded.
pub open spec fn unmasked(aggregated: Seq<nat>, mask: Seq<nat>, count: nat, kappa: nat) -> Seq<
    u32,
> {
    Seq::new(count, |i: int| decoded_value(field_sub(aggregated[i], mask[i]), kappa) as u32)
}

/// The indices at which a share stands are no more than the indices.
pub proof fn lemma_filled_indices(slots: Seq<Option<Seq<nat>>>, n: nat)
    ensures
        filled_indices(slots, n).len() <= n,
    decreases n,
{
    if n > 0 {
        lemma_filled_indices(slots, (n - 1) as nat);
    }
}

/// The index of the committee member that signals from `signaling_port`.
pub fn committee_index(signaling_port: u16, server_port: u16) -> (index: Option<usize>)
    ensures
        match index {
            Some(i) => index_of_port(signaling_port, server_port) == Some(i as nat),
            None => index_of_port(signaling_port, server_port) is None,
        },
{
    if signaling_port > server_port {
        Some((signaling_port - server_port - 1) as usize)
    } else {
        None
    }
}

/// Reads a client's message for a committee of `committee_size` members.
pub fn parse_client_message(bytes: &[u8], committee_size: usize) -> (r: Option<
    (Vec<F128>, Vec<Vec<F128>>),
>)
    ensures
        match r {
            Some((c, rows)) => client_message(bytes@, committee_size as nat) == Some(
                (values_of(c@), matrix_values_of(rows@)),
            ),
            None => client_message(bytes@, committee_size as nat) is None,
        },
{
    let (c, end) = match read_field_vector(bytes, 0) {
        Some(found) => found,
        None => {
            return None;
        },
    };
    assert(values_of(c@).len() == c@.len());
    if c.len() != OUTPUT_LENGTH {
        return None;
    }
    let (rows, _end) = match read_field_matrix(bytes, end) {
        Some(found) => found,
        None => {
            return None;
        },
    };
    let ghost row_values = matrix_values_of(rows@);
    if rows.len() != committee_size {
        return None;
    }
    let mut i: usize = 0;
    while i < rows.len()
        invariant
            i <= rows@.len(),
            row_values == matrix_values_of(rows@),
            vector_fits_at(bytes@, 0),
            vector_at(bytes@, 0).len() == OUTPUT_LENGTH,
            matrix_at(bytes@, vector_end(bytes@, 0)) == Some((row_values, _end as int)),
            forall|k: int| 0 <= k < i ==> (#[trigger] row_values[k]).len() == LAMBDA,
        decreases rows@.len() - i,
    {
        assert(row_values[i as int] == values_of(rows@[i as int]@));
        assert(row_values[i as int].len() == rows@[i as int]@.len());
        if rows[i].len() != LAMBDA {
            return None;
        }
        i = i + 1;
    }
    Some((c, rows))
}

/// Reads a committee member's message.
pub fn parse_committee_message(bytes: &[u8]) -> (r: Option<(u16, Vec<F128>)>)
    ensures
        match r {
            Some((index, share)) => committee_share(bytes@) == Some((index, values_of(share@))),
            None => committee_share(bytes@) is None,
        },
{
    if bytes.len() < 11 {
        return None;
    }
    let word: [u8; 9] = [0x63, 0x6f, 0x6d, 0x6d, 0x69, 0x74, 0x74, 0x65, 0x65];
    let ghost expected = seq![0x63u8, 0x6f, 0x6d, 0x6d, 0x69, 0x74, 0x74, 0x65, 0x65];
    let mut k: usize = 0;
    while k < 9
        invariant
            k <= 9,
            bytes@.len() >= 11,
            word@ == expected,
            expected == seq![0x63u8, 0x6f, 0x6d, 0x6d, 0x69, 0x74, 0x74, 0x65, 0x65],
            forall|i: int| 0 <= i < k ==> bytes@[i] == expected[i],
        decreases 9 - k,
    {
        if bytes[k] != word[k] {
            assert(bytes@.subrange(0, 9)[k as int] != expected[k as int]);
            assert(bytes@.subrange(0, 9) != expected);
            return None;
        }
        k = k + 1;
    }
    assert(bytes@.subrange(0, 9) =~= expected);
    let index: u16 = u16_from_le_bytes(slice_subrange(bytes, 9, 11));
    match read_field_vector(bytes, 11) {
        Some((share, _end)) => Some((index, share)),
        None => None,
    }
}

/// The server's answer to the signal of the committee member with the given
/// index.
pub fn committee_reply(client_messages: &Vec<Vec<u8>>, index: usize, committee_size: usize) -> (reply:
    Vec<u8>)
    ensures
        reply@ == reply_for(bytes_of(client_messages@), index as int, committee_size as nat),
{
    let ghost messages = bytes_of(client_messages@);
    let mut reply: Vec<u8> = Vec::new();
    let mut k: usize = 0;
    assert(messages.take(0) =~= Seq::<Seq<u8>>::empty());
    while k < client_messages.len()
        invariant
            k <= client_messages@.len(),
            messages == bytes_of(client_messages@),
            reply@ == reply_for(messages.take(k as int), index as int, committee_size as nat),
        decreases client_messages@.len() - k,
    {
        proof {
            let next = messages.take(k + 1);
            assert(next.drop_last() =~= messages.take(k as int));
            assert(next.last() == client_messages@[k as int]@);
        }
        match parse_client_message(client_messages[k].as_slice(), committee_size) {
            Some((_c, rows)) => {
                if index < committee_size {
                    let mut body: Vec<u8> = serialize_field_vector(&rows[index]);
                    let mut head: Vec<u8> = u32_to_le_bytes(body.len() as u32);
                    proof {
                        assert(matrix_values_of(rows@)[index as int] == values_of(
                            rows@[index as int]@,
                        ));
                        crate::util::wire::lemma_encoded_length(values_of(rows@[index as int]@));
                    }
                    reply.append(&mut head);
                    reply.append(&mut body);
                }
            },
            None => {},
        }
        k = k + 1;
    }
    assert(messages.take(client_messages@.len() as int) =~= messages);
    reply
}

/// The shares by index that the committee's messages hold: each member's
/// share stands at the member's index. A message that holds no share, or one
/// with an index that no member has, or one of another length than `len`, is
/// passed over; of two shares with one index the first stays.
pub fn collect_shares(committee_messages: &Vec<Vec<u8>>, committee_size: usize, len: usize) -> (slots:
    Vec<Option<Vec<F128>>>)
    ensures
        slots_of(slots@) == shares_by_index(
            bytes_of(committee_messages@),
            committee_size as nat,
            len as nat,
        ),
        slots@.len() == committee_size,
        forall|idx: int|
            0 <= idx < slots@.len() && (#[trigger] slots@[idx]) is Some ==> slots@[idx].unwrap()@.len()
                == len,
{
    let ghost messages = bytes_of(committee_messages@);
    let mut slots: Vec<Option<Vec<F128>>> = Vec::new();
    let mut i: usize = 0;
    while i < committee_size
        invariant
            i <= committee_size,
            slots@.len() == i,
            forall|k: int| 0 <= k < i ==> (#[trigger] slots@[k]) is None,
        decreases committee_size - i,
    {
        slots.push(None);
        i = i + 1;
    }
    let mut k: usize = 0;
    while k < committee_messages.len()
        invariant
            k <= committee_messages@.len(),
            messages == bytes_of(committee_messages@),
            slots@.len() == committee_size,
            forall|idx: int|
                0 <= idx < slots@.len() && (#[trigger] slots@[idx]) is Some
                    ==> slots@[idx].unwrap()@.len() == len,
            forall|idx: int|
                0 <= idx < committee_size ==> #[trigger] slots_of(slots@)[idx] == share_among(
                    messages,
                    idx,
                    len as nat,
                    k as nat,
                ),
        decreases committee_messages@.len() - k,
    {
        let ghost before = slots_of(slots@);
        assert(messages[k as int] == committee_messages@[k as int]@);
        match parse_committee_message(committee_messages[k].as_slice()) {
            Some((index, share)) => {
                let at: usize = index as usize;
                if at < committee_size && share.len() == len {
                    assert(values_of(share@).len() == share@.len());
                    if slots[at].is_none() {
                        slots.set(at, Some(share));
                        assert(slots_of(slots@)[at as int] == Some(values_of(share@)));
                    }
                }
                assert(values_of(share@).len() == share@.len());
                assert forall|idx: int| 0 <= idx < committee_size implies #[trigger] slots_of(
                    slots@,
                )[idx] == share_among(messages, idx, len as nat, (k + 1) as nat) by {
                    assert(before[idx] == share_among(messages, idx, len as nat, k as nat));
                    if idx != at {
                        assert(slots_of(slots@)[idx] == before[idx]);
                    }
                }
            },
            None => {
                assert forall|idx: int| 0 <= idx < committee_size implies #[trigger] slots_of(
                    slots@,
                )[idx] == share_among(messages, idx, len as nat, (k + 1) as nat) by {
                    assert(before[idx] == share_among(messages, idx, len as nat, k as nat));
                }
            },
        }
        k = k + 1;
    }
    assert(slots_of(slots@) =~= shares_by_index(messages, committee_size as nat, len as nat));
    slots
}

/// The seed that the shares by index recover: each entry interpolated at
/// zero through the shares at the first `threshold` indices at which one
/// stands. Fewer shares than the threshold are refused, and so are shares of
/// which a denominator has no inverse. Every share has to be `len` long.
pub fn reconstruct_seed(slots: &Vec<Option<Vec<F128>>>, threshold: usize, len: usize) -> (r: Result<
    Vec<F128>,
    ShamirError,
>)
    requires
        forall|idx: int|
            0 <= idx < slots@.len() && (#[trigger] slots@[idx]) is Some ==> slots@[idx].unwrap()@.len()
                == len,
    ensures
        match r {
            Ok(seed) => recovered_seed(slots_of(slots@), threshold as nat, len as nat) == Ok::<
                Seq<nat>,
                ShamirError,
            >(values_of(seed@)),
            Err(e) => recovered_seed(slots_of(slots@), threshold as nat, len as nat) == Err::<
                Seq<nat>,
                ShamirError,
            >(e),
        },
{
    let ghost shares = slots_of(slots@);
    let mut filled: Vec<usize> = Vec::new();
    let mut idx: usize = 0;
    while idx < slots.len()
        invariant
            idx <= slots@.len(),
            shares == slots_of(slots@),
            filled@.len() == filled_indices(shares, idx as nat).len(),
            forall|k: int|
                0 <= k < filled@.len() ==> #[trigger] filled@[k] == filled_indices(
                    shares,
                    idx as nat,
                )[k],
            forall|k: int|
                0 <= k < filled@.len() ==> 0 <= #[trigger] filled@[k] < idx && slots@[filled@[k] as int] is Some,
        decreases slots@.len() - idx,
    {
        assert(shares[idx as int] is Some <==> slots@[idx as int] is Some);
        if slots[idx].is_some() {
            filled.push(idx);
        }
        idx = idx + 1;
    }
    if filled.len() < threshold {
        return Err(ShamirError::InsufficientShares);
    }
    let ghost chosen = filled_indices(shares, slots@.len() as nat).take(threshold as int);
    let total: usize = slots.len();
    let shamir = Shamir::new(total, threshold);
    let mut seed: Vec<F128> = Vec::with_capacity(len);
    let mut j: usize = 0;
    while j < len
        invariant
            j <= len,
            total == slots@.len(),
            shares == slots_of(slots@),
            shamir.threshold() == threshold,
            threshold <= filled@.len(),
            chosen == filled_indices(shares, slots@.len() as nat).take(threshold as int),
            filled@.len() == filled_indices(shares, slots@.len() as nat).len(),
            forall|k: int|
                0 <= k < filled@.len() ==> #[trigger] filled@[k] == filled_indices(
                    shares,
                    slots@.len() as nat,
                )[k],
            forall|k: int|
                0 <= k < filled@.len() ==> 0 <= #[trigger] filled@[k] < slots@.len()
                    && slots@[filled@[k] as int] is Some,
            forall|i: int|
                0 <= i < slots@.len() && (#[trigger] slots@[i]) is Some
                    ==> slots@[i].unwrap()@.len() == len,
            seed@.len() == j,
            j > 0 ==> denominators_invertible(points_for(shares, chosen, 0), threshold as nat),
            forall|c: int|
                0 <= c < j ==> (#[trigger] seed@[c])@ == interpolate_at_zero(
                    points_for(shares, chosen, c),
                    threshold as nat,
                ),
        decreases len - j,
    {
        let mut pairs: Vec<(F128, F128)> = Vec::with_capacity(threshold);
        let mut k: usize = 0;
        while k < threshold
            invariant
                k <= threshold,
                j < len,
                total == slots@.len(),
                shares == slots_of(slots@),
                threshold <= filled@.len(),
                chosen == filled_indices(shares, slots@.len() as nat).take(threshold as int),
                filled@.len() == filled_indices(shares, slots@.len() as nat).len(),
                forall|q: int|
                    0 <= q < filled@.len() ==> #[trigger] filled@[q] == filled_indices(
                        shares,
                        slots@.len() as nat,
                    )[q],
                forall|q: int|
                    0 <= q < filled@.len() ==> 0 <= #[trigger] filled@[q] < slots@.len()
                        && slots@[filled@[q] as int] is Some,
                forall|i: int|
                    0 <= i < slots@.len() && (#[trigger] slots@[i]) is Some
                        ==> slots@[i].unwrap()@.len() == len,
                pairs@.len() == k,
                forall|q: int|
                    0 <= q < k ==> points_of(pairs@)[q] == #[trigger] points_for(
                        shares,
                        chosen,
                        j as int,
                    )[q],
            decreases threshold - k,
        {
            let at: usize = filled[k];
            assert(filled@[k as int] == at);
            assert(0 <= filled@[k as int] < slots@.len());
            assert(filled@[k as int] == filled_indices(shares, slots@.len() as nat)[k as int]);
            let x: F128 = F128::from_u64((at + 1) as u64);
            let share: &Vec<F128> = slots[at].as_ref().unwrap();
            let y: F128 = share[j];
            proof {
                assert(chosen[k as int] == at);
                assert(shares[at as int] == Some(values_of(slots@[at as int].unwrap()@)));
                assert(points_for(shares, chosen, j as int)[k as int] == (x@, y@));
            }
            pairs.push((x, y));
            assert(points_of(pairs@)[k as int] == (x@, y@));
            k = k + 1;
        }
        proof {
            assert(points_of(pairs@) =~= points_for(shares, chosen, j as int));
            lemma_denominators_of_x(
                points_for(shares, chosen, j as int),
                points_for(shares, chosen, 0),
                threshold as nat,
            );
        }
        match shamir.reconstruct(pairs.as_slice()) {
            Ok(value) => {
                seed.push(value);
            },
            Err(e) => {
                return Err(e);
            },
        }
        j = j + 1;
    }
    proof {
        assert(values_of(seed@) =~= Seq::new(
            len as nat,
            |c: int| interpolate_at_zero(points_for(shares, chosen, c), threshold as nat),
        ));
    }
    Ok(seed)
}

/// The sum of the masked inputs that the clients' messages hold, entry by
/// entry. Messages that hold no client's message are passed over.
pub fn sum_ciphertexts(client_messages: &Vec<Vec<u8>>, committee_size: usize) -> (sum: Vec<F128>)
    ensures
        values_of(sum@) == summed_ciphertexts(bytes_of(client_messages@), committee_size as nat),
{
    let ghost messages = bytes_of(client_messages@);
    let mut sum: Vec<F128> = Vec::with_capacity(OUTPUT_LENGTH);
    let mut i: usize = 0;
    while i < OUTPUT_LENGTH
        invariant
            i <= OUTPUT_LENGTH,
            sum@.len() == i,
            forall|k: int| 0 <= k < i ==> (#[trigger] sum@[k])@ == 0,
        decreases OUTPUT_LENGTH - i,
    {
        sum.push(F128::zero());
        i = i + 1;
    }
    let mut n: usize = 0;
    while n < client_messages.len()
        invariant
            n <= client_messages@.len(),
            messages == bytes_of(client_messages@),
            sum@.len() == OUTPUT_LENGTH,
            forall|k: int|
                0 <= k < OUTPUT_LENGTH ==> (#[trigger] sum@[k])@ == ciphertext_sum(
                    messages,
                    committee_size as nat,
                    k,
                    n as nat,
                ),
        decreases client_messages@.len() - n,
    {
        assert(messages[n as int] == client_messages@[n as int]@);
        match parse_client_message(client_messages[n].as_slice(), committee_size) {
            Some((c, _rows)) => {
                assert(values_of(c@).len() == c@.len());
                let mut k: usize = 0;
                while k < OUTPUT_LENGTH
                    invariant
                        k <= OUTPUT_LENGTH,
                        n < client_messages@.len(),
                        messages == bytes_of(client_messages@),
                        sum@.len() == OUTPUT_LENGTH,
                        c@.len() == OUTPUT_LENGTH,
                        client_message(messages[n as int], committee_size as nat) is Some,
                        client_message(messages[n as int], committee_size as nat).unwrap().0
                            == values_of(c@),
                        forall|q: int|
                            0 <= q < k ==> (#[trigger] sum@[q])@ == ciphertext_sum(
                                messages,
                                committee_size as nat,
                                q,
                                (n + 1) as nat,
                            ),
                        forall|q: int|
                            k <= q < OUTPUT_LENGTH ==> (#[trigger] sum@[q])@ == ciphertext_sum(
                                messages,
                                committee_size as nat,
                                q,
                                n as nat,
                            ),
                    decreases OUTPUT_LENGTH - k,
                {
                    let total: F128 = sum[k].add(&c[k]);
                    assert(values_of(c@)[k as int] == c@[k as int]@);
                    sum.set(k, total);
                    k = k + 1;
                }
            },
            None => {},
        }
        n = n + 1;
    }
    assert(values_of(sum@) =~= summed_ciphertexts(messages, committee_size as nat));
    sum
}

/// Takes the mask off the first `count` sums and decodes what is left.
pub fn unmask_and_decode(aggregated: &Vec<F128>, mask: &Vec<F128>, count: usize, kappa: u64) -> (decoded:
    Vec<u32>)
    requires
        count <= aggregated@.len(),
        count <= mask@.len(),
        kappa <= MAX_SECURITY_PARAMETER,
    ensures
        decoded@ == unmasked(
            values_of(aggregated@),
            values_of(mask@),
            count as nat,
            kappa as nat,
        ),
{
    let mut unmasked_sums: Vec<u128> = Vec::with_capacity(count);
    let mut i: usize = 0;
    while i < count
        invariant
            i <= count,
            count <= aggregated@.len(),
            count <= mask@.len(),
            unmasked_sums@.len() == i,
            forall|k: int|
                0 <= k < i ==> #[trigger] unmasked_sums@[k] == field_sub(
                    aggregated@[k]@,
                    mask@[k]@,
                ),
        decreases count - i,
    {
        unmasked_sums.push(aggregated[i].sub(&mask[i]).to_u128());
        i = i + 1;
    }
    let decoded: Vec<u32> = decode_values(&unmasked_sums, kappa);
    assert(decoded@ =~= unmasked(
        values_of(aggregated@),
        values_of(mask@),
        count as nat,
        kappa as nat,
    ));
    decoded
}

/// Whether the bytes hold a share of the length `len` for the index `idx`.
pub open spec fn holds_share(bytes: Seq<u8>, idx: int, len: nat) -> bool {
    match committee_share(bytes) {
        Some((index, share)) => index == idx && share.len() == len,
        None => false,
    }
}

/// Whether no two of the messages hold shares of the length `len` for one
/// index.
pub open spec fn indices_distinct(messages: Seq<Seq<u8>>, len: nat) -> bool {
    forall|i: int, j: int, idx: int|
        0 <= i < messages.len() && 0 <= j < messages.len() && i != j && #[trigger] holds_share(
            messages[i],
            idx,
            len,
        ) ==> !#[trigger] holds_share(messages[j], idx, len)
}

/// Whether two lists hold the same messages, in whatever order.
pub open spec fn same_messages(a: Seq<Seq<u8>>, b: Seq<Seq<u8>>) -> bool {
    forall|m: Seq<u8>| a.contains(m) <==> b.contains(m)
}

/// A share that is found among the first messages is held by one of them.
pub proof fn lemma_share_among_is_held(messages: Seq<Seq<u8>>, idx: int, len: nat, n: nat) -> (k: int)
    requires
        n <= messages.len(),
        share_among(messages, idx, len, n) is Some,
    ensures
        0 <= k < n,
        holds_share(messages[k], idx, len),
        committee_share(messages[k]).unwrap().1 == share_among(messages, idx, len, n).unwrap(),
    decreases n,
{
    if share_among(messages, idx, len, (n - 1) as nat) is Some {
        lemma_share_among_is_held(messages, idx, len, (n - 1) as nat)
    } else {
        n - 1
    }
}

/// Where no two messages hold a share for one index, the share of a message
/// is the one that is found for its index.
pub proof fn lemma_held_share_is_found(messages: Seq<Seq<u8>>, idx: int, len: nat, n: nat, k: int)
    requires
        n <= messages.len(),
        0 <= k < n,
        holds_share(messages[k], idx, len),
        indices_distinct(messages, len),
    ensures
        share_among(messages, idx, len, n) == Some(committee_share(messages[k]).unwrap().1),
    decreases n,
{
    if k < n - 1 {
        lemma_held_share_is_found(messages, idx, len, (n - 1) as nat, k);
    } else {
        if share_among(messages, idx, len, (n - 1) as nat) is Some {
            let j = lemma_share_among_is_held(messages, idx, len, (n - 1) as nat);
            assert(holds_share(messages[j], idx, len));
            assert(!holds_share(messages[k], idx, len));
        }
    }
}

/// The order in which the committee's messages arrive does not matter:
/// where two lists hold the same messages, and none of them two shares for
/// one index, the shares by index are the same, and so is the seed that they
/// recover.
pub proof fn lemma_order_of_arrival(
    a: Seq<Seq<u8>>,
    b: Seq<Seq<u8>>,
    m: nat,
    len: nat,
    threshold: nat,
)
    requires
        same_messages(a, b),
        indices_distinct(a, len),
        indices_distinct(b, len),
    ensures
        shares_by_index(a, m, len) == shares_by_index(b, m, len),
        recovered_seed(shares_by_index(a, m, len), threshold, len) == recovered_seed(
            shares_by_index(b, m, len),
            threshold,
            len,
        ),
{
    assert forall|idx: int| 0 <= idx < m implies share_among(a, idx, len, a.len())
        == share_among(b, idx, len, b.len()) by {
        if share_among(a, idx, len, a.len()) is Some {
            let k = lemma_share_among_is_held(a, idx, len, a.len());
            assert(a.contains(a[k]));
            let j = choose|j: int| 0 <= j < b.len() && b[j] == a[k];
            lemma_held_share_is_found(b, idx, len, b.len(), j);
        } else if share_among(b, idx, len, b.len()) is Some {
            let k = lemma_share_among_is_held(b, idx, len, b.len());
            assert(b.contains(b[k]));
            let j = choose|j: int| 0 <= j < a.len() && a[j] == b[k];
            lemma_held_share_is_found(a, idx, len, a.len(), j);
        }
    }
    assert(shares_by_index(a, m, len) =~= shares_by_index(b, m, len));
}

/// What a committee member writes is what the server reads: the message
/// that is written for an index and a share holds that index and that share.
pub proof fn lemma_committee_message_round_trip(index: u16, share: Seq<nat>)
    requires
        share.len() <= u64::MAX,
        forall|k: int| 0 <= k < share.len() ==> #[trigger] share[k] < field_modulus(),
    ensures
        committee_share(committee_message(index, share)) == Some((index, share)),
{
    let word = seq![0x63u8, 0x6f, 0x6d, 0x6d, 0x69, 0x74, 0x74, 0x65, 0x65];
    let bytes = committee_message(index, share);
    let prefix = word + spec_u16_to_le_bytes(index);
    lemma_auto_spec_u16_to_from_le_bytes();
    assert(prefix.len() == 11);
    assert(bytes =~= prefix + encoded_vector(share) + Seq::<u8>::empty());
    lemma_vector_round_trip(prefix, share, Seq::<u8>::empty());
    assert(bytes.subrange(0, 9) =~= word);
    assert(bytes.subrange(9, 11) =~= spec_u16_to_le_bytes(index));
}

/// What a client writes is what the server reads: the bytes of a masked
/// input as long as an expansion, followed by those of `m` rows of shares as
/// long as a seed, hold that masked input and those rows.
pub proof fn lemma_client_message_round_trip(c: Seq<nat>, rows: Seq<Seq<nat>>, m: nat)
    requires
        c.len() == OUTPUT_LENGTH,
        rows.len() == m,
        m <= u64::MAX,
        forall|k: int| 0 <= k < c.len() ==> #[trigger] c[k] < field_modulus(),
        forall|i: int| 0 <= i < rows.len() ==> (#[trigger] rows[i]).len() == LAMBDA,
        forall|i: int, k: int|
            0 <= i < rows.len() && 0 <= k < rows[i].len() ==> #[trigger] rows[i][k]
                < field_modulus(),
    ensures
        client_message(encoded_vector(c) + encoded_matrix(rows), m) == Some((c, rows)),
{
    let bytes = encoded_vector(c) + encoded_matrix(rows);
    let empty = Seq::<u8>::empty();
    assert(bytes =~= empty + encoded_vector(c) + encoded_matrix(rows));
    lemma_vector_round_trip(empty, c, encoded_matrix(rows));
    assert(bytes =~= encoded_vector(c) + encoded_matrix(rows) + empty);
    lemma_matrix_round_trip(encoded_vector(c), rows, empty);
}

} // verus!
