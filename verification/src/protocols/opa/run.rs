//! A run in which every party does what the protocol asks of it, and what
//! the server makes of it: the sums of the clients' inputs.

use crate::crypto::field::{field_add, field_modulus, lemma_field_ranges};
use crate::crypto::seed_homomorphic_prg::{expansion, public_matrix, LAMBDA, OUTPUT_LENGTH};
use crate::crypto::shamir::{denominators_invertible, interpolate_at_zero, poly_eval, ShamirError};
use crate::crypto::units::SMALL_BOUND;
use crate::protocols::opa::aggregation::{
    ciphertext_sum, client_message, committee_share, filled_indices, holds_share,
    indices_distinct, lemma_client_message_round_trip, lemma_committee_message_round_trip,
    lemma_filled_indices, lemma_held_share_is_found, lemma_share_among_is_held, points_for,
    recovered_seed,
    share_among, shares_by_index, summed_ciphertexts, unmasked,
};
use crate::protocols::opa::correctness::{
    entry_sum_plain, field_sum, lemma_committee_recovers_sum, lemma_entry_sum_of_column,
    lemma_entry_sum_range, lemma_run_decodes, sums_of, values_at,
};
use crate::protocols::opa::committee::{committee_message, entry_sum, sum_of_shares};
use crate::protocols::opa::encoding::{
    encodes, INPUT_LENGTH, MAX_SECURITY_PARAMETER, NUM_PARTIES_UPPER_BOUND,
};
use crate::protocols::opa::server::{aggregation_of, AggregationError, OPAStateView};
use crate::util::wire::{encoded_matrix, encoded_vector};
use vstd::arithmetic::div_mod::*;
use vstd::prelude::*;

verus! {

/// What the parties of a run hold.
pub struct Run {
    /// The server's public state.
    pub state: OPAStateView,
    /// The packed input of each client.
    pub inputs: Seq<Seq<nat>>,
    /// The encodings of the packed values of each client.
    pub encodings: Seq<Seq<nat>>,
    /// The seed of each client.
    pub seeds: Seq<Seq<nat>>,
    /// For each client and each entry of its seed, the coefficients of the
    /// polynomial that the entry is shared under.
    pub coefficients: Seq<Seq<Seq<nat>>>,
    /// The indices of the committee members whose messages the server got,
    /// in the order in which it got them.
    pub members: Seq<int>,
}

impl Run {
    /// The number of clients.
    pub open spec fn clients(self) -> nat {
        self.inputs.len()
    }

    /// The number of committee members.
    pub open spec fn committee_size(self) -> nat {
        self.state.committee_size as nat
    }

    /// The number of members that recover a seed.
    pub open spec fn threshold(self) -> nat {
        self.state.reconstruction_threshold as nat
    }

    /// The public matrix of the run.
    pub open spec fn matrix(self) -> Seq<Seq<nat>> {
        public_matrix(self.state.succinct_seed)
    }

    /// The `i`-th encoding of the client `k`, or zero past its input.
    pub open spec fn encoding(self, k: int, i: int) -> nat {
        if i < INPUT_LENGTH {
            self.encodings[k][i]
        } else {
            0
        }
    }

    /// The masked input of the client `k`: the expansion of its seed, with
    /// its encodings added.
    pub open spec fn ciphertext(self, k: int) -> Seq<nat> {
        Seq::new(
            OUTPUT_LENGTH as nat,
            |i: int| field_add(self.encoding(k, i), expansion(self.matrix(), self.seeds[k])[i]),
        )
    }

    /// The shares of the seed of the client `k`, by committee member: the
    /// member with the index `i` gets the values at `i + 1`.
    pub open spec fn shares(self, k: int) -> Seq<Seq<nat>> {
        Seq::new(
            self.committee_size(),
            |i: int|
                Seq::new(
                    LAMBDA as nat,
                    |j: int| poly_eval(self.coefficients[k][j], (i + 1) as nat),
                ),
        )
    }

    /// The message of the client `k`.
    pub open spec fn client_message(self, k: int) -> Seq<u8> {
        encoded_vector(self.ciphertext(k)) + encoded_matrix(self.shares(k))
    }

    /// The messages of all the clients.
    pub open spec fn client_messages(self) -> Seq<Seq<u8>> {
        Seq::new(self.clients(), |k: int| self.client_message(k))
    }

    /// The masked inputs of all the clients.
    pub open spec fn ciphertexts(self) -> Seq<Seq<nat>> {
        Seq::new(self.clients(), |k: int| self.ciphertext(k))
    }

    /// What the member with the index `idx` gets from the server: its row of
    /// each client's shares.
    pub open spec fn rows_of(self, idx: int) -> Seq<Seq<nat>> {
        Seq::new(self.clients(), |k: int| self.shares(k)[idx])
    }

    /// The message of the member with the index `idx`: the sum of its rows.
    pub open spec fn committee_message(self, idx: int) -> Seq<u8> {
        committee_message(idx as u16, sum_of_shares(self.rows_of(idx)))
    }

    /// The committee's messages, in the order in which the server got them.
    pub open spec fn committee_messages(self) -> Seq<Seq<u8>> {
        Seq::new(self.members.len(), |q: int| self.committee_message(self.members[q]))
    }

    /// Whether every party did what the protocol asks of it: there is a
    /// client, and no more clients than the encoding leaves room for; every
    /// client has encoded a packed input of `INPUT_LENGTH` values, and shared
    /// every entry of its seed under a polynomial with as many coefficients
    /// as the threshold; and the server got the messages of as many
    /// different members as the threshold, or more.
    pub open spec fn honest(self) -> bool {
        &&& 1 <= self.clients()
        &&& self.encodings.len() == self.clients()
        &&& self.seeds.len() == self.clients()
        &&& self.coefficients.len() == self.clients()
        &&& forall|k: int|
            0 <= k < self.clients() ==> (#[trigger] self.inputs[k]).len() == INPUT_LENGTH
        &&& forall|k: int|
            0 <= k < self.clients() ==> (#[trigger] self.encodings[k]).len() == INPUT_LENGTH
        &&& forall|k: int, i: int|
            0 <= k < self.clients() && 0 <= i < INPUT_LENGTH ==> (#[trigger] self.inputs[k][i])
                < 0x1_0000_0000
        &&& forall|k: int, i: int|
            0 <= k < self.clients() && 0 <= i < INPUT_LENGTH ==> encodes(
                #[trigger] self.encodings[k][i],
                self.inputs[k][i],
                self.state.security_parameter as nat,
            )
        &&& forall|k: int| 0 <= k < self.clients() ==> (#[trigger] self.seeds[k]).len() == LAMBDA
        &&& forall|k: int|
            0 <= k < self.clients() ==> (#[trigger] self.coefficients[k]).len() == LAMBDA
        &&& forall|k: int, j: int|
            0 <= k < self.clients() && 0 <= j < LAMBDA ==> (
            #[trigger] self.coefficients[k][j]).len() == self.threshold()
                && self.coefficients[k][j][0] == self.seeds[k][j]
        &&& 1 <= self.threshold() <= self.members.len()
        &&& forall|q: int|
            0 <= q < self.members.len() ==> 0 <= #[trigger] self.members[q]
                < self.committee_size()
        &&& forall|q: int, r: int|
            0 <= q < self.members.len() && 0 <= r < self.members.len() && q != r
                ==> #[trigger] self.members[q] != #[trigger] self.members[r]
    }
}

/// The value of a polynomial is a field value.
pub proof fn lemma_poly_eval_range(coeffs: Seq<nat>, x: nat)
    ensures
        poly_eval(coeffs, x) < field_modulus(),
{
    if coeffs.len() > 0 {
        lemma_field_ranges(
            crate::crypto::field::field_mul(poly_eval(coeffs.skip(1), x), x),
            coeffs[0],
        );
    }
}

/// The server reads from a client's message what the client put in.
proof fn lemma_client_message_is_read(run: Run, k: int)
    requires
        run.honest(),
        0 <= k < run.clients(),
        run.committee_size() <= u64::MAX,
    ensures
        client_message(run.client_message(k), run.committee_size()) == Some(
            (run.ciphertext(k), run.shares(k)),
        ),
{
    let c = run.ciphertext(k);
    let rows = run.shares(k);
    assert forall|i: int| 0 <= i < c.len() implies #[trigger] c[i] < field_modulus() by {
        lemma_field_ranges(run.encoding(k, i), expansion(run.matrix(), run.seeds[k])[i]);
    }
    assert forall|i: int, j: int| 0 <= i < rows.len() && 0 <= j < rows[i].len() implies (
    #[trigger] rows[i][j]) < field_modulus() by {
        lemma_poly_eval_range(run.coefficients[k][j], (i + 1) as nat);
    }
    lemma_client_message_round_trip(c, rows, run.committee_size());
}

/// The sum of the masked inputs that the server reads is the sum of the
/// masked inputs that the clients sent.
proof fn lemma_ciphertexts_are_summed(run: Run, i: int, n: nat)
    requires
        run.honest(),
        run.committee_size() <= u64::MAX,
        n <= run.clients(),
        0 <= i < OUTPUT_LENGTH,
    ensures
        ciphertext_sum(run.client_messages(), run.committee_size(), i, n) == entry_sum(
            run.ciphertexts(),
            i,
            n,
        ),
    decreases n,
{
    if n > 0 {
        lemma_ciphertexts_are_summed(run, i, (n - 1) as nat);
        lemma_client_message_is_read(run, n - 1);
        assert(run.client_messages()[n - 1] == run.client_message(n - 1));
        assert(run.ciphertexts()[n - 1] == run.ciphertext(n - 1));
    }
}

/// The share that the member with the index `idx` sends is as long as a
/// seed, and its entries are field values.
proof fn lemma_member_share(run: Run, idx: int)
    requires
        run.honest(),
        0 <= idx < run.committee_size(),
    ensures
        sum_of_shares(run.rows_of(idx)).len() == LAMBDA,
        forall|j: int|
            0 <= j < LAMBDA ==> #[trigger] sum_of_shares(run.rows_of(idx))[j] < field_modulus(),
{
    let rows = run.rows_of(idx);
    assert(rows[0] == run.shares(0)[idx]);
    assert forall|j: int| 0 <= j < LAMBDA implies #[trigger] sum_of_shares(rows)[j]
        < field_modulus() by {
        lemma_entry_sum_range(rows, j, rows.len());
    }
}

/// The server reads from a member's message the member's index and its
/// share.
proof fn lemma_committee_message_is_read(run: Run, idx: int)
    requires
        run.honest(),
        0 <= idx < run.committee_size(),
        run.committee_size() <= 0x1_0000,
    ensures
        committee_share(run.committee_message(idx)) == Some(
            (idx as u16, sum_of_shares(run.rows_of(idx))),
        ),
        holds_share(run.committee_message(idx), idx, LAMBDA as nat),
        forall|other: int|
            other != idx ==> !holds_share(run.committee_message(idx), other, LAMBDA as nat),
{
    lemma_member_share(run, idx);
    lemma_committee_message_round_trip(idx as u16, sum_of_shares(run.rows_of(idx)));
}

/// No two of the committee's messages hold shares for one index.
proof fn lemma_members_are_distinct(run: Run)
    requires
        run.honest(),
        run.committee_size() <= 0x1_0000,
    ensures
        indices_distinct(run.committee_messages(), LAMBDA as nat),
{
    let messages = run.committee_messages();
    assert forall|i: int, j: int, idx: int|
        0 <= i < messages.len() && 0 <= j < messages.len() && i != j && #[trigger] holds_share(
            messages[i],
            idx,
            LAMBDA as nat,
        ) implies !#[trigger] holds_share(messages[j], idx, LAMBDA as nat) by {
        lemma_committee_message_is_read(run, run.members[i]);
        lemma_committee_message_is_read(run, run.members[j]);
        assert(run.members[i] != run.members[j]);
    }
}

/// The shares by index that the server collects: at the index of each
/// member whose message it got stands that member's share, and nothing
/// stands at any other index.
proof fn lemma_collected_shares(run: Run, idx: int)
    requires
        run.honest(),
        run.committee_size() <= 0x1_0000,
        0 <= idx < run.committee_size(),
    ensures
        run.members.contains(idx) ==> shares_by_index(
            run.committee_messages(),
            run.committee_size(),
            LAMBDA as nat,
        )[idx] == Some(sum_of_shares(run.rows_of(idx))),
        !run.members.contains(idx) ==> shares_by_index(
            run.committee_messages(),
            run.committee_size(),
            LAMBDA as nat,
        )[idx] is None,
{
    let messages = run.committee_messages();
    let found = share_among(messages, idx, LAMBDA as nat, messages.len());
    lemma_members_are_distinct(run);
    if run.members.contains(idx) {
        let q = choose|q: int| 0 <= q < run.members.len() && run.members[q] == idx;
        lemma_committee_message_is_read(run, idx);
        assert(messages[q] == run.committee_message(idx));
        lemma_held_share_is_found(messages, idx, LAMBDA as nat, messages.len(), q);
    } else if found is Some {
        let k = lemma_share_among_is_held(messages, idx, LAMBDA as nat, messages.len());
        lemma_committee_message_is_read(run, run.members[k]);
        assert(run.members[k] == idx);
        assert(run.members.contains(idx));
    }
}

/// The indices at which a share stands are indices at which a share
/// stands, and they rise.
proof fn lemma_filled_indices_rise(slots: Seq<Option<Seq<nat>>>, n: nat)
    requires
        n <= slots.len(),
    ensures
        forall|q: int|
            0 <= q < filled_indices(slots, n).len() ==> 0 <= #[trigger] filled_indices(
                slots,
                n,
            )[q] < n && slots[filled_indices(slots, n)[q]] is Some,
        forall|q: int, r: int|
            0 <= q < r < filled_indices(slots, n).len() ==> #[trigger] filled_indices(slots, n)[q]
                < #[trigger] filled_indices(slots, n)[r],
    decreases n,
{
    if n > 0 {
        lemma_filled_indices_rise(slots, (n - 1) as nat);
    }
}

/// There are at least as many indices at which a share stands as there are
/// different indices below `n` in a list of indices at which a share stands.
proof fn lemma_filled_indices_count(slots: Seq<Option<Seq<nat>>>, n: nat, members: Seq<int>)
    requires
        n <= slots.len(),
        forall|q: int|
            0 <= q < members.len() ==> 0 <= #[trigger] members[q] < n && slots[members[q]] is Some,
        forall|q: int, r: int|
            0 <= q < members.len() && 0 <= r < members.len() && q != r ==> #[trigger] members[q]
                != #[trigger] members[r],
    ensures
        members.len() <= filled_indices(slots, n).len(),
    decreases n,
{
    if n == 0 {
        if members.len() > 0 {
            let first = members[0];
            assert(0 <= first < n);
        }
    } else {
        let last = n - 1;
        if members.contains(last) {
            let q = choose|q: int| 0 <= q < members.len() && members[q] == last;
            let rest = members.remove(q);
            assert forall|r: int| 0 <= r < rest.len() implies 0 <= #[trigger] rest[r] < n - 1
                && slots[rest[r]] is Some by {
                if r < q {
                    assert(rest[r] == members[r]);
                    assert(members[r] != members[q]);
                } else {
                    assert(rest[r] == members[r + 1]);
                    assert(members[r + 1] != members[q]);
                }
            }
            assert forall|r: int, s: int|
                0 <= r < rest.len() && 0 <= s < rest.len() && r != s implies #[trigger] rest[r]
                != #[trigger] rest[s] by {
                let r2 = if r < q {
                    r
                } else {
                    r + 1
                };
                let s2 = if s < q {
                    s
                } else {
                    s + 1
                };
                assert(rest[r] == members[r2]);
                assert(rest[s] == members[s2]);
                assert(members[r2] != members[s2]);
            }
            lemma_filled_indices_count(slots, (n - 1) as nat, rest);
        } else {
            assert forall|r: int| 0 <= r < members.len() implies 0 <= #[trigger] members[r] < n
                - 1 && slots[members[r]] is Some by {
                assert(members.contains(members[r]));
            }
            lemma_filled_indices_count(slots, (n - 1) as nat, members);
        }
    }
}

/// The shares that the server collects in a run.
pub open spec fn collected(run: Run) -> Seq<Option<Seq<nat>>> {
    shares_by_index(run.committee_messages(), run.committee_size(), LAMBDA as nat)
}

/// The indices of the members whose shares the server interpolates through.
pub open spec fn chosen(run: Run) -> Seq<int> {
    filled_indices(collected(run), run.committee_size()).take(run.threshold() as int)
}

/// The sums of the clients' seeds, entry by entry.
pub open spec fn seed_sums(run: Run) -> Seq<nat> {
    sums_of(run.seeds, run.clients(), LAMBDA as nat)
}

/// The sums of the clients' packed inputs, entry by entry, in 32 bits.
pub open spec fn input_sums(run: Run) -> Seq<u32> {
    Seq::new(
        INPUT_LENGTH as nat,
        |i: int| (entry_sum_plain(run.inputs, i, run.clients()) % 0x1_0000_0000) as u32,
    )
}

/// The server has the shares of enough members, and those that it chooses
/// are different members whose messages it got.
proof fn lemma_chosen_members(run: Run)
    requires
        run.honest(),
        run.committee_size() <= 0x1_0000,
    ensures
        run.threshold() <= filled_indices(collected(run), run.committee_size()).len(),
        run.threshold() <= run.committee_size(),
        chosen(run).len() == run.threshold(),
        forall|q: int|
            0 <= q < run.threshold() ==> 0 <= #[trigger] chosen(run)[q] < run.committee_size()
                && collected(run)[chosen(run)[q]] == Some(
                sum_of_shares(run.rows_of(chosen(run)[q])),
            ),
        forall|q: int, r: int|
            0 <= q < run.threshold() && 0 <= r < run.threshold() && q != r
                ==> #[trigger] chosen(run)[q] != #[trigger] chosen(run)[r],
{
    let m = run.committee_size();
    let slots = collected(run);
    let filled = filled_indices(slots, m);
    assert forall|q: int| 0 <= q < run.members.len() implies 0 <= #[trigger] run.members[q] < m
        && slots[run.members[q]] is Some by {
        assert(run.members.contains(run.members[q]));
        lemma_collected_shares(run, run.members[q]);
    }
    lemma_filled_indices_count(slots, m, run.members);
    lemma_filled_indices_rise(slots, m);
    lemma_filled_indices(slots, m);
    assert forall|q: int| 0 <= q < run.threshold() implies 0 <= #[trigger] chosen(run)[q] < m
        && slots[chosen(run)[q]] == Some(sum_of_shares(run.rows_of(chosen(run)[q]))) by {
        assert(chosen(run)[q] == filled[q]);
        lemma_collected_shares(run, filled[q]);
    }
    assert forall|q: int, r: int|
        0 <= q < run.threshold() && 0 <= r < run.threshold() && q != r implies #[trigger] chosen(
        run,
    )[q] != #[trigger] chosen(run)[r] by {
        assert(chosen(run)[q] == filled[q]);
        assert(chosen(run)[r] == filled[r]);
        if q < r {
            assert(filled[q] < filled[r]);
        } else {
            assert(filled[r] < filled[q]);
        }
    }
}

/// The server recovers the sum of the clients' seeds, entry by entry.
proof fn lemma_seed_entry_is_recovered(run: Run, j: int)
    requires
        run.honest(),
        run.committee_size() < SMALL_BOUND,
        0 <= j < LAMBDA,
    ensures
        denominators_invertible(points_for(collected(run), chosen(run), j), run.threshold()),
        interpolate_at_zero(points_for(collected(run), chosen(run), j), run.threshold())
            == entry_sum(run.seeds, j, run.clients()),
{
    let n = run.clients();
    let t = run.threshold();
    let members = chosen(run);
    let points = points_for(collected(run), members, j);
    let coefficients = Seq::new(n, |k: int| run.coefficients[k][j]);
    lemma_chosen_members(run);
    assert forall|q: int| 0 <= q < t implies #[trigger] points[q] == (
        (members[q] + 1) as nat,
        field_sum(values_at(coefficients, (members[q] + 1) as nat), n),
    ) by {
        let idx = members[q];
        let rows = run.rows_of(idx);
        let column = values_at(coefficients, (idx + 1) as nat);
        assert(collected(run)[idx] == Some(sum_of_shares(rows)));
        assert(rows[0] == run.shares(0)[idx]);
        assert forall|k: int| 0 <= k < n implies #[trigger] column[k] == rows[k][j] by {
            assert(rows[k] == run.shares(k)[idx]);
        }
        lemma_entry_sum_of_column(rows, column, j, n);
    }
    assert forall|k: int| 0 <= k < n implies (#[trigger] coefficients[k]).len() == t by {
        assert(run.coefficients[k][j].len() == t);
    }
    lemma_committee_recovers_sum(coefficients, n, t, members, run.committee_size(), points);
    // the constant terms are the entries of the seeds
    let secrets = Seq::new(n, |k: int| run.seeds[k][j]);
    assert forall|k: int| 0 <= k < n implies #[trigger] secrets[k] == coefficients[k][0] by {
        assert(run.coefficients[k][j][0] == run.seeds[k][j]);
    }
    lemma_entry_sum_of_column(coefficients, secrets, 0, n);
    lemma_entry_sum_of_column(run.seeds, secrets, j, n);
}

/// The server recovers the sum of the clients' seeds.
proof fn lemma_seed_is_recovered(run: Run)
    requires
        run.honest(),
        run.committee_size() < SMALL_BOUND,
    ensures
        recovered_seed(collected(run), run.threshold(), LAMBDA as nat) == Ok::<
            Seq<nat>,
            ShamirError,
        >(seed_sums(run)),
{
    lemma_chosen_members(run);
    lemma_seed_entry_is_recovered(run, 0);
    let recovered = Seq::new(
        LAMBDA as nat,
        |j: int| interpolate_at_zero(points_for(collected(run), chosen(run), j), run.threshold()),
    );
    assert forall|j: int| 0 <= j < LAMBDA implies #[trigger] recovered[j] == seed_sums(
        run,
    )[j] by {
        lemma_seed_entry_is_recovered(run, j);
    }
    assert(recovered =~= seed_sums(run));
}

/// A run ends with the sums of the inputs: where every party does what the
/// protocol asks of it, with no more than 40 bits of noise, at most half as
/// many clients as the encoding leaves room for, and fewer committee members
/// than `SMALL_BOUND`, what the server aggregates the messages to is the
/// sums of the clients' packed inputs, entry by entry, in 32 bits.
pub proof fn lemma_run_aggregates(run: Run)
    requires
        run.honest(),
        run.state.security_parameter <= MAX_SECURITY_PARAMETER,
        2 * run.clients() <= NUM_PARTIES_UPPER_BOUND,
        run.committee_size() < SMALL_BOUND,
    ensures
        aggregation_of(run.state, run.client_messages(), run.committee_messages()) == Ok::<
            Seq<u32>,
            AggregationError,
        >(input_sums(run)),
{
    let n = run.clients();
    let kappa = run.state.security_parameter as nat;
    let messages = run.client_messages();
    let aggregated = summed_ciphertexts(messages, run.committee_size());
    let mask = expansion(run.matrix(), seed_sums(run));
    lemma_seed_is_recovered(run);
    let decoded = unmasked(aggregated, mask, INPUT_LENGTH as nat, kappa);
    assert forall|i: int| 0 <= i < INPUT_LENGTH implies #[trigger] decoded[i] == input_sums(
        run,
    )[i] by {
        lemma_ciphertexts_are_summed(run, i, n);
        assert forall|k: int| 0 <= k < n implies (#[trigger] run.ciphertexts()[k])[i]
            == field_add(run.encodings[k][i], expansion(run.matrix(), run.seeds[k])[i]) by {
            assert(run.ciphertexts()[k] == run.ciphertext(k));
        }
        assert forall|k: int| 0 <= k < n implies encodes(
            (#[trigger] run.encodings[k])[i],
            run.inputs[k][i],
            kappa,
        ) by {
            assert(encodes(run.encodings[k][i], run.inputs[k][i], kappa));
        }
        assert forall|k: int| 0 <= k < n implies (#[trigger] run.inputs[k])[i]
            < 0x1_0000_0000 by {
            assert(run.inputs[k][i] < 0x1_0000_0000);
        }
        lemma_run_decodes(
            run.matrix(),
            run.seeds,
            run.inputs,
            run.encodings,
            run.ciphertexts(),
            kappa,
            i,
        );
        lemma_mod_bound(entry_sum_plain(run.inputs, i, n) as int, 0x1_0000_0000);
    }
    assert(decoded =~= input_sums(run));
}

} // verus!
