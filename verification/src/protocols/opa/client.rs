//! The client of the aggregation protocol: it encodes its input, masks it
//! with the expansion of a fresh seed, and shares the seed among the
//! committee.

use crate::crypto::field::{field_add, field_modulus, matrix_values_of, values_of, F128};
use crate::crypto::prg::{default_prg, generator_position, generator_seed, populate_random};
use crate::crypto::seed_homomorphic_prg::{
    expansion, public_matrix, SeedHomomorphicPRG, LAMBDA, OUTPUT_LENGTH,
};
use crate::crypto::shamir::{points_of, poly_eval, shares_of, Shamir};
use crate::protocols::base::client::Client;
use crate::protocols::opa::encoding::{
    decode_values, decoded_value, encode_with_noise, encodes, lemma_decode_encode,
    lemma_encoding_decodes, MAX_SECURITY_PARAMETER,
};
use crate::protocols::opa::server::{OPAState, OPAStateView};
use crate::util::packing::{
    lemma_unpack_pack, pack_vector, packed, padded, unpack_vector, unpacked, unsigned_values,
    Packable,
};
use crate::util::wire::{encoded_matrix, encoded_vector, write_field_matrix, write_field_vector};
use rand_chacha::ChaCha20Rng;
use vstd::arithmetic::div_mod::*;
use vstd::arithmetic::mul::*;
use vstd::arithmetic::power2::{lemma_pow2_pos, pow2};
use vstd::prelude::*;

verus! {

/// The `i`-th encoding, or zero past the end.
pub open spec fn encoding_at(encoded: Seq<u128>, i: int) -> nat {
    if 0 <= i < encoded.len() {
        encoded[i] as nat
    } else {
        0
    }
}

/// Whether `c` is `mask` with an encoding of `x` added.
pub open spec fn masks_value(c: nat, x: nat, mask: nat, kappa: nat) -> bool {
    exists|e: nat| #[trigger] encodes(e, x, kappa) && c == field_add(e, mask)
}

/// Whether `c` is the mask with an encoding of each packed value added at
/// its place, and the mask alone past the last of them.
pub open spec fn masks_input(c: Seq<nat>, packed: Seq<u32>, mask: Seq<nat>, kappa: nat) -> bool {
    &&& c.len() == mask.len()
    &&& packed.len() <= c.len()
    &&& forall|i: int|
        0 <= i < packed.len() ==> masks_value(#[trigger] c[i], packed[i] as nat, mask[i], kappa)
    &&& forall|i: int| packed.len() <= i < c.len() ==> #[trigger] c[i] == field_add(0, mask[i])
}

/// Whether the `j`-th entries of the rows are the shares of `secret` under
/// the polynomial with the coefficients `coeffs`: the row of the `i`-th
/// party holds the value at `i + 1`.
pub open spec fn is_sharing_of(
    rows: Seq<Seq<nat>>,
    j: int,
    coeffs: Seq<nat>,
    secret: nat,
    threshold: nat,
) -> bool {
    &&& coeffs.len() == threshold
    &&& coeffs[0] == secret
    &&& forall|i: int| 0 <= i < rows.len() ==> (#[trigger] rows[i])[j] == poly_eval(
        coeffs,
        (i + 1) as nat,
    )
}

/// Whether the `j`-th entries of the rows are shares of `secret` under some
/// polynomial of degree below the threshold.
pub open spec fn shares_secret(rows: Seq<Seq<nat>>, j: int, secret: nat, threshold: nat) -> bool {
    exists|coeffs: Seq<nat>| #[trigger] is_sharing_of(rows, j, coeffs, secret, threshold)
}

/// Whether the rows share the seed entry by entry, each entry under a
/// polynomial of its own of degree below the threshold.
pub open spec fn shares_seed(rows: Seq<Seq<nat>>, seed: Seq<nat>, threshold: nat) -> bool {
    &&& forall|i: int| 0 <= i < rows.len() ==> (#[trigger] rows[i]).len() == seed.len()
    &&& forall|j: int|
        0 <= j < seed.len() ==> shares_secret(rows, j, #[trigger] seed[j], threshold)
}

/// Adds each encoding to the mask at its place; past the last encoding the
/// mask stands alone.
pub fn mask_encoded(encoded: &Vec<u128>, mask: &Vec<F128>) -> (masked: Vec<F128>)
    requires
        encoded@.len() <= mask@.len(),
    ensures
        masked@.len() == mask@.len(),
        forall|i: int|
            0 <= i < mask@.len() ==> (#[trigger] masked@[i])@ == field_add(
                encoding_at(encoded@, i) % field_modulus(),
                mask@[i]@,
            ),
{
    let mut masked: Vec<F128> = Vec::with_capacity(mask.len());
    let mut i: usize = 0;
    while i < mask.len()
        invariant
            i <= mask@.len(),
            encoded@.len() <= mask@.len(),
            masked@.len() == i,
            forall|k: int|
                0 <= k < i ==> (#[trigger] masked@[k])@ == field_add(
                    encoding_at(encoded@, k) % field_modulus(),
                    mask@[k]@,
                ),
        decreases mask@.len() - i,
    {
        let e: u128 = if i < encoded.len() {
            encoded[i]
        } else {
            0
        };
        masked.push(F128::from_u128(e).add(&mask[i]));
        i = i + 1;
    }
    masked
}

/// Shares every entry of the seed under the given parameters, and gives the
/// shares by party: the `i`-th row holds the shares of the party `i`, one for
/// each entry of the seed.
pub fn share_seed(shamir: &Shamir, seed: &Vec<F128>, rng: &mut ChaCha20Rng) -> (rows: Vec<
    Vec<F128>,
>)
    requires
        shamir.threshold() >= 2,
        shamir.num_shares() >= shamir.threshold(),
    ensures
        rows@.len() == shamir.num_shares(),
        generator_seed(*final(rng)) == generator_seed(*old(rng)),
        forall|i: int| 0 <= i < rows@.len() ==> (#[trigger] rows@[i])@.len() == seed@.len(),
        forall|i: int, j: int|
            0 <= i < rows@.len() && 0 <= j < seed@.len() ==> (#[trigger] rows@[i]@[j])@
                == poly_eval(
                shamir.coefficients(
                    seed@[j]@,
                    generator_seed(*old(rng)),
                    (generator_position(*old(rng)) + j * (4 * (shamir.threshold() - 1))) as nat,
                ),
                (i + 1) as nat,
            ),
{
    let ghost gseed = generator_seed(*rng);
    let ghost start = generator_position(*rng);
    let ghost stride: int = 4 * (shamir.threshold() - 1);
    let m: usize = shamir.num_shares();
    let mut columns: Vec<Vec<(F128, F128)>> = Vec::with_capacity(seed.len());
    let mut j: usize = 0;
    assert(0 * stride == 0);
    while j < seed.len()
        invariant
            j <= seed@.len(),
            m == shamir.num_shares(),
            shamir.threshold() >= 2,
            shamir.num_shares() >= shamir.threshold(),
            stride == 4 * (shamir.threshold() - 1),
            generator_seed(*rng) == gseed,
            generator_position(*rng) == start + j * stride,
            columns@.len() == j,
            forall|k: int|
                0 <= k < j ==> points_of((#[trigger] columns@[k])@) == shares_of(
                    shamir.coefficients(seed@[k]@, gseed, (start + k * stride) as nat),
                    m as nat,
                ),
        decreases seed@.len() - j,
    {
        let column = shamir.share(seed[j], rng).unwrap();
        columns.push(column);
        proof {
            assert((j + 1) * stride == j * stride + stride) by (nonlinear_arith);
        }
        j = j + 1;
    }
    let mut rows: Vec<Vec<F128>> = Vec::with_capacity(m);
    let mut i: usize = 0;
    while i < m
        invariant
            i <= m,
            m == shamir.num_shares(),
            columns@.len() == seed@.len(),
            rows@.len() == i,
            forall|k: int|
                0 <= k < columns@.len() ==> points_of((#[trigger] columns@[k])@) == shares_of(
                    shamir.coefficients(seed@[k]@, gseed, (start + k * stride) as nat),
                    m as nat,
                ),
            forall|r: int| 0 <= r < i ==> (#[trigger] rows@[r])@.len() == seed@.len(),
            forall|r: int, c: int|
                0 <= r < i && 0 <= c < seed@.len() ==> (#[trigger] rows@[r]@[c])@ == poly_eval(
                    shamir.coefficients(seed@[c]@, gseed, (start + c * stride) as nat),
                    (r + 1) as nat,
                ),
        decreases m - i,
    {
        let mut row: Vec<F128> = Vec::with_capacity(seed.len());
        let mut c: usize = 0;
        while c < seed.len()
            invariant
                c <= seed@.len(),
                i < m,
                columns@.len() == seed@.len(),
                row@.len() == c,
                forall|k: int|
                    0 <= k < columns@.len() ==> points_of((#[trigger] columns@[k])@) == shares_of(
                        shamir.coefficients(seed@[k]@, gseed, (start + k * stride) as nat),
                        m as nat,
                    ),
                forall|k: int|
                    0 <= k < c ==> (#[trigger] row@[k])@ == poly_eval(
                        shamir.coefficients(seed@[k]@, gseed, (start + k * stride) as nat),
                        (i + 1) as nat,
                    ),
            decreases seed@.len() - c,
        {
            proof {
                let pts = points_of(columns@[c as int]@);
                assert(pts.len() == m);
                assert(pts[i as int] == (
                    columns@[c as int]@[i as int].0@,
                    columns@[c as int]@[i as int].1@,
                ));
            }
            let y: F128 = columns[c][i].1;
            row.push(y);
            c = c + 1;
        }
        rows.push(row);
        i = i + 1;
    }
    rows
}

/// A client with inputs of the type `T`.
pub struct OPAClient<T> {
    input: Option<Vec<T>>,
    server_state: Option<OPAState>,
    encrypted_output: Option<(Vec<F128>, Vec<Vec<F128>>)>,
    last_seed: Option<Vec<F128>>,
}

impl<T: Packable> OPAClient<T> {
    /// The input, where one is set.
    pub closed spec fn input(&self) -> Option<Seq<T>> {
        match self.input {
            Some(v) => Some(v@),
            None => None,
        }
    }

    /// The server's state, where it is set.
    pub closed spec fn server_state(&self) -> Option<OPAStateView> {
        match self.server_state {
            Some(s) => Some(s@),
            None => None,
        }
    }

    /// The values of the masked input and of the shares by party, once the
    /// input is encrypted.
    pub closed spec fn output(&self) -> Option<(Seq<nat>, Seq<Seq<nat>>)> {
        match self.encrypted_output {
            Some(o) => Some((values_of(o.0@), matrix_values_of(o.1@))),
            None => None,
        }
    }

    /// The values of the seed that the input was last encrypted with.
    pub closed spec fn seed(&self) -> Option<Seq<nat>> {
        match self.last_seed {
            Some(s) => Some(values_of(s@)),
            None => None,
        }
    }

    /// The packed input.
    pub open spec fn packed_input(&self) -> Seq<u32> {
        packed(unsigned_values(self.input().unwrap()), T::bit_width())
    }

    /// Whether an input and a state are set, and the state allows no more
    /// noise than an encoding has room for.
    pub open spec fn can_encode(&self) -> bool {
        &&& self.input() is Some
        &&& self.server_state() is Some
        &&& self.server_state().unwrap().security_parameter <= MAX_SECURITY_PARAMETER
    }

    /// The input, where one is set.
    pub fn get_input(&self) -> (input: Option<&Vec<T>>)
        ensures
            match input {
                Some(v) => self.input() == Some(v@),
                None => self.input() is None,
            },
    {
        self.input.as_ref()
    }

    /// The port that the server listens on, where the server's state is set.
    pub fn server_port(&self) -> (port: Option<u16>)
        ensures
            match port {
                Some(p) => self.server_state() is Some && self.server_state().unwrap().server_port
                    == p,
                None => self.server_state() is None,
            },
    {
        match self.server_state.as_ref() {
            Some(state) => Some(state.server_port),
            None => None,
        }
    }

    /// Nothing is to be set up on a client.
    pub fn setup(&self) {
    }

    /// The masked input and the shares by party, once the input is
    /// encrypted.
    pub fn encrypted_output(&self) -> (output: Option<&(Vec<F128>, Vec<Vec<F128>>)>)
        ensures
            match output {
                Some(o) => self.output() == Some((values_of(o.0@), matrix_values_of(o.1@))),
                None => self.output() is None,
            },
    {
        self.encrypted_output.as_ref()
    }

    /// The seed that the input was last encrypted with.
    pub fn last_seed(&self) -> (seed: Option<&Vec<F128>>)
        ensures
            match seed {
                Some(s) => self.seed() == Some(values_of(s@)),
                None => self.seed() is None,
            },
    {
        self.last_seed.as_ref()
    }

    /// Packs the input and encodes every packed value with fresh noise of as
    /// many bits as the server's state asks for.
    pub fn encode_input(&self) -> (encoded: Vec<u128>)
        requires
            self.can_encode(),
        ensures
            encoded@.len() == self.packed_input().len(),
            forall|i: int|
                0 <= i < encoded@.len() ==> encodes(
                    #[trigger] encoded@[i] as nat,
                    self.packed_input()[i] as nat,
                    self.server_state().unwrap().security_parameter as nat,
                ),
            forall|i: int|
                0 <= i < encoded@.len() ==> #[trigger] encoded@[i]
                    < 0x1000_0000_0000_0000_0000_0000,
    {
        let input: &Vec<T> = self.input.as_ref().unwrap();
        let kappa: u64 = self.server_state.as_ref().unwrap().security_parameter;
        let packed_input: Vec<u32> = pack_vector(input);
        let mut random_numbers: Vec<u64> = Vec::with_capacity(packed_input.len());
        let mut k: usize = 0;
        while k < packed_input.len()
            invariant
                k <= packed_input@.len(),
                random_numbers@.len() == k,
            decreases packed_input@.len() - k,
        {
            random_numbers.push(0);
            k = k + 1;
        }
        let mut rng = default_prg();
        populate_random(&mut random_numbers, &mut rng);
        let encoded = encode_with_noise(&packed_input, &random_numbers, kappa);
        proof {
            assert forall|i: int| 0 <= i < encoded@.len() implies encodes(
                #[trigger] encoded@[i] as nat,
                self.packed_input()[i] as nat,
                kappa as nat,
            ) by {
                lemma_pow2_pos(kappa as nat);
                lemma_mod_bound(random_numbers@[i] as int, pow2(kappa as nat) as int);
                lemma_decode_encode(
                    packed_input@[i] as nat,
                    random_numbers@[i] as nat % pow2(kappa as nat),
                    kappa as nat,
                );
            }
        }
        encoded
    }

    /// Decodes every sum of encodings and unpacks the sums.
    pub fn decode_output(&self, output: Vec<u128>) -> (result: Vec<T>)
        requires
            self.server_state() is Some,
            self.server_state().unwrap().security_parameter <= MAX_SECURITY_PARAMETER,
        ensures
            unsigned_values(result@) == unpacked(
                Seq::new(
                    output@.len(),
                    |i: int|
                        decoded_value(
                            output@[i] as nat,
                            self.server_state().unwrap().security_parameter as nat,
                        ) as u32,
                ),
                T::bit_width(),
            ),
    {
        let kappa: u64 = self.server_state.as_ref().unwrap().security_parameter;
        let decoded: Vec<u32> = decode_values(&output, kappa);
        assert(decoded@ =~= Seq::new(
            output@.len(),
            |i: int| decoded_value(output@[i] as nat, kappa as nat) as u32,
        ));
        unpack_vector(&decoded)
    }

    /// Whether the input can be encrypted: it can be encoded, its packing is
    /// no longer than an expansion, and the state's threshold is at least
    /// two and at most the committee's size.
    pub open spec fn can_encrypt(&self) -> bool {
        &&& self.can_encode()
        &&& self.packed_input().len() <= OUTPUT_LENGTH
        &&& self.server_state().unwrap().reconstruction_threshold >= 2
        &&& self.server_state().unwrap().committee_size
            >= self.server_state().unwrap().reconstruction_threshold
        &&& self.server_state().unwrap().committee_size <= usize::MAX
    }
}

impl<T: Packable> Client<T> for OPAClient<T> {
    type Output = (Vec<F128>, Vec<Vec<F128>>);

    type ServerState = OPAState;

    open spec fn ready(&self) -> bool {
        self.can_encrypt()
    }

    fn new() -> (client: Self)
        ensures
            client.input() is None,
            client.server_state() is None,
            client.output() is None,
            client.seed() is None,
    {
        Self { input: None, server_state: None, encrypted_output: None, last_seed: None }
    }

    fn set_input(&mut self, input: Vec<T>)
        ensures
            final(self).input() == Some(input@),
            final(self).server_state() == old(self).server_state(),
            final(self).output() == old(self).output(),
            final(self).seed() == old(self).seed(),
    {
        self.input = Some(input);
    }

    fn set_server_state(&mut self, state: Self::ServerState)
        ensures
            final(self).server_state() == Some(state@),
            final(self).input() == old(self).input(),
            final(self).output() == old(self).output(),
            final(self).seed() == old(self).seed(),
    {
        self.server_state = Some(state);
    }

    /// Masks the encoded input with the expansion of a fresh seed under the
    /// public matrix of the server's seed, and shares the seed among the
    /// committee.
    fn encrypt_input(&mut self)
        ensures
            final(self).input() == old(self).input(),
            final(self).server_state() == old(self).server_state(),
            final(self).seed() is Some,
            final(self).output() is Some,
            final(self).seed().unwrap().len() == LAMBDA,
            masks_input(
                final(self).output().unwrap().0,
                old(self).packed_input(),
                expansion(
                    public_matrix(old(self).server_state().unwrap().succinct_seed),
                    final(self).seed().unwrap(),
                ),
                old(self).server_state().unwrap().security_parameter as nat,
            ),
            final(self).output().unwrap().0.len() == OUTPUT_LENGTH,
            final(self).output().unwrap().1.len() == old(
                self,
            ).server_state().unwrap().committee_size,
            shares_seed(
                final(self).output().unwrap().1,
                final(self).seed().unwrap(),
                old(self).server_state().unwrap().reconstruction_threshold as nat,
            ),
    {
        let state: &OPAState = self.server_state.as_ref().unwrap();
        let succinct_seed: [u8; 32] = state.succinct_seed;
        let kappa: u64 = state.security_parameter;
        let num_shares: usize = state.committee_size as usize;
        let threshold: usize = state.reconstruction_threshold as usize;
        let shprg = SeedHomomorphicPRG::new_from_public_seed(succinct_seed);
        let encoded_input: Vec<u128> = self.encode_input();
        let mask: Vec<F128> = shprg.expand();
        let ghost mask_values = expansion(public_matrix(succinct_seed@), shprg.seed_values());
        assert(mask@.len() == OUTPUT_LENGTH) by {
            assert(values_of(mask@).len() == mask@.len());
        }
        let masked_input: Vec<F128> = mask_encoded(&encoded_input, &mask);
        let shamir = Shamir::new(num_shares, threshold);
        let seed: &Vec<F128> = shprg.get_seed();
        let mut rng = default_prg();
        let ghost gseed = generator_seed(rng);
        let ghost start = generator_position(rng);
        let shares: Vec<Vec<F128>> = share_seed(&shamir, seed, &mut rng);
        let kept: Vec<F128> = seed.clone();
        proof {
            assert(kept@ =~= seed@);
            let c = values_of(masked_input@);
            let packed_values = self.packed_input();
            assert forall|i: int| 0 <= i < packed_values.len() implies masks_value(
                #[trigger] c[i],
                packed_values[i] as nat,
                mask_values[i],
                kappa as nat,
            ) by {
                let e = encoded_input@[i] as nat;
                lemma_small_mod(e, field_modulus());
                assert(values_of(mask@)[i] == mask@[i]@);
                assert(encodes(e, packed_values[i] as nat, kappa as nat) && c[i] == field_add(
                    e,
                    mask_values[i],
                ));
            }
            assert forall|i: int| packed_values.len() <= i < c.len() implies #[trigger] c[i]
                == field_add(0, mask_values[i]) by {
                lemma_small_mod(0, field_modulus());
                assert(values_of(mask@)[i] == mask@[i]@);
            }
            let rows = matrix_values_of(shares@);
            let s = values_of(seed@);
            assert forall|j: int| 0 <= j < s.len() implies shares_secret(
                rows,
                j,
                #[trigger] s[j],
                threshold as nat,
            ) by {
                let coeffs = shamir.coefficients(
                    seed@[j]@,
                    gseed,
                    (start + j * (4 * (shamir.threshold() - 1))) as nat,
                );
                assert forall|i: int| 0 <= i < rows.len() implies (#[trigger] rows[i])[j]
                    == poly_eval(coeffs, (i + 1) as nat) by {
                    assert(rows[i][j] == shares@[i]@[j]@);
                }
                assert(is_sharing_of(rows, j, coeffs, s[j], threshold as nat));
            }
            assert forall|i: int| 0 <= i < rows.len() implies (#[trigger] rows[i]).len()
                == s.len() by {
                assert(rows[i] == values_of(shares@[i]@));
            }
        }
        self.last_seed = Some(kept);
        self.encrypted_output = Some((masked_input, shares));
    }

    /// The bytes of the masked input, then those of the shares by party.
    fn input_message(&self) -> (message: Option<Vec<u8>>)
        ensures
            match message {
                Some(bytes) => self.output() is Some && bytes@ == encoded_vector(
                    self.output().unwrap().0,
                ) + encoded_matrix(self.output().unwrap().1),
                None => self.output() is None,
            },
    {
        match self.encrypted_output.as_ref() {
            Some(output) => {
                let mut bytes: Vec<u8> = Vec::new();
                write_field_vector(&output.0, &mut bytes);
                write_field_matrix(&output.1, &mut bytes);
                Some(bytes)
            },
            None => None,
        }
    }
}

/// A client gets its own input back: where every packed value of an input
/// is encoded, whatever the noise, decoding the encodings and unpacking what
/// they decode to gives the input, followed by the zeros that filled the
/// last word.
pub proof fn lemma_decoding_inverts_encoding(
    input: Seq<nat>,
    bits: nat,
    encoded: Seq<nat>,
    kappa: nat,
)
    requires
        bits == 8 || bits == 16 || bits == 32,
        forall|k: int| 0 <= k < input.len() ==> #[trigger] input[k] < pow2(bits),
        encoded.len() == packed(input, bits).len(),
        forall|i: int|
            0 <= i < encoded.len() ==> encodes(
                #[trigger] encoded[i],
                packed(input, bits)[i] as nat,
                kappa,
            ),
    ensures
        unpacked(Seq::new(encoded.len(), |i: int| decoded_value(encoded[i], kappa) as u32), bits)
            == padded(input, bits),
{
    let words = packed(input, bits);
    let decoded = Seq::new(encoded.len(), |i: int| decoded_value(encoded[i], kappa) as u32);
    assert forall|i: int| 0 <= i < words.len() implies decoded[i] == words[i] by {
        assert(encodes(encoded[i], words[i] as nat, kappa));
        lemma_encoding_decodes(encoded[i], words[i] as nat, kappa);
    }
    assert(decoded =~= words);
    lemma_unpack_pack(input, bits);
}

} // verus!
