//! The server of the aggregation protocol: its parameters, its public state,
//! and the sum that it recovers.

use crate::crypto::field::{values_of, F128};
use crate::crypto::prg::{default_prg, populate_random_bytes};
use crate::crypto::seed_homomorphic_prg::{
    expansion, public_matrix, SeedHomomorphicPRG, LAMBDA, OUTPUT_LENGTH,
};
use crate::crypto::shamir::ShamirError;
use crate::protocols::base::server::Server;
use crate::protocols::opa::aggregation::{
    bytes_of, collect_shares, lemma_filled_indices, reconstruct_seed,
    recovered_seed, shares_by_index, sum_ciphertexts, summed_ciphertexts, unmask_and_decode,
    unmasked,
};
use crate::protocols::opa::encoding::{INPUT_LENGTH, MAX_SECURITY_PARAMETER};
use vstd::prelude::*;

verus! {

/// What a run is set up with.
#[derive(Clone, Copy, Debug)]
pub struct OPASetupParameters {
    /// The number of bits of noise in an encoded input.
    pub security_parameter: u64,
    /// The number of committee members that may be corrupt.
    pub corruption_threshold: u64,
    /// The number of committee members that recover a seed.
    pub reconstruction_threshold: u64,
    /// The number of committee members.
    pub committee_size: u64,
}

impl OPASetupParameters {
    /// The parameters as given.
    pub fn new(
        security_parameter: u64,
        corruption_threshold: u64,
        reconstruction_threshold: u64,
        committee_size: u64,
    ) -> (p: Self)
        ensures
            p.security_parameter == security_parameter,
            p.corruption_threshold == corruption_threshold,
            p.reconstruction_threshold == reconstruction_threshold,
            p.committee_size == committee_size,
    {
        Self { security_parameter, corruption_threshold, reconstruction_threshold, committee_size }
    }

    /// Whether the parameters fit together: no more members recover a seed
    /// than there are, and fewer members may be corrupt than recover a seed.
    pub fn is_consistent(&self) -> (b: bool)
        ensures
            b == (self.reconstruction_threshold <= self.committee_size
                && self.corruption_threshold < self.reconstruction_threshold),
    {
        self.reconstruction_threshold <= self.committee_size && self.corruption_threshold
            < self.reconstruction_threshold
    }
}

/// The server's public state, which every party of a run holds a copy of.
#[derive(Debug)]
pub struct OPAState {
    /// The seed of the public matrix.
    pub succinct_seed: [u8; 32],
    /// The number of bits of noise in an encoded input.
    pub security_parameter: u64,
    /// The number of committee members that may be corrupt.
    pub corruption_threshold: u64,
    /// The number of committee members that recover a seed.
    pub reconstruction_threshold: u64,
    /// The number of committee members.
    pub committee_size: u64,
    /// What each committee member adds to the server's port for its own.
    pub committee_port_offsets: Vec<u16>,
    /// The port that the server listens on.
    pub server_port: u16,
}

/// The public state as plain values.
pub struct OPAStateView {
    /// The seed of the public matrix.
    pub succinct_seed: Seq<u8>,
    /// The number of bits of noise in an encoded input.
    pub security_parameter: u64,
    /// The number of committee members that may be corrupt.
    pub corruption_threshold: u64,
    /// The number of committee members that recover a seed.
    pub reconstruction_threshold: u64,
    /// The number of committee members.
    pub committee_size: u64,
    /// What each committee member adds to the server's port for its own.
    pub committee_port_offsets: Seq<u16>,
    /// The port that the server listens on.
    pub server_port: u16,
}

impl View for OPAState {
    type V = OPAStateView;

    open spec fn view(&self) -> OPAStateView {
        OPAStateView {
            succinct_seed: self.succinct_seed@,
            security_parameter: self.security_parameter,
            corruption_threshold: self.corruption_threshold,
            reconstruction_threshold: self.reconstruction_threshold,
            committee_size: self.committee_size,
            committee_port_offsets: self.committee_port_offsets@,
            server_port: self.server_port,
        }
    }
}

impl Clone for OPAState {
    fn clone(&self) -> (c: Self)
        ensures
            c@ == self@,
    {
        OPAState {
            succinct_seed: self.succinct_seed,
            security_parameter: self.security_parameter,
            corruption_threshold: self.corruption_threshold,
            reconstruction_threshold: self.reconstruction_threshold,
            committee_size: self.committee_size,
            committee_port_offsets: self.committee_port_offsets.clone(),
            server_port: self.server_port,
        }
    }
}

/// The offsets 1, 2, up to `m`.
pub open spec fn port_offsets(m: nat) -> Seq<u16> {
    Seq::new(m, |i: int| (i + 1) as u16)
}

/// Why a run ended without a sum.
#[derive(Clone, Copy, Debug, PartialEq, Eq, Structural)]
pub enum AggregationError {
    /// The committee's shares did not recover the seed.
    Shamir(ShamirError),
    /// The state asks for more noise than an encoding has room for, or for a
    /// committee with more members than there are indices.
    InvariantViolated,
}

/// What the messages of a run aggregate to under the given state: the sum
/// of the masked inputs, less the expansion of the seed that the committee's
/// shares recover, decoded over the first `INPUT_LENGTH` coordinates.
pub open spec fn aggregation_of(
    state: OPAStateView,
    client_messages: Seq<Seq<u8>>,
    committee_messages: Seq<Seq<u8>>,
) -> Result<Seq<u32>, AggregationError> {
    if state.security_parameter > MAX_SECURITY_PARAMETER || state.committee_size > u16::MAX {
        Err(AggregationError::InvariantViolated)
    } else {
        match recovered_seed(
            shares_by_index(committee_messages, state.committee_size as nat, LAMBDA as nat),
            state.reconstruction_threshold as nat,
            LAMBDA as nat,
        ) {
            Err(e) => Err(AggregationError::Shamir(e)),
            Ok(seed) => Ok(
                unmasked(
                    summed_ciphertexts(client_messages, state.committee_size as nat),
                    expansion(public_matrix(state.succinct_seed), seed),
                    INPUT_LENGTH as nat,
                    state.security_parameter as nat,
                ),
            ),
        }
    }
}

/// The server. It keeps the seed of the public matrix, and derives the
/// matrix from it when it takes the mask off.
pub struct OPAServer {
    setup_parameters: OPASetupParameters,
    state: OPAState,
}

impl OPAServer {
    #[verifier::type_invariant]
    spec fn well_formed(self) -> bool {
        &&& self.state.security_parameter == self.setup_parameters.security_parameter
        &&& self.state.corruption_threshold == self.setup_parameters.corruption_threshold
        &&& self.state.reconstruction_threshold == self.setup_parameters.reconstruction_threshold
        &&& self.state.committee_size == self.setup_parameters.committee_size
        &&& self.state.committee_port_offsets@ == port_offsets(
            self.setup_parameters.committee_size as nat,
        )
    }

    /// The parameters that the server was set up with.
    pub closed spec fn parameters(&self) -> OPASetupParameters {
        self.setup_parameters
    }

    /// The public state.
    pub closed spec fn state(&self) -> OPAState {
        self.state
    }

    /// Whether the state is the one that `setup` makes of the parameters: a
    /// copy of them, and the offsets 1 up to the committee's size.
    pub open spec fn set_up(&self) -> bool {
        &&& self.state().security_parameter == self.parameters().security_parameter
        &&& self.state().corruption_threshold == self.parameters().corruption_threshold
        &&& self.state().reconstruction_threshold == self.parameters().reconstruction_threshold
        &&& self.state().committee_size == self.parameters().committee_size
        &&& self.state().committee_port_offsets@ == port_offsets(
            self.parameters().committee_size as nat,
        )
    }

    /// A server set up with the given parameters and a fresh seed. The
    /// committee has to be small enough for its offsets to be 16-bit ports.
    pub fn new(setup_parameters: OPASetupParameters) -> (server: Self)
        requires
            setup_parameters.committee_size <= u16::MAX,
        ensures
            server.parameters() == setup_parameters,
            server.set_up(),
            server.state().server_port == 0,
    {
        let mut rng = default_prg();
        let mut succinct_seed = [0u8; 32];
        populate_random_bytes(&mut succinct_seed, &mut rng);
        Self::with_seed(setup_parameters, succinct_seed)
    }

    /// A server set up with the given parameters and the given seed.
    pub fn with_seed(setup_parameters: OPASetupParameters, succinct_seed: [u8; 32]) -> (server:
        Self)
        requires
            setup_parameters.committee_size <= u16::MAX,
        ensures
            server.parameters() == setup_parameters,
            server.set_up(),
            server.state().succinct_seed == succinct_seed,
            server.state().server_port == 0,
    {
        let mut offsets: Vec<u16> = Vec::new();
        let m: u16 = setup_parameters.committee_size as u16;
        let mut i: u16 = 0;
        while i < m
            invariant
                i <= m,
                offsets@ == port_offsets(i as nat),
            decreases m - i,
        {
            offsets.push(i + 1);
            assert(offsets@ =~= port_offsets((i + 1) as nat));
            i = i + 1;
        }
        Self {
            setup_parameters,
            state: OPAState {
                succinct_seed,
                security_parameter: setup_parameters.security_parameter,
                corruption_threshold: setup_parameters.corruption_threshold,
                reconstruction_threshold: setup_parameters.reconstruction_threshold,
                committee_size: setup_parameters.committee_size,
                committee_port_offsets: offsets,
                server_port: 0,
            },
        }
    }

    /// Takes the port that the server listens on into the public state.
    pub fn on_communicator_setup(&mut self, port: u16)
        ensures
            final(self).parameters() == old(self).parameters(),
            final(self).set_up(),
            final(self).state()@ == (OPAStateView { server_port: port, ..old(self).state()@ }),
    {
        proof {
            use_type_invariant(&*self);
        }
        self.state.server_port = port;
    }
}

impl Server for OPAServer {
    type SetupParameters = OPASetupParameters;

    type State = OPAState;

    type Output = Vec<u32>;

    type Error = AggregationError;

    /// The committee has to be small enough for its offsets to be 16-bit
    /// ports.
    open spec fn acceptable(args: OPASetupParameters) -> bool {
        args.committee_size <= u16::MAX
    }

    /// A server set up with the given parameters and a fresh seed.
    fn new(args: OPASetupParameters) -> (server: Self)
        ensures
            server.parameters() == args,
            server.set_up(),
            server.state().server_port == 0,
    {
        OPAServer::new(args)
    }

    /// Sets the server up anew, with the given parameters and a fresh seed.
    fn setup(&mut self, args: OPASetupParameters)
        ensures
            final(self).parameters() == args,
            final(self).set_up(),
            final(self).state().server_port == 0,
    {
        *self = OPAServer::new(args);
    }

    fn get_state(&self) -> (state: &OPAState)
        ensures
            *state == self.state(),
    {
        &self.state
    }

    /// The sum of the clients' inputs. The state must not ask for more noise
    /// than an encoding has room for, nor for more members than there are
    /// indices; the committee's shares have to recover the seed.
    fn aggregate(&self, client_messages: &Vec<Vec<u8>>, committee_messages: &Vec<Vec<u8>>) -> (r:
        Result<Vec<u32>, AggregationError>)
        ensures
            match r {
                Ok(sum) => aggregation_of(
                    self.state()@,
                    bytes_of(client_messages@),
                    bytes_of(committee_messages@),
                ) == Ok::<Seq<u32>, AggregationError>(sum@),
                Err(e) => aggregation_of(
                    self.state()@,
                    bytes_of(client_messages@),
                    bytes_of(committee_messages@),
                ) == Err::<Seq<u32>, AggregationError>(e),
            },
    {
        proof {
            use_type_invariant(self);
        }
        let kappa: u64 = self.state.security_parameter;
        if kappa > MAX_SECURITY_PARAMETER || self.state.committee_size > 65535 {
            return Err(AggregationError::InvariantViolated);
        }
        let committee_size: usize = self.state.committee_size as usize;
        let ghost slots_spec = shares_by_index(
            bytes_of(committee_messages@),
            committee_size as nat,
            LAMBDA as nat,
        );
        if self.state.reconstruction_threshold > self.state.committee_size {
            proof {
                lemma_filled_indices(slots_spec, slots_spec.len());
            }
            return Err(AggregationError::Shamir(ShamirError::InsufficientShares));
        }
        let threshold: usize = self.state.reconstruction_threshold as usize;
        let slots = collect_shares(committee_messages, committee_size, LAMBDA);
        let seed: Vec<F128> = match reconstruct_seed(&slots, threshold, LAMBDA) {
            Ok(seed) => seed,
            Err(e) => {
                return Err(AggregationError::Shamir(e));
            },
        };
        assert(seed@.len() == LAMBDA) by {
            assert(values_of(seed@).len() == seed@.len());
        }
        let shprg = SeedHomomorphicPRG::new_from_both_seeds(self.state.succinct_seed, seed);
        let mask: Vec<F128> = shprg.expand();
        let sum: Vec<F128> = sum_ciphertexts(client_messages, committee_size);
        assert(sum@.len() == OUTPUT_LENGTH) by {
            assert(values_of(sum@).len() == sum@.len());
        }
        Ok(unmask_and_decode(&sum, &mask, INPUT_LENGTH, kappa))
    }
}

} // verus!
