//! The server's role: it fixes the public state of a run, and turns what
//! clients and committee sent into the sum of the inputs.

use vstd::prelude::*;

verus! {

/// A server.
pub trait Server: Sized {
    /// What a run is set up with.
    type SetupParameters;

    /// The public state that clients and committee get.
    type State: Clone;

    /// The sum that a run ends with.
    type Output;

    /// Why a run ended without a sum.
    type Error;

    /// Whether a server can be set up with these parameters.
    spec fn acceptable(args: Self::SetupParameters) -> bool;

    /// A server that is set up.
    fn new(args: Self::SetupParameters) -> Self
        requires
            Self::acceptable(args),
    ;

    /// Sets the server up anew.
    fn setup(&mut self, args: Self::SetupParameters)
        requires
            Self::acceptable(args),
    ;

    /// The public state.
    fn get_state(&self) -> &Self::State;

    /// The sum of the clients' inputs, from what the clients and the
    /// committee sent.
    fn aggregate(&self, client_messages: &Vec<Vec<u8>>, committee_messages: &Vec<Vec<u8>>) -> Result<
        Self::Output,
        Self::Error,
    >;
}

} // verus!
