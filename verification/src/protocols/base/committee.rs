//! The committee member's role: it takes the shares that the server hands
//! out, and answers with their sum.

use vstd::prelude::*;

verus! {

/// A member of the committee.
pub trait Committee: Sized {
    /// The server's public state.
    type ServerState;

    /// Why what the server handed out was refused.
    type Error;

    /// Whether inputs were retrieved and can be summed.
    spec fn ready(&self) -> bool;

    /// A member that listens on `port`.
    fn new(port: u16) -> Self;

    /// Takes the server's public state.
    fn set_server_state(&mut self, state: Self::ServerState);

    /// Takes what the server answered to the member's signal.
    fn retrieve_inputs(&mut self, received: &[u8]) -> Result<(), Self::Error>;

    /// The bytes to send to the server: the member's share of the sum.
    fn aggregate(&self) -> Option<Vec<u8>>
        requires
            self.ready(),
    ;
}

} // verus!
