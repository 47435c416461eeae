//! The client's role: it holds an input and the server's public state, and
//! turns the input into the message that it sends.

use vstd::prelude::*;

verus! {

/// A client with inputs of type `T`.
pub trait Client<T>: Sized {
    /// What the client sends: its masked input and what the committee needs.
    type Output;

    /// The server's public state.
    type ServerState;

    /// Whether an input and the server's state are set, and the input can be
    /// encrypted under that state.
    spec fn ready(&self) -> bool;

    /// A client with nothing set.
    fn new() -> Self;

    /// Takes the server's public state.
    fn set_server_state(&mut self, state: Self::ServerState);

    /// Takes the input.
    fn set_input(&mut self, input: Vec<T>);

    /// Encrypts the input under the server's state.
    fn encrypt_input(&mut self)
        requires
            old(self).ready(),
    ;

    /// The bytes to send to the server, once the input is encrypted.
    fn input_message(&self) -> Option<Vec<u8>>;
}

} // verus!
