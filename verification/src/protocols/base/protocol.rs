//! A protocol binds a server, a client and a committee that fit together.

use super::client::Client;
use super::committee::Committee;
use super::server::Server;
use vstd::prelude::*;

verus! {

/// A server, a client and a committee that share one public state.
pub trait Protocol {
    /// What a client puts in.
    type Input;

    /// The server.
    type Server: Server;

    /// The client.
    type Client: Client<Self::Input, ServerState = <Self::Server as Server>::State>;

    /// The committee member.
    type Committee: Committee<ServerState = <Self::Server as Server>::State>;
}

} // verus!
