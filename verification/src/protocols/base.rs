//! What a server, a client and a committee member offer, whatever the
//! protocol.

pub mod client;
pub mod committee;
pub mod protocol;
pub mod server;

pub use client::Client;
pub use committee::Committee;
pub use protocol::Protocol;
pub use server::Server;
