//! The roles of a protocol, and the one-shot private aggregation protocol
//! that fills them.

pub mod base;
pub mod opa;

pub use base::client;
pub use base::committee;
pub use base::server;

pub use base::client::Client;
pub use base::committee::Committee;
pub use base::protocol::Protocol;
pub use base::server::Server;
