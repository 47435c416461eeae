//! Single-server secure aggregation: a seed-homomorphic generator over the
//! prime field of order 2^127 - 1, an input encoding that absorbs its rounding
//! error, Shamir sharing of the mask seeds, and the message handling of the
//! client, committee and server roles.

pub mod communicator;
pub mod crypto;
pub mod protocols;
pub mod util;

pub use protocols::opa::{OPAServer, OPASetupParameters, OPAState};
pub use protocols::{client, opa};
pub use protocols::{client::Client, committee::Committee, server::Server};
