//! One-shot private aggregation: clients mask their encoded inputs with a
//! seed-homomorphic generator and share the seeds among a committee.

pub mod aggregation;
pub mod client;
pub mod committee;
pub mod correctness;
pub mod encoding;
pub mod protocol;
pub mod run;
pub mod server;

pub use client::OPAClient;
pub use committee::OPACommittee;
pub use protocol::OPA;
pub use server::{OPAServer, OPASetupParameters, OPAState};
