//! Field arithmetic, random sampling, the seed-homomorphic generator and
//! secret sharing.

pub mod field;
pub mod interpolation;
pub mod prg;
pub mod seed_homomorphic_prg;
pub mod shamir;
pub mod units;
pub mod util;

pub use field::{F128Config, F128};
pub use seed_homomorphic_prg::SeedHomomorphicPRG;
pub use shamir::{Shamir, ShamirError};
