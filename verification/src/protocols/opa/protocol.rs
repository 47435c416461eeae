//! The aggregation protocol as a whole: its server, its client and its
//! committee member, bound together.

use crate::protocols::base::protocol::Protocol;
use crate::protocols::opa::client::OPAClient;
use crate::protocols::opa::committee::OPACommittee;
use crate::protocols::opa::server::OPAServer;
use crate::util::packing::Packable;
use core::marker::PhantomData;
use vstd::prelude::*;

verus! {

/// The aggregation protocol for inputs of the type `T`.
pub struct OPA<T>(pub PhantomData<T>);

impl<T: Packable> Protocol for OPA<T> {
    type Input = T;

    type Server = OPAServer;

    type Client = OPAClient<T>;

    type Committee = OPACommittee;
}

} // verus!
