//! Deterministic in-process network simulator.
//!
//! The crate stands in for a transport layer in tests of a peer-to-peer
//! routing protocol: callers create simulated endpoints, issue
//! bootstrap/connect/send/disconnect operations against them, and drive
//! delivery explicitly through the network's drain operation.

pub mod config;
pub mod packet;
pub mod queue;
pub mod network;
pub mod rng;
pub mod service;
pub mod session;

use vstd::prelude::*;

verus! {

/// Simulated network endpoint (think socket address). Identifies and
/// addresses one `Service` in the mock network.
#[derive(Clone, Copy, Debug, PartialEq, Eq, Structural, PartialOrd, Ord, Hash)]
pub struct Endpoint(pub usize);

/// The real-world-style address of an endpoint: endpoints double as ports so
/// that the two can be mapped to each other during testing.
pub open spec fn spec_endpoint_addr(endpoint: Endpoint) -> u16 {
    (endpoint.0 % 0x10000) as u16
}

/// Maps an endpoint to its real-world-style address.
pub fn endpoint_addr(endpoint: Endpoint) -> (r: u16)
    ensures
        r == spec_endpoint_addr(endpoint),
{
    (endpoint.0 % 0x10000) as u16
}

} // verus!
