//! The closed protocol-message alphabet exchanged between endpoints, the
//! transport events a service reports to its owner, and the unrecoverable
//! faults of the simulation.

use vstd::prelude::*;

use crate::Endpoint;

verus! {

/// Role a node announces when bootstrapping against a contact.
#[derive(Clone, Copy, Debug, PartialEq, Eq, Structural)]
pub enum Role {
    Node,
    Client,
}

/// One message in the closed protocol alphabet. Packets are transient value
/// types: they live only in the network's pending queue.
#[derive(Clone, Debug, PartialEq, Eq)]
pub enum Packet {
    BootstrapRequest(u64, Role),
    BootstrapSuccess(u64),
    BootstrapFailure,
    ConnectRequest(u64, u64),
    ConnectSuccess(u64, u64),
    ConnectFailure(u64, u64),
    Message(Vec<u8>),
    Disconnect,
}

impl Packet {
    /// Request-class packets are exactly the ones with a failure counterpart.
    pub open spec fn is_request(self) -> bool {
        match self {
            Packet::BootstrapRequest(..) => true,
            Packet::ConnectRequest(..) => true,
            _ => false,
        }
    }

    /// The canonical failure counterpart of a request packet, if any.
    pub open spec fn spec_to_failure(self) -> Option<Packet> {
        match self {
            Packet::BootstrapRequest(..) => Some(Packet::BootstrapFailure),
            Packet::ConnectRequest(our_id, their_id) => Some(
                Packet::ConnectFailure(their_id, our_id),
            ),
            _ => None,
        }
    }

    /// The payload of a message packet; other packets carry none.
    pub open spec fn payload(self) -> Seq<u8> {
        match self {
            Packet::Message(data) => data@,
            _ => Seq::empty(),
        }
    }

    /// Given a request packet, returns the corresponding failure packet.
    pub fn to_failure(&self) -> (r: Option<Packet>)
        ensures
            r == self.spec_to_failure(),
            r is Some ==> self.is_request() && !r->0.is_request() && !(r->0 is Message),
    {
        match *self {
            Packet::BootstrapRequest(..) => Some(Packet::BootstrapFailure),
            Packet::ConnectRequest(our_id, their_id) => Some(
                Packet::ConnectFailure(their_id, our_id),
            ),
            _ => None,
        }
    }

    /// Termination measure of one pending packet: a request may spawn one
    /// non-request packet while it is processed, any other packet spawns none.
    pub open spec fn weight(self) -> nat {
        if self.is_request() {
            2
        } else {
            1
        }
    }
}

/// A transport-level event delivered synchronously to a service's owner.
#[derive(Clone, Debug, PartialEq, Eq)]
pub enum Event {
    ListenerStarted(u16),
    BootstrapAccept(u64, Role),
    BootstrapConnect(u64, u16),
    BootstrapFailed,
    ConnectSuccess(u64),
    ConnectFailure(u64),
    LostPeer(u64),
    NewMessage(u64, Vec<u8>),
    ConnectionInfoPrepared(u32, u64, Endpoint),
}

/// An invariant violation: the harness or protocol layer is in an impossible
/// state. Draining stops and reports it; it is not a recoverable network
/// condition.
#[derive(Clone, Copy, Debug, PartialEq, Eq, Structural)]
pub enum Fault {
    /// A message packet arrived from an origin endpoint with no registered
    /// connection at the destination: (origin, destination).
    UnknownSender(Endpoint, Endpoint),
    /// A packet required the identity or event sink of a service whose
    /// session was never started.
    NoSession(Endpoint),
}

} // verus!
