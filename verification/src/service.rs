//! Per-node simulated transport state: identity, listening flag, active
//! connections, bootstrap progress, whitelist, and the synchronous event feed
//! to the node's owner. Incoming packets are processed by a pure transition
//! function, `step`, which the executable handler is proved to implement.

use vstd::prelude::*;

use crate::Endpoint;
use crate::config::Config;
use crate::packet::{Event, Fault, Packet, Role};
use crate::queue::PacketQueue;
use crate::spec_endpoint_addr;

verus! {

/// Index of the first connection entry with the given identity.
pub open spec fn idx_by_uid(conns: Seq<(u64, Endpoint)>, uid: u64) -> Option<int>
    decreases conns.len(),
{
    if conns.len() == 0 {
        None
    } else if conns[0].0 == uid {
        Some(0)
    } else {
        match idx_by_uid(conns.drop_first(), uid) {
            Some(i) => Some(i + 1),
            None => None,
        }
    }
}

/// Index of the first connection entry with the given endpoint.
pub open spec fn idx_by_endpoint(conns: Seq<(u64, Endpoint)>, ep: Endpoint) -> Option<int>
    decreases conns.len(),
{
    if conns.len() == 0 {
        None
    } else if conns[0].1 == ep {
        Some(0)
    } else {
        match idx_by_endpoint(conns.drop_first(), ep) {
            Some(i) => Some(i + 1),
            None => None,
        }
    }
}

/// The endpoint a connected identity resolves to, if any.
pub open spec fn peer_endpoint_of(conns: Seq<(u64, Endpoint)>, uid: u64) -> Option<Endpoint> {
    match idx_by_uid(conns, uid) {
        Some(i) => Some(conns[i].1),
        None => None,
    }
}

/// The identity a connected endpoint resolves to, if any.
pub open spec fn peer_uid_of(conns: Seq<(u64, Endpoint)>, ep: Endpoint) -> Option<u64> {
    match idx_by_endpoint(conns, ep) {
        Some(i) => Some(conns[i].0),
        None => None,
    }
}

pub proof fn lemma_idx_by_uid(conns: Seq<(u64, Endpoint)>, uid: u64)
    ensures
        match idx_by_uid(conns, uid) {
            Some(i) => 0 <= i < conns.len() && conns[i].0 == uid && (forall|j: int|
                0 <= j < i ==> (#[trigger] conns[j]).0 != uid),
            None => forall|j: int| 0 <= j < conns.len() ==> (#[trigger] conns[j]).0 != uid,
        },
    decreases conns.len(),
{
    if conns.len() == 0 {
    } else if conns[0].0 == uid {
        assert(idx_by_uid(conns, uid) == Some(0int));
    } else {
        lemma_idx_by_uid(conns.drop_first(), uid);
        match idx_by_uid(conns.drop_first(), uid) {
            Some(i) => {
                assert(idx_by_uid(conns, uid) == Some(i + 1));
                assert(conns.drop_first()[i] == conns[i + 1]);
                assert forall|j: int| 0 <= j < i + 1 implies (#[trigger] conns[j]).0 != uid by {
                    if j > 0 {
                        assert(conns.drop_first()[j - 1] == conns[j]);
                    }
                }
            },
            None => {
                assert forall|j: int| 0 <= j < conns.len() implies (#[trigger] conns[j]).0
                    != uid by {
                    if j > 0 {
                        assert(conns.drop_first()[j - 1] == conns[j]);
                    }
                }
            },
        }
    }
}

pub proof fn lemma_idx_by_endpoint(conns: Seq<(u64, Endpoint)>, ep: Endpoint)
    ensures
        match idx_by_endpoint(conns, ep) {
            Some(i) => 0 <= i < conns.len() && conns[i].1 == ep && (forall|j: int|
                0 <= j < i ==> (#[trigger] conns[j]).1 != ep),
            None => forall|j: int| 0 <= j < conns.len() ==> (#[trigger] conns[j]).1 != ep,
        },
    decreases conns.len(),
{
    if conns.len() == 0 {
    } else if conns[0].1 == ep {
        assert(idx_by_endpoint(conns, ep) == Some(0int));
    } else {
        lemma_idx_by_endpoint(conns.drop_first(), ep);
        match idx_by_endpoint(conns.drop_first(), ep) {
            Some(i) => {
                assert(idx_by_endpoint(conns, ep) == Some(i + 1));
                assert(conns.drop_first()[i] == conns[i + 1]);
                assert forall|j: int| 0 <= j < i + 1 implies (#[trigger] conns[j]).1 != ep by {
                    if j > 0 {
                        assert(conns.drop_first()[j - 1] == conns[j]);
                    }
                }
            },
            None => {
                assert forall|j: int| 0 <= j < conns.len() implies (#[trigger] conns[j]).1
                    != ep by {
                    if j > 0 {
                        assert(conns.drop_first()[j - 1] == conns[j]);
                    }
                }
            },
        }
    }
}

/// Registering a connection is a no-op if the exact (identity, endpoint) pair
/// is already present; otherwise the pair is appended.
pub open spec fn add_conn(conns: Seq<(u64, Endpoint)>, uid: u64, ep: Endpoint) -> Seq<
    (u64, Endpoint),
> {
    if conns.contains((uid, ep)) {
        conns
    } else {
        conns.push((uid, ep))
    }
}

/// The endpoints of a connection list, in order.
pub open spec fn conn_eps(conns: Seq<(u64, Endpoint)>) -> Seq<Endpoint> {
    conns.map_values(|c: (u64, Endpoint)| c.1)
}

/// How many times `b` occurs in `eps`.
pub open spec fn count_ep(eps: Seq<Endpoint>, b: Endpoint) -> nat
    decreases eps.len(),
{
    if eps.len() == 0 {
        0
    } else {
        (if eps[0] == b {
            1nat
        } else {
            0nat
        }) + count_ep(eps.drop_first(), b)
    }
}

pub proof fn lemma_count_ep_snoc(eps: Seq<Endpoint>, e: Endpoint, b: Endpoint)
    ensures
        count_ep(eps.push(e), b) == count_ep(eps, b) + (if e == b {
            1nat
        } else {
            0nat
        }),
    decreases eps.len(),
{
    assert(eps.push(e).len() == eps.len() + 1);
    if eps.len() == 0 {
        assert(eps.push(e)[0] == e);
        assert(eps.push(e).drop_first() =~= Seq::<Endpoint>::empty());
        assert(count_ep(Seq::<Endpoint>::empty(), b) == 0);
        assert(count_ep(eps.push(e), b) == (if e == b {
            1nat
        } else {
            0nat
        }) + count_ep(eps.push(e).drop_first(), b));
        assert(count_ep(eps, b) == 0);
    } else {
        assert(eps.push(e)[0] == eps[0]);
        assert(eps.push(e).drop_first() =~= eps.drop_first().push(e));
        lemma_count_ep_snoc(eps.drop_first(), e, b);
        assert(count_ep(eps.push(e), b) == (if eps[0] == b {
            1nat
        } else {
            0nat
        }) + count_ep(eps.push(e).drop_first(), b));
        assert(count_ep(eps, b) == (if eps[0] == b {
            1nat
        } else {
            0nat
        }) + count_ep(eps.drop_first(), b));
    }
}

/// `n` disconnect notices in a row.
pub open spec fn repeat_disconnect(n: nat) -> Seq<Packet> {
    Seq::new(n, |i: int| Packet::Disconnect)
}

/// `n` bootstrap requests in a row, carrying the requester's identity and role.
pub open spec fn repeat_bootstrap_request(n: nat, uid: u64, role: Role) -> Seq<Packet> {
    Seq::new(n, |i: int| Packet::BootstrapRequest(uid, role))
}

/// The contacts a bootstrap run actually targets: every hard-coded contact
/// except the service itself and those whose mapped address is blacklisted,
/// in configuration order.
pub open spec fn eligible_contacts(
    contacts: Seq<Endpoint>,
    me: Endpoint,
    blacklist: Seq<u16>,
) -> Seq<Endpoint>
    decreases contacts.len(),
{
    if contacts.len() == 0 {
        Seq::empty()
    } else {
        let rest = eligible_contacts(contacts.drop_first(), me, blacklist);
        if contacts[0] != me && !blacklist.contains(spec_endpoint_addr(contacts[0])) {
            seq![contacts[0]] + rest
        } else {
            rest
        }
    }
}

pub proof fn lemma_eligible_snoc(contacts: Seq<Endpoint>, c: Endpoint, me: Endpoint, blacklist: Seq<u16>)
    ensures
        eligible_contacts(contacts.push(c), me, blacklist) == if c != me && !blacklist.contains(
            spec_endpoint_addr(c),
        ) {
            eligible_contacts(contacts, me, blacklist).push(c)
        } else {
            eligible_contacts(contacts, me, blacklist)
        },
    decreases contacts.len(),
{
    let s2 = contacts.push(c);
    let ok = (c != me && !blacklist.contains(spec_endpoint_addr(c)));
    assert(s2.len() == contacts.len() + 1);
    if contacts.len() == 0 {
        assert(s2[0] == c);
        assert(s2.drop_first() =~= Seq::<Endpoint>::empty());
        assert(eligible_contacts(Seq::<Endpoint>::empty(), me, blacklist) == Seq::<
            Endpoint,
        >::empty());
        assert(eligible_contacts(contacts, me, blacklist) == Seq::<Endpoint>::empty());
        if ok {
            assert(eligible_contacts(s2, me, blacklist) == seq![c] + eligible_contacts(
                s2.drop_first(),
                me,
                blacklist,
            ));
            assert(seq![c] + Seq::<Endpoint>::empty() =~= eligible_contacts(
                contacts,
                me,
                blacklist,
            ).push(c));
        } else {
            assert(eligible_contacts(s2, me, blacklist) == eligible_contacts(
                s2.drop_first(),
                me,
                blacklist,
            ));
        }
    } else {
        assert(s2[0] == contacts[0]);
        assert(s2.drop_first() =~= contacts.drop_first().push(c));
        lemma_eligible_snoc(contacts.drop_first(), c, me, blacklist);
        let rest = eligible_contacts(contacts.drop_first(), me, blacklist);
        let ok0 = (contacts[0] != me && !blacklist.contains(spec_endpoint_addr(contacts[0])));
        if ok0 {
            assert(eligible_contacts(s2, me, blacklist) == seq![contacts[0]] + eligible_contacts(
                s2.drop_first(),
                me,
                blacklist,
            ));
            assert(eligible_contacts(contacts, me, blacklist) == seq![contacts[0]] + rest);
            if ok {
                assert(seq![contacts[0]] + rest.push(c) =~= (seq![contacts[0]] + rest).push(c));
            }
        } else {
            assert(eligible_contacts(s2, me, blacklist) == eligible_contacts(
                s2.drop_first(),
                me,
                blacklist,
            ));
            assert(eligible_contacts(contacts, me, blacklist) == rest);
        }
    }
}

/// This side's half of a prepared connection: its identity and endpoint.
#[derive(Clone, Copy, Debug, PartialEq, Eq, Structural)]
pub struct PrivConnectionInfo {
    pub id: u64,
    pub endpoint: Endpoint,
}

/// The peer's half of a prepared connection, as handed over out of band.
#[derive(Clone, Copy, Debug, PartialEq, Eq, Structural)]
pub struct PubConnectionInfo {
    pub id: u64,
    pub endpoint: Endpoint,
}

impl PrivConnectionInfo {
    /// The shareable counterpart of this side's info.
    pub fn to_pub(&self) -> (r: PubConnectionInfo)
        ensures
            r.id == self.id,
            r.endpoint == self.endpoint,
    {
        PubConnectionInfo { id: self.id, endpoint: self.endpoint }
    }
}

/// The mathematical state of one simulated service.
#[verifier::ext_equal]
pub struct ServiceView {
    pub endpoint: Endpoint,
    pub uid: Option<u64>,
    pub listening: bool,
    pub pending_bootstraps: u64,
    pub contacts: Seq<Endpoint>,
    pub connections: Seq<(u64, Endpoint)>,
    pub whitelist: Seq<Endpoint>,
    pub events: Seq<Event>,
}

impl ServiceView {
    /// Whether a session has started: identity and event sink are assigned
    /// together, so one optional field stands for both.
    pub open spec fn started(self) -> bool {
        self.uid is Some
    }

    /// A peer is authorized if the whitelist is empty, or the peer is
    /// connected and its endpoint is a member.
    pub open spec fn is_whitelisted(self, uid: u64) -> bool {
        self.whitelist.len() == 0 || (match peer_endpoint_of(self.connections, uid) {
            Some(ep) => self.whitelist.contains(ep),
            None => false,
        })
    }

    /// Well-formedness: no two connection entries share both identity and
    /// endpoint, no duplicate whitelist entries, and anything that can emit
    /// events or packets presupposes a started session.
    pub open spec fn wf(self) -> bool {
        &&& (self.listening ==> self.started())
        &&& (self.pending_bootstraps > 0 ==> self.started())
        &&& (self.connections.len() > 0 ==> self.started())
        &&& (forall|i: int, j: int|
            0 <= i < j < self.connections.len() ==> #[trigger] self.connections[i]
                != #[trigger] self.connections[j])
        &&& (forall|i: int, j: int|
            0 <= i < j < self.whitelist.len() ==> #[trigger] self.whitelist[i]
                != #[trigger] self.whitelist[j])
    }
}

/// What processing one incoming packet does to a service: the successor state
/// and either a fault or an optional reply packet addressed to the origin.
pub open spec fn step(pre: ServiceView, origin: Endpoint, packet: Packet) -> (
    ServiceView,
    Result<Option<Packet>, Fault>,
) {
    match packet {
        Packet::BootstrapRequest(uid, role) => {
            if pre.listening {
                if pre.uid is Some {
                    (
                        ServiceView {
                            connections: add_conn(pre.connections, uid, origin),
                            events: pre.events.push(Event::BootstrapAccept(uid, role)),
                            ..pre
                        },
                        Ok(Some(Packet::BootstrapSuccess(pre.uid->0))),
                    )
                } else {
                    (pre, Err(Fault::NoSession(pre.endpoint)))
                }
            } else {
                (pre, Ok(Some(Packet::BootstrapFailure)))
            }
        },
        Packet::BootstrapSuccess(uid) => {
            if pre.uid is Some {
                (
                    ServiceView {
                        connections: add_conn(pre.connections, uid, origin),
                        events: pre.events.push(
                            Event::BootstrapConnect(uid, spec_endpoint_addr(origin)),
                        ),
                        pending_bootstraps: if pre.pending_bootstraps > 0 {
                            (pre.pending_bootstraps - 1) as u64
                        } else {
                            0
                        },
                        ..pre
                    },
                    Ok(None),
                )
            } else {
                (pre, Err(Fault::NoSession(pre.endpoint)))
            }
        },
        Packet::BootstrapFailure => {
            if pre.pending_bootstraps == 0 {
                (pre, Ok(None))
            } else {
                let pending2 = (pre.pending_bootstraps - 1) as u64;
                if pending2 == 0 && pre.connections.len() == 0 {
                    if pre.uid is Some {
                        (
                            ServiceView {
                                pending_bootstraps: pending2,
                                events: pre.events.push(Event::BootstrapFailed),
                                ..pre
                            },
                            Ok(None),
                        )
                    } else {
                        (pre, Err(Fault::NoSession(pre.endpoint)))
                    }
                } else {
                    (ServiceView { pending_bootstraps: pending2, ..pre }, Ok(None))
                }
            }
        },
        Packet::ConnectRequest(their_id, _own_id) => {
            if pre.connections.contains((their_id, origin)) {
                // Both sides may race to request; the duplicate is ignored.
                (pre, Ok(None))
            } else if pre.uid is Some {
                (
                    ServiceView {
                        connections: add_conn(pre.connections, their_id, origin),
                        events: pre.events.push(Event::ConnectSuccess(their_id)),
                        ..pre
                    },
                    Ok(Some(Packet::ConnectSuccess(pre.uid->0, their_id))),
                )
            } else {
                (pre, Err(Fault::NoSession(pre.endpoint)))
            }
        },
        Packet::ConnectSuccess(their_id, _own_id) => {
            if pre.uid is Some {
                (
                    ServiceView {
                        connections: add_conn(pre.connections, their_id, origin),
                        events: pre.events.push(Event::ConnectSuccess(their_id)),
                        ..pre
                    },
                    Ok(None),
                )
            } else {
                (pre, Err(Fault::NoSession(pre.endpoint)))
            }
        },
        Packet::ConnectFailure(their_id, _own_id) => {
            if pre.uid is Some {
                (
                    ServiceView { events: pre.events.push(Event::ConnectFailure(their_id)), ..pre },
                    Ok(None),
                )
            } else {
                (pre, Err(Fault::NoSession(pre.endpoint)))
            }
        },
        Packet::Message(data) => {
            match peer_uid_of(pre.connections, origin) {
                Some(uid) => {
                    if pre.uid is Some {
                        (
                            ServiceView {
                                events: pre.events.push(Event::NewMessage(uid, data)),
                                ..pre
                            },
                            Ok(None),
                        )
                    } else {
                        (pre, Err(Fault::NoSession(pre.endpoint)))
                    }
                },
                None => (pre, Err(Fault::UnknownSender(origin, pre.endpoint))),
            }
        },
        Packet::Disconnect => {
            match idx_by_endpoint(pre.connections, origin) {
                Some(i) => {
                    if pre.uid is Some {
                        (
                            ServiceView {
                                connections: pre.connections.remove(i),
                                events: pre.events.push(Event::LostPeer(pre.connections[i].0)),
                                ..pre
                            },
                            Ok(None),
                        )
                    } else {
                        (pre, Err(Fault::NoSession(pre.endpoint)))
                    }
                },
                None => (pre, Ok(None)),
            }
        },
    }
}

/// Registering a connection keeps the uniqueness of connection entries.
pub proof fn lemma_add_conn_unique(conns: Seq<(u64, Endpoint)>, uid: u64, ep: Endpoint)
    requires
        forall|i: int, j: int|
            0 <= i < j < conns.len() ==> #[trigger] conns[i] != #[trigger] conns[j],
    ensures
        forall|i: int, j: int|
            0 <= i < j < add_conn(conns, uid, ep).len() ==> #[trigger] add_conn(conns, uid, ep)[i]
                != #[trigger] add_conn(conns, uid, ep)[j],
        add_conn(conns, uid, ep).len() > 0,
{
    let post = add_conn(conns, uid, ep);
    if !conns.contains((uid, ep)) {
        assert forall|i: int, j: int| 0 <= i < j < post.len() implies #[trigger] post[i]
            != #[trigger] post[j] by {
            if j < conns.len() {
                assert(conns[i] != conns[j]);
            } else {
                assert(post[j] == (uid, ep));
                assert(post[i] == conns[i]);
                assert(!conns.contains((uid, ep)));
                assert(conns[i] != (uid, ep));
            }
        }
    }
}

/// Removing a connection keeps the uniqueness of connection entries.
pub proof fn lemma_remove_conn_unique(conns: Seq<(u64, Endpoint)>, at: int)
    requires
        0 <= at < conns.len(),
        forall|i: int, j: int|
            0 <= i < j < conns.len() ==> #[trigger] conns[i] != #[trigger] conns[j],
    ensures
        forall|i: int, j: int|
            0 <= i < j < conns.remove(at).len() ==> #[trigger] conns.remove(at)[i]
                != #[trigger] conns.remove(at)[j],
{
    let post = conns.remove(at);
    assert forall|i: int, j: int| 0 <= i < j < post.len() implies #[trigger] post[i]
        != #[trigger] post[j] by {
        let pi: int = if i < at {
            i
        } else {
            i + 1
        };
        let pj: int = if j < at {
            j
        } else {
            j + 1
        };
        assert(post[i] == conns[pi]);
        assert(post[j] == conns[pj]);
        assert(conns[pi] != conns[pj]);
    }
}

/// Dropping one connection entry keeps a service well-formed.
pub proof fn lemma_wf_remove_conn(pre: ServiceView, post: ServiceView, k: int)
    requires
        pre.wf(),
        0 <= k < pre.connections.len(),
        post == (ServiceView { connections: pre.connections.remove(k), ..pre }),
    ensures
        post.wf(),
{
    lemma_remove_conn_unique(pre.connections, k);
}

/// Processing a packet preserves well-formedness and never changes which
/// endpoint the service sits on, nor its configuration or whitelist.
pub proof fn lemma_step_preserves(pre: ServiceView, origin: Endpoint, packet: Packet)
    requires
        pre.wf(),
    ensures
        step(pre, origin, packet).0.wf(),
        step(pre, origin, packet).0.endpoint == pre.endpoint,
        step(pre, origin, packet).0.contacts == pre.contacts,
        step(pre, origin, packet).0.whitelist == pre.whitelist,
        step(pre, origin, packet).0.uid == pre.uid,
        step(pre, origin, packet).0.listening == pre.listening,
{
    match packet {
        Packet::BootstrapRequest(uid, role) => {
            if pre.listening && pre.uid is Some {
                lemma_add_conn_unique(pre.connections, uid, origin);
            }
        },
        Packet::BootstrapSuccess(uid) => {
            if pre.uid is Some {
                lemma_add_conn_unique(pre.connections, uid, origin);
            }
        },
        Packet::BootstrapFailure => {},
        Packet::ConnectRequest(their_id, _own_id) => {
            if !pre.connections.contains((their_id, origin)) && pre.uid is Some {
                lemma_add_conn_unique(pre.connections, their_id, origin);
            }
        },
        Packet::ConnectSuccess(their_id, _own_id) => {
            if pre.uid is Some {
                lemma_add_conn_unique(pre.connections, their_id, origin);
            }
        },
        Packet::ConnectFailure(..) => {},
        Packet::Message(..) => {},
        Packet::Disconnect => {
            match idx_by_endpoint(pre.connections, origin) {
                Some(i) => {
                    lemma_idx_by_endpoint(pre.connections, origin);
                    if pre.uid is Some {
                        lemma_remove_conn_unique(pre.connections, i);
                    }
                },
                None => {},
            }
        },
    }
}

/// Simultaneous connect requests cannot double-register: both sides may
/// race to request, and a connect request from a peer whose exact
/// (identity, endpoint) pair is already connected changes nothing, emits no
/// event, and sends no reply.
pub proof fn lemma_connect_request_idempotent(
    pre: ServiceView,
    origin: Endpoint,
    peer_id: u64,
    own_id: u64,
)
    requires
        pre.connections.contains((peer_id, origin)),
    ensures
        step(pre, origin, Packet::ConnectRequest(peer_id, own_id)).0 == pre,
        step(pre, origin, Packet::ConnectRequest(peer_id, own_id)).1 == Ok::<
            Option<Packet>,
            Fault,
        >(None),
{
}

/// A late bootstrap failure is absorbed: with no attempt outstanding the
/// packet changes nothing, so "bootstrap failed" cannot fire a second time.
pub proof fn lemma_bootstrap_failure_saturates(pre: ServiceView, origin: Endpoint)
    requires
        pre.pending_bootstraps == 0,
    ensures
        step(pre, origin, Packet::BootstrapFailure) == (pre, Ok::<Option<Packet>, Fault>(None)),
{
}

/// Processing never changes a service's identity.
pub proof fn lemma_step_uid(pre: ServiceView, origin: Endpoint, packet: Packet)
    ensures
        step(pre, origin, packet).0.uid == pre.uid,
{
}

/// Only two things can fault a drain: a message from an unregistered origin
/// and a packet that needs a session at a service without one. A
/// non-message packet processed by a started service cannot fault.
pub proof fn lemma_step_no_fault(pre: ServiceView, origin: Endpoint, packet: Packet)
    requires
        pre.uid is Some,
        !(packet is Message),
    ensures
        !(step(pre, origin, packet).1 is Err),
{
}

/// A reply only answers a request, and is itself neither a request nor a
/// message payload; non-request packets are never answered.
pub proof fn lemma_step_reply(pre: ServiceView, origin: Endpoint, packet: Packet)
    ensures
        (match step(pre, origin, packet).1 {
            Ok(Some(rp)) => packet.is_request() && !rp.is_request() && !(rp is Message),
            _ => true,
        }),
{
}

/// One simulated transport service. Owned by the network registry; the
/// protocol layer addresses it through its endpoint.
pub struct Service {
    pub endpoint: Endpoint,
    pub uid: Option<u64>,
    pub config: Config,
    pub listening: bool,
    pub pending_bootstraps: u64,
    pub connections: Vec<(u64, Endpoint)>,
    pub whitelist: Vec<Endpoint>,
    pub events: Vec<Event>,
}

impl View for Service {
    type V = ServiceView;

    open spec fn view(&self) -> ServiceView {
        ServiceView {
            endpoint: self.endpoint,
            uid: self.uid,
            listening: self.listening,
            pending_bootstraps: self.pending_bootstraps,
            contacts: self.config.hard_coded_contacts@,
            connections: self.connections@,
            whitelist: self.whitelist@,
            events: self.events@,
        }
    }
}

impl Service {
    /// A freshly registered service: no session, not listening, no
    /// connections, nothing whitelisted, no events delivered yet.
    pub fn new(config: Config, endpoint: Endpoint) -> (r: Service)
        ensures
            r@ == (ServiceView {
                endpoint,
                uid: None,
                listening: false,
                pending_bootstraps: 0,
                contacts: config.hard_coded_contacts@,
                connections: Seq::empty(),
                whitelist: Seq::empty(),
                events: Seq::empty(),
            }),
            r@.wf(),
    {
        let r = Service {
            endpoint,
            uid: None,
            config,
            listening: false,
            pending_bootstraps: 0,
            connections: Vec::new(),
            whitelist: Vec::new(),
            events: Vec::new(),
        };
        proof {
            assert(r@ =~= (ServiceView {
                endpoint,
                uid: None,
                listening: false,
                pending_bootstraps: 0,
                contacts: r.config.hard_coded_contacts@,
                connections: Seq::empty(),
                whitelist: Seq::empty(),
                events: Seq::empty(),
            }));
        }
        r
    }

    /// Index of the first connection entry for `uid`.
    fn find_index_by_uid(&self, uid: u64) -> (r: Option<usize>)
        ensures
            match r {
                Some(i) => idx_by_uid(self@.connections, uid) == Some(i as int),
                None => idx_by_uid(self@.connections, uid) is None,
            },
    {
        proof {
            lemma_idx_by_uid(self@.connections, uid);
        }
        let mut j: usize = 0;
        while j < self.connections.len()
            invariant
                j <= self@.connections.len(),
                forall|k: int| 0 <= k < j ==> (#[trigger] self@.connections[k]).0 != uid,
            decreases self@.connections.len() - j,
        {
            if self.connections[j].0 == uid {
                proof {
                    lemma_idx_by_uid(self@.connections, uid);
                    assert(self@.connections[j as int].0 == uid);
                }
                return Some(j);
            }
            j = j + 1;
        }
        None
    }

    /// Index of the first connection entry for `ep`.
    fn find_index_by_endpoint(&self, ep: Endpoint) -> (r: Option<usize>)
        ensures
            match r {
                Some(i) => idx_by_endpoint(self@.connections, ep) == Some(i as int),
                None => idx_by_endpoint(self@.connections, ep) is None,
            },
    {
        proof {
            lemma_idx_by_endpoint(self@.connections, ep);
        }
        let mut j: usize = 0;
        while j < self.connections.len()
            invariant
                j <= self@.connections.len(),
                forall|k: int| 0 <= k < j ==> (#[trigger] self@.connections[k]).1 != ep,
            decreases self@.connections.len() - j,
        {
            if self.connections[j].1 == ep {
                proof {
                    lemma_idx_by_endpoint(self@.connections, ep);
                    assert(self@.connections[j as int].1 == ep);
                }
                return Some(j);
            }
            j = j + 1;
        }
        None
    }

    /// Whether the exact (identity, endpoint) pair is already registered.
    fn contains_conn(&self, uid: u64, ep: Endpoint) -> (r: bool)
        ensures
            r == self@.connections.contains((uid, ep)),
    {
        let mut j: usize = 0;
        while j < self.connections.len()
            invariant
                j <= self@.connections.len(),
                forall|k: int| 0 <= k < j ==> #[trigger] self@.connections[k] != (uid, ep),
            decreases self@.connections.len() - j,
        {
            if self.connections[j].0 == uid && self.connections[j].1 == ep {
                assert(self@.connections[j as int] == (uid, ep));
                return true;
            }
            j = j + 1;
        }
        false
    }

    /// Register the connection unless the exact pair already exists; reports
    /// whether a new entry was added.
    fn add_connection(&mut self, uid: u64, ep: Endpoint) -> (r: bool)
        ensures
            final(self)@ == (ServiceView {
                connections: add_conn(old(self)@.connections, uid, ep),
                ..old(self)@
            }),
            r == !old(self)@.connections.contains((uid, ep)),
    {
        let ghost pre = self@;
        if self.contains_conn(uid, ep) {
            proof {
                assert(self@ =~= (ServiceView { connections: add_conn(pre.connections, uid, ep), ..pre }));
            }
            false
        } else {
            self.connections.push((uid, ep));
            proof {
                assert(self@ =~= (ServiceView { connections: add_conn(pre.connections, uid, ep), ..pre }));
            }
            true
        }
    }

    /// Process one incoming packet from `origin`, exactly as `step` says:
    /// mutate the state to `step(..).0` and return `step(..).1`.
    pub fn receive_packet(&mut self, origin: Endpoint, packet: Packet) -> (r: Result<
        Option<Packet>,
        Fault,
    >)
        ensures
            final(self)@ == step(old(self)@, origin, packet).0,
            r == step(old(self)@, origin, packet).1,
    {
        let ghost pre = self@;
        let ghost gpacket = packet;
        match packet {
            Packet::BootstrapRequest(uid, role) => {
                if self.listening {
                    match self.uid {
                        Some(own) => {
                            let _ = self.add_connection(uid, origin);
                            self.events.push(Event::BootstrapAccept(uid, role));
                            proof {
                                assert(self@ =~= step(pre, origin, gpacket).0);
                            }
                            Ok(Some(Packet::BootstrapSuccess(own)))
                        },
                        None => Err(Fault::NoSession(self.endpoint)),
                    }
                } else {
                    Ok(Some(Packet::BootstrapFailure))
                }
            },
            Packet::BootstrapSuccess(uid) => {
                match self.uid {
                    Some(_own) => {
                        let _ = self.add_connection(uid, origin);
                        self.events.push(Event::BootstrapConnect(uid, crate::endpoint_addr(origin)));
                        if self.pending_bootstraps > 0 {
                            self.pending_bootstraps = self.pending_bootstraps - 1;
                        }
                        proof {
                            assert(self@ =~= step(pre, origin, gpacket).0);
                        }
                        Ok(None)
                    },
                    None => Err(Fault::NoSession(self.endpoint)),
                }
            },
            Packet::BootstrapFailure => {
                if self.pending_bootstraps == 0 {
                    Ok(None)
                } else {
                    let pending2 = self.pending_bootstraps - 1;
                    if pending2 == 0 && self.connections.len() == 0 {
                        match self.uid {
                            Some(_own) => {
                                self.pending_bootstraps = pending2;
                                self.events.push(Event::BootstrapFailed);
                                proof {
                                    assert(self@ =~= step(pre, origin, gpacket).0);
                                }
                                Ok(None)
                            },
                            None => Err(Fault::NoSession(self.endpoint)),
                        }
                    } else {
                        self.pending_bootstraps = pending2;
                        proof {
                            assert(self@ =~= step(pre, origin, gpacket).0);
                        }
                        Ok(None)
                    }
                }
            },
            Packet::ConnectRequest(their_id, _own_id) => {
                if self.contains_conn(their_id, origin) {
                    Ok(None)
                } else {
                    match self.uid {
                        Some(own) => {
                            let _ = self.add_connection(their_id, origin);
                            self.events.push(Event::ConnectSuccess(their_id));
                            proof {
                                assert(self@ =~= step(pre, origin, gpacket).0);
                            }
                            Ok(Some(Packet::ConnectSuccess(own, their_id)))
                        },
                        None => Err(Fault::NoSession(self.endpoint)),
                    }
                }
            },
            Packet::ConnectSuccess(their_id, _own_id) => {
                match self.uid {
                    Some(_own) => {
                        let _ = self.add_connection(their_id, origin);
                        self.events.push(Event::ConnectSuccess(their_id));
                        proof {
                            assert(self@ =~= step(pre, origin, gpacket).0);
                        }
                        Ok(None)
                    },
                    None => Err(Fault::NoSession(self.endpoint)),
                }
            },
            Packet::ConnectFailure(their_id, _own_id) => {
                match self.uid {
                    Some(_own) => {
                        self.events.push(Event::ConnectFailure(their_id));
                        proof {
                            assert(self@ =~= step(pre, origin, gpacket).0);
                        }
                        Ok(None)
                    },
                    None => Err(Fault::NoSession(self.endpoint)),
                }
            },
            Packet::Message(data) => {
                match self.find_index_by_endpoint(origin) {
                    Some(i) => {
                        proof {
                            lemma_idx_by_endpoint(pre.connections, origin);
                        }
                        let peer = self.connections[i].0;
                        proof {
                            assert(peer_uid_of(pre.connections, origin) == Some(peer));
                        }
                        match self.uid {
                            Some(_own) => {
                                self.events.push(Event::NewMessage(peer, data));
                                proof {
                                    assert(self@ =~= step(pre, origin, gpacket).0);
                                }
                                Ok(None)
                            },
                            None => Err(Fault::NoSession(self.endpoint)),
                        }
                    },
                    None => Err(Fault::UnknownSender(origin, self.endpoint)),
                }
            },
            Packet::Disconnect => {
                match self.find_index_by_endpoint(origin) {
                    Some(i) => {
                        proof {
                            lemma_idx_by_endpoint(pre.connections, origin);
                        }
                        match self.uid {
                            Some(_own) => {
                                let entry = self.connections.remove(i);
                                self.events.push(Event::LostPeer(entry.0));
                                proof {
                                    assert(self@ =~= step(pre, origin, gpacket).0);
                                }
                                Ok(None)
                            },
                            None => Err(Fault::NoSession(self.endpoint)),
                        }
                    },
                    None => Ok(None),
                }
            },
        }
    }

    /// Start a session: assign identity and event sink. Nothing else changes.
    pub fn start(&mut self, uid: u64)
        ensures
            final(self)@ == (ServiceView { uid: Some(uid), ..old(self)@ }),
    {
        self.uid = Some(uid);
        proof {
            assert(self@ =~= (ServiceView { uid: Some(uid), ..old(self)@ }));
        }
    }

    /// Restart: disconnect every current peer (clearing the whole network's
    /// pending queue as a side effect, then a disconnect notice per former
    /// peer), reset the listening flag, and start with the new identity.
    /// Restart is a clean reset: it emits no events.
    pub fn restart(&mut self, q: &mut PacketQueue, uid: u64)
        requires
            old(q).wf(),
        ensures
            final(q).wf(),
            final(self)@ == (ServiceView {
                uid: Some(uid),
                listening: false,
                connections: Seq::empty(),
                ..old(self)@
            }),
            forall|b: Endpoint| #[trigger] final(q).q(old(self)@.endpoint, b) == repeat_disconnect(
                count_ep(conn_eps(old(self)@.connections), b),
            ),
            forall|a: Endpoint, b: Endpoint|
                a != old(self)@.endpoint ==> #[trigger] final(q).q(a, b) == Seq::<Packet>::empty(),
    {
        self.disconnect_all(q);
        self.uid = Some(uid);
        self.listening = false;
        proof {
            assert(self@ =~= (ServiceView {
                uid: Some(uid),
                listening: false,
                connections: Seq::empty(),
                ..old(self)@
            }));
        }
    }

    /// Bootstrap against every eligible hard-coded contact, counting each
    /// request as outstanding; with no eligible contact, deliver "bootstrap
    /// failed" at once and send nothing.
    pub fn start_bootstrap(&mut self, q: &mut PacketQueue, blacklist: &Vec<u16>, role: Role)
        requires
            old(self)@.uid is Some,
            old(q).wf(),
        ensures
            final(q).wf(),
            ({
                let eligible = eligible_contacts(
                    old(self)@.contacts,
                    old(self)@.endpoint,
                    blacklist@,
                );
                &&& final(self)@ == (ServiceView {
                    pending_bootstraps: eligible.len() as u64,
                    events: if eligible.len() == 0 {
                        old(self)@.events.push(Event::BootstrapFailed)
                    } else {
                        old(self)@.events
                    },
                    ..old(self)@
                })
                &&& forall|b: Endpoint| #[trigger] final(q).q(old(self)@.endpoint, b) == old(q).q(
                    old(self)@.endpoint,
                    b,
                ) + repeat_bootstrap_request(count_ep(eligible, b), old(self)@.uid->0, role)
                &&& forall|a: Endpoint, b: Endpoint|
                    a != old(self)@.endpoint ==> #[trigger] final(q).q(a, b) == old(q).q(a, b)
                &&& (eligible.len() > 0 ==> final(q).message_sent)
                &&& (eligible.len() == 0 ==> *final(q) == *old(q))
            }),
    {
        let own = self.uid.unwrap();
        let me = self.endpoint;
        let ghost contacts = self@.contacts;
        let mut pending: u64 = 0;
        let mut i: usize = 0;
        while i < self.config.hard_coded_contacts.len()
            invariant
                q.wf(),
                i <= contacts.len(),
                *self == *old(self),
                contacts == self@.contacts,
                me == self@.endpoint,
                own == self@.uid->0,
                self@.uid is Some,
                pending == eligible_contacts(contacts.subrange(0, i as int), me, blacklist@).len(),
                pending <= i,
                forall|b: Endpoint| #[trigger] q.q(me, b) == old(q).q(me, b)
                    + repeat_bootstrap_request(
                    count_ep(eligible_contacts(contacts.subrange(0, i as int), me, blacklist@), b),
                    own,
                    role,
                ),
                forall|a: Endpoint, b: Endpoint| a != me ==> #[trigger] q.q(a, b) == old(q).q(a, b),
                pending > 0 ==> q.message_sent,
                pending == 0 ==> *q == *old(q),
            decreases contacts.len() - i,
        {
            let ghost prefix = contacts.subrange(0, i as int);
            let ghost elig_pre = eligible_contacts(prefix, me, blacklist@);
            let c = self.config.hard_coded_contacts[i];
            proof {
                assert(contacts.subrange(0, i + 1) =~= prefix.push(c));
                lemma_eligible_snoc(prefix, c, me, blacklist@);
            }
            if c != me && !contains_addr(blacklist, crate::endpoint_addr(c)) {
                q.send(me, c, Packet::BootstrapRequest(own, role));
                pending = pending + 1;
                proof {
                    assert forall|b: Endpoint| #[trigger] q.q(me, b) == old(q).q(me, b)
                        + repeat_bootstrap_request(
                        count_ep(
                            eligible_contacts(contacts.subrange(0, i + 1), me, blacklist@),
                            b,
                        ),
                        own,
                        role,
                    ) by {
                        lemma_count_ep_snoc(elig_pre, c, b);
                        let n = count_ep(elig_pre, b);
                        if b == c {
                            assert(repeat_bootstrap_request(n + 1, own, role)
                                =~= repeat_bootstrap_request(n, own, role).push(
                                Packet::BootstrapRequest(own, role),
                            ));
                            assert(old(q).q(me, b) + repeat_bootstrap_request(n, own, role).push(
                                Packet::BootstrapRequest(own, role),
                            ) =~= (old(q).q(me, b) + repeat_bootstrap_request(n, own, role)).push(
                                Packet::BootstrapRequest(own, role),
                            ));
                        }
                    }
                }
            } else {
                proof {
                    assert(eligible_contacts(contacts.subrange(0, i + 1), me, blacklist@)
                        == elig_pre);
                }
            }
            i = i + 1;
        }
        proof {
            assert(contacts.subrange(0, contacts.len() as int) =~= contacts);
        }
        self.pending_bootstraps = pending;
        if pending == 0 {
            self.events.push(Event::BootstrapFailed);
            proof {
                assert(self@ =~= (ServiceView {
                    pending_bootstraps: 0u64,
                    events: old(self)@.events.push(Event::BootstrapFailed),
                    ..old(self)@
                }));
            }
        } else {
            proof {
                assert(self@ =~= (ServiceView { pending_bootstraps: pending, ..old(self)@ }));
            }
        }
    }

    /// Resolve the identity to a connected endpoint and enqueue an opaque
    /// message packet to it; report failure, enqueuing nothing, if the
    /// identity is not connected.
    pub fn send_message(&self, q: &mut PacketQueue, uid: u64, data: Vec<u8>) -> (r: bool)
        requires
            old(q).wf(),
        ensures
            final(q).wf(),
            r == (peer_endpoint_of(self@.connections, uid) is Some),
            (match peer_endpoint_of(self@.connections, uid) {
                Some(ep) => {
                    &&& final(q).q(self@.endpoint, ep) == old(q).q(self@.endpoint, ep).push(
                        Packet::Message(data),
                    )
                    &&& forall|a: Endpoint, b: Endpoint|
                        !(a == self@.endpoint && b == ep) ==> #[trigger] final(q).q(a, b) == old(
                            q,
                        ).q(a, b)
                    &&& final(q).message_sent
                },
                None => *final(q) == *old(q),
            }),
    {
        match self.find_index_by_uid(uid) {
            Some(i) => {
                proof {
                    lemma_idx_by_uid(self@.connections, uid);
                }
                let ep = self.connections[i].1;
                q.send(self.endpoint, ep, Packet::Message(data));
                true
            },
            None => false,
        }
    }

    /// Whether an active connection entry exists for the identity.
    pub fn is_peer_connected(&self, uid: u64) -> (r: bool)
        ensures
            r == (peer_endpoint_of(self@.connections, uid) is Some),
    {
        match self.find_index_by_uid(uid) {
            Some(_i) => true,
            None => false,
        }
    }

    /// Idempotent whitelist add: a duplicate add changes nothing.
    pub fn whitelist_peer(&mut self, ep: Endpoint)
        ensures
            final(self)@ == (ServiceView {
                whitelist: if old(self)@.whitelist.contains(ep) {
                    old(self)@.whitelist
                } else {
                    old(self)@.whitelist.push(ep)
                },
                ..old(self)@
            }),
    {
        let mut j: usize = 0;
        while j < self.whitelist.len()
            invariant
                j <= self@.whitelist.len(),
                *self == *old(self),
                forall|k: int| 0 <= k < j ==> #[trigger] self@.whitelist[k] != ep,
            decreases self@.whitelist.len() - j,
        {
            if self.whitelist[j] == ep {
                proof {
                    assert(self@.whitelist[j as int] == ep);
                    assert(self@ =~= (ServiceView {
                        whitelist: old(self)@.whitelist,
                        ..old(self)@
                    }));
                }
                return ;
            }
            j = j + 1;
        }
        self.whitelist.push(ep);
        proof {
            assert(self@ =~= (ServiceView {
                whitelist: old(self)@.whitelist.push(ep),
                ..old(self)@
            }));
        }
    }

    /// Whether the peer is authorized: the whitelist is empty, or the peer is
    /// connected and its endpoint is whitelisted.
    pub fn is_peer_whitelisted(&self, uid: u64) -> (r: bool)
        ensures
            r == self@.is_whitelisted(uid),
    {
        if self.whitelist.len() == 0 {
            return true;
        }
        match self.find_index_by_uid(uid) {
            Some(i) => {
                proof {
                    lemma_idx_by_uid(self@.connections, uid);
                }
                let ep = self.connections[i].1;
                proof {
                    assert(peer_endpoint_of(self@.connections, uid) == Some(ep));
                }
                let mut j: usize = 0;
                while j < self.whitelist.len()
                    invariant
                        j <= self@.whitelist.len(),
                        peer_endpoint_of(self@.connections, uid) == Some(ep),
                        forall|k: int| 0 <= k < j ==> #[trigger] self@.whitelist[k] != ep,
                    decreases self@.whitelist.len() - j,
                {
                    if self.whitelist[j] == ep {
                        proof {
                            assert(self@.whitelist[j as int] == ep);
                            assert(self@.whitelist.contains(ep));
                            assert(peer_endpoint_of(self@.connections, uid) == Some(ep));
                        }
                        return true;
                    }
                    j = j + 1;
                }
                false
            },
            None => false,
        }
    }

    /// Synchronously deliver "connection info ready" carrying this service's
    /// own identity and endpoint, tagged with the caller's token.
    pub fn prepare_connection_info(&mut self, result_token: u32)
        requires
            old(self)@.uid is Some,
        ensures
            final(self)@ == (ServiceView {
                events: old(self)@.events.push(
                    Event::ConnectionInfoPrepared(
                        result_token,
                        old(self)@.uid->0,
                        old(self)@.endpoint,
                    ),
                ),
                ..old(self)@
            }),
    {
        let own = self.uid.unwrap();
        let ep = self.endpoint;
        self.events.push(Event::ConnectionInfoPrepared(result_token, own, ep));
        proof {
            assert(self@ =~= (ServiceView {
                events: old(self)@.events.push(
                    Event::ConnectionInfoPrepared(
                        result_token,
                        old(self)@.uid->0,
                        old(self)@.endpoint,
                    ),
                ),
                ..old(self)@
            }));
        }
    }

    /// Enqueue a connect request to the peer, carrying this service's
    /// identity and the peer's.
    pub fn connect(&self, q: &mut PacketQueue, _our_info: PrivConnectionInfo, their_info: PubConnectionInfo)
        requires
            self@.uid is Some,
            old(q).wf(),
        ensures
            final(q).wf(),
            final(q).q(self@.endpoint, their_info.endpoint) == old(q).q(
                self@.endpoint,
                their_info.endpoint,
            ).push(Packet::ConnectRequest(self@.uid->0, their_info.id)),
            forall|a: Endpoint, b: Endpoint|
                !(a == self@.endpoint && b == their_info.endpoint) ==> #[trigger] final(q).q(a, b)
                    == old(q).q(a, b),
            final(q).message_sent,
    {
        let own = self.uid.unwrap();
        q.send(
            self.endpoint,
            their_info.endpoint,
            Packet::ConnectRequest(own, their_info.id),
        );
    }

    /// Open the listener: set the listening flag and deliver "listener
    /// started" with the port.
    pub fn start_listening_tcp(&mut self, port: u16)
        requires
            old(self)@.uid is Some,
        ensures
            final(self)@ == (ServiceView {
                listening: true,
                events: old(self)@.events.push(Event::ListenerStarted(port)),
                ..old(self)@
            }),
    {
        self.listening = true;
        self.events.push(Event::ListenerStarted(port));
        proof {
            assert(self@ =~= (ServiceView {
                listening: true,
                events: old(self)@.events.push(Event::ListenerStarted(port)),
                ..old(self)@
            }));
        }
    }

    /// Disconnect one peer: remove the local connection entry, clear all
    /// pending packets between the two endpoints in both directions, then
    /// send a disconnect notice. The initiator gets no event of its own;
    /// only the remote side will, on processing the notice. Reports whether
    /// a connection existed.
    pub fn disconnect(&mut self, q: &mut PacketQueue, uid: u64) -> (r: bool)
        requires
            old(q).wf(),
        ensures
            final(q).wf(),
            r == (idx_by_uid(old(self)@.connections, uid) is Some),
            (match idx_by_uid(old(self)@.connections, uid) {
                Some(i) => {
                    let me = old(self)@.endpoint;
                    let ep = old(self)@.connections[i].1;
                    &&& final(self)@ == (ServiceView {
                        connections: old(self)@.connections.remove(i),
                        ..old(self)@
                    })
                    &&& final(q).q(me, ep) == seq![Packet::Disconnect]
                    &&& (ep != me ==> final(q).q(ep, me) == Seq::<Packet>::empty())
                    &&& forall|a: Endpoint, b: Endpoint|
                        !((a == me && b == ep) || (a == ep && b == me)) ==> #[trigger] final(q).q(
                            a,
                            b,
                        ) == old(q).q(a, b)
                    &&& final(q).message_sent
                },
                None => *final(self) == *old(self) && *final(q) == *old(q),
            }),
    {
        match self.find_index_by_uid(uid) {
            Some(i) => {
                proof {
                    lemma_idx_by_uid(self@.connections, uid);
                }
                let entry = self.connections.remove(i);
                let ep = entry.1;
                let me = self.endpoint;
                q.drop_pending(me, ep);
                q.drop_pending(ep, me);
                q.send(me, ep, Packet::Disconnect);
                proof {
                    assert(final(q).q(me, ep) =~= seq![Packet::Disconnect]);
                    assert(self@ =~= (ServiceView {
                        connections: old(self)@.connections.remove(i as int),
                        ..old(self)@
                    }));
                }
                true
            },
            None => false,
        }
    }

    /// Teardown of this service's connectivity: clear the entire network's
    /// pending queue — teardown of any one node is globally disruptive to
    /// in-flight packets — then send a disconnect notice to every currently
    /// connected peer and drop all local connection entries.
    pub fn disconnect_all(&mut self, q: &mut PacketQueue)
        requires
            old(q).wf(),
        ensures
            final(q).wf(),
            final(self)@ == (ServiceView { connections: Seq::empty(), ..old(self)@ }),
            forall|b: Endpoint| #[trigger] final(q).q(old(self)@.endpoint, b) == repeat_disconnect(
                count_ep(conn_eps(old(self)@.connections), b),
            ),
            forall|a: Endpoint, b: Endpoint|
                a != old(self)@.endpoint ==> #[trigger] final(q).q(a, b) == Seq::<Packet>::empty(),
    {
        q.clear();
        let me = self.endpoint;
        let ghost eps = conn_eps(self@.connections);
        let mut i: usize = 0;
        while i < self.connections.len()
            invariant
                q.wf(),
                i <= eps.len(),
                *self == *old(self),
                me == self@.endpoint,
                eps == conn_eps(self@.connections),
                eps.len() == self@.connections.len(),
                forall|b: Endpoint| #[trigger] q.q(me, b) == repeat_disconnect(
                    count_ep(eps.subrange(0, i as int), b),
                ),
                forall|a: Endpoint, b: Endpoint|
                    a != me ==> #[trigger] q.q(a, b) == Seq::<Packet>::empty(),
            decreases eps.len() - i,
        {
            let ghost prefix = eps.subrange(0, i as int);
            let ep = self.connections[i].1;
            proof {
                assert(eps[i as int] == ep);
                assert(eps.subrange(0, i + 1) =~= prefix.push(ep));
            }
            q.send(me, ep, Packet::Disconnect);
            proof {
                assert forall|b: Endpoint| #[trigger] q.q(me, b) == repeat_disconnect(
                    count_ep(eps.subrange(0, i + 1), b),
                ) by {
                    lemma_count_ep_snoc(prefix, ep, b);
                    if b == ep {
                        assert(repeat_disconnect(count_ep(prefix, b) + 1) =~= repeat_disconnect(
                            count_ep(prefix, b),
                        ).push(Packet::Disconnect));
                    }
                }
            }
            i = i + 1;
        }
        proof {
            assert(eps.subrange(0, eps.len() as int) =~= eps);
        }
        self.connections.clear();
        proof {
            assert(self@ =~= (ServiceView { connections: Seq::empty(), ..old(self)@ }));
        }
    }

    /// Remove the connection entry keyed by the peer's endpoint, handing back
    /// the identity it recorded, or nothing if no such peer exists.
    pub fn remove_connection_by_endpoint(&mut self, ep: Endpoint) -> (r: Option<u64>)
        ensures
            (match idx_by_endpoint(old(self)@.connections, ep) {
                Some(i) => r == Some(old(self)@.connections[i].0) && final(self)@ == (ServiceView {
                    connections: old(self)@.connections.remove(i),
                    ..old(self)@
                }),
                None => r is None && *final(self) == *old(self),
            }),
    {
        match self.find_index_by_endpoint(ep) {
            Some(i) => {
                proof {
                    lemma_idx_by_endpoint(self@.connections, ep);
                }
                let entry = self.connections.remove(i);
                proof {
                    assert(self@ =~= (ServiceView {
                        connections: old(self)@.connections.remove(i as int),
                        ..old(self)@
                    }));
                }
                Some(entry.0)
            },
            None => None,
        }
    }

    /// Deliver one event synchronously to the owner; a session must have
    /// started, or there is no sink to deliver to.
    pub fn send_event(&mut self, event: Event)
        requires
            old(self)@.uid is Some,
        ensures
            final(self)@ == (ServiceView { events: old(self)@.events.push(event), ..old(self)@ }),
    {
        self.events.push(event);
        proof {
            assert(self@ =~= (ServiceView { events: old(self)@.events.push(event), ..old(self)@ }));
        }
    }

    /// Hand the events delivered so far to the owner, oldest first, leaving
    /// the feed empty.
    pub fn take_events(&mut self) -> (r: Vec<Event>)
        ensures
            r@ == old(self)@.events,
            final(self)@ == (ServiceView { events: Seq::empty(), ..old(self)@ }),
    {
        let mut taken: Vec<Event> = Vec::new();
        core::mem::swap(&mut self.events, &mut taken);
        proof {
            assert(self@ =~= (ServiceView { events: Seq::empty(), ..old(self)@ }));
        }
        taken
    }
}

/// Whether the blacklist holds the given address.
fn contains_addr(blacklist: &Vec<u16>, a: u16) -> (r: bool)
    ensures
        r == blacklist@.contains(a),
{
    let mut j: usize = 0;
    while j < blacklist.len()
        invariant
            j <= blacklist@.len(),
            forall|k: int| 0 <= k < j ==> #[trigger] blacklist@[k] != a,
        decreases blacklist@.len() - j,
    {
        if blacklist[j] == a {
            assert(blacklist@[j as int] == a);
            return true;
        }
        j = j + 1;
    }
    false
}

} // verus!
