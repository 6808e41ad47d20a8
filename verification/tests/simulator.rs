//! End-to-end tests of the simulated network: bootstrap, rendezvous connect,
//! message delivery, blocking, delaying, disconnects, and forced peer loss.

use netsim::config::Config;
use netsim::network::Network;
use netsim::packet::{Event, Fault, Packet, Role};
use netsim::service::{PrivConnectionInfo, PubConnectionInfo};
use netsim::{endpoint_addr, Endpoint};

fn new_net() -> Network {
    Network::new(8, Some(42))
}

/// Registers a started service with the given contacts and identity.
fn spawn(net: &mut Network, contacts: &[Endpoint], uid: u64) -> Endpoint {
    let ep = net.new_service_handle(Some(Config::with_contacts(contacts)), None);
    net.start(ep, uid);
    ep
}

/// Connects two started services through the rendezvous handshake.
fn rendezvous(net: &mut Network, a: Endpoint, ua: u64, b: Endpoint, ub: u64) {
    net.connect(
        a,
        PrivConnectionInfo { id: ua, endpoint: a },
        PubConnectionInfo { id: ub, endpoint: b },
    );
    net.connect(
        b,
        PrivConnectionInfo { id: ub, endpoint: b },
        PubConnectionInfo { id: ua, endpoint: a },
    );
    net.poll().unwrap();
}

#[test]
fn endpoint_allocation_is_monotonic() {
    let mut net = new_net();
    assert_eq!(net.gen_endpoint(None), Endpoint(0));
    assert_eq!(net.gen_endpoint(None), Endpoint(1));
    assert_eq!(net.gen_endpoint(Some(Endpoint(5))), Endpoint(5));
    assert_eq!(net.gen_endpoint(None), Endpoint(6));
    assert_eq!(net.gen_endpoint(Some(Endpoint(2))), Endpoint(2));
    assert_eq!(net.gen_endpoint(None), Endpoint(7));
}

#[test]
fn endpoint_addr_is_the_port() {
    assert_eq!(endpoint_addr(Endpoint(5)), 5);
    assert_eq!(endpoint_addr(Endpoint(0x1_2345)), 0x2345);
}

#[test]
fn config_holds_its_contacts() {
    assert!(Config::new().hard_coded_contacts.is_empty());
    assert!(Config::default().hard_coded_contacts.is_empty());
    let c = Config::with_contacts(&[Endpoint(3), Endpoint(9)]);
    assert_eq!(c.hard_coded_contacts, vec![Endpoint(3), Endpoint(9)]);
}

#[test]
fn to_failure_maps_requests_only() {
    assert_eq!(
        Packet::BootstrapRequest(1, Role::Node).to_failure(),
        Some(Packet::BootstrapFailure)
    );
    assert_eq!(
        Packet::ConnectRequest(1, 2).to_failure(),
        Some(Packet::ConnectFailure(2, 1))
    );
    assert_eq!(Packet::Message(vec![1, 2]).to_failure(), None);
    assert_eq!(Packet::Disconnect.to_failure(), None);
    assert_eq!(Packet::BootstrapSuccess(1).to_failure(), None);
}

#[test]
fn bootstrap_with_no_contacts_fails_immediately() {
    let mut net = new_net();
    let a = spawn(&mut net, &[], 1);
    net.start_bootstrap(a, &Vec::new(), Role::Node);
    assert_eq!(net.take_events(a), vec![Event::BootstrapFailed]);
    // Nothing was ever enqueued.
    assert!(!net.reset_message_sent());
}

#[test]
fn bootstrap_against_non_listening_peer_fails_once() {
    let mut net = new_net();
    let b = spawn(&mut net, &[], 2);
    let a = spawn(&mut net, &[b], 1);
    net.start_bootstrap(a, &Vec::new(), Role::Node);
    assert!(net.reset_message_sent());
    net.poll().unwrap();
    assert_eq!(net.take_events(a), vec![Event::BootstrapFailed]);
    assert_eq!(net.take_events(b), vec![]);
    assert_eq!(net.connection_count(a), 0);
}

#[test]
fn bootstrap_against_listening_peer_connects() {
    let mut net = new_net();
    let b = spawn(&mut net, &[], 2);
    net.start_listening_tcp(b, 5000);
    assert_eq!(net.take_events(b), vec![Event::ListenerStarted(5000)]);
    let a = spawn(&mut net, &[b], 1);
    net.start_bootstrap(a, &Vec::new(), Role::Node);
    net.poll().unwrap();
    assert_eq!(net.connection_count(a), 1);
    assert_eq!(net.connection_count(b), 1);
    assert!(net.is_connected(a, b));
    assert!(net.is_connected(b, a));
    assert_eq!(
        net.take_events(a),
        vec![Event::BootstrapConnect(2, endpoint_addr(b))]
    );
    assert_eq!(net.take_events(b), vec![Event::BootstrapAccept(1, Role::Node)]);
}

#[test]
fn bootstrap_skips_self_and_blacklisted_contacts() {
    let mut net = new_net();
    let b = spawn(&mut net, &[], 2);
    let c = spawn(&mut net, &[], 3);
    net.start_listening_tcp(b, 5000);
    net.start_listening_tcp(c, 5001);
    let a = net.new_service_handle(None, Some(Endpoint(40)));
    net.start(a, 1);
    // The service's own endpoint and the blacklisted contact are skipped.
    let contacts = [a, b, c];
    let a2 = net.new_service_handle(Some(Config::with_contacts(&contacts)), Some(a));
    assert_eq!(a2, a);
    net.start(a, 1);
    net.start_bootstrap(a, &vec![endpoint_addr(c)], Role::Client);
    net.poll().unwrap();
    assert_eq!(net.connection_count(a), 1);
    assert!(net.is_connected(a, b));
    let _ = net.take_events(b);
    assert_eq!(net.take_events(c), vec![Event::ListenerStarted(5001)]);
}

#[test]
fn bootstrap_against_vanished_contact_fails() {
    let mut net = new_net();
    let ghost_town = Endpoint(77);
    let a = spawn(&mut net, &[ghost_town], 1);
    net.start_bootstrap(a, &Vec::new(), Role::Node);
    net.poll().unwrap();
    assert_eq!(net.take_events(a), vec![Event::BootstrapFailed]);
}

#[test]
fn simultaneous_connects_yield_one_connection_each() {
    let mut net = new_net();
    let a = spawn(&mut net, &[], 1);
    let b = spawn(&mut net, &[], 2);
    rendezvous(&mut net, a, 1, b, 2);
    assert_eq!(net.connection_count(a), 1);
    assert_eq!(net.connection_count(b), 1);
    assert!(net.is_connected(a, b));
    assert!(net.is_connected(b, a));
    let _ = net.take_events(a);
    let _ = net.take_events(b);
    // A repeated request against the existing connection is ignored: no
    // event, no reply, still one entry.
    net.connect(
        a,
        PrivConnectionInfo { id: 1, endpoint: a },
        PubConnectionInfo { id: 2, endpoint: b },
    );
    net.poll().unwrap();
    assert_eq!(net.connection_count(a), 1);
    assert_eq!(net.connection_count(b), 1);
    assert_eq!(net.take_events(a), vec![]);
    assert_eq!(net.take_events(b), vec![]);
}

#[test]
fn connect_to_vanished_peer_reports_failure() {
    let mut net = new_net();
    let a = spawn(&mut net, &[], 1);
    net.connect(
        a,
        PrivConnectionInfo { id: 1, endpoint: a },
        PubConnectionInfo { id: 9, endpoint: Endpoint(50) },
    );
    net.poll().unwrap();
    assert_eq!(net.take_events(a), vec![Event::ConnectFailure(9)]);
    assert_eq!(net.connection_count(a), 0);
}

#[test]
fn messages_arrive_in_order_per_pair() {
    let mut net = new_net();
    let a = spawn(&mut net, &[], 1);
    let b = spawn(&mut net, &[], 2);
    let c = spawn(&mut net, &[], 3);
    rendezvous(&mut net, a, 1, b, 2);
    rendezvous(&mut net, c, 3, b, 2);
    let _ = net.take_events(a);
    let _ = net.take_events(b);
    let _ = net.take_events(c);
    assert!(net.send_message(a, 2, vec![1]));
    assert!(net.send_message(c, 2, vec![9]));
    assert!(net.send_message(a, 2, vec![2]));
    assert!(net.send_message(a, 2, vec![3]));
    net.poll().unwrap();
    let from_a: Vec<Vec<u8>> = net
        .take_events(b)
        .into_iter()
        .filter_map(|e| match e {
            Event::NewMessage(1, data) => Some(data),
            _ => None,
        })
        .collect();
    assert_eq!(from_a, vec![vec![1], vec![2], vec![3]]);
}

#[test]
fn send_message_to_unknown_peer_reports_failure() {
    let mut net = new_net();
    let a = spawn(&mut net, &[], 1);
    assert!(!net.send_message(a, 999, vec![1]));
    assert!(!net.reset_message_sent());
}

#[test]
fn fully_delayed_network_still_drains() {
    let mut net = new_net();
    let a = spawn(&mut net, &[], 1);
    let b = spawn(&mut net, &[], 2);
    rendezvous(&mut net, a, 1, b, 2);
    let _ = net.take_events(a);
    let _ = net.take_events(b);
    net.delay_connection(a, b);
    net.delay_connection(b, a);
    assert!(net.send_message(a, 2, vec![7]));
    assert!(net.send_message(b, 1, vec![8]));
    net.poll().unwrap();
    assert_eq!(net.take_events(b), vec![Event::NewMessage(1, vec![7])]);
    assert_eq!(net.take_events(a), vec![Event::NewMessage(2, vec![8])]);
}

#[test]
fn blocking_suppresses_requests_but_not_messages() {
    let mut net = new_net();
    let b = spawn(&mut net, &[], 2);
    net.start_listening_tcp(b, 5000);
    let _ = net.take_events(b);
    let a = spawn(&mut net, &[b], 1);
    // A blocked bootstrap request turns into a failure packet in reverse.
    net.block_connection(a, b);
    net.start_bootstrap(a, &Vec::new(), Role::Node);
    net.poll().unwrap();
    assert_eq!(net.take_events(a), vec![Event::BootstrapFailed]);
    assert_eq!(net.take_events(b), vec![]);
    // Established traffic passes even on a blocked pair.
    net.unblock_connection(a, b);
    rendezvous(&mut net, a, 1, b, 2);
    let _ = net.take_events(a);
    let _ = net.take_events(b);
    net.block_connection(a, b);
    assert!(net.send_message(a, 2, vec![5]));
    net.poll().unwrap();
    assert_eq!(net.take_events(b), vec![Event::NewMessage(1, vec![5])]);
}

#[test]
fn disconnect_is_asymmetric() {
    let mut net = new_net();
    let a = spawn(&mut net, &[], 1);
    let b = spawn(&mut net, &[], 2);
    rendezvous(&mut net, a, 1, b, 2);
    let _ = net.take_events(a);
    let _ = net.take_events(b);
    // An in-flight message is cleared by the disconnect and never arrives.
    assert!(net.send_message(a, 2, vec![1]));
    assert!(net.disconnect(a, 2));
    assert!(!net.is_peer_connected(a, 2));
    assert!(net.is_peer_connected(b, 1));
    net.poll().unwrap();
    assert_eq!(net.take_events(a), vec![]);
    assert_eq!(net.take_events(b), vec![Event::LostPeer(1)]);
    assert!(!net.is_peer_connected(b, 1));
    // A second disconnect reports that no connection existed.
    assert!(!net.disconnect(a, 2));
}

#[test]
fn forced_loss_without_connection_is_a_no_op() {
    let mut net = new_net();
    let a = spawn(&mut net, &[], 1);
    let b = spawn(&mut net, &[], 2);
    net.lost_connection(a, b);
    assert_eq!(net.take_events(a), vec![]);
    assert_eq!(net.take_events(b), vec![]);
}

#[test]
fn forced_loss_drops_both_sides() {
    let mut net = new_net();
    let a = spawn(&mut net, &[], 1);
    let b = spawn(&mut net, &[], 2);
    rendezvous(&mut net, a, 1, b, 2);
    let _ = net.take_events(a);
    let _ = net.take_events(b);
    net.lost_connection(a, b);
    assert_eq!(net.take_events(a), vec![Event::LostPeer(2)]);
    assert_eq!(net.take_events(b), vec![Event::LostPeer(1)]);
    assert!(!net.is_peer_connected(a, 2));
    assert!(!net.is_peer_connected(b, 1));
}

#[test]
fn message_from_unknown_origin_is_a_fault() {
    let mut net = new_net();
    let a = spawn(&mut net, &[], 1);
    let b = spawn(&mut net, &[], 2);
    rendezvous(&mut net, a, 1, b, 2);
    assert!(net.send_message(a, 2, vec![1]));
    // Forced loss removes the connection records but leaves the message in
    // flight: its delivery finds no registered connection at the target.
    net.lost_connection(a, b);
    assert_eq!(net.poll(), Err(Fault::UnknownSender(a, b)));
}

#[test]
fn packet_to_sessionless_service_is_a_fault() {
    let mut net = new_net();
    let a = spawn(&mut net, &[], 1);
    let b = net.new_service_handle(None, None);
    net.connect(
        a,
        PrivConnectionInfo { id: 1, endpoint: a },
        PubConnectionInfo { id: 2, endpoint: b },
    );
    assert_eq!(net.poll(), Err(Fault::NoSession(b)));
}

#[test]
fn restart_resets_cleanly() {
    let mut net = new_net();
    let a = spawn(&mut net, &[], 1);
    let b = spawn(&mut net, &[], 2);
    net.start_listening_tcp(a, 5000);
    rendezvous(&mut net, a, 1, b, 2);
    let _ = net.take_events(a);
    let _ = net.take_events(b);
    net.restart(a, 7);
    // Restart emits no events of its own and clears local connections.
    assert_eq!(net.take_events(a), vec![]);
    assert_eq!(net.connection_count(a), 0);
    net.poll().unwrap();
    assert_eq!(net.take_events(b), vec![Event::LostPeer(1)]);
}

#[test]
fn removing_a_service_makes_it_unreachable() {
    let mut net = new_net();
    let a = spawn(&mut net, &[], 1);
    let b = spawn(&mut net, &[], 2);
    rendezvous(&mut net, a, 1, b, 2);
    let _ = net.take_events(a);
    let _ = net.take_events(b);
    net.remove_service(b);
    net.poll().unwrap();
    assert_eq!(net.take_events(a), vec![Event::LostPeer(2)]);
    // A connect request to the vanished endpoint now draws a failure.
    net.connect(
        a,
        PrivConnectionInfo { id: 1, endpoint: a },
        PubConnectionInfo { id: 2, endpoint: b },
    );
    net.poll().unwrap();
    let events = net.take_events(a);
    assert!(events.contains(&Event::ConnectFailure(2)));
}

#[test]
fn message_sent_flag_resets_on_query() {
    let mut net = new_net();
    let a = spawn(&mut net, &[], 1);
    let b = spawn(&mut net, &[], 2);
    assert!(!net.reset_message_sent());
    rendezvous(&mut net, a, 1, b, 2);
    assert!(net.reset_message_sent());
    assert!(!net.reset_message_sent());
}

#[test]
fn whitelist_restricts_connected_peers() {
    let mut net = new_net();
    let a = spawn(&mut net, &[], 1);
    let b = spawn(&mut net, &[], 2);
    let c = spawn(&mut net, &[], 3);
    rendezvous(&mut net, a, 1, b, 2);
    rendezvous(&mut net, a, 1, c, 3);
    // An empty whitelist accepts any peer, connected or not.
    assert!(net.is_peer_whitelisted(a, 2));
    assert!(net.is_peer_whitelisted(a, 999));
    net.whitelist_peer(a, b);
    // A duplicate add is harmless.
    net.whitelist_peer(a, b);
    assert!(net.is_peer_whitelisted(a, 2));
    assert!(!net.is_peer_whitelisted(a, 3));
    assert!(!net.is_peer_whitelisted(a, 999));
}

#[test]
fn prepare_connection_info_reports_own_identity() {
    let mut net = new_net();
    let a = spawn(&mut net, &[], 1);
    net.prepare_connection_info(a, 33);
    assert_eq!(
        net.take_events(a),
        vec![Event::ConnectionInfoPrepared(33, 1, a)]
    );
    let own = PrivConnectionInfo { id: 1, endpoint: a };
    let shared = own.to_pub();
    assert_eq!(shared.id, 1);
    assert_eq!(shared.endpoint, a);
}

#[test]
fn injected_events_bypass_the_queue() {
    let mut net = new_net();
    let a = spawn(&mut net, &[], 1);
    net.send_crust_event(a, Event::LostPeer(42));
    assert_eq!(net.take_events(a), vec![Event::LostPeer(42)]);
}

#[test]
fn same_seed_same_schedule() {
    let run = || {
        let mut net = Network::new(8, Some(7));
        let hub = spawn(&mut net, &[], 10);
        net.start_listening_tcp(hub, 4000);
        let mut spokes = Vec::new();
        for k in 0..5u64 {
            let s = spawn(&mut net, &[hub], k);
            net.start_bootstrap(s, &Vec::new(), Role::Node);
            spokes.push(s);
        }
        net.poll().unwrap();
        net.take_events(hub)
    };
    assert_eq!(run(), run());
}

#[test]
fn min_section_size_is_kept() {
    let net = Network::new(13, None);
    assert_eq!(net.min_section_size(), 13);
}
