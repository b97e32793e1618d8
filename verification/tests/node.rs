use alot::{LotId, Lots};
use goobus::{
    Filter, GooBus, GooBusState, Message, Outgoing, PeerInfo, Reaction, SocketAddress, Subscribed,
};

fn address(port: u16) -> SocketAddress {
    SocketAddress::V4 { ip: 0x7f00_0001, port }
}

fn info(name: &str, port: u16) -> PeerInfo {
    PeerInfo { name: name.to_string(), public_addr: address(port) }
}

fn subscribe(name: &str) -> Message {
    Message::Subscribe(Filter::Named(name.to_string()))
}

fn value(name: &str, data: &[u8]) -> Message {
    Message::Value { name: name.to_string(), data: data.to_vec() }
}

fn node() -> GooBus {
    GooBus::new("node".to_string(), address(1))
}

/// Connects a peer that introduces itself by `name`.
fn join(bus: &mut GooBus, name: &str, port: u16) -> LotId {
    let (id, _) = bus.initialize_peer(address(port)).unwrap();
    bus.introduce_peer(id, Message::Hello(info(name, port))).unwrap();
    id
}

#[test]
fn a_new_node() {
    let bus = node();
    assert_eq!(bus.name(), "node");
    assert_eq!(bus.listening_on(), address(1));
    assert!(bus.state().peers().is_empty());
    assert!(bus.state().has_room());
    assert!(GooBusState::default().peers().is_empty());
}

#[test]
fn a_connection_is_greeted() {
    let mut bus = node();
    let (_, hello) = bus.initialize_peer(address(2)).unwrap();
    assert_eq!(hello, Message::Hello(info("node", 1)));
    assert!(bus.state().peers().is_empty());
}

#[test]
fn a_second_connection_to_an_address_is_dropped() {
    let mut bus = node();
    let (first, _) = bus.initialize_peer(address(2)).unwrap();
    assert_eq!(bus.initialize_peer(address(2)), None);
    let other = SocketAddress::V6 { ip: 1, port: 2, flowinfo: 0, scope_id: 0 };
    let (second, _) = bus.initialize_peer(other).unwrap();
    assert_ne!(first, second);
    assert_eq!(bus.initialize_peer(other), None);
    let scoped = SocketAddress::V6 { ip: 1, port: 2, flowinfo: 0, scope_id: 3 };
    assert!(bus.initialize_peer(scoped).is_some());
}

#[test]
fn keys_are_those_of_lots() {
    let mut bus = node();
    let mut lots = Lots::new();
    for port in 2..10 {
        let (id, _) = bus.initialize_peer(address(port)).unwrap();
        assert_eq!(id, lots.push(port));
    }
    for (id, _) in lots.clone().entries().filter(|(_, port)| **port % 3 == 0) {
        bus.disconnect_peer(id);
        lots.remove(id);
    }
    for port in 20..25 {
        let (id, _) = bus.initialize_peer(address(port)).unwrap();
        assert_eq!(id, lots.push(port));
    }
}

#[test]
fn an_introduction_is_announced_to_the_others() {
    let mut bus = node();
    let b = join(&mut bus, "b", 2);
    let (silent, _) = bus.initialize_peer(address(3)).unwrap();
    let (c, _) = bus.initialize_peer(address(4)).unwrap();
    let introduction = bus.introduce_peer(c, Message::Hello(info("c", 40))).unwrap();
    assert_eq!(introduction.peer_name, "c");
    let news = Message::NewPeer(info("c", 40));
    assert_eq!(
        introduction.announcements,
        [
            Outgoing { to: b, message: news.clone() },
            Outgoing { to: silent, message: news },
        ]
    );
    assert!(introduction.requests.is_empty());
    assert_eq!(bus.state().peers(), [&info("b", 2), &info("c", 40)]);
}

#[test]
fn the_first_message_must_be_a_greeting() {
    let mut bus = node();
    let (id, _) = bus.initialize_peer(address(2)).unwrap();
    assert_eq!(bus.introduce_peer(id, Message::Bye), Err(Message::Bye));
    assert!(bus.state().peers().is_empty());
    // The connection has been given up, so that the address is free again.
    let (id, _) = bus.initialize_peer(address(2)).unwrap();
    assert_eq!(bus.introduce_peer(id, subscribe("x")), Err(subscribe("x")));
}

#[test]
fn a_later_greeting_is_refused() {
    let mut bus = node();
    let b = join(&mut bus, "b", 2);
    let hello = Message::Hello(info("b2", 5));
    assert_eq!(bus.process_incoming_message(b, "b", hello, None), Reaction::UnexpectedHello);
    assert!(bus.state().peers().is_empty());
}

#[test]
fn goodbye_ends_the_connection() {
    let mut bus = node();
    let b = join(&mut bus, "b", 2);
    assert_eq!(bus.process_incoming_message(b, "b", Message::Bye, None), Reaction::Closed);
    assert!(bus.state().peers().is_empty());
    assert!(!bus.is_connected_to(address(2)));
}

#[test]
fn an_ended_connection_counts_no_more() {
    let mut bus = node();
    let b = join(&mut bus, "b", 2);
    let c = join(&mut bus, "c", 3);
    bus.publish("value".to_string());
    for id in [b, c] {
        bus.process_incoming_message(id, "", subscribe("value"), Some(vec![1]));
    }
    bus.disconnect_peer(b);
    assert_eq!(bus.state().peers(), [&info("c", 3)]);
    assert_eq!(
        bus.value_changed("value", &Some(vec![2])),
        [Outgoing { to: c, message: value("value", &[2]) }]
    );
    assert_eq!(bus.subscribe_to("b", "x", 0).request, None);
    let (d, _) = bus.initialize_peer(address(4)).unwrap();
    let introduction = bus.introduce_peer(d, Message::Hello(info("d", 4))).unwrap();
    let news = Message::NewPeer(info("d", 4));
    assert_eq!(introduction.announcements, [Outgoing { to: c, message: news }]);
    let announced = Message::NewPeer(info("b", 2));
    assert_eq!(
        bus.process_incoming_message(c, "c", announced, None),
        Reaction::Connect(address(2))
    );
    // Ending it once more changes nothing.
    bus.disconnect_peer(b);
    assert_eq!(bus.state().peers().len(), 2);
}

#[test]
fn new_connections_come_last() {
    let mut bus = node();
    for (name, port) in [("d", 2), ("a", 3), ("c", 4), ("b", 5)] {
        join(&mut bus, name, port);
    }
    assert_eq!(bus.state().peers(), [&info("d", 2), &info("a", 3), &info("c", 4), &info("b", 5)]);
}

#[test]
fn free_places_are_taken_again() {
    let mut bus = node();
    let a = join(&mut bus, "a", 2);
    let _b = join(&mut bus, "b", 3);
    let c = join(&mut bus, "c", 4);
    let d = join(&mut bus, "d", 5);
    let _e = join(&mut bus, "e", 6);
    for id in [c, a, d] {
        bus.disconnect_peer(id);
    }
    assert_eq!(bus.state().peers(), [&info("b", 3), &info("e", 6)]);
    // The place that was left last is taken first.
    join(&mut bus, "f", 7);
    assert_eq!(bus.state().peers(), [&info("b", 3), &info("f", 7), &info("e", 6)]);
    join(&mut bus, "g", 8);
    assert_eq!(
        bus.state().peers(),
        [&info("g", 8), &info("b", 3), &info("f", 7), &info("e", 6)]
    );
    join(&mut bus, "h", 9);
    assert_eq!(
        bus.state().peers(),
        [&info("g", 8), &info("b", 3), &info("h", 9), &info("f", 7), &info("e", 6)]
    );
    join(&mut bus, "i", 10);
    assert_eq!(
        bus.state().peers(),
        [&info("g", 8), &info("b", 3), &info("h", 9), &info("f", 7), &info("e", 6), &info("i", 10)]
    );
}

#[test]
fn the_first_of_a_name_is_the_first_walked() {
    let mut bus = node();
    let a = join(&mut bus, "a", 2);
    let old = join(&mut bus, "peer", 3);
    let request = |to| Some(Outgoing { to, message: subscribe("value") });
    assert_eq!(bus.subscribe_to("peer", "value", 0).request, request(old));
    bus.disconnect_peer(a);
    let new = join(&mut bus, "peer", 4);
    assert_eq!(bus.subscribe_to("peer", "value", 0).request, request(new));
}

#[test]
fn a_peer_is_known_by_what_it_has_told() {
    let mut bus = node();
    let b = join(&mut bus, "b", 2);
    let (silent, _) = bus.initialize_peer(address(3)).unwrap();
    let c = join(&mut bus, "c", 4);
    assert_eq!(bus.state().info_of(b), Some(&info("b", 2)));
    assert_eq!(bus.state().info_of(silent), None);
    assert_eq!(bus.state().info_of(c), Some(&info("c", 4)));
    bus.disconnect_peer(b);
    assert_eq!(bus.state().info_of(b), None);
}

#[test]
fn only_who_asked_since_publication_is_told() {
    let mut bus = node();
    let b = join(&mut bus, "b", 2);
    let c = join(&mut bus, "c", 3);
    let d = join(&mut bus, "d", 4);
    bus.process_incoming_message(b, "b", subscribe("value"), None);
    bus.publish("value".to_string());
    bus.process_incoming_message(c, "c", subscribe("value"), Some(vec![1]));
    bus.process_incoming_message(d, "d", subscribe("value"), Some(vec![1]));
    bus.process_incoming_message(b, "b", subscribe("other"), Some(vec![1]));
    bus.disconnect_peer(d);
    let told = [Outgoing { to: c, message: value("value", &[2]) }];
    assert_eq!(bus.value_changed("value", &Some(vec![2])), told);
    // Who comes back has to ask again.
    let d = join(&mut bus, "d", 4);
    assert_eq!(bus.value_changed("value", &Some(vec![2])), told);
    bus.process_incoming_message(d, "d", subscribe("value"), Some(vec![2]));
    assert_eq!(bus.value_changed("value", &Some(vec![3])).len(), 2);
}

#[test]
fn a_returning_peer_is_asked_again() {
    let mut bus = node();
    bus.subscribe_to("peer", "value", 0);
    let first = join(&mut bus, "peer", 2);
    bus.process_incoming_message(first, "peer", value("value", &[1]), None);
    bus.disconnect_peer(first);
    assert_eq!(bus.state().input("peer", "value"), Some(&vec![1]));

    let (id, hello) = bus.initialize_peer(address(2)).unwrap();
    assert_eq!(hello, Message::Hello(info("node", 1)));
    let introduction = bus.introduce_peer(id, Message::Hello(info("peer", 2))).unwrap();
    assert_eq!(introduction.requests, [Outgoing { to: id, message: subscribe("value") }]);
    assert_eq!(
        bus.process_incoming_message(id, "peer", value("value", &[2]), None),
        Reaction::Updated("value".to_string())
    );
}

#[test]
fn a_request_goes_over_the_open_connection() {
    let mut bus = node();
    let first = join(&mut bus, "peer", 2);
    bus.process_incoming_message(first, "peer", Message::Bye, None);
    let second = join(&mut bus, "peer", 3);
    assert_ne!(first, second);
    let request = Outgoing { to: second, message: subscribe("value") };
    assert_eq!(bus.subscribe_to("peer", "value", 0).request, Some(request));
}

#[test]
fn a_connected_node_is_known_by_both_its_addresses() {
    let mut bus = node();
    let (id, _) = bus.initialize_peer(address(50)).unwrap();
    assert!(bus.is_connected_to(address(50)));
    assert!(!bus.is_connected_to(address(2)));
    bus.introduce_peer(id, Message::Hello(info("b", 2))).unwrap();
    assert!(bus.is_connected_to(address(50)));
    assert!(bus.is_connected_to(address(2)));
    assert_eq!(bus.initialize_peer(address(2)), None);
    assert_eq!(bus.state().peers(), [&info("b", 2)]);
    bus.disconnect_peer(id);
    assert!(!bus.is_connected_to(address(50)));
    assert!(!bus.is_connected_to(address(2)));
}

#[test]
fn only_unknown_peers_are_connected_to() {
    let mut bus = node();
    let b = join(&mut bus, "b", 2);
    let known = Message::NewPeer(info("b", 2));
    assert_eq!(bus.process_incoming_message(b, "b", known, None), Reaction::Continue);
    let moved = Message::NewPeer(info("b", 3));
    assert_eq!(bus.process_incoming_message(b, "b", moved, None), Reaction::Connect(address(3)));
    let renamed = Message::NewPeer(info("c", 2));
    assert_eq!(bus.process_incoming_message(b, "b", renamed, None), Reaction::Connect(address(2)));
}

#[test]
fn a_subscription_is_requested_over_the_first_connection() {
    let mut bus = node();
    let _other = join(&mut bus, "other", 2);
    let first = join(&mut bus, "peer", 3);
    let _second = join(&mut bus, "peer", 4);
    let request = Outgoing { to: first, message: subscribe("value") };
    assert_eq!(
        bus.subscribe_to("peer", "value", 0),
        Subscribed { request: Some(request), is_new: true }
    );
    assert_eq!(
        bus.subscribe_to("nobody", "value", 0),
        Subscribed { request: None, is_new: true }
    );
}

#[test]
fn subscribing_again_is_not_new() {
    let mut bus = node();
    let peer = join(&mut bus, "peer", 2);
    assert!(bus.subscribe_to("peer", "value", 0).is_new);
    let received = value("value", &[1, 2]);
    bus.process_incoming_message(peer, "peer", received, None);
    assert!(!bus.subscribe_to("peer", "value", 0).is_new);
    assert!(bus.subscribe_to("peer", "value", 1).is_new);
    assert!(bus.subscribe_to("peer", "other", 0).is_new);
    assert_eq!(bus.state().input("peer", "value"), Some(&vec![1, 2]));
    assert_eq!(bus.state().input("peer", "other"), Some(&vec![]));
}

#[test]
fn every_connection_of_the_name_is_asked() {
    let mut bus = node();
    bus.subscribe_to("peer", "x", 0);
    bus.subscribe_to("peer", "y", 0);
    bus.subscribe_to("peer", "x", 1);
    bus.subscribe_to("other", "z", 0);
    for port in 2..4 {
        let (id, _) = bus.initialize_peer(address(port)).unwrap();
        let introduction = bus.introduce_peer(id, Message::Hello(info("peer", port))).unwrap();
        assert_eq!(introduction.requests.len(), 2);
        for name in ["x", "y"] {
            let request = Outgoing { to: id, message: subscribe(name) };
            assert!(introduction.requests.contains(&request));
        }
    }
}

#[test]
fn a_received_value_is_handed_on() {
    let mut bus = node();
    let peer = join(&mut bus, "peer", 2);
    bus.subscribe_to("peer", "value", 0);
    assert_eq!(bus.state().input("peer", "value"), Some(&vec![]));
    assert_eq!(
        bus.process_incoming_message(peer, "peer", value("value", &[1, 2]), None),
        Reaction::Updated("value".to_string())
    );
    assert_eq!(bus.state().input("peer", "value"), Some(&vec![1, 2]));
    assert_eq!(
        bus.process_incoming_message(peer, "peer", value("other", &[3]), None),
        Reaction::Continue
    );
    assert_eq!(
        bus.process_incoming_message(peer, "impostor", value("value", &[4]), None),
        Reaction::Continue
    );
    assert_eq!(bus.state().input("peer", "value"), Some(&vec![1, 2]));
    assert_eq!(bus.state().input("peer", "other"), None);
    assert_eq!(bus.state().input("impostor", "value"), None);
}

#[test]
fn a_subscriber_is_answered_and_told_of_changes() {
    let mut bus = node();
    let b = join(&mut bus, "b", 2);
    let c = join(&mut bus, "c", 3);
    bus.publish("value".to_string());
    assert!(bus.value_changed("value", &Some(vec![0])).is_empty());
    assert_eq!(bus.wanted_value(&subscribe("value")), Some("value".to_string()));
    assert_eq!(
        bus.process_incoming_message(b, "b", subscribe("value"), Some(vec![1])),
        Reaction::Reply(Outgoing { to: b, message: value("value", &[1]) })
    );
    let told = [Outgoing { to: b, message: value("value", &[2]) }];
    assert_eq!(bus.value_changed("value", &Some(vec![2])), told);

    // Asking twice is answered twice, but told of changes once.
    bus.process_incoming_message(b, "b", subscribe("value"), Some(vec![2]));
    assert_eq!(bus.value_changed("value", &Some(vec![2])), told);

    bus.process_incoming_message(c, "c", subscribe("value"), Some(vec![2]));
    let told = bus.value_changed("value", &Some(vec![3]));
    assert_eq!(told.len(), 2);
    for to in [b, c] {
        assert!(told.contains(&Outgoing { to, message: value("value", &[3]) }));
    }
    assert!(bus.value_changed("value", &None).is_empty());
    assert!(bus.value_changed("other", &Some(vec![3])).is_empty());
}

#[test]
fn an_unpublished_value_is_not_answered() {
    let mut bus = node();
    let b = join(&mut bus, "b", 2);
    assert_eq!(bus.wanted_value(&subscribe("value")), None);
    assert_eq!(bus.wanted_value(&Message::Bye), None);
    assert_eq!(
        bus.process_incoming_message(b, "b", subscribe("value"), Some(vec![1])),
        Reaction::Continue
    );
    bus.publish("value".to_string());
    assert!(bus.value_changed("value", &Some(vec![1])).is_empty());
}

#[test]
fn a_value_that_is_gone_is_withdrawn() {
    let mut bus = node();
    let b = join(&mut bus, "b", 2);
    bus.publish("value".to_string());
    bus.process_incoming_message(b, "b", subscribe("value"), Some(vec![1]));
    assert!(bus.state().is_published("value"));
    assert_eq!(
        bus.process_incoming_message(b, "b", subscribe("value"), None),
        Reaction::Continue
    );
    assert!(!bus.state().is_published("value"));
    assert!(bus.value_changed("value", &Some(vec![1])).is_empty());
}

#[test]
fn publishing_again_drops_the_subscribers() {
    let mut bus = node();
    let b = join(&mut bus, "b", 2);
    bus.publish("value".to_string());
    bus.process_incoming_message(b, "b", subscribe("value"), Some(vec![1]));
    bus.publish("value".to_string());
    assert!(bus.value_changed("value", &Some(vec![2])).is_empty());
}
