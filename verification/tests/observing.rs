//! Nodes that talk to each other, as they would over connections.

use std::collections::{HashMap, VecDeque};

use alot::LotId;
use goobus::{GooBus, Message, Outgoing, Reaction, ReadProgress, SocketAddress};

/// The reader that decodes `i32`s.
const I32_READER: u64 = 0;

struct Node {
    bus: GooBus,
    contents: HashMap<String, i32>,
    peer_names: HashMap<LotId, String>,
}

/// Nodes with the connections between them and the messages under way.
struct Net {
    nodes: Vec<Node>,
    links: HashMap<(usize, LotId), (usize, LotId)>,
    under_way: VecDeque<(usize, LotId, Message)>,
    next_port: u16,
}

impl Net {
    fn new() -> Net {
        Net {
            nodes: Vec::new(),
            links: HashMap::new(),
            under_way: VecDeque::new(),
            next_port: 50000,
        }
    }

    fn address(&mut self) -> SocketAddress {
        self.next_port += 1;
        SocketAddress::V6 { ip: 1, port: self.next_port, flowinfo: 0, scope_id: 0 }
    }

    fn add(&mut self, name: &str) -> usize {
        let address = self.address();
        self.nodes.push(Node {
            bus: GooBus::new(name.to_string(), address),
            contents: HashMap::new(),
            peer_names: HashMap::new(),
        });
        self.nodes.len() - 1
    }

    fn send(&mut self, from: usize, outgoing: Vec<Outgoing>) {
        for Outgoing { to, message } in outgoing {
            let (node, id) = self.links[&(from, to)];
            self.under_way.push_back((node, id, message));
        }
    }

    fn connect(&mut self, from: usize, address: SocketAddress) {
        let Some(to) = self.nodes.iter().position(|node| node.bus.listening_on() == address) else {
            return;
        };
        if self.nodes[from].bus.is_connected_to(address) {
            return;
        }
        let own_address = self.address();
        let Some((to_id, hello)) = self.nodes[from].bus.initialize_peer(address) else {
            return;
        };
        let (from_id, hello_back) = self.nodes[to].bus.initialize_peer(own_address).unwrap();
        self.links.insert((from, to_id), (to, from_id));
        self.links.insert((to, from_id), (from, to_id));
        self.send(from, vec![Outgoing { to: to_id, message: hello }]);
        self.send(to, vec![Outgoing { to: from_id, message: hello_back }]);
        self.settle();
    }

    /// Ends all connections between two nodes.
    fn disconnect(&mut self, one: usize, other: usize) {
        let ended: Vec<(usize, LotId)> = self
            .links
            .iter()
            .filter(|(near, far)| {
                (near.0, far.0) == (one, other) || (near.0, far.0) == (other, one)
            })
            .map(|(near, _)| *near)
            .collect();
        for (at, id) in ended {
            self.links.remove(&(at, id));
            self.nodes[at].peer_names.remove(&id);
            self.nodes[at].bus.disconnect_peer(id);
        }
    }

    fn settle(&mut self) {
        while let Some((at, id, message)) = self.under_way.pop_front() {
            let node = &mut self.nodes[at];
            let Some(peer_name) = node.peer_names.get(&id).cloned() else {
                let introduction = node.bus.introduce_peer(id, message).unwrap();
                node.peer_names.insert(id, introduction.peer_name);
                self.send(at, introduction.announcements);
                self.send(at, introduction.requests);
                continue;
            };
            let current = node
                .bus
                .wanted_value(&message)
                .and_then(|name| node.contents.get(&name))
                .map(|value| pot::to_vec(value).unwrap());
            match node.bus.process_incoming_message(id, &peer_name, message, current) {
                Reaction::Continue | Reaction::Updated(_) => {}
                Reaction::Connect(address) => self.connect(at, address),
                Reaction::Reply(outgoing) => self.send(at, vec![outgoing]),
                other => panic!("{:?}", other),
            }
        }
    }

    fn publish(&mut self, at: usize, name: &str, value: i32) {
        self.nodes[at].contents.insert(name.to_string(), value);
        self.nodes[at].bus.publish(name.to_string());
    }

    fn set(&mut self, at: usize, name: &str, value: i32) {
        self.nodes[at].contents.insert(name.to_string(), value);
        let data = pot::to_vec(&value).ok();
        let outgoing = self.nodes[at].bus.value_changed(name, &data);
        self.send(at, outgoing);
        self.settle();
    }

    fn subscribe(&mut self, at: usize, peer: &str, name: &str) {
        let subscribed = self.nodes[at].bus.subscribe_to(peer, name, I32_READER);
        self.send(at, subscribed.request.into_iter().collect());
        self.settle();
    }

    fn observed(&self, at: usize, peer: &str, name: &str) -> i32 {
        let input = self.nodes[at].bus.state().input(peer, name).unwrap();
        pot::from_slice::<i32>(input).unwrap_or_default()
    }

    fn names_of_peers(&self, at: usize) -> Vec<String> {
        self.nodes[at].bus.state().peers().iter().map(|peer| peer.name.clone()).collect()
    }
}

#[test]
fn value_observing() {
    let mut net = Net::new();
    let a = net.add("a");
    net.publish(a, "value", 1);
    let b = net.add("b");
    net.connect(a, net.nodes[b].bus.listening_on());
    net.subscribe(b, "a", "value");

    // b sees a.value.
    assert_eq!(net.observed(b, "a", "value"), 1);

    // a is updated, and b sees it.
    net.set(a, "value", 2);
    assert_eq!(net.observed(b, "a", "value"), 2);

    let c = net.add("c");
    net.connect(c, net.nodes[a].bus.listening_on());

    // c sees a.value.
    net.subscribe(c, "a", "value");
    assert_eq!(net.observed(c, "a", "value"), 2);
    net.set(a, "value", 3);

    // Both see the change.
    assert_eq!(net.observed(b, "a", "value"), 3);
    assert_eq!(net.observed(c, "a", "value"), 3);
}

#[test]
fn subscribing_before_connecting() {
    let mut net = Net::new();
    let a = net.add("a");
    let b = net.add("b");
    net.publish(a, "value", 7);
    net.subscribe(b, "a", "value");
    assert_eq!(net.observed(b, "a", "value"), 0);
    net.connect(b, net.nodes[a].bus.listening_on());
    assert_eq!(net.observed(b, "a", "value"), 7);
    net.set(a, "value", 8);
    assert_eq!(net.observed(b, "a", "value"), 8);
}

#[test]
fn announced_peers_connect_to_each_other() {
    let mut net = Net::new();
    let a = net.add("a");
    let b = net.add("b");
    let c = net.add("c");
    net.connect(a, net.nodes[b].bus.listening_on());
    assert_eq!(net.names_of_peers(a), ["b"]);
    assert_eq!(net.names_of_peers(b), ["a"]);
    net.connect(c, net.nodes[a].bus.listening_on());
    assert_eq!(net.names_of_peers(a), ["b", "c"]);
    assert_eq!(net.names_of_peers(b), ["a", "c"]);
    assert_eq!(net.names_of_peers(c), ["a", "b"]);
}

#[test]
fn connecting_twice_is_connecting_once() {
    let mut net = Net::new();
    let a = net.add("a");
    let b = net.add("b");
    net.connect(a, net.nodes[b].bus.listening_on());
    net.connect(a, net.nodes[b].bus.listening_on());
    net.connect(b, net.nodes[a].bus.listening_on());
    assert_eq!(net.names_of_peers(a), ["b"]);
    assert_eq!(net.names_of_peers(b), ["a"]);
}

#[test]
fn reconnecting_resumes_subscriptions() {
    let mut net = Net::new();
    let a = net.add("a");
    let b = net.add("b");
    net.publish(a, "value", 1);
    net.connect(b, net.nodes[a].bus.listening_on());
    net.subscribe(b, "a", "value");
    assert_eq!(net.observed(b, "a", "value"), 1);

    net.disconnect(a, b);
    assert!(net.names_of_peers(a).is_empty());
    assert!(net.names_of_peers(b).is_empty());
    net.set(a, "value", 2);
    assert_eq!(net.observed(b, "a", "value"), 1);

    net.connect(b, net.nodes[a].bus.listening_on());
    assert_eq!(net.observed(b, "a", "value"), 2);
    net.set(a, "value", 3);
    assert_eq!(net.observed(b, "a", "value"), 3);
}

#[test]
fn publishing_anew_forgets_subscribers() {
    let mut net = Net::new();
    let a = net.add("a");
    let b = net.add("b");
    net.publish(a, "value", 1);
    net.connect(a, net.nodes[b].bus.listening_on());
    net.subscribe(b, "a", "value");
    net.publish(a, "value", 10);
    net.set(a, "value", 11);
    assert_eq!(net.observed(b, "a", "value"), 1);
    net.subscribe(b, "a", "value");
    assert_eq!(net.observed(b, "a", "value"), 11);
}

#[test]
fn messages_arrive_in_frames() {
    let first = pot::to_vec(&1_i32).unwrap();
    let second = pot::to_vec(&"value").unwrap();
    let mut stream = Message::write(&first).unwrap();
    let end_of_first = stream.len();
    stream.extend(Message::write(&second).unwrap());
    assert_eq!(Message::read(&stream), ReadProgress::Payload(first));
    assert_eq!(Message::read(&stream[end_of_first..]), ReadProgress::Payload(second));
}
