use goobus::{connection_address, refresh_peer_names, GooBus, Message, PeerInfo, SocketAddress};

fn address(port: u16) -> SocketAddress {
    SocketAddress::V4 { ip: 0x7f00_0001, port }
}

fn node_with_peers(names: &[&str]) -> GooBus {
    let mut bus = GooBus::new("node".to_string(), address(1));
    for (index, name) in names.iter().enumerate() {
        let address = address(index as u16 + 2);
        let (id, _) = bus.initialize_peer(address).unwrap();
        let info = PeerInfo { name: name.to_string(), public_addr: address };
        bus.introduce_peer(id, Message::Hello(info)).unwrap();
    }
    bus
}

fn refreshed(shown: &[&str], names: &[&str]) -> Vec<String> {
    let mut shown: Vec<String> = shown.iter().map(|name| name.to_string()).collect();
    refresh_peer_names(&mut shown, node_with_peers(names).state());
    shown
}

#[test]
fn the_names_of_the_peers_are_shown() {
    assert_eq!(refreshed(&[], &["a"]), ["a"]);
    assert_eq!(refreshed(&["a"], &["a", "b", "a"]), ["a", "b", "a"]);
    assert_eq!(refreshed(&["b", "c"], &["a", "b", "c"]), ["a", "b", "c"]);
    assert_eq!(refreshed(&["x", "y", "z"], &["a", "z"]), ["a", "z"]);
    assert_eq!(refreshed(&["a", "b"], &["a", "b"]), ["a", "b"]);
}

#[test]
fn without_peers_no_name_stays() {
    assert!(refreshed(&[], &[]).is_empty());
    assert!(refreshed(&["a"], &[]).is_empty());
    assert!(refreshed(&["a", "b", "c"], &[]).is_empty());
}

#[test]
fn a_disconnected_peer_is_not_shown() {
    let mut bus = GooBus::new("node".to_string(), address(1));
    let (id, _) = bus.initialize_peer(address(2)).unwrap();
    let info = PeerInfo { name: "a".to_string(), public_addr: address(20) };
    bus.introduce_peer(id, Message::Hello(info)).unwrap();
    let mut shown = Vec::new();
    refresh_peer_names(&mut shown, bus.state());
    assert_eq!(shown, ["a"]);
    bus.disconnect_peer(id);
    refresh_peer_names(&mut shown, bus.state());
    assert!(shown.is_empty());
}

#[test]
fn an_address_is_trimmed() {
    assert_eq!(connection_address("  [::1]:80\t\n"), Ok("[::1]:80".to_string()));
    assert_eq!(connection_address("\u{a0}\u{3000}a b\u{2003}"), Ok("a b".to_string()));
    assert_eq!(connection_address("\u{200b}"), Ok("\u{200b}".to_string()));
}

#[test]
fn an_address_is_required() {
    let required = Err("Connection address required".to_string());
    assert_eq!(connection_address(""), required);
    assert_eq!(connection_address(" \t\r\n\u{85}\u{1680}\u{2028}\u{205f}"), required);
}
