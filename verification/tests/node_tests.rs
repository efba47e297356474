use kademlia_dht::key::Key;
use kademlia_dht::node::Node;
use kademlia_dht::text::{chars_of, parse_port, push_decimal, push_digits, write_bytes};

#[test]
fn node_id_is_hash_of_address() {
    let node = Node::new("127.0.0.1".to_string(), 5000);
    assert_eq!(node.ip, "127.0.0.1");
    assert_eq!(node.port, 5000);
    assert_eq!(node.id, Key::new("127.0.0.1:5000".to_string()));
}

#[test]
fn node_address_is_host_colon_port() {
    assert_eq!(Node::new("127.0.0.1".to_string(), 5000).get_addr(), "127.0.0.1:5000");
    assert_eq!(Node::new("host".to_string(), 0).get_addr(), "host:0");
    assert_eq!(Node::new("host".to_string(), 65535).get_addr(), "host:65535");
    assert_eq!(Node::new(String::new(), 7).get_addr(), ":7");
}

#[test]
fn node_info_is_address_and_upper_hex() {
    let node = Node::new("127.0.0.1".to_string(), 5000);
    let info = node.get_info();
    assert!(info.starts_with("127.0.0.1:5000:"));
    let hex = &info["127.0.0.1:5000:".len()..];
    assert_eq!(hex.len(), 64);
    assert_eq!(hex, hex::encode_upper(node.id.0));
    assert!(hex.chars().all(|c| c.is_ascii_digit() || ('A'..='F').contains(&c)));
}

#[test]
fn node_info_of_known_key() {
    let mut node = Node::new("h".to_string(), 1);
    let mut bytes = [0u8; 32];
    bytes[0] = 0x0a;
    bytes[31] = 0xf1;
    node.id = Key(bytes);
    assert_eq!(node.get_info(), format!("h:1:0A{}F1", "00".repeat(30)));
}

#[test]
fn nodes_compare_by_all_fields() {
    let a = Node::new("127.0.0.1".to_string(), 5000);
    let b = Node::new("127.0.0.1".to_string(), 5000);
    let c = Node::new("127.0.0.1".to_string(), 5001);
    assert_eq!(a, b);
    assert_ne!(a, c);
    assert_eq!(a.clone(), a);
}

#[test]
fn from_addr_reads_host_and_port() {
    let node = Node::from_addr("127.0.0.1:5000").unwrap();
    assert_eq!(node, Node::new("127.0.0.1".to_string(), 5000));
    let node = Node::from_addr("example.org:65535").unwrap();
    assert_eq!(node.ip, "example.org");
    assert_eq!(node.port, 65535);
}

#[test]
fn from_addr_round_trips_get_addr() {
    for port in [0u16, 1, 9, 10, 99, 100, 5000, 65535] {
        let node = Node::new("10.1.2.3".to_string(), port);
        assert_eq!(Node::from_addr(&node.get_addr()), Some(node));
    }
}

#[test]
fn from_addr_stops_at_second_colon() {
    let node = Node::from_addr("host:80:junk").unwrap();
    assert_eq!(node.ip, "host");
    assert_eq!(node.port, 80);
}

#[test]
fn from_addr_takes_plus_and_leading_zeros() {
    assert_eq!(Node::from_addr("h:+80").unwrap().port, 80);
    assert_eq!(Node::from_addr("h:00080").unwrap().port, 80);
    assert_eq!(Node::from_addr("h:+80").unwrap().id, Key::new("h:80".to_string()));
}

#[test]
fn from_addr_refuses_what_is_no_address() {
    assert_eq!(Node::from_addr(""), None);
    assert_eq!(Node::from_addr("no-colon"), None);
    assert_eq!(Node::from_addr("host:"), None);
    assert_eq!(Node::from_addr("host:+"), None);
    assert_eq!(Node::from_addr("host:-1"), None);
    assert_eq!(Node::from_addr("host:12a"), None);
    assert_eq!(Node::from_addr("host: 12"), None);
    assert_eq!(Node::from_addr("host:65536"), None);
    assert_eq!(Node::from_addr("host:99999999999999999999"), None);
    assert_eq!(Node::from_addr("[::1]:5000"), None);
}

#[test]
fn from_addr_keeps_non_ascii_host() {
    let node = Node::from_addr("hôte:12").unwrap();
    assert_eq!(node.ip, "hôte");
    assert_eq!(node.port, 12);
}

#[test]
fn parse_port_reads_a_range_of_characters() {
    let chars = chars_of("ab123cd");
    assert_eq!(chars, vec!['a', 'b', '1', '2', '3', 'c', 'd']);
    assert_eq!(parse_port(&chars, 2, 5), Some(123));
    assert_eq!(parse_port(&chars, 2, 6), None);
    assert_eq!(parse_port(&chars, 3, 3), None);
    assert_eq!(parse_port(&chars_of("65535"), 0, 5), Some(65535));
    assert_eq!(parse_port(&chars_of("65536"), 0, 5), None);
}

#[test]
fn push_decimal_appends_digits() {
    let mut s = "x".to_string();
    push_decimal(&mut s, 0);
    push_decimal(&mut s, 65535);
    push_decimal(&mut s, 907);
    assert_eq!(s, "x065535907");
}

#[test]
fn push_digits_in_hex_and_binary() {
    let mut s = String::new();
    push_digits(&mut s, 0, true);
    push_digits(&mut s, 0xf, true);
    push_digits(&mut s, 0xa0, true);
    push_digits(&mut s, 0, false);
    push_digits(&mut s, 6, false);
    push_digits(&mut s, 255, false);
    assert_eq!(s, "0FA0011011111111");
}

#[test]
fn write_bytes_joins_all_bytes() {
    let bytes = [0x1fu8; 32];
    assert_eq!(write_bytes(&bytes, true), "1F".repeat(32));
    assert_eq!(write_bytes(&bytes, false), "11111".repeat(32));
}
