use kademlia_dht::key::{bytes_equal, Distance, Key};
use kademlia_dht::node::Node;
use kademlia_dht::routing::NodeAndDistance;

fn key_with(byte: usize, value: u8) -> Key {
    let mut bytes = [0u8; 32];
    bytes[byte] = value;
    Key(bytes)
}

#[test]
fn key_is_sha256_of_text() {
    let key = Key::new("hello world".to_string());
    let expected: [u8; 32] = [
        0xb9, 0x4d, 0x27, 0xb9, 0x93, 0x4d, 0x3e, 0x08, 0xa5, 0x2e, 0x52, 0xd7, 0xda, 0x7d, 0xab,
        0xfa, 0xc4, 0x84, 0xef, 0xe3, 0x7a, 0x53, 0x80, 0xee, 0x90, 0x88, 0xf7, 0xac, 0xe2, 0xef,
        0xcd, 0xe9,
    ];
    assert_eq!(key.0, expected);
}

#[test]
fn key_of_empty_text() {
    let key = Key::new(String::new());
    assert_eq!(
        hex::encode(key.0),
        "e3b0c44298fc1c149afbf4c8996fb92427ae41e4649b934ca495991b7852b855"
    );
}

#[test]
fn key_is_deterministic() {
    let a = Key::new("127.0.0.1:5000".to_string());
    let b = Key::new("127.0.0.1:5000".to_string());
    let c = Key::new("127.0.0.1:5001".to_string());
    assert_eq!(a, b);
    assert_ne!(a, c);
    assert_eq!(a.clone(), a);
}

#[test]
fn bytes_equal_compares_every_byte() {
    let a = [7u8; 32];
    let mut b = [7u8; 32];
    assert!(bytes_equal(&a, &b));
    b[31] = 8;
    assert!(!bytes_equal(&a, &b));
}

#[test]
fn distance_is_bytewise_xor() {
    let mut a = [0u8; 32];
    let mut b = [0u8; 32];
    a[0] = 0b1010_0000;
    b[0] = 0b0110_0000;
    a[31] = 0xff;
    let d = Distance::new(&Key(a), &Key(b));
    assert_eq!(d.0[0], 0b1100_0000);
    assert_eq!(d.0[31], 0xff);
    assert_eq!(d.0[1], 0);
}

#[test]
fn distance_is_symmetric_and_zero_to_self() {
    let a = Key::new("a".to_string());
    let b = Key::new("b".to_string());
    assert_eq!(Distance::new(&a, &b), Distance::new(&b, &a));
    assert_eq!(Distance::new(&a, &a).0, [0u8; 32]);
    assert_ne!(Distance::new(&a, &b).0, [0u8; 32]);
}

#[test]
fn distance_xor_triangle() {
    let a = Key::new("a".to_string());
    let b = Key::new("b".to_string());
    let c = Key::new("c".to_string());
    let ab = Distance::new(&a, &b);
    let bc = Distance::new(&b, &c);
    let ac = Distance::new(&a, &c);
    let mut folded = [0u8; 32];
    for i in 0..32 {
        folded[i] = ab.0[i] ^ bc.0[i];
    }
    assert_eq!(ac.0, folded);
}

#[test]
fn bucket_index_counts_leading_zero_bits() {
    let zero = Key([0u8; 32]);
    assert_eq!(zero.bucket_index(&key_with(0, 0x80)), 0);
    assert_eq!(zero.bucket_index(&key_with(0, 0x40)), 1);
    assert_eq!(zero.bucket_index(&key_with(0, 0x7f)), 1);
    assert_eq!(zero.bucket_index(&key_with(0, 0x01)), 7);
    assert_eq!(zero.bucket_index(&key_with(1, 0x80)), 8);
    assert_eq!(zero.bucket_index(&key_with(1, 0x10)), 11);
    assert_eq!(zero.bucket_index(&key_with(31, 0x02)), 254);
    assert_eq!(zero.bucket_index(&key_with(31, 0x01)), 255);
}

#[test]
fn bucket_index_of_same_key_is_last_bucket() {
    let a = Key::new("same".to_string());
    assert_eq!(a.bucket_index(&a), 255);
    assert_eq!(Distance([0u8; 32]).bucket_index(), 255);
}

#[test]
fn bucket_index_takes_highest_set_bit() {
    let mut bytes = [0xffu8; 32];
    bytes[0] = 0;
    bytes[1] = 0b0010_1111;
    assert_eq!(Distance(bytes).bucket_index(), 10);
}

#[test]
fn closer_than_is_big_endian_order() {
    let small = Distance(key_with(31, 0xff).0);
    let large = Distance(key_with(0, 0x01).0);
    assert!(small.closer_than(&large));
    assert!(!large.closer_than(&small));
    assert!(!small.closer_than(&small));
    assert!(small < large);
    assert!(large > small);
    assert!(small <= small);
    let mut a = [5u8; 32];
    let b = [5u8; 32];
    a[17] = 4;
    assert!(Distance(a).closer_than(&Distance(b)));
}

#[test]
fn entries_order_against_their_distance() {
    let near = NodeAndDistance(Node::new("h".to_string(), 1), Distance(key_with(31, 1).0));
    let far = NodeAndDistance(Node::new("h".to_string(), 2), Distance(key_with(0, 1).0));
    assert!(near > far);
    assert!(far < near);
    assert!(!(near < near));
}

#[test]
fn compare_distance() {
    let node0 = Node::new("127.0.0.1".to_string(), 1335);
    let node1 = Node::new("127.0.0.1".to_string(), 1336);

    let dist = Distance::new(&node0.id, &node1.id);
    let nd0 = NodeAndDistance(node0.clone(), dist.clone());
    let nd1 = NodeAndDistance(node1.clone(), dist.clone());

    assert_eq!(nd0, nd1);
}

#[test]
fn entries_at_different_distances_differ() {
    let node = Node::new("127.0.0.1".to_string(), 1335);
    let a = NodeAndDistance(node.clone(), Distance(key_with(3, 1).0));
    let b = NodeAndDistance(node, Distance(key_with(3, 2).0));
    assert_ne!(a, b);
}

#[test]
fn hex_string_drops_leading_zero_of_each_byte() {
    let mut bytes = [0u8; 32];
    bytes[0] = 0xab;
    bytes[1] = 0x0c;
    bytes[31] = 0x10;
    let expected = format!("AB{}{}10", "C", "0".repeat(29));
    assert_eq!(Key(bytes).hex_string(), expected);
    assert_eq!(Distance(bytes).hex_string(), expected);
}

#[test]
fn binary_string_drops_leading_zeros_of_each_byte() {
    let mut bytes = [0u8; 32];
    bytes[0] = 5;
    bytes[1] = 0xff;
    bytes[31] = 1;
    let expected = format!("101{}{}1", "11111111", "0".repeat(29));
    assert_eq!(Distance(bytes).binary_string(), expected);
}
