use kademlia_dht::key::{Distance, Key};
use kademlia_dht::network::{Message, ReqWrapper, Request, Response};
use kademlia_dht::node::Node;
use kademlia_dht::protocol::Protocol;
use kademlia_dht::routing::{FindValueResult, NodeAndDistance, Probe};
use kademlia_dht::store::Store;

fn peer() -> Protocol {
    Protocol::new("127.0.0.1".to_string(), 5000, None)
}

fn request(src: &str, payload: Request) -> ReqWrapper {
    ReqWrapper { token: Key::new("token".to_string()), src: src.to_string(), payload }
}

fn contacts_in_bucket(owner: &Node, bucket: usize, count: usize) -> Vec<Node> {
    let mut found = Vec::new();
    let mut port: u16 = 10000;
    while found.len() < count {
        let node = Node::new("10.0.0.1".to_string(), port);
        if owner.id.bucket_index(&node.id) == bucket {
            found.push(node);
        }
        port += 1;
    }
    found
}

#[test]
fn store_keeps_last_write() {
    let mut store = Store::new();
    assert_eq!(store.len(), 0);
    assert_eq!(store.get(&"k".to_string()), None);
    store.insert("k".to_string(), "v1".to_string());
    store.insert("other".to_string(), "w".to_string());
    store.insert("k".to_string(), "v2".to_string());
    assert_eq!(store.get(&"k".to_string()), Some(&"v2".to_string()));
    assert_eq!(store.get(&"other".to_string()), Some(&"w".to_string()));
    assert_eq!(store.get(&"K".to_string()), None);
    assert_eq!(store.len(), 2);
}

#[test]
fn new_peer_knows_itself_and_bootstrap() {
    let boot = Node::new("127.0.0.1".to_string(), 4000);
    let p = Protocol::new("127.0.0.1".to_string(), 5000, Some(boot.clone()));
    assert_eq!(p.node(), &Node::new("127.0.0.1".to_string(), 5000));
    assert!(p.routing_table().contains(&boot));
    assert!(p.routing_table().contains(p.node()));
    assert_eq!(p.lookup_local(&"k".to_string()), None);
}

#[test]
fn ping_request_gets_pong_and_teaches_source() {
    let mut p = peer();
    let src = Node::new("127.0.0.1".to_string(), 5001);
    let (res, req) = p.craft_res(request("127.0.0.1:5001", Request::Ping)).unwrap();
    assert!(matches!(res, Response::Ping));
    assert_eq!(req.src, "127.0.0.1:5001");
    assert_eq!(req.token, Key::new("token".to_string()));
    assert!(p.routing_table().contains(&src));
}

#[test]
fn request_from_no_address_is_dropped() {
    let mut p = peer();
    assert!(p.craft_res(request("nonsense", Request::Ping)).is_none());
    assert!(p
        .craft_res(request("host:port", Request::Store("k".to_string(), "v".to_string())))
        .is_none());
    assert_eq!(p.lookup_local(&"k".to_string()), None);
}

#[test]
fn store_request_is_acknowledged_and_kept() {
    let mut p = peer();
    let req = request("127.0.0.1:5001", Request::Store("k".to_string(), "v".to_string()));
    let (res, _) = p.craft_res(req).unwrap();
    assert!(matches!(res, Response::Ping));
    assert_eq!(p.lookup_local(&"k".to_string()), Some(&"v".to_string()));
    let req = request("127.0.0.1:5001", Request::Store("k".to_string(), "w".to_string()));
    p.craft_res(req).unwrap();
    assert_eq!(p.lookup_local(&"k".to_string()), Some(&"w".to_string()));
}

#[test]
fn find_node_request_gets_closest_contacts() {
    let mut p = peer();
    for port in 6000..6040u16 {
        p.craft_res(request(&format!("127.0.0.1:{}", port), Request::Ping)).unwrap();
    }
    let id = Key::new("target".to_string());
    let (res, _) = p.craft_res(request("127.0.0.1:5001", Request::FindNode(id.clone()))).unwrap();
    match res {
        Response::FindNode(list) => {
            assert_eq!(list.len(), 20);
            let expected = p.routing_table().get_closest_nodes(&id, 20);
            for (a, b) in list.iter().zip(expected.iter()) {
                assert_eq!(a.0, b.0);
                assert_eq!(a.1, Distance::new(&a.0.id, &id));
            }
        }
        _ => panic!("not a node list"),
    }
}

#[test]
fn find_value_request_gets_value_when_held() {
    let mut p = peer();
    p.craft_res(request("127.0.0.1:5001", Request::Store("k".to_string(), "v".to_string())))
        .unwrap();
    let (res, _) =
        p.craft_res(request("127.0.0.1:5002", Request::FindValue("k".to_string()))).unwrap();
    assert!(matches!(res, Response::FindValue(FindValueResult::Value(ref v)) if v == "v"));
}

#[test]
fn find_value_request_gets_contacts_when_not_held() {
    let mut p = peer();
    let (res, _) =
        p.craft_res(request("127.0.0.1:5002", Request::FindValue("k".to_string()))).unwrap();
    match res {
        Response::FindValue(FindValueResult::Nodes(list)) => {
            let key = Key::new("k".to_string());
            assert_eq!(list.len(), 2);
            for e in &list {
                assert_eq!(e.1, Distance::new(&e.0.id, &key));
            }
            assert!(list[0].1.closer_than(&list[1].1));
        }
        _ => panic!("not a node list"),
    }
}

#[test]
fn reply_goes_back_to_source_under_the_same_token() {
    let p = peer();
    let msg = p.reply((Response::Ping, request("127.0.0.1:5001", Request::Ping)));
    assert_eq!(msg.token, Key::new("token".to_string()));
    assert_eq!(msg.src, "127.0.0.1:5000");
    assert_eq!(msg.dst, "127.0.0.1:5001");
    assert!(matches!(msg.msg, Message::Response(Response::Ping)));
}

#[test]
fn ping_outcome_updates_or_removes_contact() {
    let mut p = peer();
    let dst = Node::new("127.0.0.1".to_string(), 5001);
    assert!(p.ping(dst.clone(), Some(Response::Ping)));
    assert!(p.routing_table().contains(&dst));
    assert!(!p.ping(dst.clone(), None));
    assert!(!p.routing_table().contains(&dst));
    assert!(p.ping(dst.clone(), Some(Response::Ping)));
    assert!(!p.ping(dst.clone(), Some(Response::FindNode(Vec::new()))));
    assert!(!p.routing_table().contains(&dst));
}

#[test]
fn store_outcome_updates_or_removes_contact() {
    let mut p = peer();
    let dst = Node::new("127.0.0.1".to_string(), 5001);
    assert!(p.store(dst.clone(), Some(Response::Ping)));
    assert!(p.routing_table().contains(&dst));
    assert!(!p.store(dst.clone(), None));
    assert!(!p.routing_table().contains(&dst));
    let wrong = Response::FindValue(FindValueResult::Value("v".to_string()));
    assert!(!p.store(dst.clone(), Some(wrong)));
}

#[test]
fn find_node_outcome_hands_entries_on() {
    let mut p = peer();
    let dst = Node::new("127.0.0.1".to_string(), 5001);
    let other = Node::new("127.0.0.1".to_string(), 5002);
    let entry = NodeAndDistance(other.clone(), Distance::new(&other.id, &dst.id));
    let got = p.find_node(dst.clone(), Some(Response::FindNode(vec![entry.clone()]))).unwrap();
    assert_eq!(got.len(), 1);
    assert_eq!(got[0].0, other);
    assert!(p.routing_table().contains(&dst));
    assert!(!p.routing_table().contains(&other));
    assert!(p.find_node(dst.clone(), Some(Response::Ping)).is_none());
    assert!(!p.routing_table().contains(&dst));
    assert!(p.find_node(dst.clone(), None).is_none());
}

#[test]
fn find_value_outcome_hands_result_on() {
    let mut p = peer();
    let dst = Node::new("127.0.0.1".to_string(), 5001);
    let value = Response::FindValue(FindValueResult::Value("v".to_string()));
    assert!(matches!(
        p.find_value(dst.clone(), Some(value)),
        Some(FindValueResult::Value(ref v)) if v == "v"
    ));
    assert!(p.routing_table().contains(&dst));
    let nodes = Response::FindValue(FindValueResult::Nodes(Vec::new()));
    assert!(matches!(
        p.find_value(dst.clone(), Some(nodes)),
        Some(FindValueResult::Nodes(ref l)) if l.is_empty()
    ));
    assert!(p.find_value(dst.clone(), Some(Response::FindNode(Vec::new()))).is_none());
    assert!(!p.routing_table().contains(&dst));
    assert!(p.find_value(dst.clone(), None).is_none());
}

#[test]
fn put_makes_a_store_request_for_each_candidate() {
    let a = Node::new("127.0.0.1".to_string(), 5001);
    let b = Node::new("127.0.0.1".to_string(), 5002);
    let key = Key::new("k".to_string());
    let candidates = vec![
        NodeAndDistance(a.clone(), Distance::new(&a.id, &key)),
        NodeAndDistance(b.clone(), Distance::new(&b.id, &key)),
    ];
    let requests = Protocol::put("k".to_string(), "v".to_string(), candidates);
    assert_eq!(requests.len(), 2);
    assert_eq!(requests[0].0, a);
    assert_eq!(requests[1].0, b);
    for (_, req) in &requests {
        assert!(matches!(req, Request::Store(k, v) if k == "k" && v == "v"));
    }
    assert!(Protocol::put("k".to_string(), "v".to_string(), Vec::new()).is_empty());
}

#[test]
fn get_caches_value_at_nearest_contact_without_it() {
    let a = Node::new("127.0.0.1".to_string(), 5001);
    let b = Node::new("127.0.0.1".to_string(), 5002);
    let key = Key::new("k".to_string());
    let contacts = vec![
        NodeAndDistance(a.clone(), Distance::new(&a.id, &key)),
        NodeAndDistance(b.clone(), Distance::new(&b.id, &key)),
    ];
    let (val, cache) = Protocol::get("k".to_string(), Some("v".to_string()), contacts);
    assert_eq!(val, Some("v".to_string()));
    let (node, req) = cache.unwrap();
    assert_eq!(node, a);
    assert!(matches!(req, Request::Store(ref k, ref v) if k == "k" && v == "v"));
}

#[test]
fn get_caches_nothing_without_value_or_contact() {
    let a = Node::new("127.0.0.1".to_string(), 5001);
    let key = Key::new("k".to_string());
    let contacts = vec![NodeAndDistance(a.clone(), Distance::new(&a.id, &key))];
    let (val, cache) = Protocol::get("k".to_string(), None, contacts);
    assert_eq!(val, None);
    assert!(cache.is_none());
    let (val, cache) = Protocol::get("k".to_string(), Some("v".to_string()), Vec::new());
    assert_eq!(val, Some("v".to_string()));
    assert!(cache.is_none());
}

#[test]
fn full_bucket_probe_through_the_peer() {
    let mut p = peer();
    let owner = p.node().clone();
    let nodes = contacts_in_bucket(&owner, 0, 22);
    for n in &nodes[..21] {
        assert!(p.ping(n.clone(), Some(Response::Ping)));
    }
    let mut probes: Vec<Probe> = p.take_probes();
    assert_eq!(probes.len(), 1);
    assert_eq!(probes[0].head, nodes[0]);
    assert_eq!(probes[0].candidate, nodes[20]);
    assert!(!p.probe_result(probes.remove(0), None));
    let bucket = p.routing_table().bucket(0).unwrap().nodes.clone();
    assert_eq!(bucket[19], nodes[20]);
    assert_eq!(bucket[0], nodes[1]);
    assert!(p.ping(nodes[21].clone(), Some(Response::Ping)));
    let mut probes = p.take_probes();
    assert_eq!(probes[0].head, nodes[1]);
    assert!(p.probe_result(probes.remove(0), Some(Response::Ping)));
    let bucket = p.routing_table().bucket(0).unwrap().nodes.clone();
    assert_eq!(bucket[19], nodes[1]);
    assert_eq!(bucket[0], nodes[2]);
    assert!(!p.routing_table().contains(&nodes[21]));
}
