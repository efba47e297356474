use kademlia_dht::key::Distance;
use kademlia_dht::lookup::Lookup;
use kademlia_dht::node::Node;
use kademlia_dht::routing::{FindValueResult, NodeAndDistance};

/// An entry at the distance whose last byte is `d`, named by it.
fn entry(d: u8) -> NodeAndDistance {
    let mut bytes = [0u8; 32];
    bytes[31] = d;
    NodeAndDistance(Node::new("h".to_string(), d as u16), Distance(bytes))
}

fn ports(entries: &[NodeAndDistance]) -> Vec<u16> {
    entries.iter().map(|e| e.0.port).collect()
}

#[test]
fn lookup_without_seeds_is_done() {
    let mut lookup = Lookup::start(Vec::new());
    assert!(lookup.is_done());
    assert!(lookup.next_queries().is_empty());
    assert!(lookup.finish().is_empty());
}

#[test]
fn next_queries_hands_out_three_nearest_first() {
    let mut lookup = Lookup::start(vec![entry(9), entry(2), entry(7), entry(4), entry(1)]);
    assert!(!lookup.is_done());
    assert_eq!(ports(&lookup.next_queries()), vec![1, 2, 4]);
    lookup.node_replies(vec![None, None, None]);
    assert_eq!(ports(&lookup.next_queries()), vec![7, 9]);
    assert!(lookup.is_done());
    lookup.node_replies(vec![None, None]);
    assert!(lookup.next_queries().is_empty());
    assert!(lookup.finish().is_empty());
}

#[test]
fn seeds_at_one_distance_are_asked_once() {
    let mut lookup = Lookup::start(vec![entry(5), entry(5), entry(3)]);
    assert_eq!(ports(&lookup.next_queries()), vec![3, 5]);
}

#[test]
fn answers_add_new_contacts_only() {
    let mut lookup = Lookup::start(vec![entry(10), entry(20)]);
    assert_eq!(ports(&lookup.next_queries()), vec![10, 20]);
    lookup.node_replies(vec![
        Some(vec![entry(10), entry(5), entry(30)]),
        Some(vec![entry(5), entry(20), entry(1)]),
    ]);
    assert_eq!(ports(&lookup.next_queries()), vec![1, 5, 30]);
    lookup.node_replies(vec![Some(vec![entry(1), entry(30), entry(10)]), None, Some(Vec::new())]);
    assert!(lookup.is_done());
    assert_eq!(ports(&lookup.finish()), vec![1, 10, 20, 30]);
}

#[test]
fn contact_that_failed_is_not_in_the_result() {
    let mut lookup = Lookup::start(vec![entry(1), entry(2), entry(3)]);
    lookup.next_queries();
    lookup.node_replies(vec![Some(Vec::new()), None, Some(vec![entry(2)])]);
    assert!(lookup.is_done());
    assert_eq!(ports(&lookup.finish()), vec![1, 3]);
}

#[test]
fn missing_results_count_as_no_answer() {
    let mut lookup = Lookup::start(vec![entry(1), entry(2), entry(3)]);
    lookup.next_queries();
    lookup.node_replies(vec![Some(Vec::new())]);
    assert_eq!(ports(&lookup.finish()), vec![1]);
}

#[test]
fn surplus_results_are_ignored() {
    let mut lookup = Lookup::start(vec![entry(1)]);
    lookup.next_queries();
    lookup.node_replies(vec![Some(Vec::new()), Some(vec![entry(9)]), None]);
    assert!(lookup.is_done());
    assert_eq!(ports(&lookup.finish()), vec![1]);
}

#[test]
fn answers_without_queries_change_nothing() {
    let mut lookup = Lookup::start(vec![entry(1)]);
    lookup.node_replies(vec![Some(vec![entry(9)])]);
    assert_eq!(ports(&lookup.next_queries()), vec![1]);
    assert!(lookup.is_done());
}

#[test]
fn result_is_sorted_and_truncated_to_k() {
    let seeds: Vec<NodeAndDistance> = (1..=30u8).rev().map(entry).collect();
    let mut lookup = Lookup::start(seeds);
    loop {
        let queries = lookup.next_queries();
        if queries.is_empty() {
            break;
        }
        lookup.node_replies(queries.iter().map(|_| Some(Vec::new())).collect());
    }
    let result = lookup.finish();
    assert_eq!(ports(&result), (1..=20u16).collect::<Vec<u16>>());
}

#[test]
fn lookup_ends_when_peers_name_only_known_contacts() {
    let mut lookup = Lookup::start(vec![entry(1), entry(2)]);
    let mut rounds = 0;
    loop {
        let queries = lookup.next_queries();
        if queries.is_empty() {
            break;
        }
        rounds += 1;
        lookup.node_replies(
            queries.iter().map(|_| Some(vec![entry(1), entry(2), entry(3)])).collect(),
        );
    }
    assert_eq!(rounds, 2);
    assert_eq!(ports(&lookup.finish()), vec![1, 2, 3]);
}

#[test]
fn value_reply_stops_at_first_value() {
    let mut lookup = Lookup::start(vec![entry(1), entry(2), entry(3)]);
    lookup.next_queries();
    let value = lookup.value_replies(vec![
        Some(FindValueResult::Nodes(vec![entry(7)])),
        Some(FindValueResult::Value("v".to_string())),
        Some(FindValueResult::Nodes(vec![entry(8)])),
    ]);
    assert_eq!(value, Some("v".to_string()));
    assert_eq!(ports(&lookup.next_queries()), vec![7]);
    assert_eq!(ports(&lookup.finish()), vec![1]);
}

#[test]
fn value_reply_first_of_two_values_wins() {
    let mut lookup = Lookup::start(vec![entry(1), entry(2)]);
    lookup.next_queries();
    let value = lookup.value_replies(vec![
        Some(FindValueResult::Value("first".to_string())),
        Some(FindValueResult::Value("second".to_string())),
    ]);
    assert_eq!(value, Some("first".to_string()));
    assert!(lookup.finish().is_empty());
}

#[test]
fn value_replies_without_value_learn_contacts() {
    let mut lookup = Lookup::start(vec![entry(4), entry(2)]);
    lookup.next_queries();
    let value = lookup.value_replies(vec![None, Some(FindValueResult::Nodes(vec![entry(1)]))]);
    assert_eq!(value, None);
    assert_eq!(ports(&lookup.next_queries()), vec![1]);
    assert_eq!(lookup.value_replies(vec![Some(FindValueResult::Nodes(Vec::new()))]), None);
    assert!(lookup.is_done());
    assert_eq!(ports(&lookup.finish()), vec![1, 4]);
}
