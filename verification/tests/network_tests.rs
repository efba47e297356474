use kademlia_dht::key::Key;
use kademlia_dht::network::{
    frame, request_token, Incoming, Message, Request, Response, Rpc, RpcMessage,
};
use kademlia_dht::node::Node;

fn alice() -> Node {
    Node::new("127.0.0.1".to_string(), 5000)
}

fn bob() -> Node {
    Node::new("127.0.0.1".to_string(), 5001)
}

#[test]
fn token_is_hash_of_both_peers_and_time() {
    let token = request_token(&alice(), &bob(), "now");
    let text = format!("{}:{}:now", alice().get_info(), bob().get_info());
    assert_eq!(token, Key::new(text));
    assert_ne!(token, request_token(&alice(), &bob(), "later"));
    assert_ne!(token, request_token(&bob(), &alice(), "now"));
}

#[test]
fn frame_takes_up_to_one_datagram() {
    assert_eq!(frame("{}"), Some(b"{}".to_vec()));
    assert_eq!(frame(""), Some(Vec::new()));
    let full = "x".repeat(8192);
    assert_eq!(frame(&full).map(|b| b.len()), Some(8192));
    let over = "x".repeat(8193);
    assert_eq!(frame(&over), None);
    let wide = "é".repeat(4097);
    assert_eq!(frame(&wide), None);
    let wide = "é".repeat(4096);
    assert_eq!(frame(&wide).map(|b| b.len()), Some(8192));
}

#[test]
fn new_endpoint_waits_for_nothing() {
    let rpc: Rpc<u32> = Rpc::new(alice());
    assert_eq!(rpc.node(), &alice());
    assert_eq!(rpc.outstanding(), 0);
}

#[test]
fn make_request_builds_message_and_registers_waiter() {
    let mut rpc: Rpc<u32> = Rpc::new(alice());
    let msg = rpc.make_request(Request::FindValue("k".to_string()), &bob(), "t0", 7);
    assert_eq!(msg.token, request_token(&alice(), &bob(), "t0"));
    assert_eq!(msg.src, "127.0.0.1:5000");
    assert_eq!(msg.dst, "127.0.0.1:5001");
    assert!(matches!(msg.msg, Message::Request(Request::FindValue(ref k)) if k == "k"));
    assert_eq!(rpc.outstanding(), 1);
}

#[test]
fn response_is_delivered_once() {
    let mut rpc: Rpc<u32> = Rpc::new(alice());
    let msg = rpc.make_request(Request::Ping, &bob(), "t0", 7);
    let first = rpc.handle_response(&msg.token, Response::Ping);
    assert!(matches!(first, Some((7, Response::Ping))));
    assert_eq!(rpc.outstanding(), 0);
    assert!(rpc.handle_response(&msg.token, Response::Ping).is_none());
    assert_eq!(rpc.timeout(&msg.token), None);
}

#[test]
fn timeout_wins_over_late_response() {
    let mut rpc: Rpc<u32> = Rpc::new(alice());
    let msg = rpc.make_request(Request::Ping, &bob(), "t0", 7);
    assert_eq!(rpc.timeout(&msg.token), Some(7));
    assert!(rpc.handle_response(&msg.token, Response::Ping).is_none());
    assert_eq!(rpc.timeout(&msg.token), None);
    assert_eq!(rpc.outstanding(), 0);
}

#[test]
fn unsolicited_response_is_ignored() {
    let mut rpc: Rpc<u32> = Rpc::new(alice());
    let _ = rpc.make_request(Request::Ping, &bob(), "t0", 7);
    let stranger = Key::new("stranger".to_string());
    assert!(rpc.handle_response(&stranger, Response::Ping).is_none());
    assert_eq!(rpc.outstanding(), 1);
}

#[test]
fn requests_wait_under_their_own_tokens() {
    let mut rpc: Rpc<u32> = Rpc::new(alice());
    let a = rpc.make_request(Request::Ping, &bob(), "t0", 1);
    let b = rpc.make_request(Request::Ping, &bob(), "t1", 2);
    let c = rpc.make_request(Request::Ping, &alice(), "t0", 3);
    assert_eq!(rpc.outstanding(), 3);
    assert_eq!(rpc.timeout(&b.token), Some(2));
    assert_eq!(rpc.timeout(&a.token), Some(1));
    assert_eq!(rpc.timeout(&c.token), Some(3));
}

#[test]
fn same_token_keeps_one_entry() {
    let mut rpc: Rpc<u32> = Rpc::new(alice());
    let a = rpc.make_request(Request::Ping, &bob(), "t0", 1);
    let b = rpc.make_request(Request::Ping, &bob(), "t0", 2);
    assert_eq!(a.token, b.token);
    assert_eq!(rpc.outstanding(), 1);
    assert_eq!(rpc.timeout(&a.token), Some(2));
    assert_eq!(rpc.timeout(&a.token), None);
}

fn message(token: Key, dst: &str, msg: Message) -> RpcMessage {
    RpcMessage { token, src: "1.2.3.4:9".to_string(), dst: dst.to_string(), msg }
}

#[test]
fn receive_drops_message_for_another_peer() {
    let mut rpc: Rpc<u32> = Rpc::new(alice());
    let sent = rpc.make_request(Request::Ping, &bob(), "t0", 7);
    let msg = message(sent.token.clone(), "127.0.0.1:5001", Message::Response(Response::Ping));
    assert!(matches!(rpc.receive(msg, "127.0.0.1:5001".to_string()), Incoming::Dropped));
    assert_eq!(rpc.outstanding(), 1);
    let msg = message(sent.token, "127.0.0.1:5001", Message::Abort);
    assert!(matches!(rpc.receive(msg, "127.0.0.1:5001".to_string()), Incoming::Dropped));
}

#[test]
fn receive_aborts() {
    let mut rpc: Rpc<u32> = Rpc::new(alice());
    let msg = message(Key([0; 32]), "127.0.0.1:5000", Message::Abort);
    assert!(matches!(rpc.receive(msg, "127.0.0.1:5001".to_string()), Incoming::Abort));
}

#[test]
fn receive_hands_request_over_with_observed_source() {
    let mut rpc: Rpc<u32> = Rpc::new(alice());
    let token = Key::new("t".to_string());
    let msg = message(
        token.clone(),
        "127.0.0.1:5000",
        Message::Request(Request::Store("k".to_string(), "v".to_string())),
    );
    match rpc.receive(msg, "127.0.0.1:5001".to_string()) {
        Incoming::Request(req) => {
            assert_eq!(req.token, token);
            assert_eq!(req.src, "127.0.0.1:5001");
            assert!(
                matches!(req.payload, Request::Store(ref k, ref v) if k == "k" && v == "v")
            );
        }
        _ => panic!("the request was not handed over"),
    }
}

#[test]
fn receive_delivers_response_to_its_waiter_once() {
    let mut rpc: Rpc<u32> = Rpc::new(alice());
    let sent = rpc.make_request(Request::Ping, &bob(), "t0", 7);
    let msg = message(sent.token.clone(), "127.0.0.1:5000", Message::Response(Response::Ping));
    assert!(matches!(
        rpc.receive(msg, "127.0.0.1:5001".to_string()),
        Incoming::Response(7, Response::Ping)
    ));
    let msg = message(sent.token, "127.0.0.1:5000", Message::Response(Response::Ping));
    assert!(matches!(rpc.receive(msg, "127.0.0.1:5001".to_string()), Incoming::Dropped));
}

#[test]
fn receive_drops_unsolicited_response() {
    let mut rpc: Rpc<u32> = Rpc::new(alice());
    let msg = message(Key([9; 32]), "127.0.0.1:5000", Message::Response(Response::Ping));
    assert!(matches!(rpc.receive(msg, "127.0.0.1:5001".to_string()), Incoming::Dropped));
}
