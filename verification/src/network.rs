//! Messages, and the correlation of requests with their replies.
//!
//! A request leaves with a fresh token and a waiter registered under it.
//! Whatever comes first for a token, the reply or the timeout, takes the
//! waiter out; what comes second finds nothing and is dropped.

use vstd::prelude::*;
use vstd::string::*;
use crate::assoc::{assoc, lemma_assoc_at, lemma_assoc_push, lemma_assoc_remove};
use crate::key::{key_of, Key};
use crate::node::{addr_text, Node};
use crate::routing::{FindValueResult, NodeAndDistance};
use crate::BUF_SIZE;

verus! {

/// What one peer asks of another.
#[derive(Debug)]
pub enum Request {
    Ping,
    Store(String, String),
    FindNode(Key),
    FindValue(String),
}

/// What a peer answers. A pong also acknowledges a store request.
#[derive(Debug)]
pub enum Response {
    Ping,
    FindNode(Vec<NodeAndDistance>),
    FindValue(FindValueResult),
}

/// The content of a message: a request, a response, or the order to stop
/// receiving.
#[derive(Debug)]
pub enum Message {
    Abort,
    Request(Request),
    Response(Response),
}

/// What travels in one datagram.
#[derive(Debug)]
pub struct RpcMessage {
    pub token: Key,
    pub src: String,
    pub dst: String,
    pub msg: Message,
}

/// A request as the handler gets it: with the address it came from.
#[derive(Debug)]
pub struct ReqWrapper {
    pub token: Key,
    pub src: String,
    pub payload: Request,
}

/// What the receive loop does with a message.
pub enum Incoming<W> {
    /// Nothing: the message is for another peer, or answers no request
    /// that still waits.
    Dropped,
    /// Stop receiving.
    Abort,
    /// Hand the request to the handler.
    Request(ReqWrapper),
    /// Deliver the response to the waiter.
    Response(W, Response),
}

/// One peer's end of the transport: who it is, and who waits for which
/// reply.
pub struct Rpc<W> {
    node: Node,
    tokens: Vec<Key>,
    waiters: Vec<W>,
}

/// The text that is hashed to the token of a request from `src` to `dst`
/// made at the time that `now` spells.
pub open spec fn token_text(src: Node, dst: Node, now: Seq<char>) -> Seq<char> {
    src.info_text() + seq![':'] + dst.info_text() + seq![':'] + now
}

/// The token of a request from `src` to `dst` made at `now`.
pub fn request_token(src: &Node, dst: &Node, now: &str) -> (token: Key)
    ensures
        token@ == key_of(token_text(*src, *dst, now@)),
{
    let mut text = src.get_info();
    text.push(':');
    let dst_info = dst.get_info();
    text.append(dst_info.as_str());
    text.push(':');
    text.append(now);
    assert(text@ =~= token_text(*src, *dst, now@));
    Key::new(text)
}

/// The bytes of an encoded message, where they fit in one datagram.
pub fn frame(encoded: &str) -> (r: Option<Vec<u8>>)
    ensures
        match r {
            Some(bytes) => bytes@ == encoded.spec_bytes() && bytes@.len() <= BUF_SIZE,
            None => encoded.spec_bytes().len() > BUF_SIZE,
        },
{
    let bytes = encoded.as_bytes();
    if bytes.len() <= BUF_SIZE {
        Some(encoded.as_bytes_vec())
    } else {
        None
    }
}

/// What becomes of a decoded message at the peer `owner` while the
/// requests in `pending` wait.
pub open spec fn incoming<W>(
    owner: Node,
    pending: Map<Seq<u8>, W>,
    decoded: RpcMessage,
    observed_src: String,
) -> Incoming<W> {
    if decoded.dst@ != addr_text(owner.ip@, owner.port) {
        Incoming::Dropped
    } else {
        match decoded.msg {
            Message::Abort => Incoming::Abort,
            Message::Request(req) => Incoming::Request(
                ReqWrapper { token: decoded.token, src: observed_src, payload: req },
            ),
            Message::Response(res) => if pending.dom().contains(decoded.token@) {
                Incoming::Response(pending[decoded.token@], res)
            } else {
                Incoming::Dropped
            },
        }
    }
}

impl<W> Rpc<W> {
    /// The peer whose endpoint this is.
    pub closed spec fn owner(&self) -> Node {
        self.node
    }

    /// The tokens of the requests that wait, in the order they were made.
    pub closed spec fn tokens(&self) -> Seq<Seq<u8>> {
        Seq::new(self.tokens@.len(), |i: int| self.tokens@[i]@)
    }

    /// The waiter of each request that has neither been answered nor
    /// timed out, by token.
    pub closed spec fn pending(&self) -> Map<Seq<u8>, W> {
        assoc(self.tokens(), self.waiters@)
    }

    /// The endpoint's invariant: no token waits twice.
    pub closed spec fn wf(&self) -> bool {
        &&& self.tokens().no_duplicates()
        &&& self.tokens@.len() == self.waiters@.len()
    }

    /// The endpoint of `node`, with no request waiting.
    pub fn new(node: Node) -> (rpc: Rpc<W>)
        ensures
            rpc.wf(),
            rpc.owner() == node,
            rpc.pending() == Map::<Seq<u8>, W>::empty(),
    {
        let rpc = Rpc { node, tokens: Vec::new(), waiters: Vec::new() };
        rpc
    }

    /// The peer whose endpoint this is.
    pub fn node(&self) -> (node: &Node)
        ensures
            *node == self.owner(),
    {
        &self.node
    }

    /// How many requests wait.
    pub fn outstanding(&self) -> (n: usize)
        requires
            self.wf(),
        ensures
            n == self.pending().dom().len(),
            self.pending().dom().finite(),
    {
        proof {
            self.lemma_domain();
        }
        self.tokens.len()
    }

    /// The tokens that wait are those of the map, each once.
    proof fn lemma_domain(&self)
        requires
            self.wf(),
        ensures
            self.pending().dom().finite(),
            self.pending().dom().len() == self.tokens().len(),
    {
        let keys = self.tokens();
        keys.unique_seq_to_set();
    }

    /// Where `token` waits.
    fn find(&self, token: &Key) -> (r: Option<usize>)
        requires
            self.wf(),
        ensures
            match r {
                Some(i) => i < self.tokens().len() && self.tokens()[i as int] == token@,
                None => !self.tokens().contains(token@),
            },
    {
        let mut i: usize = 0;
        while i < self.tokens.len()
            invariant
                i <= self.tokens@.len(),
                forall|j: int| 0 <= j < i ==> self.tokens()[j] != token@,
            decreases self.tokens@.len() - i,
        {
            if self.tokens[i] == *token {
                return Some(i);
            }
            i += 1;
        }
        None
    }

    /// Takes the waiter of `token` out, if one waits.
    fn take(&mut self, token: &Key) -> (r: Option<W>)
        requires
            old(self).wf(),
        ensures
            final(self).wf(),
            final(self).owner() == old(self).owner(),
            final(self).pending() == old(self).pending().remove(token@),
            r == if old(self).pending().dom().contains(token@) {
                Some(old(self).pending()[token@])
            } else {
                None
            },
    {
        match self.find(token) {
            Some(i) => {
                proof {
                    lemma_assoc_at(self.tokens(), self.waiters@, i as int);
                    lemma_assoc_remove(self.tokens(), self.waiters@, i as int);
                }
                self.tokens.remove(i);
                let waiter = self.waiters.remove(i);
                assert(self.tokens() =~= old(self).tokens().remove(i as int));
                Some(waiter)
            },
            None => None,
        }
    }

    /// Takes a response in: hands back the waiter it is for, with the
    /// response, and forgets the request. `None` where no request waits
    /// under `token`: the response is unsolicited, or comes after the
    /// timeout.
    pub fn handle_response(&mut self, token: &Key, res: Response) -> (r: Option<(W, Response)>)
        requires
            old(self).wf(),
        ensures
            final(self).wf(),
            final(self).owner() == old(self).owner(),
            final(self).pending() == old(self).pending().remove(token@),
            r == if old(self).pending().dom().contains(token@) {
                Some((old(self).pending()[token@], res))
            } else {
                None
            },
    {
        match self.take(token) {
            Some(waiter) => Some((waiter, res)),
            None => None,
        }
    }

    /// Lets a request time out: hands back the waiter that is to learn of
    /// it, and forgets the request. `None` where the response came first.
    pub fn timeout(&mut self, token: &Key) -> (r: Option<W>)
        requires
            old(self).wf(),
        ensures
            final(self).wf(),
            final(self).owner() == old(self).owner(),
            final(self).pending() == old(self).pending().remove(token@),
            r == if old(self).pending().dom().contains(token@) {
                Some(old(self).pending()[token@])
            } else {
                None
            },
    {
        self.take(token)
    }

    /// Decides what becomes of a decoded message that came from the
    /// address `observed_src`. The address it claims to come from is not
    /// believed. A message for another address is dropped; a response
    /// goes to the waiter of its token, if one still waits.
    pub fn receive(&mut self, decoded: RpcMessage, observed_src: String) -> (r: Incoming<W>)
        requires
            old(self).wf(),
        ensures
            final(self).wf(),
            final(self).owner() == old(self).owner(),
            r == incoming(old(self).owner(), old(self).pending(), decoded, observed_src),
            final(self).pending() == match r {
                Incoming::Response(_, _) => old(self).pending().remove(decoded.token@),
                _ => old(self).pending(),
            },
    {
        let addr = self.node.get_addr();
        if decoded.dst != addr {
            return Incoming::Dropped;
        }
        match decoded.msg {
            Message::Abort => Incoming::Abort,
            Message::Request(req) => Incoming::Request(
                ReqWrapper { token: decoded.token, src: observed_src, payload: req },
            ),
            Message::Response(res) => match self.handle_response(&decoded.token, res) {
                Some((waiter, res)) => Incoming::Response(waiter, res),
                None => Incoming::Dropped,
            },
        }
    }

    /// Starts a request to `dst`: makes its token from the two peers and
    /// the time `now`, registers `waiter` under it, and returns the message
    /// to transmit. A request that waited under the same token is forgotten.
    pub fn make_request(&mut self, req: Request, dst: &Node, now: &str, waiter: W) -> (msg:
        RpcMessage)
        requires
            old(self).wf(),
        ensures
            final(self).wf(),
            final(self).owner() == old(self).owner(),
            msg.token@ == key_of(token_text(old(self).owner(), *dst, now@)),
            msg.src@ == addr_text(old(self).owner().ip@, old(self).owner().port),
            msg.dst@ == addr_text(dst.ip@, dst.port),
            msg.msg == Message::Request(req),
            final(self).pending() == old(self).pending().insert(msg.token@, waiter),
    {
        let token = request_token(&self.node, dst, now);
        let _ = self.take(&token);
        let ghost rest = self.tokens();
        proof {
            assert(!self.pending().dom().contains(token@));
            lemma_assoc_push(rest, self.waiters@, token@, waiter);
        }
        self.tokens.push(token.clone());
        self.waiters.push(waiter);
        assert(self.tokens() =~= rest.push(token@));
        RpcMessage {
            token,
            src: self.node.get_addr(),
            dst: dst.get_addr(),
            msg: Message::Request(req),
        }
    }
}

/// A request is delivered to at most once: after the response or the
/// timeout has taken its waiter out, neither finds it again.
pub proof fn lemma_single_delivery<W>(pending: Map<Seq<u8>, W>, token: Seq<u8>)
    ensures
        !pending.remove(token).dom().contains(token),
        pending.remove(token).remove(token) == pending.remove(token),
        forall|other: Seq<u8>|
            other != token ==> (pending.remove(token).dom().contains(other)
                <==> pending.dom().contains(other)),
{
}

/// Under one token one request waits: a second request under it takes
/// the place of the first.
pub proof fn lemma_one_entry_per_token<W>(pending: Map<Seq<u8>, W>, token: Seq<u8>, a: W, b: W)
    ensures
        pending.insert(token, a).insert(token, b) == pending.insert(token, b),
        pending.insert(token, b).remove(token) == pending.remove(token),
{
}

} // verus!
