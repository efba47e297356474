//! What a peer does with the requests it receives and with the replies to
//! the requests it made.

use vstd::prelude::*;
use crate::key::{key_of, Key};
use crate::lookup::{distance_set, lemma_learn_fresh, Lookup};
use crate::network::{Message, ReqWrapper, Request, Response, RpcMessage};
use crate::node::{addr_text, parse_addr, Node};
use crate::routing::{
    buckets_after_probe, buckets_after_remove, buckets_after_update, gathered, is_closest,
    probes_after_update, FindValueResult, NodeAndDistance, Probe, RoutingTable,
};
use crate::store::Store;
use crate::K_PARAM;

verus! {

/// One peer: its contacts and the values it holds.
#[derive(Debug)]
pub struct Protocol {
    routes: RoutingTable,
    store: Store,
    node: Node,
}

/// Whether `res` is the response that a peer owes to `payload` when its
/// table is `routes` and it holds `values`: a pong for a ping or a store,
/// the K contacts nearest the key for a node search, and for a value
/// search the value, where the peer holds it, or else the K contacts
/// nearest the hash of its key.
pub open spec fn response_for(
    routes: RoutingTable,
    values: Map<Seq<char>, Seq<char>>,
    payload: Request,
    res: Response,
) -> bool {
    match payload {
        Request::Ping => res == Response::Ping,
        Request::Store(_, _) => res == Response::Ping,
        Request::FindNode(id) => res matches Response::FindNode(list) && is_closest(
            list@,
            gathered(routes.buckets(), routes.index_of(id@), K_PARAM as nat),
            id@,
            K_PARAM as nat,
        ),
        Request::FindValue(k) => if values.dom().contains(k@) {
            res matches Response::FindValue(FindValueResult::Value(v)) && v@ == values[k@]
        } else {
            res matches Response::FindValue(FindValueResult::Nodes(list)) && is_closest(
                list@,
                gathered(routes.buckets(), routes.index_of(key_of(k@)), K_PARAM as nat),
                key_of(k@),
                K_PARAM as nat,
            )
        },
    }
}

/// The values that a peer holds after it has handled `payload`.
pub open spec fn values_after(values: Map<Seq<char>, Seq<char>>, payload: Request) -> Map<
    Seq<char>,
    Seq<char>,
> {
    match payload {
        Request::Store(k, v) => values.insert(k@, v@),
        _ => values,
    }
}

/// Whether `after` and `res` are the state of a peer and its response
/// once it has handled `payload` for the contact `src` in state `before`.
pub open spec fn handled(
    before: Protocol,
    after: Protocol,
    src: Node,
    payload: Request,
    res: Response,
) -> bool {
    &&& after.routes().buckets() == buckets_after_update(
        before.owner().id@,
        before.routes().buckets(),
        src,
    )
    &&& after.routes().probes() == probes_after_update(
        before.owner().id@,
        before.routes().buckets(),
        before.routes().probes(),
        src,
    )
    &&& after.values() == values_after(before.values(), payload)
    &&& response_for(after.routes(), before.values(), payload, res)
}

/// The buckets of the table of `owner` once a request to `dst` is over:
/// a contact that answered is seen, one that did not is dropped.
pub open spec fn buckets_after_reply(
    owner: Seq<u8>,
    buckets: Seq<Seq<Node>>,
    dst: Node,
    answered: bool,
) -> Seq<Seq<Node>> {
    if answered {
        buckets_after_update(owner, buckets, dst)
    } else {
        buckets_after_remove(owner, buckets, dst.id@)
    }
}

/// The probes asked for once a request to `dst` is over.
pub open spec fn probes_after_reply(
    owner: Seq<u8>,
    buckets: Seq<Seq<Node>>,
    probes: Seq<Probe>,
    dst: Node,
    answered: bool,
) -> Seq<Probe> {
    if answered {
        probes_after_update(owner, buckets, probes, dst)
    } else {
        probes
    }
}

/// Whether one state of a peer follows from another by the end of a
/// request to `dst`, which was answered as expected or not.
pub open spec fn settled(before: Protocol, after: Protocol, dst: Node, answered: bool) -> bool {
    &&& after.wf()
    &&& after.owner() == before.owner()
    &&& after.values() == before.values()
    &&& after.routes().buckets() == buckets_after_reply(
        before.owner().id@,
        before.routes().buckets(),
        dst,
        answered,
    )
    &&& after.routes().probes() == probes_after_reply(
        before.owner().id@,
        before.routes().buckets(),
        before.routes().probes(),
        dst,
        answered,
    )
}

impl Protocol {
    /// The peer's contacts.
    pub closed spec fn routes(&self) -> RoutingTable {
        self.routes
    }

    /// The values the peer holds.
    pub closed spec fn values(&self) -> Map<Seq<char>, Seq<char>> {
        self.store@
    }

    /// The peer itself.
    pub closed spec fn owner(&self) -> Node {
        self.node
    }

    /// The peer's invariant: its table is well formed and its own.
    pub closed spec fn wf(&self) -> bool {
        &&& self.routes.wf()
        &&& self.store.wf()
        &&& self.routes.owner() == self.node
    }

    /// What `wf` promises of the table.
    pub proof fn lemma_wf(&self)
        requires
            self.wf(),
        ensures
            self.routes().wf(),
            self.routes().owner() == self.owner(),
    {
    }

    /// A peer at `ip:port` that knows itself and, where one is given, the
    /// bootstrap contact, and holds no value.
    pub fn new(ip: String, port: u16, bootstrap: Option<Node>) -> (protocol: Protocol)
        ensures
            protocol.wf(),
            protocol.owner().ip == ip,
            protocol.owner().port == port,
            protocol.owner().derived(),
            protocol.values() == Map::<Seq<char>, Seq<char>>::empty(),
            protocol.routes().probes() == Seq::<Probe>::empty(),
            ({
                let node = protocol.owner();
                let empty = Seq::new(crate::N_BUCKETS as nat, |i: int| Seq::<Node>::empty());
                let first = buckets_after_update(node.id@, empty, node);
                match bootstrap {
                    Some(b) => protocol.routes().buckets() == buckets_after_update(
                        node.id@,
                        first,
                        b,
                    ),
                    None => protocol.routes().buckets() == first,
                }
            }),
    {
        let node = Node::new(ip, port);
        let routes = RoutingTable::new(node.clone(), bootstrap);
        Protocol { routes, store: Store::new(), node }
    }

    /// The peer itself.
    pub fn node(&self) -> (node: &Node)
        ensures
            *node == self.owner(),
    {
        &self.node
    }

    /// The peer's contacts, to read.
    pub fn routing_table(&self) -> (routes: &RoutingTable)
        ensures
            *routes == self.routes(),
    {
        &self.routes
    }

    /// The value that the peer holds under `key`.
    pub fn lookup_local(&self, key: &String) -> (r: Option<&String>)
        requires
            self.wf(),
        ensures
            match r {
                Some(value) => self.values().dom().contains(key@) && value@ == self.values()[key@],
                None => !self.values().dom().contains(key@),
            },
    {
        self.store.get(key)
    }

    /// Handles a request of the contact `src`: sees the contact, then
    /// does what the request asks and makes the response.
    pub fn handle(&mut self, src: Node, req: ReqWrapper) -> (r: (Response, ReqWrapper))
        requires
            old(self).wf(),
        ensures
            final(self).wf(),
            final(self).owner() == old(self).owner(),
            r.1 == req,
            handled(*old(self), *final(self), src, req.payload, r.0),
    {
        self.routes.update(src);
        match req.payload {
            Request::Ping => (Response::Ping, req),
            Request::Store(ref k, ref v) => {
                self.store.insert(k.clone(), v.clone());
                (Response::Ping, req)
            },
            Request::FindNode(ref id) => {
                let result = self.routes.get_closest_nodes(id, K_PARAM);
                (Response::FindNode(result), req)
            },
            Request::FindValue(ref k) => {
                match self.store.get(k) {
                    Some(v) => (Response::FindValue(FindValueResult::Value(v.clone())), req),
                    None => {
                        let key = Key::new(k.clone());
                        (
                            Response::FindValue(
                                FindValueResult::Nodes(
                                    self.routes.get_closest_nodes(&key, K_PARAM),
                                ),
                            ),
                            req,
                        )
                    },
                }
            },
        }
    }
}

/// A peer that has handled a store request answers a later search for
/// the key with the value stored, until another store request writes
/// over it.
pub proof fn lemma_stored_value_is_found(
    before: Protocol,
    stored: Protocol,
    after: Protocol,
    writer: Node,
    reader: Node,
    k: String,
    v: String,
    ack: Response,
    res: Response,
)
    requires
        handled(before, stored, writer, Request::Store(k, v), ack),
        handled(stored, after, reader, Request::FindValue(k), res),
    ensures
        ack == Response::Ping,
        res matches Response::FindValue(FindValueResult::Value(found)) && found@ == v@,
        after.values() == stored.values(),
{
}

/// A peer that holds no value under a key answers a search for it with
/// contacts, and never with a value.
pub proof fn lemma_absent_value_gives_contacts(
    before: Protocol,
    after: Protocol,
    reader: Node,
    k: String,
    res: Response,
)
    requires
        !before.values().dom().contains(k@),
        handled(before, after, reader, Request::FindValue(k), res),
    ensures
        res matches Response::FindValue(FindValueResult::Nodes(_)),
{
}

/// Storing the same value under a key twice leaves what storing it once
/// leaves.
pub proof fn lemma_store_twice(values: Map<Seq<char>, Seq<char>>, k: String, v: String)
    ensures
        values_after(values_after(values, Request::Store(k, v)), Request::Store(k, v))
            == values_after(values, Request::Store(k, v)),
{
}

impl Protocol {
    /// Sees or drops `dst`, by whether it answered.
    fn settle(&mut self, dst: Node, answered: bool)
        requires
            old(self).wf(),
        ensures
            settled(*old(self), *final(self), dst, answered),
    {
        if answered {
            self.routes.update(dst);
        } else {
            self.routes.remove(&dst);
        }
    }

    /// Handles a request as it came from the transport. A request whose
    /// source is no address is dropped: nothing changes and there is no
    /// response. Any other is handled as a request of the contact at that
    /// address.
    pub fn craft_res(&mut self, req: ReqWrapper) -> (r: Option<(Response, ReqWrapper)>)
        requires
            old(self).wf(),
        ensures
            final(self).wf(),
            final(self).owner() == old(self).owner(),
            match parse_addr(req.src@) {
                None => r is None && final(self).routes().buckets() == old(self).routes().buckets()
                    && final(self).routes().probes() == old(self).routes().probes()
                    && final(self).values() == old(self).values(),
                Some((ip, port)) => r matches Some(pair) && pair.1 == req && exists|src: Node|
                    {
                        &&& src.ip@ == ip
                        &&& src.port == port
                        &&& src.derived()
                        &&& #[trigger] handled(*old(self), *final(self), src, req.payload, pair.0)
                    },
            },
    {
        match Node::from_addr(req.src.as_str()) {
            Some(src) => {
                let r = self.handle(src, req);
                Some(r)
            },
            None => None,
        }
    }

    /// The message that carries a response back to where its request came
    /// from, under the request's token.
    pub fn reply(&self, packet_details: (Response, ReqWrapper)) -> (msg: RpcMessage)
        ensures
            msg.token == packet_details.1.token,
            msg.src@ == addr_text(self.owner().ip@, self.owner().port),
            msg.dst == packet_details.1.src,
            msg.msg == Message::Response(packet_details.0),
    {
        RpcMessage {
            token: packet_details.1.token,
            src: self.node.get_addr(),
            dst: packet_details.1.src,
            msg: Message::Response(packet_details.0),
        }
    }

    /// Ends a ping of `dst`. `reply` is what came back: a response, or
    /// `None` for a timeout. Only a pong counts as an answer.
    pub fn ping(&mut self, dst: Node, reply: Option<Response>) -> (ok: bool)
        requires
            old(self).wf(),
        ensures
            ok == (reply == Some(Response::Ping)),
            settled(*old(self), *final(self), dst, ok),
    {
        let ok = match reply {
            Some(Response::Ping) => true,
            _ => false,
        };
        self.settle(dst, ok);
        ok
    }

    /// Ends a store request to `dst`, which a pong acknowledges.
    pub fn store(&mut self, dst: Node, reply: Option<Response>) -> (ok: bool)
        requires
            old(self).wf(),
        ensures
            ok == (reply == Some(Response::Ping)),
            settled(*old(self), *final(self), dst, ok),
    {
        let ok = match reply {
            Some(Response::Ping) => true,
            _ => false,
        };
        self.settle(dst, ok);
        ok
    }

    /// Ends a node search at `dst`: the contacts it named, where it
    /// answered with contacts.
    pub fn find_node(&mut self, dst: Node, reply: Option<Response>) -> (r: Option<
        Vec<NodeAndDistance>,
    >)
        requires
            old(self).wf(),
        ensures
            match reply {
                Some(Response::FindNode(entries)) => r == Some(entries),
                _ => r is None,
            },
            settled(*old(self), *final(self), dst, r is Some),
    {
        match reply {
            Some(Response::FindNode(entries)) => {
                self.settle(dst, true);
                Some(entries)
            },
            _ => {
                self.settle(dst, false);
                None
            },
        }
    }

    /// Ends a value search at `dst`: the value or the contacts it named,
    /// where it answered with either.
    pub fn find_value(&mut self, dst: Node, reply: Option<Response>) -> (r: Option<
        FindValueResult,
    >)
        requires
            old(self).wf(),
        ensures
            match reply {
                Some(Response::FindValue(val)) => r == Some(val),
                _ => r is None,
            },
            settled(*old(self), *final(self), dst, r is Some),
    {
        match reply {
            Some(Response::FindValue(val)) => {
                self.settle(dst, true);
                Some(val)
            },
            _ => {
                self.settle(dst, false);
                None
            },
        }
    }

    /// Starts a search for the contacts nearest to `id`, from the K
    /// nearest that the peer knows.
    pub fn nodes_lookup(&self, id: &Key) -> (lookup: Lookup)
        requires
            self.wf(),
        ensures
            lookup.wf(),
            lookup@.in_flight == Seq::<NodeAndDistance>::empty(),
            lookup@.found == Seq::<NodeAndDistance>::empty(),
            lookup@.seen == distance_set(lookup@.waiting),
            is_closest(
                lookup@.waiting,
                gathered(self.routes().buckets(), self.routes().index_of(id@), K_PARAM as nat),
                id@,
                K_PARAM as nat,
            ),
    {
        let seeds = self.routes.get_closest_nodes(id, K_PARAM);
        proof {
            lemma_learn_fresh(seeds@);
        }
        Lookup::start(seeds)
    }

    /// Starts a search for the value under `k`, from the K contacts
    /// nearest to the hash of `k` that the peer knows.
    pub fn value_lookup(&self, k: String) -> (lookup: Lookup)
        requires
            self.wf(),
        ensures
            lookup.wf(),
            lookup@.in_flight == Seq::<NodeAndDistance>::empty(),
            lookup@.found == Seq::<NodeAndDistance>::empty(),
            lookup@.seen == distance_set(lookup@.waiting),
            is_closest(
                lookup@.waiting,
                gathered(
                    self.routes().buckets(),
                    self.routes().index_of(key_of(k@)),
                    K_PARAM as nat,
                ),
                key_of(k@),
                K_PARAM as nat,
            ),
    {
        let key = Key::new(k);
        self.nodes_lookup(&key)
    }

    /// The requests that publish `v` under `k`: a store request to each
    /// of the candidates, which a node search for the hash of `k` has
    /// found.
    pub fn put(k: String, v: String, candidates: Vec<NodeAndDistance>) -> (requests: Vec<
        (Node, Request),
    >)
        ensures
            requests@.len() == candidates@.len(),
            forall|i: int|
                0 <= i < requests@.len() ==> (#[trigger] requests@[i]).0 == candidates@[i].0
                    && requests@[i].1 == Request::Store(k, v),
    {
        let mut requests: Vec<(Node, Request)> = Vec::new();
        let mut i: usize = 0;
        while i < candidates.len()
            invariant
                i <= candidates@.len(),
                requests@.len() == i,
                forall|j: int|
                    0 <= j < i ==> (#[trigger] requests@[j]).0 == candidates@[j].0
                        && requests@[j].1 == Request::Store(k, v),
            decreases candidates@.len() - i,
        {
            requests.push((candidates[i].0.clone(), Request::Store(k.clone(), v.clone())));
            i += 1;
        }
        requests
    }

    /// Ends a value search for `k` that gave `val` and `contacts`, the
    /// contacts that answered without the value, the nearest first. A
    /// value that was found is returned, and is to be stored at the
    /// nearest of those contacts, if there is one.
    pub fn get(k: String, val: Option<String>, contacts: Vec<NodeAndDistance>) -> (r: (
        Option<String>,
        Option<(Node, Request)>,
    ))
        ensures
            r.0 == val,
            match val {
                Some(v) if contacts@.len() > 0 => r.1 == Some(
                    (contacts@[0].0, Request::Store(k, v)),
                ),
                _ => r.1 is None,
            },
    {
        let cache = match &val {
            Some(v) => if contacts.len() > 0 {
                Some((contacts[0].0.clone(), Request::Store(k, v.clone())))
            } else {
                None
            },
            None => None,
        };
        (val, cache)
    }

    /// Hands over the probes that the table has asked for.
    pub fn take_probes(&mut self) -> (probes: Vec<Probe>)
        requires
            old(self).wf(),
        ensures
            final(self).wf(),
            final(self).owner() == old(self).owner(),
            final(self).values() == old(self).values(),
            probes@ == old(self).routes().probes(),
            final(self).routes().probes() == Seq::<Probe>::empty(),
            final(self).routes().buckets() == old(self).routes().buckets(),
    {
        self.routes.take_probes()
    }

    /// Ends a probe. `reply` is what came back from the head of the
    /// bucket. A head that answered with a pong stays and the candidate
    /// is dropped; else the head leaves and the candidate is seen.
    pub fn probe_result(&mut self, probe: Probe, reply: Option<Response>) -> (alive: bool)
        requires
            old(self).wf(),
        ensures
            final(self).wf(),
            final(self).owner() == old(self).owner(),
            final(self).values() == old(self).values(),
            alive == (reply == Some(Response::Ping)),
            final(self).routes().buckets() == buckets_after_probe(
                old(self).owner().id@,
                old(self).routes().buckets(),
                probe,
                alive,
            ),
    {
        let alive = match reply {
            Some(Response::Ping) => true,
            _ => false,
        };
        self.routes.probe_result(probe, alive);
        alive
    }
}

} // verus!
