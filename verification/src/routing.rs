//! The routing table: 256 k-buckets of contacts, ordered from least to
//! most recently seen, and the search for the contacts nearest a key.

use vstd::multiset::Multiset;
use vstd::prelude::*;
use vstd::std_specs::cmp::PartialEqSpecImpl;
use vstd::arithmetic::power2::pow2;
use crate::key::{
    be_value, bucket_of, lemma_bucket_bounds, lemma_first_set_bit, lemma_same_distance_same_key, lemma_value_injective,
    xor_bytes, Distance, Key,
};
use crate::node::Node;
use crate::{K_PARAM, N_BUCKETS};

verus! {

/// A contact with its distance to the key that a search is for.
#[derive(Debug)]
pub struct NodeAndDistance(pub Node, pub Distance);

/// The answer to a value search: the value, or the contacts nearest its
/// key that the peer asked knows.
#[derive(Debug)]
pub enum FindValueResult {
    Nodes(Vec<NodeAndDistance>),
    Value(String),
}

/// Up to `size` contacts, the least recently seen first.
#[derive(Debug)]
pub struct KBucket {
    pub nodes: Vec<Node>,
    pub size: usize,
}

/// A liveness check that the table asks for before it decides between the
/// oldest contact of a full bucket and a newcomer.
#[derive(Debug)]
pub struct Probe {
    /// The oldest contact of the bucket: the one to ping.
    pub head: Node,
    /// The contact that takes its place if the ping goes unanswered.
    pub candidate: Node,
}

/// The contacts that one peer knows, by bucket.
#[derive(Debug)]
pub struct RoutingTable {
    node: Node,
    kbuckets: Vec<KBucket>,
    probes: Vec<Probe>,
}

impl Clone for NodeAndDistance {
    fn clone(&self) -> (r: NodeAndDistance)
        ensures
            r == *self,
    {
        NodeAndDistance(self.0.clone(), self.1)
    }
}

/// Two entries are equal when their distances are.
impl PartialEq for NodeAndDistance {
    fn eq(&self, other: &NodeAndDistance) -> (r: bool) {
        self.1 == other.1
    }
}

impl PartialEqSpecImpl for NodeAndDistance {
    open spec fn obeys_eq_spec() -> bool {
        true
    }

    open spec fn eq_spec(&self, other: &NodeAndDistance) -> bool {
        self.1@ == other.1@
    }
}

impl Eq for NodeAndDistance {

}

/// The position of the first contact with key `id` at or after `from`, and
/// the length of the sequence where there is none.
pub open spec fn id_position(nodes: Seq<Node>, id: Seq<u8>, from: int) -> int
    decreases nodes.len() - from,
{
    if from >= nodes.len() {
        nodes.len() as int
    } else if nodes[from].id@ == id {
        from
    } else {
        id_position(nodes, id, from + 1)
    }
}

/// Whether a contact with key `id` is among `nodes`.
pub open spec fn has_id(nodes: Seq<Node>, id: Seq<u8>) -> bool {
    id_position(nodes, id, 0) < nodes.len()
}

/// No two contacts share a key.
pub open spec fn distinct_ids(nodes: Seq<Node>) -> bool {
    forall|i: int, j: int| 0 <= i < j < nodes.len() ==> nodes[i].id@ != nodes[j].id@
}

/// `nodes` without the first contact that has key `id`.
pub open spec fn without_id(nodes: Seq<Node>, id: Seq<u8>) -> Seq<Node> {
    if has_id(nodes, id) {
        nodes.remove(id_position(nodes, id, 0))
    } else {
        nodes
    }
}

/// Whether `node` meets a full bucket that does not hold it: the one case
/// in which a bucket stays as it is and its oldest contact is probed.
pub open spec fn probe_needed(nodes: Seq<Node>, node: Node) -> bool {
    !has_id(nodes, node.id@) && nodes.len() >= K_PARAM
}

/// A bucket after it has seen `node`: a contact already in it moves to the
/// tail, a new one is appended while there is room, and a full bucket
/// stays as it is.
pub open spec fn bucket_after_update(nodes: Seq<Node>, node: Node) -> Seq<Node> {
    if has_id(nodes, node.id@) {
        without_id(nodes, node.id@).push(node)
    } else if nodes.len() < K_PARAM {
        nodes.push(node)
    } else {
        nodes
    }
}

/// The buckets of the table of `owner` after it has seen `node`.
pub open spec fn buckets_after_update(owner: Seq<u8>, buckets: Seq<Seq<Node>>, node: Node) -> Seq<
    Seq<Node>,
> {
    let i = bucket_of(xor_bytes(owner, node.id@));
    buckets.update(i, bucket_after_update(buckets[i], node))
}

/// The probes asked for once the table of `owner` has seen `node`: one
/// more, of the oldest contact of the bucket of `node`, where that bucket
/// is full and does not hold `node`.
pub open spec fn probes_after_update(
    owner: Seq<u8>,
    buckets: Seq<Seq<Node>>,
    probes: Seq<Probe>,
    node: Node,
) -> Seq<Probe> {
    let bucket = buckets[bucket_of(xor_bytes(owner, node.id@))];
    if probe_needed(bucket, node) {
        probes.push(Probe { head: bucket[0], candidate: node })
    } else {
        probes
    }
}

/// The buckets of the table of `owner` without the contact with key `id`.
pub open spec fn buckets_after_remove(owner: Seq<u8>, buckets: Seq<Seq<Node>>, id: Seq<u8>) -> Seq<
    Seq<Node>,
> {
    let i = bucket_of(xor_bytes(owner, id));
    buckets.update(i, without_id(buckets[i], id))
}

/// The buckets after a probe is settled. A head that answered is seen
/// again and its rival forgotten; one that did not is dropped, and the
/// candidate is seen in its place.
pub open spec fn buckets_after_probe(
    owner: Seq<u8>,
    buckets: Seq<Seq<Node>>,
    probe: Probe,
    alive: bool,
) -> Seq<Seq<Node>> {
    if alive {
        buckets_after_update(owner, buckets, probe.head)
    } else {
        buckets_after_update(
            owner,
            buckets_after_remove(owner, buckets, probe.head.id@),
            probe.candidate,
        )
    }
}

/// What bucket `i` of the table of `owner` may hold: at most K contacts,
/// no key twice, each at a distance from the owner that falls in bucket `i`.
pub open spec fn bucket_wf(owner: Seq<u8>, i: int, nodes: Seq<Node>) -> bool {
    &&& nodes.len() <= K_PARAM
    &&& distinct_ids(nodes)
    &&& forall|j: int|
        0 <= j < nodes.len() ==> bucket_of(xor_bytes(owner, #[trigger] nodes[j].id@)) == i
}

/// Where `id_position` lands: on the first contact with that key.
pub proof fn lemma_id_position(nodes: Seq<Node>, id: Seq<u8>, from: int)
    requires
        0 <= from <= nodes.len(),
    ensures
        from <= id_position(nodes, id, from) <= nodes.len(),
        id_position(nodes, id, from) < nodes.len() ==> nodes[id_position(nodes, id, from)].id@
            == id,
        forall|k: int| from <= k < id_position(nodes, id, from) ==> nodes[k].id@ != id,
    decreases nodes.len() - from,
{
    if from < nodes.len() && nodes[from].id@ != id {
        lemma_id_position(nodes, id, from + 1);
    }
}

/// A well-formed bucket is well formed after it has seen a contact that
/// belongs in it.
pub proof fn lemma_update_keeps_bucket(owner: Seq<u8>, i: int, nodes: Seq<Node>, node: Node)
    requires
        bucket_wf(owner, i, nodes),
        bucket_of(xor_bytes(owner, node.id@)) == i,
    ensures
        bucket_wf(owner, i, bucket_after_update(nodes, node)),
{
    lemma_id_position(nodes, node.id@, 0);
}

/// A well-formed bucket is well formed without one of its contacts.
pub proof fn lemma_remove_keeps_bucket(owner: Seq<u8>, i: int, nodes: Seq<Node>, id: Seq<u8>)
    requires
        bucket_wf(owner, i, nodes),
    ensures
        bucket_wf(owner, i, without_id(nodes, id)),
        !has_id(without_id(nodes, id), id),
{
    lemma_id_position(nodes, id, 0);
    lemma_id_position(without_id(nodes, id), id, 0);
}

/// Finds the contact with key `id`.
pub fn position(nodes: &Vec<Node>, id: &Key) -> (r: Option<usize>)
    ensures
        match r {
            Some(i) => i < nodes.len() && i == id_position(nodes@, id@, 0),
            None => !has_id(nodes@, id@),
        },
{
    let mut i: usize = 0;
    while i < nodes.len()
        invariant
            i <= nodes.len(),
            id_position(nodes@, id@, 0) == id_position(nodes@, id@, i as int),
        decreases nodes.len() - i,
    {
        if nodes[i].id == *id {
            return Some(i);
        }
        i += 1;
    }
    None
}

/// Entries in order of distance, the nearest first.
pub open spec fn sorted_by_distance(v: Seq<NodeAndDistance>) -> bool {
    forall|a: int, b: int| 0 <= a < b < v.len() ==> v[a].1.value() <= v[b].1.value()
}

/// Where `x` goes into sorted entries: before the first entry at or after
/// `from` that is not nearer than `x`.
pub open spec fn insertion_point(s: Seq<NodeAndDistance>, x: NodeAndDistance, from: int) -> int
    decreases s.len() - from,
{
    if from >= s.len() {
        s.len() as int
    } else if s[from].1.value() < x.1.value() {
        insertion_point(s, x, from + 1)
    } else {
        from
    }
}

/// The entries in order of distance, those at one distance in the order
/// they had.
pub open spec fn stable_sorted(v: Seq<NodeAndDistance>) -> Seq<NodeAndDistance>
    decreases v.len(),
{
    if v.len() == 0 {
        Seq::empty()
    } else {
        let rest = stable_sorted(v.drop_first());
        rest.insert(insertion_point(rest, v.first(), 0), v.first())
    }
}

/// Sorts entries by distance, the nearest first; entries at one distance
/// keep their order.
pub fn sort_by_distance(v: Vec<NodeAndDistance>) -> (r: Vec<NodeAndDistance>)
    ensures
        r@ == stable_sorted(v@),
        r@.to_multiset() == v@.to_multiset(),
        sorted_by_distance(r@),
{
    let mut rest = v;
    let mut out: Vec<NodeAndDistance> = Vec::new();
    assert(out@.to_multiset().add(rest@.to_multiset()) =~= v@.to_multiset()) by {
        broadcast use vstd::seq_lib::group_to_multiset_ensures;

    }
    while rest.len() > 0
        invariant
            rest@ == v@.take(rest@.len() as int),
            rest@.len() <= v@.len(),
            out@ == stable_sorted(v@.skip(rest@.len() as int)),
            out@.to_multiset().add(rest@.to_multiset()) == v@.to_multiset(),
            sorted_by_distance(out@),
        decreases rest.len(),
    {
        let ghost before = rest@;
        let x = rest.pop().unwrap();
        let mut p: usize = 0;
        while p < out.len() && out[p].1.closer_than(&x.1)
            invariant
                p <= out.len(),
                forall|k: int| 0 <= k < p ==> out@[k].1.value() < x.1.value(),
                insertion_point(out@, x, 0) == insertion_point(out@, x, p as int),
            decreases out.len() - p,
        {
            p += 1;
        }
        out.insert(p, x);
        proof {
            broadcast use vstd::seq_lib::group_to_multiset_ensures;

            let m = rest@.len() as int;
            assert(v@.skip(m).drop_first() =~= v@.skip(m + 1));
            assert(before =~= rest@.push(x));
        }
    }
    assert(rest@.to_multiset() =~= Multiset::empty()) by {
        broadcast use vstd::seq_lib::group_to_multiset_ensures;

    }
    assert(v@.skip(0) =~= v@);
    out
}

/// Whether an entry carries the distance from its contact to `key`.
pub open spec fn annotated(e: NodeAndDistance, key: Seq<u8>) -> bool {
    e.1@ == xor_bytes(e.0.id@, key)
}

/// The contacts of a sequence of entries.
pub open spec fn nodes_of(v: Seq<NodeAndDistance>) -> Seq<Node> {
    Seq::new(v.len(), |i: int| v[i].0)
}

/// The contacts gathered from the buckets around bucket `i` once those
/// less than `s` away have given `acc`: in turn the next bucket above and
/// the next below, each only while fewer than `n` contacts are gathered.
pub open spec fn gather(buckets: Seq<Seq<Node>>, i: int, s: int, acc: Seq<Node>, n: nat) -> Seq<
    Node,
>
    decreases N_BUCKETS - s,
{
    if s >= N_BUCKETS {
        acc
    } else {
        let up = if acc.len() < n && i + s < N_BUCKETS {
            acc + buckets[i + s]
        } else {
            acc
        };
        let both = if up.len() < n && i - s >= 0 {
            up + buckets[i - s]
        } else {
            up
        };
        gather(buckets, i, s + 1, both, n)
    }
}

/// The contacts among which the `n` nearest to a key of bucket `i` are
/// sought: those of bucket `i`, then of the buckets next to it, outwards to
/// both sides, until `n` are gathered or no bucket is left.
pub open spec fn gathered(buckets: Seq<Seq<Node>>, i: int, n: nat) -> Seq<Node> {
    gather(buckets, i, 1, buckets[i], n)
}

/// Whether `r` holds the `n` contacts of `from` nearest to `key`, or all
/// of them where there are fewer: each with its distance, the nearest
/// first, and no contact left out that is nearer than one taken.
pub open spec fn is_closest(r: Seq<NodeAndDistance>, from: Seq<Node>, key: Seq<u8>, n: nat) -> bool {
    &&& r.len() == if from.len() < n {
        from.len()
    } else {
        n
    }
    &&& forall|j: int| 0 <= j < r.len() ==> annotated(#[trigger] r[j], key) && from.contains(r[j].0)
    &&& forall|a: int, b: int| 0 <= a < b < r.len() ==> r[a].1.value() < r[b].1.value()
    &&& forall|p: int, j: int|
        0 <= p < from.len() && 0 <= j < r.len() ==> nodes_of(r).contains(#[trigger] from[p])
            || (#[trigger] r[j]).1.value() < be_value(xor_bytes(from[p].id@, key))
}

/// The number of contacts in buckets `lo` up to `hi`, `hi` left out.
pub open spec fn range_total(buckets: Seq<Seq<Node>>, lo: int, hi: int) -> nat
    decreases hi - lo,
{
    if hi <= lo {
        0
    } else {
        range_total(buckets, lo, hi - 1) + buckets[hi - 1].len()
    }
}

/// The number of contacts in all buckets.
pub open spec fn total(buckets: Seq<Seq<Node>>) -> nat {
    range_total(buckets, 0, buckets.len() as int)
}

/// A range of buckets holds what its first bucket holds and what the rest
/// of the range holds.
pub proof fn lemma_range_total_first(buckets: Seq<Seq<Node>>, lo: int, hi: int)
    requires
        lo < hi,
    ensures
        range_total(buckets, lo, hi) == buckets[lo].len() + range_total(buckets, lo + 1, hi),
    decreases hi - lo,
{
    if lo + 1 < hi {
        lemma_range_total_first(buckets, lo, hi - 1);
    } else {
        assert(range_total(buckets, lo, lo) == 0);
    }
}

/// The contacts gathered are no more than the table holds.
pub proof fn lemma_gather_within_table(
    buckets: Seq<Seq<Node>>,
    i: int,
    s: int,
    acc: Seq<Node>,
    n: nat,
)
    requires
        buckets.len() == N_BUCKETS,
        0 <= i < N_BUCKETS,
        1 <= s <= N_BUCKETS,
        acc.len() <= range_total(
            buckets,
            if i - s + 1 > 0 {
                i - s + 1
            } else {
                0
            },
            if i + s < N_BUCKETS {
                i + s
            } else {
                N_BUCKETS as int
            },
        ),
    ensures
        gather(buckets, i, s, acc, n).len() <= total(buckets),
    decreases N_BUCKETS - s,
{
    if s < N_BUCKETS {
        let up = if acc.len() < n && i + s < N_BUCKETS {
            acc + buckets[i + s]
        } else {
            acc
        };
        let both = if up.len() < n && i - s >= 0 {
            up + buckets[i - s]
        } else {
            up
        };
        let hi2 = if i + s + 1 < N_BUCKETS {
            i + s + 1
        } else {
            N_BUCKETS as int
        };
        let lo2 = if i - s > 0 {
            i - s
        } else {
            0
        };
        if i - s >= 0 {
            lemma_range_total_first(buckets, lo2, hi2);
        }
        lemma_gather_within_table(buckets, i, s + 1, both, n);
    }
}

/// Once `n` contacts are gathered, no bucket adds to them.
pub proof fn lemma_gather_full(buckets: Seq<Seq<Node>>, i: int, s: int, acc: Seq<Node>, n: nat)
    requires
        acc.len() >= n,
    ensures
        gather(buckets, i, s, acc, n) == acc,
    decreases N_BUCKETS - s,
{
    if s < N_BUCKETS {
        lemma_gather_full(buckets, i, s + 1, acc, n);
    }
}

/// Sorting entries with distinct keys, each with its distance to `key`,
/// and keeping the first `n` gives the `n` nearest.
pub proof fn lemma_sorted_prefix_is_closest(
    pre: Seq<NodeAndDistance>,
    srt: Seq<NodeAndDistance>,
    key: Key,
    n: nat,
)
    requires
        srt.to_multiset() == pre.to_multiset(),
        sorted_by_distance(srt),
        forall|p: int| 0 <= p < pre.len() ==> annotated(#[trigger] pre[p], key@),
        forall|p: int, q: int| 0 <= p < q < pre.len() ==> pre[p].0.id@ != pre[q].0.id@,
    ensures
        is_closest(
            srt.take(
                if srt.len() < n {
                    srt.len() as int
                } else {
                    n as int
                },
            ),
            nodes_of(pre),
            key@,
            n,
        ),
{
    broadcast use vstd::seq_lib::group_to_multiset_ensures;

    let from = nodes_of(pre);
    let m = if srt.len() < n {
        srt.len() as int
    } else {
        n as int
    };
    let r = srt.take(m);
    assert(srt.len() == pre.len()) by {
        assert(srt.to_multiset().len() == srt.len());
    }
    // every sorted entry is one of the entries given
    assert forall|j: int| 0 <= j < srt.len() implies pre.contains(#[trigger] srt[j]) by {
        assert(srt.to_multiset().count(srt[j]) > 0);
    }
    assert forall|p: int| 0 <= p < pre.len() implies srt.contains(#[trigger] pre[p]) by {
        assert(pre.to_multiset().count(pre[p]) > 0);
    }
    assert forall|j: int| 0 <= j < r.len() implies annotated(#[trigger] r[j], key@)
        && from.contains(r[j].0) by {
        let p = choose|p: int| 0 <= p < pre.len() && pre[p] == srt[j];
        assert(from[p] == r[j].0);
    }
    // no entry occurs twice
    pre.lemma_multiset_has_no_duplicates();
    srt.lemma_multiset_has_no_duplicates_conv();
    assert forall|a: int, b: int| 0 <= a < b < srt.len() implies srt[a].1.value()
        < srt[b].1.value() by {
        let pa = choose|p: int| 0 <= p < pre.len() && pre[p] == srt[a];
        let pb = choose|p: int| 0 <= p < pre.len() && pre[p] == srt[b];
        if srt[a].1.value() == srt[b].1.value() {
            lemma_value_injective(srt[a].1@, srt[b].1@);
            lemma_same_distance_same_key(pre[pa].0.id, pre[pb].0.id, key);
        }
    }
    assert forall|p: int, j: int| 0 <= p < from.len() && 0 <= j < r.len() implies nodes_of(
        r,
    ).contains(#[trigger] from[p]) || (#[trigger] r[j]).1.value() < be_value(
        xor_bytes(from[p].id@, key@),
    ) by {
        let q = choose|q: int| 0 <= q < srt.len() && srt[q] == pre[p];
        if q < m {
            assert(nodes_of(r)[q] == from[p]);
        }
    }
}

impl KBucket {
    /// An empty bucket of capacity K.
    pub fn new() -> (bucket: KBucket)
        ensures
            bucket.nodes@ == Seq::<Node>::empty(),
            bucket.size == K_PARAM,
    {
        Self { nodes: Vec::new(), size: K_PARAM }
    }
}

impl RoutingTable {
    /// The peer whose table this is.
    pub closed spec fn owner(&self) -> Node {
        self.node
    }

    /// The contacts of each bucket, least recently seen first.
    pub closed spec fn buckets(&self) -> Seq<Seq<Node>> {
        Seq::new(self.kbuckets@.len(), |i: int| self.kbuckets@[i].nodes@)
    }

    /// The liveness checks asked for and not yet taken.
    pub closed spec fn probes(&self) -> Seq<Probe> {
        self.probes@
    }

    /// Every bucket records the capacity K.
    pub closed spec fn sized(&self) -> bool {
        forall|i: int| 0 <= i < self.kbuckets@.len() ==> (#[trigger] self.kbuckets@[i]).size == K_PARAM
    }

    /// The table's invariant: 256 buckets, each well formed for its index.
    pub open spec fn wf(&self) -> bool {
        &&& self.sized()
        &&& self.buckets().len() == N_BUCKETS
        &&& forall|i: int|
            0 <= i < N_BUCKETS ==> bucket_wf(self.owner().id@, i, #[trigger] self.buckets()[i])
    }

    /// The bucket in which this table keeps the key `id`.
    pub open spec fn index_of(&self, id: Seq<u8>) -> int {
        bucket_of(xor_bytes(self.owner().id@, id))
    }

    /// A table with the owner in it and, where one is given, the bootstrap
    /// contact.
    pub fn new(node: Node, bootstrap: Option<Node>) -> (table: RoutingTable)
        ensures
            table.wf(),
            table.owner() == node,
            table.probes() == Seq::<Probe>::empty(),
            ({
                let empty = Seq::new(N_BUCKETS as nat, |i: int| Seq::<Node>::empty());
                let first = buckets_after_update(node.id@, empty, node);
                match bootstrap {
                    Some(b) => table.buckets() == buckets_after_update(node.id@, first, b),
                    None => table.buckets() == first,
                }
            }),
    {
        let mut kbuckets: Vec<KBucket> = Vec::new();
        let mut i: usize = 0;
        while i < N_BUCKETS
            invariant
                i <= N_BUCKETS,
                kbuckets@.len() == i,
                forall|j: int|
                    0 <= j < i ==> (#[trigger] kbuckets@[j]).nodes@ == Seq::<Node>::empty()
                        && kbuckets@[j].size == K_PARAM,
            decreases N_BUCKETS - i,
        {
            kbuckets.push(KBucket::new());
            i += 1;
        }
        let mut ret = Self { node: node.clone(), kbuckets, probes: Vec::new() };
        proof {
            lemma_first_set_bit(xor_bytes(node.id@, node.id@), 0);
        }
        ret.update(node);
        if let Some(bootstrap) = bootstrap {
            proof {
                lemma_first_set_bit(xor_bytes(node.id@, bootstrap.id@), 0);
            }
            ret.update(bootstrap);
        }
        ret
    }

    /// The bucket in which this table keeps `key`.
    pub fn get_lookup_bucket_index(&self, key: &Key) -> (i: usize)
        ensures
            i == self.index_of(key@),
            i < N_BUCKETS,
    {
        self.node.id.bucket_index(key)
    }

    /// Inserts or refreshes a contact. Where its bucket is full and does
    /// not hold it, nothing changes but that a probe of the bucket's oldest
    /// contact is asked for.
    pub fn update(&mut self, node: Node)
        requires
            old(self).wf(),
        ensures
            final(self).wf(),
            final(self).owner() == old(self).owner(),
            final(self).buckets() == buckets_after_update(
                old(self).owner().id@,
                old(self).buckets(),
                node,
            ),
            final(self).probes() == probes_after_update(
                old(self).owner().id@,
                old(self).buckets(),
                old(self).probes(),
                node,
            ),
    {
        let bucket_idx = self.get_lookup_bucket_index(&node.id);
        let ghost bucket = self.buckets()[bucket_idx as int];
        proof {
            lemma_update_keeps_bucket(self.owner().id@, bucket_idx as int, bucket, node);
        }
        match position(&self.kbuckets[bucket_idx].nodes, &node.id) {
            Some(i) => {
                self.kbuckets[bucket_idx].nodes.remove(i);
                self.kbuckets[bucket_idx].nodes.push(node);
            },
            None => {
                if self.kbuckets[bucket_idx].nodes.len() < K_PARAM {
                    self.kbuckets[bucket_idx].nodes.push(node);
                } else {
                    let head = self.kbuckets[bucket_idx].nodes[0].clone();
                    self.probes.push(Probe { head, candidate: node });
                }
            },
        }
        assert(self.buckets() =~= old(self).buckets().update(
            bucket_idx as int,
            bucket_after_update(bucket, node),
        ));
    }

    /// Appends the contacts of bucket `i`, each with its distance to `key`.
    fn collect_bucket(&self, i: usize, key: &Key, ret: &mut Vec<NodeAndDistance>)
        requires
            i < self.buckets().len(),
        ensures
            final(ret)@.len() == old(ret)@.len() + self.buckets()[i as int].len(),
            forall|p: int| 0 <= p < old(ret)@.len() ==> final(ret)@[p] == old(ret)@[p],
            forall|p: int|
                old(ret)@.len() <= p < final(ret)@.len() ==> (#[trigger] final(ret)@[p]).0
                    == self.buckets()[i as int][p - old(ret)@.len()] && annotated(
                    final(ret)@[p],
                    key@,
                ),
    {
        let mut j: usize = 0;
        while j < self.kbuckets[i].nodes.len()
            invariant
                i < self.kbuckets@.len(),
                j <= self.kbuckets@[i as int].nodes@.len(),
                ret@.len() == old(ret)@.len() + j,
                forall|p: int| 0 <= p < old(ret)@.len() ==> ret@[p] == old(ret)@[p],
                forall|p: int|
                    old(ret)@.len() <= p < ret@.len() ==> (#[trigger] ret@[p]).0
                        == self.kbuckets@[i as int].nodes@[p - old(ret)@.len()] && annotated(
                        ret@[p],
                        key@,
                    ),
            decreases self.kbuckets@[i as int].nodes@.len() - j,
        {
            let node = self.kbuckets[i].nodes[j].clone();
            let distance = Distance::new(&node.id, key);
            ret.push(NodeAndDistance(node, distance));
            j += 1;
        }
    }

    /// The `count` contacts nearest to `key` among those of the buckets
    /// around the bucket of `key`, the nearest first.
    pub fn get_closest_nodes(&self, key: &Key, count: usize) -> (ret: Vec<NodeAndDistance>)
        requires
            self.wf(),
        ensures
            is_closest(
                ret@,
                gathered(self.buckets(), self.index_of(key@), count as nat),
                key@,
                count as nat,
            ),
    {
        let mut ret: Vec<NodeAndDistance> = Vec::new();
        let index = self.get_lookup_bucket_index(key);
        let ghost buckets = self.buckets();
        let ghost n = count as nat;
        self.collect_bucket(index, key, &mut ret);
        assert(nodes_of(ret@) =~= buckets[index as int]);
        let mut s: usize = 1;
        while s < N_BUCKETS && ret.len() < count
            invariant
                1 <= s <= N_BUCKETS,
                index < N_BUCKETS,
                self.wf(),
                buckets == self.buckets(),
                n == count,
                gathered(buckets, index as int, n) == gather(
                    buckets,
                    index as int,
                    s as int,
                    nodes_of(ret@),
                    n,
                ),
                forall|p: int| 0 <= p < ret@.len() ==> annotated(#[trigger] ret@[p], key@),
                forall|p: int|
                    0 <= p < ret@.len() ==> index - s < self.index_of(
                        (#[trigger] ret@[p]).0.id@,
                    ) < index + s,
                forall|p: int, q: int| 0 <= p < q < ret@.len() ==> ret@[p].0.id@ != ret@[q].0.id@,
            decreases N_BUCKETS - s,
        {
            let ghost acc = nodes_of(ret@);
            if index + s < N_BUCKETS {
                self.collect_bucket(index + s, key, &mut ret);
                assert(nodes_of(ret@) =~= acc + buckets[index + s]);
            }
            let ghost up = nodes_of(ret@);
            if ret.len() < count && index >= s {
                self.collect_bucket(index - s, key, &mut ret);
                assert(nodes_of(ret@) =~= up + buckets[index - s]);
            }
            s += 1;
        }
        proof {
            if s < N_BUCKETS {
                lemma_gather_full(buckets, index as int, s as int, nodes_of(ret@), n);
            }
        }
        let ghost pre = ret@;
        let mut ret = sort_by_distance(ret);
        proof {
            lemma_sorted_prefix_is_closest(pre, ret@, *key, n);
        }
        let ghost sorted = ret@;
        ret.truncate(count);
        assert(ret@ =~= sorted.take(
            if sorted.len() < n {
                sorted.len() as int
            } else {
                n as int
            },
        ));
        ret
    }

    /// The peer whose table this is.
    pub fn node(&self) -> (node: &Node)
        ensures
            *node == self.owner(),
    {
        &self.node
    }

    /// Bucket `i`, for `i` below 256.
    pub fn bucket(&self, i: usize) -> (r: Option<&KBucket>)
        requires
            self.wf(),
        ensures
            i < N_BUCKETS ==> (r matches Some(bucket) && bucket.nodes@ == self.buckets()[i as int]
                && bucket.size == K_PARAM),
            i >= N_BUCKETS ==> r is None,
    {
        if i < N_BUCKETS {
            Some(&self.kbuckets[i])
        } else {
            None
        }
    }

    /// How many contacts the table holds.
    pub fn len(&self) -> (n: usize)
        requires
            self.wf(),
        ensures
            n == total(self.buckets()),
            n <= N_BUCKETS * K_PARAM,
    {
        let mut n: usize = 0;
        let mut i: usize = 0;
        while i < N_BUCKETS
            invariant
                i <= N_BUCKETS,
                self.wf(),
                n == range_total(self.buckets(), 0, i as int),
                n <= i * K_PARAM,
            decreases N_BUCKETS - i,
        {
            assert(bucket_wf(self.owner().id@, i as int, self.buckets()[i as int]));
            n += self.kbuckets[i].nodes.len();
            i += 1;
        }
        n
    }

    /// Whether the table holds a contact with the key of `node`.
    pub fn contains(&self, node: &Node) -> (r: bool)
        requires
            self.wf(),
        ensures
            r == has_id(self.buckets()[self.index_of(node.id@)], node.id@),
    {
        let bucket_idx = self.get_lookup_bucket_index(&node.id);
        position(&self.kbuckets[bucket_idx].nodes, &node.id).is_some()
    }

    /// Hands over the probes asked for since the last call.
    pub fn take_probes(&mut self) -> (probes: Vec<Probe>)
        requires
            old(self).wf(),
        ensures
            final(self).wf(),
            probes@ == old(self).probes(),
            final(self).probes() == Seq::<Probe>::empty(),
            final(self).buckets() == old(self).buckets(),
            final(self).owner() == old(self).owner(),
    {
        let mut probes: Vec<Probe> = Vec::new();
        std::mem::swap(&mut probes, &mut self.probes);
        probes
    }

    /// Settles a probe: `alive` says whether the head answered the ping.
    pub fn probe_result(&mut self, probe: Probe, alive: bool)
        requires
            old(self).wf(),
        ensures
            final(self).wf(),
            final(self).owner() == old(self).owner(),
            final(self).buckets() == buckets_after_probe(
                old(self).owner().id@,
                old(self).buckets(),
                probe,
                alive,
            ),
            final(self).probes() == if alive {
                probes_after_update(
                    old(self).owner().id@,
                    old(self).buckets(),
                    old(self).probes(),
                    probe.head,
                )
            } else {
                probes_after_update(
                    old(self).owner().id@,
                    buckets_after_remove(
                        old(self).owner().id@,
                        old(self).buckets(),
                        probe.head.id@,
                    ),
                    old(self).probes(),
                    probe.candidate,
                )
            },
    {
        if alive {
            self.update(probe.head);
        } else {
            self.remove(&probe.head);
            self.update(probe.candidate);
        }
    }

    /// Drops the contact with the key of `node`, if the table holds one.
    pub fn remove(&mut self, node: &Node)
        requires
            old(self).wf(),
        ensures
            final(self).wf(),
            final(self).owner() == old(self).owner(),
            final(self).probes() == old(self).probes(),
            final(self).buckets() == buckets_after_remove(
                old(self).owner().id@,
                old(self).buckets(),
                node.id@,
            ),
    {
        let bucket_idx = self.get_lookup_bucket_index(&node.id);
        let ghost bucket = self.buckets()[bucket_idx as int];
        proof {
            lemma_remove_keeps_bucket(self.owner().id@, bucket_idx as int, bucket, node.id@);
        }
        if let Some(i) = position(&self.kbuckets[bucket_idx].nodes, &node.id) {
            self.kbuckets[bucket_idx].nodes.remove(i);
        }
        assert(self.buckets() =~= old(self).buckets().update(
            bucket_idx as int,
            without_id(bucket, node.id@),
        ));
    }
}

/// Every contact of a table is kept in the bucket that its distance from
/// the owner falls in.
pub proof fn lemma_contact_in_own_bucket(table: RoutingTable, i: int, j: int)
    requires
        table.wf(),
        0 <= i < N_BUCKETS,
        0 <= j < table.buckets()[i].len(),
    ensures
        table.index_of(table.buckets()[i][j].id@) == i,
{
}

/// No bucket holds more than K contacts, nor two with one key.
pub proof fn lemma_bucket_bounded_and_unique(table: RoutingTable, i: int)
    requires
        table.wf(),
        0 <= i < N_BUCKETS,
    ensures
        table.buckets()[i].len() <= K_PARAM,
        distinct_ids(table.buckets()[i]),
{
}

/// A key is held at most once in a whole table.
pub proof fn lemma_contact_held_once(table: RoutingTable, i1: int, j1: int, i2: int, j2: int)
    requires
        table.wf(),
        0 <= i1 < N_BUCKETS,
        0 <= j1 < table.buckets()[i1].len(),
        0 <= i2 < N_BUCKETS,
        0 <= j2 < table.buckets()[i2].len(),
        table.buckets()[i1][j1].id@ == table.buckets()[i2][j2].id@,
    ensures
        i1 == i2,
        j1 == j2,
{
    lemma_contact_in_own_bucket(table, i1, j1);
    lemma_contact_in_own_bucket(table, i2, j2);
    lemma_bucket_bounded_and_unique(table, i1);
}

/// A contact other than the owner that is kept in bucket i lies at a
/// distance between 2^(255-i) and 2^(256-i) from the owner.
pub proof fn lemma_bucket_holds_distance_shell(table: RoutingTable, i: int, j: int, d: Distance)
    requires
        table.wf(),
        0 <= i < N_BUCKETS,
        0 <= j < table.buckets()[i].len(),
        d@ == xor_bytes(table.owner().id@, table.buckets()[i][j].id@),
        d.value() > 0,
    ensures
        pow2((255 - i) as nat) <= d.value() < pow2((256 - i) as nat),
{
    lemma_contact_in_own_bucket(table, i, j);
    lemma_bucket_bounds(d);
}

/// The contacts nearest to a key come nearest first without one of them
/// twice, and are no more than were asked for nor than the table holds.
pub proof fn lemma_closest_bounded_and_ordered(
    table: RoutingTable,
    key: Key,
    n: nat,
    r: Seq<NodeAndDistance>,
)
    requires
        table.wf(),
        is_closest(r, gathered(table.buckets(), table.index_of(key@), n), key@, n),
    ensures
        r.len() <= n,
        r.len() <= total(table.buckets()),
        forall|a: int, b: int| 0 <= a < b < r.len() ==> r[a].1.value() < r[b].1.value(),
        forall|a: int, b: int| 0 <= a < b < r.len() ==> r[a].0.id@ != r[b].0.id@,
{
    let i = table.index_of(key@);
    lemma_first_set_bit(xor_bytes(table.owner().id@, key@), 0);
    lemma_gather_within_table(table.buckets(), i, 1, table.buckets()[i], n);
}

/// Seeing a contact that a bucket already holds moves it to the tail and
/// asks for no probe, however full the bucket is.
pub proof fn lemma_refresh_asks_no_probe(nodes: Seq<Node>, node: Node)
    requires
        has_id(nodes, node.id@),
    ensures
        !probe_needed(nodes, node),
        bucket_after_update(nodes, node) == nodes.remove(id_position(nodes, node.id@, 0)).push(
            node,
        ),
        bucket_after_update(nodes, node).len() == nodes.len(),
{
    lemma_id_position(nodes, node.id@, 0);
}

/// A full bucket that meets a new contact asks for a probe of its head.
/// If the head does not answer, it leaves and the newcomer joins at the
/// tail; if it answers, it moves to the tail and the newcomer is dropped.
pub proof fn lemma_full_bucket_probe(owner: Seq<u8>, i: int, nodes: Seq<Node>, novel: Node)
    requires
        bucket_wf(owner, i, nodes),
        nodes.len() == K_PARAM,
        !has_id(nodes, novel.id@),
    ensures
        probe_needed(nodes, novel),
        bucket_after_update(nodes, novel) == nodes,
        bucket_after_update(without_id(nodes, nodes[0].id@), novel) == nodes.drop_first().push(
            novel,
        ),
        bucket_after_update(nodes, nodes[0]) == nodes.drop_first().push(nodes[0]),
{
    let head = nodes[0];
    lemma_id_position(nodes, head.id@, 0);
    let rest = nodes.drop_first();
    lemma_id_position(nodes, novel.id@, 0);
    lemma_id_position(rest, novel.id@, 0);
}

} // verus!
