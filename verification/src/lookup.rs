//! The iterative lookup: from the contacts a peer knows nearest to a key,
//! ask the nearest not yet asked, a few at a time, and learn new contacts
//! from their answers until no contact is left to ask.
//!
//! The lookup itself sends nothing. It says whom to ask next and takes in
//! what they answered.

use vstd::prelude::*;
use crate::key::{lemma_value_injective, Distance};
use crate::routing::{
    sort_by_distance, sorted_by_distance, stable_sorted, FindValueResult, NodeAndDistance,
};
use crate::{ALPHA, K_PARAM};

verus! {

/// A lookup under way.
#[derive(Debug)]
pub struct Lookup {
    /// The distances of all entries ever learned.
    queried: Vec<Distance>,
    /// Entries learned and not yet asked.
    to_query: Vec<NodeAndDistance>,
    /// The entries being asked.
    in_flight: Vec<NodeAndDistance>,
    /// The entries that answered.
    ret: Vec<NodeAndDistance>,
}

/// What a lookup knows.
pub struct LookupView {
    /// The distances of all entries ever learned.
    pub seen: Set<Seq<u8>>,
    /// Entries learned and not yet asked, in the order they were learned.
    pub waiting: Seq<NodeAndDistance>,
    /// The entries being asked, the nearest first.
    pub in_flight: Seq<NodeAndDistance>,
    /// The entries that answered, in the order they were taken in.
    pub found: Seq<NodeAndDistance>,
}

/// The position of the nearest entry, the first of them where several are
/// equally near.
pub open spec fn nearest_index(s: Seq<NodeAndDistance>) -> int
    decreases s.len(),
{
    if s.len() <= 1 {
        0
    } else {
        let m = nearest_index(s.drop_last());
        if s.last().1.value() < s[m].1.value() {
            s.len() - 1
        } else {
            m
        }
    }
}

/// The `k` nearest entries of `s`, the nearest first, and what is left of
/// `s` without them.
pub open spec fn take_nearest(s: Seq<NodeAndDistance>, k: nat) -> (Seq<NodeAndDistance>, Seq<
    NodeAndDistance,
>)
    decreases k,
{
    if k == 0 || s.len() == 0 {
        (Seq::empty(), s)
    } else {
        let m = nearest_index(s);
        let (taken, rest) = take_nearest(s.remove(m), (k - 1) as nat);
        (seq![s[m]] + taken, rest)
    }
}

/// What is seen and what waits once `entries` have been learned: each
/// entry at a distance not seen before is seen now and waits, in order;
/// the others are passed over.
pub open spec fn learn(
    seen: Set<Seq<u8>>,
    waiting: Seq<NodeAndDistance>,
    entries: Seq<NodeAndDistance>,
) -> (Set<Seq<u8>>, Seq<NodeAndDistance>)
    decreases entries.len(),
{
    if entries.len() == 0 {
        (seen, waiting)
    } else {
        let (s, w) = learn(seen, waiting, entries.drop_last());
        let e = entries.last();
        if s.contains(e.1@) {
            (s, w)
        } else {
            (s.insert(e.1@), w.push(e))
        }
    }
}

/// A lookup once the answer of the entry asked has come in: an entry that
/// answered is found, and the contacts it named are learned.
pub open spec fn absorb(
    v: LookupView,
    asked: NodeAndDistance,
    answer: Option<Seq<NodeAndDistance>>,
) -> LookupView {
    match answer {
        Some(entries) => {
            let (seen, waiting) = learn(v.seen, v.waiting, entries);
            LookupView { seen, waiting, in_flight: v.in_flight, found: v.found.push(asked) }
        },
        None => v,
    }
}

/// The contacts that the result of a node search names.
pub open spec fn node_answer(result: Option<Vec<NodeAndDistance>>) -> Option<Seq<NodeAndDistance>> {
    match result {
        Some(entries) => Some(entries@),
        None => None,
    }
}

/// The contacts that the result of a value search names.
pub open spec fn value_answer(result: Option<FindValueResult>) -> Option<Seq<NodeAndDistance>> {
    match result {
        Some(FindValueResult::Nodes(entries)) => Some(entries@),
        _ => None,
    }
}

/// A lookup once the first `n` entries in flight have had their answers
/// taken in, in order.
pub open spec fn absorb_nodes(
    v: LookupView,
    results: Seq<Option<Vec<NodeAndDistance>>>,
    n: int,
) -> LookupView
    decreases n,
{
    if n <= 0 {
        v
    } else {
        absorb(absorb_nodes(v, results, n - 1), v.in_flight[n - 1], node_answer(results[n - 1]))
    }
}

/// A lookup once the first `n` entries in flight have had their answers
/// to a value search taken in, in order.
pub open spec fn absorb_values(
    v: LookupView,
    results: Seq<Option<FindValueResult>>,
    n: int,
) -> LookupView
    decreases n,
{
    if n <= 0 {
        v
    } else {
        absorb(absorb_values(v, results, n - 1), v.in_flight[n - 1], value_answer(results[n - 1]))
    }
}

/// The position of the first value among the first `n` results, and `n`
/// where none of them is a value.
pub open spec fn first_value(results: Seq<Option<FindValueResult>>, n: int) -> int
    decreases n,
{
    if n <= 0 {
        0
    } else {
        let before = first_value(results, n - 1);
        if before < n - 1 {
            before
        } else if results[n - 1] matches Some(FindValueResult::Value(_)) {
            n - 1
        } else {
            n
        }
    }
}

/// The smaller of two numbers.
pub open spec fn smaller(a: int, b: int) -> int {
    if a < b {
        a
    } else {
        b
    }
}

/// Whether `r` holds the `n` nearest entries of `all`, or all of them
/// where there are fewer, the nearest first: no entry left out is nearer
/// than one taken.
pub open spec fn is_nearest(r: Seq<NodeAndDistance>, all: Seq<NodeAndDistance>, n: nat) -> bool {
    &&& r.len() == smaller(all.len() as int, n as int)
    &&& sorted_by_distance(r)
    &&& exists|rest: Seq<NodeAndDistance>|
        {
            &&& #[trigger] (r + rest).to_multiset() == all.to_multiset()
            &&& forall|i: int, j: int|
                0 <= i < r.len() && 0 <= j < rest.len() ==> r[i].1.value() <= rest[j].1.value()
        }
}

/// No two entries lie at one distance.
pub open spec fn distinct_distances(s: Seq<NodeAndDistance>) -> bool {
    forall|i: int, j: int| 0 <= i < j < s.len() ==> s[i].1@ != s[j].1@
}

/// No entry of `a` lies at the distance of an entry of `b`.
pub open spec fn apart(a: Seq<NodeAndDistance>, b: Seq<NodeAndDistance>) -> bool {
    forall|i: int, j: int| 0 <= i < a.len() && 0 <= j < b.len() ==> a[i].1@ != b[j].1@
}

/// No entry of `a` at or after position `from` lies at the distance of an
/// entry of `b`.
pub open spec fn apart_from(a: Seq<NodeAndDistance>, from: int, b: Seq<NodeAndDistance>) -> bool {
    forall|i: int, j: int| from <= i < a.len() && 0 <= j < b.len() ==> a[i].1@ != b[j].1@
}

/// All entries lie at distances seen.
pub open spec fn all_seen(seen: Set<Seq<u8>>, s: Seq<NodeAndDistance>) -> bool {
    forall|i: int| 0 <= i < s.len() ==> seen.contains(#[trigger] s[i].1@)
}

impl LookupView {
    /// What holds of a lookup at all times: every entry it keeps lies at
    /// a distance seen, and no two of them at the same one.
    pub open spec fn wf(self) -> bool {
        self.wf_from(0)
    }

    /// What holds of a lookup while the answers of the entries in flight
    /// are taken in, the first `done` of them already: as `wf`, but that
    /// those entries may by now be among the found.
    pub open spec fn wf_from(self, done: int) -> bool {
        &&& distinct_distances(self.waiting)
        &&& distinct_distances(self.in_flight)
        &&& distinct_distances(self.found)
        &&& apart(self.waiting, self.in_flight)
        &&& apart(self.waiting, self.found)
        &&& apart_from(self.in_flight, done, self.found)
        &&& all_seen(self.seen, self.waiting)
        &&& all_seen(self.seen, self.in_flight)
        &&& all_seen(self.seen, self.found)
    }
}

impl View for Lookup {
    type V = LookupView;

    closed spec fn view(&self) -> LookupView {
        LookupView {
            seen: Set::new(
                |d: Seq<u8>| exists|i: int| 0 <= i < self.queried@.len() && self.queried@[i]@ == d,
            ),
            waiting: self.to_query@,
            in_flight: self.in_flight@,
            found: self.ret@,
        }
    }
}

/// Where `nearest_index` lands: on an entry that none is nearer than.
pub proof fn lemma_nearest_index(s: Seq<NodeAndDistance>)
    requires
        s.len() > 0,
    ensures
        0 <= nearest_index(s) < s.len(),
        forall|j: int|
            0 <= j < s.len() ==> s[nearest_index(s)].1.value() <= (#[trigger] s[j]).1.value(),
    decreases s.len(),
{
    if s.len() > 1 {
        let init = s.drop_last();
        lemma_nearest_index(init);
        let m = nearest_index(s);
        assert forall|j: int| 0 <= j < s.len() implies s[m].1.value() <= (#[trigger] s[j]).1.value() by {
            if j < init.len() {
                assert(init[j] == s[j]);
            }
        }
    }
}

/// What `take_nearest` hands out: as many entries as asked for, or all
/// where there are fewer, each an entry of `s`, the nearest first, and
/// none farther than an entry left behind.
pub proof fn lemma_take_nearest(s: Seq<NodeAndDistance>, k: nat)
    ensures
        ({
            let (taken, rest) = take_nearest(s, k);
            &&& taken.len() == smaller(s.len() as int, k as int)
            &&& taken.len() + rest.len() == s.len()
            &&& forall|i: int| 0 <= i < taken.len() ==> s.contains(#[trigger] taken[i])
            &&& forall|j: int| 0 <= j < rest.len() ==> s.contains(#[trigger] rest[j])
            &&& sorted_by_distance(taken)
            &&& forall|i: int, j: int|
                0 <= i < taken.len() && 0 <= j < rest.len() ==> taken[i].1.value()
                    <= rest[j].1.value()
        }),
    decreases k,
{
    if k > 0 && s.len() > 0 {
        let m = nearest_index(s);
        lemma_nearest_index(s);
        let others = s.remove(m);
        lemma_take_nearest(others, (k - 1) as nat);
    }
}

/// The distances at which the entries of `s` lie.
pub open spec fn distance_set(s: Seq<NodeAndDistance>) -> Set<Seq<u8>> {
    Set::new(|d: Seq<u8>| exists|i: int| 0 <= i < s.len() && s[i].1@ == d)
}

/// Entries at distinct distances are all new to a lookup that has seen
/// nothing.
pub proof fn lemma_learn_fresh(entries: Seq<NodeAndDistance>)
    requires
        distinct_distances(entries),
    ensures
        learn(Set::empty(), Seq::empty(), entries) == (distance_set(entries), entries),
    decreases entries.len(),
{
    if entries.len() > 0 {
        let init = entries.drop_last();
        let e = entries.last();
        lemma_learn_fresh(init);
        assert(distance_set(init).insert(e.1@) =~= distance_set(entries)) by {
            assert forall|d: Seq<u8>| distance_set(entries).contains(d) implies distance_set(
                init,
            ).insert(e.1@).contains(d) by {
                let i = choose|i: int| 0 <= i < entries.len() && entries[i].1@ == d;
                if i < init.len() {
                    assert(init[i].1@ == d);
                }
            }
        }
    }
}

/// What `learn` keeps: all that was seen and all that waited.
pub proof fn lemma_learn(
    seen: Set<Seq<u8>>,
    waiting: Seq<NodeAndDistance>,
    entries: Seq<NodeAndDistance>,
)
    ensures
        ({
            let (s, w) = learn(seen, waiting, entries);
            &&& seen.subset_of(s)
            &&& waiting.len() <= w.len()
            &&& w.take(waiting.len() as int) == waiting
            &&& forall|i: int| waiting.len() <= i < w.len() ==> !seen.contains(#[trigger] w[i].1@)
            &&& forall|i: int| waiting.len() <= i < w.len() ==> s.contains(#[trigger] w[i].1@)
            &&& forall|i: int, j: int| waiting.len() <= i < j < w.len() ==> w[i].1@ != w[j].1@
            &&& forall|i: int| 0 <= i < entries.len() ==> s.contains(#[trigger] entries[i].1@)
        }),
    decreases entries.len(),
{
    if entries.len() > 0 {
        let init = entries.drop_last();
        lemma_learn(seen, waiting, init);
        let s = learn(seen, waiting, entries).0;
        assert forall|i: int| 0 <= i < entries.len() implies s.contains(
            #[trigger] entries[i].1@,
        ) by {
            if i < init.len() {
                assert(init[i] == entries[i]);
            }
        }
    }
}

/// Learning keeps a lookup well formed.
pub proof fn lemma_learn_keeps_wf(v: LookupView, entries: Seq<NodeAndDistance>, done: int)
    requires
        v.wf_from(done),
    ensures
        ({
            let (seen, waiting) = learn(v.seen, v.waiting, entries);
            LookupView { seen, waiting, in_flight: v.in_flight, found: v.found }.wf_from(done)
        }),
{
    lemma_learn(v.seen, v.waiting, entries);
    let waiting = learn(v.seen, v.waiting, entries).1;
    assert forall|i: int| 0 <= i < v.waiting.len() implies waiting[i] == v.waiting[i] by {}
}

/// Taking in the answer of the next entry in flight keeps a lookup well
/// formed.
pub proof fn lemma_absorb_keeps_wf(v: LookupView, done: int, answer: Option<Seq<NodeAndDistance>>)
    requires
        v.wf_from(done),
        0 <= done < v.in_flight.len(),
    ensures
        absorb(v, v.in_flight[done], answer).wf_from(done + 1),
{
    let asked = v.in_flight[done];
    match answer {
        Some(entries) => {
            let found = v.found.push(asked);
            let mid = LookupView { seen: v.seen, waiting: v.waiting, in_flight: v.in_flight, found };
            lemma_learn_keeps_wf(mid, entries, done + 1);
        },
        None => {},
    }
}

/// A value at position `i`, before which there is none, is the first
/// among any `n` results that include it.
pub proof fn lemma_first_value_stops(results: Seq<Option<FindValueResult>>, i: int, n: int)
    requires
        0 <= i < n,
        first_value(results, i) == i,
    ensures
        results[i] matches Some(FindValueResult::Value(_)) ==> first_value(results, n) == i,
        !(results[i] matches Some(FindValueResult::Value(_))) ==> first_value(results, i + 1) == i
            + 1,
    decreases n - i,
{
    if n > i + 1 {
        lemma_first_value_stops(results, i, n - 1);
    }
}

/// Sorting entries that lie at distinct distances leaves no two of them
/// equally near.
pub proof fn lemma_sorted_distinct(pre: Seq<NodeAndDistance>, srt: Seq<NodeAndDistance>)
    requires
        srt.to_multiset() == pre.to_multiset(),
        sorted_by_distance(srt),
        distinct_distances(pre),
    ensures
        forall|a: int, b: int| 0 <= a < b < srt.len() ==> srt[a].1.value() < srt[b].1.value(),
{
    broadcast use vstd::seq_lib::group_to_multiset_ensures;

    assert forall|j: int| 0 <= j < srt.len() implies pre.contains(#[trigger] srt[j]) by {
        assert(srt.to_multiset().count(srt[j]) > 0);
    }
    pre.lemma_multiset_has_no_duplicates();
    srt.lemma_multiset_has_no_duplicates_conv();
    assert forall|a: int, b: int| 0 <= a < b < srt.len() implies srt[a].1.value()
        < srt[b].1.value() by {
        if srt[a].1.value() == srt[b].1.value() {
            lemma_value_injective(srt[a].1@, srt[b].1@);
        }
    }
}

impl Lookup {
    /// The lookup's invariant.
    pub open spec fn wf(&self) -> bool {
        self@.wf()
    }

    /// A lookup that has learned `seeds` and nothing else.
    pub fn start(seeds: Vec<NodeAndDistance>) -> (lookup: Lookup)
        ensures
            lookup.wf(),
            lookup@.in_flight == Seq::<NodeAndDistance>::empty(),
            lookup@.found == Seq::<NodeAndDistance>::empty(),
            (lookup@.seen, lookup@.waiting) == learn(Set::empty(), Seq::empty(), seeds@),
    {
        let mut lookup = Lookup {
            queried: Vec::new(),
            to_query: Vec::new(),
            in_flight: Vec::new(),
            ret: Vec::new(),
        };
        assert(lookup@.seen =~= Set::empty());
        lookup.learn_entries(&seeds, Ghost(0));
        lookup
    }

    /// Whether an entry at distance `d` was ever learned.
    fn has_seen(&self, d: &Distance) -> (r: bool)
        ensures
            r == self@.seen.contains(d@),
    {
        let mut i: usize = 0;
        while i < self.queried.len()
            invariant
                i <= self.queried@.len(),
                forall|j: int| 0 <= j < i ==> self.queried@[j]@ != d@,
            decreases self.queried@.len() - i,
        {
            if self.queried[i] == *d {
                return true;
            }
            i += 1;
        }
        false
    }

    /// Learns the entries that are new.
    fn learn_entries(&mut self, entries: &Vec<NodeAndDistance>, Ghost(done): Ghost<int>)
        requires
            old(self)@.wf_from(done),
        ensures
            final(self)@.wf_from(done),
            final(self)@.in_flight == old(self)@.in_flight,
            final(self)@.found == old(self)@.found,
            (final(self)@.seen, final(self)@.waiting) == learn(
                old(self)@.seen,
                old(self)@.waiting,
                entries@,
            ),
    {
        let mut i: usize = 0;
        while i < entries.len()
            invariant
                i <= entries@.len(),
                self@.in_flight == old(self)@.in_flight,
                self@.found == old(self)@.found,
                (self@.seen, self@.waiting) == learn(
                    old(self)@.seen,
                    old(self)@.waiting,
                    entries@.take(i as int),
                ),
            decreases entries@.len() - i,
        {
            let ghost before = self@;
            let ghost prior = self.queried@;
            assert(entries@.take(i + 1).drop_last() =~= entries@.take(i as int));
            if !self.has_seen(&entries[i].1) {
                self.queried.push(entries[i].1);
                self.to_query.push(entries[i].clone());
                assert(self@.seen =~= before.seen.insert(entries@[i as int].1@)) by {
                    assert(self.queried@[prior.len() as int]@ == entries@[i as int].1@);
                    assert forall|d: Seq<u8>| before.seen.contains(d) implies self@.seen.contains(
                        d,
                    ) by {
                        let j = choose|j: int| 0 <= j < prior.len() && prior[j]@ == d;
                        assert(self.queried@[j]@ == d);
                    }
                }
            }
            i += 1;
        }
        assert(entries@.take(entries@.len() as int) =~= entries@);
        proof {
            lemma_learn_keeps_wf(old(self)@, entries@, done);
        }
    }

    /// The position of the nearest entry that waits.
    fn nearest(&self) -> (m: usize)
        requires
            self@.waiting.len() > 0,
        ensures
            m == nearest_index(self@.waiting),
            m < self@.waiting.len(),
    {
        let mut m: usize = 0;
        let mut i: usize = 1;
        while i < self.to_query.len()
            invariant
                1 <= i <= self.to_query@.len(),
                m < i,
                m == nearest_index(self.to_query@.take(i as int)),
            decreases self.to_query@.len() - i,
        {
            assert(self.to_query@.take(i + 1).drop_last() =~= self.to_query@.take(i as int));
            if self.to_query[i].1.closer_than(&self.to_query[m].1) {
                m = i;
            }
            i += 1;
        }
        assert(self.to_query@.take(self.to_query@.len() as int) =~= self.to_query@);
        m
    }

    /// Whom to ask next: up to ALPHA of the entries that wait, the
    /// nearest first. They wait no longer and are in flight instead of
    /// those that were. Empty when no entry waits: the lookup is over.
    pub fn next_queries(&mut self) -> (queries: Vec<NodeAndDistance>)
        requires
            old(self).wf(),
        ensures
            final(self).wf(),
            queries@ == take_nearest(old(self)@.waiting, ALPHA as nat).0,
            final(self)@ == (LookupView {
                waiting: take_nearest(old(self)@.waiting, ALPHA as nat).1,
                in_flight: queries@,
                ..old(self)@
            }),
    {
        self.in_flight = Vec::new();
        let mut queries: Vec<NodeAndDistance> = Vec::new();
        let mut k: usize = 0;
        while k < ALPHA && self.to_query.len() > 0
            invariant
                k <= ALPHA,
                self@.seen == old(self)@.seen,
                self@.found == old(self)@.found,
                self@.in_flight == queries@,
                self@.wf(),
                take_nearest(old(self)@.waiting, ALPHA as nat) == (
                    queries@ + take_nearest(self@.waiting, (ALPHA - k) as nat).0,
                    take_nearest(self@.waiting, (ALPHA - k) as nat).1,
                ),
            decreases ALPHA - k,
        {
            let m = self.nearest();
            let entry = self.to_query.remove(m);
            queries.push(entry.clone());
            self.in_flight.push(entry);
            k += 1;
        }
        queries
    }

    /// Takes in what the entries in flight answered to a node search:
    /// `results[i]` is what entry `i` of the last `next_queries` named,
    /// and `None` where it did not answer. An entry that answered is
    /// found, and the contacts it named are learned. No entry stays in
    /// flight.
    pub fn node_replies(&mut self, results: Vec<Option<Vec<NodeAndDistance>>>)
        requires
            old(self).wf(),
        ensures
            final(self).wf(),
            final(self)@ == (LookupView {
                in_flight: Seq::empty(),
                ..absorb_nodes(
                    old(self)@,
                    results@,
                    smaller(results@.len() as int, old(self)@.in_flight.len() as int),
                )
            }),
    {
        let n = if results.len() < self.in_flight.len() {
            results.len()
        } else {
            self.in_flight.len()
        };
        let mut i: usize = 0;
        while i < n
            invariant
                i <= n,
                n == smaller(results@.len() as int, old(self)@.in_flight.len() as int),
                self@.in_flight == old(self)@.in_flight,
                self@.wf_from(i as int),
                self@ == absorb_nodes(old(self)@, results@, i as int),
            decreases n - i,
        {
            proof {
                lemma_absorb_keeps_wf(self@, i as int, node_answer(results@[i as int]));
            }
            match &results[i] {
                Some(entries) => {
                    self.ret.push(self.in_flight[i].clone());
                    self.learn_entries(entries, Ghost(i + 1));
                },
                None => {},
            }
            i += 1;
        }
        self.in_flight = Vec::new();
    }

    /// Takes in what the entries in flight answered to a value search, in
    /// order, up to the first that answered with the value, which is
    /// returned. An entry that answered with contacts is found, and the
    /// contacts are learned. No entry stays in flight.
    pub fn value_replies(&mut self, results: Vec<Option<FindValueResult>>) -> (value: Option<
        String,
    >)
        requires
            old(self).wf(),
        ensures
            final(self).wf(),
            ({
                let n = smaller(results@.len() as int, old(self)@.in_flight.len() as int);
                let stop = first_value(results@, n);
                &&& final(self)@ == (LookupView {
                    in_flight: Seq::empty(),
                    ..absorb_values(old(self)@, results@, stop)
                })
                &&& 0 <= stop <= n
                &&& stop < n ==> results@[stop] == Some(FindValueResult::Value(value.unwrap()))
                    && value is Some
                &&& stop == n ==> value is None
            }),
    {
        let n = if results.len() < self.in_flight.len() {
            results.len()
        } else {
            self.in_flight.len()
        };
        let mut i: usize = 0;
        while i < n
            invariant
                i <= n,
                n == smaller(results@.len() as int, old(self)@.in_flight.len() as int),
                self@.in_flight == old(self)@.in_flight,
                self@.wf_from(i as int),
                self@ == absorb_values(old(self)@, results@, i as int),
                first_value(results@, i as int) == i,
            decreases n - i,
        {
            proof {
                lemma_absorb_keeps_wf(self@, i as int, value_answer(results@[i as int]));
                lemma_first_value_stops(results@, i as int, n as int);
            }
            match &results[i] {
                Some(FindValueResult::Nodes(entries)) => {
                    self.ret.push(self.in_flight[i].clone());
                    self.learn_entries(entries, Ghost(i + 1));
                },
                Some(FindValueResult::Value(val)) => {
                    let value = val.clone();
                    self.in_flight = Vec::new();
                    return Some(value);
                },
                None => {},
            }
            i += 1;
        }
        self.in_flight = Vec::new();
        None
    }

    /// The result of the lookup: the K nearest of the entries found, the
    /// nearest first, no two of them equally near.
    pub fn finish(self) -> (r: Vec<NodeAndDistance>)
        requires
            self.wf(),
        ensures
            r@ == stable_sorted(self@.found).take(
                smaller(self@.found.len() as int, K_PARAM as int),
            ),
            is_nearest(r@, self@.found, K_PARAM as nat),
            forall|a: int, b: int| 0 <= a < b < r@.len() ==> r@[a].1.value() < r@[b].1.value(),
    {
        let ghost found = self@.found;
        let mut ret = sort_by_distance(self.ret);
        let ghost sorted = ret@;
        proof {
            broadcast use vstd::seq_lib::group_to_multiset_ensures;

            lemma_sorted_distinct(found, sorted);
            assert(sorted.to_multiset().len() == sorted.len());
        }
        ret.truncate(K_PARAM);
        proof {
            let m = smaller(sorted.len() as int, K_PARAM as int);
            let rest = sorted.skip(m);
            assert(ret@ + rest =~= sorted);
        }
        ret
    }

    /// Whether no entry is left to ask.
    pub fn is_done(&self) -> (done: bool)
        ensures
            done == (self@.waiting.len() == 0),
    {
        self.to_query.len() == 0
    }
}

} // verus!
