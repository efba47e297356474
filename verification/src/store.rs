//! The values that a peer holds for the network, by key.

use vstd::prelude::*;
use crate::assoc::{assoc, lemma_assoc_at, lemma_assoc_push, lemma_assoc_remove};

verus! {

/// A map from text to text in which the last write to a key wins.
#[derive(Debug)]
pub struct Store {
    keys: Vec<String>,
    values: Vec<String>,
}

impl View for Store {
    type V = Map<Seq<char>, Seq<char>>;

    closed spec fn view(&self) -> Map<Seq<char>, Seq<char>> {
        assoc(self.key_seq(), self.value_seq())
    }
}

impl Store {
    closed spec fn key_seq(&self) -> Seq<Seq<char>> {
        Seq::new(self.keys@.len(), |i: int| self.keys@[i]@)
    }

    closed spec fn value_seq(&self) -> Seq<Seq<char>> {
        Seq::new(self.values@.len(), |i: int| self.values@[i]@)
    }

    /// The store's invariant: no key is held twice.
    pub closed spec fn wf(&self) -> bool {
        &&& self.key_seq().no_duplicates()
        &&& self.keys@.len() == self.values@.len()
    }

    /// A store that holds nothing.
    pub fn new() -> (store: Store)
        ensures
            store.wf(),
            store@ == Map::<Seq<char>, Seq<char>>::empty(),
    {
        let store = Store { keys: Vec::new(), values: Vec::new() };
        store
    }

    /// Where `key` is held.
    fn find(&self, key: &String) -> (r: Option<usize>)
        ensures
            match r {
                Some(i) => i < self.key_seq().len() && self.key_seq()[i as int] == key@,
                None => !self.key_seq().contains(key@),
            },
    {
        let mut i: usize = 0;
        while i < self.keys.len()
            invariant
                i <= self.keys@.len(),
                forall|j: int| 0 <= j < i ==> self.key_seq()[j] != key@,
            decreases self.keys@.len() - i,
        {
            if self.keys[i] == *key {
                return Some(i);
            }
            i += 1;
        }
        None
    }

    /// Writes `value` under `key`, over what was there.
    pub fn insert(&mut self, key: String, value: String)
        requires
            old(self).wf(),
        ensures
            final(self).wf(),
            final(self)@ == old(self)@.insert(key@, value@),
    {
        if let Some(i) = self.find(&key) {
            proof {
                lemma_assoc_remove(self.key_seq(), self.value_seq(), i as int);
            }
            self.keys.remove(i);
            self.values.remove(i);
            assert(self.key_seq() =~= old(self).key_seq().remove(i as int));
            assert(self.value_seq() =~= old(self).value_seq().remove(i as int));
        }
        let ghost keys = self.key_seq();
        let ghost values = self.value_seq();
        proof {
            lemma_assoc_push(keys, values, key@, value@);
        }
        self.keys.push(key);
        self.values.push(value);
        assert(self.key_seq() =~= keys.push(key@));
        assert(self.value_seq() =~= values.push(value@));
    }

    /// The value under `key`.
    pub fn get(&self, key: &String) -> (r: Option<&String>)
        requires
            self.wf(),
        ensures
            match r {
                Some(value) => self@.dom().contains(key@) && value@ == self@[key@],
                None => !self@.dom().contains(key@),
            },
    {
        match self.find(key) {
            Some(i) => {
                proof {
                    lemma_assoc_at(self.key_seq(), self.value_seq(), i as int);
                }
                Some(&self.values[i])
            },
            None => None,
        }
    }

    /// How many keys are held.
    pub fn len(&self) -> (n: usize)
        requires
            self.wf(),
        ensures
            n == self@.dom().len(),
            self@.dom().finite(),
    {
        proof {
            let keys = self.key_seq();
            keys.unique_seq_to_set();
        }
        self.keys.len()
    }
}

} // verus!
