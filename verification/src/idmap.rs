//! A hash map from integer keys.

use std::collections::HashMap;
use vstd::prelude::*;

verus! {

/// A map keyed by integer identifiers.
#[verifier::reject_recursive_types(V)]
pub struct IdMap<V> {
    entries: HashMap<u64, V>,
}

impl<V> IdMap<V> {
    /// The entries held.
    pub closed spec fn view(&self) -> Map<u64, V> {
        self.entries@
    }

    pub fn new() -> (r: Self)
        ensures
            r@ == Map::<u64, V>::empty(),
    {
        IdMap { entries: HashMap::new() }
    }

    pub fn len(&self) -> (r: usize)
        ensures
            r == self@.dom().len(),
            self@.dom().finite(),
    {
        broadcast use vstd::std_specs::hash::group_hash_axioms;

        self.entries.len()
    }

    pub fn is_empty(&self) -> (r: bool)
        ensures
            r == (self@.dom().len() == 0),
            self@.dom().finite(),
    {
        broadcast use vstd::std_specs::hash::group_hash_axioms;

        self.entries.len() == 0
    }

    pub fn contains(&self, key: u64) -> (r: bool)
        ensures
            r == self@.contains_key(key),
    {
        broadcast use vstd::std_specs::hash::group_hash_axioms;

        self.entries.contains_key(&key)
    }

    pub fn get(&self, key: u64) -> (r: Option<&V>)
        ensures
            r is Some <==> self@.contains_key(key),
            r matches Some(v) ==> *v == self@[key],
    {
        broadcast use vstd::std_specs::hash::group_hash_axioms;

        self.entries.get(&key)
    }

    /// Sets the entry of `key`.
    pub fn insert(&mut self, key: u64, value: V)
        ensures
            final(self)@ == old(self)@.insert(key, value),
    {
        broadcast use vstd::std_specs::hash::group_hash_axioms;

        let _ = self.entries.insert(key, value);
    }

    /// Takes out the entry of `key`.
    pub fn remove(&mut self, key: u64) -> (r: Option<V>)
        ensures
            final(self)@ == old(self)@.remove(key),
            r is Some <==> old(self)@.contains_key(key),
            r matches Some(v) ==> v == old(self)@[key],
    {
        broadcast use vstd::std_specs::hash::group_hash_axioms;

        self.entries.remove(&key)
    }

    /// The keys, each once, in no particular order.
    pub fn keys(&self) -> (r: Vec<u64>)
        ensures
            r@.no_duplicates(),
            forall|k: u64| r@.contains(k) <==> #[trigger] self@.contains_key(k),
            r@.len() == self@.dom().len(),
            self@.dom().finite(),
    {
        broadcast use vstd::std_specs::hash::group_hash_axioms;

        let mut keys: Vec<u64> = Vec::new();
        let iter = self.entries.keys();
        for key in it: iter
            invariant
                keys@.len() == it.index(),
                forall|i: int| 0 <= i < keys@.len() ==> keys@[i] == *it.seq()[i],
        {
            keys.push(*key);
        }
        proof {
            let all = vstd::std_specs::iter::IteratorSpec::remaining(
                &vstd::std_specs::hash::spec_keys_iter(&self.entries),
            ).unref();
            assert(keys@ =~= all);
            assert forall|k: u64| keys@.contains(k) <==> #[trigger] self@.contains_key(k) by {
                assert(all.to_set().contains(k) <==> all.contains(k));
                assert(self@.dom().contains(k) <==> self@.contains_key(k));
            }
        }
        keys
    }
}

} // verus!
