//! Maps that serve as an index of values by key.

use vstd::prelude::*;
use std::collections::HashMap;
use std::hash::Hash;
use vstd::std_specs::hash::obeys_key_model;

verus! {

broadcast use vstd::std_specs::hash::group_hash_axioms;

/// An index of values by key.
pub trait Indexable<K, V> {
    /// The values kept, by key.
    spec fn kept(&self) -> Map<K, V>;

    /// Whether the keys behave as values, so that what is kept is known.
    spec fn keys_lawful(&self) -> bool;

    /// The value kept under `key`, if any.
    fn find(&self, key: &K) -> (r: Option<&V>)
        ensures
            self.keys_lawful() ==> match r {
                Some(v) => self.kept().contains_key(*key) && *v == self.kept()[*key],
                None => !self.kept().contains_key(*key),
            },
    ;

    /// Keeps `value` under `key`, replacing what was there; true when no
    /// value was kept under `key`.
    fn insert(&mut self, key: K, value: V) -> (r: bool)
        ensures
            old(self).keys_lawful() ==> {
                &&& final(self).keys_lawful()
                &&& final(self).kept() == old(self).kept().insert(key, value)
                &&& r == !old(self).kept().contains_key(key)
            },
    ;

    /// Drops what is kept under `key`; true when something was.
    fn remove(&mut self, key: &K) -> (r: bool)
        ensures
            old(self).keys_lawful() ==> {
                &&& final(self).keys_lawful()
                &&& final(self).kept() == old(self).kept().remove(*key)
                &&& r == old(self).kept().contains_key(*key)
            },
    ;
}

impl<K: Hash + Eq, V> Indexable<K, V> for HashMap<K, V> {
    open spec fn kept(&self) -> Map<K, V> {
        self@
    }

    /// The keys hash and compare as their values.
    open spec fn keys_lawful(&self) -> bool {
        obeys_key_model::<K>()
    }

    fn find(&self, key: &K) -> (r: Option<&V>) {
        self.get(key)
    }

    fn insert(&mut self, key: K, value: V) -> (r: bool) {
        HashMap::insert(self, key, value).is_none()
    }

    fn remove(&mut self, key: &K) -> (r: bool) {
        HashMap::remove(self, key).is_some()
    }
}

} // verus!
