//! Maps from keys to sets of values.
//!
//! `MapSet` combines a map and a set: values are inserted into and removed
//! from the set kept under a key, with the semantics of a set, and a key whose
//! set becomes empty disappears from the map.

use vstd::prelude::*;
use std::collections::{HashMap, HashSet};
use vstd::std_specs::iter::IteratorSpec;

verus! {

broadcast use vstd::std_specs::hash::group_hash_axioms;

/// A map from keys to sets of values.
pub trait MapSet<K, V> {
    /// Adds `value` to the set under `key`; true when it was not there.
    fn insert(&mut self, key: K, value: V) -> bool;

    /// A copy of the set under `key`, or `None` when no value is kept there.
    fn get(&self, key: &K) -> Option<HashSet<V>>;

    /// Takes `value` out of the set under `key`; true when it was there.
    fn remove(&mut self, key: &K, value: &V) -> bool;
}

/// An in-memory `MapSet` kept in a hash map of hash sets.
pub struct InMemoryHash<K, V> {
    data: HashMap<K, HashSet<V>>,
}

/// The set under `key` in `m`, empty where `m` keeps none.
pub open spec fn set_at(m: Map<u64, Set<u64>>, key: u64) -> Set<u64> {
    if m.contains_key(key) { m[key] } else { Set::empty() }
}

/// `m` after adding `value` to the set under `key`.
pub open spec fn map_set_insert(m: Map<u64, Set<u64>>, key: u64, value: u64) -> Map<u64, Set<u64>> {
    m.insert(key, set_at(m, key).insert(value))
}

/// `m` after taking `value` out of the set under `key`; a key left with an
/// empty set is dropped.
pub open spec fn map_set_remove(m: Map<u64, Set<u64>>, key: u64, value: u64) -> Map<u64, Set<u64>> {
    if !m.contains_key(key) {
        m
    } else if m[key].remove(value).is_empty() {
        m.remove(key)
    } else {
        m.insert(key, m[key].remove(value))
    }
}

impl InMemoryHash<u64, u64> {
    /// The sets kept under each key.
    pub closed spec fn view(&self) -> Map<u64, Set<u64>> {
        self.data@.map_values(|s: HashSet<u64>| s@)
    }

    /// No key keeps an empty set, and every set is finite.
    pub closed spec fn wf(&self) -> bool {
        &&& self.data@.dom().finite()
        &&& forall|k: u64| #[trigger] self.data@.contains_key(k)
                ==> !self.data@[k]@.is_empty() && self.data@[k]@.finite()
    }

    /// Every kept set is non-empty and finite.
    pub proof fn lemma_wf(&self)
        requires
            self.wf(),
        ensures
            self.view().dom().finite(),
            forall|k: u64| #[trigger] self.view().contains_key(k)
                ==> !self.view()[k].is_empty() && self.view()[k].finite(),
    {
        assert(self.view().dom() =~= self.data@.dom());
    }

    /// An empty map of sets.
    pub fn new() -> (r: Self)
        ensures
            r.wf(),
            r.view() == Map::<u64, Set<u64>>::empty(),
    {
        let r = InMemoryHash { data: HashMap::new() };
        assert(r.view() =~= Map::<u64, Set<u64>>::empty());
        r
    }
}

/// A copy of `s`.
fn copy_set(s: &HashSet<u64>) -> (r: HashSet<u64>)
    ensures
        r@ == s@,
{
    let mut r: HashSet<u64> = HashSet::new();
    let ghost keys = s.iter().remaining().unref();
    for x in it: s.iter()
        invariant
            keys == it.seq().unref(),
            keys.to_set() == s@,
            forall|i: int| 0 <= i < it.index() ==> r@.contains(#[trigger] keys[i]),
            forall|y: u64| r@.contains(y) ==> exists|i: int| 0 <= i < it.index() && keys[i] == y,
    {
        r.insert(*x);
    }
    assert(r@ =~= s@) by {
        assert forall|y: u64| s@.contains(y) implies r@.contains(y) by {
            let i = choose|i: int| 0 <= i < keys.len() && keys[i] == y;
        }
    }
    r
}

/// The elements of `s`, each once, in the order the set yields them.
pub(crate) fn set_elements(s: &HashSet<u64>) -> (r: Vec<u64>)
    ensures
        r@.no_duplicates(),
        r@.to_set() == s@,
{
    let mut r: Vec<u64> = Vec::new();
    let ghost keys = s.iter().remaining().unref();
    proof {
        assert(keys.no_duplicates()) by {
            let rem = s.iter().remaining();
            assert forall|a: int, b: int| 0 <= a < b < keys.len() implies keys[a] != keys[b] by {
                assert(keys[a] == *rem[a]);
                assert(keys[b] == *rem[b]);
            }
        }
    }
    for x in it: s.iter()
        invariant
            keys == it.seq().unref(),
            keys.to_set() == s@,
            keys.no_duplicates(),
            r@ == keys.subrange(0, it.index() as int),
    {
        r.push(*x);
        proof { assert(r@ =~= keys.subrange(0, it.index() + 1)); }
    }
    proof { assert(r@ =~= keys); }
    r
}

impl Default for InMemoryHash<u64, u64> {
    /// An empty map of sets.
    fn default() -> (r: Self)
        ensures
            r.wf(),
            r.view() == Map::<u64, Set<u64>>::empty(),
    {
        InMemoryHash::new()
    }
}

impl MapSet<u64, u64> for InMemoryHash<u64, u64> {
    /// Adds `value` to the set under `key`, creating the set when needed.
    fn insert(&mut self, key: u64, value: u64) -> (r: bool)
        ensures
            old(self).wf() ==> final(self).wf(),
            final(self).view() == map_set_insert(old(self).view(), key, value),
            r == !set_at(old(self).view(), key).contains(value),
    {
        let ghost old_view = self.view();
        let mut set: HashSet<u64> = match self.data.remove(&key) {
            Some(s) => s,
            None => HashSet::new(),
        };
        let r = set.insert(value);
        self.data.insert(key, set);
        assert(self.view() =~= map_set_insert(old_view, key, value));
        r
    }

    /// A copy of the set under `key`.
    fn get(&self, key: &u64) -> (r: Option<HashSet<u64>>)
        ensures
            match r {
                Some(s) => self.view().contains_key(*key) && s@ == self.view()[*key],
                None => !self.view().contains_key(*key),
            },
    {
        match self.data.get(key) {
            Some(h) => Some(copy_set(h)),
            None => None,
        }
    }

    /// Takes `value` out of the set under `key`, dropping the key when its
    /// set becomes empty.
    fn remove(&mut self, key: &u64, value: &u64) -> (r: bool)
        ensures
            old(self).wf() ==> final(self).wf(),
            final(self).view() == map_set_remove(old(self).view(), *key, *value),
            r == set_at(old(self).view(), *key).contains(*value),
    {
        let ghost old_view = self.view();
        match self.data.remove(key) {
            None => {
                assert(self.view() =~= old_view);
                false
            },
            Some(mut set) => {
                let r = set.remove(value);
                if !set.is_empty() {
                    self.data.insert(*key, set);
                    assert(self.view() =~= map_set_remove(old_view, *key, *value));
                } else {
                    assert(self.view() =~= map_set_remove(old_view, *key, *value));
                }
                r
            },
        }
    }
}


/// After inserting `v` under `k`, the set under `k` holds `v`.
pub proof fn lemma_inserted_exists(m: Map<u64, Set<u64>>, k: u64, v: u64)
    ensures
        set_at(map_set_insert(m, k, v), k).contains(v),
{
}

/// Inserting `v1` under `k` adds no other value there.
pub proof fn lemma_not_inserted_no_exists(m: Map<u64, Set<u64>>, k: u64, v1: u64, v2: u64)
    requires
        v1 != v2,
    ensures
        set_at(map_set_insert(m, k, v1), k).contains(v2) == set_at(m, k).contains(v2),
{
}

/// Inserting under `k1` leaves the set under another key as it was.
pub proof fn lemma_key_not_inserted_unchanged(m: Map<u64, Set<u64>>, k1: u64, k2: u64, v: u64)
    requires
        k1 != k2,
    ensures
        set_at(map_set_insert(m, k1, v), k2) == set_at(m, k2),
        map_set_insert(m, k1, v).contains_key(k2) == m.contains_key(k2),
{
}

/// After removing `v` from under `k`, the set under `k` does not hold `v`,
/// and still holds every other value it held.
pub proof fn lemma_removed_no_exists(m: Map<u64, Set<u64>>, k: u64, v: u64, w: u64)
    requires
        v != w,
    ensures
        !set_at(map_set_remove(m, k, v), k).contains(v),
        set_at(map_set_remove(m, k, v), k).contains(w) == set_at(m, k).contains(w),
{
    if m.contains_key(k) && m[k].remove(v).is_empty() {
        assert(!m[k].remove(v).contains(w));
    }
}

/// A key whose set loses its last value is no longer kept.
pub proof fn lemma_key_removed_no_exists(m: Map<u64, Set<u64>>, k: u64, v: u64)
    requires
        set_at(m, k) == set![v],
    ensures
        !map_set_remove(m, k, v).contains_key(k),
{
    assert(set![v].remove(v) =~= Set::<u64>::empty());
}

/// Removing under `k1` leaves the set under another key as it was.
pub proof fn lemma_key_not_removed_unchanged(m: Map<u64, Set<u64>>, k1: u64, k2: u64, v: u64)
    requires
        k1 != k2,
    ensures
        set_at(map_set_remove(m, k1, v), k2) == set_at(m, k2),
{
}

} // verus!
