//! Value stores, keyed by value identifiers.

use vstd::prelude::*;
use vstd::bytes::{spec_u64_to_le_bytes, u64_to_le_bytes};
use std::collections;
use std::marker::PhantomData;
use crate::hashing::{sip_hash, sip_hash_bytes, fnv_hash, fnv1a};

verus! {

broadcast use vstd::std_specs::hash::group_hash_axioms;

/// A store that maps identifiers to values.
pub trait IDMap<ID, T> {
    /// Whether the store holds a value under `id`.
    spec fn holds(&self, id: ID) -> bool;

    /// The value stored under `id`.
    fn get(&self, id: ID) -> T
        requires
            self.holds(id);

    /// Stores `value` under `id`, replacing what was there.
    fn insert(&mut self, id: ID, value: T);

    /// Drops whatever is stored under `id`.
    fn remove(&mut self, id: &ID);
}

/// Values that can be turned into an identifier.
pub trait ToID<T> {
    fn to_id(self) -> T;
}

impl ToID<u8> for u8 {
    /// A scalar is its own identifier.
    fn to_id(self) -> (r: u8)
        ensures
            r == self,
    {
        self
    }
}

impl ToID<u16> for u16 {
    /// A scalar is its own identifier.
    fn to_id(self) -> (r: u16)
        ensures
            r == self,
    {
        self
    }
}

impl ToID<u32> for u32 {
    /// A scalar is its own identifier.
    fn to_id(self) -> (r: u32)
        ensures
            r == self,
    {
        self
    }
}

impl ToID<u64> for u64 {
    /// A scalar is its own identifier.
    fn to_id(self) -> (r: u64)
        ensures
            r == self,
    {
        self
    }
}

/// The identifier of a byte vector: the SipHash of its bytes.
pub open spec fn vec_id(bytes: Seq<u8>) -> u64 {
    sip_hash_bytes(bytes)
}

impl ToID<u64> for Vec<u8> {
    /// Hashes the elements with SipHash (suited to large values).
    fn to_id(self) -> (r: u64)
        ensures
            r == vec_id(self@),
    {
        sip_hash(self.as_slice())
    }
}

/// The little-endian bytes of `words`, one word after the other.
pub open spec fn words_bytes(words: Seq<u64>) -> Seq<u8>
    decreases words.len(),
{
    if words.len() == 0 {
        Seq::empty()
    } else {
        words_bytes(words.drop_last()) + spec_u64_to_le_bytes(words.last())
    }
}

/// The bytes hashed for an array of words: its length, then its words, all
/// as little-endian `u64`s.
pub open spec fn array_id_bytes(words: Seq<u64>) -> Seq<u8> {
    spec_u64_to_le_bytes(words.len() as u64) + words_bytes(words)
}

/// The FNV-1a hash of an array of words (suited to small values).
fn array_id(words: &[u64]) -> (r: u64)
    ensures
        r == fnv1a(array_id_bytes(words@)),
{
    let mut bytes = u64_to_le_bytes(words.len() as u64);
    let ghost prefix = bytes@;
    let mut i: usize = 0;
    while i < words.len()
        invariant
            i <= words.len(),
            prefix == spec_u64_to_le_bytes(words@.len() as u64),
            bytes@ == prefix + words_bytes(words@.subrange(0, i as int)),
        decreases words.len() - i,
    {
        let mut word_bytes = u64_to_le_bytes(words[i]);
        bytes.append(&mut word_bytes);
        proof {
            assert(words@.subrange(0, i + 1).drop_last() =~= words@.subrange(0, i as int));
            assert(bytes@ =~= prefix + words_bytes(words@.subrange(0, i + 1)));
        }
        i = i + 1;
    }
    proof { assert(words@.subrange(0, words@.len() as int) =~= words@); }
    fnv_hash(bytes.as_slice())
}

impl ToID<u64> for [u64; 2] {
    /// Hashes the words with FNV-1a.
    fn to_id(self) -> (r: u64)
        ensures
            r == fnv1a(array_id_bytes(self@)),
    {
        array_id(self.as_slice())
    }
}

impl ToID<u64> for [u64; 4] {
    /// Hashes the words with FNV-1a.
    fn to_id(self) -> (r: u64)
        ensures
            r == fnv1a(array_id_bytes(self@)),
    {
        array_id(self.as_slice())
    }
}

/// An `IDMap` whose identifiers are the values themselves: it stores nothing.
pub struct Echo<T> {
    t: PhantomData<T>,
}

impl<T> Echo<T> {
    pub fn new() -> Echo<T> {
        Echo { t: PhantomData }
    }
}

impl<T> IDMap<T, T> for Echo<T> {
    open spec fn holds(&self, id: T) -> bool {
        true
    }

    /// The identifier is the value.
    fn get(&self, id: T) -> (r: T)
        ensures
            r == id,
    {
        id
    }

    /// Nothing is stored.
    fn insert(&mut self, id: T, value: T)
        ensures
            *final(self) == *old(self),
    {
    }

    /// Nothing is stored.
    fn remove(&mut self, id: &T)
        ensures
            *final(self) == *old(self),
    {
    }
}

/// An in-memory `IDMap` kept in a hash map.
pub struct HashMap<K, V> {
    data: collections::HashMap<K, V>,
}

impl<V> HashMap<u64, V> {
    /// The stored values, by identifier.
    pub closed spec fn view(&self) -> Map<u64, V> {
        self.data@
    }

    /// An empty store.
    pub fn new() -> (r: HashMap<u64, V>)
        ensures
            r.view() == Map::<u64, V>::empty(),
    {
        HashMap { data: collections::HashMap::new() }
    }

    /// An empty store with room for `capacity` values.
    pub fn with_capacity(capacity: usize) -> (r: HashMap<u64, V>)
        ensures
            r.view() == Map::<u64, V>::empty(),
    {
        HashMap { data: collections::HashMap::with_capacity(capacity) }
    }
}

impl<V> Default for HashMap<u64, V> {
    /// An empty store.
    fn default() -> (r: Self)
        ensures
            r.view() == Map::<u64, V>::empty(),
    {
        HashMap::new()
    }
}

impl HashMap<u64, Vec<u8>> {
    /// Whether a value is stored under `id`.
    pub fn holds_id(&self, id: u64) -> (r: bool)
        ensures
            r == self.view().contains_key(id),
    {
        self.data.contains_key(&id)
    }
}

impl IDMap<u64, Vec<u8>> for HashMap<u64, Vec<u8>> {
    open spec fn holds(&self, id: u64) -> bool {
        self.view().contains_key(id)
    }

    /// A copy of the value stored under `id`.
    fn get(&self, id: u64) -> (r: Vec<u8>)
        ensures
            r@ == self.view()[id]@,
    {
        self.data.get(&id).unwrap().clone()
    }

    fn insert(&mut self, id: u64, value: Vec<u8>)
        ensures
            final(self).view() == old(self).view().insert(id, value),
    {
        self.data.insert(id, value);
    }

    fn remove(&mut self, id: &u64)
        ensures
            final(self).view() == old(self).view().remove(*id),
    {
        self.data.remove(id);
    }
}

} // verus!
