//! Stores of sets of values under keys, and a bounded one that forgets the
//! least recently used keys.

use vstd::prelude::*;
use std::collections::HashSet;

verus! {

broadcast use vstd::std_specs::hash::group_hash_axioms;

/// A store of sets of values under keys.
pub trait Store<K, V> {
    fn insert(&mut self, key: K, value: V) -> bool;
    fn get(&mut self, key: &K) -> Option<&HashSet<V>>;
    fn remove(&mut self, key: K, value: V) -> bool;
}

/// A `Store` that keeps at most `capacity` keys, forgetting the least
/// recently used key when it would hold more.
pub struct LruSet<K, V> {
    capacity: usize,
    // least recently used first
    entries: Vec<(K, HashSet<V>)>,
}

/// The entries of `s` but the one under `key`.
pub open spec fn without_key(s: Seq<(u64, Set<u64>)>, key: u64) -> Seq<(u64, Set<u64>)>
    decreases s.len(),
{
    if s.len() == 0 {
        s
    } else if s.last().0 == key {
        without_key(s.drop_last(), key)
    } else {
        without_key(s.drop_last(), key).push(s.last())
    }
}

/// The set kept under `key` in `s`, if any (the last one).
pub open spec fn lookup(s: Seq<(u64, Set<u64>)>, key: u64) -> Option<Set<u64>>
    decreases s.len(),
{
    if s.len() == 0 {
        None
    } else if s.last().0 == key {
        Some(s.last().1)
    } else {
        lookup(s.drop_last(), key)
    }
}

/// `s` with `set` kept under `key` as the most recently used entry, the
/// least recently used entry dropped when more than `capacity` remain.
pub open spec fn lru_put(s: Seq<(u64, Set<u64>)>, capacity: nat, key: u64, set: Set<u64>) -> Seq<(u64, Set<u64>)> {
    let t = without_key(s, key).push((key, set));
    if t.len() > capacity { t.drop_first() } else { t }
}

/// `s` with the entry under `key`, if any, made the most recently used.
pub open spec fn lru_touch(s: Seq<(u64, Set<u64>)>, key: u64) -> Seq<(u64, Set<u64>)> {
    match lookup(s, key) {
        Some(set) => without_key(s, key).push((key, set)),
        None => s,
    }
}

/// No key is kept twice.
pub open spec fn distinct_keys(s: Seq<(u64, Set<u64>)>) -> bool {
    forall|a: int, b: int| 0 <= a < b < s.len() ==> s[a].0 != s[b].0
}

/// A key kept once: its entry is the one found, and dropping the key drops
/// just that entry.
proof fn lemma_key_at(s: Seq<(u64, Set<u64>)>, i: int)
    requires
        0 <= i < s.len(),
        distinct_keys(s),
    ensures
        without_key(s, s[i].0) == s.remove(i),
        lookup(s, s[i].0) == Some(s[i].1),
    decreases s.len(),
{
    let k = s[i].0;
    if i == s.len() - 1 {
        lemma_key_absent(s.drop_last(), k);
        assert(s.remove(i) =~= s.drop_last());
    } else {
        lemma_key_at(s.drop_last(), i);
        assert(s.remove(i) =~= s.drop_last().remove(i).push(s.last()));
    }
}

/// A key that is not kept is found nowhere, and dropping it keeps all.
proof fn lemma_key_absent(s: Seq<(u64, Set<u64>)>, k: u64)
    requires
        forall|j: int| 0 <= j < s.len() ==> s[j].0 != k,
    ensures
        without_key(s, k) == s,
        lookup(s, k) is None,
    decreases s.len(),
{
    if s.len() > 0 {
        lemma_key_absent(s.drop_last(), k);
        assert(s =~= s.drop_last().push(s.last()));
    }
}

/// The entries of a store as keys and sets.
pub open spec fn entry_views(e: Seq<(u64, HashSet<u64>)>) -> Seq<(u64, Set<u64>)> {
    e.map_values(|x: (u64, HashSet<u64>)| (x.0, x.1@))
}

impl<K, V> LruSet<K, V> {
    /// Each key is kept once, and at most `capacity` keys are kept.
    #[verifier::type_invariant]
    spec fn keys_bounded(&self) -> bool {
        &&& forall|a: int, b: int| 0 <= a < b < self.entries.len() ==> self.entries@[a].0 != self.entries@[b].0
        &&& self.entries.len() <= self.capacity
    }
}

impl LruSet<u64, u64> {
    /// The entries, least recently used first.
    pub closed spec fn view(&self) -> Seq<(u64, Set<u64>)> {
        entry_views(self.entries@)
    }

    /// The most keys kept.
    pub closed spec fn capacity(&self) -> nat {
        self.capacity as nat
    }

    pub fn with_capacity(i: usize) -> (r: LruSet<u64, u64>)
        ensures
            r@ == Seq::<(u64, Set<u64>)>::empty(),
            r.capacity() == i,
    {
        let r = LruSet { capacity: i, entries: Vec::new() };
        assert(r@ =~= Seq::<(u64, Set<u64>)>::empty());
        r
    }

    /// The index of the entry of `key`, if it is kept.
    fn position(&self, key: u64) -> (r: Option<usize>)
        ensures
            match r {
                Some(i) => i < self@.len() && self@[i as int].0 == key,
                None => forall|j: int| 0 <= j < self@.len() ==> self@[j].0 != key,
            },
    {
        let mut i: usize = 0;
        while i < self.entries.len()
            invariant
                i <= self.entries.len(),
                forall|k: int| 0 <= k < i ==> self@[k].0 != key,
            decreases self.entries.len() - i,
        {
            if self.entries[i].0 == key {
                return Some(i);
            }
            i = i + 1;
        }
        None
    }
}

/// Entries whose keys are distinct have views whose keys are distinct.
proof fn lemma_views_distinct(e: Seq<(u64, HashSet<u64>)>)
    requires
        forall|a: int, b: int| 0 <= a < b < e.len() ==> e[a].0 != e[b].0,
    ensures
        distinct_keys(entry_views(e)),
{
    assert forall|a: int, b: int| 0 <= a < b < entry_views(e).len() implies entry_views(e)[a].0 != entry_views(e)[b].0 by {
        assert(entry_views(e)[a].0 == e[a].0);
        assert(entry_views(e)[b].0 == e[b].0);
    }
}

/// Removing an entry keeps the keys distinct.
proof fn lemma_distinct_remove(s: Seq<(u64, Set<u64>)>, i: int)
    requires
        0 <= i < s.len(),
        distinct_keys(s),
    ensures
        distinct_keys(s.remove(i)),
{
    assert forall|a: int, b: int| 0 <= a < b < s.remove(i).len() implies s.remove(i)[a].0 != s.remove(i)[b].0 by {
        let oa = if a < i { a } else { a + 1 };
        let ob = if b < i { b } else { b + 1 };
        assert(s.remove(i)[a] == s[oa]);
        assert(s.remove(i)[b] == s[ob]);
    }
}

impl Store<u64, u64> for LruSet<u64, u64> {
    /// Keeps the set `{value}` under `key` (a set kept there before is
    /// replaced), as the most recently used entry. True when `value` was not
    /// in the set kept there before, or nothing was.
    fn insert(&mut self, key: u64, value: u64) -> (r: bool)
        ensures
            final(self).capacity() == old(self).capacity(),
            final(self)@ == lru_put(old(self)@, old(self).capacity(), key, set![value]),
            r == match lookup(old(self)@, key) {
                Some(s) => !s.contains(value),
                None => true,
            },
    {
        proof {
            use_type_invariant(&*self);
            lemma_views_distinct(self.entries@);
        }
        let ghost before = self@;
        let pos = self.position(key);
        let mut entries: Vec<(u64, HashSet<u64>)> = Vec::new();
        std::mem::swap(&mut entries, &mut self.entries);
        let mut set: HashSet<u64> = HashSet::new();
        set.insert(value);
        let r = match pos {
            Some(i) => {
                proof {
                    lemma_key_at(before, i as int);
                    lemma_distinct_remove(before, i as int);
                }
                let (_, old_set) = entries.remove(i);
                proof { assert(entry_views(entries@) =~= before.remove(i as int)); }
                !old_set.contains(&value)
            },
            None => {
                proof { lemma_key_absent(before, key); }
                if entries.len() >= self.capacity && entries.len() > 0 {
                    proof { lemma_distinct_remove(before, 0); }
                    entries.remove(0);
                    proof { assert(entry_views(entries@) =~= before.remove(0)); }
                }
                true
            },
        };
        let ghost middle = entry_views(entries@);
        if self.capacity > 0 {
            entries.push((key, set));
            proof {
                assert(entry_views(entries@) =~= middle.push((key, set![value])));
            }
        }
        proof {
            assert forall|a: int, b: int| 0 <= a < b < entries.len() implies entries@[a].0 != entries@[b].0 by {
                assert(entries@[a].0 == entry_views(entries@)[a].0);
                assert(entries@[b].0 == entry_views(entries@)[b].0);
            }
        }
        self.entries = entries;
        r
    }

    /// The set kept under `key`, made the most recently used entry.
    fn get(&mut self, key: &u64) -> (r: Option<&HashSet<u64>>)
        ensures
            final(self).capacity() == old(self).capacity(),
            final(self)@ == lru_touch(old(self)@, *key),
            match r {
                Some(s) => lookup(old(self)@, *key) == Some(s@),
                None => lookup(old(self)@, *key) is None,
            },
    {
        proof {
            use_type_invariant(&*self);
            lemma_views_distinct(self.entries@);
        }
        let ghost before = self@;
        match self.position(*key) {
            Some(i) => {
                proof {
                    lemma_key_at(before, i as int);
                    lemma_distinct_remove(before, i as int);
                }
                let mut entries: Vec<(u64, HashSet<u64>)> = Vec::new();
                std::mem::swap(&mut entries, &mut self.entries);
                let e = entries.remove(i);
                entries.push(e);
                proof {
                    assert(entry_views(entries@) =~= before.remove(i as int).push(before[i as int]));
                    assert forall|a: int, b: int| 0 <= a < b < entries.len() implies entries@[a].0 != entries@[b].0 by {
                        assert(entries@[a].0 == entry_views(entries@)[a].0);
                        assert(entries@[b].0 == entry_views(entries@)[b].0);
                    }
                }
                self.entries = entries;
                let n = self.entries.len();
                Some(&self.entries[n - 1].1)
            },
            None => {
                proof { lemma_key_absent(before, *key); }
                None
            },
        }
    }

    /// Does nothing: the set under `key` is left as it is.
    fn remove(&mut self, key: u64, value: u64) -> (r: bool)
        ensures
            r,
            final(self)@ == old(self)@,
            final(self).capacity() == old(self).capacity(),
    {
        true
    }
}

} // verus!
