//! Accumulation of the candidates met while querying the partitions.

use vstd::prelude::*;
use std::collections::HashSet;
use crate::hamming::{Hamming, vec_hamming};

verus! {

/// Collects the values found by the partitions of a query, counting for each
/// value its exact-matching and 1-matching partitions, and keeps those that
/// the HmSearch filter and the Hamming distance accept.
pub struct ResultAccumulator<V> {
    tolerance: usize,
    query: V,
    values: Vec<V>,
    counts: Vec<(usize, usize)>,
}

/// The map of candidates to their (exact, one) match counts that a list of
/// entries describes, later entries overriding earlier ones.
pub open spec fn entries_map(values: Seq<Seq<u8>>, counts: Seq<(nat, nat)>) -> Map<Seq<u8>, (nat, nat)>
    decreases values.len(),
{
    if values.len() == 0 {
        Map::empty()
    } else {
        entries_map(values.drop_last(), counts.drop_last()).insert(values.last(), counts[values.len() - 1])
    }
}

/// The HmSearch acceptance rule for a candidate with `exact` exact-matching
/// and `one` 1-matching partitions.
///
/// "If k is an even number, S must have at least one exact-matching
/// partition, or two 1-matching partitions. If k is an odd number, S must
/// have at least two matching partitions where at least one of the matches
/// should be an exact match, or S must have at least three 1-matching
/// partitions."
pub open spec fn accepted(tolerance: nat, exact: nat, one: nat) -> bool {
    if tolerance % 2 == 0 {
        exact >= 1 || one >= 2
    } else {
        (exact >= 1 && exact + one >= 2) || one >= 3
    }
}

/// The candidates of `acc` that pass the acceptance rule and lie within
/// `tolerance` of `query`.
pub open spec fn found_set(acc: Map<Seq<u8>, (nat, nat)>, query: Seq<u8>, tolerance: nat) -> Set<Seq<u8>> {
    Set::new(|v: Seq<u8>| acc.contains_key(v) && accepted(tolerance, acc[v].0, acc[v].1)
        && vec_hamming(query, v) <= tolerance)
}

/// `acc` after counting one more exact-matching partition for `v`.
pub open spec fn add_zero(acc: Map<Seq<u8>, (nat, nat)>, v: Seq<u8>) -> Map<Seq<u8>, (nat, nat)> {
    if acc.contains_key(v) { acc.insert(v, (acc[v].0 + 1, acc[v].1)) } else { acc.insert(v, (1nat, 0nat)) }
}

/// `acc` after counting one more 1-matching partition for `v`.
pub open spec fn add_one(acc: Map<Seq<u8>, (nat, nat)>, v: Seq<u8>) -> Map<Seq<u8>, (nat, nat)> {
    if acc.contains_key(v) { acc.insert(v, (acc[v].0, acc[v].1 + 1)) } else { acc.insert(v, (0nat, 1nat)) }
}

/// `acc` after counting each of `calls` in turn: a call `(v, true)` counts
/// an exact-matching partition for `v`, `(v, false)` a 1-matching one.
pub open spec fn apply_calls(acc: Map<Seq<u8>, (nat, nat)>, calls: Seq<(Seq<u8>, bool)>) -> Map<Seq<u8>, (nat, nat)>
    decreases calls.len(),
{
    if calls.len() == 0 {
        acc
    } else {
        let prev = apply_calls(acc, calls.drop_last());
        if calls.last().1 { add_zero(prev, calls.last().0) } else { add_one(prev, calls.last().0) }
    }
}

/// The number of `calls` that count an exact match (`exact`) or a 1-match
/// (`!exact`) for `v`.
pub open spec fn calls_for(calls: Seq<(Seq<u8>, bool)>, v: Seq<u8>, exact: bool) -> nat
    decreases calls.len(),
{
    if calls.len() == 0 {
        0
    } else {
        calls_for(calls.drop_last(), v, exact) + if calls.last() == (v, exact) { 1nat } else { 0nat }
    }
}

/// Counting calls from an empty accumulator keeps, for each value, the
/// numbers of exact and 1-matching calls for it; the values found are then
/// those whose counts pass the acceptance rule and that lie within the
/// tolerance of the query.
pub proof fn lemma_accumulated_calls(calls: Seq<(Seq<u8>, bool)>, query: Seq<u8>, tolerance: nat)
    ensures
        forall|v: Seq<u8>| #[trigger] apply_calls(Map::empty(), calls).contains_key(v)
            <==> calls_for(calls, v, true) + calls_for(calls, v, false) > 0,
        forall|v: Seq<u8>| #[trigger] apply_calls(Map::empty(), calls).contains_key(v)
            ==> apply_calls(Map::empty(), calls)[v] == (calls_for(calls, v, true), calls_for(calls, v, false)),
        found_set(apply_calls(Map::empty(), calls), query, tolerance) == Set::new(|v: Seq<u8>|
            accepted(tolerance, calls_for(calls, v, true), calls_for(calls, v, false))
                && vec_hamming(query, v) <= tolerance),
    decreases calls.len(),
{
    if calls.len() > 0 {
        lemma_accumulated_calls(calls.drop_last(), query, tolerance);
    }
    let acc = apply_calls(Map::empty(), calls);
    assert forall|v: Seq<u8>| #[trigger] acc.contains_key(v)
        <==> calls_for(calls, v, true) + calls_for(calls, v, false) > 0 by {}
    let target = Set::new(|v: Seq<u8>|
        accepted(tolerance, calls_for(calls, v, true), calls_for(calls, v, false))
            && vec_hamming(query, v) <= tolerance);
    assert forall|v: Seq<u8>| #[trigger] found_set(acc, query, tolerance).contains(v) <==> target.contains(v) by {
        if !acc.contains_key(v) {
            assert(calls_for(calls, v, true) == 0 && calls_for(calls, v, false) == 0);
        } else {
            assert(acc[v] == (calls_for(calls, v, true), calls_for(calls, v, false)));
        }
    }
    assert(found_set(acc, query, tolerance) =~= target);
}

/// The views of the vectors in `s`.
pub open spec fn views(s: Seq<Vec<u8>>) -> Seq<Seq<u8>> {
    s.map_values(|v: Vec<u8>| v@)
}

/// A set of byte vectors as the set of their contents.
pub open spec fn set_views(s: Set<Vec<u8>>) -> Set<Seq<u8>> {
    s.map(|v: Vec<u8>| v@)
}

/// Collects `values` into a `HashSet` with `HashSet::from_iter`.
///
/// Claims what the standard library documents: the set holds exactly the
/// given vectors, equal vectors (equal contents) kept once.
#[verifier::external_body]
fn hash_set_from(values: Vec<Vec<u8>>) -> (r: HashSet<Vec<u8>>)
    ensures
        set_views(r@) == views(values@).to_set(),
{
    HashSet::from_iter(values)
}

/// The candidates among the first `n` of `values` that lie in `found` are
/// exactly the elements of `m`.
spec fn matches_prefix(m: Seq<Seq<u8>>, found: Set<Seq<u8>>, values: Seq<Seq<u8>>, n: int) -> bool {
    forall|w: Seq<u8>| m.contains(w) <==>
        (found.contains(w) && exists|k: int| 0 <= k < n && values[k] == w)
}

/// Whether two byte vectors hold the same bytes.
pub fn bytes_equal(a: &Vec<u8>, b: &Vec<u8>) -> (r: bool)
    ensures
        r == (a@ == b@),
{
    if a.len() != b.len() {
        return false;
    }
    let mut i: usize = 0;
    while i < a.len()
        invariant
            a.len() == b.len(),
            i <= a.len(),
            forall|k: int| 0 <= k < i ==> a@[k] == b@[k],
        decreases a.len() - i,
    {
        if a[i] != b[i] {
            return false;
        }
        i = i + 1;
    }
    assert(a@ =~= b@);
    true
}

proof fn lemma_entries_map_key(values: Seq<Seq<u8>>, counts: Seq<(nat, nat)>, i: int)
    requires
        values.len() == counts.len(),
        values.no_duplicates(),
        0 <= i < values.len(),
    ensures
        entries_map(values, counts).contains_key(values[i]),
        entries_map(values, counts)[values[i]] == counts[i],
    decreases values.len(),
{
    if i < values.len() - 1 {
        lemma_entries_map_key(values.drop_last(), counts.drop_last(), i);
    }
}

proof fn lemma_entries_map_dom(values: Seq<Seq<u8>>, counts: Seq<(nat, nat)>, v: Seq<u8>)
    requires
        values.len() == counts.len(),
    ensures
        entries_map(values, counts).contains_key(v) <==> values.contains(v),
    decreases values.len(),
{
    if values.len() > 0 {
        lemma_entries_map_dom(values.drop_last(), counts.drop_last(), v);
        if values.drop_last().contains(v) {
            let k = choose|k: int| 0 <= k < values.drop_last().len() && values.drop_last()[k] == v;
            assert(values[k] == v);
        }
        if values.contains(v) && v != values.last() {
            let k = choose|k: int| 0 <= k < values.len() && values[k] == v;
            assert(values.drop_last()[k] == v);
        }
    }
}

/// The map that distinct entries describe, entry by entry.
proof fn lemma_entries_map(values: Seq<Seq<u8>>, counts: Seq<(nat, nat)>)
    requires
        values.len() == counts.len(),
        values.no_duplicates(),
    ensures
        forall|v: Seq<u8>| #[trigger] entries_map(values, counts).contains_key(v) <==> values.contains(v),
        forall|i: int| 0 <= i < values.len() ==> #[trigger] entries_map(values, counts)[values[i]] == counts[i],
{
    assert forall|v: Seq<u8>| #[trigger] entries_map(values, counts).contains_key(v) <==> values.contains(v) by {
        lemma_entries_map_dom(values, counts, v);
    }
    assert forall|i: int| 0 <= i < values.len() implies #[trigger] entries_map(values, counts)[values[i]] == counts[i] by {
        lemma_entries_map_key(values, counts, i);
    }
}

impl ResultAccumulator<Vec<u8>> {
    /// The counted candidates.
    pub closed spec fn view(&self) -> Map<Seq<u8>, (nat, nat)> {
        entries_map(views(self.values@), self.count_views())
    }

    closed spec fn count_views(&self) -> Seq<(nat, nat)> {
        self.counts@.map_values(|c: (usize, usize)| (c.0 as nat, c.1 as nat))
    }

    /// The query the candidates are compared with.
    pub closed spec fn query(&self) -> Seq<u8> {
        self.query@
    }

    /// The tolerated Hamming distance.
    pub closed spec fn tolerance(&self) -> nat {
        self.tolerance as nat
    }

    /// Each candidate is counted once.
    pub closed spec fn wf(&self) -> bool {
        &&& self.values.len() == self.counts.len()
        &&& views(self.values@).no_duplicates()
    }

    /// An accumulator with no candidate yet.
    pub fn new(tolerance: usize, query: Vec<u8>) -> (r: Self)
        ensures
            r.wf(),
            r.view() == Map::<Seq<u8>, (nat, nat)>::empty(),
            r.query() == query@,
            r.tolerance() == tolerance,
    {
        let r = ResultAccumulator { tolerance, query, values: Vec::new(), counts: Vec::new() };
        assert(views(r.values@) =~= Seq::<Seq<u8>>::empty());
        r
    }

    /// The index of the entry of `value`, if any.
    fn find(&self, value: &Vec<u8>) -> (r: Option<usize>)
        requires
            self.wf(),
        ensures
            match r {
                Some(i) => i < self.values.len() && self.values@[i as int]@ == value@,
                None => !views(self.values@).contains(value@),
            },
    {
        let mut i: usize = 0;
        while i < self.values.len()
            invariant
                self.wf(),
                i <= self.values.len(),
                forall|k: int| 0 <= k < i ==> self.values@[k]@ != value@,
            decreases self.values.len() - i,
        {
            if bytes_equal(&self.values[i], value) {
                return Some(i);
            }
            i = i + 1;
        }
        proof {
            if views(self.values@).contains(value@) {
                let k = choose|k: int| 0 <= k < views(self.values@).len() && views(self.values@)[k] == value@;
                assert(self.values@[k]@ == value@);
            }
        }
        None
    }

    /// Adds `(exact, one)` to the counts of `value`.
    fn add(&mut self, value: &Vec<u8>, exact: usize, one: usize)
        requires
            old(self).wf(),
            (exact == 1 && one == 0) || (exact == 0 && one == 1),
            old(self).view().contains_key(value@) && exact == 1 ==> old(self).view()[value@].0 < usize::MAX,
            old(self).view().contains_key(value@) && one == 1 ==> old(self).view()[value@].1 < usize::MAX,
        ensures
            final(self).wf(),
            final(self).query() == old(self).query(),
            final(self).tolerance() == old(self).tolerance(),
            final(self).view() == if exact == 1 { add_zero(old(self).view(), value@) } else { add_one(old(self).view(), value@) },
    {
        let ghost old_view = self.view();
        proof { lemma_entries_map(views(self.values@), self.count_views()); }
        match self.find(value) {
            Some(i) => {
                let (e, o) = self.counts[i];
                proof {
                    assert(views(self.values@)[i as int] == value@);
                    assert(old_view[value@] == (e as nat, o as nat));
                }
                self.counts.set(i, (e + exact, o + one));
                proof {
                    lemma_entries_map(views(self.values@), self.count_views());
                    assert forall|v: Seq<u8>| #![auto] self.view().contains_key(v) == old_view.insert(value@, ((e + exact) as nat, (o + one) as nat)).contains_key(v) by {}
                    assert forall|v: Seq<u8>| #![auto] self.view().contains_key(v) implies
                        self.view()[v] == old_view.insert(value@, ((e + exact) as nat, (o + one) as nat))[v] by {
                        let k = choose|k: int| 0 <= k < views(self.values@).len() && views(self.values@)[k] == v;
                        if v != value@ {
                            assert(self.count_views()[k] == old(self).count_views()[k]);
                        } else {
                            assert(views(self.values@)[k] == views(self.values@)[i as int]);
                        }
                    }
                    assert(self.view() =~= old_view.insert(value@, ((e + exact) as nat, (o + one) as nat)));
                }
            },
            None => {
                self.values.push(value.clone());
                self.counts.push((exact, one));
                proof {
                    assert(views(self.values@).drop_last() =~= views(old(self).values@));
                    assert(self.count_views().drop_last() =~= old(self).count_views());
                    assert(views(self.values@).no_duplicates()) by {
                        assert forall|a: int, b: int| 0 <= a < b < views(self.values@).len() implies
                            views(self.values@)[a] != views(self.values@)[b] by {
                            assert(views(old(self).values@)[a] == views(self.values@)[a]);
                            if b == views(self.values@).len() - 1 {
                                if views(old(self).values@)[a] == value@ {
                                    assert(views(old(self).values@).contains(value@));
                                }
                            } else {
                                assert(views(old(self).values@)[b] == views(self.values@)[b]);
                            }
                        }
                    }
                }
            },
        }
    }

    /// Counts one more exact-matching partition for `value`.
    pub fn insert_zero_variant(&mut self, value: &Vec<u8>)
        requires
            old(self).wf(),
            old(self).view().contains_key(value@) ==> old(self).view()[value@].0 < usize::MAX,
        ensures
            final(self).wf(),
            final(self).query() == old(self).query(),
            final(self).tolerance() == old(self).tolerance(),
            final(self).view() == add_zero(old(self).view(), value@),
    {
        self.add(value, 1, 0);
    }

    /// Counts one more 1-matching partition for `value`.
    pub fn insert_one_variant(&mut self, value: &Vec<u8>)
        requires
            old(self).wf(),
            old(self).view().contains_key(value@) ==> old(self).view()[value@].1 < usize::MAX,
        ensures
            final(self).wf(),
            final(self).query() == old(self).query(),
            final(self).tolerance() == old(self).tolerance(),
            final(self).view() == add_one(old(self).view(), value@),
    {
        self.add(value, 0, 1);
    }

    /// The accepted candidates within the tolerance of the query, or `None`
    /// when there is none.
    pub fn found_values(&self) -> (r: Option<HashSet<Vec<u8>>>)
        requires
            self.wf(),
            forall|v: Seq<u8>| #[trigger] self.view().contains_key(v) ==> self.view()[v].0 + self.view()[v].1 <= usize::MAX,
        ensures
            match r {
                Some(s) => set_views(s@) == found_set(self.view(), self.query(), self.tolerance())
                    && !found_set(self.view(), self.query(), self.tolerance()).is_empty(),
                None => found_set(self.view(), self.query(), self.tolerance()).is_empty(),
            },
    {
        let ghost found = found_set(self.view(), self.query(), self.tolerance());
        proof { lemma_entries_map(views(self.values@), self.count_views()); }
        let mut matches: Vec<Vec<u8>> = Vec::new();
        let mut i: usize = 0;
        while i < self.values.len()
            invariant
                self.wf(),
                found == found_set(self.view(), self.query(), self.tolerance()),
                forall|v: Seq<u8>| #[trigger] self.view().contains_key(v) <==> views(self.values@).contains(v),
                forall|k: int| 0 <= k < self.values.len() ==> #[trigger] self.view()[views(self.values@)[k]] == self.count_views()[k],
                forall|v: Seq<u8>| #[trigger] self.view().contains_key(v) ==> self.view()[v].0 + self.view()[v].1 <= usize::MAX,
                i <= self.values.len(),
                matches_prefix(views(matches@), found, views(self.values@), i as int),
            decreases self.values.len() - i,
        {
            let (exact_matches, one_matches) = self.counts[i];
            let ghost cur = views(self.values@)[i as int];
            proof {
                assert(self.view()[cur] == (exact_matches as nat, one_matches as nat));
                assert(views(self.values@).contains(cur));
                assert(self.view().contains_key(cur));
            }
            let candidate_ok = if self.tolerance % 2 == 0 {
                // "If k is an even number, S must have at least one exact-matching
                // partition, or two 1-matching partitions"
                exact_matches >= 1 || one_matches >= 2
            } else {
                // "If k is an odd number, S must have at least two matching partitions
                // where at least one of the matches should be an exact match, or S
                // must have at least three 1-matching partitions"
                (exact_matches >= 1 && exact_matches + one_matches >= 2) || one_matches >= 3
            };
            let ghost prev = views(matches@);
            assert(forall|w: Seq<u8>| prev.contains(w) <==>
                (found.contains(w) && exists|k: int| 0 <= k < i && views(self.values@)[k] == w));
            let keep = candidate_ok && self.query.hamming_lte(&self.values[i], self.tolerance);
            if keep {
                matches.push(self.values[i].clone());
            }
            proof {
                assert(keep == found.contains(cur));
                if keep {
                    assert(views(matches@) =~= prev.push(cur));
                } else {
                    assert(views(matches@) =~= prev);
                }
                assert forall|w: Seq<u8>| views(matches@).contains(w) <==>
                    (found.contains(w) && exists|k: int| 0 <= k < i + 1 && views(self.values@)[k] == w) by {
                    if views(matches@).contains(w) {
                        if prev.contains(w) {
                            let k = choose|k: int| 0 <= k < i && views(self.values@)[k] == w;
                            assert(0 <= k < i + 1 && views(self.values@)[k] == w);
                        } else {
                            let m = choose|m: int| 0 <= m < views(matches@).len() && views(matches@)[m] == w;
                            if m < prev.len() {
                                assert(prev[m] == w);
                            }
                            assert(w == cur);
                            assert(0 <= i < i + 1 && views(self.values@)[i as int] == w);
                        }
                    }
                    if found.contains(w) && exists|k: int| 0 <= k < i + 1 && views(self.values@)[k] == w {
                        let k = choose|k: int| 0 <= k < i + 1 && views(self.values@)[k] == w;
                        if k < i {
                            assert(prev.contains(w));
                            let m = choose|m: int| 0 <= m < prev.len() && prev[m] == w;
                            assert(views(matches@)[m] == w);
                        } else {
                            assert(views(matches@)[views(matches@).len() - 1] == w);
                        }
                    }
                }
            }
            let ghost old_i = i;
            i = i + 1;
            assert forall|w: Seq<u8>| views(matches@).contains(w) <==>
                (found.contains(w) && exists|k: int| 0 <= k < i && views(self.values@)[k] == w) by {
                assert(views(matches@).contains(w) <==>
                    (found.contains(w) && exists|k: int| 0 <= k < old_i + 1 && views(self.values@)[k] == w));
            }
        }
        proof {
            assert forall|w: Seq<u8>| views(matches@).contains(w) <==> found.contains(w) by {
                if found.contains(w) {
                    assert(views(self.values@).contains(w));
                }
            }
            assert(views(matches@).to_set() =~= found);
        }
        if matches.len() == 0 {
            proof {
                if !found.is_empty() {
                    let w = found.choose();
                    assert(found.contains(w));
                }
            }
            None
        } else {
            proof { assert(found.contains(views(matches@)[0])); }
            Some(hash_set_from(matches))
        }
    }
}

} // verus!
