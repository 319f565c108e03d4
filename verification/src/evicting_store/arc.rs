//! The adaptive replacement cache (ARC) of Megiddo and Modha, over tokens.
//!
//! The cache holds at most `c` tokens, split between `t1` (seen once
//! recently) and `t2` (seen at least twice), and remembers as many
//! recently evicted tokens in the ghost lists `b1` and `b2`. A hit in a
//! ghost list adapts the target size `p` of `t1`. Each list keeps its most
//! recently used token first.

use vstd::prelude::*;

verus! {

/// The state of the cache: its capacity, the target size of `t1`, and the
/// four lists, most recently used first.
#[verifier::ext_equal]
pub struct ArcModel {
    pub c: nat,
    pub p: nat,
    pub t1: Seq<u64>,
    pub t2: Seq<u64>,
    pub b1: Seq<u64>,
    pub b2: Seq<u64>,
}

/// The index of the first occurrence of `x` in `s`.
pub open spec fn first_index(s: Seq<u64>, x: u64) -> int {
    choose|i: int| 0 <= i < s.len() && s[i] == x && forall|j: int| 0 <= j < i ==> s[j] != x
}

/// `s` without the first occurrence of `x`.
pub open spec fn without(s: Seq<u64>, x: u64) -> Seq<u64> {
    s.remove(first_index(s, x))
}

/// REPLACE: the least recently used token of `t1` moves to the front of
/// `b1` when `t1` is over its target `p` (or at it, for a token found in
/// `b2`); otherwise the least recently used token of `t2` moves to the
/// front of `b2`. The moved token is evicted from the cache.
pub open spec fn arc_replace(m: ArcModel, in_b2: bool) -> (ArcModel, Seq<u64>) {
    if m.t1.len() > 0 && (m.t1.len() > m.p || (in_b2 && m.t1.len() == m.p)) {
        (ArcModel { c: m.c, p: m.p, t1: m.t1.drop_last(), t2: m.t2, b1: seq![m.t1.last()] + m.b1, b2: m.b2 },
            seq![m.t1.last()])
    } else if m.t2.len() > 0 {
        (ArcModel { c: m.c, p: m.p, t1: m.t1, t2: m.t2.drop_last(), b1: m.b1, b2: seq![m.t2.last()] + m.b2 },
            seq![m.t2.last()])
    } else {
        (m, Seq::empty())
    }
}

/// `m` with `x` put in front of `t2`.
pub open spec fn with_front_t2(m: ArcModel, x: u64) -> ArcModel {
    ArcModel { c: m.c, p: m.p, t1: m.t1, t2: seq![x] + m.t2, b1: m.b1, b2: m.b2 }
}

/// A request for `x`: the new state, the tokens evicted from the cache, and
/// whether `x` was in the cache.
///
/// - `x` in `t1` or `t2`: a hit; `x` moves to the front of `t2`.
/// - `x` in `b1`: `p` grows by `max(1, |b2| / |b1|)` (up to `c`), REPLACE,
///   and `x` moves to the front of `t2`.
/// - `x` in `b2`: `p` shrinks by `max(1, |b1| / |b2|)` (down to 0), REPLACE
///   (favouring `t1`), and `x` moves to the front of `t2`.
/// - otherwise, when `t1` and `b1` hold `c` tokens: the last token of `b1`
///   is dropped and REPLACE, or, when `t1` alone holds `c`, the last token
///   of `t1` is evicted; when they hold fewer and all four lists at least
///   `c`: the last token of `b2` is dropped when they hold `2c`, and
///   REPLACE. Then `x` goes in front of `t1`.
pub open spec fn arc_request(m: ArcModel, x: u64) -> (ArcModel, Seq<u64>, bool) {
    if m.t1.contains(x) {
        (ArcModel { c: m.c, p: m.p, t1: without(m.t1, x), t2: seq![x] + m.t2, b1: m.b1, b2: m.b2 }, Seq::empty(), true)
    } else if m.t2.contains(x) {
        (ArcModel { c: m.c, p: m.p, t1: m.t1, t2: seq![x] + without(m.t2, x), b1: m.b1, b2: m.b2 }, Seq::empty(), true)
    } else if m.b1.contains(x) {
        let (r, ev) = ghost1_hit(m, x);
        (r, ev, false)
    } else if m.b2.contains(x) {
        let (r, ev) = ghost2_hit(m, x);
        (r, ev, false)
    } else {
        let (r, ev) = miss(m, x);
        (r, ev, false)
    }
}

/// `x` found in `b1`: `p` grows by `max(1, |b2| / |b1|)` (up to `c`),
/// REPLACE, and `x` moves to the front of `t2`.
pub open spec fn ghost1_hit(m: ArcModel, x: u64) -> (ArcModel, Seq<u64>) {
    let delta: nat = if m.b1.len() >= m.b2.len() { 1 } else { m.b2.len() / m.b1.len() };
    let p = if m.p + delta >= m.c { m.c } else { m.p + delta };
    let (r, ev) = arc_replace(ArcModel { c: m.c, p: p, t1: m.t1, t2: m.t2, b1: without(m.b1, x), b2: m.b2 }, false);
    (with_front_t2(r, x), ev)
}

/// `x` found in `b2`: `p` shrinks by `max(1, |b1| / |b2|)` (down to 0),
/// REPLACE favouring `t1`, and `x` moves to the front of `t2`.
pub open spec fn ghost2_hit(m: ArcModel, x: u64) -> (ArcModel, Seq<u64>) {
    let delta: nat = if m.b2.len() >= m.b1.len() { 1 } else { m.b1.len() / m.b2.len() };
    let p: nat = if m.p >= delta { (m.p - delta) as nat } else { 0 };
    let (r, ev) = arc_replace(ArcModel { c: m.c, p: p, t1: m.t1, t2: m.t2, b1: m.b1, b2: without(m.b2, x) }, true);
    (with_front_t2(r, x), ev)
}

/// Room made for a token in no list.
pub open spec fn make_room(m: ArcModel) -> (ArcModel, Seq<u64>) {
    let l1 = m.t1.len() + m.b1.len();
    let total = l1 + m.t2.len() + m.b2.len();
    if l1 == m.c {
        if m.t1.len() < m.c {
            let b1 = if m.b1.len() > 0 { m.b1.drop_last() } else { m.b1 };
            arc_replace(ArcModel { c: m.c, p: m.p, t1: m.t1, t2: m.t2, b1: b1, b2: m.b2 }, false)
        } else if m.t1.len() > 0 {
            (ArcModel { c: m.c, p: m.p, t1: m.t1.drop_last(), t2: m.t2, b1: m.b1, b2: m.b2 }, seq![m.t1.last()])
        } else {
            (m, Seq::empty())
        }
    } else if l1 < m.c && total >= m.c {
        let b2 = if total == 2 * m.c && m.b2.len() > 0 { m.b2.drop_last() } else { m.b2 };
        arc_replace(ArcModel { c: m.c, p: m.p, t1: m.t1, t2: m.t2, b1: m.b1, b2: b2 }, false)
    } else {
        (m, Seq::empty())
    }
}

/// `x` in no list: room is made, and `x` goes in front of `t1`.
pub open spec fn miss(m: ArcModel, x: u64) -> (ArcModel, Seq<u64>) {
    let (r, ev) = make_room(m);
    (ArcModel { c: r.c, p: r.p, t1: seq![x] + r.t1, t2: r.t2, b1: r.b1, b2: r.b2 }, ev)
}

/// The cache holds at most `c` tokens, `t1` with `b1` at most `c`, and the
/// target size of `t1` is at most `c`.
pub open spec fn within_capacity(m: ArcModel) -> bool {
    &&& m.c >= 1
    &&& m.p <= m.c
    &&& m.t1.len() + m.t2.len() <= m.c
    &&& m.t1.len() + m.b1.len() <= m.c
}

proof fn lemma_without_len(s: Seq<u64>, x: u64)
    requires
        s.contains(x),
    ensures
        without(s, x).len() == s.len() - 1,
{
    let k = choose|k: int| 0 <= k < s.len() && s[k] == x;
    let i = first_index(s, x);
    assert(exists|i: int| 0 <= i < s.len() && s[i] == x && forall|j: int| 0 <= j < i ==> s[j] != x) by {
        lemma_first_exists(s, x, k);
    }
}

proof fn lemma_first_exists(s: Seq<u64>, x: u64, k: int)
    requires
        0 <= k < s.len(),
        s[k] == x,
    ensures
        exists|i: int| 0 <= i < s.len() && s[i] == x && forall|j: int| 0 <= j < i ==> s[j] != x,
    decreases k,
{
    if exists|j: int| 0 <= j < k && s[j] == x {
        let j = choose|j: int| 0 <= j < k && s[j] == x;
        lemma_first_exists(s, x, j);
    } else {
        assert(forall|j: int| 0 <= j < k ==> s[j] != x);
    }
}

/// REPLACE takes one token out of the cache, unless `t2` is empty and `t1`
/// is empty or within its target; it never grows `t1` with `b1`.
proof fn lemma_replace_sizes(m: ArcModel, in_b2: bool)
    ensures
        ({
            let (r, ev) = arc_replace(m, in_b2);
            &&& r.c == m.c
            &&& (r.t1.len() + r.t2.len() + 1 == m.t1.len() + m.t2.len()
                || (m.t2.len() == 0 && r.t2.len() == 0 && r.t1.len() == m.t1.len()
                    && (m.t1.len() == 0 || m.t1.len() < m.p || (!in_b2 && m.t1.len() == m.p))))
            &&& r.t1.len() + r.b1.len() <= m.t1.len() + m.b1.len()
            &&& r.t2.len() + r.b2.len() <= m.t2.len() + m.b2.len()
            &&& ev.len() <= 1
        }),
{
}

/// Every request keeps the cache within its capacity, and evicts at most
/// one token.
pub proof fn lemma_request_within_capacity(m: ArcModel, x: u64)
    requires
        within_capacity(m),
    ensures
        within_capacity(arc_request(m, x).0),
        arc_request(m, x).1.len() <= 1,
{
    if m.t1.contains(x) {
        lemma_without_len(m.t1, x);
    } else if m.t2.contains(x) {
        lemma_without_len(m.t2, x);
    } else if m.b1.contains(x) {
        lemma_without_len(m.b1, x);
        let delta: nat = if m.b1.len() >= m.b2.len() { 1 } else { m.b2.len() / m.b1.len() };
        let p = if m.p + delta >= m.c { m.c } else { m.p + delta };
        lemma_replace_sizes(ArcModel { c: m.c, p: p, t1: m.t1, t2: m.t2, b1: without(m.b1, x), b2: m.b2 }, false);
    } else if m.b2.contains(x) {
        lemma_without_len(m.b2, x);
        let delta: nat = if m.b2.len() >= m.b1.len() { 1 } else { m.b1.len() / m.b2.len() };
        let p: nat = if m.p >= delta { (m.p - delta) as nat } else { 0 };
        lemma_replace_sizes(ArcModel { c: m.c, p: p, t1: m.t1, t2: m.t2, b1: m.b1, b2: without(m.b2, x) }, true);
    } else {
        let l1 = m.t1.len() + m.b1.len();
        let total = l1 + m.t2.len() + m.b2.len();
        let b1 = if m.b1.len() > 0 { m.b1.drop_last() } else { m.b1 };
        lemma_replace_sizes(ArcModel { c: m.c, p: m.p, t1: m.t1, t2: m.t2, b1: b1, b2: m.b2 }, false);
        let b2 = if total == 2 * m.c && m.b2.len() > 0 { m.b2.drop_last() } else { m.b2 };
        lemma_replace_sizes(ArcModel { c: m.c, p: m.p, t1: m.t1, t2: m.t2, b1: m.b1, b2: b2 }, false);
    }
}

/// A request for a token in `t2` (and not in `t1`) is a hit that evicts
/// nothing and makes the token the most recently used of `t2`: it stands
/// first, and the rest of `t2` keeps its order; `t1`, the ghost lists, the
/// target and the capacity stay as they were.
pub proof fn lemma_t2_hit_to_front(m: ArcModel, x: u64)
    requires
        m.t2.contains(x),
        !m.t1.contains(x),
    ensures
        ({
            let (r, ev, hit) = arc_request(m, x);
            &&& hit
            &&& ev.len() == 0
            &&& r.t2.len() == m.t2.len()
            &&& r.t2[0] == x
            &&& r.t2.drop_first() == without(m.t2, x)
            &&& r.t1 == m.t1 && r.b1 == m.b1 && r.b2 == m.b2
            &&& r.p == m.p && r.c == m.c
        }),
{
    lemma_without_len(m.t2, x);
    let r = arc_request(m, x).0;
    assert(r.t2.drop_first() =~= without(m.t2, x));
}

/// A request for a token in `t1` is a hit that evicts nothing and moves
/// the token to the front of `t2`, ahead of the tokens already there, and
/// takes it out of `t1`, whose other tokens keep their order.
pub proof fn lemma_t1_hit_to_front(m: ArcModel, x: u64)
    requires
        m.t1.contains(x),
    ensures
        ({
            let (r, ev, hit) = arc_request(m, x);
            &&& hit
            &&& ev.len() == 0
            &&& r.t2.len() == m.t2.len() + 1
            &&& r.t2[0] == x
            &&& r.t2.drop_first() == m.t2
            &&& r.t1 == without(m.t1, x)
            &&& r.t1.len() + 1 == m.t1.len()
            &&& r.b1 == m.b1 && r.b2 == m.b2 && r.p == m.p && r.c == m.c
        }),
{
    lemma_without_len(m.t1, x);
    let r = arc_request(m, x).0;
    assert(r.t2.drop_first() =~= m.t2);
}

/// After any request the requested token is the most recently used one:
/// first in `t2` when it was in any list (a hit, or a ghost hit), first in
/// `t1` when it was in none. The request is a hit exactly when the token
/// was in the cache.
pub proof fn lemma_requested_most_recent(m: ArcModel, x: u64)
    ensures
        ({
            let (r, ev, hit) = arc_request(m, x);
            &&& hit == (m.t1.contains(x) || m.t2.contains(x))
            &&& (m.t1.contains(x) || m.t2.contains(x) || m.b1.contains(x) || m.b2.contains(x)) ==>
                r.t2.len() > 0 && r.t2[0] == x
            &&& !(m.t1.contains(x) || m.t2.contains(x) || m.b1.contains(x) || m.b2.contains(x)) ==>
                r.t1.len() > 0 && r.t1[0] == x
        }),
{
}

/// A hit in a ghost list adapts the target size of `t1`: one in `b1`
/// (recently evicted from `t1`) raises it, up to the capacity; one in `b2`
/// lowers it, down to zero.
pub proof fn lemma_ghost_hits_adapt_target(m: ArcModel, x: u64)
    requires
        within_capacity(m),
        !m.t1.contains(x),
        !m.t2.contains(x),
    ensures
        m.b1.contains(x) ==> {
            let r = arc_request(m, x).0;
            &&& m.p < m.c ==> m.p < r.p <= m.c
            &&& m.p == m.c ==> r.p == m.c
        },
        !m.b1.contains(x) && m.b2.contains(x) ==> {
            let r = arc_request(m, x).0;
            &&& m.p > 0 ==> r.p < m.p
            &&& m.p == 0 ==> r.p == 0
        },
{
    if m.b1.contains(x) {
        let b1 = m.b1.len();
        let b2 = m.b2.len();
        assert(b1 > 0);
        if b1 < b2 {
            assert(b2 / b1 >= 1) by (nonlinear_arith)
                requires
                    0 < b1 < b2,
            ;
        }
    } else if m.b2.contains(x) {
        let b1 = m.b1.len();
        let b2 = m.b2.len();
        assert(b2 > 0);
        if b2 < b1 {
            assert(b1 / b2 >= 1) by (nonlinear_arith)
                requires
                    0 < b2 < b1,
            ;
        }
    }
}

/// REPLACE evicts only a token that was in the cache.
proof fn lemma_replace_evicts_cached(m: ArcModel, in_b2: bool)
    ensures
        forall|i: int| 0 <= i < arc_replace(m, in_b2).1.len() ==>
            m.t1.contains(#[trigger] arc_replace(m, in_b2).1[i]) || m.t2.contains(arc_replace(m, in_b2).1[i]),
{
    if m.t1.len() > 0 {
        assert(m.t1[m.t1.len() - 1] == m.t1.last());
    }
    if m.t2.len() > 0 {
        assert(m.t2[m.t2.len() - 1] == m.t2.last());
    }
}

/// A request evicts only tokens that were in the cache before it.
pub proof fn lemma_evicted_were_cached(m: ArcModel, x: u64)
    ensures
        forall|i: int| 0 <= i < arc_request(m, x).1.len() ==>
            m.t1.contains(#[trigger] arc_request(m, x).1[i]) || m.t2.contains(arc_request(m, x).1[i]),
{
    if m.t1.contains(x) || m.t2.contains(x) {
    } else if m.b1.contains(x) {
        let delta: nat = if m.b1.len() >= m.b2.len() { 1 } else { m.b2.len() / m.b1.len() };
        let p = if m.p + delta >= m.c { m.c } else { m.p + delta };
        lemma_replace_evicts_cached(ArcModel { c: m.c, p: p, t1: m.t1, t2: m.t2, b1: without(m.b1, x), b2: m.b2 }, false);
    } else if m.b2.contains(x) {
        let delta: nat = if m.b2.len() >= m.b1.len() { 1 } else { m.b1.len() / m.b2.len() };
        let p: nat = if m.p >= delta { (m.p - delta) as nat } else { 0 };
        lemma_replace_evicts_cached(ArcModel { c: m.c, p: p, t1: m.t1, t2: m.t2, b1: m.b1, b2: without(m.b2, x) }, true);
    } else {
        let l1 = m.t1.len() + m.b1.len();
        let total = l1 + m.t2.len() + m.b2.len();
        let b1 = if m.b1.len() > 0 { m.b1.drop_last() } else { m.b1 };
        lemma_replace_evicts_cached(ArcModel { c: m.c, p: m.p, t1: m.t1, t2: m.t2, b1: b1, b2: m.b2 }, false);
        let b2 = if total == 2 * m.c && m.b2.len() > 0 { m.b2.drop_last() } else { m.b2 };
        lemma_replace_evicts_cached(ArcModel { c: m.c, p: m.p, t1: m.t1, t2: m.t2, b1: m.b1, b2: b2 }, false);
        if m.t1.len() > 0 {
            assert(m.t1[m.t1.len() - 1] == m.t1.last());
        }
    }
}

/// Whether `v` holds `x`.
fn holds(v: &Vec<u64>, x: u64) -> (r: bool)
    ensures
        r == v@.contains(x),
{
    let mut i: usize = 0;
    while i < v.len()
        invariant
            i <= v.len(),
            forall|j: int| 0 <= j < i ==> v@[j] != x,
        decreases v.len() - i,
    {
        if v[i] == x {
            return true;
        }
        i = i + 1;
    }
    false
}

/// Takes the first occurrence of `x` out of `v`.
fn remove_first(v: &mut Vec<u64>, x: u64)
    requires
        old(v)@.contains(x),
    ensures
        final(v)@ == without(old(v)@, x),
{
    let mut i: usize = 0;
    while i < v.len()
        invariant
            i <= v.len(),
            v@ == old(v)@,
            old(v)@.contains(x),
            forall|j: int| 0 <= j < i ==> v@[j] != x,
        decreases v.len() - i,
    {
        if v[i] == x {
            proof {
                let k = first_index(old(v)@, x);
                assert(0 <= i < old(v)@.len() && old(v)@[i as int] == x && forall|j: int| 0 <= j < i ==> old(v)@[j] != x);
                assert(k == i) by {
                    if k < i {
                        assert(old(v)@[k] != x);
                    } else if k > i {
                        assert(old(v)@[i as int] != x);
                    }
                }
            }
            v.remove(i);
            return;
        }
        i = i + 1;
    }
    proof {
        let k = choose|k: int| 0 <= k < old(v)@.len() && old(v)@[k] == x;
        assert(v@[k] != x);
    }
}

/// Moves the last token of `from` to the front of `to`, and answers it.
fn move_last(from: &mut Vec<u64>, to: &mut Vec<u64>) -> (r: u64)
    requires
        old(from)@.len() > 0,
    ensures
        r == old(from)@.last(),
        final(from)@ == old(from)@.drop_last(),
        final(to)@ == seq![r] + old(to)@,
{
    let r = from.pop().unwrap();
    to.insert(0, r);
    proof { assert(to@ =~= seq![r] + old(to)@); }
    r
}

/// An adaptive replacement cache of tokens.
pub struct ARC {
    c: usize,
    p: usize,
    t1: Vec<u64>,
    t2: Vec<u64>,
    b1: Vec<u64>,
    b2: Vec<u64>,
}

impl View for ARC {
    type V = ArcModel;

    closed spec fn view(&self) -> ArcModel {
        ArcModel { c: self.c as nat, p: self.p as nat, t1: self.t1@, t2: self.t2@, b1: self.b1@, b2: self.b2@ }
    }
}

impl ARC {
    /// The target size of `t1` stays within the capacity.
    pub closed spec fn wf(&self) -> bool {
        self.p <= self.c
    }

    /// An empty cache of `c` tokens.
    pub fn with_capacity(c: usize) -> (r: ARC)
        ensures
            r.wf(),
            r@ == (ArcModel { c: c as nat, p: 0, t1: Seq::empty(), t2: Seq::empty(), b1: Seq::empty(), b2: Seq::empty() }),
    {
        let r = ARC { c: c, p: 0, t1: Vec::new(), t2: Vec::new(), b1: Vec::new(), b2: Vec::new() };
        proof { assert(r@ =~= (ArcModel { c: c as nat, p: 0, t1: Seq::empty(), t2: Seq::empty(), b1: Seq::empty(), b2: Seq::empty() })); }
        r
    }

    /// REPLACE: evicts the least recently used token of `t1` into `b1` when
    /// `t1` is over its target (or at it, for a token found in `b2`), else
    /// that of `t2` into `b2`; answers the evicted token.
    pub fn replace(&mut self, token_in_bottom_frequent: bool) -> (r: Option<u64>)
        requires
            old(self).wf(),
        ensures
            final(self).wf(),
            final(self)@ == arc_replace(old(self)@, token_in_bottom_frequent).0,
            match r {
                Some(t) => arc_replace(old(self)@, token_in_bottom_frequent).1 == seq![t],
                None => arc_replace(old(self)@, token_in_bottom_frequent).1 == Seq::<u64>::empty(),
            },
    {
        if self.t1.len() > 0 && (self.t1.len() > self.p || (token_in_bottom_frequent && self.t1.len() == self.p)) {
            let t = move_last(&mut self.t1, &mut self.b1);
            Some(t)
        } else if self.t2.len() > 0 {
            let t = move_last(&mut self.t2, &mut self.b2);
            Some(t)
        } else {
            None
        }
    }

    /// Answers a REPLACE as a list of evicted tokens.
    fn replace_list(&mut self, in_b2: bool) -> (r: Vec<u64>)
        requires
            old(self).wf(),
        ensures
            final(self).wf(),
            final(self)@ == arc_replace(old(self)@, in_b2).0,
            r@ == arc_replace(old(self)@, in_b2).1,
    {
        let e = self.replace(in_b2);
        let mut ev: Vec<u64> = Vec::new();
        match e {
            Some(t) => ev.push(t),
            None => {},
        }
        proof { assert(ev@ =~= arc_replace(old(self)@, in_b2).1); }
        ev
    }

    /// `token` found in `b1`.
    fn on_ghost1_hit(&mut self, token: u64) -> (r: Vec<u64>)
        requires
            old(self).wf(),
            old(self)@.b1.contains(token),
        ensures
            final(self).wf(),
            (final(self)@, r@) == ghost1_hit(old(self)@, token),
    {
        let delta = if self.b1.len() >= self.b2.len() { 1 } else { self.b2.len() / self.b1.len() };
        self.p = if delta >= self.c - self.p { self.c } else { self.p + delta };
        remove_first(&mut self.b1, token);
        let ev = self.replace_list(false);
        self.t2.insert(0, token);
        proof { assert(self@ =~= ghost1_hit(old(self)@, token).0); }
        ev
    }

    /// `token` found in `b2`.
    fn on_ghost2_hit(&mut self, token: u64) -> (r: Vec<u64>)
        requires
            old(self).wf(),
            old(self)@.b2.contains(token),
        ensures
            final(self).wf(),
            (final(self)@, r@) == ghost2_hit(old(self)@, token),
    {
        let delta = if self.b2.len() >= self.b1.len() { 1 } else { self.b1.len() / self.b2.len() };
        self.p = if self.p >= delta { self.p - delta } else { 0 };
        remove_first(&mut self.b2, token);
        let ev = self.replace_list(true);
        self.t2.insert(0, token);
        proof { assert(self@ =~= ghost2_hit(old(self)@, token).0); }
        ev
    }

    /// Makes room for a token in no list.
    fn on_make_room(&mut self) -> (r: Vec<u64>)
        requires
            old(self).wf(),
        ensures
            final(self).wf(),
            (final(self)@, r@) == make_room(old(self)@),
    {
        let l1 = self.t1.len() as u128 + self.b1.len() as u128;
        let total = l1 + self.t2.len() as u128 + self.b2.len() as u128;
        let c = self.c as u128;
        if l1 == c {
            if (self.t1.len() as u128) < c {
                if self.b1.len() > 0 {
                    self.b1.pop();
                }
                self.replace_list(false)
            } else if self.t1.len() > 0 {
                let t = self.t1.pop().unwrap();
                let mut ev: Vec<u64> = Vec::new();
                ev.push(t);
                proof { assert(ev@ =~= seq![old(self)@.t1.last()]); }
                ev
            } else {
                Vec::new()
            }
        } else if l1 < c && total >= c {
            if total == 2 * c && self.b2.len() > 0 {
                self.b2.pop();
            }
            self.replace_list(false)
        } else {
            Vec::new()
        }
    }

    /// A request for `token`: answers whether it was in the cache, and the
    /// tokens evicted from the cache.
    pub fn get(&mut self, token: u64) -> (r: (bool, Vec<u64>))
        requires
            old(self).wf(),
        ensures
            final(self).wf(),
            (final(self)@, r.1@, r.0) == arc_request(old(self)@, token),
    {
        if holds(&self.t1, token) {
            remove_first(&mut self.t1, token);
            self.t2.insert(0, token);
            proof { assert(self@ =~= arc_request(old(self)@, token).0); }
            return (true, Vec::new());
        }
        if holds(&self.t2, token) {
            remove_first(&mut self.t2, token);
            self.t2.insert(0, token);
            proof { assert(self@ =~= arc_request(old(self)@, token).0); }
            return (true, Vec::new());
        }
        if holds(&self.b1, token) {
            let ev = self.on_ghost1_hit(token);
            return (false, ev);
        }
        if holds(&self.b2, token) {
            let ev = self.on_ghost2_hit(token);
            return (false, ev);
        }
        // Cache miss
        let ev = self.on_make_room();
        self.t1.insert(0, token);
        proof { assert(self@ =~= arc_request(old(self)@, token).0); }
        (false, ev)
    }
}

} // verus!
