//! HmSearch database over byte vectors, indexed by deletion variants.

use vstd::prelude::*;
use vstd::std_specs::cmp::PartialEqSpecImpl;
use std::collections::HashSet;
use std::marker::PhantomData;
use num::rational::Ratio;
use crate::window::{Window, Windowable};
use crate::deletion::{DeletionVariant, deletion_hash, Dvec, lemma_deletion_hash_shared};
use crate::id_map::{self, IDMap, ToID, vec_id};
use crate::map_set::{MapSet, InMemoryHash, set_at, set_elements};
use crate::result_accumulator::{ResultAccumulator, found_set, set_views, accepted, bytes_equal, views};
use crate::hamming::{vec_hamming, diff_count, diff_positions, common_len, lemma_diff_count_split, lemma_diff_positions_count,
    lemma_diff_count_zero, lemma_diff_count_one, lemma_diff_count_mono};

verus! {

broadcast use vstd::std_specs::hash::group_hash_axioms;

/// The types a database is built from.
pub trait TypeMap {
    /// The data type being indexed
    type Input;
    /// The type of windows over Input
    type Window;
    /// The type of variants computed over windows
    type Variant;
    /// Value identifier
    type Identifier;
    /// The value store - maps Identifier -> Input
    type ValueStore;
    /// The variant store - maps Variant -> Identifier
    type VariantStore;
}

/// A filesystem path, held as it is.
#[verifier::external_type_specification]
#[verifier::external_body]
pub struct ExPathBuf(std::path::PathBuf);

/// Where the stores of a database are kept.
pub enum StorageBackend {
    InMemory,
    TempRocksDB,
    RocksDB(std::path::PathBuf),
}

/// Byte vectors, identified by their SipHash, kept in memory.
pub type TypeMapVecU8 = (Vec<u8>, id_map::HashMap<u64, Vec<u8>>, InMemoryHash<u64, u64>);

impl TypeMap for TypeMapVecU8 {
    type Input = Vec<u8>;
    type Window = Vec<u8>;
    type Variant = Dvec;
    type Identifier = u64;
    type ValueStore = id_map::HashMap<u64, Vec<u8>>;
    type VariantStore = InMemoryHash<u64, u64>;
}

/// `numer / denom` rounded up, computed with `num::rational::Ratio`.
///
/// Claims what the `num-rational` source shows: `Ratio::new` reduces the
/// fraction (panicking on a zero denominator), `ceil` of a non-negative
/// ratio is `(numer + denom - 1) / denom`, and `to_integer` of an integer
/// ratio is that integer.
#[verifier::external_body]
pub(crate) fn ratio_ceil(numer: usize, denom: usize) -> (r: usize)
    requires
        denom > 0,
        numer + denom <= usize::MAX,
    ensures
        r == (numer + denom - 1) / denom as int,
{
    Ratio::new(numer, denom).ceil().to_integer()
}

/// `numer / denom` rounded down, computed with `num::rational::Ratio`.
///
/// Claims what the `num-rational` source shows: `floor` of a non-negative
/// ratio is `numer / denom`.
#[verifier::external_body]
fn ratio_floor(numer: usize, denom: usize) -> (r: usize)
    requires
        denom > 0,
    ensures
        r == numer / denom,
{
    Ratio::new(numer, denom).floor().to_integer()
}

/// The number of partitions for `dimensions` dimensions and tolerance
/// `tolerance`: `(k + 3) / 2` partitions guarantee that a value within
/// distance `k` of a query matches it exactly, or within one dimension, in
/// enough partitions.
pub open spec fn partition_count_for(dimensions: nat, tolerance: nat) -> nat {
    if tolerance == 0 {
        1
    } else if tolerance > dimensions {
        ((dimensions + 3) / 2) as nat
    } else {
        ((tolerance + 3) / 2) as nat
    }
}

/// The width of the leading (wider) partitions.
pub open spec fn head_width(dimensions: nat, count: nat) -> nat {
    ((dimensions + count - 1) / count as int) as nat
}

/// The width of the trailing partitions.
pub open spec fn tail_width(dimensions: nat, count: nat) -> nat {
    dimensions / count
}

/// The number of leading partitions, which are one dimension wider.
pub open spec fn head_count(dimensions: nat, count: nat) -> nat {
    dimensions % count
}

/// The first dimension of the `i`-th of `count` partitions of `dimensions`
/// dimensions: as even as possible, wider partitions first.
pub open spec fn partition_start(dimensions: nat, count: nat, i: nat) -> nat {
    let hc = head_count(dimensions, count);
    if i < hc {
        i * head_width(dimensions, count)
    } else {
        (hc * head_width(dimensions, count) + (i - hc) * tail_width(dimensions, count)) as nat
    }
}

/// The width of the `i`-th of `count` partitions of `dimensions` dimensions.
pub open spec fn partition_width(dimensions: nat, count: nat, i: nat) -> nat {
    if i < head_count(dimensions, count) { head_width(dimensions, count) } else { tail_width(dimensions, count) }
}

/// The `i`-th of `count` partitions of `dimensions` dimensions.
pub open spec fn partition_window(dimensions: nat, count: nat, i: nat) -> Window {
    Window {
        start_dimension: partition_start(dimensions, count, i) as usize,
        dimensions: partition_width(dimensions, count, i) as usize,
    }
}

/// The partitions of `dimensions` dimensions for tolerance `tolerance`.
pub open spec fn partition_layout(dimensions: nat, tolerance: nat) -> Seq<Window> {
    let count = partition_count_for(dimensions, tolerance);
    Seq::new(count, |i: int| partition_window(dimensions, count, i as nat))
}

/// Facts about the widths of the partitions.
pub proof fn lemma_widths(dimensions: nat, count: nat)
    requires
        count > 0,
    ensures
        dimensions == count * tail_width(dimensions, count) + head_count(dimensions, count),
        head_count(dimensions, count) < count,
        head_count(dimensions, count) > 0 ==> head_width(dimensions, count) == tail_width(dimensions, count) + 1,
        head_count(dimensions, count) == 0 ==> head_width(dimensions, count) == tail_width(dimensions, count),
        head_count(dimensions, count) * head_width(dimensions, count)
            + (count - head_count(dimensions, count)) * tail_width(dimensions, count) == dimensions,
{
    let tw = tail_width(dimensions, count);
    let hc = head_count(dimensions, count);
    let hw = head_width(dimensions, count);
    assert(dimensions == count * tw + hc) by (nonlinear_arith)
        requires tw == dimensions / count, hc == dimensions % count, count > 0;
    assert(hc < count) by (nonlinear_arith)
        requires hc == dimensions % count, count > 0;
    if hc > 0 {
        assert(hw == tw + 1) by (nonlinear_arith)
            requires hw == (dimensions + count - 1) / count as int, dimensions == count * tw + hc, 0 < hc < count;
    } else {
        assert(hw == tw) by (nonlinear_arith)
            requires hw == (dimensions + count - 1) / count as int, dimensions == count * tw, count > 0;
    }
    assert(hc * hw + (count - hc) * tw == dimensions) by (nonlinear_arith)
        requires
            dimensions == count * tw + hc,
            hc > 0 ==> hw == tw + 1,
            hc == 0 ==> hw == tw;
}

/// The partitions tile the dimensions: partition 0 starts at dimension 0,
/// each later one starts where the one before it ends, and the last one ends
/// at `dimensions`.
pub proof fn lemma_partitions_tile(dimensions: nat, count: nat)
    requires
        count > 0,
    ensures
        partition_start(dimensions, count, 0) == 0,
        forall|i: nat| 0 < i < count ==> #[trigger] partition_start(dimensions, count, i)
            == partition_start(dimensions, count, (i - 1) as nat) + partition_width(dimensions, count, (i - 1) as nat),
        partition_start(dimensions, count, (count - 1) as nat)
            + partition_width(dimensions, count, (count - 1) as nat) == dimensions,
        forall|i: nat| i < count ==> #[trigger] partition_start(dimensions, count, i)
            + partition_width(dimensions, count, i) <= dimensions,
{
    lemma_widths(dimensions, count);
    let tw = tail_width(dimensions, count);
    let hc = head_count(dimensions, count);
    let hw = head_width(dimensions, count);
    assert(hc * hw <= dimensions) by (nonlinear_arith)
        requires hc * hw + (count - hc) * tw == dimensions, hc < count;
    assert forall|i: nat| 0 < i < count implies #[trigger] partition_start(dimensions, count, i)
        == partition_start(dimensions, count, (i - 1) as nat) + partition_width(dimensions, count, (i - 1) as nat) by {
        if i < hc {
            assert(i * hw == (i - 1) * hw + hw) by (nonlinear_arith);
        } else if i == hc {
            assert(hc * hw == (hc - 1) * hw + hw) by (nonlinear_arith) requires hc > 0;
            assert(0 * tw == 0);
        } else {
            assert((i - hc) * tw == (i - 1 - hc) * tw + tw) by (nonlinear_arith) requires i > hc;
        }
    }
    assert forall|i: nat| i < count implies #[trigger] partition_start(dimensions, count, i)
        + partition_width(dimensions, count, i) <= dimensions by {
        if i < hc {
            assert(i * hw + hw <= hc * hw) by (nonlinear_arith) requires i < hc;
        } else {
            assert(hc * hw + (i - hc) * tw + tw <= dimensions) by (nonlinear_arith)
                requires hc * hw + (count - hc) * tw == dimensions, i < count, i >= hc;
        }
    }
    assert(hc * hw + (count - 1 - hc) * tw + tw == dimensions) by (nonlinear_arith)
        requires hc * hw + (count - hc) * tw == dimensions, hc < count;
}

/// The windows of the layout lie within the dimensions, and the first one
/// is empty only when there are no dimensions.
pub proof fn lemma_layout(dimensions: nat, tolerance: nat)
    requires
        dimensions + 3 <= usize::MAX,
    ensures
        partition_layout(dimensions, tolerance).len() == partition_count_for(dimensions, tolerance),
        partition_count_for(dimensions, tolerance) >= 1,
        forall|p: int| 0 <= p < partition_layout(dimensions, tolerance).len() ==>
            #[trigger] partition_layout(dimensions, tolerance)[p].start_dimension
                + partition_layout(dimensions, tolerance)[p].dimensions <= dimensions,
        (partition_layout(dimensions, tolerance)[0].dimensions > 0) == (dimensions > 0),
        partition_layout(dimensions, tolerance)[0].start_dimension == 0,
        forall|p: int| 0 < p < partition_layout(dimensions, tolerance).len() ==>
            #[trigger] partition_layout(dimensions, tolerance)[p].start_dimension
                == partition_layout(dimensions, tolerance)[p - 1].start_dimension
                    + partition_layout(dimensions, tolerance)[p - 1].dimensions,
        partition_layout(dimensions, tolerance)[partition_layout(dimensions, tolerance).len() - 1].start_dimension
            + partition_layout(dimensions, tolerance)[partition_layout(dimensions, tolerance).len() - 1].dimensions == dimensions,
        forall|p: int| 0 <= p < partition_layout(dimensions, tolerance).len() ==>
            #[trigger] partition_layout(dimensions, tolerance)[p].dimensions >= dimensions / partition_count_for(dimensions, tolerance),
{
    let count = partition_count_for(dimensions, tolerance);
    let layout = partition_layout(dimensions, tolerance);
    lemma_widths(dimensions, count);
    lemma_partitions_tile(dimensions, count);
    assert forall|p: int| 0 <= p < layout.len() implies
        #[trigger] layout[p].start_dimension + layout[p].dimensions <= dimensions by {
        assert(partition_start(dimensions, count, p as nat) + partition_width(dimensions, count, p as nat) <= dimensions);
    }
    let hw = head_width(dimensions, count);
    let tw = tail_width(dimensions, count);
    assert(partition_start(dimensions, count, 0) + partition_width(dimensions, count, 0) <= dimensions);
    assert forall|p: int| 0 < p < layout.len() implies
        #[trigger] layout[p].start_dimension == layout[p - 1].start_dimension + layout[p - 1].dimensions by {
        assert(partition_start(dimensions, count, p as nat) + partition_width(dimensions, count, p as nat) <= dimensions);
        assert(partition_start(dimensions, count, (p - 1) as nat) + partition_width(dimensions, count, (p - 1) as nat) <= dimensions);
        assert(partition_start(dimensions, count, p as nat)
            == partition_start(dimensions, count, (p - 1) as nat) + partition_width(dimensions, count, (p - 1) as nat));
    }
    assert(partition_start(dimensions, count, (count - 1) as nat) + partition_width(dimensions, count, (count - 1) as nat) <= dimensions);
    if dimensions > 0 {
        if head_count(dimensions, count) == 0 {
            assert(tw > 0) by (nonlinear_arith)
                requires dimensions == count * tw, dimensions > 0;
        }
    }
}

/// The dimensions of `s` that window `w` covers.
pub open spec fn window_of(s: Seq<u8>, w: Window) -> Seq<u8> {
    s.subrange(w.start_dimension as int, w.start_dimension + w.dimensions)
}

/// Whether `v` is one of the deletion variants of the window `w` of `s`.
pub open spec fn variant_of(s: Seq<u8>, w: Window, v: u64) -> bool {
    exists|j: nat| 1 <= j <= w.dimensions && v == #[trigger] deletion_hash(window_of(s, w), j)
}

/// Whether `store` indexes exactly the deletion variants of window `w` of
/// the values of `values`: a value's identifier is kept under each of the
/// variants, and under nothing else.
pub open spec fn indexes(store: Map<u64, Set<u64>>, values: Map<u64, Seq<u8>>, w: Window) -> bool {
    &&& forall|v: u64, id: u64| #[trigger] set_at(store, v).contains(id) ==>
            values.contains_key(id) && variant_of(values[id], w, v)
    &&& forall|j: nat, id: u64| 1 <= j <= w.dimensions && values.contains_key(id) ==>
            #[trigger] set_at(store, deletion_hash(window_of(values[id], w), j)).contains(id)
}

/// The number of the first `n` deletion variants of `qw` that are deletion
/// variants of window `w` of `s`.
pub open spec fn shared_count(qw: Seq<u8>, s: Seq<u8>, w: Window, n: nat) -> nat
    decreases n,
{
    if n == 0 {
        0
    } else {
        shared_count(qw, s, w, (n - 1) as nat) + if variant_of(s, w, deletion_hash(qw, n)) { 1nat } else { 0nat }
    }
}

/// Adds `id` to `store` under each of `variants`; true when it was missing
/// under one of them.
fn insert_all(store: &mut InMemoryHash<u64, u64>, variants: &Vec<u64>, id: u64) -> (r: bool)
    requires
        old(store).wf(),
    ensures
        final(store).wf(),
        forall|v: u64, x: u64| #[trigger] set_at(final(store).view(), v).contains(x) <==>
            (set_at(old(store).view(), v).contains(x) || (x == id && variants@.contains(v))),
        r == exists|i: int| 0 <= i < variants.len() && !set_at(old(store).view(), #[trigger] variants@[i]).contains(id),
{
    let ghost start = store.view();
    let mut any = false;
    let mut j: usize = 0;
    while j < variants.len()
        invariant
            store.wf(),
            j <= variants.len(),
            forall|v: u64, x: u64| #[trigger] set_at(store.view(), v).contains(x) <==>
                (set_at(start, v).contains(x) || (x == id && variants@.subrange(0, j as int).contains(v))),
            any == exists|i: int| 0 <= i < j && !set_at(start, #[trigger] variants@[i]).contains(id),
        decreases variants.len() - j,
    {
        let ghost before = store.view();
        let added = store.insert(variants[j], id);
        proof {
            let vj = variants@[j as int];
            assert forall|v: u64, x: u64| #[trigger] set_at(store.view(), v).contains(x) <==>
                (set_at(start, v).contains(x) || (x == id && variants@.subrange(0, j + 1).contains(v))) by {
                assert(set_at(store.view(), v).contains(x) <==> (set_at(before, v).contains(x) || (x == id && v == vj)));
                let s1 = variants@.subrange(0, j as int);
                let s2 = variants@.subrange(0, j + 1);
                if v == vj {
                    assert(s2[j as int] == vj);
                }
                if s2.contains(v) && v != vj {
                    let k = choose|k: int| 0 <= k < s2.len() && s2[k] == v;
                    assert(s1[k] == v);
                }
                if s1.contains(v) {
                    let k = choose|k: int| 0 <= k < s1.len() && s1[k] == v;
                    assert(s2[k] == v);
                }
            }
            if added && !any {
                assert(!set_at(before, vj).contains(id));
                if set_at(start, vj).contains(id) {
                    assert(set_at(before, vj).contains(id));
                }
                assert(!set_at(start, variants@[j as int]).contains(id));
            }
            if !added && !any {
                assert(set_at(before, vj).contains(id));
                if !set_at(start, vj).contains(id) {
                    let s1 = variants@.subrange(0, j as int);
                    assert(s1.contains(vj));
                    let k = choose|k: int| 0 <= k < s1.len() && s1[k] == vj;
                    assert(variants@[k] == vj);
                }
            }
        }
        any = any || added;
        j = j + 1;
    }
    proof { assert(variants@.subrange(0, variants.len() as int) =~= variants@); }
    any
}

/// Takes `id` out of `store` under each of `variants`; true when it was
/// there under one of them.
fn remove_all(store: &mut InMemoryHash<u64, u64>, variants: &Vec<u64>, id: u64) -> (r: bool)
    requires
        old(store).wf(),
    ensures
        final(store).wf(),
        forall|v: u64, x: u64| #[trigger] set_at(final(store).view(), v).contains(x) <==>
            (set_at(old(store).view(), v).contains(x) && !(x == id && variants@.contains(v))),
        r == exists|i: int| 0 <= i < variants.len() && set_at(old(store).view(), #[trigger] variants@[i]).contains(id),
{
    let ghost start = store.view();
    let mut any = false;
    let mut j: usize = 0;
    while j < variants.len()
        invariant
            store.wf(),
            j <= variants.len(),
            forall|v: u64, x: u64| #[trigger] set_at(store.view(), v).contains(x) <==>
                (set_at(start, v).contains(x) && !(x == id && variants@.subrange(0, j as int).contains(v))),
            any == exists|i: int| 0 <= i < j && set_at(start, #[trigger] variants@[i]).contains(id),
        decreases variants.len() - j,
    {
        let ghost before = store.view();
        let removed = store.remove(&variants[j], &id);
        proof {
            let vj = variants@[j as int];
            assert forall|v: u64, x: u64| #[trigger] set_at(store.view(), v).contains(x) <==>
                (set_at(before, v).contains(x) && !(x == id && v == vj)) by {
                if v == vj && before.contains_key(v) && before[v].remove(id).is_empty() {
                    assert(!before[v].remove(id).contains(x));
                }
            }
            assert forall|v: u64, x: u64| #[trigger] set_at(store.view(), v).contains(x) <==>
                (set_at(start, v).contains(x) && !(x == id && variants@.subrange(0, j + 1).contains(v))) by {
                assert(set_at(store.view(), v).contains(x) <==> (set_at(before, v).contains(x) && !(x == id && v == vj)));
                let s1 = variants@.subrange(0, j as int);
                let s2 = variants@.subrange(0, j + 1);
                if v == vj {
                    assert(s2[j as int] == vj);
                }
                if s2.contains(v) && v != vj {
                    let k = choose|k: int| 0 <= k < s2.len() && s2[k] == v;
                    assert(s1[k] == v);
                }
                if s1.contains(v) {
                    let k = choose|k: int| 0 <= k < s1.len() && s1[k] == v;
                    assert(s2[k] == v);
                }
            }
            if removed && !any {
                assert(set_at(before, vj).contains(id));
                assert(set_at(start, variants@[j as int]).contains(id));
            }
            if !removed && !any {
                assert(!set_at(before, vj).contains(id));
                if set_at(start, vj).contains(id) {
                    let s1 = variants@.subrange(0, j as int);
                    assert(s1.contains(vj));
                    let k = choose|k: int| 0 <= k < s1.len() && s1[k] == vj;
                    assert(variants@[k] == vj);
                }
            }
        }
        any = any || removed;
        j = j + 1;
    }
    proof { assert(variants@.subrange(0, variants.len() as int) =~= variants@); }
    any
}

/// The deletion variants of window `w` of `key`, in order.
pub open spec fn window_variants(key: Seq<u8>, w: Window, variants: Seq<u64>) -> bool {
    &&& variants.len() == w.dimensions
    &&& forall|i: int| 0 <= i < variants.len() ==> #[trigger] variants[i] == deletion_hash(window_of(key, w), (i + 1) as nat)
}

proof fn lemma_variant_listed(key: Seq<u8>, w: Window, variants: Seq<u64>, v: u64)
    requires
        window_variants(key, w, variants),
    ensures
        variants.contains(v) <==> variant_of(key, w, v),
{
    if variants.contains(v) {
        let i = choose|i: int| 0 <= i < variants.len() && variants[i] == v;
        assert(v == deletion_hash(window_of(key, w), (i + 1) as nat));
    }
    if variant_of(key, w, v) {
        let j = choose|j: nat| 1 <= j <= w.dimensions && v == #[trigger] deletion_hash(window_of(key, w), j);
        assert(variants[j - 1] == v);
    }
}

/// Indexing `key` under identifier `id` in a partition's store.
proof fn lemma_insert_part(
    old_store: Map<u64, Set<u64>>,
    new_store: Map<u64, Set<u64>>,
    values: Map<u64, Seq<u8>>,
    w: Window,
    key: Seq<u8>,
    id: u64,
    variants: Seq<u64>,
)
    requires
        indexes(old_store, values, w),
        values.contains_key(id) ==> values[id] == key,
        window_variants(key, w, variants),
        forall|v: u64, x: u64| #[trigger] set_at(new_store, v).contains(x) <==>
            (set_at(old_store, v).contains(x) || (x == id && variants.contains(v))),
    ensures
        indexes(new_store, values.insert(id, key), w),
        (exists|i: int| 0 <= i < variants.len() && !set_at(old_store, #[trigger] variants[i]).contains(id))
            == (!values.contains_key(id) && w.dimensions > 0),
{
    let nv = values.insert(id, key);
    assert forall|v: u64, x: u64| #[trigger] set_at(new_store, v).contains(x) implies
        nv.contains_key(x) && variant_of(nv[x], w, v) by {
        if !set_at(old_store, v).contains(x) {
            lemma_variant_listed(key, w, variants, v);
        }
    }
    assert forall|j: nat, x: u64| 1 <= j <= w.dimensions && nv.contains_key(x) implies
        #[trigger] set_at(new_store, deletion_hash(window_of(nv[x], w), j)).contains(x) by {
        if x == id {
            assert(variants[j - 1] == deletion_hash(window_of(key, w), j));
        } else {
            assert(set_at(old_store, deletion_hash(window_of(values[x], w), j)).contains(x));
        }
    }
    if values.contains_key(id) {
        assert forall|i: int| 0 <= i < variants.len() implies set_at(old_store, #[trigger] variants[i]).contains(id) by {
            assert(set_at(old_store, deletion_hash(window_of(values[id], w), (i + 1) as nat)).contains(id));
        }
    } else if w.dimensions > 0 {
        assert(!set_at(old_store, variants[0]).contains(id));
    }
}

/// Taking `key`, stored under identifier `id`, out of a partition's store.
proof fn lemma_remove_part(
    old_store: Map<u64, Set<u64>>,
    new_store: Map<u64, Set<u64>>,
    values: Map<u64, Seq<u8>>,
    w: Window,
    key: Seq<u8>,
    id: u64,
    variants: Seq<u64>,
)
    requires
        indexes(old_store, values, w),
        values.contains_key(id) ==> values[id] == key,
        window_variants(key, w, variants),
        forall|v: u64, x: u64| #[trigger] set_at(new_store, v).contains(x) <==>
            (set_at(old_store, v).contains(x) && !(x == id && variants.contains(v))),
    ensures
        indexes(new_store, values.remove(id), w),
        (exists|i: int| 0 <= i < variants.len() && set_at(old_store, #[trigger] variants[i]).contains(id))
            == (values.contains_key(id) && w.dimensions > 0),
{
    let nv = values.remove(id);
    assert forall|v: u64, x: u64| #[trigger] set_at(new_store, v).contains(x) implies
        nv.contains_key(x) && variant_of(nv[x], w, v) by {
        if x == id {
            lemma_variant_listed(key, w, variants, v);
        }
    }
    assert forall|j: nat, x: u64| 1 <= j <= w.dimensions && nv.contains_key(x) implies
        #[trigger] set_at(new_store, deletion_hash(window_of(nv[x], w), j)).contains(x) by {
        assert(set_at(old_store, deletion_hash(window_of(values[x], w), j)).contains(x));
    }
    if values.contains_key(id) && w.dimensions > 0 {
        assert(set_at(old_store, deletion_hash(window_of(values[id], w), 1)).contains(id));
        assert(set_at(old_store, variants[0]).contains(id));
    }
    if !values.contains_key(id) {
        assert forall|i: int| 0 <= i < variants.len() implies !set_at(old_store, #[trigger] variants[i]).contains(id) by {}
    }
}

/// The number of the first `n` of `variants` under which `store` keeps `id`.
pub open spec fn store_hits(store: Map<u64, Set<u64>>, variants: Seq<u64>, n: nat, id: u64) -> nat
    decreases n,
{
    if n == 0 {
        0
    } else {
        store_hits(store, variants, (n - 1) as nat, id) + if set_at(store, variants[n - 1]).contains(id) { 1nat } else { 0nat }
    }
}

proof fn lemma_store_hits_bound(store: Map<u64, Set<u64>>, variants: Seq<u64>, n: nat, id: u64)
    ensures
        store_hits(store, variants, n, id) <= n,
    decreases n,
{
    if n > 0 {
        lemma_store_hits_bound(store, variants, (n - 1) as nat, id);
    }
}

/// What a store that indexes `values` reports for the variants of a
/// query's window: the shared variants of the stored value.
proof fn lemma_store_hits(
    store: Map<u64, Set<u64>>,
    values: Map<u64, Seq<u8>>,
    w: Window,
    qw: Seq<u8>,
    variants: Seq<u64>,
    n: nat,
    id: u64,
)
    requires
        indexes(store, values, w),
        n <= variants.len(),
        forall|i: int| 0 <= i < variants.len() ==> #[trigger] variants[i] == deletion_hash(qw, (i + 1) as nat),
    ensures
        values.contains_key(id) ==> store_hits(store, variants, n, id) == shared_count(qw, values[id], w, n),
        !values.contains_key(id) ==> store_hits(store, variants, n, id) == 0,
    decreases n,
{
    if n > 0 {
        lemma_store_hits(store, values, w, qw, variants, (n - 1) as nat, id);
        let v = variants[n - 1];
        assert(v == deletion_hash(qw, n));
        if values.contains_key(id) && variant_of(values[id], w, v) {
            let j = choose|j: nat| 1 <= j <= w.dimensions && v == #[trigger] deletion_hash(window_of(values[id], w), j);
            assert(set_at(store, deletion_hash(window_of(values[id], w), j)).contains(id));
        }
    }
}

/// The index of `x` in `ids`, if it is there.
fn find_id(ids: &Vec<u64>, x: u64) -> (r: Option<usize>)
    ensures
        match r {
            Some(i) => i < ids.len() && ids@[i as int] == x,
            None => !ids@.contains(x),
        },
{
    let mut i: usize = 0;
    while i < ids.len()
        invariant
            i <= ids.len(),
            forall|k: int| 0 <= k < i ==> ids@[k] != x,
        decreases ids.len() - i,
    {
        if ids[i] == x {
            return Some(i);
        }
        i = i + 1;
    }
    None
}

/// For each identifier that `store` keeps under some of `variants`, the
/// number of the variants it is kept under.
fn partition_counts(store: &InMemoryHash<u64, u64>, variants: &Vec<u64>) -> (r: (Vec<u64>, Vec<usize>))
    ensures
        r.0@.no_duplicates(),
        r.0.len() == r.1.len(),
        forall|i: int| 0 <= i < r.0.len() ==>
            #[trigger] r.1@[i] == store_hits(store.view(), variants@, variants.len() as nat, r.0@[i]),
        forall|id: u64| #[trigger] store_hits(store.view(), variants@, variants.len() as nat, id) > 0 <==> r.0@.contains(id),
{
    let ghost st = store.view();
    let mut ids: Vec<u64> = Vec::new();
    let mut cnts: Vec<usize> = Vec::new();
    let mut j: usize = 0;
    while j < variants.len()
        invariant
            st == store.view(),
            j <= variants.len(),
            ids@.no_duplicates(),
            ids.len() == cnts.len(),
            forall|i: int| 0 <= i < ids.len() ==> #[trigger] cnts@[i] == store_hits(st, variants@, j as nat, ids@[i]),
            forall|id: u64| #[trigger] store_hits(st, variants@, j as nat, id) > 0 <==> ids@.contains(id),
        decreases variants.len() - j,
    {
        proof {
            assert forall|i: int| 0 <= i < ids.len() implies cnts@[i] <= j by {
                lemma_store_hits_bound(st, variants@, j as nat, ids@[i]);
            }
        }
        let ghost vj = variants@[j as int];
        match store.get(&variants[j]) {
            Some(set) => {
                let elems = set_elements(&set);
                let mut k: usize = 0;
                while k < elems.len()
                    invariant
                        j < variants.len(),
                        elems@.no_duplicates(),
                        elems@.to_set() == set_at(st, vj),
                        k <= elems.len(),
                        ids@.no_duplicates(),
                        ids.len() == cnts.len(),
                        forall|i: int| 0 <= i < ids.len() ==> #[trigger] cnts@[i]
                            == store_hits(st, variants@, j as nat, ids@[i]) + if elems@.subrange(0, k as int).contains(ids@[i]) { 1nat } else { 0nat },
                        forall|id: u64| (#[trigger] store_hits(st, variants@, j as nat, id) > 0 || elems@.subrange(0, k as int).contains(id))
                            <==> ids@.contains(id),
                        forall|i: int| 0 <= i < ids.len() ==> #[trigger] cnts@[i] <= j + 1,
                    decreases elems.len() - k,
                {
                    let e = elems[k];
                    let ghost before_e = elems@.subrange(0, k as int);
                    let ghost after_e = elems@.subrange(0, k + 1);
                    proof {
                        assert(after_e =~= before_e.push(e));
                        assert(!before_e.contains(e)) by {
                            if before_e.contains(e) {
                                let m = choose|m: int| 0 <= m < before_e.len() && before_e[m] == e;
                                assert(elems@[m] == elems@[k as int]);
                            }
                        }
                    }
                    let ghost ids_prev = ids@;
                    match find_id(&ids, e) {
                        Some(i) => {
                            proof {
                                assert(cnts@[i as int] == store_hits(st, variants@, j as nat, e));
                                assert(store_hits(st, variants@, j as nat, e) <= j) by {
                                    lemma_store_hits_bound(st, variants@, j as nat, e);
                                }
                            }
                            let c = cnts[i];
                            cnts.set(i, c + 1);
                            proof {
                                assert forall|id: u64| ids@.contains(id) <==> (ids_prev.contains(id) || id == e) by {
                                    if id == e {
                                        assert(ids@[i as int] == e);
                                    }
                                }
                            }
                        },
                        None => {
                            proof {
                                assert(store_hits(st, variants@, j as nat, e) == 0);
                            }
                            ids.push(e);
                            cnts.push(1);
                            proof {
                                assert(ids@ == ids_prev.push(e));
                                assert forall|a: int, b: int| 0 <= a < b < ids.len() implies ids@[a] != ids@[b] by {
                                    if b == ids.len() - 1 {
                                        assert(ids_prev[a] == ids@[a]);
                                    }
                                }
                                assert forall|id: u64| ids@.contains(id) <==> (ids_prev.contains(id) || id == e) by {
                                    if id == e {
                                        assert(ids@[ids.len() - 1] == e);
                                    }
                                    if ids@.contains(id) && id != e {
                                        let m = choose|m: int| 0 <= m < ids@.len() && ids@[m] == id;
                                        assert(ids_prev[m] == id);
                                    }
                                    if ids_prev.contains(id) {
                                        let m = choose|m: int| 0 <= m < ids_prev.len() && ids_prev[m] == id;
                                        assert(ids@[m] == id);
                                    }
                                }
                            }
                        },
                    }
                    proof {
                        assert forall|i: int| 0 <= i < ids.len() implies #[trigger] cnts@[i]
                            == store_hits(st, variants@, j as nat, ids@[i]) + if after_e.contains(ids@[i]) { 1nat } else { 0nat } by {
                            if ids@[i] == e {
                                assert(after_e[k as int] == e);
                            } else {
                                if after_e.contains(ids@[i]) {
                                    let m = choose|m: int| 0 <= m < after_e.len() && after_e[m] == ids@[i];
                                    assert(before_e[m] == ids@[i]);
                                }
                                if before_e.contains(ids@[i]) {
                                    let m = choose|m: int| 0 <= m < before_e.len() && before_e[m] == ids@[i];
                                    assert(after_e[m] == ids@[i]);
                                }
                            }
                        }
                        assert forall|id: u64| (#[trigger] store_hits(st, variants@, j as nat, id) > 0 || after_e.contains(id))
                            <==> ids@.contains(id) by {
                            assert(ids_prev.contains(id) <==> (store_hits(st, variants@, j as nat, id) > 0 || before_e.contains(id)));
                            assert(ids@.contains(id) <==> (ids_prev.contains(id) || id == e));
                            if id == e {
                                assert(after_e[k as int] == e);
                            } else {
                                if after_e.contains(id) {
                                    let m = choose|m: int| 0 <= m < after_e.len() && after_e[m] == id;
                                    assert(before_e[m] == id);
                                }
                                if before_e.contains(id) {
                                    let m = choose|m: int| 0 <= m < before_e.len() && before_e[m] == id;
                                    assert(after_e[m] == id);
                                }
                            }
                        }
                    }
                    k = k + 1;
                    assert(after_e == elems@.subrange(0, k as int));
                    assert forall|id: u64| (#[trigger] store_hits(st, variants@, j as nat, id) > 0 || elems@.subrange(0, k as int).contains(id))
                        <==> ids@.contains(id) by {
                        assert((store_hits(st, variants@, j as nat, id) > 0 || after_e.contains(id)) <==> ids@.contains(id));
                    }
                }
                proof {
                    assert(elems@.subrange(0, elems@.len() as int) =~= elems@);
                    assert forall|id: u64| #[trigger] elems@.contains(id) <==> set_at(st, vj).contains(id) by {
                        assert(elems@.to_set().contains(id) == elems@.contains(id));
                    }
                }
            },
            None => {},
        }
        proof {
            assert forall|i: int| 0 <= i < ids.len() implies #[trigger] cnts@[i] == store_hits(st, variants@, (j + 1) as nat, ids@[i]) by {}
            assert forall|id: u64| #[trigger] store_hits(st, variants@, (j + 1) as nat, id) > 0 <==> ids@.contains(id) by {
                assert(store_hits(st, variants@, (j + 1) as nat, id) == store_hits(st, variants@, j as nat, id)
                    + if set_at(st, vj).contains(id) { 1nat } else { 0nat });
            }
        }
        let ghost old_j = j;
        j = j + 1;
        proof {
            assert forall|id: u64| #[trigger] store_hits(st, variants@, j as nat, id) > 0 <==> ids@.contains(id) by {
                assert(store_hits(st, variants@, (old_j + 1) as nat, id) > 0 <==> ids@.contains(id));
            }
            assert forall|i: int| 0 <= i < ids.len() implies #[trigger] cnts@[i] == store_hits(st, variants@, j as nat, ids@[i]) by {
                assert(cnts@[i] == store_hits(st, variants@, (old_j + 1) as nat, ids@[i]));
            }
        }
    }
    (ids, cnts)
}

/// Every one of the first `n` deletion variants of window `w` of `s` is
/// one of its own.
proof fn lemma_shared_count_same(s: Seq<u8>, w: Window, n: nat)
    requires
        n <= w.dimensions,
    ensures
        shared_count(window_of(s, w), s, w, n) == n,
    decreases n,
{
    if n > 0 {
        lemma_shared_count_same(s, w, (n - 1) as nat);
        assert(variant_of(s, w, deletion_hash(window_of(s, w), n)));
    }
}

/// At most `n` of the first `n` variants are shared.
proof fn lemma_shared_count_bound(qw: Seq<u8>, s: Seq<u8>, w: Window, n: nat)
    ensures
        shared_count(qw, s, w, n) <= n,
    decreases n,
{
    if n > 0 {
        lemma_shared_count_bound(qw, s, w, (n - 1) as nat);
    }
}

/// A shared variant among the first `n` is counted.
proof fn lemma_shared_count_pos(qw: Seq<u8>, s: Seq<u8>, w: Window, n: nat, j: nat)
    requires
        1 <= j <= n,
        variant_of(s, w, deletion_hash(qw, j)),
    ensures
        shared_count(qw, s, w, n) >= 1,
    decreases n,
{
    if n > j {
        lemma_shared_count_pos(qw, s, w, (n - 1) as nat, j);
    }
}

/// The pigeonhole of HmSearch: with `c` partitions for tolerance `k` over
/// `d` dimensions, `z` of them equal and `o` differing in one dimension, and
/// `diffs` differences in all, the exact and 1-match counts `e` and `n`
/// that dominate them pass the filter. (When every dimension differs, no
/// partition is equal and each 1-dimension partition matches exactly.)
proof fn lemma_counts_accepted(k: nat, d: nat, c: nat, z: nat, o: nat, e: nat, n: nat, diffs: nat)
    requires
        2 * z + o + diffs >= 2 * c,
        e >= z,
        e + n >= z + o,
        diffs <= k,
        diffs <= d,
        k == 0 ==> c == 1,
        0 < k <= d ==> c == (k + 3) / 2,
        k > d ==> c == (d + 3) / 2,
        diffs == d ==> z == 0 && e >= o,
    ensures
        accepted(k, e, n),
{
}

/// A range holds at most as many differences as positions.
proof fn lemma_diff_count_le(a: Seq<u8>, b: Seq<u8>, lo: int, hi: int)
    ensures
        diff_count(a, b, lo, hi) <= if hi <= lo { 0 } else { hi - lo },
    decreases hi - lo,
{
    if hi > lo {
        lemma_diff_count_le(a, b, lo, hi - 1);
    }
}

/// A sequence differs from itself nowhere.
proof fn lemma_diff_count_self(v: Seq<u8>, hi: int)
    ensures
        diff_count(v, v, 0, hi) == 0,
    decreases hi,
{
    if hi > 0 {
        lemma_diff_count_self(v, hi - 1);
    }
}

/// HmSearch database over byte vectors, using deletion variants.
///
/// Index(T):
/// 1. Build windows [W] from T
/// 2. Generate ID, store T -> ST[ID]
/// 3. (foreach W) generate variants [V]
/// 4. (foreach W, V) Add ID to ST[V]
///
/// Query(Tq) -> [Tr]:
/// 1. Build windows [W] from Tq
/// 2. (foreach W) generate variants [V]
/// 3. (foreach W+V) Fetch ST[V] -> IDv
/// 4. Filter [IDv] -> [IDr]
/// 5. (foreach IDr) Fetch SV[IDr] -> Tr
///
/// The variants of each window are kept in a store of their own, so the
/// store of partition `p` maps a variant of window `p` to the identifiers of
/// the values that have it.
pub struct DB<T = TypeMapVecU8> {
    pub dimensions: usize,
    pub tolerance: usize,
    pub partition_count: usize,
    pub partitions: Vec<Window>,

    value_store: id_map::HashMap<u64, Vec<u8>>,
    variant_stores: Vec<InMemoryHash<u64, u64>>,
    typemap: PhantomData<T>,
}

impl<T> DB<T> {
    /// The dimensions, the tolerance and the number of partitions.
    pub closed spec fn shape(&self) -> (nat, nat, nat) {
        (self.dimensions as nat, self.tolerance as nat, self.partition_count as nat)
    }

    /// The number of dimensions, as the field `dimensions` holds it.
    pub fn dimensions(&self) -> (r: usize)
        ensures
            r == self.shape().0,
    {
        self.dimensions
    }

    /// The tolerance, as the field `tolerance` holds it.
    pub fn tolerance(&self) -> (r: usize)
        ensures
            r == self.shape().1,
    {
        self.tolerance
    }

    /// The number of partitions, as the field `partition_count` holds it.
    pub fn partition_count(&self) -> (r: usize)
        ensures
            r == self.shape().2,
    {
        self.partition_count
    }
}

/// Two databases are equal when they have the same dimensions, tolerance
/// and number of partitions; their contents are not compared.
impl<T> PartialEq for DB<T> {
    fn eq(&self, other: &Self) -> (r: bool) {
        self.dimensions == other.dimensions && self.tolerance == other.tolerance
            && self.partition_count == other.partition_count
    }
}

impl<T> PartialEqSpecImpl for DB<T> {
    open spec fn obeys_eq_spec() -> bool {
        true
    }

    open spec fn eq_spec(&self, other: &Self) -> bool {
        self.shape() == other.shape()
    }
}

impl DB<TypeMapVecU8> {
    /// The stored values, by identifier.
    pub closed spec fn values(&self) -> Map<u64, Seq<u8>> {
        self.value_store.view().map_values(|v: Vec<u8>| v@)
    }

    /// The variant store of partition `p`.
    pub closed spec fn store(&self, p: int) -> Map<u64, Set<u64>> {
        self.variant_stores[p].view()
    }

    /// Whether `x` is stored.
    pub open spec fn contains(&self, x: Seq<u8>) -> bool {
        self.values().contains_key(vec_id(x)) && self.values()[vec_id(x)] == x
    }

    /// The number of dimensions of the indexed values.
    pub open spec fn dims(&self) -> nat {
        self.shape().0
    }

    /// The tolerated Hamming distance.
    pub open spec fn tol(&self) -> nat {
        self.shape().1
    }

    /// The number of partitions.
    pub open spec fn count(&self) -> nat {
        self.shape().2
    }

    /// The partitions, in order.
    pub closed spec fn layout(&self) -> Seq<Window> {
        self.partitions@
    }

    /// The partitions, as the field `partitions` holds them.
    pub fn partitions(&self) -> (r: &Vec<Window>)
        ensures
            r@ == self.layout(),
    {
        &self.partitions
    }

    /// The window of partition `p`.
    pub open spec fn window(&self, p: int) -> Window {
        self.layout()[p]
    }

    /// Whether `x` may be inserted or removed: its identifier is free, or
    /// identifies `x` itself.
    pub open spec fn id_free_for(&self, x: Seq<u8>) -> bool {
        self.values().contains_key(vec_id(x)) ==> self.values()[vec_id(x)] == x
    }

    /// Partition `p`'s store is well formed and indexes exactly the deletion
    /// variants of window `p` of the stored values.
    closed spec fn part_ok(&self, p: int) -> bool {
        &&& self.variant_stores[p].wf()
        &&& indexes(self.store(p), self.values(), self.window(p))
    }

    /// The partitions follow the layout; the stores index exactly the
    /// deletion variants of the windows of the stored values.
    pub closed spec fn wf(&self) -> bool {
        &&& self.dimensions + 3 <= usize::MAX
        &&& self.partition_count == partition_count_for(self.dimensions as nat, self.tolerance as nat)
        &&& self.partitions@ == partition_layout(self.dimensions as nat, self.tolerance as nat)
        &&& self.variant_stores.len() == self.partition_count
        &&& forall|id: u64| #[trigger] self.values().contains_key(id) ==>
                vec_id(self.values()[id]) == id && self.values()[id].len() >= self.dimensions
        &&& forall|p: int| 0 <= p < self.partition_count ==> #[trigger] self.part_ok(p)
    }

    /// The number of deletion variants of the query's window `p` that are
    /// deletion variants of window `p` of `v` too.
    pub open spec fn hits(&self, q: Seq<u8>, p: int, v: Seq<u8>) -> nat {
        shared_count(window_of(q, self.window(p)), v, self.window(p), self.window(p).dimensions as nat)
    }

    /// The number of partitions below `n` that match `v` exactly for the
    /// query `q`: all of their variants are shared.
    pub open spec fn exact_parts(&self, q: Seq<u8>, v: Seq<u8>, n: nat) -> nat
        decreases n,
    {
        if n == 0 {
            0
        } else {
            self.exact_parts(q, v, (n - 1) as nat)
                + if 0 < self.hits(q, n - 1, v) && self.hits(q, n - 1, v) == self.window(n - 1).dimensions { 1nat } else { 0nat }
        }
    }

    /// The number of partitions below `n` that match `v` within one
    /// dimension for the query `q`: some but not all of their variants are
    /// shared.
    pub open spec fn one_parts(&self, q: Seq<u8>, v: Seq<u8>, n: nat) -> nat
        decreases n,
    {
        if n == 0 {
            0
        } else {
            self.one_parts(q, v, (n - 1) as nat)
                + if 0 < self.hits(q, n - 1, v) && self.hits(q, n - 1, v) != self.window(n - 1).dimensions { 1nat } else { 0nat }
        }
    }

    /// The stored values met by the query `q` in some partition, with their
    /// numbers of exactly matching and 1-matching partitions.
    pub open spec fn candidates(&self, q: Seq<u8>) -> Map<Seq<u8>, (nat, nat)> {
        Map::new(
            |v: Seq<u8>| self.contains(v) && self.exact_parts(q, v, self.count()) + self.one_parts(q, v, self.count()) > 0,
            |v: Seq<u8>| (self.exact_parts(q, v, self.count()), self.one_parts(q, v, self.count())),
        )
    }

    /// The candidates counted after partitions below `p`, and after the
    /// identifiers `done` of partition `p`.
    closed spec fn acc_state(&self, q: Seq<u8>, p: nat, done: Set<u64>) -> Map<Seq<u8>, (nat, nat)> {
        Map::new(
            |v: Seq<u8>| self.contains(v) && (self.exact_parts(q, v, p) + self.one_parts(q, v, p) > 0 || done.contains(vec_id(v))),
            |v: Seq<u8>| (
                self.exact_parts(q, v, p) + if done.contains(vec_id(v)) && self.hits(q, p as int, v) == self.window(p as int).dimensions { 1nat } else { 0nat },
                self.one_parts(q, v, p) + if done.contains(vec_id(v)) && self.hits(q, p as int, v) != self.window(p as int).dimensions { 1nat } else { 0nat },
            ),
        )
    }

    /// A candidate is counted in at most `n` of the first `n` partitions.
    pub proof fn lemma_parts_bound(&self, q: Seq<u8>, v: Seq<u8>, n: nat)
        ensures
            self.exact_parts(q, v, n) + self.one_parts(q, v, n) <= n,
        decreases n,
    {
        if n > 0 {
            self.lemma_parts_bound(q, v, (n - 1) as nat);
        }
    }

    /// The answer to the query `q`: the candidates that pass the HmSearch
    /// filter and lie within the tolerance of `q`.
    pub open spec fn query_result(&self, q: Seq<u8>) -> Set<Seq<u8>> {
        found_set(self.candidates(q), q, self.tol())
    }

    /// Create a new DB with in-memory stores.
    ///
    /// Partitions the keyspace as evenly as possible - all partitions
    /// will have either N or N-1 dimensions
    pub fn new(dimensions: usize, tolerance: usize) -> (r: DB<TypeMapVecU8>)
        requires
            dimensions + 3 <= usize::MAX,
            dimensions + partition_count_for(dimensions as nat, tolerance as nat) <= usize::MAX,
        ensures
            r.wf(),
            r.dims() == dimensions,
            r.tol() == tolerance,
            r.count() == partition_count_for(dimensions as nat, tolerance as nat),
            r.layout() == partition_layout(dimensions as nat, tolerance as nat),
            r.values() == Map::<u64, Seq<u8>>::empty(),
    {
        let partition_count = Self::count_partitions(dimensions, tolerance);
        let mut variant_stores: Vec<InMemoryHash<u64, u64>> = Vec::new();
        let mut i: usize = 0;
        while i < partition_count
            invariant
                i <= partition_count,
                variant_stores.len() == i,
                forall|p: int| #![trigger variant_stores[p]] 0 <= p < i ==> variant_stores[p].wf()
                    && variant_stores[p].view() == Map::<u64, Set<u64>>::empty(),
            decreases partition_count - i,
        {
            let store = InMemoryHash::new();
            variant_stores.push(store);
            assert(variant_stores[i as int] == store);
            i = i + 1;
        }
        let value_store = id_map::HashMap::new();
        let ghost stores = variant_stores@;
        proof {
            assert forall|p: int| 0 <= p < stores.len() implies #[trigger] stores[p].wf()
                && stores[p].view() == Map::<u64, Set<u64>>::empty() by {
                assert(stores[p] == variant_stores[p]);
            }
        }
        let r = DB::with_stores(dimensions, tolerance, value_store, variant_stores);
        proof {
            assert(r.values() =~= Map::<u64, Seq<u8>>::empty());
            lemma_layout(dimensions as nat, tolerance as nat);
            assert forall|p: int| 0 <= p < partition_layout(dimensions as nat, tolerance as nat).len()
                implies #[trigger] stores[p].wf() && indexes(
                    stores[p].view(),
                    r.values(),
                    partition_layout(dimensions as nat, tolerance as nat)[p],
                ) by {
            }
        }
        r
    }

    /// The number of partitions for `dimensions` dimensions and tolerance
    /// `tolerance`.
    fn count_partitions(dimensions: usize, tolerance: usize) -> (r: usize)
        requires
            dimensions + 3 <= usize::MAX,
        ensures
            r == partition_count_for(dimensions as nat, tolerance as nat),
            r >= 1,
    {
        if tolerance == 0 {
            1
        } else if tolerance > dimensions {
            (dimensions + 3) / 2
        } else {
            (tolerance + 3) / 2
        }
    }

    /// The partitions of `dimensions` dimensions for tolerance `tolerance`:
    /// as even as possible, the wider ones first.
    fn build_partitions(dimensions: usize, tolerance: usize) -> (r: Vec<Window>)
        requires
            dimensions + 3 <= usize::MAX,
            dimensions + partition_count_for(dimensions as nat, tolerance as nat) <= usize::MAX,
        ensures
            r@ == partition_layout(dimensions as nat, tolerance as nat),
    {
        // Determine number of partitions
        let partition_count = Self::count_partitions(dimensions, tolerance);

        // Determine how many dimensions to allocate to each partition
        let head_width = ratio_ceil(dimensions, partition_count);
        let tail_width = ratio_floor(dimensions, partition_count);
        let head_count = dimensions % partition_count;
        let tail_count = partition_count - head_count;
        proof {
            lemma_widths(dimensions as nat, partition_count as nat);
            lemma_partitions_tile(dimensions as nat, partition_count as nat);
        }
        let ghost layout = partition_layout(dimensions as nat, tolerance as nat);
        let ghost pc = partition_count as nat;
        let ghost dn = dimensions as nat;

        // Build the partitions
        let mut partitions: Vec<Window> = Vec::new();
        let mut i: usize = 0;
        while i < head_count
            invariant
                i <= head_count < partition_count,
                pc == partition_count,
                dn == dimensions,
                head_count == dimensions % partition_count,
                head_width == crate::db::head_width(dn, pc),
                layout == partition_layout(dn, tolerance as nat),
                partition_count == partition_count_for(dn, tolerance as nat),
                forall|k: nat| k < pc ==> #[trigger] partition_start(dn, pc, k) + partition_width(dn, pc, k) <= dimensions,
                partitions@ == layout.subrange(0, i as int),
            decreases head_count - i,
        {
            proof {
                assert(partition_start(dn, pc, i as nat) + partition_width(dn, pc, i as nat) <= dimensions);
                assert(partition_start(dn, pc, i as nat) == i * head_width);
            }
            let start_dimension = i * head_width;
            partitions.push(Window { start_dimension: start_dimension, dimensions: head_width });
            proof { assert(partitions@ =~= layout.subrange(0, i + 1)); }
            i = i + 1;
        }
        let mut i: usize = 0;
        while i < tail_count
            invariant
                i <= tail_count,
                pc == partition_count,
                dn == dimensions,
                tail_count == partition_count - head_count,
                head_count == dimensions % partition_count,
                head_count < partition_count,
                head_width == crate::db::head_width(dn, pc),
                tail_width == crate::db::tail_width(dn, pc),
                layout == partition_layout(dn, tolerance as nat),
                partition_count == partition_count_for(dn, tolerance as nat),
                forall|k: nat| k < pc ==> #[trigger] partition_start(dn, pc, k) + partition_width(dn, pc, k) <= dimensions,
                partitions@ == layout.subrange(0, head_count + i),
            decreases tail_count - i,
        {
            let ghost k = (head_count + i) as nat;
            proof {
                assert(partition_start(dn, pc, k) + partition_width(dn, pc, k) <= dimensions);
                assert(head_count * head_width + i * tail_width == partition_start(dn, pc, k));
                assert(head_count * head_width <= head_count * head_width + i * tail_width) by (nonlinear_arith);
            }
            let start_dimension = (head_count * head_width) + (i * tail_width);
            partitions.push(Window { start_dimension: start_dimension, dimensions: tail_width });
            proof { assert(partitions@ =~= layout.subrange(0, head_count + i + 1)); }
            i = i + 1;
        }
        proof { assert(partitions@ =~= layout); }
        partitions
    }

    /// Whether a value store and one variant store per partition of
    /// `layout` form a consistent database of values of at least
    /// `dimensions` dimensions: each value is kept under its identifier, and
    /// each variant store indexes exactly the deletion variants of its
    /// window of the values.
    pub open spec fn stores_consistent(
        dimensions: nat,
        layout: Seq<Window>,
        values: Map<u64, Seq<u8>>,
        variant_stores: Seq<InMemoryHash<u64, u64>>,
    ) -> bool {
        &&& forall|id: u64| #[trigger] values.contains_key(id) ==>
                vec_id(values[id]) == id && values[id].len() >= dimensions
        &&& forall|p: int| 0 <= p < layout.len() ==> #[trigger] variant_stores[p].wf()
                && indexes(variant_stores[p].view(), values, layout[p])
    }

    /// Create a new DB over the given stores, one variant store per
    /// partition.
    ///
    /// Partitions the keyspace as evenly as possible - all partitions
    /// will have either N or N-1 dimensions
    pub fn with_stores(
        dimensions: usize,
        tolerance: usize,
        value_store: id_map::HashMap<u64, Vec<u8>>,
        variant_stores: Vec<InMemoryHash<u64, u64>>,
    ) -> (r: DB<TypeMapVecU8>)
        requires
            dimensions + 3 <= usize::MAX,
            dimensions + partition_count_for(dimensions as nat, tolerance as nat) <= usize::MAX,
            variant_stores.len() == partition_count_for(dimensions as nat, tolerance as nat),
        ensures
            r.dims() == dimensions,
            r.tol() == tolerance,
            r.count() == partition_count_for(dimensions as nat, tolerance as nat),
            r.layout() == partition_layout(dimensions as nat, tolerance as nat),
            r.values() == value_store.view().map_values(|v: Vec<u8>| v@),
            forall|p: int| 0 <= p < variant_stores.len() ==> #[trigger] r.store(p) == variant_stores[p].view(),
            r.wf() == Self::stores_consistent(
                dimensions as nat,
                partition_layout(dimensions as nat, tolerance as nat),
                r.values(),
                variant_stores@,
            ),
    {
        let partition_count = Self::count_partitions(dimensions, tolerance);
        let partitions = Self::build_partitions(dimensions, tolerance);
        let r = DB {
            dimensions: dimensions,
            tolerance: tolerance,
            partition_count: partition_count,
            partitions: partitions,
            value_store: value_store,
            variant_stores: variant_stores,
            typemap: PhantomData,
        };
        proof {
            let layout = partition_layout(dimensions as nat, tolerance as nat);
            lemma_layout(dimensions as nat, tolerance as nat);
            if Self::stores_consistent(dimensions as nat, layout, r.values(), r.variant_stores@) {
                assert forall|p: int| 0 <= p < r.partition_count implies #[trigger] r.part_ok(p) by {
                    assert(r.variant_stores@[p] == r.variant_stores[p]);
                }
            }
            if r.wf() {
                assert forall|p: int| 0 <= p < layout.len() implies #[trigger] r.variant_stores@[p].wf()
                    && indexes(r.variant_stores@[p].view(), r.values(), layout[p]) by {
                    assert(r.part_ok(p));
                }
            }
        }
        r
    }

    /// Insert `key` into indices
    ///
    /// Returns true if key was added to ANY index
    pub fn insert(&mut self, key: Vec<u8>) -> (r: bool)
        requires
            old(self).wf(),
            key.len() >= old(self).dims(),
            old(self).id_free_for(key@),
        ensures
            final(self).wf(),
            final(self).values() == old(self).values().insert(vec_id(key@), key@),
            final(self).dims() == old(self).dims(),
            final(self).tol() == old(self).tol(),
            final(self).count() == old(self).count(),
            final(self).layout() == old(self).layout(),
            r == (!old(self).contains(key@) && old(self).dims() > 0),
    {
        let ghost pre = *self;
        let id = key.clone().to_id();
        self.value_store.insert(id, key.clone());
        let ghost had = pre.values().contains_key(id);
        proof {
            lemma_layout(self.dimensions as nat, self.tolerance as nat);
            assert(self.values() =~= pre.values().insert(id, key@));
        }
        let mut any = false;
        let mut p: usize = 0;
        while p < self.partition_count
            invariant
                pre.wf(),
                self.dimensions == pre.dimensions,
                self.tolerance == pre.tolerance,
                self.partition_count == pre.partition_count,
                self.partitions == pre.partitions,
                self.variant_stores.len() == self.partition_count,
                self.values() == pre.values().insert(id, key@),
                id == vec_id(key@),
                had == pre.values().contains_key(id),
                had ==> pre.values()[id] == key@,
                key.len() >= self.dimensions,
                p <= self.partition_count,
                forall|q: int| 0 <= q < p ==> #[trigger] self.part_ok(q),
                forall|q: int| p <= q < self.partition_count ==> #[trigger] self.variant_stores[q] == pre.variant_stores[q],
                any == (!had && p > 0 && self.dimensions > 0),
                forall|q: int| 0 <= q < self.partitions@.len() ==>
                    #[trigger] self.partitions@[q].start_dimension + self.partitions@[q].dimensions <= self.dimensions,
                (self.partitions@[0].dimensions > 0) == (self.dimensions > 0),
                self.partitions@.len() == self.partition_count,
            decreases self.partition_count - p,
        {
            let w = self.partitions[p];
            let kw = key.window(w.start_dimension, w.dimensions);
            let variants = kw.deletion_variants(w.dimensions);
            let ghost old_store = self.variant_stores[p as int].view();
            proof {
                assert(pre.part_ok(p as int));
                assert(window_of(key@, w) == kw@);
            }
            let ghost before = self.variant_stores@;
            let ghost db_before = *self;
            let added = insert_all(&mut self.variant_stores[p], &variants, id);
            proof {
                lemma_insert_part(old_store, self.variant_stores[p as int].view(), pre.values(), w, key@, id, variants@);
                assert(self.part_ok(p as int));
                assert forall|q: int| 0 <= q < p + 1 implies #[trigger] self.part_ok(q) by {
                    if q < p {
                        assert(db_before.part_ok(q));
                        assert(self.variant_stores[q] == before[q]);
                        assert(self.values() == db_before.values());
                        assert(self.window(q) == db_before.window(q));
                    }
                }
                assert forall|q: int| p + 1 <= q < self.partition_count implies
                    #[trigger] self.variant_stores[q] == pre.variant_stores[q] by {
                    assert(self.variant_stores[q] == before[q]);
                }
            }
            any = any || added;
            p = p + 1;
        }
        proof {
            assert(self.values() =~= pre.values().insert(vec_id(key@), key@));
        }
        any
    }

    /// Remove `key` from indices
    ///
    /// Returns true if key was removed from ANY index
    pub fn remove(&mut self, key: &Vec<u8>) -> (r: bool)
        requires
            old(self).wf(),
            key.len() >= old(self).dims(),
            old(self).id_free_for(key@),
        ensures
            final(self).wf(),
            final(self).values() == old(self).values().remove(vec_id(key@)),
            final(self).dims() == old(self).dims(),
            final(self).tol() == old(self).tol(),
            final(self).count() == old(self).count(),
            final(self).layout() == old(self).layout(),
            r == (old(self).contains(key@) && old(self).dims() > 0),
    {
        let ghost pre = *self;
        let id = key.clone().to_id();
        self.value_store.remove(&id);
        let ghost had = pre.values().contains_key(id);
        proof {
            lemma_layout(self.dimensions as nat, self.tolerance as nat);
            assert(self.values() =~= pre.values().remove(id));
        }
        let mut any = false;
        let mut p: usize = 0;
        while p < self.partition_count
            invariant
                pre.wf(),
                self.dimensions == pre.dimensions,
                self.tolerance == pre.tolerance,
                self.partition_count == pre.partition_count,
                self.partitions == pre.partitions,
                self.variant_stores.len() == self.partition_count,
                self.values() == pre.values().remove(id),
                id == vec_id(key@),
                had == pre.values().contains_key(id),
                had ==> pre.values()[id] == key@,
                key.len() >= self.dimensions,
                p <= self.partition_count,
                forall|q: int| 0 <= q < p ==> #[trigger] self.part_ok(q),
                forall|q: int| p <= q < self.partition_count ==> #[trigger] self.variant_stores[q] == pre.variant_stores[q],
                any == (had && p > 0 && self.dimensions > 0),
                forall|q: int| 0 <= q < self.partitions@.len() ==>
                    #[trigger] self.partitions@[q].start_dimension + self.partitions@[q].dimensions <= self.dimensions,
                (self.partitions@[0].dimensions > 0) == (self.dimensions > 0),
                self.partitions@.len() == self.partition_count,
            decreases self.partition_count - p,
        {
            let w = self.partitions[p];
            let kw = key.window(w.start_dimension, w.dimensions);
            let variants = kw.deletion_variants(w.dimensions);
            let ghost old_store = self.variant_stores[p as int].view();
            proof {
                assert(pre.part_ok(p as int));
                assert(window_of(key@, w) == kw@);
            }
            let ghost before = self.variant_stores@;
            let ghost db_before = *self;
            let removed = remove_all(&mut self.variant_stores[p], &variants, id);
            proof {
                lemma_remove_part(old_store, self.variant_stores[p as int].view(), pre.values(), w, key@, id, variants@);
                assert(self.part_ok(p as int));
                assert forall|q: int| 0 <= q < p + 1 implies #[trigger] self.part_ok(q) by {
                    if q < p {
                        assert(db_before.part_ok(q));
                        assert(self.variant_stores[q] == before[q]);
                        assert(self.values() == db_before.values());
                        assert(self.window(q) == db_before.window(q));
                    }
                }
                assert forall|q: int| p + 1 <= q < self.partition_count implies
                    #[trigger] self.variant_stores[q] == pre.variant_stores[q] by {
                    assert(self.variant_stores[q] == before[q]);
                }
            }
            any = any || removed;
            p = p + 1;
        }
        any
    }

    /// Whether `key` may be inserted or removed: its identifier is free, or
    /// identifies `key` itself.
    fn id_free(&self, key: &Vec<u8>) -> (r: bool)
        requires
            self.wf(),
        ensures
            r == self.id_free_for(key@),
    {
        let id = key.clone().to_id();
        if self.value_store.holds_id(id) {
            let stored = self.value_store.get(id);
            bytes_equal(&stored, key)
        } else {
            true
        }
    }

    /// Insert `key`, unless its identifier already identifies another
    /// value: `None` then, and the database is left as it was.
    pub fn insert_checked(&mut self, key: Vec<u8>) -> (r: Option<bool>)
        requires
            old(self).wf(),
            key.len() >= old(self).dims(),
        ensures
            final(self).wf(),
            final(self).dims() == old(self).dims(),
            final(self).tol() == old(self).tol(),
            final(self).count() == old(self).count(),
            final(self).layout() == old(self).layout(),
            r is Some <==> old(self).id_free_for(key@),
            r is Some ==> final(self).values() == old(self).values().insert(vec_id(key@), key@)
                && r == Some(!old(self).contains(key@) && old(self).dims() > 0),
            r is None ==> final(self).values() == old(self).values(),
    {
        if self.id_free(&key) {
            Some(self.insert(key))
        } else {
            None
        }
    }

    /// Remove `key`, unless its identifier identifies another value: `None`
    /// then, and the database is left as it was.
    pub fn remove_checked(&mut self, key: &Vec<u8>) -> (r: Option<bool>)
        requires
            old(self).wf(),
            key.len() >= old(self).dims(),
        ensures
            final(self).wf(),
            final(self).dims() == old(self).dims(),
            final(self).tol() == old(self).tol(),
            final(self).count() == old(self).count(),
            final(self).layout() == old(self).layout(),
            r is Some <==> old(self).id_free_for(key@),
            r is Some ==> final(self).values() == old(self).values().remove(vec_id(key@))
                && r == Some(old(self).contains(key@) && old(self).dims() > 0),
            r is None ==> final(self).values() == old(self).values(),
    {
        if self.id_free(key) {
            Some(self.remove(key))
        } else {
            None
        }
    }

    /// Get all indexed values within `self.tolerance` hamming distance of `key`
    pub fn get(&self, key: &Vec<u8>) -> (r: Option<HashSet<Vec<u8>>>)
        requires
            self.wf(),
            key.len() >= self.dims(),
        ensures
            match r {
                Some(s) => set_views(s@) == self.query_result(key@) && !self.query_result(key@).is_empty(),
                None => self.query_result(key@).is_empty(),
            },
    {
        let mut results = ResultAccumulator::new(self.tolerance, key.clone());
        proof {
            lemma_layout(self.dimensions as nat, self.tolerance as nat);
            assert(results.view() =~= self.acc_state(key@, 0, Set::empty()));
        }
        let mut p: usize = 0;
        while p < self.partition_count
            invariant
                self.wf(),
                key.len() >= self.dimensions,
                p <= self.partition_count,
                self.partitions@.len() == self.partition_count,
                self.variant_stores.len() == self.partition_count,
                forall|q: int| 0 <= q < self.partitions@.len() ==>
                    #[trigger] self.partitions@[q].start_dimension + self.partitions@[q].dimensions <= self.dimensions,
                results.wf(),
                results.query() == key@,
                results.tolerance() == self.tolerance,
                results.view() == self.acc_state(key@, p as nat, Set::empty()),
            decreases self.partition_count - p,
        {
            let w = self.partitions[p];
            let qw = key.window(w.start_dimension, w.dimensions);
            let variants = qw.deletion_variants(w.dimensions);
            let (ids, cnts) = partition_counts(&self.variant_stores[p], &variants);
            let ghost store = self.store(p as int);
            proof {
                assert(self.part_ok(p as int));
                assert(w == self.window(p as int));
                assert(qw@ == window_of(key@, w));
                assert forall|id: u64| #[trigger] store_hits(store, variants@, variants.len() as nat, id)
                    == if self.values().contains_key(id) { self.hits(key@, p as int, self.values()[id]) } else { 0 } by {
                    lemma_store_hits(store, self.values(), w, qw@, variants@, variants.len() as nat, id);
                }
            }
            let mut i: usize = 0;
            while i < ids.len()
                invariant
                    self.wf(),
                    p < self.partition_count,
                    w == self.window(p as int),
                    store == self.store(p as int),
                    ids@.no_duplicates(),
                    ids.len() == cnts.len(),
                    forall|k: int| 0 <= k < ids.len() ==>
                        #[trigger] cnts@[k] == store_hits(store, variants@, variants.len() as nat, ids@[k]),
                    forall|id: u64| #[trigger] store_hits(store, variants@, variants.len() as nat, id) > 0 <==> ids@.contains(id),
                    forall|id: u64| #[trigger] store_hits(store, variants@, variants.len() as nat, id)
                        == if self.values().contains_key(id) { self.hits(key@, p as int, self.values()[id]) } else { 0 },
                    i <= ids.len(),
                    results.wf(),
                    results.query() == key@,
                    results.tolerance() == self.tolerance,
                    results.view() == self.acc_state(key@, p as nat, ids@.subrange(0, i as int).to_set()),
                decreases ids.len() - i,
            {
                let id = ids[i];
                let ghost done = ids@.subrange(0, i as int).to_set();
                let ghost cnt = store_hits(store, variants@, variants.len() as nat, id);
                proof {
                    assert(ids@.contains(id));
                    assert(cnt > 0);
                    assert(self.values().contains_key(id));
                    assert(!done.contains(id)) by {
                        if done.contains(id) {
                            let m = choose|m: int| 0 <= m < i && ids@.subrange(0, i as int)[m] == id;
                            assert(ids@[m] == ids@[i as int]);
                        }
                    }
                    assert(ids@.subrange(0, i + 1).to_set() =~= done.insert(id)) by {
                        assert(ids@.subrange(0, i + 1) =~= ids@.subrange(0, i as int).push(id));
                        ids@.subrange(0, i as int).lemma_push_to_set_commute(id);
                    }
                }
                let v = self.value_store.get(id);
                let ghost val = v@;
                proof {
                    assert(val == self.values()[id]);
                    assert(vec_id(val) == id);
                    assert(self.contains(val));
                    assert(cnt == self.hits(key@, p as int, val));
                    self.lemma_parts_bound(key@, val, p as nat);
                }
                let ghost before = results.view();
                if cnts[i] == w.dimensions {
                    results.insert_zero_variant(&v);
                    proof {
                        assert(results.view() =~= self.acc_state(key@, p as nat, done.insert(id))) by {
                            assert forall|x: Seq<u8>| #![auto] self.contains(x) && vec_id(x) == id implies x == val by {}
                        }
                    }
                } else {
                    results.insert_one_variant(&v);
                    proof {
                        assert(results.view() =~= self.acc_state(key@, p as nat, done.insert(id))) by {
                            assert forall|x: Seq<u8>| #![auto] self.contains(x) && vec_id(x) == id implies x == val by {}
                        }
                    }
                }
                i = i + 1;
            }
            proof {
                assert(ids@.subrange(0, ids.len() as int) =~= ids@);
                assert(self.acc_state(key@, p as nat, ids@.to_set()) =~= self.acc_state(key@, (p + 1) as nat, Set::empty())) by {
                    assert forall|x: Seq<u8>| #![auto] self.contains(x) implies
                        (ids@.to_set().contains(vec_id(x)) <==> self.hits(key@, p as int, x) > 0) by {
                        assert(store_hits(store, variants@, variants.len() as nat, vec_id(x)) == self.hits(key@, p as int, x));
                    }
                }
            }
            p = p + 1;
        }
        proof {
            assert(results.view() =~= self.candidates(key@));
            assert forall|v: Seq<u8>| #[trigger] results.view().contains_key(v) implies
                results.view()[v].0 + results.view()[v].1 <= usize::MAX by {
                self.lemma_parts_bound(key@, v, self.count());
            }
        }
        results.found_values()
    }
}


impl DB<TypeMapVecU8> {
    /// The number of dimensions of window `p` at which `q` and `v` differ.
    pub open spec fn part_diffs(&self, q: Seq<u8>, v: Seq<u8>, p: int) -> nat {
        diff_count(q, v, self.window(p).start_dimension as int,
            self.window(p).start_dimension + self.window(p).dimensions)
    }

    /// The differences of `q` and `v` summed over the partitions below `n`.
    spec fn diffs_upto(&self, q: Seq<u8>, v: Seq<u8>, n: nat) -> nat
        decreases n,
    {
        if n == 0 { 0 } else { self.diffs_upto(q, v, (n - 1) as nat) + self.part_diffs(q, v, n - 1) }
    }

    /// The partitions below `n` in which `q` and `v` agree.
    spec fn equal_parts(&self, q: Seq<u8>, v: Seq<u8>, n: nat) -> nat
        decreases n,
    {
        if n == 0 { 0 } else { self.equal_parts(q, v, (n - 1) as nat) + if self.part_diffs(q, v, n - 1) == 0 { 1nat } else { 0nat } }
    }

    /// The partitions below `n` in which `q` and `v` differ in one dimension.
    spec fn near_parts(&self, q: Seq<u8>, v: Seq<u8>, n: nat) -> nat
        decreases n,
    {
        if n == 0 { 0 } else { self.near_parts(q, v, (n - 1) as nat) + if self.part_diffs(q, v, n - 1) == 1 { 1nat } else { 0nat } }
    }

    /// The partitions below `n` cover the dimensions up to the end of
    /// partition `n - 1`.
    proof fn lemma_diffs_upto(&self, q: Seq<u8>, v: Seq<u8>, n: nat)
        requires
            self.wf(),
            1 <= n <= self.count(),
        ensures
            self.diffs_upto(q, v, n) == diff_count(q, v, 0, self.window(n - 1).start_dimension + self.window(n - 1).dimensions),
        decreases n,
    {
        lemma_layout(self.dimensions as nat, self.tolerance as nat);
        if n == 1 {
            assert(self.diffs_upto(q, v, 0) == 0);
        } else {
            self.lemma_diffs_upto(q, v, (n - 1) as nat);
            assert(self.window(n - 1).start_dimension == self.window(n - 2).start_dimension + self.window(n - 2).dimensions);
            lemma_diff_count_split(q, v, 0, self.window(n - 1).start_dimension as int,
                self.window(n - 1).start_dimension + self.window(n - 1).dimensions);
        }
    }

    /// What one partition contributes to the counts of a stored value `v`
    /// within reach of `q`.
    proof fn lemma_part_hits(&self, q: Seq<u8>, v: Seq<u8>, p: int)
        requires
            self.wf(),
            0 <= p < self.count(),
            q.len() >= self.dims(),
            v.len() >= self.dims(),
        ensures
            self.part_diffs(q, v, p) == 0 ==> self.hits(q, p, v) == self.window(p).dimensions,
            self.part_diffs(q, v, p) == 1 ==> self.hits(q, p, v) >= 1,
    {
        lemma_layout(self.dimensions as nat, self.tolerance as nat);
        let w = self.window(p);
        let lo = w.start_dimension as int;
        let hi = w.start_dimension + w.dimensions;
        assert(hi <= self.dims());
        let qw = window_of(q, w);
        let vw = window_of(v, w);
        if self.part_diffs(q, v, p) == 0 {
            lemma_diff_count_zero(q, v, lo, hi);
            assert(qw =~= vw);
            lemma_shared_count_same(v, w, w.dimensions as nat);
        }
        if self.part_diffs(q, v, p) == 1 {
            lemma_diff_count_one(q, v, lo, hi);
            let t = choose|t: int| lo <= t < hi && q[t] != v[t] && forall|i: int| lo <= i < hi && i != t ==> q[i] == v[i];
            assert forall|i: int| 0 <= i < qw.len() && i != t - lo implies qw[i] == vw[i] by {
                assert(q[lo + i] == v[lo + i]);
            }
            lemma_deletion_hash_shared(qw, vw, (t - lo) as nat);
            assert(variant_of(v, w, deletion_hash(qw, (t - lo + 1) as nat)));
            lemma_shared_count_pos(qw, v, w, w.dimensions as nat, (t - lo + 1) as nat);
        }
    }

    /// The pigeonhole counts over the partitions below `n`.
    proof fn lemma_part_counts(&self, q: Seq<u8>, v: Seq<u8>, n: nat)
        requires
            self.wf(),
            n <= self.count(),
            self.dims() >= self.count(),
            q.len() >= self.dims(),
            v.len() >= self.dims(),
        ensures
            2 * self.equal_parts(q, v, n) + self.near_parts(q, v, n) + self.diffs_upto(q, v, n) >= 2 * n,
            self.equal_parts(q, v, n) + self.near_parts(q, v, n) <= n,
            self.exact_parts(q, v, n) >= self.equal_parts(q, v, n),
            self.exact_parts(q, v, n) + self.one_parts(q, v, n) >= self.equal_parts(q, v, n) + self.near_parts(q, v, n),
        decreases n,
    {
        if n > 0 {
            self.lemma_part_counts(q, v, (n - 1) as nat);
            self.lemma_part_hits(q, v, n - 1);
            lemma_layout(self.dimensions as nat, self.tolerance as nat);
            let c = self.count();
            assert(self.window(n - 1).dimensions >= self.dims() / c);
            assert(self.dims() / c >= 1) by (nonlinear_arith)
                requires self.dims() >= c, c >= 1;
        }
    }

    /// When `q` and `v` differ in every dimension, no partition is equal, and
    /// each partition that differs in one dimension is one dimension wide,
    /// so it matches exactly.
    proof fn lemma_full_counts(&self, q: Seq<u8>, v: Seq<u8>, n: nat)
        requires
            self.wf(),
            n <= self.count(),
            self.dims() >= self.count(),
            q.len() >= self.dims(),
            v.len() >= self.dims(),
            diff_count(q, v, 0, self.dims() as int) == self.dims(),
        ensures
            self.equal_parts(q, v, n) == 0,
            self.exact_parts(q, v, n) >= self.near_parts(q, v, n),
        decreases n,
    {
        if n > 0 {
            self.lemma_full_counts(q, v, (n - 1) as nat);
            lemma_layout(self.dimensions as nat, self.tolerance as nat);
            let p = n - 1;
            let w = self.window(p);
            let lo = w.start_dimension as int;
            let hi = w.start_dimension + w.dimensions;
            let d = self.dims() as int;
            let c = self.count();
            assert(hi <= d);
            assert(w.dimensions >= self.dims() / c);
            assert(self.dims() / c >= 1) by (nonlinear_arith)
                requires self.dims() >= c, c >= 1;
            lemma_diff_count_split(q, v, 0, lo, d);
            lemma_diff_count_split(q, v, lo, hi, d);
            lemma_diff_count_le(q, v, 0, lo);
            lemma_diff_count_le(q, v, lo, hi);
            lemma_diff_count_le(q, v, hi, d);
            assert(self.part_diffs(q, v, p) == w.dimensions);
            self.lemma_part_hits(q, v, p);
            lemma_shared_count_bound(window_of(q, w), v, w, w.dimensions as nat);
        }
    }

    /// Every value that a query finds is stored and lies within the
    /// tolerance of the query.
    pub proof fn lemma_get_sound(&self, q: Seq<u8>, v: Seq<u8>)
        requires
            self.query_result(q).contains(v),
        ensures
            self.contains(v),
            vec_hamming(q, v) <= self.tol(),
    {
    }

    /// Every stored value within the tolerance of a query is found by it,
    /// when every partition holds at least one dimension.
    pub proof fn lemma_get_complete(&self, q: Seq<u8>, v: Seq<u8>)
        requires
            self.wf(),
            self.dims() >= self.count(),
            q.len() >= self.dims(),
            self.contains(v),
            vec_hamming(q, v) <= self.tol(),
        ensures
            self.query_result(q).contains(v),
    {
        let c = self.count();
        let d = self.dims();
        let k = self.tol();
        lemma_layout(d, k);
        assert(v.len() >= d);
        self.lemma_part_counts(q, v, c);
        self.lemma_diffs_upto(q, v, c);
        lemma_diff_positions_count(q, v, common_len(q, v));
        lemma_diff_count_mono(q, v, 0, d as int, common_len(q, v) as int);
        assert(self.diffs_upto(q, v, c) <= k);
        lemma_diff_count_le(q, v, 0, d as int);
        assert(self.diffs_upto(q, v, c) <= d);
        let z = self.equal_parts(q, v, c);
        let o = self.near_parts(q, v, c);
        let e = self.exact_parts(q, v, c);
        let n = self.one_parts(q, v, c);
        if self.diffs_upto(q, v, c) == d {
            self.lemma_full_counts(q, v, c);
        }
        lemma_counts_accepted(k, d, c, z, o, e, n, self.diffs_upto(q, v, c));
        assert(self.candidates(q).contains_key(v));
    }

    /// The partitions below `n` that hold at least one dimension.
    pub open spec fn filled_parts(&self, n: nat) -> nat
        decreases n,
    {
        if n == 0 { 0 } else { self.filled_parts((n - 1) as nat) + if self.window(n - 1).dimensions > 0 { 1nat } else { 0nat } }
    }

    /// A query of a value matches it exactly in every partition that holds
    /// a dimension.
    proof fn lemma_self_parts(&self, v: Seq<u8>, n: nat)
        requires
            self.wf(),
            n <= self.count(),
        ensures
            self.exact_parts(v, v, n) == self.filled_parts(n),
            self.one_parts(v, v, n) == 0,
        decreases n,
    {
        if n > 0 {
            self.lemma_self_parts(v, (n - 1) as nat);
            lemma_shared_count_same(v, self.window(n - 1), self.window(n - 1).dimensions as nat);
        }
    }

    /// A stored value is found by a query of itself exactly when the
    /// partitions that hold a dimension, all matching exactly, pass the
    /// filter for the tolerance.
    pub proof fn lemma_stored_found(&self, v: Seq<u8>)
        requires
            self.wf(),
            self.contains(v),
        ensures
            self.query_result(v).contains(v) == accepted(self.tol(), self.filled_parts(self.count()), 0),
    {
        lemma_diff_positions_count(v, v, v.len());
        assert(diff_count(v, v, 0, v.len() as int) == 0) by {
            lemma_diff_count_self(v, v.len() as int);
        }
        assert(common_len(v, v) == v.len());
        self.lemma_self_parts(v, self.count());
        self.lemma_parts_bound(v, v, self.count());
        if accepted(self.tol(), self.filled_parts(self.count()), 0) {
            assert(self.candidates(v).contains_key(v));
        }
    }

    /// A value that is not stored is found by no query.
    pub proof fn lemma_absent_not_found(&self, q: Seq<u8>, v: Seq<u8>)
        requires
            !self.contains(v),
        ensures
            !self.query_result(q).contains(v),
    {
    }
}


impl DB<TypeMapVecU8> {
    /// An inserted value is stored, so inserting it again adds nothing.
    pub proof fn lemma_inserted_contained(before: Self, after: Self, key: Seq<u8>)
        requires
            after.values() == before.values().insert(vec_id(key), key),
        ensures
            after.contains(key),
    {
    }

    /// A value is found by a query of itself once it is inserted, when the
    /// partitions that hold a dimension pass the filter for the tolerance.
    pub proof fn lemma_inserted_found(before: Self, after: Self, key: Seq<u8>)
        requires
            after.wf(),
            after.values() == before.values().insert(vec_id(key), key),
            accepted(after.tol(), after.filled_parts(after.count()), 0),
        ensures
            after.query_result(key).contains(key),
    {
        after.lemma_stored_found(key);
    }

    /// Removing a value leaves every other stored value stored, and found
    /// by a query of itself when the partitions that hold a dimension pass
    /// the filter for the tolerance.
    pub proof fn lemma_others_stay_found(before: Self, after: Self, key: Seq<u8>, other: Seq<u8>)
        requires
            after.wf(),
            after.values() == before.values().remove(vec_id(key)),
            before.contains(other),
            vec_id(other) != vec_id(key),
            accepted(after.tol(), after.filled_parts(after.count()), 0),
        ensures
            after.contains(other),
            after.query_result(other).contains(other),
    {
        after.lemma_stored_found(other);
    }

    /// A removed value is found by no query.
    pub proof fn lemma_removed_not_found(before: Self, after: Self, key: Seq<u8>, q: Seq<u8>)
        requires
            after.values() == before.values().remove(vec_id(key)),
        ensures
            !after.query_result(q).contains(key),
    {
        assert(!after.contains(key));
    }

    /// Removing a value that was inserted into a database that did not hold
    /// its identifier gives the stored values back.
    pub proof fn lemma_remove_undoes_insert(before: Self, middle: Self, after: Self, key: Seq<u8>)
        requires
            !before.values().contains_key(vec_id(key)),
            middle.values() == before.values().insert(vec_id(key), key),
            after.values() == middle.values().remove(vec_id(key)),
        ensures
            after.values() == before.values(),
    {
        assert(after.values() =~= before.values());
    }
}

/// The stored values after a checked insertion of `v`: unchanged when the
/// identifier of `v` identifies another value.
pub open spec fn checked_insert(values: Map<u64, Seq<u8>>, v: Seq<u8>) -> Map<u64, Seq<u8>> {
    if values.contains_key(vec_id(v)) && values[vec_id(v)] != v {
        values
    } else {
        values.insert(vec_id(v), v)
    }
}

/// The stored values after checked insertions of `batch`, in order.
pub open spec fn checked_inserts(values: Map<u64, Seq<u8>>, batch: Seq<Seq<u8>>) -> Map<u64, Seq<u8>>
    decreases batch.len(),
{
    if batch.len() == 0 {
        values
    } else {
        checked_insert(checked_inserts(values, batch.drop_last()), batch.last())
    }
}

/// The answer of a checked insertion of `v` into a database of `dims`
/// dimensions holding `values`: none when the identifier of `v`
/// identifies another value, else whether `v` was added.
pub open spec fn checked_answer(values: Map<u64, Seq<u8>>, v: Seq<u8>, dims: nat) -> Option<bool> {
    if values.contains_key(vec_id(v)) && values[vec_id(v)] != v {
        None
    } else {
        Some(!values.contains_key(vec_id(v)) && dims > 0)
    }
}

impl DB<TypeMapVecU8> {
    /// Inserts each of `values` in turn, as an add request does: it stops at
    /// the first value whose length is not the number of dimensions, with
    /// the index of that value as the error, keeping the values inserted
    /// before it. Otherwise it answers, for each value, whether it was
    /// added (`None` where its identifier identifies another value, which is
    /// then left out).
    pub fn add_values(&mut self, values: Vec<Vec<u8>>) -> (r: Result<Vec<Option<bool>>, usize>)
        requires
            old(self).wf(),
        ensures
            final(self).wf(),
            final(self).shape() == old(self).shape(),
            final(self).layout() == old(self).layout(),
            match r {
                Ok(answers) => {
                    &&& forall|j: int| 0 <= j < values.len() ==> #[trigger] values[j].len() == old(self).dims()
                    &&& answers.len() == values.len()
                    &&& forall|j: int| 0 <= j < values.len() ==> #[trigger] answers[j] == checked_answer(
                        checked_inserts(old(self).values(), views(values@).take(j)),
                        values[j]@,
                        old(self).dims(),
                    )
                    &&& final(self).values() == checked_inserts(old(self).values(), views(values@))
                },
                Err(i) => {
                    &&& i < values.len()
                    &&& values[i as int].len() != old(self).dims()
                    &&& forall|j: int| 0 <= j < i ==> #[trigger] values[j].len() == old(self).dims()
                    &&& final(self).values() == checked_inserts(old(self).values(), views(values@).take(i as int))
                },
            },
    {
        let ghost before = self.values();
        let ghost vs = views(values@);
        let mut answers: Vec<Option<bool>> = Vec::new();
        let mut i: usize = 0;
        while i < values.len()
            invariant
                self.wf(),
                self.shape() == old(self).shape(),
                self.layout() == old(self).layout(),
                before == old(self).values(),
                vs == views(values@),
                i <= values.len(),
                answers.len() == i,
                forall|j: int| 0 <= j < i ==> #[trigger] values[j].len() == old(self).dims(),
                forall|j: int| 0 <= j < i ==> #[trigger] answers[j] == checked_answer(
                    checked_inserts(before, vs.take(j)),
                    values[j]@,
                    old(self).dims(),
                ),
                self.values() == checked_inserts(before, vs.take(i as int)),
            decreases values.len() - i,
        {
            if values[i].len() != self.dimensions {
                return Err(i);
            }
            let ghost prev = self.values();
            let a = self.insert_checked(values[i].clone());
            proof {
                assert(vs.take(i + 1).drop_last() =~= vs.take(i as int));
                assert(vs.take(i + 1).last() == values[i as int]@);
                assert(self.values() =~= checked_inserts(before, vs.take(i + 1)));
            }
            answers.push(a);
            i = i + 1;
        }
        proof {
            assert(vs.take(values.len() as int) =~= vs);
        }
        Ok(answers)
    }
}

} // verus!
