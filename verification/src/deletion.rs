//! Deletion variants.
//!
//! A deletion variant of a value, as defined by Zhang et al. for HmSearch, is
//! the value with one dimension replaced by a "deletion marker". Two values
//! that differ in exactly one dimension share the deletion variant of that
//! dimension; equal values share all of them.

use vstd::prelude::*;
use crate::hashing::{element_hash, hash_element};
use crate::window::Window;

verus! {

/// A `u8` value with the index of its deleted dimension.
pub type Du8 = (u8, u8);
/// A `u32` value with the index of its deleted dimension.
pub type Du32 = (u32, u8);
/// A `u64` value with the index of its deleted dimension.
pub type Du64 = (u64, u8);
/// A two-word value with the index of its deleted dimension.
pub type Du64x2 = ([u64; 2], u8);
/// A four-word value with the index of its deleted dimension.
pub type Du64x4 = ([u64; 4], u8);
/// The deletion variant of a vector: a hash (see `XORIter`).
pub type Dvec = u64;

/// The key under which a variant of a window is indexed.
pub type Key<T> = (Window, T);

/// Values whose deletion variants can be enumerated.
pub trait DeletionVariant<T>: Sized {
    /// The dimension counts for which `deletion_variants` is defined.
    spec fn variants_defined(&self, dimensions: usize) -> bool;

    /// The deletion variants of `self` for each of its first `dimensions`
    /// dimensions, in order.
    fn deletion_variants(&self, dimensions: usize) -> Vec<T>
        requires
            self.variants_defined(dimensions);
}

// ---------------------------------------------------------------------------
// Vectors: variants as XOR-ed element hashes

/// The XOR of the hashes of the first `n` elements of `s`, each hashed with
/// its one-based position.
pub open spec fn xor_prefix(s: Seq<u8>, n: nat) -> u64
    decreases n,
{
    if n == 0 {
        0
    } else {
        xor_prefix(s, (n - 1) as nat) ^ element_hash(s[n - 1], n as u64)
    }
}

/// The XOR of the hashes of all the elements of `s`.
pub open spec fn xor_all(s: Seq<u8>) -> u64 {
    xor_prefix(s, s.len())
}

/// The deletion variant of `s` for its (one-based) dimension `j`: the XOR of
/// the hashes of every element but the `j`-th.
pub open spec fn deletion_hash(s: Seq<u8>, j: nat) -> u64 {
    xor_all(s) ^ element_hash(s[j - 1], j as u64)
}

/// The XOR of the hashes of the first `n` elements of `s`, leaving out the
/// element at index `t`.
pub open spec fn xor_prefix_except(s: Seq<u8>, n: nat, t: nat) -> u64
    decreases n,
{
    if n == 0 {
        0
    } else if n - 1 == t {
        xor_prefix_except(s, (n - 1) as nat, t)
    } else {
        xor_prefix_except(s, (n - 1) as nat, t) ^ element_hash(s[n - 1], n as u64)
    }
}

proof fn lemma_xor_cancel(a: u64, b: u64)
    ensures
        (a ^ b) ^ b == a,
        (a ^ 0) == a,
{
    assert((a ^ b) ^ b == a) by (bit_vector);
    assert(a ^ 0 == a) by (bit_vector);
}

proof fn lemma_xor_swap(a: u64, b: u64, c: u64)
    ensures
        (a ^ b) ^ c == (a ^ c) ^ b,
{
    assert((a ^ b) ^ c == (a ^ c) ^ b) by (bit_vector);
}

/// Taking the element at `t` out of a prefix that holds it.
proof fn lemma_xor_prefix_split(s: Seq<u8>, n: nat, t: nat)
    requires
        t < n <= s.len(),
    ensures
        xor_prefix(s, n) == xor_prefix_except(s, n, t) ^ element_hash(s[t as int], (t + 1) as u64),
    decreases n,
{
    if n - 1 == t {
        assert(xor_prefix(s, (n - 1) as nat) == xor_prefix_except(s, (n - 1) as nat, t)) by {
            lemma_xor_prefix_except_beyond(s, (n - 1) as nat, t);
        }
    } else {
        lemma_xor_prefix_split(s, (n - 1) as nat, t);
        lemma_xor_swap(
            xor_prefix_except(s, (n - 1) as nat, t),
            element_hash(s[t as int], (t + 1) as u64),
            element_hash(s[n - 1], n as u64),
        );
    }
}

/// Leaving out an index beyond the prefix changes nothing.
proof fn lemma_xor_prefix_except_beyond(s: Seq<u8>, n: nat, t: nat)
    requires
        n <= t,
    ensures
        xor_prefix(s, n) == xor_prefix_except(s, n, t),
    decreases n,
{
    if n > 0 {
        lemma_xor_prefix_except_beyond(s, (n - 1) as nat, t);
    }
}

/// Prefixes that agree everywhere but at `t` hash alike once `t` is left out.
proof fn lemma_xor_prefix_except_agree(s1: Seq<u8>, s2: Seq<u8>, n: nat, t: nat)
    requires
        n <= s1.len(),
        n <= s2.len(),
        forall|i: int| 0 <= i < n && i != t ==> s1[i] == s2[i],
    ensures
        xor_prefix_except(s1, n, t) == xor_prefix_except(s2, n, t),
    decreases n,
{
    if n > 0 {
        lemma_xor_prefix_except_agree(s1, s2, (n - 1) as nat, t);
    }
}

/// The deletion variant of a dimension is the XOR of the hashes of the other
/// elements.
pub proof fn lemma_deletion_hash_leaves_out(s: Seq<u8>, t: nat)
    requires
        t < s.len(),
    ensures
        deletion_hash(s, t + 1) == xor_prefix_except(s, s.len(), t),
{
    lemma_xor_prefix_split(s, s.len(), t);
    lemma_xor_cancel(xor_prefix_except(s, s.len(), t), element_hash(s[t as int], (t + 1) as u64));
}

/// Vectors of one length that differ at most at index `t` share their
/// deletion variant for dimension `t + 1`.
pub proof fn lemma_deletion_hash_shared(s1: Seq<u8>, s2: Seq<u8>, t: nat)
    requires
        s1.len() == s2.len(),
        t < s1.len(),
        forall|i: int| 0 <= i < s1.len() && i != t ==> s1[i] == s2[i],
    ensures
        deletion_hash(s1, t + 1) == deletion_hash(s2, t + 1),
{
    lemma_deletion_hash_leaves_out(s1, t);
    lemma_deletion_hash_leaves_out(s2, t);
    lemma_xor_prefix_except_agree(s1, s2, s1.len(), t);
}

/// Iterator over the deletion variants of a vector.
///
/// Each variant is the XOR of the hashes of the vector's elements, each
/// hashed with its position, leaving out the deleted element. The iterator
/// XORs all the hashes once, then for each dimension adds back the element
/// left out before and takes out the current one. Distinct vectors may share
/// variants through hash collisions; that costs a query time, never a result.
pub struct XORIter<T> {
    // XOR-ed hash of each dimension index & value in `source`
    source_hash: u64,
    // The value the variants are taken from; it is never modified
    source: T,
    // Iteration cursor (one-based)
    index: usize,
    // The number of dimensions to iterate over
    dimensions: usize,
}

/// The XOR kept by an iterator over `s` whose cursor is at `index`.
pub open spec fn xor_iter_state(s: Seq<u8>, index: nat) -> u64 {
    if index <= 1 { xor_all(s) } else { deletion_hash(s, (index - 1) as nat) }
}

impl XORIter<Vec<u8>> {
    /// The vector whose variants are enumerated.
    pub closed spec fn source(&self) -> Seq<u8> {
        self.source@
    }

    /// The (one-based) dimension of the next variant.
    pub closed spec fn index(&self) -> nat {
        self.index as nat
    }

    /// The number of dimensions to enumerate.
    pub closed spec fn dimensions(&self) -> nat {
        self.dimensions as nat
    }

    /// The kept XOR matches the cursor.
    pub closed spec fn wf(&self) -> bool {
        &&& self.index >= 1
        &&& self.source_hash == xor_iter_state(self.source@, self.index as nat)
    }

    /// An iterator over the first `dimensions` deletion variants of `v`.
    pub fn new(v: Vec<u8>, dimensions: usize) -> (r: Self)
        ensures
            r.wf(),
            r.source() == v@,
            r.index() == 1,
            r.dimensions() == dimensions,
    {
        let mut source_hash: u64 = 0;
        let mut i: usize = 0;
        while i < v.len()
            invariant
                i <= v.len(),
                source_hash == xor_prefix(v@, i as nat),
            decreases v.len() - i,
        {
            // positions start at 1 so that every element changes the hash
            let position: usize = i + 1;
            let h = hash_element(v[i], position as u64);
            source_hash = source_hash ^ h;
            i = i + 1;
        }
        XORIter { source_hash, source: v, index: 1, dimensions }
    }

    /// The next deletion variant, or `None` once `dimensions` variants have
    /// been returned.
    pub fn next(&mut self) -> (r: Option<Dvec>)
        requires
            old(self).wf(),
            old(self).index() <= old(self).dimensions() ==> old(self).index() <= old(self).source().len(),
            old(self).index() < usize::MAX,
        ensures
            final(self).wf(),
            final(self).source() == old(self).source(),
            final(self).dimensions() == old(self).dimensions(),
            old(self).index() > old(self).dimensions() ==> r is None && final(self).index() == old(self).index(),
            old(self).index() <= old(self).dimensions() ==> r == Some(deletion_hash(old(self).source(), old(self).index()))
                && final(self).index() == old(self).index() + 1,
    {
        if self.index > self.dimensions {
            None
        } else {
            let ghost s = self.source@;
            if self.index > 1 {
                // Add the last index's hash back in
                let h = hash_element(self.source[self.index - 2], (self.index - 1) as u64);
                proof { lemma_xor_cancel(xor_all(s), h); }
                self.source_hash = self.source_hash ^ h;
            }
            // Remove the current index's hash
            let h = hash_element(self.source[self.index - 1], self.index as u64);
            self.source_hash = self.source_hash ^ h;
            self.index = self.index + 1;
            Some(self.source_hash)
        }
    }
}

impl DeletionVariant<Dvec> for Vec<u8> {
    open spec fn variants_defined(&self, dimensions: usize) -> bool {
        dimensions <= self.len() && dimensions < usize::MAX
    }

    /// The XOR hash variants of the first `dimensions` dimensions.
    fn deletion_variants(&self, dimensions: usize) -> (r: Vec<Dvec>)
        ensures
            r.len() == dimensions,
            forall|j: int| 0 <= j < dimensions ==> #[trigger] r[j] == deletion_hash(self@, (j + 1) as nat),
    {
        let mut iter = XORIter::new(self.clone(), dimensions);
        let mut r: Vec<Dvec> = Vec::new();
        while r.len() < dimensions
            invariant
                iter.wf(),
                iter.source() == self@,
                iter.dimensions() == dimensions <= self.len(),
                dimensions < usize::MAX,
                iter.index() == r.len() + 1,
                r.len() <= dimensions,
                forall|j: int| 0 <= j < r.len() ==> #[trigger] r[j] == deletion_hash(self@, (j + 1) as nat),
            decreases dimensions - r.len(),
        {
            if let Some(v) = iter.next() {
                r.push(v);
            }
        }
        r
    }
}


// ---------------------------------------------------------------------------
// Scalars: variants as the value with the deleted bit set

/// Iterator over the deletion variants of a scalar: the value with one bit
/// set, and the (one-based) index of that bit.
pub struct DeletionIter<T> {
    source: T,
    index: usize,
    dimensions: usize,
}

impl<T> DeletionIter<T> {
    /// The value whose variants are enumerated.
    pub closed spec fn source(&self) -> T {
        self.source
    }

    /// The (zero-based) bit of the next variant.
    pub closed spec fn index(&self) -> nat {
        self.index as nat
    }

    /// The number of bits to enumerate.
    pub closed spec fn dimensions(&self) -> nat {
        self.dimensions as nat
    }

    pub fn new(v: T, dimensions: usize) -> (r: Self)
        ensures
            r.source() == v,
            r.index() == 0,
            r.dimensions() == dimensions,
    {
        DeletionIter { source: v, index: 0, dimensions: dimensions }
    }
}

impl DeletionIter<u8> {
    /// The next variant, or `None` once `dimensions` variants have been
    /// returned.
    pub fn next(&mut self) -> (r: Option<(u8, u8)>)
        requires
            old(self).index() < old(self).dimensions() ==> old(self).index() < 8,
        ensures
            final(self).source() == old(self).source(),
            final(self).dimensions() == old(self).dimensions(),
            old(self).index() >= old(self).dimensions() ==> r is None && final(self).index() == old(self).index(),
            old(self).index() < old(self).dimensions() ==>
                r == Some((old(self).source() | ((1u8 << old(self).index() as u8) as u8), (old(self).index() + 1) as u8))
                && final(self).index() == old(self).index() + 1,
    {
        if self.index >= self.dimensions {
            None
        } else {
            let next_value = self.source | (1u8 << (self.index as u8));

            self.index = self.index + 1;
            Some((next_value, self.index as u8))
        }
    }
}

impl DeletionIter<usize> {
    /// The next variant, or `None` once `dimensions` variants have been
    /// returned.
    pub fn next(&mut self) -> (r: Option<(usize, u8)>)
        requires
            old(self).index() < old(self).dimensions() ==> old(self).index() < usize::BITS,
        ensures
            final(self).source() == old(self).source(),
            final(self).dimensions() == old(self).dimensions(),
            old(self).index() >= old(self).dimensions() ==> r is None && final(self).index() == old(self).index(),
            old(self).index() < old(self).dimensions() ==>
                r == Some((old(self).source() | ((1usize << old(self).index() as usize) as usize), (old(self).index() + 1) as u8))
                && final(self).index() == old(self).index() + 1,
    {
        if self.index >= self.dimensions {
            None
        } else {
            let next_value = self.source | (1usize << self.index);

            self.index = self.index + 1;
            Some((next_value, self.index as u8))
        }
    }
}

impl DeletionIter<u64> {
    /// The next variant, or `None` once `dimensions` variants have been
    /// returned.
    pub fn next(&mut self) -> (r: Option<(u64, u8)>)
        requires
            old(self).index() < old(self).dimensions() ==> old(self).index() < 64,
        ensures
            final(self).source() == old(self).source(),
            final(self).dimensions() == old(self).dimensions(),
            old(self).index() >= old(self).dimensions() ==> r is None && final(self).index() == old(self).index(),
            old(self).index() < old(self).dimensions() ==>
                r == Some((old(self).source() | ((1u64 << old(self).index() as u64) as u64), (old(self).index() + 1) as u8))
                && final(self).index() == old(self).index() + 1,
    {
        if self.index >= self.dimensions {
            None
        } else {
            let next_value = self.source | (1u64 << (self.index as u64));

            self.index = self.index + 1;
            Some((next_value, self.index as u8))
        }
    }
}

impl DeletionVariant<(u8, u8)> for u8 {
    open spec fn variants_defined(&self, dimensions: usize) -> bool {
        dimensions <= 8
    }

    /// The value with each of its first `dimensions` bits set in turn, with
    /// the one-based index of that bit.
    fn deletion_variants(&self, dimensions: usize) -> (r: Vec<(u8, u8)>)
        ensures
            r.len() == dimensions,
            forall|i: int| 0 <= i < dimensions ==> #[trigger] r[i] == (*self | ((1u8 << i as u8) as u8), (i + 1) as u8),
    {
        let mut iter = DeletionIter::new(*self, dimensions);
        let mut r: Vec<(u8, u8)> = Vec::new();
        while r.len() < dimensions
            invariant
                dimensions <= 8,
                iter.source() == *self,
                iter.dimensions() == dimensions,
                iter.index() == r.len(),
                r.len() <= dimensions,
                forall|i: int| 0 <= i < r.len() ==> #[trigger] r[i] == (*self | ((1u8 << i as u8) as u8), (i + 1) as u8),
            decreases dimensions - r.len(),
        {
            if let Some(v) = iter.next() {
                r.push(v);
            }
        }
        r
    }
}

impl DeletionVariant<(usize, u8)> for usize {
    open spec fn variants_defined(&self, dimensions: usize) -> bool {
        dimensions <= usize::BITS
    }

    /// The value with each of its first `dimensions` bits set in turn, with
    /// the one-based index of that bit.
    fn deletion_variants(&self, dimensions: usize) -> (r: Vec<(usize, u8)>)
        ensures
            r.len() == dimensions,
            forall|i: int| 0 <= i < dimensions ==> #[trigger] r[i] == (*self | ((1usize << i as usize) as usize), (i + 1) as u8),
    {
        let mut iter = DeletionIter::new(*self, dimensions);
        let mut r: Vec<(usize, u8)> = Vec::new();
        while r.len() < dimensions
            invariant
                dimensions <= usize::BITS,
                iter.source() == *self,
                iter.dimensions() == dimensions,
                iter.index() == r.len(),
                r.len() <= dimensions,
                forall|i: int| 0 <= i < r.len() ==> #[trigger] r[i] == (*self | ((1usize << i as usize) as usize), (i + 1) as u8),
            decreases dimensions - r.len(),
        {
            if let Some(v) = iter.next() {
                r.push(v);
            }
        }
        r
    }
}

impl DeletionVariant<(u64, u8)> for u64 {
    open spec fn variants_defined(&self, dimensions: usize) -> bool {
        dimensions <= 64
    }

    /// The value with each of its first `dimensions` bits set in turn, with
    /// the one-based index of that bit.
    fn deletion_variants(&self, dimensions: usize) -> (r: Vec<(u64, u8)>)
        ensures
            r.len() == dimensions,
            forall|i: int| 0 <= i < dimensions ==> #[trigger] r[i] == (*self | ((1u64 << i as u64) as u64), (i + 1) as u8),
    {
        let mut iter = DeletionIter::new(*self, dimensions);
        let mut r: Vec<(u64, u8)> = Vec::new();
        while r.len() < dimensions
            invariant
                dimensions <= 64,
                iter.source() == *self,
                iter.dimensions() == dimensions,
                iter.index() == r.len(),
                r.len() <= dimensions,
                forall|i: int| 0 <= i < r.len() ==> #[trigger] r[i] == (*self | ((1u64 << i as u64) as u64), (i + 1) as u8),
            decreases dimensions - r.len(),
        {
            if let Some(v) = iter.next() {
                r.push(v);
            }
        }
        r
    }
}


/// The deletion variants of a scalar are pairwise distinct: each carries
/// the (one-based) index of the bit it deletes.
pub proof fn lemma_scalar_variants_distinct(a8: u8, a: usize, a64: u64, i: nat, j: nat)
    requires
        i < j < 64,
    ensures
        (a8 | ((1u8 << i as u8) as u8), (i + 1) as u8) != (a8 | ((1u8 << j as u8) as u8), (j + 1) as u8),
        (a | ((1usize << i as usize) as usize), (i + 1) as u8) != (a | ((1usize << j as usize) as usize), (j + 1) as u8),
        (a64 | ((1u64 << i as u64) as u64), (i + 1) as u8) != (a64 | ((1u64 << j as u64) as u64), (j + 1) as u8),
{
}

/// Scalars at Hamming distance one share the deletion variant of the bit
/// they differ in.
pub proof fn lemma_scalar_variant_shared(a: u64, k: u64)
    requires
        k < 64,
    ensures
        (a | ((1u64 << k) as u64)) == ((a ^ ((1u64 << k) as u64)) | ((1u64 << k) as u64)),
{
    assert((a | (1u64 << k)) == ((a ^ (1u64 << k)) | (1u64 << k))) by (bit_vector)
        requires k < 64;
}

} // verus!
