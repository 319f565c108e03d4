//! Deletion variants of values that carry the index of their deleted
//! dimension.
//!
//! A "deletion variant" as defined by Zhang et al. for HmSearch is a value
//! obtained by substituting a "deletion marker" for a single dimension of a
//! value.

use vstd::prelude::*;
use vstd::bytes::{spec_u64_to_le_bytes, u64_to_le_bytes};
use crate::hashing::{element_hash, hash_element, sip_hash, sip_hash_bytes};

verus! {

/// Values whose deletion variants are values of the same type.
pub trait DeletionVariant: Sized {
    /// The dimension counts for which the variants are defined.
    spec fn variants_defined(&self, dimensions: usize) -> bool;

    /// Returns all the deletion variants of `self` for its first
    /// `dimensions` dimensions, in order.
    fn deletion_variants(&self, dimensions: usize) -> Vec<Self>
        requires
            self.variants_defined(dimensions);
}

/// Iterator over the deletion variants of a value paired with a deletion
/// index: the value with one more bit set, and the (one-based) index of that
/// bit.
pub struct DeletionVariantIter<T> {
    // The value the variants are taken from; it is never modified
    source: T,
    // Iteration cursor
    index: usize,
    // The number of dimensions to iterate over
    dimensions: usize,
}

impl<T> DeletionVariantIter<T> {
    /// The value whose variants are enumerated.
    pub closed spec fn source(&self) -> T {
        self.source
    }

    /// The (zero-based) bit of the next variant.
    pub closed spec fn index(&self) -> nat {
        self.index as nat
    }

    /// The number of bits to enumerate.
    pub closed spec fn dimensions(&self) -> nat {
        self.dimensions as nat
    }

    pub fn new(v: T, dimensions: usize) -> (r: Self)
        ensures
            r.source() == v,
            r.index() == 0,
            r.dimensions() == dimensions,
    {
        DeletionVariantIter { source: v, index: 0, dimensions: dimensions }
    }
}

impl DeletionVariantIter<(u8, u8)> {
    /// The next variant, or `None` once `dimensions` variants have been
    /// returned.
    pub fn next(&mut self) -> (r: Option<(u8, u8)>)
        requires
            old(self).index() < old(self).dimensions() ==> old(self).index() < 8,
        ensures
            final(self).source() == old(self).source(),
            final(self).dimensions() == old(self).dimensions(),
            old(self).index() >= old(self).dimensions() ==> r is None && final(self).index() == old(self).index(),
            old(self).index() < old(self).dimensions() ==>
                r == Some((old(self).source().0 | ((1u8 << old(self).index() as u8) as u8), (old(self).index() + 1) as u8))
                && final(self).index() == old(self).index() + 1,
    {
        if self.index >= self.dimensions {
            None
        } else {
            let (mut next_value, _) = self.source;
            next_value = next_value | (1u8 << (self.index as u8));

            self.index = self.index + 1;
            Some((next_value, self.index as u8))
        }
    }
}

impl DeletionVariantIter<(usize, u8)> {
    /// The next variant, or `None` once `dimensions` variants have been
    /// returned.
    pub fn next(&mut self) -> (r: Option<(usize, u8)>)
        requires
            old(self).index() < old(self).dimensions() ==> old(self).index() < usize::BITS,
        ensures
            final(self).source() == old(self).source(),
            final(self).dimensions() == old(self).dimensions(),
            old(self).index() >= old(self).dimensions() ==> r is None && final(self).index() == old(self).index(),
            old(self).index() < old(self).dimensions() ==>
                r == Some((old(self).source().0 | ((1usize << old(self).index() as usize) as usize), (old(self).index() + 1) as u8))
                && final(self).index() == old(self).index() + 1,
    {
        if self.index >= self.dimensions {
            None
        } else {
            let (mut next_value, _) = self.source;
            next_value = next_value | (1usize << self.index);

            self.index = self.index + 1;
            Some((next_value, self.index as u8))
        }
    }
}

impl DeletionVariantIter<(u64, u8)> {
    /// The next variant, or `None` once `dimensions` variants have been
    /// returned.
    pub fn next(&mut self) -> (r: Option<(u64, u8)>)
        requires
            old(self).index() < old(self).dimensions() ==> old(self).index() < 64,
        ensures
            final(self).source() == old(self).source(),
            final(self).dimensions() == old(self).dimensions(),
            old(self).index() >= old(self).dimensions() ==> r is None && final(self).index() == old(self).index(),
            old(self).index() < old(self).dimensions() ==>
                r == Some((old(self).source().0 | ((1u64 << old(self).index() as u64) as u64), (old(self).index() + 1) as u8))
                && final(self).index() == old(self).index() + 1,
    {
        if self.index >= self.dimensions {
            None
        } else {
            let (mut next_value, _) = self.source;
            next_value = next_value | (1u64 << (self.index as u64));

            self.index = self.index + 1;
            Some((next_value, self.index as u8))
        }
    }
}

impl DeletionVariant for (u8, u8) {
    open spec fn variants_defined(&self, dimensions: usize) -> bool {
        dimensions <= 8
    }

    /// The value with each of its first `dimensions` bits set in turn, with
    /// the one-based index of that bit.
    fn deletion_variants(&self, dimensions: usize) -> (r: Vec<(u8, u8)>)
        ensures
            r.len() == dimensions,
            forall|i: int| 0 <= i < dimensions ==> #[trigger] r[i] == (self.0 | ((1u8 << i as u8) as u8), (i + 1) as u8),
    {
        let mut iter = DeletionVariantIter::new(*self, dimensions);
        let mut r: Vec<(u8, u8)> = Vec::new();
        while r.len() < dimensions
            invariant
                dimensions <= 8,
                iter.source() == *self,
                iter.dimensions() == dimensions,
                iter.index() == r.len(),
                r.len() <= dimensions,
                forall|i: int| 0 <= i < r.len() ==> #[trigger] r[i] == (self.0 | ((1u8 << i as u8) as u8), (i + 1) as u8),
            decreases dimensions - r.len(),
        {
            if let Some(v) = iter.next() {
                r.push(v);
            }
        }
        r
    }
}

impl DeletionVariant for (usize, u8) {
    open spec fn variants_defined(&self, dimensions: usize) -> bool {
        dimensions <= usize::BITS
    }

    /// The value with each of its first `dimensions` bits set in turn, with
    /// the one-based index of that bit.
    fn deletion_variants(&self, dimensions: usize) -> (r: Vec<(usize, u8)>)
        ensures
            r.len() == dimensions,
            forall|i: int| 0 <= i < dimensions ==> #[trigger] r[i] == (self.0 | ((1usize << i as usize) as usize), (i + 1) as u8),
    {
        let mut iter = DeletionVariantIter::new(*self, dimensions);
        let mut r: Vec<(usize, u8)> = Vec::new();
        while r.len() < dimensions
            invariant
                dimensions <= usize::BITS,
                iter.source() == *self,
                iter.dimensions() == dimensions,
                iter.index() == r.len(),
                r.len() <= dimensions,
                forall|i: int| 0 <= i < r.len() ==> #[trigger] r[i] == (self.0 | ((1usize << i as usize) as usize), (i + 1) as u8),
            decreases dimensions - r.len(),
        {
            if let Some(v) = iter.next() {
                r.push(v);
            }
        }
        r
    }
}

impl DeletionVariant for (u64, u8) {
    open spec fn variants_defined(&self, dimensions: usize) -> bool {
        dimensions <= 64
    }

    /// The value with each of its first `dimensions` bits set in turn, with
    /// the one-based index of that bit.
    fn deletion_variants(&self, dimensions: usize) -> (r: Vec<(u64, u8)>)
        ensures
            r.len() == dimensions,
            forall|i: int| 0 <= i < dimensions ==> #[trigger] r[i] == (self.0 | ((1u64 << i as u64) as u64), (i + 1) as u8),
    {
        let mut iter = DeletionVariantIter::new(*self, dimensions);
        let mut r: Vec<(u64, u8)> = Vec::new();
        while r.len() < dimensions
            invariant
                dimensions <= 64,
                iter.source() == *self,
                iter.dimensions() == dimensions,
                iter.index() == r.len(),
                r.len() <= dimensions,
                forall|i: int| 0 <= i < r.len() ==> #[trigger] r[i] == (self.0 | ((1u64 << i as u64) as u64), (i + 1) as u8),
            decreases dimensions - r.len(),
        {
            if let Some(v) = iter.next() {
                r.push(v);
            }
        }
        r
    }
}

// ---------------------------------------------------------------------------
// Vectors: variants as XOR-ed hashes, with zero-based positions

/// The hash of the position `index`: the SipHash of its eight
/// little-endian bytes.
pub open spec fn index_hash(index: u64) -> u64 {
    sip_hash_bytes(spec_u64_to_le_bytes(index))
}

/// The XOR of the hashes of the first `n` elements of `s`, each hashed with
/// its zero-based position.
pub open spec fn xor_prefix0(s: Seq<u8>, n: nat) -> u64
    decreases n,
{
    if n == 0 {
        0
    } else {
        xor_prefix0(s, (n - 1) as nat) ^ element_hash(s[n - 1], (n - 1) as u64)
    }
}

/// The variant returned for the (zero-based) position `k` of `s`: the XOR
/// of all the element hashes with the hash of element `k` taken out, mixed
/// with the hashes of positions `0`, `k` and `k + 1` (the positions the
/// iterator backs out and adds in as it goes).
pub open spec fn xor_variant(s: Seq<u8>, k: nat) -> u64 {
    xor_prefix0(s, s.len()) ^ index_hash(0) ^ element_hash(s[k as int], k as u64) ^ index_hash(k as u64) ^ index_hash((k + 1) as u64)
}

/// The XOR of the hashes of the first `n` elements of `s`, each hashed with
/// its zero-based position, leaving out the element at index `t`.
pub open spec fn xor_prefix0_except(s: Seq<u8>, n: nat, t: nat) -> u64
    decreases n,
{
    if n == 0 {
        0
    } else if n - 1 == t {
        xor_prefix0_except(s, (n - 1) as nat, t)
    } else {
        xor_prefix0_except(s, (n - 1) as nat, t) ^ element_hash(s[n - 1], (n - 1) as u64)
    }
}

/// Taking the element at `t` out of a prefix that holds it.
proof fn lemma_xor_prefix0_split(s: Seq<u8>, n: nat, t: nat)
    requires
        t < n <= s.len(),
    ensures
        xor_prefix0(s, n) == xor_prefix0_except(s, n, t) ^ element_hash(s[t as int], t as u64),
    decreases n,
{
    if n - 1 == t {
        lemma_xor_prefix0_except_beyond(s, (n - 1) as nat, t);
    } else {
        lemma_xor_prefix0_split(s, (n - 1) as nat, t);
        let a = xor_prefix0_except(s, (n - 1) as nat, t);
        let b = element_hash(s[t as int], t as u64);
        let c = element_hash(s[n - 1], (n - 1) as u64);
        assert((a ^ b) ^ c == (a ^ c) ^ b) by (bit_vector);
    }
}

/// Leaving out an index beyond the prefix changes nothing.
proof fn lemma_xor_prefix0_except_beyond(s: Seq<u8>, n: nat, t: nat)
    requires
        n <= t,
    ensures
        xor_prefix0(s, n) == xor_prefix0_except(s, n, t),
    decreases n,
{
    if n > 0 {
        lemma_xor_prefix0_except_beyond(s, (n - 1) as nat, t);
    }
}

/// Prefixes that agree everywhere but at `t` hash alike once `t` is left out.
proof fn lemma_xor_prefix0_except_agree(s1: Seq<u8>, s2: Seq<u8>, n: nat, t: nat)
    requires
        n <= s1.len(),
        n <= s2.len(),
        forall|i: int| 0 <= i < n && i != t ==> s1[i] == s2[i],
    ensures
        xor_prefix0_except(s1, n, t) == xor_prefix0_except(s2, n, t),
    decreases n,
{
    if n > 0 {
        lemma_xor_prefix0_except_agree(s1, s2, (n - 1) as nat, t);
    }
}

/// Vectors of one length that differ at most at index `k` share their
/// variant for position `k`: the hash of the element at `k` is taken out,
/// and every other term depends only on `k` and the other elements.
pub proof fn lemma_xor_variant_shared(s1: Seq<u8>, s2: Seq<u8>, k: nat)
    requires
        s1.len() == s2.len(),
        k < s1.len(),
        forall|i: int| 0 <= i < s1.len() && i != k ==> s1[i] == s2[i],
    ensures
        xor_variant(s1, k) == xor_variant(s2, k),
{
    lemma_xor_prefix0_split(s1, s1.len(), k);
    lemma_xor_prefix0_split(s2, s2.len(), k);
    lemma_xor_prefix0_except_agree(s1, s2, s1.len(), k);
    let x = xor_prefix0_except(s1, s1.len(), k);
    let h1 = element_hash(s1[k as int], k as u64);
    let h2 = element_hash(s2[k as int], k as u64);
    let i0 = index_hash(0);
    let ik = index_hash(k as u64);
    let ik1 = index_hash((k + 1) as u64);
    assert((((((x ^ h1) ^ i0) ^ h1) ^ ik) ^ ik1) == (((((x ^ h2) ^ i0) ^ h2) ^ ik) ^ ik1)) by (bit_vector);
}

/// The hash of the position `index`.
fn hash_index(index: u64) -> (r: u64)
    ensures
        r == index_hash(index),
{
    let bytes = u64_to_le_bytes(index);
    sip_hash(bytes.as_slice())
}

/// Iterator over the XOR-hash deletion variants of a vector.
pub struct XORDeletionVariantIter<T> {
    // XOR-ed hash of each dimension index & value in `source`
    source_hash: u64,
    // The value the variants are taken from; it is never modified
    source: T,
    // Iteration cursor
    index: usize,
    // The number of dimensions to iterate over
    dimensions: usize,
}

proof fn lemma_xor_step(a: u64, i0: u64, hp: u64, ip: u64, ik: u64, hk: u64, ik1: u64)
    ensures
        (a ^ i0 ^ hp ^ ip ^ ik) ^ hp ^ ip ^ hk ^ ik1 == a ^ i0 ^ hk ^ ik ^ ik1,
        (a ^ hk) ^ ik1 == a ^ i0 ^ hk ^ i0 ^ ik1,
{
    assert((a ^ i0 ^ hp ^ ip ^ ik) ^ hp ^ ip ^ hk ^ ik1 == a ^ i0 ^ hk ^ ik ^ ik1) by (bit_vector);
    assert((a ^ hk) ^ ik1 == a ^ i0 ^ hk ^ i0 ^ ik1) by (bit_vector);
}

impl XORDeletionVariantIter<Vec<u8>> {
    /// The vector whose variants are enumerated.
    pub closed spec fn source(&self) -> Seq<u8> {
        self.source@
    }

    /// The (zero-based) position of the next variant.
    pub closed spec fn index(&self) -> nat {
        self.index as nat
    }

    /// The number of positions to enumerate.
    pub closed spec fn dimensions(&self) -> nat {
        self.dimensions as nat
    }

    /// The kept XOR matches the cursor.
    pub closed spec fn wf(&self) -> bool {
        &&& self.index <= self.source@.len()
        &&& self.index == 0 ==> self.source_hash == xor_prefix0(self.source@, self.source@.len())
        &&& self.index > 0 ==> self.source_hash == xor_variant(self.source@, (self.index - 1) as nat)
    }

    pub fn new(v: Vec<u8>, dimensions: usize) -> (r: Self)
        ensures
            r.wf(),
            r.source() == v@,
            r.index() == 0,
            r.dimensions() == dimensions,
    {
        let mut source_hash: u64 = 0;
        let mut i: usize = 0;
        while i < v.len()
            invariant
                i <= v.len(),
                source_hash == xor_prefix0(v@, i as nat),
            decreases v.len() - i,
        {
            let h = hash_element(v[i], i as u64);
            source_hash = source_hash ^ h;
            i = i + 1;
        }
        XORDeletionVariantIter { source_hash, source: v, index: 0, dimensions }
    }

    /// The next variant, or `None` once `dimensions` variants have been
    /// returned.
    pub fn next(&mut self) -> (r: Option<u64>)
        requires
            old(self).wf(),
            old(self).index() < old(self).dimensions() ==> old(self).index() < old(self).source().len(),
            old(self).dimensions() < usize::MAX,
        ensures
            final(self).wf(),
            final(self).source() == old(self).source(),
            final(self).dimensions() == old(self).dimensions(),
            old(self).index() >= old(self).dimensions() ==> r is None && final(self).index() == old(self).index(),
            old(self).index() < old(self).dimensions() ==> r == Some(xor_variant(old(self).source(), old(self).index()))
                && final(self).index() == old(self).index() + 1,
    {
        if self.index >= self.dimensions {
            None
        } else {
            let ghost s = self.source@;
            let ghost a = xor_prefix0(s, s.len());
            let ghost k = self.index as nat;
            let before = self.source_hash;
            let i0 = hash_index(0);
            let mut hp: u64 = 0;
            let mut ip: u64 = 0;
            if self.index > 0 {
                // Add the last index's hash back in
                hp = hash_element(self.source[self.index - 1], (self.index - 1) as u64);
                // Remove the last index
                ip = hash_index((self.index - 1) as u64);
            }
            // Remove the current index's hash
            let hk = hash_element(self.source[self.index], self.index as u64);
            // Add the current index
            let ik1 = hash_index((self.index + 1) as u64);
            proof {
                if k > 0 {
                    lemma_xor_step(a, i0, hp, ip, index_hash(k as u64), hk, ik1);
                } else {
                    lemma_xor_step(a, i0, 0, 0, 0, hk, ik1);
                }
            }
            self.source_hash = before ^ hp ^ ip ^ hk ^ ik1;
            proof {
                if k == 0 {
                    assert(before ^ 0u64 ^ 0u64 == before) by (bit_vector);
                }
            }
            self.index = self.index + 1;
            Some(self.source_hash)
        }
    }
}

/// The deletion variants of the first `dimensions` positions of `v`, in
/// order: what `XORDeletionVariantIter::new(v, dimensions)` yields before
/// its first `None`.
pub fn vec_deletion_variants(v: Vec<u8>, dimensions: usize) -> (r: Vec<u64>)
    requires
        dimensions <= v.len(),
        dimensions < usize::MAX,
    ensures
        r.len() == dimensions,
        forall|i: int| 0 <= i < dimensions ==> #[trigger] r[i] == xor_variant(v@, i as nat),
{
    let ghost s = v@;
    let mut it = XORDeletionVariantIter::new(v, dimensions);
    let mut r: Vec<u64> = Vec::new();
    loop
        invariant
            it.wf(),
            it.source() == s,
            it.dimensions() == dimensions,
            it.index() == r.len(),
            r.len() <= dimensions <= s.len(),
            dimensions < usize::MAX,
            forall|i: int| 0 <= i < r.len() ==> #[trigger] r[i] == xor_variant(s, i as nat),
        ensures
            r.len() == dimensions,
            forall|i: int| 0 <= i < r.len() ==> #[trigger] r[i] == xor_variant(s, i as nat),
        decreases dimensions - r.len(),
    {
        match it.next() {
            Some(x) => r.push(x),
            None => break,
        }
    }
    r
}

} // verus!
