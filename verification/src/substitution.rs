//! Substitution variants: the values at Hamming distance one.

use vstd::prelude::*;
use crate::window::Window;
use crate::bits::{popcount, lemma_popcount_one_bit};

verus! {

/// The key under which a variant of a window is indexed: the window's
/// value itself, or one of its substitution variants.
#[derive(Clone, Debug, PartialEq, Eq, Hash)]
pub enum Key<T> {
    One(Window, T),
    Zero(Window, T),
}

/// Return a set of single-dimensional permutation variants
pub trait SubstitutionVariant<V>: Sized {
    /// The dimension counts for which the variants are defined.
    spec fn variants_defined(&self, dimensions: usize) -> bool;

    /// Returns a non-permuted version of `self`
    ///
    /// This method exists to support compact variants
    fn null_variant(&self) -> V;

    /// Substitution variants
    ///
    /// Returns an array of all possible single-column permutation of `self`.
    /// Alternately, returns the set of values with Hamming distance `1` from
    /// `self`
    fn substitution_variants(&self, dimensions: usize) -> Vec<V>
        requires
            self.variants_defined(dimensions);
}

/// Iterator for values that can be treated as a bitmap
pub struct BinaryIter<T> {
    // The value the variants are taken from; it is never modified
    source: T,
    // Iteration cursor
    index: usize,
    // The number of dimensions to iterate over
    dimensions: usize,
}

impl<T> BinaryIter<T> {
    /// The value whose variants are enumerated.
    pub closed spec fn source(&self) -> T {
        self.source
    }

    /// The bit flipped in the next variant.
    pub closed spec fn index(&self) -> nat {
        self.index as nat
    }

    /// The number of bits to enumerate.
    pub closed spec fn dimensions(&self) -> nat {
        self.dimensions as nat
    }

    pub fn new(v: T, dimensions: usize) -> (r: Self)
        ensures
            r.source() == v,
            r.index() == 0,
            r.dimensions() == dimensions,
    {
        BinaryIter { source: v, index: 0, dimensions: dimensions }
    }
}

impl BinaryIter<u8> {
    /// The source with the next bit flipped, or `None` once `dimensions`
    /// variants have been returned.
    pub fn next(&mut self) -> (r: Option<u8>)
        requires
            old(self).index() < old(self).dimensions() ==> old(self).index() < 8,
        ensures
            final(self).source() == old(self).source(),
            final(self).dimensions() == old(self).dimensions(),
            old(self).index() >= old(self).dimensions() ==> r is None && final(self).index() == old(self).index(),
            old(self).index() < old(self).dimensions() ==>
                r == Some(old(self).source() ^ ((1u8 << old(self).index() as u8) as u8))
                && final(self).index() == old(self).index() + 1,
    {
        if self.index >= self.dimensions {
            None
        } else {
            let next_value = self.source ^ (1u8 << (self.index as u8));
            self.index = self.index + 1;
            Some(next_value)
        }
    }
}

impl BinaryIter<u16> {
    /// The source with the next bit flipped, or `None` once `dimensions`
    /// variants have been returned.
    pub fn next(&mut self) -> (r: Option<u16>)
        requires
            old(self).index() < old(self).dimensions() ==> old(self).index() < 16,
        ensures
            final(self).source() == old(self).source(),
            final(self).dimensions() == old(self).dimensions(),
            old(self).index() >= old(self).dimensions() ==> r is None && final(self).index() == old(self).index(),
            old(self).index() < old(self).dimensions() ==>
                r == Some(old(self).source() ^ ((1u16 << old(self).index() as u16) as u16))
                && final(self).index() == old(self).index() + 1,
    {
        if self.index >= self.dimensions {
            None
        } else {
            let next_value = self.source ^ (1u16 << (self.index as u16));
            self.index = self.index + 1;
            Some(next_value)
        }
    }
}

impl BinaryIter<u32> {
    /// The source with the next bit flipped, or `None` once `dimensions`
    /// variants have been returned.
    pub fn next(&mut self) -> (r: Option<u32>)
        requires
            old(self).index() < old(self).dimensions() ==> old(self).index() < 32,
        ensures
            final(self).source() == old(self).source(),
            final(self).dimensions() == old(self).dimensions(),
            old(self).index() >= old(self).dimensions() ==> r is None && final(self).index() == old(self).index(),
            old(self).index() < old(self).dimensions() ==>
                r == Some(old(self).source() ^ ((1u32 << old(self).index() as u32) as u32))
                && final(self).index() == old(self).index() + 1,
    {
        if self.index >= self.dimensions {
            None
        } else {
            let next_value = self.source ^ (1u32 << (self.index as u32));
            self.index = self.index + 1;
            Some(next_value)
        }
    }
}

impl BinaryIter<u64> {
    /// The source with the next bit flipped, or `None` once `dimensions`
    /// variants have been returned.
    pub fn next(&mut self) -> (r: Option<u64>)
        requires
            old(self).index() < old(self).dimensions() ==> old(self).index() < 64,
        ensures
            final(self).source() == old(self).source(),
            final(self).dimensions() == old(self).dimensions(),
            old(self).index() >= old(self).dimensions() ==> r is None && final(self).index() == old(self).index(),
            old(self).index() < old(self).dimensions() ==>
                r == Some(old(self).source() ^ ((1u64 << old(self).index() as u64) as u64))
                && final(self).index() == old(self).index() + 1,
    {
        if self.index >= self.dimensions {
            None
        } else {
            let next_value = self.source ^ (1u64 << (self.index as u64));
            self.index = self.index + 1;
            Some(next_value)
        }
    }
}

/// `words` with bit `index % 64` of word `index / 64` flipped.
pub open spec fn flip_word_bit(words: Seq<u64>, index: nat) -> Seq<u64> {
    words.update((index / 64) as int, words[(index / 64) as int] ^ ((1u64 << (index % 64) as u64) as u64))
}

impl BinaryIter<[u64; 4]> {
    /// The source with the next bit flipped, or `None` once `dimensions`
    /// variants have been returned.
    pub fn next(&mut self) -> (r: Option<[u64; 4]>)
        requires
            old(self).index() < old(self).dimensions() ==> old(self).index() < 256,
        ensures
            final(self).source() == old(self).source(),
            final(self).dimensions() == old(self).dimensions(),
            old(self).index() >= old(self).dimensions() ==> r is None && final(self).index() == old(self).index(),
            old(self).index() < old(self).dimensions() ==> r is Some
                && r->0@ == flip_word_bit(old(self).source()@, old(self).index())
                && final(self).index() == old(self).index() + 1,
    {
        let offset = self.index / 64;
        let index = self.index % 64;

        if self.index >= self.dimensions {
            None
        } else {
            let mut next_value = self.source;
            let w = next_value[offset];
            next_value.set(offset, w ^ (1u64 << (index as u64)));
            self.index = self.index + 1;
            Some(next_value)
        }
    }
}

impl BinaryIter<[u64; 2]> {
    /// The source with the next bit flipped, or `None` once `dimensions`
    /// variants have been returned.
    pub fn next(&mut self) -> (r: Option<[u64; 2]>)
        requires
            old(self).index() < old(self).dimensions() ==> old(self).index() < 128,
        ensures
            final(self).source() == old(self).source(),
            final(self).dimensions() == old(self).dimensions(),
            old(self).index() >= old(self).dimensions() ==> r is None && final(self).index() == old(self).index(),
            old(self).index() < old(self).dimensions() ==> r is Some
                && r->0@ == flip_word_bit(old(self).source()@, old(self).index())
                && final(self).index() == old(self).index() + 1,
    {
        let offset = self.index / 64;
        let index = self.index % 64;

        if self.index >= self.dimensions {
            None
        } else {
            let mut next_value = self.source;
            let w = next_value[offset];
            next_value.set(offset, w ^ (1u64 << (index as u64)));
            self.index = self.index + 1;
            Some(next_value)
        }
    }
}

impl SubstitutionVariant<u8> for u8 {
    open spec fn variants_defined(&self, dimensions: usize) -> bool {
        dimensions <= 8
    }

    fn null_variant(&self) -> (r: u8)
        ensures
            r == *self,
    {
        *self
    }

    /// The value with each of its first `dimensions` bits flipped in turn.
    fn substitution_variants(&self, dimensions: usize) -> (r: Vec<u8>)
        ensures
            r.len() == dimensions,
            forall|i: int| 0 <= i < dimensions ==> #[trigger] r[i] == *self ^ ((1u8 << i as u8) as u8),
    {
        let mut iter = BinaryIter::new(*self, dimensions);
        let mut r: Vec<u8> = Vec::new();
        while r.len() < dimensions
            invariant
                dimensions <= 8,
                iter.source() == *self,
                iter.dimensions() == dimensions,
                iter.index() == r.len(),
                r.len() <= dimensions,
                forall|i: int| 0 <= i < r.len() ==> #[trigger] r[i] == *self ^ ((1u8 << i as u8) as u8),
            decreases dimensions - r.len(),
        {
            if let Some(v) = iter.next() {
                r.push(v);
            }
        }
        r
    }
}

impl SubstitutionVariant<u16> for u16 {
    open spec fn variants_defined(&self, dimensions: usize) -> bool {
        dimensions <= 16
    }

    fn null_variant(&self) -> (r: u16)
        ensures
            r == *self,
    {
        *self
    }

    /// The value with each of its first `dimensions` bits flipped in turn.
    fn substitution_variants(&self, dimensions: usize) -> (r: Vec<u16>)
        ensures
            r.len() == dimensions,
            forall|i: int| 0 <= i < dimensions ==> #[trigger] r[i] == *self ^ ((1u16 << i as u16) as u16),
    {
        let mut iter = BinaryIter::new(*self, dimensions);
        let mut r: Vec<u16> = Vec::new();
        while r.len() < dimensions
            invariant
                dimensions <= 16,
                iter.source() == *self,
                iter.dimensions() == dimensions,
                iter.index() == r.len(),
                r.len() <= dimensions,
                forall|i: int| 0 <= i < r.len() ==> #[trigger] r[i] == *self ^ ((1u16 << i as u16) as u16),
            decreases dimensions - r.len(),
        {
            if let Some(v) = iter.next() {
                r.push(v);
            }
        }
        r
    }
}

impl SubstitutionVariant<u32> for u32 {
    open spec fn variants_defined(&self, dimensions: usize) -> bool {
        dimensions <= 32
    }

    fn null_variant(&self) -> (r: u32)
        ensures
            r == *self,
    {
        *self
    }

    /// The value with each of its first `dimensions` bits flipped in turn.
    fn substitution_variants(&self, dimensions: usize) -> (r: Vec<u32>)
        ensures
            r.len() == dimensions,
            forall|i: int| 0 <= i < dimensions ==> #[trigger] r[i] == *self ^ ((1u32 << i as u32) as u32),
    {
        let mut iter = BinaryIter::new(*self, dimensions);
        let mut r: Vec<u32> = Vec::new();
        while r.len() < dimensions
            invariant
                dimensions <= 32,
                iter.source() == *self,
                iter.dimensions() == dimensions,
                iter.index() == r.len(),
                r.len() <= dimensions,
                forall|i: int| 0 <= i < r.len() ==> #[trigger] r[i] == *self ^ ((1u32 << i as u32) as u32),
            decreases dimensions - r.len(),
        {
            if let Some(v) = iter.next() {
                r.push(v);
            }
        }
        r
    }
}

impl SubstitutionVariant<u64> for u64 {
    open spec fn variants_defined(&self, dimensions: usize) -> bool {
        dimensions <= 64
    }

    fn null_variant(&self) -> (r: u64)
        ensures
            r == *self,
    {
        *self
    }

    /// The value with each of its first `dimensions` bits flipped in turn.
    fn substitution_variants(&self, dimensions: usize) -> (r: Vec<u64>)
        ensures
            r.len() == dimensions,
            forall|i: int| 0 <= i < dimensions ==> #[trigger] r[i] == *self ^ ((1u64 << i as u64) as u64),
    {
        let mut iter = BinaryIter::new(*self, dimensions);
        let mut r: Vec<u64> = Vec::new();
        while r.len() < dimensions
            invariant
                dimensions <= 64,
                iter.source() == *self,
                iter.dimensions() == dimensions,
                iter.index() == r.len(),
                r.len() <= dimensions,
                forall|i: int| 0 <= i < r.len() ==> #[trigger] r[i] == *self ^ ((1u64 << i as u64) as u64),
            decreases dimensions - r.len(),
        {
            if let Some(v) = iter.next() {
                r.push(v);
            }
        }
        r
    }
}

impl SubstitutionVariant<[u64; 4]> for [u64; 4] {
    open spec fn variants_defined(&self, dimensions: usize) -> bool {
        dimensions <= 256
    }

    fn null_variant(&self) -> (r: [u64; 4])
        ensures
            r == *self,
    {
        *self
    }

    /// The value with each of its first `dimensions` bits flipped in turn,
    /// bit `i` being bit `i % 64` of word `i / 64`.
    fn substitution_variants(&self, dimensions: usize) -> (r: Vec<[u64; 4]>)
        ensures
            r.len() == dimensions,
            forall|i: int| 0 <= i < dimensions ==> (#[trigger] r[i])@ == flip_word_bit(self@, i as nat),
    {
        let mut iter = BinaryIter::new(*self, dimensions);
        let mut r: Vec<[u64; 4]> = Vec::new();
        while r.len() < dimensions
            invariant
                dimensions <= 256,
                iter.source() == *self,
                iter.dimensions() == dimensions,
                iter.index() == r.len(),
                r.len() <= dimensions,
                forall|i: int| 0 <= i < r.len() ==> (#[trigger] r[i])@ == flip_word_bit(self@, i as nat),
            decreases dimensions - r.len(),
        {
            if let Some(v) = iter.next() {
                r.push(v);
            }
        }
        r
    }
}

impl SubstitutionVariant<[u64; 2]> for [u64; 2] {
    open spec fn variants_defined(&self, dimensions: usize) -> bool {
        dimensions <= 128
    }

    fn null_variant(&self) -> (r: [u64; 2])
        ensures
            r == *self,
    {
        *self
    }

    /// The value with each of its first `dimensions` bits flipped in turn,
    /// bit `i` being bit `i % 64` of word `i / 64`.
    fn substitution_variants(&self, dimensions: usize) -> (r: Vec<[u64; 2]>)
        ensures
            r.len() == dimensions,
            forall|i: int| 0 <= i < dimensions ==> (#[trigger] r[i])@ == flip_word_bit(self@, i as nat),
    {
        let mut iter = BinaryIter::new(*self, dimensions);
        let mut r: Vec<[u64; 2]> = Vec::new();
        while r.len() < dimensions
            invariant
                dimensions <= 128,
                iter.source() == *self,
                iter.dimensions() == dimensions,
                iter.index() == r.len(),
                r.len() <= dimensions,
                forall|i: int| 0 <= i < r.len() ==> (#[trigger] r[i])@ == flip_word_bit(self@, i as nat),
            decreases dimensions - r.len(),
        {
            if let Some(v) = iter.next() {
                r.push(v);
            }
        }
        r
    }
}


/// Every substitution variant of a `u64` is at bit distance one from it.
pub proof fn lemma_substitution_distance_one(a: u64, i: u64)
    requires
        i < 64,
    ensures
        popcount(((a ^ ((1u64 << i) as u64)) ^ a) as nat) == 1,
{
    assert((a ^ (1u64 << i)) ^ a == 1u64 << i) by (bit_vector);
    lemma_popcount_one_bit(i);
}

} // verus!
