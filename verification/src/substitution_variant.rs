//! Substitution variants of values of the same type: the values at Hamming
//! distance one.

use vstd::prelude::*;

verus! {

/// Return a set of single-dimensional permutation variants
pub trait SubstitutionVariant: Sized {
    /// The dimension counts for which the variants are defined.
    spec fn variants_defined(&self, dimensions: usize) -> bool;

    /// Substitution variants
    ///
    /// Returns an array of all possible single-column permutation of `self`.
    /// Alternately, returns the set of values with Hamming distance `1` from
    /// `self`
    fn substitution_variants(&self, dimensions: usize) -> Vec<Self>
        requires
            self.variants_defined(dimensions);
}

/// Iterator for values that can be treated as a bitmap
pub struct BinarySubstitutionVariantIter<T> {
    // The value the variants are taken from; it is never modified
    source: T,
    // Iteration cursor
    index: usize,
    // The number of dimensions to iterate over
    dimensions: usize,
}

impl<T> BinarySubstitutionVariantIter<T> {
    /// The value whose variants are enumerated.
    pub closed spec fn source(&self) -> T {
        self.source
    }

    /// The bit flipped in the next variant.
    pub closed spec fn index(&self) -> nat {
        self.index as nat
    }

    /// The number of bits to enumerate.
    pub closed spec fn dimensions(&self) -> nat {
        self.dimensions as nat
    }

    pub fn new(v: T, dimensions: usize) -> (r: Self)
        ensures
            r.source() == v,
            r.index() == 0,
            r.dimensions() == dimensions,
    {
        BinarySubstitutionVariantIter { source: v, index: 0, dimensions: dimensions }
    }
}

impl BinarySubstitutionVariantIter<u8> {
    /// The source with the next bit flipped, or `None` once `dimensions`
    /// variants have been returned.
    pub fn next(&mut self) -> (r: Option<u8>)
        requires
            old(self).index() < old(self).dimensions() ==> old(self).index() < 8,
        ensures
            final(self).source() == old(self).source(),
            final(self).dimensions() == old(self).dimensions(),
            old(self).index() >= old(self).dimensions() ==> r is None && final(self).index() == old(self).index(),
            old(self).index() < old(self).dimensions() ==>
                r == Some(old(self).source() ^ ((1u8 << old(self).index() as u8) as u8))
                && final(self).index() == old(self).index() + 1,
    {
        if self.index >= self.dimensions {
            None
        } else {
            let next_value = self.source ^ (1u8 << (self.index as u8));
            self.index = self.index + 1;
            Some(next_value)
        }
    }
}

impl BinarySubstitutionVariantIter<u64> {
    /// The source with the next bit flipped, or `None` once `dimensions`
    /// variants have been returned.
    pub fn next(&mut self) -> (r: Option<u64>)
        requires
            old(self).index() < old(self).dimensions() ==> old(self).index() < 64,
        ensures
            final(self).source() == old(self).source(),
            final(self).dimensions() == old(self).dimensions(),
            old(self).index() >= old(self).dimensions() ==> r is None && final(self).index() == old(self).index(),
            old(self).index() < old(self).dimensions() ==>
                r == Some(old(self).source() ^ ((1u64 << old(self).index() as u64) as u64))
                && final(self).index() == old(self).index() + 1,
    {
        if self.index >= self.dimensions {
            None
        } else {
            let next_value = self.source ^ (1u64 << (self.index as u64));
            self.index = self.index + 1;
            Some(next_value)
        }
    }
}

impl SubstitutionVariant for u8 {
    open spec fn variants_defined(&self, dimensions: usize) -> bool {
        dimensions <= 8
    }

    /// The value with each of its first `dimensions` bits flipped in turn.
    fn substitution_variants(&self, dimensions: usize) -> (r: Vec<u8>)
        ensures
            r.len() == dimensions,
            forall|i: int| 0 <= i < dimensions ==> #[trigger] r[i] == *self ^ ((1u8 << i as u8) as u8),
    {
        let mut iter = BinarySubstitutionVariantIter::new(*self, dimensions);
        let mut r: Vec<u8> = Vec::new();
        while r.len() < dimensions
            invariant
                dimensions <= 8,
                iter.source() == *self,
                iter.dimensions() == dimensions,
                iter.index() == r.len(),
                r.len() <= dimensions,
                forall|i: int| 0 <= i < r.len() ==> #[trigger] r[i] == *self ^ ((1u8 << i as u8) as u8),
            decreases dimensions - r.len(),
        {
            if let Some(v) = iter.next() {
                r.push(v);
            }
        }
        r
    }
}

impl SubstitutionVariant for u64 {
    open spec fn variants_defined(&self, dimensions: usize) -> bool {
        dimensions <= 64
    }

    /// The value with each of its first `dimensions` bits flipped in turn.
    fn substitution_variants(&self, dimensions: usize) -> (r: Vec<u64>)
        ensures
            r.len() == dimensions,
            forall|i: int| 0 <= i < dimensions ==> #[trigger] r[i] == *self ^ ((1u64 << i as u64) as u64),
    {
        let mut iter = BinarySubstitutionVariantIter::new(*self, dimensions);
        let mut r: Vec<u64> = Vec::new();
        while r.len() < dimensions
            invariant
                dimensions <= 64,
                iter.source() == *self,
                iter.dimensions() == dimensions,
                iter.index() == r.len(),
                r.len() <= dimensions,
                forall|i: int| 0 <= i < r.len() ==> #[trigger] r[i] == *self ^ ((1u64 << i as u64) as u64),
            decreases dimensions - r.len(),
        {
            if let Some(v) = iter.next() {
                r.push(v);
            }
        }
        r
    }
}

} // verus!
