//! A value with one of its dimensions deleted.

use vstd::prelude::*;
use crate::bits::{popcount, popcount_u64, lemma_xor_widen_u8};
use crate::value::Window;

verus! {

/// A value whose dimension `deleted_dimension` is deleted.
#[derive(Clone, Copy, Debug, PartialEq, Eq)]
pub struct DeletedValue<V> {
    pub value: V,
    pub deleted_dimension: usize,
}

/// The Hamming distance between two bytes with deleted dimensions: the bits
/// that differ outside both deleted dimensions, and the two deleted
/// dimensions themselves when they differ.
pub open spec fn deleted_u8_hamming(x: u8, dx: nat, y: u8, dy: nat) -> nat {
    let mask = ((1u8 << dx as u8) as u8) | ((1u8 << dy as u8) as u8);
    popcount(((x | mask) ^ (y | mask)) as nat) + if dx == dy { 0nat } else { 2nat }
}

/// `v` with bit `d` cleared.
pub open spec fn clear_bit(v: u8, d: u8) -> u8 {
    v & !((1u8 << d) as u8)
}

proof fn lemma_masked_xor(x: u8, y: u8, a: u8, b: u8)
    by (bit_vector)
    requires
        a < 8,
        b < 8,
    ensures
        (x | (((1u8 << a) as u8) | ((1u8 << b) as u8))) ^ (y | (((1u8 << a) as u8) | ((1u8 << b) as u8)))
            == clear_bit(clear_bit(x ^ y, a), b),
        (y | (((1u8 << b) as u8) | ((1u8 << a) as u8))) ^ (x | (((1u8 << b) as u8) | ((1u8 << a) as u8)))
            == clear_bit(clear_bit(x ^ y, a), b),
{
}

/// The distance between two bytes with deleted dimensions below 8 is
/// symmetric, and counts the bits in which the bytes differ outside both
/// deleted dimensions, plus two when the deleted dimensions differ: a
/// deleted dimension is never counted as a differing bit.
pub proof fn lemma_deleted_u8_hamming(x: u8, dx: nat, y: u8, dy: nat)
    requires
        dx < 8,
        dy < 8,
    ensures
        deleted_u8_hamming(x, dx, y, dy) == deleted_u8_hamming(y, dy, x, dx),
        deleted_u8_hamming(x, dx, y, dy)
            == popcount(clear_bit(clear_bit(x ^ y, dx as u8), dy as u8) as nat) + if dx == dy { 0nat } else { 2nat },
{
    lemma_masked_xor(x, y, dx as u8, dy as u8);
}

impl<V: Window> DeletedValue<V> {
    /// The window of the value, the deleted dimension kept as it is.
    pub fn window(&self, start_dimension: usize, dimensions: usize) -> (r: Self)
        requires
            self.value.window_defined(start_dimension, dimensions),
        ensures
            self.value.is_window(start_dimension, dimensions, r.value),
            r.deleted_dimension == self.deleted_dimension,
    {
        DeletedValue {
            value: self.value.window(start_dimension, dimensions),
            deleted_dimension: self.deleted_dimension,
        }
    }
}

impl DeletedValue<u8> {
    /// The value with each of the first `dimensions` dimensions deleted in
    /// turn.
    pub fn permutations(&self, dimensions: usize) -> (r: Vec<DeletedValue<u8>>)
        ensures
            r.len() == dimensions,
            forall|i: int| 0 <= i < dimensions ==> #[trigger] r[i] == (DeletedValue { value: self.value, deleted_dimension: i as usize }),
    {
        let mut r: Vec<DeletedValue<u8>> = Vec::new();
        let mut i: usize = 0;
        while i < dimensions
            invariant
                i <= dimensions,
                r.len() == i,
                forall|k: int| 0 <= k < i ==> #[trigger] r[k] == (DeletedValue { value: self.value, deleted_dimension: k as usize }),
            decreases dimensions - i,
        {
            r.push(DeletedValue { value: self.value, deleted_dimension: i });
            i = i + 1;
        }
        r
    }

    /// The bits that differ outside both deleted dimensions, and the two
    /// deleted dimensions when they differ.
    pub fn hamming(&self, other: &DeletedValue<u8>) -> (r: usize)
        requires
            self.deleted_dimension < 8,
            other.deleted_dimension < 8,
        ensures
            r == deleted_u8_hamming(self.value, self.deleted_dimension as nat, other.value, other.deleted_dimension as nat),
    {
        let self_mask = 1u8 << (self.deleted_dimension as u8);
        let other_mask = 1u8 << (other.deleted_dimension as u8);

        let self_without_deleted = self.value | self_mask | other_mask;
        let other_without_deleted = other.value | self_mask | other_mask;
        let mask = self_mask | other_mask;
        proof {
            let x = self.value;
            let y = other.value;
            assert(x | self_mask | other_mask == x | (self_mask | other_mask)) by (bit_vector);
            assert(y | self_mask | other_mask == y | (self_mask | other_mask)) by (bit_vector);
            lemma_xor_widen_u8(self_without_deleted, other_without_deleted);
            vstd::arithmetic::power2::lemma2_to64_rest();
            crate::bits::lemma_popcount_bound(((self_without_deleted ^ other_without_deleted) as u64) as nat, 64);
        }
        let hamming_without_deleted = popcount_u64((self_without_deleted as u64) ^ (other_without_deleted as u64)) as usize;

        if self.deleted_dimension == other.deleted_dimension {
            hamming_without_deleted
        } else {
            2 + hamming_without_deleted
        }
    }
}

} // verus!
