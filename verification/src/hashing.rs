//! Hashes of byte strings, and a hash-memoizing wrapper.
//!
//! Every hash this library computes is a hash of an explicit byte string, so
//! that a hash depends on the bytes alone and not on the word size or byte
//! order of the machine.

use vstd::prelude::*;
use vstd::bytes::{spec_u64_to_le_bytes, u64_to_le_bytes};
use std::hash::Hasher;
use vstd::std_specs::cmp::PartialEqSpecImpl;
use crate::window::Windowable;

verus! {

/// The SipHash-2-4 hash, with both keys zero, of the byte string `bytes`.
pub uninterp spec fn sip_hash_bytes(bytes: Seq<u8>) -> u64;

/// Hashes `bytes` with `std::hash::SipHasher` (SipHash-2-4, zero keys).
///
/// The result is named `sip_hash_bytes(bytes@)`: it depends on the bytes
/// alone. Nothing else about it is claimed.
#[verifier::external_body]
#[allow(deprecated)]
pub(crate) fn sip_hash(bytes: &[u8]) -> (r: u64)
    ensures
        r == sip_hash_bytes(bytes@),
{
    let mut hasher = std::hash::SipHasher::new();
    hasher.write(bytes);
    hasher.finish()
}

/// The FNV prime of the 64-bit FNV-1a hash.
pub const FNV_PRIME: u64 = 0x100000001b3;

/// The offset basis of the 64-bit FNV-1a hash.
pub const FNV_OFFSET_BASIS: u64 = 0xcbf29ce484222325;

/// One FNV-1a step: xor in the byte, then multiply by the prime, wrapping.
pub open spec fn fnv_step(state: u64, byte: u8) -> u64 {
    (((state ^ (byte as u64)) as int * FNV_PRIME as int) % 0x1_0000_0000_0000_0000) as u64
}

/// The FNV-1a state after hashing `bytes` from `state`.
pub open spec fn fnv_from(state: u64, bytes: Seq<u8>) -> u64
    decreases bytes.len(),
{
    if bytes.len() == 0 {
        state
    } else {
        fnv_from(fnv_step(state, bytes[0]), bytes.drop_first())
    }
}

/// The 64-bit FNV-1a hash of `bytes`.
pub open spec fn fnv1a(bytes: Seq<u8>) -> u64 {
    fnv_from(FNV_OFFSET_BASIS, bytes)
}

/// Hashes `bytes` with `fnv::FnvHasher` from its default state.
///
/// Claims what the `fnv` source shows: the default state is the offset
/// basis, and `write` applies the FNV-1a step to each byte in order.
#[verifier::external_body]
pub(crate) fn fnv_hash(bytes: &[u8]) -> (r: u64)
    ensures
        r == fnv1a(bytes@),
{
    let mut hasher = fnv::FnvHasher::default();
    hasher.write(bytes);
    hasher.finish()
}

/// The byte string hashed for the element `byte` at (one-based) position
/// `position` of a vector: the byte, then the position as eight
/// little-endian bytes.
pub open spec fn element_bytes(byte: u8, position: u64) -> Seq<u8> {
    seq![byte] + spec_u64_to_le_bytes(position)
}

/// The hash of the element `byte` at position `position` of a vector.
pub open spec fn element_hash(byte: u8, position: u64) -> u64 {
    sip_hash_bytes(element_bytes(byte, position))
}

/// Hashes the element `byte` at position `position` of a vector.
pub fn hash_element(byte: u8, position: u64) -> (r: u64)
    ensures
        r == element_hash(byte, position),
{
    let mut bytes: Vec<u8> = Vec::new();
    bytes.push(byte);
    let mut tail = u64_to_le_bytes(position);
    bytes.append(&mut tail);
    proof { assert(bytes@ =~= element_bytes(byte, position)); }
    sip_hash(bytes.as_slice())
}

/// Hash memoization wrapper
///
/// `Hashed` wraps another type and computes its hash on creation, so that
/// later comparisons and hash evaluations use the remembered hash instead
/// of going through the (possibly large) value. Two wrapped values are equal
/// when their hashes are.
#[derive(Clone)]
pub struct Hashed<T> {
    hash_value: u64,
    value: T,
}

impl<T> Hashed<T> {
    /// The remembered hash.
    pub closed spec fn hash_of(&self) -> u64 {
        self.hash_value
    }

    /// The wrapped value.
    pub closed spec fn inner(&self) -> T {
        self.value
    }

    /// The remembered hash.
    pub fn hash_value(&self) -> (r: u64)
        ensures
            r == self.hash_of(),
    {
        self.hash_value
    }

    /// The wrapped value.
    pub fn value(&self) -> (r: &T)
        ensures
            *r == self.inner(),
    {
        &self.value
    }
}

impl Hashed<Vec<u8>> {
    /// Wraps `value`, remembering the SipHash of its bytes.
    pub fn new(value: Vec<u8>) -> (r: Hashed<Vec<u8>>)
        ensures
            r.hash_of() == sip_hash_bytes(value@),
            r.inner() == value,
    {
        let hash_value = sip_hash(value.as_slice());
        Hashed { hash_value, value }
    }
}

impl<T> std::ops::Deref for Hashed<T> {
    type Target = T;

    fn deref(&self) -> (r: &T)
        ensures
            *r == self.inner(),
    {
        &self.value
    }
}

impl<T> PartialEq for Hashed<T> {
    fn eq(&self, other: &Self) -> (r: bool) {
        self.hash_value == other.hash_value
    }
}

impl<T> PartialEqSpecImpl for Hashed<T> {
    open spec fn obeys_eq_spec() -> bool {
        true
    }

    open spec fn eq_spec(&self, other: &Self) -> bool {
        self.hash_of() == other.hash_of()
    }
}

impl<T> Eq for Hashed<T> {
}

impl<T: crate::hamming::Hamming> crate::hamming::Hamming for Hashed<T> {
    open spec fn hamming_defined(&self, rhs: &Self) -> bool {
        self.inner().hamming_defined(&rhs.inner())
    }

    open spec fn distance(&self, rhs: &Self) -> nat {
        self.inner().distance(&rhs.inner())
    }

    open spec fn lte_answer(&self, rhs: &Self, bound: usize) -> bool {
        self.inner().lte_answer(&rhs.inner(), bound)
    }

    proof fn lemma_lte_answer(&self, rhs: &Self, bound: usize) {
        self.inner().lemma_lte_answer(&rhs.inner(), bound);
    }

    open spec fn differing(&self, rhs: &Self) -> Seq<usize> {
        self.inner().differing(&rhs.inner())
    }

    /// The distance between the wrapped values.
    fn hamming(&self, rhs: &Self) -> usize {
        self.value.hamming(&rhs.value)
    }

    fn hamming_lte(&self, rhs: &Self, bound: usize) -> bool {
        self.value.hamming_lte(&rhs.value, bound)
    }

    /// The differing dimensions of the wrapped values.
    fn hamming_indices(&self, rhs: &Self) -> Vec<usize> {
        self.value.hamming_indices(&rhs.value)
    }
}

impl<T: Windowable<W>, W> Windowable<W> for Hashed<T> {
    open spec fn window_defined(&self, start_dimension: usize, dimensions: usize) -> bool {
        self.inner().window_defined(start_dimension, dimensions)
    }

    /// The window of the wrapped value.
    open spec fn is_window(&self, start_dimension: usize, dimensions: usize, r: W) -> bool {
        self.inner().is_window(start_dimension, dimensions, r)
    }

    fn window(&self, start_dimension: usize, dimensions: usize) -> (r: W) {
        self.value.window(start_dimension, dimensions)
    }
}

} // verus!
