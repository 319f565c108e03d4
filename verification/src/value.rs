//! Values indexed by their dimensions: windows, Hamming distances and
//! single-dimension variants of scalars and byte vectors.

use vstd::prelude::*;
use vstd::bytes::spec_u64_to_le_bytes;
use crate::bits::{bit_field, bit_set, popcount, popcount_u64, lemma_u64_bit, lemma_xor_widen_u8};
use crate::window::{low_mask_u64, lemma_u64_field};
use crate::hamming::{self, vec_hamming, diff_positions, common_len};
use crate::byte_order::le_write_u64;
use vstd::arithmetic::power2::lemma2_to64;

verus! {

/// Values that can be cut down to a window of their dimensions.
pub trait Window: Sized {
    /// The arguments on which `window` is defined.
    spec fn window_defined(&self, start_dimension: usize, dimensions: usize) -> bool;

    /// Subsample on a set of dimensions.
    ///
    /// `start_dimension` is the index of the first dimension to include,
    /// counted from the least significant one, and `dimensions` the number of
    /// dimensions to include.
    /// Whether `r` is the window of `dimensions` dimensions of this value
    /// that starts at `start_dimension`.
    spec fn is_window(&self, start_dimension: usize, dimensions: usize, r: Self) -> bool;

    fn window(&self, start_dimension: usize, dimensions: usize) -> (r: Self)
        requires
            self.window_defined(start_dimension, dimensions),
        ensures
            self.is_window(start_dimension, dimensions, r),
    ;
}

/// Values between which a Hamming distance is defined.
pub trait Hamming: Sized {
    /// The pairs of values between which the distance is defined.
    spec fn hamming_defined(&self, other: &Self) -> bool;

    /// The number of dimensions in which `self` and `other` differ.
    spec fn distance(&self, other: &Self) -> nat;

    /// The number of dimensions in which `self` and `other` differ.
    fn hamming(&self, other: &Self) -> (r: usize)
        requires
            self.hamming_defined(other),
        ensures
            r == self.distance(other),
    ;

    /// Whether the distance is at most `bound`: the bound is inclusive.
    fn hamming_lte(&self, other: &Self, bound: usize) -> (r: bool)
        requires
            self.hamming_defined(other),
        ensures
            r == (self.distance(other) <= bound),
    ;
}

/// Values whose differing dimensions can be listed.
pub trait Value: Hamming {
    /// The dimensions in which `self` and `other` differ.
    fn hamming_indices(&self, other: &Self) -> Vec<usize>
        requires
            self.hamming_defined(other);
}

/// Values with single-dimension substitution variants.
pub trait SubstitutionVariant: Sized {
    /// The dimension counts for which the variants are defined.
    spec fn substitutions_defined(&self, dimensions: usize) -> bool;

    /// Returns the values obtained by changing one of the first `dimensions`
    /// dimensions of `self`: the values at Hamming distance one.
    fn substitution_variants(&self, dimensions: usize) -> Vec<Self>
        requires
            self.substitutions_defined(dimensions);
}

/// Values with deletion variants.
pub trait DeletionVariant: Sized {
    /// A variant, with the index of its deleted dimension.
    type Output;

    /// The dimension counts for which the variants are defined.
    spec fn deletions_defined(&self, dimensions: usize) -> bool;

    /// Returns the values obtained by substituting a "deletion marker" for
    /// one of the first `dimensions` dimensions of `self`.
    fn deletion_variants(&self, dimensions: usize) -> Vec<Self::Output>
        requires
            self.deletions_defined(dimensions);
}

/// The indices `i < n`, in increasing order, of the set bits of `d` when
/// its `width` bits are read from the most significant one.
pub open spec fn msb_indices(d: nat, width: nat, n: nat) -> Seq<usize>
    decreases n,
{
    if n == 0 {
        Seq::empty()
    } else if bit_set(d, (width - n) as nat) {
        msb_indices(d, width, (n - 1) as nat).push((n - 1) as usize)
    } else {
        msb_indices(d, width, (n - 1) as nat)
    }
}

/// The indices `i < n`, in increasing order, of the set bits of `bytes`
/// when each byte is read from its most significant bit.
pub open spec fn bytes_msb_indices(bytes: Seq<u8>, n: nat) -> Seq<usize>
    decreases n,
{
    if n == 0 {
        Seq::empty()
    } else if bit_set(bytes[(n - 1) / 8] as nat, (7 - (n - 1) % 8) as nat) {
        bytes_msb_indices(bytes, (n - 1) as nat).push((n - 1) as usize)
    } else {
        bytes_msb_indices(bytes, (n - 1) as nat)
    }
}

/// `x >> s`, cut to `d` bits, read through a left shift that drops the
/// bits above the field first.
proof fn lemma_u8_window(x: u8, s: u8, d: u8)
    requires
        1 <= d,
        s + d <= 8,
    ensures
        ((x << ((8 - s - d) as u8)) >> ((8 - d) as u8)) as u64 == ((x as u64) >> (s as u64)) & low_mask_u64(d as u64),
{
    assert(((x << ((8 - s - d) as u8)) >> ((8 - d) as u8)) as u64 == ((x as u64) >> (s as u64)) & low_mask_u64(d as u64))
        by (bit_vector)
        requires 1 <= d, s + d <= 8;
}

impl Window for u8 {
    open spec fn window_defined(&self, start_dimension: usize, dimensions: usize) -> bool {
        start_dimension + dimensions <= 8 && (dimensions >= 1 || start_dimension == 0)
    }

    /// The `dimensions` bits starting at bit `start_dimension`.
    open spec fn is_window(&self, start_dimension: usize, dimensions: usize, r: u8) -> bool {
        r as nat == bit_field(*self as nat, start_dimension as nat, dimensions as nat)
    }

    fn window(&self, start_dimension: usize, dimensions: usize) -> (r: u8) {
        //  2/4        11111111
        //              ^<--^
        //  << 1       11111110
        //  >> 1+2     00011111
        let bits: usize = 8;
        let trim_high = bits - (start_dimension + dimensions);

        if trim_high >= 8 {
            proof { lemma2_to64(); }
            0u8
        } else {
            proof {
                lemma_u8_window(*self, start_dimension as u8, dimensions as u8);
                lemma_u64_field(*self as u64, start_dimension as u64, dimensions as u64);
            }
            (*self << (trim_high as u8)) >> ((trim_high + start_dimension) as u8)
        }
    }
}

impl Window for usize {
    open spec fn window_defined(&self, start_dimension: usize, dimensions: usize) -> bool {
        start_dimension + dimensions <= usize::BITS && (dimensions >= 1 || start_dimension == 0)
    }

    /// The `dimensions` bits starting at bit `start_dimension`.
    open spec fn is_window(&self, start_dimension: usize, dimensions: usize, r: usize) -> bool {
        r as nat == bit_field(*self as nat, start_dimension as nat, dimensions as nat)
    }

    fn window(&self, start_dimension: usize, dimensions: usize) -> (r: usize) {
        let bits: usize = usize::BITS as usize;
        let trim_high = bits - (start_dimension + dimensions);

        if trim_high >= usize::BITS as usize {
            proof { lemma2_to64(); }
            0usize
        } else {
            // the bits above the window are trimmed off, then the window is
            // moved down to bit 0
            let w = crate::window::window_u64(*self as u64, start_dimension, dimensions);
            proof {
                let p = vstd::arithmetic::power2::pow2(start_dimension as nat);
                let q = vstd::arithmetic::power2::pow2(dimensions as nat);
                vstd::arithmetic::power2::lemma_pow2_pos(start_dimension as nat);
                vstd::arithmetic::power2::lemma_pow2_pos(dimensions as nat);
                let xn = *self as nat;
                assert((xn / p) % q <= xn) by (nonlinear_arith)
                    requires p >= 1, q >= 1;
            }
            w as usize
        }
    }
}

impl Window for Vec<u8> {
    open spec fn window_defined(&self, start_dimension: usize, dimensions: usize) -> bool {
        start_dimension + dimensions <= self.len()
    }

    /// The elements `start_dimension .. start_dimension + dimensions`.
    open spec fn is_window(&self, start_dimension: usize, dimensions: usize, r: Vec<u8>) -> bool {
        r@ == self@.subrange(start_dimension as int, start_dimension + dimensions)
    }

    fn window(&self, start_dimension: usize, dimensions: usize) -> (r: Vec<u8>) {
        crate::window::slice_to_vec(self, start_dimension, start_dimension + dimensions)
    }
}

impl Hamming for u8 {
    open spec fn hamming_defined(&self, other: &Self) -> bool {
        true
    }

    open spec fn distance(&self, other: &Self) -> nat {
        popcount((*self ^ *other) as nat)
    }

    /// The number of bits in which the values differ.
    fn hamming(&self, other: &u8) -> (r: usize)
        ensures
            r == popcount((*self ^ *other) as nat),
    {
        proof { lemma_xor_widen_u8(*self, *other); }
        popcount_u64((*self as u64) ^ (*other as u64)) as usize
    }

    fn hamming_lte(&self, other: &u8, bound: usize) -> (r: bool)
        ensures
            r == (popcount((*self ^ *other) as nat) <= bound),
    {
        self.hamming(other) <= bound
    }
}

impl Value for u8 {
    /// The differing bits, numbered from the most significant one.
    fn hamming_indices(&self, other: &u8) -> (r: Vec<usize>)
        ensures
            r@ == msb_indices((*self ^ *other) as nat, 8, 8),
    {
        let different = *self ^ *other;
        let d = different as u64;
        let mut r: Vec<usize> = Vec::new();
        let mut i: usize = 0;
        while i < 8
            invariant
                i <= 8,
                d == different as u64,
                r@ == msb_indices(different as nat, 8, i as nat),
            decreases 8 - i,
        {
            proof { lemma_u64_bit(d, (7 - i) as u64); }
            if (1u64 << ((7 - i) as u64)) & d != 0 {
                r.push(i);
            }
            i = i + 1;
        }
        r
    }
}

impl Hamming for usize {
    open spec fn hamming_defined(&self, other: &Self) -> bool {
        true
    }

    open spec fn distance(&self, other: &Self) -> nat {
        popcount((*self ^ *other) as nat)
    }

    /// The number of bits in which the values differ.
    fn hamming(&self, other: &usize) -> (r: usize)
        ensures
            r == popcount((*self ^ *other) as nat),
    {
        proof { assert((*self ^ *other) as u64 == (*self as u64) ^ (*other as u64)) by (bit_vector); }
        popcount_u64((*self as u64) ^ (*other as u64)) as usize
    }

    fn hamming_lte(&self, other: &usize, bound: usize) -> (r: bool)
        ensures
            r == (popcount((*self ^ *other) as nat) <= bound),
    {
        self.hamming(other) <= bound
    }
}

impl Value for usize {
    /// The differing bits of the eight little-endian bytes of the values,
    /// each byte read from its most significant bit.
    fn hamming_indices(&self, other: &usize) -> (r: Vec<usize>)
        ensures
            r@ == bytes_msb_indices(spec_u64_to_le_bytes((*self ^ *other) as u64), 64),
    {
        let different = *self ^ *other;
        let mut buf: Vec<u8> = vec![0u8; 8];
        le_write_u64(&mut buf, different as u64);
        let ghost bytes = spec_u64_to_le_bytes(different as u64);
        proof {
            vstd::bytes::lemma_auto_spec_u64_to_from_le_bytes();
            assert(buf@ =~= bytes);
        }
        let mut r: Vec<usize> = Vec::new();
        let mut i: usize = 0;
        while i < 64
            invariant
                i <= 64,
                buf@ == bytes,
                bytes.len() == 8,
                r@ == bytes_msb_indices(bytes, i as nat),
            decreases 64 - i,
        {
            let byte = buf[i / 8] as u64;
            proof { lemma_u64_bit(byte, (7 - i % 8) as u64); }
            if (1u64 << ((7 - i % 8) as u64)) & byte != 0 {
                r.push(i);
            }
            i = i + 1;
        }
        r
    }
}

impl Hamming for Vec<u8> {
    open spec fn hamming_defined(&self, other: &Self) -> bool {
        true
    }

    open spec fn distance(&self, other: &Self) -> nat {
        vec_hamming(self@, other@)
    }

    /// The number of positions at which the vectors differ.
    fn hamming(&self, other: &Vec<u8>) -> (r: usize)
        ensures
            r == vec_hamming(self@, other@),
    {
        hamming::Hamming::hamming(self, other)
    }

    fn hamming_lte(&self, other: &Vec<u8>, bound: usize) -> (r: bool)
        ensures
            r == (vec_hamming(self@, other@) <= bound),
    {
        self.hamming(other) <= bound
    }
}

impl Value for Vec<u8> {
    /// The positions, up to the shorter length, at which the vectors differ.
    fn hamming_indices(&self, other: &Vec<u8>) -> (r: Vec<usize>)
        ensures
            r@ == diff_positions(self@, other@, common_len(self@, other@)),
    {
        hamming::Hamming::hamming_indices(self, other)
    }
}

impl SubstitutionVariant for u8 {
    open spec fn substitutions_defined(&self, dimensions: usize) -> bool {
        dimensions <= 8
    }

    /// `self` with each of its first `dimensions` bits flipped in turn.
    fn substitution_variants(&self, dimensions: usize) -> (r: Vec<u8>)
        ensures
            r.len() == dimensions,
            forall|i: int| 0 <= i < dimensions ==> #[trigger] r[i] == *self ^ ((1u8 << i as u8) as u8),
    {
        let mut r: Vec<u8> = Vec::new();
        let mut i: usize = 0;
        while i < dimensions
            invariant
                dimensions <= 8,
                i <= dimensions,
                r.len() == i,
                forall|k: int| 0 <= k < i ==> #[trigger] r[k] == *self ^ ((1u8 << k as u8) as u8),
            decreases dimensions - i,
        {
            r.push(*self ^ (1u8 << (i as u8)));
            i = i + 1;
        }
        r
    }
}

impl SubstitutionVariant for usize {
    open spec fn substitutions_defined(&self, dimensions: usize) -> bool {
        dimensions <= usize::BITS
    }

    /// `self` with each of its first `dimensions` bits flipped in turn.
    fn substitution_variants(&self, dimensions: usize) -> (r: Vec<usize>)
        ensures
            r.len() == dimensions,
            forall|i: int| 0 <= i < dimensions ==> #[trigger] r[i] == *self ^ ((1usize << i as usize) as usize),
    {
        let mut r: Vec<usize> = Vec::new();
        let mut i: usize = 0;
        while i < dimensions
            invariant
                dimensions <= usize::BITS,
                i <= dimensions,
                r.len() == i,
                forall|k: int| 0 <= k < i ==> #[trigger] r[k] == *self ^ ((1usize << k as usize) as usize),
            decreases dimensions - i,
        {
            r.push(*self ^ (1usize << i));
            i = i + 1;
        }
        r
    }
}

impl DeletionVariant for u8 {
    type Output = (u8, u8);

    open spec fn deletions_defined(&self, dimensions: usize) -> bool {
        dimensions <= 8
    }

    /// `self` with each of its first `dimensions` bits set in turn, with
    /// the index of that bit.
    fn deletion_variants(&self, dimensions: usize) -> (r: Vec<(u8, u8)>)
        ensures
            r.len() == dimensions,
            forall|i: int| 0 <= i < dimensions ==> #[trigger] r[i] == (*self | ((1u8 << i as u8) as u8), i as u8),
    {
        let mut r: Vec<(u8, u8)> = Vec::new();
        let mut i: usize = 0;
        while i < dimensions
            invariant
                dimensions <= 8,
                i <= dimensions,
                r.len() == i,
                forall|k: int| 0 <= k < i ==> #[trigger] r[k] == (*self | ((1u8 << k as u8) as u8), k as u8),
            decreases dimensions - i,
        {
            r.push((*self | (1u8 << (i as u8)), i as u8));
            i = i + 1;
        }
        r
    }
}

impl DeletionVariant for usize {
    type Output = (usize, u32);

    open spec fn deletions_defined(&self, dimensions: usize) -> bool {
        dimensions <= usize::BITS
    }

    /// `self` with each of its first `dimensions` bits set in turn, with
    /// the index of that bit.
    fn deletion_variants(&self, dimensions: usize) -> (r: Vec<(usize, u32)>)
        ensures
            r.len() == dimensions,
            forall|i: int| 0 <= i < dimensions ==> #[trigger] r[i] == (*self | ((1usize << i as usize) as usize), i as u32),
    {
        let mut r: Vec<(usize, u32)> = Vec::new();
        let mut i: usize = 0;
        while i < dimensions
            invariant
                dimensions <= usize::BITS,
                i <= dimensions,
                r.len() == i,
                forall|k: int| 0 <= k < i ==> #[trigger] r[k] == (*self | ((1usize << k as usize) as usize), k as u32),
            decreases dimensions - i,
        {
            r.push((*self | (1usize << i), i as u32));
            i = i + 1;
        }
        r
    }
}

impl DeletionVariant for Vec<u8> {
    type Output = (Vec<u8>, u32);

    open spec fn deletions_defined(&self, dimensions: usize) -> bool {
        dimensions <= self.len()
    }

    /// `self` with each of its first `dimensions` elements replaced in turn
    /// by the deletion marker 255, with the index of that element.
    fn deletion_variants(&self, dimensions: usize) -> (r: Vec<(Vec<u8>, u32)>)
        ensures
            r.len() == dimensions,
            forall|i: int| 0 <= i < dimensions ==> (#[trigger] r[i]).0@ == self@.update(i, 255u8) && r[i].1 == i as u32,
    {
        let mut r: Vec<(Vec<u8>, u32)> = Vec::new();
        let mut i: usize = 0;
        while i < dimensions
            invariant
                dimensions <= self.len(),
                i <= dimensions,
                r.len() == i,
                forall|k: int| 0 <= k < i ==> (#[trigger] r[k]).0@ == self@.update(k, 255u8) && r[k].1 == k as u32,
            decreases dimensions - i,
        {
            let mut v = self.clone();
            proof { assert(v@ =~= self@); }
            v.set(i, 255u8);
            r.push((v, i as u32));
            i = i + 1;
        }
        r
    }
}

} // verus!
