//! Windows: sub-ranges of the dimensions of a value.

use vstd::prelude::*;
use vstd::arithmetic::power2::*;
use vstd::bits::*;
use crate::bits::bit_field;

verus! {

/// A contiguous range of dimensions, `dimensions` wide and starting at
/// `start_dimension` (dimension 0 being the least significant one).
#[derive(Clone, Copy, Debug, PartialEq, Eq, Hash, Structural)]
pub struct Window {
    pub start_dimension: usize,
    pub dimensions: usize,
}

/// Every bit of a `u16` set.
pub const ONES_U16: u16 = 0xffffu16;
/// The odd-numbered bits of a `u16` set.
pub const EVEN_U16: u16 = 0b1010101010101010u16;
/// The even-numbered bits of a `u16` set.
pub const ODD_U16: u16 = 0b0101010101010101u16;
/// Every bit of a `u8` set.
pub const ONES_U8: u8 = 0xffu8;
/// The odd-numbered bits of a `u8` set.
pub const EVEN_U8: u8 = 0b10101010u8;
/// The even-numbered bits of a `u8` set.
pub const ODD_U8: u8 = 0b01010101u8;

/// Values that can be cut down to a window of their dimensions.
pub trait Windowable<T> {
    /// The arguments on which `window` is defined (outside of them the
    /// window would reach past the value or hold no dimension).
    spec fn window_defined(&self, start_dimension: usize, dimensions: usize) -> bool;

    /// Whether `r` is the window of `dimensions` dimensions of this value
    /// that starts at `start_dimension`.
    spec fn is_window(&self, start_dimension: usize, dimensions: usize, r: T) -> bool;

    /// Subsample on a set of dimensions.
    ///
    /// `start_dimension` is the index of the first dimension to include,
    /// counted from the least significant one, and `dimensions` the number of
    /// dimensions to include.
    fn window(&self, start_dimension: usize, dimensions: usize) -> (r: T)
        requires
            <Self as Windowable<T>>::window_defined(self, start_dimension, dimensions),
        ensures
            <Self as Windowable<T>>::is_window(self, start_dimension, dimensions, r),
    ;
}

/// `x >> start`, cut to its low `dims` bits, is the `dims`-bit field of `x`
/// that starts at bit `start`.
pub proof fn lemma_u64_field(x: u64, start: u64, dims: u64)
    requires
        1 <= dims,
        start + dims <= 64,
    ensures
        (x >> start) & low_mask_u64(dims) == bit_field(x as nat, start as nat, dims as nat),
{
    lemma_u64_shr_is_div(x, start);
    if dims == 64 {
        assert(start == 0);
        assert(x & 0xffff_ffff_ffff_ffffu64 == x) by (bit_vector);
        lemma2_to64();
        lemma2_to64_rest();
        assert(x as nat % pow2(64) == x as nat);
    } else {
        lemma_u64_pow2_no_overflow(dims as nat);
        lemma_u64_shl_is_mul(1, dims);
        assert(low_bits_mask(dims as nat) as u64 == low_mask_u64(dims));
        lemma_u64_low_bits_mask_is_mod(x >> start, dims as nat);
    }
}

/// The mask of the low `dims` bits of a `u64`.
pub open spec fn low_mask_u64(dims: u64) -> u64 {
    if dims >= 64 { 0xffff_ffff_ffff_ffffu64 } else { ((1u64 << dims) - 1) as u64 }
}

/// The `dims`-bit field of `x` starting at bit `start`.
pub fn window_u64(x: u64, start: usize, dims: usize) -> (r: u64)
    requires
        1 <= dims,
        start + dims <= 64,
    ensures
        r as nat == bit_field(x as nat, start as nat, dims as nat),
{
    proof {
        lemma_u64_field(x, start as u64, dims as u64);
        if dims < 64 {
            lemma_u64_pow2_no_overflow(dims as nat);
            lemma_u64_shl_is_mul(1, dims as u64);
        }
    }
    let mask: u64 = if dims >= 64 { 0xffff_ffff_ffff_ffffu64 } else { (1u64 << (dims as u64)) - 1 };
    (x >> (start as u64)) & mask
}

impl Windowable<Vec<u8>> for Vec<u8> {
    open spec fn window_defined(&self, start_dimension: usize, dimensions: usize) -> bool {
        start_dimension + dimensions <= self.len()
    }

    /// The elements `start_dimension .. start_dimension + dimensions`.
    open spec fn is_window(&self, start_dimension: usize, dimensions: usize, r: Vec<u8>) -> bool {
        r@ == self@.subrange(start_dimension as int, start_dimension + dimensions)
    }

    fn window(&self, start_dimension: usize, dimensions: usize) -> (r: Vec<u8>) {
        slice_to_vec(self, start_dimension, start_dimension + dimensions)
    }
}

/// A copy of `v[from..to]`.
pub fn slice_to_vec(v: &Vec<u8>, from: usize, to: usize) -> (r: Vec<u8>)
    requires
        from <= to <= v.len(),
    ensures
        r@ == v@.subrange(from as int, to as int),
{
    let mut r: Vec<u8> = Vec::new();
    let mut i: usize = from;
    while i < to
        invariant
            from <= i <= to <= v.len(),
            r@ == v@.subrange(from as int, i as int),
        decreases to - i,
    {
        r.push(v[i]);
        i = i + 1;
    }
    r
}

/// The `dims`-bit field of `x` that starts at bit `start`; it fits in
/// `dims` bits.
fn narrow_field(x: u64, start: usize, dims: usize) -> (r: u64)
    requires
        1 <= dims,
        start + dims <= 64,
    ensures
        r as nat == bit_field(x as nat, start as nat, dims as nat),
        dims <= 8 ==> r < 0x100,
        dims <= 16 ==> r < 0x1_0000,
        dims <= 32 ==> r < 0x1_0000_0000,
{
    let r = window_u64(x, start, dims);
    proof {
        lemma_pow2_pos(dims as nat);
        lemma2_to64();
        if dims < 8 {
            lemma_pow2_strictly_increases(dims as nat, 8);
        }
        if dims < 16 {
            lemma_pow2_strictly_increases(dims as nat, 16);
        }
        if dims < 32 {
            lemma_pow2_strictly_increases(dims as nat, 32);
        }
    }
    r
}

impl Windowable<u64> for u64 {
    open spec fn window_defined(&self, start_dimension: usize, dimensions: usize) -> bool {
        1 <= dimensions && start_dimension < 64 && start_dimension + dimensions <= 64
            && dimensions <= 64
    }

    /// The `dimensions`-bit field that starts at bit `start_dimension`.
    open spec fn is_window(&self, start_dimension: usize, dimensions: usize, r: u64) -> bool {
        r as nat == bit_field(*self as nat, start_dimension as nat, dimensions as nat)
    }

    fn window(&self, start_dimension: usize, dimensions: usize) -> (r: u64) {
        narrow_field(*self, start_dimension, dimensions)
    }
}

impl Windowable<u32> for u64 {
    open spec fn window_defined(&self, start_dimension: usize, dimensions: usize) -> bool {
        1 <= dimensions && start_dimension < 64 && start_dimension + dimensions <= 64
            && dimensions <= 32
    }

    /// The `dimensions`-bit field that starts at bit `start_dimension`.
    open spec fn is_window(&self, start_dimension: usize, dimensions: usize, r: u32) -> bool {
        r as nat == bit_field(*self as nat, start_dimension as nat, dimensions as nat)
    }

    fn window(&self, start_dimension: usize, dimensions: usize) -> (r: u32) {
        narrow_field(*self, start_dimension, dimensions) as u32
    }
}

impl Windowable<u16> for u64 {
    open spec fn window_defined(&self, start_dimension: usize, dimensions: usize) -> bool {
        1 <= dimensions && start_dimension < 64 && start_dimension + dimensions <= 64
            && dimensions <= 16
    }

    /// The `dimensions`-bit field that starts at bit `start_dimension`.
    open spec fn is_window(&self, start_dimension: usize, dimensions: usize, r: u16) -> bool {
        r as nat == bit_field(*self as nat, start_dimension as nat, dimensions as nat)
    }

    fn window(&self, start_dimension: usize, dimensions: usize) -> (r: u16) {
        narrow_field(*self, start_dimension, dimensions) as u16
    }
}

impl Windowable<u8> for u64 {
    open spec fn window_defined(&self, start_dimension: usize, dimensions: usize) -> bool {
        1 <= dimensions && start_dimension < 64 && start_dimension + dimensions <= 64
            && dimensions <= 8
    }

    /// The `dimensions`-bit field that starts at bit `start_dimension`.
    open spec fn is_window(&self, start_dimension: usize, dimensions: usize, r: u8) -> bool {
        r as nat == bit_field(*self as nat, start_dimension as nat, dimensions as nat)
    }

    fn window(&self, start_dimension: usize, dimensions: usize) -> (r: u8) {
        narrow_field(*self, start_dimension, dimensions) as u8
    }
}

impl Windowable<u32> for u32 {
    open spec fn window_defined(&self, start_dimension: usize, dimensions: usize) -> bool {
        1 <= dimensions && start_dimension < 32 && start_dimension + dimensions <= 32
            && dimensions <= 32
    }

    /// The `dimensions`-bit field that starts at bit `start_dimension`.
    open spec fn is_window(&self, start_dimension: usize, dimensions: usize, r: u32) -> bool {
        r as nat == bit_field(*self as nat, start_dimension as nat, dimensions as nat)
    }

    fn window(&self, start_dimension: usize, dimensions: usize) -> (r: u32) {
        narrow_field(*self as u64, start_dimension, dimensions) as u32
    }
}

impl Windowable<u16> for u32 {
    open spec fn window_defined(&self, start_dimension: usize, dimensions: usize) -> bool {
        1 <= dimensions && start_dimension < 32 && start_dimension + dimensions <= 32
            && dimensions <= 16
    }

    /// The `dimensions`-bit field that starts at bit `start_dimension`.
    open spec fn is_window(&self, start_dimension: usize, dimensions: usize, r: u16) -> bool {
        r as nat == bit_field(*self as nat, start_dimension as nat, dimensions as nat)
    }

    fn window(&self, start_dimension: usize, dimensions: usize) -> (r: u16) {
        narrow_field(*self as u64, start_dimension, dimensions) as u16
    }
}

impl Windowable<u8> for u32 {
    open spec fn window_defined(&self, start_dimension: usize, dimensions: usize) -> bool {
        1 <= dimensions && start_dimension < 32 && start_dimension + dimensions <= 32
            && dimensions <= 8
    }

    /// The `dimensions`-bit field that starts at bit `start_dimension`.
    open spec fn is_window(&self, start_dimension: usize, dimensions: usize, r: u8) -> bool {
        r as nat == bit_field(*self as nat, start_dimension as nat, dimensions as nat)
    }

    fn window(&self, start_dimension: usize, dimensions: usize) -> (r: u8) {
        narrow_field(*self as u64, start_dimension, dimensions) as u8
    }
}

impl Windowable<u16> for u16 {
    open spec fn window_defined(&self, start_dimension: usize, dimensions: usize) -> bool {
        1 <= dimensions && start_dimension < 16 && start_dimension + dimensions <= 16
            && dimensions <= 16
    }

    /// The `dimensions`-bit field that starts at bit `start_dimension`.
    open spec fn is_window(&self, start_dimension: usize, dimensions: usize, r: u16) -> bool {
        r as nat == bit_field(*self as nat, start_dimension as nat, dimensions as nat)
    }

    fn window(&self, start_dimension: usize, dimensions: usize) -> (r: u16) {
        narrow_field(*self as u64, start_dimension, dimensions) as u16
    }
}

impl Windowable<u8> for u16 {
    open spec fn window_defined(&self, start_dimension: usize, dimensions: usize) -> bool {
        1 <= dimensions && start_dimension < 16 && start_dimension + dimensions <= 16
            && dimensions <= 8
    }

    /// The `dimensions`-bit field that starts at bit `start_dimension`.
    open spec fn is_window(&self, start_dimension: usize, dimensions: usize, r: u8) -> bool {
        r as nat == bit_field(*self as nat, start_dimension as nat, dimensions as nat)
    }

    fn window(&self, start_dimension: usize, dimensions: usize) -> (r: u8) {
        narrow_field(*self as u64, start_dimension, dimensions) as u8
    }
}

impl Windowable<u8> for u8 {
    open spec fn window_defined(&self, start_dimension: usize, dimensions: usize) -> bool {
        1 <= dimensions && start_dimension < 8 && start_dimension + dimensions <= 8
            && dimensions <= 8
    }

    /// The `dimensions`-bit field that starts at bit `start_dimension`.
    open spec fn is_window(&self, start_dimension: usize, dimensions: usize, r: u8) -> bool {
        r as nat == bit_field(*self as nat, start_dimension as nat, dimensions as nat)
    }

    fn window(&self, start_dimension: usize, dimensions: usize) -> (r: u8) {
        narrow_field(*self as u64, start_dimension, dimensions) as u8
    }
}

/// Bit `i` of `x`.
pub open spec fn u64_bit(x: u64, i: u64) -> bool {
    (x >> i) & 1 == 1
}

/// Bit `i` of the number that `words` writes with its last word holding
/// the least significant bits; there is no bit past the words.
pub open spec fn words_be_bit(words: Seq<u64>, i: int) -> bool {
    0 <= i < 64 * words.len() && u64_bit(words[words.len() - 1 - i / 64], (i % 64) as u64)
}

/// Whether bits `0 .. width` of `r` are the `dims` bits of `words` from bit
/// `start` on, followed by zeros.
pub open spec fn is_words_be_window(r: u64, width: u64, words: Seq<u64>, start: int, dims: int) -> bool {
    forall|j: u64| j < width ==> #[trigger] u64_bit(r, j) == (j < dims && words_be_bit(words, start + j))
}

proof fn lemma_shr_bit(x: u64, shift: u64, j: u64)
    requires
        shift < 64,
        j < 64,
    ensures
        u64_bit(x >> shift, j) == (shift + j < 64 && u64_bit(x, (shift + j) as u64)),
{
    assert(((x >> shift) >> j) & 1 == 1 <==> (shift + j < 64 && (x >> ((shift + j) as u64)) & 1 == 1))
        by (bit_vector)
        requires
            shift < 64,
            j < 64,
    ;
}

proof fn lemma_join_bit(hi: u64, lo: u64, shift: u64, j: u64)
    requires
        0 < shift < 64,
        j < 64,
    ensures
        u64_bit((lo >> shift) | (hi << ((64 - shift) as u64)), j) == if shift + j < 64 {
            u64_bit(lo, (shift + j) as u64)
        } else {
            u64_bit(hi, (shift + j - 64) as u64)
        },
{
    assert((shift + j < 64 ==> ((((lo >> shift) | (hi << ((64 - shift) as u64))) >> j) & 1 == 1
        <==> (lo >> ((shift + j) as u64)) & 1 == 1)) && (shift + j >= 64 ==> ((((lo >> shift) | (hi
        << ((64 - shift) as u64))) >> j) & 1 == 1 <==> (hi >> ((shift + j - 64) as u64)) & 1 == 1)))
        by (bit_vector)
        requires
            0 < shift < 64,
            j < 64,
    ;
}

/// The bits of a masked word, of the full mask and of zero.
proof fn lemma_masked_bit(dims: u64, b: u64, j: u64)
    by (bit_vector)
    requires
        dims < 64,
        j < 64,
    ensures
        u64_bit((0xffff_ffff_ffff_ffffu64 ^ (0xffff_ffff_ffff_ffffu64 << dims)) & b, j)
            == (j < dims && u64_bit(b, j)),
        dims <= 8 ==> (0xffff_ffff_ffff_ffffu64 ^ (0xffff_ffff_ffff_ffffu64 << dims)) & b < 0x100,
        dims <= 16 ==> (0xffff_ffff_ffff_ffffu64 ^ (0xffff_ffff_ffff_ffffu64 << dims)) & b < 0x1_0000,
        dims <= 32 ==> (0xffff_ffff_ffff_ffffu64 ^ (0xffff_ffff_ffff_ffffu64 << dims)) & b < 0x1_0000_0000,
        0xffff_ffff_ffff_ffffu64 & b == b,
        !u64_bit(0u64, j),
{
}

/// Where bit `start + j` of a run of 64-bit words lies, for `j < 64`: in the
/// word of bit `start` or in the next one up.
proof fn lemma_split_index(start: int, j: int)
    requires
        0 <= start,
        0 <= j < 64,
    ensures
        start % 64 + j < 64 ==> (start + j) / 64 == start / 64 && (start + j) % 64 == start % 64 + j,
        start % 64 + j >= 64 ==> (start + j) / 64 == start / 64 + 1 && (start + j) % 64 == start % 64 + j - 64,
{
    let q = start / 64;
    let r = start % 64;
    vstd::arithmetic::div_mod::lemma_fundamental_div_mod(start, 64);
    if r + j < 64 {
        vstd::arithmetic::div_mod::lemma_fundamental_div_mod_converse(start + j, 64, q, r + j);
    } else {
        vstd::arithmetic::div_mod::lemma_fundamental_div_mod_converse(start + j, 64, q + 1, r + j - 64);
    }
}

/// The `dims` bits of `words` from bit `start` on, with the words read as
/// one number whose last word holds the least significant bits.
fn window_words_be(words: &[u64], start: usize, dims: usize) -> (r: u64)
    requires
        start < 64 * words.len(),
        start + dims <= 64 * words.len(),
        dims <= 64,
    ensures
        is_words_be_window(r, 64, words@, start as int, dims as int),
        dims <= 8 ==> r < 0x100,
        dims <= 16 ==> r < 0x1_0000,
        dims <= 32 ==> r < 0x1_0000_0000,
{
    let mask: u64 = if dims == 64 {
        0xffff_ffff_ffff_ffffu64
    } else {
        0xffff_ffff_ffff_ffffu64 ^ (0xffff_ffff_ffff_ffffu64 << (dims as u64))
    };
    let offset = words.len() - 1 - start / 64;
    let shift = start % 64;
    let bits: u64 = if shift == 0 {
        words[offset]
    } else if offset == 0 {
        words[offset] >> (shift as u64)
    } else {
        (words[offset] >> (shift as u64)) | (words[offset - 1] << ((64 - shift) as u64))
    };
    let r = mask & bits;
    proof {
        let n = words@.len();
        if dims < 64 {
            lemma_masked_bit(dims as u64, bits, 0);
        }
        assert forall|j: u64| j < 64 implies #[trigger] u64_bit(r, j) == (j < dims && words_be_bit(
            words@,
            start + j,
        )) by {
            lemma_masked_bit(if dims < 64 { dims as u64 } else { 0 }, bits, j);
            lemma_split_index(start as int, j as int);
            if shift == 0 {
            } else if offset == 0 {
                lemma_shr_bit(words@[offset as int], shift as u64, j);
            } else {
                lemma_join_bit(words@[offset - 1], words@[offset as int], shift as u64, j);
            }
        }
    }
    r
}

impl Windowable<u64> for [u64; 4] {
    open spec fn window_defined(&self, start_dimension: usize, dimensions: usize) -> bool {
        start_dimension < 256 && start_dimension + dimensions <= 256 && dimensions <= 64
    }

    /// The `dimensions` bits from bit `start_dimension` on, the last word
    /// holding the least significant bits.
    open spec fn is_window(&self, start_dimension: usize, dimensions: usize, r: u64) -> bool {
        is_words_be_window(r as u64, 64, self@, start_dimension as int, dimensions as int)
    }

    fn window(&self, start_dimension: usize, dimensions: usize) -> (r: u64) {
        window_words_be(self.as_slice(), start_dimension, dimensions)
    }
}

impl Windowable<u32> for [u64; 4] {
    open spec fn window_defined(&self, start_dimension: usize, dimensions: usize) -> bool {
        start_dimension < 256 && start_dimension + dimensions <= 256 && dimensions <= 32
    }

    /// The `dimensions` bits from bit `start_dimension` on, the last word
    /// holding the least significant bits.
    open spec fn is_window(&self, start_dimension: usize, dimensions: usize, r: u32) -> bool {
        is_words_be_window(r as u64, 32, self@, start_dimension as int, dimensions as int)
    }

    fn window(&self, start_dimension: usize, dimensions: usize) -> (r: u32) {
        window_words_be(self.as_slice(), start_dimension, dimensions) as u32
    }
}

impl Windowable<u16> for [u64; 4] {
    open spec fn window_defined(&self, start_dimension: usize, dimensions: usize) -> bool {
        start_dimension < 256 && start_dimension + dimensions <= 256 && dimensions <= 16
    }

    /// The `dimensions` bits from bit `start_dimension` on, the last word
    /// holding the least significant bits.
    open spec fn is_window(&self, start_dimension: usize, dimensions: usize, r: u16) -> bool {
        is_words_be_window(r as u64, 16, self@, start_dimension as int, dimensions as int)
    }

    fn window(&self, start_dimension: usize, dimensions: usize) -> (r: u16) {
        window_words_be(self.as_slice(), start_dimension, dimensions) as u16
    }
}

impl Windowable<u8> for [u64; 4] {
    open spec fn window_defined(&self, start_dimension: usize, dimensions: usize) -> bool {
        start_dimension < 256 && start_dimension + dimensions <= 256 && dimensions <= 8
    }

    /// The `dimensions` bits from bit `start_dimension` on, the last word
    /// holding the least significant bits.
    open spec fn is_window(&self, start_dimension: usize, dimensions: usize, r: u8) -> bool {
        is_words_be_window(r as u64, 8, self@, start_dimension as int, dimensions as int)
    }

    fn window(&self, start_dimension: usize, dimensions: usize) -> (r: u8) {
        window_words_be(self.as_slice(), start_dimension, dimensions) as u8
    }
}

impl Windowable<u64> for [u64; 3] {
    open spec fn window_defined(&self, start_dimension: usize, dimensions: usize) -> bool {
        start_dimension < 192 && start_dimension + dimensions <= 192 && dimensions <= 64
    }

    /// The `dimensions` bits from bit `start_dimension` on, the last word
    /// holding the least significant bits.
    open spec fn is_window(&self, start_dimension: usize, dimensions: usize, r: u64) -> bool {
        is_words_be_window(r as u64, 64, self@, start_dimension as int, dimensions as int)
    }

    fn window(&self, start_dimension: usize, dimensions: usize) -> (r: u64) {
        window_words_be(self.as_slice(), start_dimension, dimensions)
    }
}

impl Windowable<u32> for [u64; 3] {
    open spec fn window_defined(&self, start_dimension: usize, dimensions: usize) -> bool {
        start_dimension < 192 && start_dimension + dimensions <= 192 && dimensions <= 32
    }

    /// The `dimensions` bits from bit `start_dimension` on, the last word
    /// holding the least significant bits.
    open spec fn is_window(&self, start_dimension: usize, dimensions: usize, r: u32) -> bool {
        is_words_be_window(r as u64, 32, self@, start_dimension as int, dimensions as int)
    }

    fn window(&self, start_dimension: usize, dimensions: usize) -> (r: u32) {
        window_words_be(self.as_slice(), start_dimension, dimensions) as u32
    }
}

impl Windowable<u16> for [u64; 3] {
    open spec fn window_defined(&self, start_dimension: usize, dimensions: usize) -> bool {
        start_dimension < 192 && start_dimension + dimensions <= 192 && dimensions <= 16
    }

    /// The `dimensions` bits from bit `start_dimension` on, the last word
    /// holding the least significant bits.
    open spec fn is_window(&self, start_dimension: usize, dimensions: usize, r: u16) -> bool {
        is_words_be_window(r as u64, 16, self@, start_dimension as int, dimensions as int)
    }

    fn window(&self, start_dimension: usize, dimensions: usize) -> (r: u16) {
        window_words_be(self.as_slice(), start_dimension, dimensions) as u16
    }
}

impl Windowable<u8> for [u64; 3] {
    open spec fn window_defined(&self, start_dimension: usize, dimensions: usize) -> bool {
        start_dimension < 192 && start_dimension + dimensions <= 192 && dimensions <= 8
    }

    /// The `dimensions` bits from bit `start_dimension` on, the last word
    /// holding the least significant bits.
    open spec fn is_window(&self, start_dimension: usize, dimensions: usize, r: u8) -> bool {
        is_words_be_window(r as u64, 8, self@, start_dimension as int, dimensions as int)
    }

    fn window(&self, start_dimension: usize, dimensions: usize) -> (r: u8) {
        window_words_be(self.as_slice(), start_dimension, dimensions) as u8
    }
}

impl Windowable<u64> for [u64; 2] {
    open spec fn window_defined(&self, start_dimension: usize, dimensions: usize) -> bool {
        start_dimension < 128 && start_dimension + dimensions <= 128 && dimensions <= 64
    }

    /// The `dimensions` bits from bit `start_dimension` on, the last word
    /// holding the least significant bits.
    open spec fn is_window(&self, start_dimension: usize, dimensions: usize, r: u64) -> bool {
        is_words_be_window(r as u64, 64, self@, start_dimension as int, dimensions as int)
    }

    fn window(&self, start_dimension: usize, dimensions: usize) -> (r: u64) {
        window_words_be(self.as_slice(), start_dimension, dimensions)
    }
}

impl Windowable<u32> for [u64; 2] {
    open spec fn window_defined(&self, start_dimension: usize, dimensions: usize) -> bool {
        start_dimension < 128 && start_dimension + dimensions <= 128 && dimensions <= 32
    }

    /// The `dimensions` bits from bit `start_dimension` on, the last word
    /// holding the least significant bits.
    open spec fn is_window(&self, start_dimension: usize, dimensions: usize, r: u32) -> bool {
        is_words_be_window(r as u64, 32, self@, start_dimension as int, dimensions as int)
    }

    fn window(&self, start_dimension: usize, dimensions: usize) -> (r: u32) {
        window_words_be(self.as_slice(), start_dimension, dimensions) as u32
    }
}

impl Windowable<u16> for [u64; 2] {
    open spec fn window_defined(&self, start_dimension: usize, dimensions: usize) -> bool {
        start_dimension < 128 && start_dimension + dimensions <= 128 && dimensions <= 16
    }

    /// The `dimensions` bits from bit `start_dimension` on, the last word
    /// holding the least significant bits.
    open spec fn is_window(&self, start_dimension: usize, dimensions: usize, r: u16) -> bool {
        is_words_be_window(r as u64, 16, self@, start_dimension as int, dimensions as int)
    }

    fn window(&self, start_dimension: usize, dimensions: usize) -> (r: u16) {
        window_words_be(self.as_slice(), start_dimension, dimensions) as u16
    }
}

impl Windowable<u8> for [u64; 2] {
    open spec fn window_defined(&self, start_dimension: usize, dimensions: usize) -> bool {
        start_dimension < 128 && start_dimension + dimensions <= 128 && dimensions <= 8
    }

    /// The `dimensions` bits from bit `start_dimension` on, the last word
    /// holding the least significant bits.
    open spec fn is_window(&self, start_dimension: usize, dimensions: usize, r: u8) -> bool {
        is_words_be_window(r as u64, 8, self@, start_dimension as int, dimensions as int)
    }

    fn window(&self, start_dimension: usize, dimensions: usize) -> (r: u8) {
        window_words_be(self.as_slice(), start_dimension, dimensions) as u8
    }
}

/// Bit `i` of the number that `words` writes with its first word holding
/// the least significant bits; there is no bit past the words.
pub open spec fn words_le_bit(words: Seq<u64>, i: int) -> bool {
    0 <= i < 64 * words.len() && u64_bit(words[i / 64], (i % 64) as u64)
}

/// Whether the words of `r` are the `dims` bits of `words` from bit `start`
/// on, followed by zeros, both read with their first word holding the least
/// significant bits.
pub open spec fn is_words_le_window(r: Seq<u64>, words: Seq<u64>, start: int, dims: int) -> bool {
    forall|t: int, j: u64|
        0 <= t < r.len() && j < 64 ==> #[trigger] u64_bit(r[t], j) == (64 * t + j < dims && words_le_bit(
            words,
            start + 64 * t + j,
        ))
}

/// Word `t` of the window of `dims` bits of `words` from bit `start` on,
/// both read with their first word holding the least significant bits.
fn window_word_le(words: &[u64], start: usize, dims: usize, t: usize) -> (r: u64)
    requires
        start < 64 * words.len(),
        start + dims <= 64 * words.len(),
        t < words.len(),
    ensures
        forall|j: u64| j < 64 ==> #[trigger] u64_bit(r, j) == (64 * t + j < dims && words_le_bit(
            words@,
            start + 64 * t + j,
        )),
{
    let full = dims / 64;
    let rem = dims % 64;
    let elements = if rem == 0 { full } else { full + 1 };
    let from_offset = start / 64;
    let shift = start % 64;
    let mask: u64 = if t < full {
        0xffff_ffff_ffff_ffffu64
    } else if t == full && rem != 0 {
        0xffff_ffff_ffff_ffffu64 ^ (0xffff_ffff_ffff_ffffu64 << (rem as u64))
    } else {
        0
    };
    proof {
        vstd::arithmetic::div_mod::lemma_fundamental_div_mod(start as int, 64);
        vstd::arithmetic::div_mod::lemma_fundamental_div_mod(dims as int, 64);
    }
    if t >= elements {
        proof {
            assert forall|j: u64| j < 64 implies #[trigger] u64_bit(0u64, j) == (64 * t + j < dims
                && words_le_bit(words@, start + 64 * t + j)) by {
                lemma_masked_bit(0, 0, j);
            }
        }
        return 0;
    }
    let from = from_offset + t;
    let bits: u64 = if shift == 0 {
        words[from]
    } else if from == words.len() - 1 {
        words[from] >> (shift as u64)
    } else {
        (words[from] >> (shift as u64)) | (words[from + 1] << ((64 - shift) as u64))
    };
    let r = mask & bits;
    proof {
        assert forall|j: u64| j < 64 implies #[trigger] u64_bit(r, j) == (64 * t + j < dims
            && words_le_bit(words@, start + 64 * t + j)) by {
            lemma_masked_bit(rem as u64, bits, j);
            lemma_split_index(start + 64 * t, j as int);
            assert((start + 64 * t) / 64 == from_offset + t && (start + 64 * t) % 64 == shift) by {
                vstd::arithmetic::div_mod::lemma_fundamental_div_mod_converse(
                    start + 64 * t,
                    64,
                    from_offset + t,
                    shift as int,
                );
            }
            if shift == 0 {
            } else if from == words.len() - 1 {
                lemma_shr_bit(words@[from as int], shift as u64, j);
            } else {
                lemma_join_bit(words@[from + 1], words@[from as int], shift as u64, j);
            }
        }
    }
    r
}

impl Windowable<[u64; 4]> for [u64; 4] {
    open spec fn window_defined(&self, start_dimension: usize, dimensions: usize) -> bool {
        start_dimension < 256 && start_dimension + dimensions <= 256 && dimensions <= 256
    }

    /// The `dimensions` bits from bit `start_dimension` on, the first word
    /// holding the least significant bits, in the value and in the window.
    open spec fn is_window(&self, start_dimension: usize, dimensions: usize, r: [u64; 4]) -> bool {
        is_words_le_window(r@, self@, start_dimension as int, dimensions as int)
    }

    fn window(&self, start_dimension: usize, dimensions: usize) -> (r: [u64; 4]) {
        let w = self.as_slice();
        let r = [window_word_le(w, start_dimension, dimensions, 0), window_word_le(w, start_dimension, dimensions, 1), window_word_le(w, start_dimension, dimensions, 2), window_word_le(w, start_dimension, dimensions, 3)];
        proof {
            assert forall|t: int, j: u64| 0 <= t < r@.len() && j < 64 implies #[trigger] u64_bit(r@[t], j) == (
            64 * t + j < dimensions && words_le_bit(self@, start_dimension + 64 * t + j)) by {
                assert(r@[t] == r[t]);
            }
        }
        r
    }
}

impl Windowable<[u64; 2]> for [u64; 4] {
    open spec fn window_defined(&self, start_dimension: usize, dimensions: usize) -> bool {
        start_dimension < 256 && start_dimension + dimensions <= 256 && dimensions <= 128
    }

    /// The `dimensions` bits from bit `start_dimension` on, the first word
    /// holding the least significant bits, in the value and in the window.
    open spec fn is_window(&self, start_dimension: usize, dimensions: usize, r: [u64; 2]) -> bool {
        is_words_le_window(r@, self@, start_dimension as int, dimensions as int)
    }

    fn window(&self, start_dimension: usize, dimensions: usize) -> (r: [u64; 2]) {
        let w = self.as_slice();
        let r = [window_word_le(w, start_dimension, dimensions, 0), window_word_le(w, start_dimension, dimensions, 1)];
        proof {
            assert forall|t: int, j: u64| 0 <= t < r@.len() && j < 64 implies #[trigger] u64_bit(r@[t], j) == (
            64 * t + j < dimensions && words_le_bit(self@, start_dimension + 64 * t + j)) by {
                assert(r@[t] == r[t]);
            }
        }
        r
    }
}

impl Windowable<[u64; 2]> for [u64; 2] {
    open spec fn window_defined(&self, start_dimension: usize, dimensions: usize) -> bool {
        start_dimension < 128 && start_dimension + dimensions <= 128 && dimensions <= 128
    }

    /// The `dimensions` bits from bit `start_dimension` on, the first word
    /// holding the least significant bits, in the value and in the window.
    open spec fn is_window(&self, start_dimension: usize, dimensions: usize, r: [u64; 2]) -> bool {
        is_words_le_window(r@, self@, start_dimension as int, dimensions as int)
    }

    fn window(&self, start_dimension: usize, dimensions: usize) -> (r: [u64; 2]) {
        let w = self.as_slice();
        let r = [window_word_le(w, start_dimension, dimensions, 0), window_word_le(w, start_dimension, dimensions, 1)];
        proof {
            assert forall|t: int, j: u64| 0 <= t < r@.len() && j < 64 implies #[trigger] u64_bit(r@[t], j) == (
            64 * t + j < dimensions && words_le_bit(self@, start_dimension + 64 * t + j)) by {
                assert(r@[t] == r[t]);
            }
        }
        r
    }
}

/// Bit `i` of `x`.
pub open spec fn u16_bit(x: u16, i: u16) -> bool {
    (x >> i) & 1 == 1
}

/// Bit `i` of the number that the 16-bit `words` write with their last word
/// holding the least significant bits; there is no bit past the words.
pub open spec fn words16_be_bit(words: Seq<u16>, i: int) -> bool {
    0 <= i < 16 * words.len() && u16_bit(words[words.len() - 1 - i / 16], (i % 16) as u16)
}

/// Bit `i` of the number that the 16-bit `words` write with their first
/// word holding the least significant bits; there is no bit past the words.
pub open spec fn words16_le_bit(words: Seq<u16>, i: int) -> bool {
    0 <= i < 16 * words.len() && u16_bit(words[i / 16], (i % 16) as u16)
}

proof fn lemma_shr_bit16(x: u16, shift: u16, j: u16)
    requires
        shift < 16,
        j < 16,
    ensures
        u16_bit(x >> shift, j) == (shift + j < 16 && u16_bit(x, (shift + j) as u16)),
{
    assert(((x >> shift) >> j) & 1 == 1 <==> (shift + j < 16 && (x >> ((shift + j) as u16)) & 1 == 1))
        by (bit_vector)
        requires
            shift < 16,
            j < 16,
    ;
}

proof fn lemma_join_bit16(hi: u16, lo: u16, shift: u16, j: u16)
    requires
        0 < shift < 16,
        j < 16,
    ensures
        u16_bit((lo >> shift) | (hi << ((16 - shift) as u16)), j) == if shift + j < 16 {
            u16_bit(lo, (shift + j) as u16)
        } else {
            u16_bit(hi, (shift + j - 16) as u16)
        },
{
    assert((shift + j < 16 ==> ((((lo >> shift) | (hi << ((16 - shift) as u16))) >> j) & 1 == 1
        <==> (lo >> ((shift + j) as u16)) & 1 == 1)) && (shift + j >= 16 ==> ((((lo >> shift) | (hi
        << ((16 - shift) as u16))) >> j) & 1 == 1 <==> (hi >> ((shift + j - 16) as u16)) & 1 == 1)))
        by (bit_vector)
        requires
            0 < shift < 16,
            j < 16,
    ;
}

/// The bits of a masked word, of the full mask and of zero.
proof fn lemma_masked_bit16(dims: u16, b: u16, j: u16)
    by (bit_vector)
    requires
        dims < 16,
        j < 16,
    ensures
        u16_bit((0xffffu16 ^ (0xffffu16 << dims)) & b, j) == (j < dims && u16_bit(b, j)),
        dims <= 8 ==> (0xffffu16 ^ (0xffffu16 << dims)) & b < 0x100,
        0xffffu16 & b == b,
        !u16_bit(0u16, j),
{
}

proof fn lemma_split_index16(start: int, j: int)
    requires
        0 <= start,
        0 <= j < 16,
    ensures
        start % 16 + j < 16 ==> (start + j) / 16 == start / 16 && (start + j) % 16 == start % 16 + j,
        start % 16 + j >= 16 ==> (start + j) / 16 == start / 16 + 1 && (start + j) % 16 == start % 16 + j - 16,
{
    let q = start / 16;
    let r = start % 16;
    vstd::arithmetic::div_mod::lemma_fundamental_div_mod(start, 16);
    if r + j < 16 {
        vstd::arithmetic::div_mod::lemma_fundamental_div_mod_converse(start + j, 16, q, r + j);
    } else {
        vstd::arithmetic::div_mod::lemma_fundamental_div_mod_converse(start + j, 16, q + 1, r + j - 16);
    }
}

impl Windowable<u8> for [u16; 4] {
    open spec fn window_defined(&self, start_dimension: usize, dimensions: usize) -> bool {
        start_dimension < 64 && start_dimension + dimensions <= 64 && dimensions <= 8
    }

    /// The `dimensions` bits from bit `start_dimension` on, the last word
    /// holding the least significant bits.
    open spec fn is_window(&self, start_dimension: usize, dimensions: usize, r: u8) -> bool {
        forall|j: u16| j < 8 ==> #[trigger] u16_bit(r as u16, j) == (j < dimensions && words16_be_bit(
            self@,
            start_dimension + j,
        ))
    }

    fn window(&self, start_dimension: usize, dimensions: usize) -> (r: u8) {
        let mask: u16 = 0xffffu16 ^ (0xffffu16 << (dimensions as u16));
        let offset = 3 - start_dimension / 16;
        let shift = start_dimension % 16;
        let bits: u16 = if shift == 0 {
            self[offset]
        } else if offset == 0 {
            self[offset] >> (shift as u16)
        } else {
            (self[offset] >> (shift as u16)) | (self[offset - 1] << ((16 - shift) as u16))
        };
        let r16 = mask & bits;
        proof {
            lemma_masked_bit16(dimensions as u16, bits, 0);
            assert forall|j: u16| j < 8 implies #[trigger] u16_bit(r16, j) == (j < dimensions
                && words16_be_bit(self@, start_dimension + j)) by {
                lemma_masked_bit16(dimensions as u16, bits, j);
                lemma_split_index16(start_dimension as int, j as int);
                if shift == 0 {
                } else if offset == 0 {
                    lemma_shr_bit16(self@[offset as int], shift as u16, j);
                } else {
                    lemma_join_bit16(self@[offset - 1], self@[offset as int], shift as u16, j);
                }
            }
        }
        r16 as u8
    }
}

/// Word `t` of the window of `dims` bits of the 16-bit `words` from bit
/// `start` on, both read with their first word holding the least
/// significant bits.
fn window_word16_le(words: &[u16], start: usize, dims: usize, t: usize) -> (r: u16)
    requires
        start < 16 * words.len(),
        start + dims <= 16 * words.len(),
        t < words.len(),
    ensures
        forall|j: u16| j < 16 ==> #[trigger] u16_bit(r, j) == (16 * t + j < dims && words16_le_bit(
            words@,
            start + 16 * t + j,
        )),
{
    let full = dims / 16;
    let rem = dims % 16;
    let elements = if rem == 0 { full } else { full + 1 };
    let from_offset = start / 16;
    let shift = start % 16;
    let mask: u16 = if t < full {
        0xffffu16
    } else if t == full && rem != 0 {
        0xffffu16 ^ (0xffffu16 << (rem as u16))
    } else {
        0
    };
    proof {
        vstd::arithmetic::div_mod::lemma_fundamental_div_mod(start as int, 16);
        vstd::arithmetic::div_mod::lemma_fundamental_div_mod(dims as int, 16);
    }
    if t >= elements {
        proof {
            assert forall|j: u16| j < 16 implies #[trigger] u16_bit(0u16, j) == (16 * t + j < dims
                && words16_le_bit(words@, start + 16 * t + j)) by {
                lemma_masked_bit16(0, 0, j);
            }
        }
        return 0;
    }
    let from = from_offset + t;
    let bits: u16 = if shift == 0 {
        words[from]
    } else if from == words.len() - 1 {
        words[from] >> (shift as u16)
    } else {
        (words[from] >> (shift as u16)) | (words[from + 1] << ((16 - shift) as u16))
    };
    let r = mask & bits;
    proof {
        assert forall|j: u16| j < 16 implies #[trigger] u16_bit(r, j) == (16 * t + j < dims
            && words16_le_bit(words@, start + 16 * t + j)) by {
            lemma_masked_bit16(rem as u16, bits, j);
            lemma_split_index16(start + 16 * t, j as int);
            assert((start + 16 * t) / 16 == from_offset + t && (start + 16 * t) % 16 == shift) by {
                vstd::arithmetic::div_mod::lemma_fundamental_div_mod_converse(
                    start + 16 * t,
                    16,
                    from_offset + t,
                    shift as int,
                );
            }
            if shift == 0 {
            } else if from == words.len() - 1 {
                lemma_shr_bit16(words@[from as int], shift as u16, j);
            } else {
                lemma_join_bit16(words@[from + 1], words@[from as int], shift as u16, j);
            }
        }
    }
    r
}

impl Windowable<[u16; 2]> for [u16; 4] {
    open spec fn window_defined(&self, start_dimension: usize, dimensions: usize) -> bool {
        start_dimension < 64 && start_dimension + dimensions <= 64 && dimensions <= 32
    }

    /// The `dimensions` bits from bit `start_dimension` on, the first word
    /// holding the least significant bits, in the value and in the window.
    open spec fn is_window(&self, start_dimension: usize, dimensions: usize, r: [u16; 2]) -> bool {
        forall|t: int, j: u16|
            0 <= t < 2 && j < 16 ==> #[trigger] u16_bit(r@[t], j) == (16 * t + j < dimensions
                && words16_le_bit(self@, start_dimension + 16 * t + j))
    }

    fn window(&self, start_dimension: usize, dimensions: usize) -> (r: [u16; 2]) {
        let w = self.as_slice();
        let r = [
            window_word16_le(w, start_dimension, dimensions, 0),
            window_word16_le(w, start_dimension, dimensions, 1),
        ];
        proof {
            assert forall|t: int, j: u16| 0 <= t < 2 && j < 16 implies #[trigger] u16_bit(r@[t], j) == (
            16 * t + j < dimensions && words16_le_bit(self@, start_dimension + 16 * t + j)) by {
                assert(r@[t] == r[t]);
            }
        }
        r
    }
}

} // verus!
