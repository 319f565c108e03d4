//! Hamming distances between values.

use vstd::prelude::*;
use crate::bits::{bit_set, popcount, popcount_u64, set_bit_indices, lemma_popcount_bound, lemma_u64_bit, lemma_xor_widen_u8, lemma_xor_widen_u16, lemma_xor_widen_u32};
use vstd::arithmetic::power2::lemma2_to64_rest;
use crate::deletion::{Du8, Du32, Du64};

verus! {

/// Values between which a Hamming distance is defined.
pub trait Hamming: Sized {
    /// The pairs of values between which the distance is defined.
    spec fn hamming_defined(&self, rhs: &Self) -> bool;

    /// The Hamming distance between `self` and `rhs`.
    spec fn distance(&self, rhs: &Self) -> nat;

    /// What `hamming_lte` answers for `bound`.
    spec fn lte_answer(&self, rhs: &Self, bound: usize) -> bool;

    /// The indices of the dimensions in which `self` and `rhs` differ, as
    /// `hamming_indices` reports them.
    spec fn differing(&self, rhs: &Self) -> Seq<usize>;

    /// The comparison with a bound holds exactly when the distance is at
    /// most the bound: the bound is inclusive.
    proof fn lemma_lte_answer(&self, rhs: &Self, bound: usize)
        ensures
            self.lte_answer(rhs, bound) == (self.distance(rhs) <= bound),
    ;

    /// Hamming distance between `self` and `rhs`.
    fn hamming(&self, rhs: &Self) -> (r: usize)
        requires
            self.hamming_defined(rhs),
        ensures
            r == self.distance(rhs),
    ;

    /// Whether the Hamming distance between `self` and `rhs` is at most
    /// `bound`.
    fn hamming_lte(&self, rhs: &Self, bound: usize) -> (r: bool)
        requires
            self.hamming_defined(rhs),
        ensures
            r == self.lte_answer(rhs, bound),
            r == (self.distance(rhs) <= bound),
    ;

    /// The indices of the dimensions in which `self` and `rhs` differ.
    fn hamming_indices(&self, rhs: &Self) -> (r: Vec<usize>)
        requires
            self.hamming_defined(rhs),
        ensures
            r@ == self.differing(rhs),
    ;
}

/// The indices below `n` of the set bits of `d`, in increasing order.
fn set_bits_below(d: u64, n: u64) -> (r: Vec<usize>)
    requires
        n <= 64,
    ensures
        r@ == set_bit_indices(d as nat, n as nat),
{
    let mut r: Vec<usize> = Vec::new();
    let mut i: u64 = 0;
    while i < n
        invariant
            i <= n <= 64,
            r@ == set_bit_indices(d as nat, i as nat),
        decreases n - i,
    {
        proof { lemma_u64_bit(d, i); }
        if (1u64 << i) & d != 0 {
            r.push(i as usize);
        }
        i = i + 1;
    }
    r
}

/// The indices of the differing dimensions of two scalars of `width` bits
/// whose bits differ where `d` has a bit set, in increasing order.
pub open spec fn scalar_indices(d: nat, width: nat) -> Seq<usize> {
    set_bit_indices(d, width)
}

/// Listing the set bits below `n` of `d` splits into its lowest bit and
/// the set bits below `n - 1` of `d / 2`.
proof fn lemma_indices_count_shift(d: nat, n: nat)
    requires
        n >= 1,
    ensures
        set_bit_indices(d, n).len() == d % 2 + set_bit_indices(d / 2, (n - 1) as nat).len(),
    decreases n,
{
    if n > 1 {
        lemma_indices_count_shift(d, (n - 1) as nat);
        let m = (n - 2) as nat;
        vstd::arithmetic::power2::lemma_pow2_unfold((n - 1) as nat);
        vstd::arithmetic::power2::lemma_pow2_pos(m);
        vstd::arithmetic::div_mod::lemma_div_denominator(d as int, 2, vstd::arithmetic::power2::pow2(m) as int);
        assert(d / vstd::arithmetic::power2::pow2((n - 1) as nat) == (d / 2) / vstd::arithmetic::power2::pow2(m));
        assert(bit_set(d, (n - 1) as nat) == bit_set(d / 2, m));
        assert(set_bit_indices(d, n).len() == set_bit_indices(d, (n - 1) as nat).len() + if bit_set(d, (n - 1) as nat) { 1int } else { 0int });
        assert(set_bit_indices(d / 2, (n - 1) as nat).len() == set_bit_indices(d / 2, m).len() + if bit_set(d / 2, m) { 1int } else { 0int });
    } else {
        assert(vstd::arithmetic::power2::pow2(0) == 1) by {
            vstd::arithmetic::power2::lemma2_to64();
        }
        assert(d / 1 == d);
        assert(set_bit_indices(d / 2, 0).len() == 0);
        assert(set_bit_indices(d, 0).len() == 0);
        assert(set_bit_indices(d, 1).len() == if bit_set(d, 0) { 1int } else { 0int });
    }
}

/// The differing dimensions listed below `n` bits are as many as the
/// differing bits, for values of at most `n` bits: the distance is the
/// number of listed dimensions.
pub proof fn lemma_indices_count(d: nat, n: nat)
    requires
        d < vstd::arithmetic::power2::pow2(n),
    ensures
        scalar_indices(d, n).len() == popcount(d),
    decreases n,
{
    if n == 0 {
        vstd::arithmetic::power2::lemma2_to64();
        assert(d == 0);
    } else {
        lemma_indices_count_shift(d, n);
        vstd::arithmetic::power2::lemma_pow2_unfold(n);
        lemma_indices_count(d / 2, (n - 1) as nat);
    }
}

/// For scalars, the distance is the number of listed differing dimensions.
pub proof fn lemma_scalar_distance_counts_indices(a8: u8, b8: u8, a16: u16, b16: u16, a32: u32, b32: u32, a64: u64, b64: u64)
    ensures
        a8.distance(&b8) == a8.differing(&b8).len(),
        a16.distance(&b16) == a16.differing(&b16).len(),
        a32.distance(&b32) == a32.differing(&b32).len(),
        a64.distance(&b64) == a64.differing(&b64).len(),
{
    vstd::arithmetic::power2::lemma2_to64();
    vstd::arithmetic::power2::lemma2_to64_rest();
    lemma_indices_count((a8 ^ b8) as nat, 8);
    lemma_indices_count((a16 ^ b16) as nat, 16);
    lemma_indices_count((a32 ^ b32) as nat, 32);
    lemma_indices_count((a64 ^ b64) as nat, 64);
}

/// For byte vectors, and for scalars carrying a deletion index, the
/// distance is the number of listed differing dimensions.
pub proof fn lemma_other_distance_counts_indices(a: Vec<u8>, b: Vec<u8>, x8: Du8, y8: Du8, x32: Du32, y32: Du32, x64: Du64, y64: Du64)
    ensures
        a.distance(&b) == a.differing(&b).len(),
        x8.distance(&y8) == x8.differing(&y8).len(),
        x32.distance(&y32) == x32.differing(&y32).len(),
        x64.distance(&y64) == x64.differing(&y64).len(),
{
    lemma_scalar_distance_counts_indices(x8.0, y8.0, 0, 0, x32.0, y32.0, x64.0, y64.0);
}

/// For arrays of words, the distance is the number of listed differing
/// dimensions.
pub proof fn lemma_words_distance_counts_indices(a: Seq<u64>, b: Seq<u64>, n: nat)
    ensures
        words_hamming(a, b, n) == words_indices(a, b, n).len(),
    decreases n,
{
    if n > 0 {
        lemma_words_distance_counts_indices(a, b, (n - 1) as nat);
        vstd::arithmetic::power2::lemma2_to64_rest();
        lemma_indices_count((a[n - 1] ^ b[n - 1]) as nat, 64);
    }
}

impl Hamming for u8 {
    open spec fn hamming_defined(&self, rhs: &Self) -> bool { true }

    open spec fn distance(&self, rhs: &Self) -> nat {
        popcount((*self ^ *rhs) as nat)
    }

    open spec fn lte_answer(&self, rhs: &Self, bound: usize) -> bool {
        self.distance(rhs) <= bound
    }

    proof fn lemma_lte_answer(&self, rhs: &Self, bound: usize) {
    }

    open spec fn differing(&self, rhs: &Self) -> Seq<usize> {
        scalar_indices((*self ^ *rhs) as nat, 8)
    }

    /// The number of bits in which the values differ.
    fn hamming(&self, rhs: &u8) -> (r: usize) {
        proof { lemma_xor_widen_u8(*self, *rhs); }
        popcount_u64((*self as u64) ^ (*rhs as u64)) as usize
    }

    fn hamming_lte(&self, rhs: &u8, bound: usize) -> (r: bool) {
        self.hamming(rhs) <= bound
    }

    fn hamming_indices(&self, rhs: &u8) -> (r: Vec<usize>) {
        proof { lemma_xor_widen_u8(*self, *rhs); }
        set_bits_below((*self ^ *rhs) as u64, 8)
    }
}

impl Hamming for u16 {
    open spec fn hamming_defined(&self, rhs: &Self) -> bool { true }

    open spec fn distance(&self, rhs: &Self) -> nat {
        popcount((*self ^ *rhs) as nat)
    }

    open spec fn lte_answer(&self, rhs: &Self, bound: usize) -> bool {
        self.distance(rhs) <= bound
    }

    proof fn lemma_lte_answer(&self, rhs: &Self, bound: usize) {
    }

    open spec fn differing(&self, rhs: &Self) -> Seq<usize> {
        scalar_indices((*self ^ *rhs) as nat, 16)
    }

    /// The number of bits in which the values differ.
    fn hamming(&self, rhs: &u16) -> (r: usize) {
        proof { lemma_xor_widen_u16(*self, *rhs); }
        popcount_u64((*self as u64) ^ (*rhs as u64)) as usize
    }

    fn hamming_lte(&self, rhs: &u16, bound: usize) -> (r: bool) {
        self.hamming(rhs) <= bound
    }

    fn hamming_indices(&self, rhs: &u16) -> (r: Vec<usize>) {
        set_bits_below((*self ^ *rhs) as u64, 16)
    }
}

impl Hamming for u32 {
    open spec fn hamming_defined(&self, rhs: &Self) -> bool { true }

    open spec fn distance(&self, rhs: &Self) -> nat {
        popcount((*self ^ *rhs) as nat)
    }

    open spec fn lte_answer(&self, rhs: &Self, bound: usize) -> bool {
        self.distance(rhs) <= bound
    }

    proof fn lemma_lte_answer(&self, rhs: &Self, bound: usize) {
    }

    open spec fn differing(&self, rhs: &Self) -> Seq<usize> {
        scalar_indices((*self ^ *rhs) as nat, 32)
    }

    /// The number of bits in which the values differ.
    fn hamming(&self, rhs: &u32) -> (r: usize) {
        proof { lemma_xor_widen_u32(*self, *rhs); }
        popcount_u64((*self as u64) ^ (*rhs as u64)) as usize
    }

    fn hamming_lte(&self, rhs: &u32, bound: usize) -> (r: bool) {
        self.hamming(rhs) <= bound
    }

    fn hamming_indices(&self, rhs: &u32) -> (r: Vec<usize>) {
        set_bits_below((*self ^ *rhs) as u64, 32)
    }
}

impl Hamming for u64 {
    open spec fn hamming_defined(&self, rhs: &Self) -> bool { true }

    open spec fn distance(&self, rhs: &Self) -> nat {
        popcount((*self ^ *rhs) as nat)
    }

    open spec fn lte_answer(&self, rhs: &Self, bound: usize) -> bool {
        self.distance(rhs) <= bound
    }

    proof fn lemma_lte_answer(&self, rhs: &Self, bound: usize) {
    }

    open spec fn differing(&self, rhs: &Self) -> Seq<usize> {
        scalar_indices((*self ^ *rhs) as nat, 64)
    }

    /// The number of bits in which the values differ.
    fn hamming(&self, rhs: &u64) -> (r: usize) {
        popcount_u64(*self ^ *rhs) as usize
    }

    fn hamming_lte(&self, rhs: &u64, bound: usize) -> (r: bool) {
        self.hamming(rhs) <= bound
    }

    fn hamming_indices(&self, rhs: &u64) -> (r: Vec<usize>) {
        set_bits_below(*self ^ *rhs, 64)
    }
}

/// The summed bit distance of the first `n` words of `a` and `b`.
pub open spec fn words_hamming(a: Seq<u64>, b: Seq<u64>, n: nat) -> nat
    decreases n,
{
    if n == 0 {
        0
    } else {
        words_hamming(a, b, (n - 1) as nat) + popcount((a[n - 1] ^ b[n - 1]) as nat)
    }
}

/// The differing dimensions of the first `n` words of `a` and `b`: the
/// differing bits of word `i` are dimensions `64 * i` to `64 * i + 63`.
pub open spec fn words_indices(a: Seq<u64>, b: Seq<u64>, n: nat) -> Seq<usize>
    decreases n,
{
    if n == 0 {
        Seq::empty()
    } else {
        words_indices(a, b, (n - 1) as nat)
            + scalar_indices((a[n - 1] ^ b[n - 1]) as nat, 64).map_values(|i: usize| (i + (n - 1) * 64) as usize)
    }
}

proof fn lemma_scalar_indices_small(d: nat, n: nat)
    requires
        n <= 64,
    ensures
        forall|k: int| 0 <= k < set_bit_indices(d, n).len() ==> set_bit_indices(d, n)[k] < n,
        set_bit_indices(d, n).len() <= n,
    decreases n,
{
    if n > 0 {
        lemma_scalar_indices_small(d, (n - 1) as nat);
    }
}

fn words_hamming_exec(a: &[u64], b: &[u64]) -> (r: usize)
    requires
        a.len() == b.len() <= 4,
    ensures
        r == words_hamming(a@, b@, a.len() as nat),
{
    let mut h: usize = 0;
    let mut i: usize = 0;
    while i < a.len()
        invariant
            i <= a.len() == b.len() <= 4,
            h == words_hamming(a@, b@, i as nat),
            h <= 64 * i,
        decreases a.len() - i,
    {
        proof {
            lemma2_to64_rest();
            lemma_popcount_bound((a[i as int] ^ b[i as int]) as nat, 64);
        }
        h = h + popcount_u64(a[i] ^ b[i]) as usize;
        i = i + 1;
    }
    h
}

fn words_indices_exec(a: &[u64], b: &[u64]) -> (r: Vec<usize>)
    requires
        a.len() == b.len() <= 4,
    ensures
        r@ == words_indices(a@, b@, a.len() as nat),
{
    let len = a.len();
    let mut h: Vec<usize> = Vec::new();
    let mut i: usize = 0;
    while i < len
        invariant
            len == a.len() == b.len() <= 4,
            i <= len,
            h@ == words_indices(a@, b@, i as nat),
        decreases len - i,
    {
        let offset = i * 64;
        let pair_indices = set_bits_below(a[i] ^ b[i], 64);
        proof { lemma_scalar_indices_small((a[i as int] ^ b[i as int]) as nat, 64); }
        let mut j: usize = 0;
        let ghost start = h@;
        while j < pair_indices.len()
            invariant
                0 <= j <= pair_indices.len(),
                offset == i * 64 <= 192,
                pair_indices@ == scalar_indices((a@[i as int] ^ b@[i as int]) as nat, 64),
                forall|k: int| 0 <= k < pair_indices.len() ==> pair_indices[k] < 64,
                h@ == start + pair_indices@.subrange(0, j as int).map_values(|x: usize| (x + offset) as usize),
            decreases pair_indices.len() - j,
        {
            h.push(pair_indices[j] + offset);
            proof {
                assert(pair_indices@.subrange(0, j + 1).map_values(|x: usize| (x + offset) as usize)
                    =~= pair_indices@.subrange(0, j as int).map_values(|x: usize| (x + offset) as usize).push((pair_indices[j as int] + offset) as usize));
            }
            j = j + 1;
        }
        proof {
            assert(pair_indices@.subrange(0, pair_indices@.len() as int) =~= pair_indices@);
            assert(h@ =~= words_indices(a@, b@, (i + 1) as nat));
        }
        i = i + 1;
    }
    h
}

impl Hamming for [u64; 2] {
    open spec fn hamming_defined(&self, rhs: &Self) -> bool { true }

    open spec fn distance(&self, rhs: &Self) -> nat {
        words_hamming(self@, rhs@, 2)
    }

    open spec fn lte_answer(&self, rhs: &Self, bound: usize) -> bool {
        self.distance(rhs) <= bound
    }

    proof fn lemma_lte_answer(&self, rhs: &Self, bound: usize) {
    }

    open spec fn differing(&self, rhs: &Self) -> Seq<usize> {
        words_indices(self@, rhs@, 2)
    }

    /// The summed bit distance of the words.
    fn hamming(&self, rhs: &[u64; 2]) -> (r: usize) {
        words_hamming_exec(self.as_slice(), rhs.as_slice())
    }

    fn hamming_lte(&self, rhs: &[u64; 2], bound: usize) -> (r: bool) {
        self.hamming(rhs) <= bound
    }

    fn hamming_indices(&self, rhs: &[u64; 2]) -> (r: Vec<usize>) {
        words_indices_exec(self.as_slice(), rhs.as_slice())
    }
}

impl Hamming for [u64; 4] {
    open spec fn hamming_defined(&self, rhs: &Self) -> bool { true }

    open spec fn distance(&self, rhs: &Self) -> nat {
        words_hamming(self@, rhs@, 4)
    }

    open spec fn lte_answer(&self, rhs: &Self, bound: usize) -> bool {
        self.distance(rhs) <= bound
    }

    proof fn lemma_lte_answer(&self, rhs: &Self, bound: usize) {
    }

    open spec fn differing(&self, rhs: &Self) -> Seq<usize> {
        words_indices(self@, rhs@, 4)
    }

    /// The summed bit distance of the words.
    fn hamming(&self, rhs: &[u64; 4]) -> (r: usize) {
        words_hamming_exec(self.as_slice(), rhs.as_slice())
    }

    fn hamming_lte(&self, rhs: &[u64; 4], bound: usize) -> (r: bool) {
        self.hamming(rhs) <= bound
    }

    fn hamming_indices(&self, rhs: &[u64; 4]) -> (r: Vec<usize>) {
        words_indices_exec(self.as_slice(), rhs.as_slice())
    }
}

impl Hamming for Du8 {
    open spec fn hamming_defined(&self, rhs: &Self) -> bool { true }

    open spec fn distance(&self, rhs: &Self) -> nat {
        popcount((self.0 ^ rhs.0) as nat)
    }

    open spec fn lte_answer(&self, rhs: &Self, bound: usize) -> bool {
        self.distance(rhs) <= bound
    }

    proof fn lemma_lte_answer(&self, rhs: &Self, bound: usize) {
    }

    open spec fn differing(&self, rhs: &Self) -> Seq<usize> {
        scalar_indices((self.0 ^ rhs.0) as nat, 8)
    }

    /// The distance between the values, ignoring the deletion index.
    fn hamming(&self, rhs: &Du8) -> (r: usize) {
        self.0.hamming(&rhs.0)
    }

    fn hamming_lte(&self, rhs: &Du8, bound: usize) -> (r: bool) {
        self.hamming(rhs) <= bound
    }

    fn hamming_indices(&self, rhs: &Du8) -> (r: Vec<usize>) {
        self.0.hamming_indices(&rhs.0)
    }
}

impl Hamming for Du32 {
    open spec fn hamming_defined(&self, rhs: &Self) -> bool { true }

    open spec fn distance(&self, rhs: &Self) -> nat {
        popcount((self.0 ^ rhs.0) as nat)
    }

    open spec fn lte_answer(&self, rhs: &Self, bound: usize) -> bool {
        self.distance(rhs) <= bound
    }

    proof fn lemma_lte_answer(&self, rhs: &Self, bound: usize) {
    }

    open spec fn differing(&self, rhs: &Self) -> Seq<usize> {
        scalar_indices((self.0 ^ rhs.0) as nat, 32)
    }

    /// The distance between the values, ignoring the deletion index.
    fn hamming(&self, rhs: &Du32) -> (r: usize) {
        self.0.hamming(&rhs.0)
    }

    fn hamming_lte(&self, rhs: &Du32, bound: usize) -> (r: bool) {
        self.hamming(rhs) <= bound
    }

    fn hamming_indices(&self, rhs: &Du32) -> (r: Vec<usize>) {
        self.0.hamming_indices(&rhs.0)
    }
}

impl Hamming for Du64 {
    open spec fn hamming_defined(&self, rhs: &Self) -> bool { true }

    open spec fn distance(&self, rhs: &Self) -> nat {
        popcount((self.0 ^ rhs.0) as nat)
    }

    open spec fn lte_answer(&self, rhs: &Self, bound: usize) -> bool {
        self.distance(rhs) <= bound
    }

    proof fn lemma_lte_answer(&self, rhs: &Self, bound: usize) {
    }

    open spec fn differing(&self, rhs: &Self) -> Seq<usize> {
        scalar_indices((self.0 ^ rhs.0) as nat, 64)
    }

    /// The distance between the values, ignoring the deletion index.
    fn hamming(&self, rhs: &Du64) -> (r: usize) {
        self.0.hamming(&rhs.0)
    }

    fn hamming_lte(&self, rhs: &Du64, bound: usize) -> (r: bool) {
        self.hamming(rhs) <= bound
    }

    fn hamming_indices(&self, rhs: &Du64) -> (r: Vec<usize>) {
        self.0.hamming_indices(&rhs.0)
    }
}

/// The indices below `n` at which `a` and `b` differ, in increasing order.
pub open spec fn diff_positions(a: Seq<u8>, b: Seq<u8>, n: nat) -> Seq<usize>
    decreases n,
{
    if n == 0 {
        Seq::empty()
    } else if a[n - 1] != b[n - 1] {
        diff_positions(a, b, (n - 1) as nat).push((n - 1) as usize)
    } else {
        diff_positions(a, b, (n - 1) as nat)
    }
}

/// The length two sequences share.
pub open spec fn common_len(a: Seq<u8>, b: Seq<u8>) -> nat {
    if a.len() <= b.len() { a.len() } else { b.len() }
}

/// The Hamming distance between byte vectors: the number of positions, up
/// to the shorter length, at which they differ.
pub open spec fn vec_hamming(a: Seq<u8>, b: Seq<u8>) -> nat {
    diff_positions(a, b, common_len(a, b)).len()
}

proof fn lemma_diff_positions_len(a: Seq<u8>, b: Seq<u8>, n: nat)
    ensures
        diff_positions(a, b, n).len() <= n,
    decreases n,
{
    if n > 0 {
        lemma_diff_positions_len(a, b, (n - 1) as nat);
    }
}

impl Hamming for Vec<u8> {
    open spec fn hamming_defined(&self, rhs: &Self) -> bool { true }

    open spec fn distance(&self, rhs: &Self) -> nat {
        vec_hamming(self@, rhs@)
    }

    open spec fn lte_answer(&self, rhs: &Self, bound: usize) -> bool {
        self.distance(rhs) <= bound
    }

    proof fn lemma_lte_answer(&self, rhs: &Self, bound: usize) {
    }

    open spec fn differing(&self, rhs: &Self) -> Seq<usize> {
        diff_positions(self@, rhs@, common_len(self@, rhs@))
    }

    /// The number of positions at which the vectors differ.
    fn hamming(&self, rhs: &Vec<u8>) -> (r: usize) {
        self.hamming_indices(rhs).len()
    }

    fn hamming_lte(&self, rhs: &Vec<u8>, bound: usize) -> (r: bool) {
        self.hamming(rhs) <= bound
    }

    fn hamming_indices(&self, rhs: &Vec<u8>) -> (r: Vec<usize>) {
        let n: usize = if self.len() <= rhs.len() { self.len() } else { rhs.len() };
        let mut r: Vec<usize> = Vec::new();
        let mut i: usize = 0;
        while i < n
            invariant
                n == common_len(self@, rhs@),
                n <= self.len(),
                n <= rhs.len(),
                i <= n,
                r@ == diff_positions(self@, rhs@, i as nat),
            decreases n - i,
        {
            if self[i] != rhs[i] {
                r.push(i);
            }
            i = i + 1;
        }
        r
    }
}

/// The number of indices in `lo .. hi` at which `a` and `b` differ.
pub open spec fn diff_count(a: Seq<u8>, b: Seq<u8>, lo: int, hi: int) -> nat
    decreases hi - lo,
{
    if hi <= lo {
        0
    } else {
        diff_count(a, b, lo, hi - 1) + if a[hi - 1] != b[hi - 1] { 1nat } else { 0nat }
    }
}

/// Counting differences over a range is counting them over its two halves.
pub proof fn lemma_diff_count_split(a: Seq<u8>, b: Seq<u8>, lo: int, mid: int, hi: int)
    requires
        lo <= mid <= hi,
    ensures
        diff_count(a, b, lo, hi) == diff_count(a, b, lo, mid) + diff_count(a, b, mid, hi),
    decreases hi - mid,
{
    if hi > mid {
        lemma_diff_count_split(a, b, lo, mid, hi - 1);
    }
}

/// The differing positions below `n` are as many as the differences below
/// `n`.
pub proof fn lemma_diff_positions_count(a: Seq<u8>, b: Seq<u8>, n: nat)
    ensures
        diff_positions(a, b, n).len() == diff_count(a, b, 0, n as int),
    decreases n,
{
    if n > 0 {
        lemma_diff_positions_count(a, b, (n - 1) as nat);
    }
}

/// A range without differences holds equal elements.
pub proof fn lemma_diff_count_zero(a: Seq<u8>, b: Seq<u8>, lo: int, hi: int)
    requires
        diff_count(a, b, lo, hi) == 0,
    ensures
        forall|i: int| lo <= i < hi ==> a[i] == b[i],
    decreases hi - lo,
{
    if hi > lo {
        lemma_diff_count_zero(a, b, lo, hi - 1);
    }
}

/// A range with one difference holds equal elements but at one index.
pub proof fn lemma_diff_count_one(a: Seq<u8>, b: Seq<u8>, lo: int, hi: int)
    requires
        diff_count(a, b, lo, hi) == 1,
    ensures
        exists|t: int| lo <= t < hi && a[t] != b[t] && forall|i: int| lo <= i < hi && i != t ==> a[i] == b[i],
    decreases hi - lo,
{
    if a[hi - 1] != b[hi - 1] {
        lemma_diff_count_zero(a, b, lo, hi - 1);
        assert(forall|i: int| lo <= i < hi && i != hi - 1 ==> a[i] == b[i]);
    } else {
        lemma_diff_count_one(a, b, lo, hi - 1);
        let t = choose|t: int| lo <= t < hi - 1 && a[t] != b[t] && forall|i: int| lo <= i < hi - 1 && i != t ==> a[i] == b[i];
        assert(forall|i: int| lo <= i < hi && i != t ==> a[i] == b[i]);
    }
}

/// Counting differences over a longer range counts at least as many.
pub proof fn lemma_diff_count_mono(a: Seq<u8>, b: Seq<u8>, lo: int, hi: int, hi2: int)
    requires
        lo <= hi <= hi2,
    ensures
        diff_count(a, b, lo, hi) <= diff_count(a, b, lo, hi2),
{
    lemma_diff_count_split(a, b, lo, hi, hi2);
}


/// Counting differences is symmetric.
proof fn lemma_diff_count_symmetric(a: Seq<u8>, b: Seq<u8>, lo: int, hi: int)
    ensures
        diff_count(a, b, lo, hi) == diff_count(b, a, lo, hi),
    decreases hi - lo,
{
    if hi > lo {
        lemma_diff_count_symmetric(a, b, lo, hi - 1);
    }
}

/// A position where `a` and `c` differ is one where `a` and `b` or `b`
/// and `c` differ.
proof fn lemma_diff_count_triangle(a: Seq<u8>, b: Seq<u8>, c: Seq<u8>, lo: int, hi: int)
    ensures
        diff_count(a, c, lo, hi) <= diff_count(a, b, lo, hi) + diff_count(b, c, lo, hi),
    decreases hi - lo,
{
    if hi > lo {
        lemma_diff_count_triangle(a, b, c, lo, hi - 1);
    }
}

/// The Hamming distance between byte vectors is symmetric.
pub proof fn lemma_vec_hamming_symmetric(a: Seq<u8>, b: Seq<u8>)
    ensures
        vec_hamming(a, b) == vec_hamming(b, a),
{
    lemma_diff_positions_count(a, b, common_len(a, b));
    lemma_diff_positions_count(b, a, common_len(b, a));
    lemma_diff_count_symmetric(a, b, 0, common_len(a, b) as int);
}

/// A byte vector is at distance zero from itself.
pub proof fn lemma_vec_hamming_self(a: Seq<u8>)
    ensures
        vec_hamming(a, a) == 0,
{
    lemma_diff_positions_count(a, a, a.len());
    lemma_diff_count_zero_self(a, a.len() as int);
}

proof fn lemma_diff_count_zero_self(a: Seq<u8>, hi: int)
    ensures
        diff_count(a, a, 0, hi) == 0,
    decreases hi,
{
    if hi > 0 {
        lemma_diff_count_zero_self(a, hi - 1);
    }
}

/// The triangle inequality, for byte vectors of one length (the distance
/// counts positions up to the shorter length, so vectors of other lengths
/// can break it).
pub proof fn lemma_vec_hamming_triangle(a: Seq<u8>, b: Seq<u8>, c: Seq<u8>)
    requires
        a.len() == b.len(),
        b.len() == c.len(),
    ensures
        vec_hamming(a, c) <= vec_hamming(a, b) + vec_hamming(b, c),
{
    lemma_diff_positions_count(a, c, a.len());
    lemma_diff_positions_count(a, b, a.len());
    lemma_diff_positions_count(b, c, a.len());
    lemma_diff_count_triangle(a, b, c, 0, a.len() as int);
}

} // verus!
