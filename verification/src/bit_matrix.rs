//! Arbitrarily-sized matrix of boolean values
//!
//! Intended primarily to provide efficient hamming distance comparsions between
//! vectors of non-boolean elements, as described in the "HBVerify" algorithm of
//! Zhang's HmSearch paper.
//!
//! A matrix is a list of rows of bytes. Within a row, the last byte holds the
//! least significant dimensions: dimension `d` is bit `d % 8` of byte
//! `len - d / 8 - 1`.

use vstd::prelude::*;
use vstd::bytes::{spec_u64_to_le_bytes, spec_u64_from_le_bytes};
use crate::bits::{popcount, popcount_u64, lemma_popcount_bound, lemma_popcount_or, lemma_popcount_subset};
use crate::value::{Window, Hamming, SubstitutionVariant, DeletionVariant};
use crate::byte_order::{le_write_u64, le_read_u64};

verus! {

#[derive(Clone, Debug, PartialEq, Eq, Hash)]
pub struct BitMatrix {
    pub data: Vec<Vec<u8>>,
}

/// The rows of `data` as byte sequences.
pub open spec fn rows_of(data: Seq<Vec<u8>>) -> Seq<Seq<u8>> {
    data.map_values(|r: Vec<u8>| r@)
}

/// Pushing a row pushes its bytes.
pub proof fn lemma_rows_push(data: Seq<Vec<u8>>, row: Vec<u8>)
    ensures
        rows_of(data.push(row)) == rows_of(data).push(row@),
{
    assert(rows_of(data.push(row)) =~= rows_of(data).push(row@));
}

/// A prefix one longer is the shorter prefix and one more element.
proof fn lemma_subrange_push<A>(s: Seq<A>, n: int)
    requires
        0 <= n < s.len(),
    ensures
        s.subrange(0, n + 1) == s.subrange(0, n).push(s[n]),
{
    assert(s.subrange(0, n + 1) =~= s.subrange(0, n).push(s[n]));
}

impl View for BitMatrix {
    type V = Seq<Seq<u8>>;

    open spec fn view(&self) -> Seq<Seq<u8>> {
        rows_of(self.data@)
    }
}

/// The matrix whose row `y` is column `y` of `m` (a column being the bytes
/// at one index of each row).
pub open spec fn transposed(m: Seq<Seq<u8>>) -> Seq<Seq<u8>> {
    Seq::new(m[0].len(), |y: int| Seq::new(m.len(), |x: int| m[x][y]))
}

/// The byte of a row of `width` bytes that holds dimension `dimension`.
pub open spec fn byte_offset(width: nat, dimension: nat) -> int {
    width - dimension / 8 - 1
}

/// The bit of its byte that holds dimension `dimension`.
pub open spec fn toggle_bit(dimension: nat) -> u8 {
    (1u8 << (dimension % 8) as u8) as u8
}

/// `row` with dimension `dimension` of a row of `width` bytes flipped.
pub open spec fn flip_dimension(row: Seq<u8>, width: nat, dimension: nat) -> Seq<u8> {
    row.update(byte_offset(width, dimension), row[byte_offset(width, dimension)] ^ toggle_bit(dimension))
}

/// Whether dimension `dimension` lies in every row of `m`, counted from the
/// end of a row as wide as the first one.
pub open spec fn dimension_in_rows(m: Seq<Seq<u8>>, dimension: nat) -> bool {
    &&& m.len() > 0
    &&& dimension / 8 < m[0].len()
    &&& forall|i: int| 0 <= i < m.len() ==> #[trigger] m[i].len() > byte_offset(m[0].len(), dimension)
}

impl BitMatrix {
    pub fn new(data: Vec<Vec<u8>>) -> (r: BitMatrix)
        ensures
            r@ == rows_of(data@),
            r.data == data,
    {
        BitMatrix { data: data }
    }

    pub fn rows(&self) -> (r: usize)
        ensures
            r == self@.len(),
    {
        self.data.len()
    }

    /// The number of dimensions of a row: eight per byte of the first row.
    pub fn columns(&self) -> (r: usize)
        requires
            self@.len() > 0,
            self@[0].len() * 8 <= usize::MAX,
        ensures
            r == self@[0].len() * 8,
    {
        self.data[0].len() * 8
    }

    /// Row `y` of the result holds the bytes at index `y` of each row.
    pub fn transpose(&self) -> (r: Self)
        requires
            self@.len() > 0,
            forall|x: int| 0 <= x < self@.len() ==> #[trigger] self@[x].len() >= self@[0].len(),
        ensures
            r@ == transposed(self@),
    {
        let source_x = self.data.len();
        let source_y = self.data[0].len();
        let mut out: Vec<Vec<u8>> = Vec::new();

        let mut from_y: usize = 0;
        while from_y < source_y
            invariant
                source_x == self@.len(),
                source_y == self@[0].len(),
                from_y <= source_y,
                forall|x: int| 0 <= x < self@.len() ==> #[trigger] self@[x].len() >= self@[0].len(),
                rows_of(out@) == transposed(self@).subrange(0, from_y as int),
            decreases source_y - from_y,
        {
            let mut row: Vec<u8> = Vec::new();
            let mut from_x: usize = 0;
            while from_x < source_x
                invariant
                    source_x == self@.len(),
                    source_y == self@[0].len(),
                    from_y < source_y,
                    from_x <= source_x,
                    forall|x: int| 0 <= x < self@.len() ==> #[trigger] self@[x].len() >= self@[0].len(),
                    row@ == Seq::new(from_x as nat, |x: int| self@[x][from_y as int]),
                decreases source_x - from_x,
            {
                proof { assert(self@[from_x as int].len() >= self@[0].len()); }
                row.push(self.data[from_x][from_y]);
                proof { assert(row@ =~= Seq::new((from_x + 1) as nat, |x: int| self@[x][from_y as int])); }
                from_x = from_x + 1;
            }
            let ghost prev = out@;
            out.push(row);
            proof {
                assert(row@ =~~= transposed(self@)[from_y as int]);
                assert(out@ == prev.push(row));
                lemma_rows_push(prev, row);
                lemma_subrange_push(transposed(self@), from_y as int);
            }
            from_y = from_y + 1;
        }
        proof { assert(rows_of(out@) =~= transposed(self@)); }
        BitMatrix { data: out }
    }

    /// Flips dimension `dimension` in every row.
    pub fn mask(&self, dimension: usize) -> (r: BitMatrix)
        requires
            dimension_in_rows(self@, dimension as nat),
        ensures
            r@ == Seq::new(self@.len(), |i: int| flip_dimension(self@[i], self@[0].len(), dimension as nat)),
    {
        let byte_offset = self.data[0].len() - (dimension / 8) - 1;
        let bit_offset = dimension % 8;
        let toggle = 1u8 << (bit_offset as u8);
        let ghost width = self@[0].len();
        let mut masked: Vec<Vec<u8>> = Vec::new();

        let mut i: usize = 0;
        while i < self.data.len()
            invariant
                dimension_in_rows(self@, dimension as nat),
                width == self@[0].len(),
                byte_offset == crate::bit_matrix::byte_offset(width, dimension as nat),
                toggle == toggle_bit(dimension as nat),
                i <= self@.len(),
                rows_of(masked@) == Seq::new(i as nat, |k: int| flip_dimension(self@[k], width, dimension as nat)),
            decreases self@.len() - i,
        {
            let mut row = self.data[i].clone();
            proof {
                assert(row@ =~= self@[i as int]);
                assert(self@[i as int].len() > byte_offset);
            }
            let b = row[byte_offset];
            row.set(byte_offset, b ^ toggle);
            let ghost prev = masked@;
            masked.push(row);
            proof {
                assert(row@ =~= flip_dimension(self@[i as int], width, dimension as nat));
                assert(masked@ == prev.push(row));
                lemma_rows_push(prev, row);
                assert(rows_of(masked@) =~= Seq::new((i + 1) as nat, |k: int| flip_dimension(self@[k], width, dimension as nat)));
            }
            i = i + 1;
        }
        BitMatrix { data: masked }
    }

    /// For each row, the matrix with dimension `dimension` flipped in that
    /// row alone.
    pub fn permute(&self, dimension: usize) -> (r: Vec<BitMatrix>)
        requires
            dimension_in_rows(self@, dimension as nat),
        ensures
            r.len() == self@.len(),
            forall|i: int| 0 <= i < r.len() ==> #[trigger] r[i]@
                == self@.update(i, flip_dimension(self@[i], self@[0].len(), dimension as nat)),
    {
        let byte_offset = self.data[0].len() - (dimension / 8) - 1;
        let bit_offset = dimension % 8;
        let toggle = 1u8 << (bit_offset as u8);
        let ghost width = self@[0].len();
        let mut out: Vec<BitMatrix> = Vec::new();

        let mut i: usize = 0;
        while i < self.data.len()
            invariant
                dimension_in_rows(self@, dimension as nat),
                width == self@[0].len(),
                byte_offset == crate::bit_matrix::byte_offset(width, dimension as nat),
                toggle == toggle_bit(dimension as nat),
                i <= self@.len(),
                out.len() == i,
                forall|k: int| 0 <= k < i ==> #[trigger] out[k]@
                    == self@.update(k, flip_dimension(self@[k], width, dimension as nat)),
            decreases self@.len() - i,
        {
            let mut rows: Vec<Vec<u8>> = Vec::new();
            let mut k: usize = 0;
            while k < self.data.len()
                invariant
                    dimension_in_rows(self@, dimension as nat),
                    width == self@[0].len(),
                    byte_offset == crate::bit_matrix::byte_offset(width, dimension as nat),
                    toggle == toggle_bit(dimension as nat),
                    i < self@.len(),
                    k <= self@.len(),
                    rows_of(rows@) == self@.update(i as int, flip_dimension(self@[i as int], width, dimension as nat)).subrange(0, k as int),
                decreases self@.len() - k,
            {
                let mut row = self.data[k].clone();
                proof { assert(row@ =~= self@[k as int]); }
                if k == i {
                    proof { assert(self@[i as int].len() > byte_offset); }
                    let b = row[byte_offset];
                    row.set(byte_offset, b ^ toggle);
                }
                let ghost prev = rows@;
                rows.push(row);
                proof {
                    assert(rows@ == prev.push(row));
                    assert(row@ =~= self@.update(i as int, flip_dimension(self@[i as int], width, dimension as nat))[k as int]);
                    lemma_rows_push(prev, row);
                    lemma_subrange_push(self@.update(i as int, flip_dimension(self@[i as int], width, dimension as nat)), k as int);
                }
                k = k + 1;
            }
            let permuted = BitMatrix { data: rows };
            proof {
                assert(permuted@ =~= self@.update(i as int, flip_dimension(self@[i as int], width, dimension as nat)));
            }
            out.push(permuted);
            i = i + 1;
        }
        out
    }
}


/// The bytes of `a` xor-ed with those of `b`, `b` read as zero past its end.
pub open spec fn xor_row(a: Seq<u8>, b: Seq<u8>) -> Seq<u8> {
    Seq::new(a.len(), |k: int| a[k] ^ if k < b.len() { b[k] } else { 0u8 })
}

/// Row by row `xor_row` of the rows of `a` with those of `b`.
pub open spec fn xor_rows(a: Seq<Seq<u8>>, b: Seq<Seq<u8>>) -> Seq<Seq<u8>> {
    Seq::new(a.len(), |i: int| xor_row(a[i], b[i]))
}

fn xor_row_exec(a: &Vec<u8>, b: &Vec<u8>) -> (r: Vec<u8>)
    ensures
        r@ == xor_row(a@, b@),
{
    let mut r: Vec<u8> = Vec::new();
    let mut k: usize = 0;
    while k < a.len()
        invariant
            k <= a.len(),
            r@ =~= xor_row(a@, b@).subrange(0, k as int),
        decreases a.len() - k,
    {
        let other: u8 = if k < b.len() { b[k] } else { 0 };
        r.push(a[k] ^ other);
        k = k + 1;
    }
    r
}

impl std::ops::BitXor for BitMatrix {
    type Output = BitMatrix;

    /// Returns the result of bitxor-ing each byte of self and other.
    /// If other is shorter than self, 0 will be used, if self is shorter than
    /// other, the trailing bytes of other will be ignored
    fn bitxor(self, other: Self) -> (r: Self)
        ensures
            r@ == xor_rows(self@, other@),
    {
        let mut data: Vec<Vec<u8>> = Vec::new();
        let mut i: usize = 0;
        while i < self.data.len()
            invariant
                other@.len() >= self@.len(),
                i <= self@.len(),
                rows_of(data@) == xor_rows(self@, other@).subrange(0, i as int),
            decreases self@.len() - i,
        {
            let row = xor_row_exec(&self.data[i], &other.data[i]);
            let ghost prev = data@;
            data.push(row);
            proof {
                lemma_rows_push(prev, row);
                lemma_subrange_push(xor_rows(self@, other@), i as int);
            }
            i = i + 1;
        }
        proof { assert(rows_of(data@) =~= xor_rows(self@, other@)); }
        BitMatrix { data: data }
    }
}

impl vstd::std_specs::ops::BitXorSpecImpl for BitMatrix {
    open spec fn obeys_bitxor_spec() -> bool {
        false
    }

    open spec fn bitxor_req(self, other: BitMatrix) -> bool {
        other@.len() >= self@.len()
    }

    open spec fn bitxor_spec(self, other: BitMatrix) -> BitMatrix {
        arbitrary()
    }
}



/// The shorter length of two rows.
pub open spec fn min_len(a: Seq<u8>, b: Seq<u8>) -> nat {
    if a.len() <= b.len() { a.len() } else { b.len() }
}

/// The bytes of `a` and-ed with those of `b`, as far as both reach.
pub open spec fn and_row(a: Seq<u8>, b: Seq<u8>) -> Seq<u8> {
    Seq::new(min_len(a, b), |k: int| a[k] & b[k])
}

/// The bytes of `a` or-ed with those of `b`, as far as both reach.
pub open spec fn or_row(a: Seq<u8>, b: Seq<u8>) -> Seq<u8> {
    Seq::new(min_len(a, b), |k: int| a[k] | b[k])
}

/// The complement of each byte of `a`.
pub open spec fn not_row(a: Seq<u8>) -> Seq<u8> {
    Seq::new(a.len(), |k: int| !a[k])
}

/// Row by row `and_row`.
pub open spec fn and_rows(a: Seq<Seq<u8>>, b: Seq<Seq<u8>>) -> Seq<Seq<u8>> {
    Seq::new(a.len(), |i: int| and_row(a[i], b[i]))
}

/// Row by row `or_row`.
pub open spec fn or_rows(a: Seq<Seq<u8>>, b: Seq<Seq<u8>>) -> Seq<Seq<u8>> {
    Seq::new(a.len(), |i: int| or_row(a[i], b[i]))
}

/// Row by row `not_row`.
pub open spec fn not_rows(a: Seq<Seq<u8>>) -> Seq<Seq<u8>> {
    Seq::new(a.len(), |i: int| not_row(a[i]))
}

/// A row shifted `rhs` bits towards its first byte: the first `rhs / 8`
/// bytes are dropped and the rest shifted by `rhs % 8` bits, zeros coming
/// in at the end.
pub open spec fn shl_row(row: Seq<u8>, rhs: nat) -> Seq<u8> {
    let rest = if rhs / 8 <= row.len() { row.subrange((rhs / 8) as int, row.len() as int) } else { Seq::empty() };
    if rhs % 8 == 0 {
        rest
    } else {
        let s = (rhs % 8) as u8;
        Seq::new(rest.len(), |k: int| ((rest[k] << s) as u8)
            ^ if k + 1 < rest.len() { (rest[k + 1] >> (8 - s) as u8) as u8 } else { 0u8 })
    }
}

/// A row shifted `rhs` bits towards its last byte: the last `rhs / 8`
/// bytes are dropped and the rest shifted by `rhs % 8` bits, zeros coming
/// in at the front.
pub open spec fn shr_row(row: Seq<u8>, rhs: nat) -> Seq<u8> {
    let rest = if rhs / 8 <= row.len() { row.subrange(0, row.len() - rhs / 8) } else { Seq::empty() };
    if rhs % 8 == 0 {
        rest
    } else {
        let s = (rhs % 8) as u8;
        Seq::new(rest.len(), |k: int| ((rest[k] >> s) as u8)
            ^ if k > 0 { (rest[k - 1] << (8 - s) as u8) as u8 } else { 0u8 })
    }
}

/// Bit `p` of byte `v`, counting from its most significant bit.
pub open spec fn byte_bit(v: u8, p: u8) -> bool {
    (v >> ((7 - p) as u8)) & 1u8 == 1u8
}

/// The bit of a row at position `j`, counting from the most significant bit
/// of its first byte; no bit is set outside the row.
pub open spec fn row_bit(row: Seq<u8>, j: int) -> bool {
    0 <= j < 8 * row.len() && byte_bit(row[j / 8], (j % 8) as u8)
}

/// Dimension `d` of a row: the bit `d` places from the least significant
/// bit of its last byte.
pub open spec fn row_dimension(row: Seq<u8>, d: int) -> bool {
    row_bit(row, 8 * row.len() - 1 - d)
}

/// The bits of a byte built from two neighbouring bytes shifted by `s`.
proof fn lemma_shifted_byte_bits(a: u8, b: u8, s: u8, p: u8)
    by (bit_vector)
    requires
        0 < s < 8,
        p < 8,
    ensures
        byte_bit(((a << s) as u8) ^ ((b >> ((8 - s) as u8)) as u8), p)
            == if p + s < 8 { byte_bit(a, (p + s) as u8) } else { byte_bit(b, (p + s - 8) as u8) },
        byte_bit(((a << s) as u8) ^ 0u8, p) == (p + s < 8 && byte_bit(a, (p + s) as u8)),
        byte_bit(((a >> s) as u8) ^ ((b << ((8 - s) as u8)) as u8), p)
            == if p >= s { byte_bit(a, (p - s) as u8) } else { byte_bit(b, (p + 8 - s) as u8) },
        byte_bit(((a >> s) as u8) ^ 0u8, p) == (p >= s && byte_bit(a, (p - s) as u8)),
{
}

/// Shifting a row left by `rhs` bits moves every bit `rhs` positions
/// towards the front: the bit at position `j` of the result is the one at
/// position `j + rhs` of the row, and zero where that is past its end. The
/// first `rhs / 8` bytes, whose bits all leave, are dropped.
pub proof fn lemma_shl_row_bits(row: Seq<u8>, rhs: nat)
    ensures
        shl_row(row, rhs).len() == if rhs / 8 <= row.len() { row.len() - rhs / 8 } else { 0 },
        forall|j: int| 0 <= j < 8 * shl_row(row, rhs).len() ==>
            #[trigger] row_bit(shl_row(row, rhs), j) == row_bit(row, j + rhs),
{
    let r = shl_row(row, rhs);
    let q = rhs / 8;
    let s8 = rhs % 8;
    assert(rhs == 8 * q + s8);
    if q <= row.len() {
        let rest = row.subrange(q as int, row.len() as int);
        assert forall|j: int| 0 <= j < 8 * r.len() implies #[trigger] row_bit(r, j) == row_bit(row, j + rhs) by {
            let k = j / 8;
            let p = j % 8;
            assert(j == 8 * k + p && 0 <= p < 8);
            assert(0 <= k < rest.len());
            assert(rest[k] == row[k + q]);
            if s8 == 0 {
                assert((j + rhs) / 8 == k + q && (j + rhs) % 8 == p);
            } else {
                let s = s8 as u8;
                let b = if k + 1 < rest.len() { rest[k + 1] } else { 0u8 };
                lemma_shifted_byte_bits(rest[k], b, s, p as u8);
                if p + s8 < 8 {
                    assert((j + rhs) / 8 == k + q && (j + rhs) % 8 == p + s8);
                } else {
                    assert((j + rhs) / 8 == k + q + 1 && (j + rhs) % 8 == p + s8 - 8);
                    if k + 1 < rest.len() {
                        assert(rest[k + 1] == row[k + q + 1]);
                    }
                }
            }
        }
    }
}

/// Shifting a row right by `rhs` bits moves every dimension `rhs` places
/// down: dimension `d` of the result is dimension `d + rhs` of the row, and
/// zero where that is past the row's width. The last `rhs / 8` bytes, whose
/// bits all leave, are dropped.
pub proof fn lemma_shr_row_dimensions(row: Seq<u8>, rhs: nat)
    ensures
        shr_row(row, rhs).len() == if rhs / 8 <= row.len() { row.len() - rhs / 8 } else { 0 },
        forall|d: int| 0 <= d < 8 * shr_row(row, rhs).len() ==>
            #[trigger] row_dimension(shr_row(row, rhs), d) == row_dimension(row, d + rhs),
{
    let r = shr_row(row, rhs);
    let q = rhs / 8;
    let s8 = rhs % 8;
    assert(rhs == 8 * q + s8);
    if q <= row.len() {
        let rest = row.subrange(0, row.len() - q);
        assert forall|d: int| 0 <= d < 8 * r.len() implies #[trigger] row_dimension(r, d) == row_dimension(row, d + rhs) by {
            let j = 8 * r.len() - 1 - d;
            let k = j / 8;
            let p = j % 8;
            assert(j == 8 * k + p && 0 <= p < 8);
            assert(0 <= k < rest.len());
            assert(rest[k] == row[k]);
            let jr = 8 * row.len() - 1 - (d + rhs);
            assert(jr == j - s8);
            if s8 == 0 {
                assert(jr / 8 == k && jr % 8 == p);
            } else {
                let s = s8 as u8;
                let b = if k > 0 { rest[k - 1] } else { 0u8 };
                lemma_shifted_byte_bits(rest[k], b, s, p as u8);
                if p >= s8 {
                    assert(jr / 8 == k && jr % 8 == p - s8);
                } else if k > 0 {
                    assert(jr / 8 == k - 1 && jr % 8 == p + 8 - s8);
                    assert(rest[k - 1] == row[k - 1]);
                }
            }
        }
    }
}

/// Row by row `shl_row`.
pub open spec fn shl_rows(a: Seq<Seq<u8>>, rhs: nat) -> Seq<Seq<u8>> {
    Seq::new(a.len(), |i: int| shl_row(a[i], rhs))
}

/// Row by row `shr_row`.
pub open spec fn shr_rows(a: Seq<Seq<u8>>, rhs: nat) -> Seq<Seq<u8>> {
    Seq::new(a.len(), |i: int| shr_row(a[i], rhs))
}

fn and_row_exec(a: &Vec<u8>, b: &Vec<u8>) -> (r: Vec<u8>)
    ensures
        r@ == and_row(a@, b@),
{
    let n = if a.len() <= b.len() { a.len() } else { b.len() };
    let mut r: Vec<u8> = Vec::new();
    let mut k: usize = 0;
    while k < n
        invariant
            n == min_len(a@, b@),
            k <= n,
            r@ =~= and_row(a@, b@).subrange(0, k as int),
        decreases n - k,
    {
        r.push(a[k] & b[k]);
        k = k + 1;
    }
    r
}

fn or_row_exec(a: &Vec<u8>, b: &Vec<u8>) -> (r: Vec<u8>)
    ensures
        r@ == or_row(a@, b@),
{
    let n = if a.len() <= b.len() { a.len() } else { b.len() };
    let mut r: Vec<u8> = Vec::new();
    let mut k: usize = 0;
    while k < n
        invariant
            n == min_len(a@, b@),
            k <= n,
            r@ =~= or_row(a@, b@).subrange(0, k as int),
        decreases n - k,
    {
        r.push(a[k] | b[k]);
        k = k + 1;
    }
    r
}

fn not_row_exec(a: &Vec<u8>) -> (r: Vec<u8>)
    ensures
        r@ == not_row(a@),
{
    let mut r: Vec<u8> = Vec::new();
    let mut k: usize = 0;
    while k < a.len()
        invariant
            k <= a.len(),
            r@ =~= not_row(a@).subrange(0, k as int),
        decreases a.len() - k,
    {
        r.push(!a[k]);
        k = k + 1;
    }
    r
}

proof fn lemma_xor_zero_u8(x: u8)
    ensures
        x ^ 0u8 == x,
{
    assert(x ^ 0u8 == x) by (bit_vector);
}

fn shl_row_exec(row: &Vec<u8>, rhs: usize) -> (r: Vec<u8>)
    ensures
        r@ == shl_row(row@, rhs as nat),
{
    if rhs == 0 {
        let r = row.clone();
        proof { assert(r@ =~= row@); }
        return r;
    }
    let to_drop = rhs / 8;
    let to_shift = (rhs % 8) as u8;
    let to_unshift = 8 - to_shift;
    let mut out: Vec<u8> = vec![];
    let ghost rest = if rhs / 8 <= row@.len() { row@.subrange((rhs / 8) as int, row@.len() as int) } else { Seq::empty() };

    if to_shift == 0 {
        // Whole bytes: drop them and keep the rest as it is
        let r = if to_drop <= row.len() { crate::window::slice_to_vec(row, to_drop, row.len()) } else { vec![] };
        proof { assert(r@ =~= shl_row(row@, rhs as nat)); }
        return r;
    }
    if to_drop <= row.len() {
        // Drop elements containing only bits to be shifted off
        let mut k: usize = to_drop;
        while k < row.len()
            invariant
                to_drop == rhs / 8,
                to_shift == (rhs % 8) as u8,
                0 < to_shift < 8,
                to_unshift == 8 - to_shift,
                to_drop <= k <= row.len(),
                rest == if rhs / 8 <= row@.len() { row@.subrange((rhs / 8) as int, row@.len() as int) } else { Seq::empty() },
                out@ =~= shl_row(row@, rhs as nat).subrange(0, k - to_drop),
            decreases row.len() - k,
        {
            let ghost prev = out@;
            let ghost target = shl_row(row@, rhs as nat);
            proof {
                assert(target.len() == row.len() - to_drop);
                assert(rest[k - to_drop] == row@[k as int]);
            }
            // Shift some bits
            let this_byte = row[k];
            let out_byte: u8 = this_byte << to_shift;
            let val: u8 = if k + 1 < row.len() {
                // There's another byte - shift some of its bits into this byte
                let bits_from_next_byte: u8 = row[k + 1] >> to_unshift;
                proof { assert(rest[k + 1 - to_drop] == row@[k + 1]); }
                out_byte ^ bits_from_next_byte
            } else {
                // We're on the last element, so we don't need to pull bits
                // from the next one
                out_byte
            };
            proof {
                let kk = k - to_drop;
                assert(rest.len() == row.len() - to_drop);
                assert(rest[kk] == row@[k as int]);
                if k + 1 >= row.len() {
                    lemma_xor_zero_u8(out_byte);
                }
                assert(val == target[kk]);
            }
            out.push(val);
            proof {
                assert(out@ =~= target.subrange(0, k + 1 - to_drop));
            }
            k = k + 1;
        }
        proof {
            assert(shl_row(row@, rhs as nat).len() == row.len() - to_drop);
            assert(out@ =~= shl_row(row@, rhs as nat));
        }
    } else {
        assert(shl_row(row@, rhs as nat) =~= Seq::<u8>::empty());
    }
    out
}

fn shr_row_exec(row: &Vec<u8>, rhs: usize) -> (r: Vec<u8>)
    ensures
        r@ == shr_row(row@, rhs as nat),
{
    if rhs == 0 {
        let r = row.clone();
        proof { assert(r@ =~= row@); }
        return r;
    }
    let to_drop = rhs / 8;
    let to_shift = (rhs % 8) as u8;
    let to_unshift = 8 - to_shift;
    let mut out: Vec<u8> = vec![];

    if to_shift == 0 {
        // Whole bytes: drop them and keep the rest as it is
        let r = if to_drop <= row.len() { crate::window::slice_to_vec(row, 0, row.len() - to_drop) } else { vec![] };
        proof { assert(r@ =~= shr_row(row@, rhs as nat)); }
        return r;
    }
    if to_drop <= row.len() {
        // Drop elements containing only bits to be shifted off
        let n = row.len() - to_drop;
        let mut k: usize = 0;
        while k < n
            invariant
                to_drop == rhs / 8,
                to_drop <= row.len(),
                n == row.len() - to_drop,
                to_shift == (rhs % 8) as u8,
                0 < to_shift < 8,
                to_unshift == 8 - to_shift,
                k <= n,
                out@ =~= shr_row(row@, rhs as nat).subrange(0, k as int),
            decreases n - k,
        {
            let ghost target = shr_row(row@, rhs as nat);
            proof { assert(target.len() == n); }
            // Shift some bits
            let out_byte: u8 = row[k] >> to_shift;
            let val: u8 = if k > 0 {
                // There's another byte - shift some of its bits into this byte
                let bits_from_next_byte: u8 = row[k - 1] << to_unshift;
                out_byte ^ bits_from_next_byte
            } else {
                // We're on the last element, so we don't need to pull bits
                // from the next one
                out_byte
            };
            proof {
                let rest = row@.subrange(0, row@.len() - rhs / 8);
                assert(rest[k as int] == row@[k as int]);
                assert(target[k as int] == ((rest[k as int] >> to_shift) as u8) ^ if k > 0 { (rest[k - 1] << (8 - to_shift) as u8) as u8 } else { 0u8 });
                assert(out_byte == ((row@[k as int] >> to_shift) as u8));
                if k == 0 {
                    lemma_xor_zero_u8(out_byte);
                } else {
                    assert(rest[k - 1] == row@[k - 1]);
                }
            }
            out.push(val);
            proof {
                assert(out@ =~= target.subrange(0, k + 1));
            }
            k = k + 1;
        }
    }
    proof {
        if to_drop > row.len() {
            assert(shr_row(row@, rhs as nat) =~= Seq::<u8>::empty());
        }
    }
    out
}

impl std::ops::BitAnd for BitMatrix {
    type Output = BitMatrix;

    /// Returns the result of bitand-ing each byte of self and other.
    /// If other is shorter than self, self will be truncated to the same length.
    /// If self is shorter than other, the trailing bytes of other will be ignored.
    fn bitand(self, other: Self) -> (r: Self)
        ensures
            r@ == and_rows(self@, other@),
    {
        let mut data: Vec<Vec<u8>> = Vec::new();
        let mut i: usize = 0;
        while i < self.data.len()
            invariant
                other@.len() >= self@.len(),
                i <= self@.len(),
                rows_of(data@) == and_rows(self@, other@).subrange(0, i as int),
            decreases self@.len() - i,
        {
            let row = and_row_exec(&self.data[i], &other.data[i]);
            let ghost prev = data@;
            data.push(row);
            proof {
                lemma_rows_push(prev, row);
                lemma_subrange_push(and_rows(self@, other@), i as int);
            }
            i = i + 1;
        }
        proof { assert(rows_of(data@) =~= and_rows(self@, other@)); }
        BitMatrix { data: data }
    }
}

impl vstd::std_specs::ops::BitAndSpecImpl for BitMatrix {
    open spec fn obeys_bitand_spec() -> bool {
        false
    }

    open spec fn bitand_req(self, other: BitMatrix) -> bool {
        other@.len() >= self@.len()
    }

    open spec fn bitand_spec(self, other: BitMatrix) -> BitMatrix {
        arbitrary()
    }
}

impl std::ops::BitOr for BitMatrix {
    type Output = BitMatrix;

    /// Returns the result of bitor-ing each byte of self and other.
    /// If other is shorter than self, self will be truncated to the same length.
    /// If self is shorter than other, the trailing bytes of other will be ignored.
    fn bitor(self, other: Self) -> (r: Self)
        ensures
            r@ == or_rows(self@, other@),
    {
        let mut data: Vec<Vec<u8>> = Vec::new();
        let mut i: usize = 0;
        while i < self.data.len()
            invariant
                other@.len() >= self@.len(),
                i <= self@.len(),
                rows_of(data@) == or_rows(self@, other@).subrange(0, i as int),
            decreases self@.len() - i,
        {
            let row = or_row_exec(&self.data[i], &other.data[i]);
            let ghost prev = data@;
            data.push(row);
            proof {
                lemma_rows_push(prev, row);
                lemma_subrange_push(or_rows(self@, other@), i as int);
            }
            i = i + 1;
        }
        proof { assert(rows_of(data@) =~= or_rows(self@, other@)); }
        BitMatrix { data: data }
    }
}

impl vstd::std_specs::ops::BitOrSpecImpl for BitMatrix {
    open spec fn obeys_bitor_spec() -> bool {
        false
    }

    open spec fn bitor_req(self, other: BitMatrix) -> bool {
        other@.len() >= self@.len()
    }

    open spec fn bitor_spec(self, other: BitMatrix) -> BitMatrix {
        arbitrary()
    }
}

impl std::ops::Not for BitMatrix {
    type Output = BitMatrix;

    /// The complement of every byte.
    fn not(self) -> (r: BitMatrix)
        ensures
            r@ == not_rows(self@),
    {
        let mut data: Vec<Vec<u8>> = Vec::new();
        let mut i: usize = 0;
        while i < self.data.len()
            invariant
                i <= self@.len(),
                rows_of(data@) == not_rows(self@).subrange(0, i as int),
            decreases self@.len() - i,
        {
            let row = not_row_exec(&self.data[i]);
            let ghost prev = data@;
            data.push(row);
            proof {
                lemma_rows_push(prev, row);
                lemma_subrange_push(not_rows(self@), i as int);
            }
            i = i + 1;
        }
        proof { assert(rows_of(data@) =~= not_rows(self@)); }
        BitMatrix { data: data }
    }
}

impl vstd::std_specs::ops::NotSpecImpl for BitMatrix {
    open spec fn obeys_not_spec() -> bool {
        false
    }

    open spec fn not_req(self) -> bool {
        true
    }

    open spec fn not_spec(self) -> BitMatrix {
        arbitrary()
    }
}

impl std::ops::Shl<usize> for BitMatrix {
    type Output = BitMatrix;

    /// Returns a new byte array with RHS bits removed from the left side, and
    /// pads the left-most byte with zeros (if necessary)
    fn shl(self, rhs: usize) -> (r: Self)
        ensures
            r@ == shl_rows(self@, rhs as nat),
    {
        let mut data: Vec<Vec<u8>> = Vec::new();
        let mut i: usize = 0;
        while i < self.data.len()
            invariant
                i <= self@.len(),
                rows_of(data@) == shl_rows(self@, rhs as nat).subrange(0, i as int),
            decreases self@.len() - i,
        {
            let row = shl_row_exec(&self.data[i], rhs);
            let ghost prev = data@;
            data.push(row);
            proof {
                lemma_rows_push(prev, row);
                lemma_subrange_push(shl_rows(self@, rhs as nat), i as int);
            }
            i = i + 1;
        }
        proof { assert(rows_of(data@) =~= shl_rows(self@, rhs as nat)); }
        BitMatrix { data: data }
    }
}

impl vstd::std_specs::ops::ShlSpecImpl<usize> for BitMatrix {
    open spec fn obeys_shl_spec() -> bool {
        false
    }

    open spec fn shl_req(self, rhs: usize) -> bool {
        true
    }

    open spec fn shl_spec(self, rhs: usize) -> BitMatrix {
        arbitrary()
    }
}

impl std::ops::Shr<usize> for BitMatrix {
    type Output = BitMatrix;

    /// Returns a new byte array with RHS bits removed from the right side, and
    /// pads the right-most byte with zeros (if necessary)
    fn shr(self, rhs: usize) -> (r: Self)
        ensures
            r@ == shr_rows(self@, rhs as nat),
    {
        let mut data: Vec<Vec<u8>> = Vec::new();
        let mut i: usize = 0;
        while i < self.data.len()
            invariant
                i <= self@.len(),
                rows_of(data@) == shr_rows(self@, rhs as nat).subrange(0, i as int),
            decreases self@.len() - i,
        {
            let row = shr_row_exec(&self.data[i], rhs);
            let ghost prev = data@;
            data.push(row);
            proof {
                lemma_rows_push(prev, row);
                lemma_subrange_push(shr_rows(self@, rhs as nat), i as int);
            }
            i = i + 1;
        }
        proof { assert(rows_of(data@) =~= shr_rows(self@, rhs as nat)); }
        BitMatrix { data: data }
    }
}

impl vstd::std_specs::ops::ShrSpecImpl<usize> for BitMatrix {
    open spec fn obeys_shr_spec() -> bool {
        false
    }

    open spec fn shr_req(self, rhs: usize) -> bool {
        true
    }

    open spec fn shr_spec(self, rhs: usize) -> BitMatrix {
        arbitrary()
    }
}


impl BitMatrix {
    /// A copy of the matrix, row by row.
    fn duplicate(&self) -> (r: BitMatrix)
        ensures
            r@ == self@,
    {
        let mut data: Vec<Vec<u8>> = Vec::new();
        let mut i: usize = 0;
        while i < self.data.len()
            invariant
                i <= self@.len(),
                rows_of(data@) == self@.subrange(0, i as int),
            decreases self@.len() - i,
        {
            let row = self.data[i].clone();
            proof { assert(row@ =~= self@[i as int]); }
            let ghost prev = data@;
            data.push(row);
            proof {
                lemma_rows_push(prev, row);
                lemma_subrange_push(self@, i as int);
            }
            i = i + 1;
        }
        proof { assert(self@.subrange(0, self@.len() as int) =~= self@); }
        BitMatrix { data: data }
    }
}

/// The window of `m` that the shifts cut out: the `dimensions` dimensions
/// from `start_dimension`, in rows `columns` wide.
pub open spec fn window_rows(m: Seq<Seq<u8>>, columns: nat, start_dimension: nat, dimensions: nat) -> Seq<Seq<u8>> {
    let trim_high = (columns - (start_dimension + dimensions)) as nat;
    shr_rows(shl_rows(m, trim_high), trim_high + start_dimension)
}

impl Window for BitMatrix {
    open spec fn window_defined(&self, start_dimension: usize, dimensions: usize) -> bool {
        &&& self@.len() > 0
        &&& self@[0].len() * 8 <= usize::MAX
        &&& start_dimension + dimensions <= self@[0].len() * 8
    }

    /// The rows shifted left to drop the dimensions above the window, then
    /// right to drop those below it.
    open spec fn is_window(&self, start_dimension: usize, dimensions: usize, r: BitMatrix) -> bool {
        r@ == window_rows(self@, self@[0].len() * 8, start_dimension as nat, dimensions as nat)
    }

    fn window(&self, start_dimension: usize, dimensions: usize) -> (r: BitMatrix) {
        let trim_high = self.columns() - (start_dimension + dimensions);

        (self.duplicate() << trim_high) >> (trim_high + start_dimension)
    }
}

impl SubstitutionVariant for BitMatrix {
    open spec fn substitutions_defined(&self, dimensions: usize) -> bool {
        forall|i: nat| i < dimensions ==> #[trigger] dimension_in_rows(self@, i)
    }

    /// For each of the first `dimensions` dimensions in turn, and each row
    /// in turn, the matrix with that dimension flipped in that row.
    fn substitution_variants(&self, dimensions: usize) -> (r: Vec<BitMatrix>)
        ensures
            r.len() == dimensions * self@.len(),
            forall|i: int, k: int| 0 <= i < dimensions && 0 <= k < self@.len() ==>
                #[trigger] r[i * self@.len() + k]@ == self@.update(k, flip_dimension(self@[k], self@[0].len(), i as nat)),
    {
        let rows = self.data.len();
        let mut r: Vec<BitMatrix> = Vec::new();
        let mut i: usize = 0;
        while i < dimensions
            invariant
                rows == self@.len(),
                forall|d: nat| d < dimensions ==> #[trigger] dimension_in_rows(self@, d),
                i <= dimensions,
                r.len() == i * rows,
                forall|d: int, k: int| 0 <= d < i && 0 <= k < rows ==>
                    #[trigger] r[d * rows + k]@ == self@.update(k, flip_dimension(self@[k], self@[0].len(), d as nat)),
            decreases dimensions - i,
        {
            assert(dimension_in_rows(self@, i as nat));
            let mut permuted = self.permute(i);
            let ghost prev = r@;
            let ghost added = permuted@;
            r.append(&mut permuted);
            proof {
                assert((i + 1) * rows == i * rows + rows) by (nonlinear_arith);
                assert forall|d: int, k: int| 0 <= d < i + 1 && 0 <= k < rows implies
                    #[trigger] r[d * rows + k]@ == self@.update(k, flip_dimension(self@[k], self@[0].len(), d as nat)) by {
                    if d < i {
                        assert(d * rows + k < i * rows) by (nonlinear_arith)
                            requires d < i, k < rows, d >= 0, k >= 0;
                        assert(r[d * rows + k] == prev[d * rows + k]);
                    } else {
                        assert(d * rows + k == i * rows + k);
                        assert(r[d * rows + k] == added[k]);
                    }
                }
            }
            i = i + 1;
        }
        r
    }
}

impl DeletionVariant for BitMatrix {
    type Output = (BitMatrix, usize);

    open spec fn deletions_defined(&self, dimensions: usize) -> bool {
        forall|i: nat| i < dimensions ==> #[trigger] dimension_in_rows(self@, i)
    }

    /// For each of the first `dimensions` dimensions in turn, the matrix with
    /// that dimension flipped in every row, with the dimension.
    fn deletion_variants(&self, dimensions: usize) -> (r: Vec<(BitMatrix, usize)>)
        ensures
            r.len() == dimensions,
            forall|i: int| 0 <= i < dimensions ==> (#[trigger] r[i]).1 == i
                && r[i].0@ == Seq::new(self@.len(), |k: int| flip_dimension(self@[k], self@[0].len(), i as nat)),
    {
        let mut r: Vec<(BitMatrix, usize)> = Vec::new();
        let mut i: usize = 0;
        while i < dimensions
            invariant
                forall|d: nat| d < dimensions ==> #[trigger] dimension_in_rows(self@, d),
                i <= dimensions,
                r.len() == i,
                forall|d: int| 0 <= d < i ==> (#[trigger] r[d]).1 == d
                    && r[d].0@ == Seq::new(self@.len(), |k: int| flip_dimension(self@[k], self@[0].len(), d as nat)),
            decreases dimensions - i,
        {
            assert(dimension_in_rows(self@, i as nat));
            r.push((self.mask(i), i));
            i = i + 1;
        }
        r
    }
}

/// The or of `a[i][j] ^ b[i][j]` over the rows `i < m`.
pub open spec fn or_xor(a: Seq<Seq<u8>>, b: Seq<Seq<u8>>, m: nat, j: int) -> u8
    decreases m,
{
    if m == 0 {
        0u8
    } else {
        or_xor(a, b, (m - 1) as nat, j) | (a[m - 1][j] ^ b[m - 1][j])
    }
}

/// The number of set bits in the first `n` bytes.
pub open spec fn popcount_sum(bytes: Seq<u8>, n: nat) -> nat
    decreases n,
{
    if n == 0 { 0 } else { popcount_sum(bytes, (n - 1) as nat) + popcount(bytes[n - 1] as nat) }
}

/// For each byte index of the `marks`, the bits set in the mark or in one of
/// the first `m` rows of `a ^ b`: the dimensions that differ.
pub open spec fn column_diffs(a: Seq<Seq<u8>>, b: Seq<Seq<u8>>, m: nat, marks: Seq<u8>) -> Seq<u8> {
    Seq::new(marks.len(), |j: int| marks[j] | or_xor(a, b, m, j))
}

/// A row of `width` zero bytes.
pub open spec fn zero_row(width: nat) -> Seq<u8> {
    Seq::new(width, |j: int| 0u8)
}

/// The number of rows two matrices share.
pub open spec fn shared_rows(a: Seq<Seq<u8>>, b: Seq<Seq<u8>>) -> nat {
    if a.len() <= b.len() { a.len() } else { b.len() }
}

/// The column-major Hamming distance: the number of dimensions that differ
/// in some row.
pub open spec fn matrix_hamming(a: Seq<Seq<u8>>, b: Seq<Seq<u8>>) -> nat {
    popcount_sum(column_diffs(a, b, shared_rows(a, b), zero_row(a[0].len())), a[0].len())
}

/// The marks of two deleted dimensions in a row of `width` bytes: none when
/// they are equal, else both.
pub open spec fn deletion_marks(width: nat, ia: nat, ib: nat) -> Seq<u8> {
    Seq::new(width, |j: int|
        if ia == ib {
            0u8
        } else {
            (if j == byte_offset(width, ia) { toggle_bit(ia) } else { 0u8 })
                | (if j == byte_offset(width, ib) { toggle_bit(ib) } else { 0u8 })
        })
}

/// The Hamming distance between deletion variants: the dimensions that
/// differ in some row, and the two deleted dimensions when they differ.
pub open spec fn deleted_hamming(a: Seq<Seq<u8>>, ia: nat, b: Seq<Seq<u8>>, ib: nat) -> nat {
    popcount_sum(column_diffs(a, b, a.len(), deletion_marks(a[0].len(), ia, ib)), a[0].len())
}

/// The number of set bits in `bytes`.
fn count_ones(bytes: &Vec<u8>) -> (r: usize)
    requires
        bytes.len() * 8 <= usize::MAX,
    ensures
        r == popcount_sum(bytes@, bytes.len() as nat),
{
    let mut count: usize = 0;
    let mut j: usize = 0;
    while j < bytes.len()
        invariant
            bytes.len() * 8 <= usize::MAX,
            j <= bytes.len(),
            count == popcount_sum(bytes@, j as nat),
            count <= 8 * j,
        decreases bytes.len() - j,
    {
        proof {
            vstd::arithmetic::power2::lemma2_to64();
            lemma_popcount_bound(bytes@[j as int] as nat, 8);
        }
        count = count + popcount_u64(bytes[j] as u64) as usize;
        j = j + 1;
    }
    count
}

/// Ors the xor of the first `m` rows of `a` and `b` into `acc`.
fn or_xor_rows(acc: &mut Vec<u8>, a: &BitMatrix, b: &BitMatrix, m: usize)
    requires
        m <= a@.len(),
        m <= b@.len(),
        forall|i: int| 0 <= i < m ==> #[trigger] a@[i].len() >= old(acc).len() && b@[i].len() >= old(acc).len(),
    ensures
        final(acc)@ == column_diffs(a@, b@, m as nat, old(acc)@),
{
    let ghost marks = acc@;
    let mut i: usize = 0;
    proof { assert(acc@ =~= column_diffs(a@, b@, 0, marks)) by {
        assert forall|j: int| 0 <= j < marks.len() implies marks[j] | 0u8 == marks[j] by {
            let x = marks[j];
            assert(x | 0u8 == x) by (bit_vector);
        }
    } }
    while i < m
        invariant
            m <= a@.len(),
            m <= b@.len(),
            forall|r: int| 0 <= r < m ==> #[trigger] a@[r].len() >= marks.len() && b@[r].len() >= marks.len(),
            i <= m,
            acc@ == column_diffs(a@, b@, i as nat, marks),
        decreases m - i,
    {
        let mut j: usize = 0;
        let ghost before = acc@;
        proof { assert(a@[i as int].len() >= marks.len() && b@[i as int].len() >= marks.len()); }
        while j < acc.len()
            invariant
                i < m,
                m <= a@.len(),
                m <= b@.len(),
                a@[i as int].len() >= marks.len(),
                b@[i as int].len() >= marks.len(),
                acc.len() == marks.len(),
                before == column_diffs(a@, b@, i as nat, marks),
                j <= acc.len(),
                forall|k: int| 0 <= k < j ==> #[trigger] acc@[k] == marks[k] | or_xor(a@, b@, (i + 1) as nat, k),
                forall|k: int| j <= k < acc.len() ==> #[trigger] acc@[k] == before[k],
            decreases acc.len() - j,
        {
            let x = acc[j];
            let d = a.data[i][j] ^ b.data[i][j];
            proof {
                let mk = marks[j as int];
                let o = or_xor(a@, b@, i as nat, j as int);
                assert(x == mk | o);
                assert((mk | o) | d == mk | (o | d)) by (bit_vector);
            }
            acc.set(j, x | d);
            j = j + 1;
        }
        proof { assert(acc@ =~= column_diffs(a@, b@, (i + 1) as nat, marks)); }
        i = i + 1;
    }
}

impl Hamming for BitMatrix {
    open spec fn hamming_defined(&self, other: &Self) -> bool {
        &&& self@.len() > 0
        &&& self@[0].len() * 8 <= usize::MAX
        &&& forall|i: int| 0 <= i < shared_rows(self@, other@) ==>
            #[trigger] min_len(self@[i], other@[i]) == self@[0].len()
    }

    open spec fn distance(&self, other: &Self) -> nat {
        matrix_hamming(self@, other@)
    }

    /// Column-major hamming distance: the number of dimensions in which some
    /// row differs.
    fn hamming(&self, other: &BitMatrix) -> (r: usize)
        ensures
            r == matrix_hamming(self@, other@),
    {
        let width = self.data[0].len();
        let shared = if self.data.len() <= other.data.len() { self.data.len() } else { other.data.len() };
        let mut differing: Vec<u8> = vec![0u8; width];
        proof {
            assert(differing@ =~= zero_row(width as nat));
            assert forall|i: int| 0 <= i < shared implies
                #[trigger] self@[i].len() >= differing@.len() && other@[i].len() >= differing@.len() by {
                assert(min_len(self@[i], other@[i]) == self@[0].len());
            }
        }
        or_xor_rows(&mut differing, self, other, shared);
        count_ones(&differing)
    }

    fn hamming_lte(&self, other: &BitMatrix, bound: usize) -> (r: bool)
        ensures
            r == (matrix_hamming(self@, other@) <= bound),
    {
        self.hamming(other) <= bound
    }
}

impl Hamming for (BitMatrix, usize) {
    open spec fn hamming_defined(&self, other: &Self) -> bool {
        &&& self.0@.len() > 0
        &&& self.0@[0].len() * 8 <= usize::MAX
        &&& other.0@.len() >= self.0@.len()
        &&& other.0@[0].len() == self.0@[0].len()
        &&& self.1 < self.0@[0].len() * 8
        &&& other.1 < self.0@[0].len() * 8
        &&& forall|i: int| 0 <= i < self.0@.len() ==>
            #[trigger] min_len(self.0@[i], other.0@[i]) == self.0@[0].len()
    }

    open spec fn distance(&self, other: &Self) -> nat {
        deleted_hamming(self.0@, self.1 as nat, other.0@, other.1 as nat)
    }

    /// The dimensions in which some row differs, with the two deleted
    /// dimensions when they differ.
    fn hamming(&self, other: &(BitMatrix, usize)) -> (r: usize)
        ensures
            r == deleted_hamming(self.0@, self.1 as nat, other.0@, other.1 as nat),
    {
        let width = self.0.data[0].len();
        let mut differing = deletion_mark_row(width, self.1, other.1);
        proof {
            assert forall|i: int| 0 <= i < self.0@.len() implies
                #[trigger] self.0@[i].len() >= differing@.len() && other.0@[i].len() >= differing@.len() by {
                assert(min_len(self.0@[i], other.0@[i]) == self.0@[0].len());
            }
        }
        or_xor_rows(&mut differing, &self.0, &other.0, self.0.data.len());
        count_ones(&differing)
    }

    /// Whether the distance is at most `bound`.
    fn hamming_lte(&self, other: &(BitMatrix, usize), bound: usize) -> (r: bool)
        ensures
            r == (deleted_hamming(self.0@, self.1 as nat, other.0@, other.1 as nat) <= bound),
    {
        self.hamming(other) <= bound
    }
}

/// A row of `width` bytes holding the marks of two deleted dimensions.
fn deletion_mark_row(width: usize, ia: usize, ib: usize) -> (r: Vec<u8>)
    requires
        ia < width * 8,
        ib < width * 8,
    ensures
        r@ == deletion_marks(width as nat, ia as nat, ib as nat),
{
    let mut r: Vec<u8> = vec![0u8; width];
    if ia != ib {
        let oa = width - ia / 8 - 1;
        let ob = width - ib / 8 - 1;
        let ta = 1u8 << ((ia % 8) as u8);
        let tb = 1u8 << ((ib % 8) as u8);
        r.set(oa, ta);
        let x = r[ob];
        r.set(ob, x | tb);
        proof {
            let target = deletion_marks(width as nat, ia as nat, ib as nat);
            assert forall|j: int| 0 <= j < width implies r@[j] == target[j] by {
                let a: u8 = if j == oa { ta } else { 0u8 };
                let b: u8 = if j == ob { tb } else { 0u8 };
                assert(a | 0u8 == a && 0u8 | b == b && 0u8 | 0u8 == 0u8) by (bit_vector);
            }
            assert(r@ =~= target);
        }
    } else {
        proof { assert(r@ =~= deletion_marks(width as nat, ia as nat, ib as nat)); }
    }
    r
}


/// Conversion between a value and a `BitMatrix`.
pub trait AsBitMatrix: Sized {
    /// The matrices that `from_bit_matrix` accepts.
    spec fn from_defined(bm: &BitMatrix) -> bool;

    /// Converts Self into a BitMatrix
    fn as_bit_matrix(self) -> BitMatrix;

    /// Converts a BitMatrix into Self
    fn from_bit_matrix(bm: BitMatrix) -> Self
        requires
            Self::from_defined(&bm);
}

impl AsBitMatrix for u64 {
    open spec fn from_defined(bm: &BitMatrix) -> bool {
        bm@.len() > 0 && bm@[0].len() >= 8
    }

    /// One row: the eight little-endian bytes of the value.
    fn as_bit_matrix(self) -> (r: BitMatrix)
        ensures
            r@ == seq![spec_u64_to_le_bytes(self)],
    {
        let mut buf: Vec<u8> = vec![0u8; 8];
        le_write_u64(&mut buf, self);
        proof {
            vstd::bytes::lemma_auto_spec_u64_to_from_le_bytes();
            assert(buf@ =~= spec_u64_to_le_bytes(self));
        }
        let r = BitMatrix::new(vec![buf]);
        proof { assert(r@ =~= seq![spec_u64_to_le_bytes(self)]); }
        r
    }

    /// The value whose little-endian bytes start the first row.
    fn from_bit_matrix(bm: BitMatrix) -> (r: u64)
        ensures
            r == spec_u64_from_le_bytes(bm@[0].subrange(0, 8)),
    {
        le_read_u64(&bm.data[0])
    }
}

/// Converting to a matrix and back gives the value back.
pub proof fn lemma_bit_matrix_round_trip(x: u64)
    ensures
        spec_u64_from_le_bytes(seq![spec_u64_to_le_bytes(x)][0].subrange(0, 8)) == x,
{
    vstd::bytes::lemma_auto_spec_u64_to_from_le_bytes();
    assert(seq![spec_u64_to_le_bytes(x)][0].subrange(0, 8) =~= spec_u64_to_le_bytes(x));
}

/// Distinct values convert to distinct matrices.
pub proof fn lemma_bit_matrix_injective(x: u64, y: u64)
    requires
        x != y,
    ensures
        seq![spec_u64_to_le_bytes(x)] != seq![spec_u64_to_le_bytes(y)],
{
    vstd::bytes::lemma_auto_spec_u64_to_from_le_bytes();
    if seq![spec_u64_to_le_bytes(x)] == seq![spec_u64_to_le_bytes(y)] {
        assert(seq![spec_u64_to_le_bytes(x)][0] == seq![spec_u64_to_le_bytes(y)][0]);
    }
}

/// Whether two matrices have the same number of rows, with rows of equal
/// lengths.
pub open spec fn same_shape(a: Seq<Seq<u8>>, b: Seq<Seq<u8>>) -> bool {
    &&& a.len() == b.len()
    &&& forall|i: int| 0 <= i < a.len() ==> #[trigger] a[i].len() == b[i].len()
}

/// De Morgan: `a & b` is `!(!a | !b)` for matrices of one shape.
pub proof fn lemma_and_de_morgan(a: Seq<Seq<u8>>, b: Seq<Seq<u8>>)
    requires
        same_shape(a, b),
    ensures
        and_rows(a, b) == not_rows(or_rows(not_rows(a), not_rows(b))),
{
    assert forall|i: int| 0 <= i < a.len() implies
        #[trigger] and_rows(a, b)[i] == not_rows(or_rows(not_rows(a), not_rows(b)))[i] by {
        assert forall|k: int| 0 <= k < a[i].len() implies
            #[trigger] and_row(a[i], b[i])[k] == not_row(or_row(not_row(a[i]), not_row(b[i])))[k] by {
            let x = a[i][k];
            let y = b[i][k];
            assert(x & y == !(!x | !y)) by (bit_vector);
        }
        assert(and_row(a[i], b[i]) =~= not_row(or_row(not_row(a[i]), not_row(b[i]))));
    }
    assert(and_rows(a, b) =~= not_rows(or_rows(not_rows(a), not_rows(b))));
}

/// De Morgan: `a | b` is `!(!a & !b)` for matrices of one shape.
pub proof fn lemma_or_de_morgan(a: Seq<Seq<u8>>, b: Seq<Seq<u8>>)
    requires
        same_shape(a, b),
    ensures
        or_rows(a, b) == not_rows(and_rows(not_rows(a), not_rows(b))),
{
    assert forall|i: int| 0 <= i < a.len() implies
        #[trigger] or_rows(a, b)[i] == not_rows(and_rows(not_rows(a), not_rows(b)))[i] by {
        assert forall|k: int| 0 <= k < a[i].len() implies
            #[trigger] or_row(a[i], b[i])[k] == not_row(and_row(not_row(a[i]), not_row(b[i])))[k] by {
            let x = a[i][k];
            let y = b[i][k];
            assert(x | y == !(!x & !y)) by (bit_vector);
        }
        assert(or_row(a[i], b[i]) =~= not_row(and_row(not_row(a[i]), not_row(b[i]))));
    }
    assert(or_rows(a, b) =~= not_rows(and_rows(not_rows(a), not_rows(b))));
}

/// `a ^ b` is `(a | b) & !(a & b)` for matrices of one shape.
pub proof fn lemma_xor_as_and_or(a: Seq<Seq<u8>>, b: Seq<Seq<u8>>)
    requires
        same_shape(a, b),
    ensures
        xor_rows(a, b) == and_rows(or_rows(a, b), not_rows(and_rows(a, b))),
{
    assert forall|i: int| 0 <= i < a.len() implies
        #[trigger] xor_rows(a, b)[i] == and_rows(or_rows(a, b), not_rows(and_rows(a, b)))[i] by {
        assert forall|k: int| 0 <= k < a[i].len() implies
            #[trigger] xor_row(a[i], b[i])[k] == and_row(or_row(a[i], b[i]), not_row(and_row(a[i], b[i])))[k] by {
            let x = a[i][k];
            let y = b[i][k];
            assert(x ^ y == (x | y) & !(x & y)) by (bit_vector);
        }
        assert(xor_row(a[i], b[i]) =~= and_row(or_row(a[i], b[i]), not_row(and_row(a[i], b[i]))));
    }
    assert(xor_rows(a, b) =~= and_rows(or_rows(a, b), not_rows(and_rows(a, b))));
}


/// Bit `7 - i` of each of the eight bytes of `a`, gathered into one byte
/// with the bit of `a[0]` most significant.
pub open spec fn column_byte(a: Seq<u8>, i: int) -> u8 {
    let s = (7 - i) as u8;
    ((((a[0] >> s) & 1u8) << 7u8) | (((a[1] >> s) & 1u8) << 6u8) | (((a[2] >> s) & 1u8) << 5u8)
        | (((a[3] >> s) & 1u8) << 4u8) | (((a[4] >> s) & 1u8) << 3u8) | (((a[5] >> s) & 1u8) << 2u8)
        | (((a[6] >> s) & 1u8) << 1u8) | ((a[7] >> s) & 1u8)) as u8
}

/// The square transposition of the bits of eight bytes: bit `7 - j` of byte
/// `i` of the result is bit `7 - i` of byte `j`.
pub open spec fn bit_transposed(a: Seq<u8>) -> Seq<u8> {
    Seq::new(8, |i: int| column_byte(a, i))
}

/// Trait of objects whose bits can be transposed
///
/// `BitTranspose` does a square-matrix transposition of bits.
pub trait BitTranspose: Sized {
    /// The values whose bits form a square matrix.
    spec fn transpose_defined(&self) -> bool;

    fn bit_transpose(self) -> Self
        requires
            self.transpose_defined();

    fn bit_transpose_assign(&mut self)
        requires
            old(self).transpose_defined();
}

impl BitTranspose for Vec<u8> {
    open spec fn transpose_defined(&self) -> bool {
        self.len() == 8
    }

    fn bit_transpose(self) -> (r: Vec<u8>)
        ensures
            r@ == bit_transposed(self@),
    {
        let mut v = self;
        v.bit_transpose_assign();
        v
    }

    /// The transposition of Hacker's Delight (`transpose8`): three rounds
    /// of butterflies, swapping 4-bit, then 2-bit, then 1-bit blocks between
    /// bytes 4, 2 and 1 apart.
    fn bit_transpose_assign(&mut self)
        ensures
            final(self)@ == bit_transposed(old(self)@),
    {
        let ghost a = self@;
        // blocks of four bits, between bytes four apart
        butterfly_at(self, 0, 4, 0x0F);
        butterfly_at(self, 1, 4, 0x0F);
        butterfly_at(self, 2, 4, 0x0F);
        butterfly_at(self, 3, 4, 0x0F);
        // blocks of two bits, between bytes two apart
        butterfly_at(self, 0, 2, 0x33);
        butterfly_at(self, 1, 2, 0x33);
        butterfly_at(self, 4, 2, 0x33);
        butterfly_at(self, 5, 2, 0x33);
        // single bits, between neighbouring bytes
        butterfly_at(self, 0, 1, 0x55);
        butterfly_at(self, 2, 1, 0x55);
        butterfly_at(self, 4, 1, 0x55);
        butterfly_at(self, 6, 1, 0x55);
        proof {
            let b0 = bf_lo(a[0], a[4], 4, 0x0F);
            let b4 = bf_hi(a[0], a[4], 4, 0x0F);
            let b1 = bf_lo(a[1], a[5], 4, 0x0F);
            let b5 = bf_hi(a[1], a[5], 4, 0x0F);
            let b2 = bf_lo(a[2], a[6], 4, 0x0F);
            let b6 = bf_hi(a[2], a[6], 4, 0x0F);
            let b3 = bf_lo(a[3], a[7], 4, 0x0F);
            let b7 = bf_hi(a[3], a[7], 4, 0x0F);
            let c0 = bf_lo(b0, b2, 2, 0x33);
            let c2 = bf_hi(b0, b2, 2, 0x33);
            let c1 = bf_lo(b1, b3, 2, 0x33);
            let c3 = bf_hi(b1, b3, 2, 0x33);
            let c4 = bf_lo(b4, b6, 2, 0x33);
            let c6 = bf_hi(b4, b6, 2, 0x33);
            let c5 = bf_lo(b5, b7, 2, 0x33);
            let c7 = bf_hi(b5, b7, 2, 0x33);
            lemma_transpose8(a[0], a[1], a[2], a[3], a[4], a[5], a[6], a[7],
                b0, b1, b2, b3, b4, b5, b6, b7, c0, c1, c2, c3, c4, c5, c6, c7);
            assert forall|k: int| 0 <= k < 8 implies #[trigger] column_byte(a, k)
                == column_of(a[0], a[1], a[2], a[3], a[4], a[5], a[6], a[7], k as u8) by {}
            assert(self@ =~= bit_transposed(a));
        }
    }
}

/// The low byte of a butterfly: the bits of `y >> j` under `m` replace
/// those of `x`.
pub open spec fn bf_lo(x: u8, y: u8, j: u8, m: u8) -> u8 {
    x ^ ((x ^ (y >> j)) & m)
}

/// The high byte of a butterfly: the bits of `x` under `m` replace those of
/// `y` under `m << j`.
pub open spec fn bf_hi(x: u8, y: u8, j: u8, m: u8) -> u8 {
    (y ^ ((((x ^ (y >> j)) & m) << j) as u8)) as u8
}

/// One butterfly between bytes `k` and `k + j`.
fn butterfly_at(a: &mut Vec<u8>, k: usize, j: usize, m: u8)
    requires
        old(a).len() == 8,
        1 <= j <= 4,
        k + j < 8,
    ensures
        final(a)@ == old(a)@.update(k as int, bf_lo(old(a)@[k as int], old(a)@[k + j], j as u8, m))
            .update(k + j, bf_hi(old(a)@[k as int], old(a)@[k + j], j as u8, m)),
{
    let t: u8 = (a[k] ^ (a[k + j] >> (j as u8))) & m;
    let lo = a[k] ^ t;
    let hi = a[k + j] ^ (t << (j as u8));
    a.set(k, lo);
    a.set(k + j, hi);
}

/// The three rounds of butterflies transpose eight bytes.
proof fn lemma_transpose8(
    a0: u8, a1: u8, a2: u8, a3: u8, a4: u8, a5: u8, a6: u8, a7: u8,
    b0: u8, b1: u8, b2: u8, b3: u8, b4: u8, b5: u8, b6: u8, b7: u8,
    c0: u8, c1: u8, c2: u8, c3: u8, c4: u8, c5: u8, c6: u8, c7: u8,
)
    by (bit_vector)
    requires
        b0 == bf_lo(a0, a4, 4, 0x0F), b4 == bf_hi(a0, a4, 4, 0x0F),
        b1 == bf_lo(a1, a5, 4, 0x0F), b5 == bf_hi(a1, a5, 4, 0x0F),
        b2 == bf_lo(a2, a6, 4, 0x0F), b6 == bf_hi(a2, a6, 4, 0x0F),
        b3 == bf_lo(a3, a7, 4, 0x0F), b7 == bf_hi(a3, a7, 4, 0x0F),
        c0 == bf_lo(b0, b2, 2, 0x33), c2 == bf_hi(b0, b2, 2, 0x33),
        c1 == bf_lo(b1, b3, 2, 0x33), c3 == bf_hi(b1, b3, 2, 0x33),
        c4 == bf_lo(b4, b6, 2, 0x33), c6 == bf_hi(b4, b6, 2, 0x33),
        c5 == bf_lo(b5, b7, 2, 0x33), c7 == bf_hi(b5, b7, 2, 0x33),
    ensures
        bf_lo(c0, c1, 1, 0x55) == column_of(a0, a1, a2, a3, a4, a5, a6, a7, 0),
        bf_hi(c0, c1, 1, 0x55) == column_of(a0, a1, a2, a3, a4, a5, a6, a7, 1),
        bf_lo(c2, c3, 1, 0x55) == column_of(a0, a1, a2, a3, a4, a5, a6, a7, 2),
        bf_hi(c2, c3, 1, 0x55) == column_of(a0, a1, a2, a3, a4, a5, a6, a7, 3),
        bf_lo(c4, c5, 1, 0x55) == column_of(a0, a1, a2, a3, a4, a5, a6, a7, 4),
        bf_hi(c4, c5, 1, 0x55) == column_of(a0, a1, a2, a3, a4, a5, a6, a7, 5),
        bf_lo(c6, c7, 1, 0x55) == column_of(a0, a1, a2, a3, a4, a5, a6, a7, 6),
        bf_hi(c6, c7, 1, 0x55) == column_of(a0, a1, a2, a3, a4, a5, a6, a7, 7),
{
}

/// The transposition of eight bytes given one by one.
pub open spec fn column_of(a0: u8, a1: u8, a2: u8, a3: u8, a4: u8, a5: u8, a6: u8, a7: u8, i: u8) -> u8 {
    let s = (7 - i) as u8;
    ((((a0 >> s) & 1u8) << 7u8) | (((a1 >> s) & 1u8) << 6u8) | (((a2 >> s) & 1u8) << 5u8)
        | (((a3 >> s) & 1u8) << 4u8) | (((a4 >> s) & 1u8) << 3u8) | (((a5 >> s) & 1u8) << 2u8)
        | (((a6 >> s) & 1u8) << 1u8) | ((a7 >> s) & 1u8)) as u8
}

proof fn lemma_column_twice(a0: u8, a1: u8, a2: u8, a3: u8, a4: u8, a5: u8, a6: u8, a7: u8, i: u8)
    requires
        i < 8,
    ensures
        column_of(
            column_of(a0, a1, a2, a3, a4, a5, a6, a7, 0),
            column_of(a0, a1, a2, a3, a4, a5, a6, a7, 1),
            column_of(a0, a1, a2, a3, a4, a5, a6, a7, 2),
            column_of(a0, a1, a2, a3, a4, a5, a6, a7, 3),
            column_of(a0, a1, a2, a3, a4, a5, a6, a7, 4),
            column_of(a0, a1, a2, a3, a4, a5, a6, a7, 5),
            column_of(a0, a1, a2, a3, a4, a5, a6, a7, 6),
            column_of(a0, a1, a2, a3, a4, a5, a6, a7, 7),
            i,
        ) == if i == 0 { a0 } else if i == 1 { a1 } else if i == 2 { a2 } else if i == 3 { a3 }
            else if i == 4 { a4 } else if i == 5 { a5 } else if i == 6 { a6 } else { a7 },
{
    assert(column_of(
        column_of(a0, a1, a2, a3, a4, a5, a6, a7, 0),
        column_of(a0, a1, a2, a3, a4, a5, a6, a7, 1),
        column_of(a0, a1, a2, a3, a4, a5, a6, a7, 2),
        column_of(a0, a1, a2, a3, a4, a5, a6, a7, 3),
        column_of(a0, a1, a2, a3, a4, a5, a6, a7, 4),
        column_of(a0, a1, a2, a3, a4, a5, a6, a7, 5),
        column_of(a0, a1, a2, a3, a4, a5, a6, a7, 6),
        column_of(a0, a1, a2, a3, a4, a5, a6, a7, 7),
        i,
    ) == if i == 0 { a0 } else if i == 1 { a1 } else if i == 2 { a2 } else if i == 3 { a3 }
        else if i == 4 { a4 } else if i == 5 { a5 } else if i == 6 { a6 } else { a7 }) by (bit_vector)
        requires i < 8;
}

/// Transposing twice gives the bytes back.
pub proof fn lemma_bit_transpose_involution(a: Seq<u8>)
    requires
        a.len() == 8,
    ensures
        bit_transposed(bit_transposed(a)) == a,
{
    let t = bit_transposed(a);
    assert forall|i: int| 0 <= i < 8 implies #[trigger] bit_transposed(t)[i] == a[i] by {
        lemma_column_twice(a[0], a[1], a[2], a[3], a[4], a[5], a[6], a[7], i as u8);
        assert(forall|k: int| 0 <= k < 8 ==> #[trigger] column_byte(a, k)
            == column_of(a[0], a[1], a[2], a[3], a[4], a[5], a[6], a[7], k as u8));
        assert(bit_transposed(t)[i] == column_of(t[0], t[1], t[2], t[3], t[4], t[5], t[6], t[7], i as u8));
    }
    assert(bit_transposed(t) =~= a);
}


/// The columns where `a` and `c` differ are columns where `a` and `b`, or
/// `b` and `c`, differ.
proof fn lemma_or_xor_triangle(a: Seq<Seq<u8>>, b: Seq<Seq<u8>>, c: Seq<Seq<u8>>, m: nat, j: int)
    ensures
        or_xor(a, c, m, j) & (or_xor(a, b, m, j) | or_xor(b, c, m, j)) == or_xor(a, c, m, j),
    decreases m,
{
    if m == 0 {
        assert(0u8 & (0u8 | 0u8) == 0u8) by (bit_vector);
    } else {
        lemma_or_xor_triangle(a, b, c, (m - 1) as nat, j);
        let x = or_xor(a, c, (m - 1) as nat, j);
        let y = or_xor(a, b, (m - 1) as nat, j);
        let z = or_xor(b, c, (m - 1) as nat, j);
        let p = a[m - 1][j];
        let q = b[m - 1][j];
        let r = c[m - 1][j];
        assert((x | (p ^ r)) & ((y | (p ^ q)) | (z | (q ^ r))) == x | (p ^ r)) by (bit_vector)
            requires x & (y | z) == x;
    }
}

/// The byte-wise bound behind the triangle inequality.
proof fn lemma_popcount_byte_triangle(x: u8, y: u8, z: u8)
    requires
        x & (y | z) == x,
    ensures
        popcount(x as nat) <= popcount(y as nat) + popcount(z as nat),
{
    let xw = x as u64;
    let yw = y as u64;
    let zw = z as u64;
    assert(xw & (yw | zw) == xw && (yw | zw) == (y | z) as u64) by (bit_vector)
        requires x & (y | z) == x, xw == x as u64, yw == y as u64, zw == z as u64;
    lemma_popcount_subset(xw, yw | zw);
    lemma_popcount_or(yw, zw);
}

proof fn lemma_popcount_sum_triangle(a: Seq<Seq<u8>>, b: Seq<Seq<u8>>, c: Seq<Seq<u8>>, m: nat, width: nat, n: nat)
    requires
        n <= width,
    ensures
        popcount_sum(column_diffs(a, c, m, zero_row(width)), n)
            <= popcount_sum(column_diffs(a, b, m, zero_row(width)), n) + popcount_sum(column_diffs(b, c, m, zero_row(width)), n),
    decreases n,
{
    if n > 0 {
        lemma_popcount_sum_triangle(a, b, c, m, width, (n - 1) as nat);
        let j = n - 1;
        lemma_or_xor_triangle(a, b, c, m, j);
        let x = or_xor(a, c, m, j);
        let y = or_xor(a, b, m, j);
        let z = or_xor(b, c, m, j);
        assert(0u8 | x == x && 0u8 | y == y && 0u8 | z == z) by (bit_vector);
        lemma_popcount_byte_triangle(x, y, z);
    }
}

/// The triangle inequality for the column-major Hamming distance, between
/// matrices with as many rows and rows as wide.
pub proof fn lemma_matrix_hamming_triangle(a: Seq<Seq<u8>>, b: Seq<Seq<u8>>, c: Seq<Seq<u8>>)
    requires
        a.len() > 0,
        a.len() == b.len(),
        b.len() == c.len(),
        a[0].len() == b[0].len(),
        b[0].len() == c[0].len(),
    ensures
        matrix_hamming(a, c) <= matrix_hamming(a, b) + matrix_hamming(b, c),
{
    lemma_popcount_sum_triangle(a, b, c, a.len(), a[0].len(), a[0].len());
}

/// The column-major Hamming distance is symmetric.
pub proof fn lemma_matrix_hamming_symmetric(a: Seq<Seq<u8>>, b: Seq<Seq<u8>>)
    requires
        a.len() > 0,
        b.len() > 0,
        a[0].len() == b[0].len(),
    ensures
        matrix_hamming(a, b) == matrix_hamming(b, a),
{
    let m = shared_rows(a, b);
    assert(m == shared_rows(b, a));
    assert forall|j: int| #![auto] 0 <= j < a[0].len() implies or_xor(a, b, m, j) == or_xor(b, a, m, j) by {
        lemma_or_xor_symmetric(a, b, m, j);
    }
    assert(column_diffs(a, b, m, zero_row(a[0].len())) =~= column_diffs(b, a, m, zero_row(b[0].len())));
}

proof fn lemma_or_xor_symmetric(a: Seq<Seq<u8>>, b: Seq<Seq<u8>>, m: nat, j: int)
    ensures
        or_xor(a, b, m, j) == or_xor(b, a, m, j),
    decreases m,
{
    if m > 0 {
        lemma_or_xor_symmetric(a, b, (m - 1) as nat, j);
        let p = a[m - 1][j];
        let q = b[m - 1][j];
        assert(p ^ q == q ^ p) by (bit_vector);
    }
}

/// Transposing a rectangular matrix of bytes twice gives it back.
pub proof fn lemma_transpose_involution(m: Seq<Seq<u8>>)
    requires
        m.len() > 0,
        m[0].len() > 0,
        forall|x: int| 0 <= x < m.len() ==> #[trigger] m[x].len() == m[0].len(),
    ensures
        transposed(transposed(m)) == m,
{
    let t = transposed(m);
    assert forall|x: int| 0 <= x < m.len() implies #[trigger] transposed(t)[x] == m[x] by {
        assert(transposed(t)[x] =~= m[x]);
    }
    assert(transposed(t) =~= m);
}

} // verus!
