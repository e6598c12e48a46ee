//! Erasure coding of blocks of bytes.
//!
//! A block is read as a sequence of 32-bit little-endian words. Word `t` of coding block
//! `i` is a linear combination of the words `t` of all data blocks. The coefficients form
//! a Cauchy matrix, so any lost blocks can be restored as long as they are no more than
//! the coding blocks.
use vstd::prelude::*;

use crate::cauchy::{
    cauchy_row, distinct_points, lemma_reciprocal, lemma_solution_exists, lemma_solution_unique,
};
use crate::error::ErasureError;
use crate::galois::{
    divide, gf_div, gf_mul, lemma_div, lemma_mul_associates, lemma_mul_commutes,
    lemma_mul_distributes, lemma_mul_units, lemma_xor_laws, multiply,
};

verus! {

/// The number of bits in a word of a block.
pub const ERASURE_W: i32 = 32;

/// The size of a block has to be a multiple of this number of bytes.
pub const JERASURE_ALIGN: usize = 4;

/// Word `t` of a block, lowest byte first.
pub open spec fn word(block: Seq<u8>, t: int) -> u32 {
    (block[4 * t] as u32) | (block[4 * t + 1] as u32) << 8u32 | (block[4 * t + 2] as u32) << 16u32 | (
    block[4 * t + 3] as u32) << 24u32
}

/// Word `t` of each block.
pub open spec fn column(blocks: Seq<Seq<u8>>, t: int) -> Seq<u32> {
    Seq::new(blocks.len(), |j: int| word(blocks[j], t))
}

/// The coefficient of data block `j` in coding block `i` of `m`: the reciprocal of the sum
/// of the points `i` and `m + j`.
pub open spec fn coefficient(m: nat, i: int, j: int) -> u32 {
    gf_div(1, (i as u32) ^ ((m + j) as u32))
}

/// The word of coding block `i` of `m` that belongs to a column of data words.
pub open spec fn parity(column: Seq<u32>, m: nat, i: int) -> u32
    decreases column.len(),
{
    if column.len() == 0 {
        0
    } else {
        parity(column.drop_last(), m, i) ^ gf_mul(
            coefficient(m, i, column.len() - 1),
            column.last(),
        )
    }
}

/// `block` is coding block `i` of `m` for the data blocks.
pub open spec fn is_coding_block(block: Seq<u8>, data: Seq<Seq<u8>>, m: nat, i: int) -> bool {
    forall|t: int| 0 <= t < block.len() as int / 4 ==> #[trigger] word(block, t) == parity(column(data, t), m, i)
}

/// `coding` are the coding blocks of `data`.
pub open spec fn is_codeword(data: Seq<Seq<u8>>, coding: Seq<Seq<u8>>) -> bool {
    forall|i: int|
        0 <= i < coding.len() ==> is_coding_block(#[trigger] coding[i], data, coding.len(), i)
}

/// All blocks have the length `len`.
pub open spec fn all_of_len(blocks: Seq<Seq<u8>>, len: nat) -> bool {
    forall|j: int| 0 <= j < blocks.len() ==> #[trigger] blocks[j].len() == len
}

/// All data and coding blocks have the length of the first data block.
pub open spec fn equal_sized(data: Seq<Seq<u8>>, coding: Seq<Seq<u8>>) -> bool {
    &&& all_of_len(data, data[0].len())
    &&& all_of_len(coding, data[0].len())
}

/// The contents of shared slices.
pub open spec fn contents(blocks: Seq<&[u8]>) -> Seq<Seq<u8>> {
    Seq::new(blocks.len(), |j: int| blocks[j]@)
}

/// The contents of mutable slices.
pub open spec fn mut_contents(blocks: Seq<&mut [u8]>) -> Seq<Seq<u8>> {
    Seq::new(blocks.len(), |j: int| blocks[j]@)
}

/// The matrix for `m` coding and `k` data blocks stays within the range of `i32`.
pub open spec fn in_matrix_range(m: nat, k: nat) -> bool {
    &&& m + k <= i32::MAX + 1
    &&& m * k <= i32::MAX
}

proof fn lemma_word_bytes(w: u32)
    ensures
        ((w & 0xff) as u8 as u32) | (((w >> 8u32) & 0xff) as u8 as u32) << 8u32 | (((w >> 16u32)
            & 0xff) as u8 as u32) << 16u32 | (((w >> 24u32) & 0xff) as u8 as u32) << 24u32 == w,
{
    assert(((w & 0xff) as u8 as u32) | (((w >> 8u32) & 0xff) as u8 as u32) << 8u32 | (((w >> 16u32)
            & 0xff) as u8 as u32) << 16u32 | (((w >> 24u32) & 0xff) as u8 as u32) << 24u32 == w) by (bit_vector);
}

/// The words of a block determine its bytes.
pub proof fn lemma_words_determine_block(a: Seq<u8>, b: Seq<u8>)
    requires
        a.len() == b.len(),
        a.len() % 4 == 0,
        forall|t: int| 0 <= t < a.len() as int / 4 ==> #[trigger] word(a, t) == word(b, t),
    ensures
        a == b,
{
    assert forall|p: int| 0 <= p < a.len() implies a[p] == b[p] by {
        let t: int = p / 4;
        assert(word(a, t) == word(b, t));
        let (a0, a1, a2, a3): (u8, u8, u8, u8) = (
            a[4 * t],
            a[4 * t + 1],
            a[4 * t + 2],
            a[4 * t + 3],
        );
        let (b0, b1, b2, b3): (u8, u8, u8, u8) = (
            b[4 * t],
            b[4 * t + 1],
            b[4 * t + 2],
            b[4 * t + 3],
        );
        assert(a0 == b0 && a1 == b1 && a2 == b2 && a3 == b3) by (bit_vector)
            requires
                a0 as u32 | (a1 as u32) << 8u32 | (a2 as u32) << 16u32 | (a3 as u32) << 24u32
                    == b0 as u32 | (b1 as u32) << 8u32 | (b2 as u32) << 16u32 | (b3 as u32)
                    << 24u32,
        ;
    }
    assert(a =~= b);
}

/// Byte `k` of a word, lowest byte first.
pub open spec fn byte_of(w: u32, k: int) -> u8 {
    if k == 0 {
        (w & 0xff) as u8
    } else if k == 1 {
        ((w >> 8u32) & 0xff) as u8
    } else if k == 2 {
        ((w >> 16u32) & 0xff) as u8
    } else {
        ((w >> 24u32) & 0xff) as u8
    }
}

/// Coding block `i` of `m`, `len` bytes long, for the data blocks.
pub open spec fn encoded(data: Seq<Seq<u8>>, m: nat, i: int, len: nat) -> Seq<u8> {
    Seq::new(len, |b: int| byte_of(parity(column(data, b / 4), m, i), b % 4))
}

/// The words of a coding block are its definition.
pub proof fn lemma_encoded(block: Seq<u8>, data: Seq<Seq<u8>>, m: nat, i: int)
    requires
        block.len() % 4 == 0,
    ensures
        is_coding_block(block, data, m, i) <==> block == encoded(data, m, i, block.len()),
{
    let e: Seq<u8> = encoded(data, m, i, block.len());
    assert forall|t: int| 0 <= t < block.len() as int / 4 implies #[trigger] word(e, t) == parity(
        column(data, t),
        m,
        i,
    ) by {
        let w: u32 = parity(column(data, t), m, i);
        assert((4 * t) / 4 == t && (4 * t + 1) / 4 == t && (4 * t + 2) / 4 == t && (4 * t + 3) / 4
            == t);
        assert((4 * t) % 4 == 0 && (4 * t + 1) % 4 == 1 && (4 * t + 2) % 4 == 2 && (4 * t + 3) % 4
            == 3);
        lemma_word_bytes(w);
    }
    if is_coding_block(block, data, m, i) {
        lemma_words_determine_block(block, e);
    }
}

/// Returns word `t` of a block.
pub(crate) fn read_word(block: &[u8], t: usize) -> (w: u32)
    requires
        4 * t + 4 <= block@.len(),
    ensures
        w == word(block@, t as int),
{
    assert(block.len() == block@.len());
    (block[4 * t] as u32) | (block[4 * t + 1] as u32) << 8u32 | (block[4 * t + 2] as u32) << 16u32
        | (block[4 * t + 3] as u32) << 24u32
}

/// Overwrites word `t` of a block.
pub(crate) fn write_word(block: &mut [u8], t: usize, w: u32)
    requires
        4 * t + 4 <= old(block)@.len(),
    ensures
        final(block)@.len() == old(block)@.len(),
        word(final(block)@, t as int) == w,
        forall|s: int|
            0 <= s < old(block)@.len() as int / 4 && s != t ==> #[trigger] word(final(block)@, s)
                == word(old(block)@, s),
{
    proof {
        lemma_word_bytes(w);
    }
    block[4 * t] = (w & 0xff) as u8;
    block[4 * t + 1] = ((w >> 8u32) & 0xff) as u8;
    block[4 * t + 2] = ((w >> 16u32) & 0xff) as u8;
    block[4 * t + 3] = ((w >> 24u32) & 0xff) as u8;
}

pub(crate) proof fn lemma_matrix_index(i: int, j: int, m: int, k: int)
    by (nonlinear_arith)
    requires
        0 <= i < m,
        0 <= j < k,
    ensures
        0 <= i * k + j < m * k,
{
}

/// The points of a coding block and of a data block differ.
pub(crate) proof fn lemma_points_differ(m: nat, i: int, j: int)
    requires
        0 <= i < m,
        0 <= j,
        m + j <= i32::MAX,
    ensures
        (i as u32) ^ ((m + j) as u32) != 0,
{
    lemma_xor_laws(i as u32, (m + j) as u32, 0);
}

/// The value of a word in terms of its bytes.
pub proof fn lemma_word_value(block: Seq<u8>, t: int)
    ensures
        word(block, t) == block[4 * t] + 0x100 * block[4 * t + 1] + 0x1_0000 * block[4 * t + 2]
            + 0x100_0000 * block[4 * t + 3],
{
    let (a, b, c, d): (u8, u8, u8, u8) = (
        block[4 * t],
        block[4 * t + 1],
        block[4 * t + 2],
        block[4 * t + 3],
    );
    assert(a as u32 | (b as u32) << 8u32 | (c as u32) << 16u32 | (d as u32) << 24u32 == a + 0x100
        * b + 0x1_0000 * c + 0x100_0000 * d) by (bit_vector);
}

/// The coefficients are the reciprocals of the sums of the points of coding and data block.
pub proof fn lemma_coefficient(m: nat, i: int, j: int)
    requires
        0 <= i < m,
        0 <= j,
        m + j <= i32::MAX,
    ensures
        gf_mul(coefficient(m, i, j), (i as u32) ^ ((m + j) as u32)) == 1,
{
    lemma_points_differ(m, i, j);
    lemma_div(1, (i as u32) ^ ((m + j) as u32));
}

proof fn lemma_parity_of_single(col: Seq<u32>, m: nat, i: int, j: int)
    requires
        0 <= j,
        forall|l: int| 0 <= l < col.len() && l != j ==> #[trigger] col[l] == 0,
    ensures
        j < col.len() ==> parity(col, m, i) == gf_mul(coefficient(m, i, j), col[j]),
        j >= col.len() ==> parity(col, m, i) == 0,
    decreases col.len(),
{
    lemma_xor_laws(0, 0, 0);
    if col.len() > 0 {
        let last: int = col.len() - 1;
        let front: Seq<u32> = col.drop_last();
        assert forall|l: int| 0 <= l < front.len() && l != j implies #[trigger] front[l] == 0 by {
            assert(front[l] == col[l]);
        }
        lemma_parity_of_single(front, m, i, j);
        let c: u32 = coefficient(m, i, last);
        lemma_mul_units(c);
        lemma_xor_laws(gf_mul(c, col[last]), 0, 0);
        lemma_xor_laws(parity(front, m, i), 0, 0);
    }
}

proof fn lemma_zero_word(block: Seq<u8>, t: int)
    requires
        0 <= t < block.len() as int / 4,
        forall|b: int| 0 <= b < block.len() ==> #[trigger] block[b] == 0,
    ensures
        word(block, t) == 0,
{
    lemma_word_value(block, t);
}

/// Where all data blocks but one are zero, the words of a coding block are those of that data
/// block, divided by the sum of the points. With additivity, this determines the coding.
pub proof fn lemma_code_of_single_block(
    block: Seq<u8>,
    data: Seq<Seq<u8>>,
    m: nat,
    i: int,
    j: int,
    t: int,
)
    requires
        0 <= i < m,
        0 <= j < data.len(),
        m + data.len() <= i32::MAX + 1,
        all_of_len(data, block.len()),
        forall|l: int, b: int|
            0 <= l < data.len() && l != j && 0 <= b < block.len() ==> #[trigger] data[l][b] == 0,
        is_coding_block(block, data, m, i),
        0 <= t < block.len() as int / 4,
    ensures
        gf_mul(word(block, t), (i as u32) ^ ((m + j) as u32)) == word(data[j], t),
{
    let col: Seq<u32> = column(data, t);
    assert forall|l: int| 0 <= l < col.len() && l != j implies #[trigger] col[l] == 0 by {
        assert(data[l].len() == block.len());
        lemma_zero_word(data[l], t);
    }
    lemma_parity_of_single(col, m, i, j);
    assert(word(block, t) == parity(col, m, i));
    let c: u32 = coefficient(m, i, j);
    let s: u32 = (i as u32) ^ ((m + j) as u32);
    lemma_coefficient(m, i, j);
    lemma_mul_commutes(c, col[j]);
    lemma_mul_associates(col[j], c, s);
    lemma_mul_units(col[j]);
}

proof fn lemma_parity_adds(x: Seq<u32>, y: Seq<u32>, z: Seq<u32>, m: nat, i: int)
    requires
        x.len() == z.len(),
        y.len() == z.len(),
        forall|l: int| 0 <= l < z.len() ==> #[trigger] z[l] == x[l] ^ y[l],
    ensures
        parity(z, m, i) == parity(x, m, i) ^ parity(y, m, i),
    decreases z.len(),
{
    lemma_xor_laws(0, 0, 0);
    if z.len() > 0 {
        let last: int = z.len() - 1;
        lemma_parity_adds(x.drop_last(), y.drop_last(), z.drop_last(), m, i);
        let c: u32 = coefficient(m, i, last);
        lemma_mul_distributes(c, x[last], y[last]);
        let (p, q): (u32, u32) = (parity(x.drop_last(), m, i), parity(y.drop_last(), m, i));
        let (u, v): (u32, u32) = (gf_mul(c, x[last]), gf_mul(c, y[last]));
        assert((p ^ q) ^ (u ^ v) == (p ^ u) ^ (q ^ v)) by (bit_vector);
    }
}

proof fn lemma_word_adds(a: Seq<u8>, b: Seq<u8>, c: Seq<u8>, t: int)
    requires
        a.len() == c.len(),
        b.len() == c.len(),
        forall|p: int| 0 <= p < c.len() ==> #[trigger] c[p] == a[p] ^ b[p],
        0 <= t < c.len() as int / 4,
    ensures
        word(c, t) == word(a, t) ^ word(b, t),
{
    let (a0, a1, a2, a3): (u8, u8, u8, u8) = (a[4 * t], a[4 * t + 1], a[4 * t + 2], a[4 * t + 3]);
    let (b0, b1, b2, b3): (u8, u8, u8, u8) = (b[4 * t], b[4 * t + 1], b[4 * t + 2], b[4 * t + 3]);
    assert(c[4 * t] == a0 ^ b0 && c[4 * t + 1] == a1 ^ b1);
    assert(c[4 * t + 2] == a2 ^ b2 && c[4 * t + 3] == a3 ^ b3);
    assert((a0 ^ b0) as u32 | ((a1 ^ b1) as u32) << 8u32 | ((a2 ^ b2) as u32) << 16u32 | ((a3
        ^ b3) as u32) << 24u32 == (a0 as u32 | (a1 as u32) << 8u32 | (a2 as u32) << 16u32 | (
    a3 as u32) << 24u32) ^ (b0 as u32 | (b1 as u32) << 8u32 | (b2 as u32) << 16u32 | (b3 as u32)
        << 24u32)) by (bit_vector);
}

/// Coding is additive: the coding block of a sum of data blocks is the sum of the coding
/// blocks, byte for byte.
pub proof fn lemma_coding_adds(
    data1: Seq<Seq<u8>>,
    block1: Seq<u8>,
    data2: Seq<Seq<u8>>,
    block2: Seq<u8>,
    sum: Seq<Seq<u8>>,
    block: Seq<u8>,
    m: nat,
    i: int,
)
    requires
        data1.len() == sum.len(),
        data2.len() == sum.len(),
        block1.len() == block.len(),
        block2.len() == block.len(),
        all_of_len(data1, block.len()),
        all_of_len(data2, block.len()),
        all_of_len(sum, block.len()),
        forall|j: int, b: int|
            0 <= j < sum.len() && 0 <= b < block.len() ==> #[trigger] sum[j][b] == data1[j][b]
                ^ data2[j][b],
        forall|b: int| 0 <= b < block.len() ==> #[trigger] block[b] == block1[b] ^ block2[b],
        is_coding_block(block1, data1, m, i),
        is_coding_block(block2, data2, m, i),
    ensures
        is_coding_block(block, sum, m, i),
{
    assert forall|t: int| 0 <= t < block.len() as int / 4 implies #[trigger] word(block, t)
        == parity(column(sum, t), m, i) by {
        let (x, y, z): (Seq<u32>, Seq<u32>, Seq<u32>) = (
            column(data1, t),
            column(data2, t),
            column(sum, t),
        );
        assert forall|l: int| 0 <= l < z.len() implies #[trigger] z[l] == x[l] ^ y[l] by {
            assert(sum[l].len() == block.len() && data1[l].len() == block.len());
            assert(data2[l].len() == block.len());
            lemma_word_adds(data1[l], data2[l], sum[l], t);
        }
        lemma_parity_adds(x, y, z, m, i);
        lemma_word_adds(block1, block2, block, t);
        assert(word(block1, t) == parity(x, m, i));
        assert(word(block2, t) == parity(y, m, i));
    }
}

/// The data blocks determine their coding blocks.
pub proof fn lemma_coding_block_unique(a: Seq<u8>, b: Seq<u8>, data: Seq<Seq<u8>>, m: nat, i: int)
    requires
        a.len() == b.len(),
        a.len() % 4 == 0,
        is_coding_block(a, data, m, i),
        is_coding_block(b, data, m, i),
    ensures
        a == b,
{
    assert forall|t: int| 0 <= t < a.len() as int / 4 implies #[trigger] word(a, t) == word(b, t) by {
        assert(word(b, t) == parity(column(data, t), m, i));
    }
    lemma_words_determine_block(a, b);
}

/// In a code word each block is the coding block of its number.
pub proof fn lemma_codeword_blocks(data: Seq<Seq<u8>>, coding: Seq<Seq<u8>>)
    ensures
        is_codeword(data, coding) <==> forall|i: int|
            0 <= i < coding.len() ==> is_coding_block(
                #[trigger] coding[i],
                data,
                coding.len(),
                i,
            ),
{
}

/// Blocks are equal-sized if and only if any two of them have the same length.
pub proof fn lemma_equal_sized(data: Seq<Seq<u8>>, coding: Seq<Seq<u8>>)
    requires
        data.len() > 0,
    ensures
        equal_sized(data, coding) <==> {
            &&& forall|j: int, l: int|
                0 <= j < data.len() && 0 <= l < data.len() ==> (#[trigger] data[j]).len() == (
                #[trigger] data[l]).len()
            &&& forall|i: int, j: int|
                0 <= i < coding.len() && 0 <= j < data.len() ==> (#[trigger] coding[i]).len() == (
                #[trigger] data[j]).len()
        },
{
    if equal_sized(data, coding) {
        assert forall|j: int, l: int| 0 <= j < data.len() && 0 <= l < data.len() implies (
        #[trigger] data[j]).len() == (#[trigger] data[l]).len() by {}
    } else {
        assert(data[0].len() == data[0].len());
    }
}

/// The matrix is in range where the sum and the product of the numbers of blocks are.
pub proof fn lemma_in_matrix_range(m: nat, k: nat)
    ensures
        in_matrix_range(m, k) <==> m + k <= 0x8000_0000 && m * k < 0x8000_0000,
{
}

/// The contents of slices are what the slices hold, in their order.
pub proof fn lemma_contents(blocks: Seq<&[u8]>, mut_blocks: Seq<&mut [u8]>)
    ensures
        contents(blocks).len() == blocks.len(),
        forall|j: int| 0 <= j < blocks.len() ==> #[trigger] contents(blocks)[j] == blocks[j]@,
        mut_contents(mut_blocks).len() == mut_blocks.len(),
        forall|j: int|
            0 <= j < mut_blocks.len() ==> #[trigger] mut_contents(mut_blocks)[j]
                == mut_blocks[j]@,
{
}

/// The product of row `i` of the matrix, restricted to the columns `cols`, and the vector `d`.
pub open spec fn matrix_row(m: nat, i: int, cols: Seq<int>, d: Seq<u32>) -> u32
    decreases cols.len(),
{
    if cols.len() == 0 {
        0
    } else {
        matrix_row(m, i, cols.drop_last(), d.drop_last()) ^ gf_mul(
            coefficient(m, i, cols.last()),
            d.last(),
        )
    }
}

/// The product of the submatrix with the given rows and columns and the vector `d` is `rhs`.
pub open spec fn submatrix_maps(
    m: nat,
    rows: Seq<int>,
    cols: Seq<int>,
    d: Seq<u32>,
    rhs: Seq<u32>,
) -> bool {
    &&& d.len() == cols.len()
    &&& forall|p: int|
        0 <= p < rows.len() ==> matrix_row(m, #[trigger] rows[p], cols, d) == rhs[p]
}

/// The numbers lie below `n`, and none occurs twice.
pub open spec fn distinct_below(numbers: Seq<int>, n: nat) -> bool {
    &&& forall|p: int| 0 <= p < numbers.len() ==> 0 <= #[trigger] numbers[p] < n
    &&& forall|p: int, q: int| 0 <= p < q < numbers.len() ==> numbers[p] != numbers[q]
}

/// The points of columns.
spec fn column_points(m: nat, cols: Seq<int>) -> Seq<u32> {
    Seq::new(cols.len(), |q: int| (m + cols[q]) as u32)
}

proof fn lemma_matrix_row(m: nat, i: int, cols: Seq<int>, d: Seq<u32>)
    requires
        0 <= i < m,
        d.len() == cols.len(),
        forall|q: int| 0 <= q < cols.len() ==> 0 <= #[trigger] cols[q] && m + cols[q] <= i32::MAX,
    ensures
        matrix_row(m, i, cols, d) == cauchy_row(i as u32, column_points(m, cols), d),
    decreases cols.len(),
{
    if cols.len() > 0 {
        let j: int = cols[cols.len() - 1];
        lemma_matrix_row(m, i, cols.drop_last(), d.drop_last());
        assert(column_points(m, cols).drop_last() =~= column_points(m, cols.drop_last()));
        lemma_points_differ(m, i, j);
        lemma_reciprocal(d.last(), (i as u32) ^ ((m + j) as u32));
    }
}

/// Every square submatrix of the matrix is invertible: whichever rows and as many columns are
/// taken, each right-hand side `rhs` comes from one vector, which is returned, and from no
/// other.
pub proof fn lemma_submatrix_invertible(
    m: nat,
    k: nat,
    rows: Seq<int>,
    cols: Seq<int>,
    rhs: Seq<u32>,
) -> (d: Seq<u32>)
    requires
        in_matrix_range(m, k),
        distinct_below(rows, m),
        distinct_below(cols, k),
        rows.len() == cols.len(),
        rhs.len() == rows.len(),
    ensures
        submatrix_maps(m, rows, cols, d, rhs),
        forall|e: Seq<u32>| #[trigger] submatrix_maps(m, rows, cols, e, rhs) ==> e == d,
{
    let xs: Seq<u32> = Seq::new(rows.len(), |p: int| rows[p] as u32);
    let ys: Seq<u32> = column_points(m, cols);
    assert(distinct_points(xs, ys)) by {
        assert forall|p: int, q: int| 0 <= p < q < xs.len() implies xs[p] != xs[q] by {
            assert(0 <= rows[p] < m && 0 <= rows[q] < m);
        }
        assert forall|p: int, q: int| 0 <= p < q < ys.len() implies ys[p] != ys[q] by {
            assert(0 <= cols[p] < k && 0 <= cols[q] < k);
        }
        assert forall|p: int, q: int| 0 <= p < xs.len() && 0 <= q < ys.len() implies xs[p]
            != ys[q] by {
            assert(0 <= rows[p] < m && 0 <= cols[q] < k);
        }
    }
    let d: Seq<u32> = lemma_solution_exists(xs, ys, rhs);
    assert forall|p: int| 0 <= p < rows.len() implies matrix_row(m, #[trigger] rows[p], cols, d)
        == rhs[p] by {
        lemma_matrix_row(m, rows[p], cols, d);
        assert(cauchy_row(xs[p], ys, d) == rhs[p]);
    }
    assert forall|e: Seq<u32>| #[trigger] submatrix_maps(m, rows, cols, e, rhs) implies e == d by {
        assert forall|p: int| 0 <= p < xs.len() implies cauchy_row(#[trigger] xs[p], ys, e)
            == cauchy_row(xs[p], ys, d) by {
            assert(matrix_row(m, rows[p], cols, e) == rhs[p]);
            lemma_matrix_row(m, rows[p], cols, e);
        }
        lemma_solution_unique(xs, ys, e, d);
    }
    d
}

/// Returns the matrix of coefficients, row by row.
pub fn get_matrix(m: usize, k: usize) -> (matrix: Vec<u32>)
    requires
        in_matrix_range(m as nat, k as nat),
    ensures
        matrix.len() == m * k,
        forall|i: int, j: int|
            0 <= i < m && 0 <= j < k ==> #[trigger] matrix@[i * k + j] == coefficient(
                m as nat,
                i,
                j,
            ),
{
    let mut matrix: Vec<u32> = Vec::with_capacity(m * k);
    let mut i: usize = 0;
    while i < m
        invariant
            i <= m,
            in_matrix_range(m as nat, k as nat),
            matrix.len() == i * k,
            forall|a: int, b: int|
                0 <= a < i && 0 <= b < k ==> #[trigger] matrix@[a * k + b] == coefficient(
                    m as nat,
                    a,
                    b,
                ),
        decreases m - i,
    {
        let mut j: usize = 0;
        while j < k
            invariant
                i < m,
                j <= k,
                in_matrix_range(m as nat, k as nat),
                matrix.len() == i * k + j,
                forall|a: int, b: int|
                    0 <= a < i && 0 <= b < k ==> #[trigger] matrix@[a * k + b] == coefficient(
                        m as nat,
                        a,
                        b,
                    ),
                forall|b: int|
                    0 <= b < j ==> #[trigger] matrix@[i * k + b] == coefficient(
                        m as nat,
                        i as int,
                        b,
                    ),
            decreases k - j,
        {
            proof {
                lemma_points_differ(m as nat, i as int, j as int);
                assert forall|a: int, b: int| 0 <= a < i && 0 <= b < k implies #[trigger] (a * k + b)
                    < i * k by {
                    lemma_matrix_index(a, b, i as int, k as int);
                }
            }
            matrix.push(divide(1, (i as u32) ^ ((m + j) as u32)));
            j = j + 1;
        }
        proof {
            assert forall|a: int, b: int| 0 <= a < i + 1 && 0 <= b < k implies #[trigger] matrix@[a * k
                + b] == coefficient(m as nat, a, b) by {
                if a == i {
                    assert(matrix@[i * k + b] == coefficient(m as nat, i as int, b));
                }
            }
            lemma_next_row(i as int, k as int);
        }
        i = i + 1;
    }
    matrix
}

proof fn lemma_next_row(i: int, k: int)
    by (nonlinear_arith)
    ensures
        (i + 1) * k == i * k + k,
{
}

/// Returns word `t` of coding block `i`, from row `i` of the matrix.
pub(crate) fn parity_word(matrix: &Vec<u32>, m: usize, i: usize, data: &[&[u8]], t: usize) -> (w: u32)
    requires
        i < m,
        matrix.len() == m * data@.len(),
        forall|a: int, b: int|
            0 <= a < m && 0 <= b < data@.len() ==> #[trigger] matrix@[a * data@.len() + b]
                == coefficient(m as nat, a, b),
        forall|j: int| 0 <= j < data@.len() ==> 4 * t + 4 <= #[trigger] data@[j]@.len(),
    ensures
        w == parity(column(contents(data@), t as int), m as nat, i as int),
{
    let k: usize = data.len();
    let ghost col: Seq<u32> = column(contents(data@), t as int);
    let mut w: u32 = 0;
    let mut j: usize = 0;
    while j < k
        invariant
            i < m,
            j <= k,
            k == data@.len(),
            matrix.len() == m * k,
            forall|a: int, b: int|
                0 <= a < m && 0 <= b < k ==> #[trigger] matrix@[a * k + b] == coefficient(
                    m as nat,
                    a,
                    b,
                ),
            forall|l: int| 0 <= l < k ==> 4 * t + 4 <= #[trigger] data@[l]@.len(),
            col == column(contents(data@), t as int),
            w == parity(col.take(j as int), m as nat, i as int),
        decreases k - j,
    {
        proof {
            lemma_matrix_index(i as int, j as int, m as int, k as int);
            assert(col.take(j + 1).drop_last() =~= col.take(j as int));
            assert(matrix@[i as int * k as int + j as int] == coefficient(m as nat, i as int, j as int));
        }
        w = w ^ multiply(matrix[i * k + j], read_word(data[j], t));
        j = j + 1;
    }
    assert(col.take(k as int) =~= col);
    w
}

/// Generates the coding blocks for the data blocks.
///
/// The size of the blocks has to be a multiple of `JERASURE_ALIGN`.
pub fn generate_coding_blocks(coding: &mut [&mut [u8]], data: &[&[u8]]) -> (result: Result<
    (),
    ErasureError,
>)
    requires
        data@.len() > 0 ==> in_matrix_range(old(coding)@.len(), data@.len()),
        data@.len() > 0 && equal_sized(contents(data@), mut_contents(old(coding)@)) ==> data@[0]@.len()
            % JERASURE_ALIGN as nat == 0,
    ensures
        final(coding)@.len() == old(coding)@.len(),
        forall|i: int|
            0 <= i < old(coding)@.len() ==> final(#[trigger] final(coding)@[i])@
                == final(old(coding)@[i])@,
        result is Ok <==> data@.len() == 0 || equal_sized(
            contents(data@),
            mut_contents(old(coding)@),
        ),
        result matches Err(e) ==> e == ErasureError::InvalidBlockSize,
        result is Ok && data@.len() > 0 ==> {
            &&& equal_sized(contents(data@), mut_contents(final(coding)@))
            &&& is_codeword(contents(data@), mut_contents(final(coding)@))
        },
        result is Err || data@.len() == 0 ==> mut_contents(final(coding)@) == mut_contents(
            old(coding)@,
        ),
{
    if data.len() == 0 {
        return Ok(());
    }
    let k: usize = data.len();
    let m: usize = coding.len();
    let block_len: usize = data[0].len();
    let matrix: Vec<u32> = get_matrix(m, k);
    let mut j: usize = 0;
    while j < k
        invariant
            j <= k,
            k == data@.len(),
            k > 0,
            block_len == data@[0]@.len(),
            coding@ == old(coding)@,
            forall|l: int| 0 <= l < j ==> #[trigger] data@[l]@.len() == block_len,
        decreases k - j,
    {
        if data[j].len() != block_len {
            assert(contents(data@)[j as int].len() != block_len);
            return Err(ErasureError::InvalidBlockSize);
        }
        j = j + 1;
    }
    let mut i: usize = 0;
    while i < m
        invariant
            i <= m,
            m == coding@.len(),
            k > 0,
            k == data@.len(),
            block_len == data@[0]@.len(),
            coding@ == old(coding)@,
            forall|l: int| 0 <= l < i ==> #[trigger] coding@[l]@.len() == block_len,
        decreases m - i,
    {
        if coding[i].len() != block_len {
            assert(mut_contents(old(coding)@)[i as int].len() != block_len);
            return Err(ErasureError::InvalidBlockSize);
        }
        i = i + 1;
    }
    proof {
        assert(equal_sized(contents(data@), mut_contents(old(coding)@)));
    }
    i = 0;
    while i < m
        invariant
            i <= m,
            m == coding@.len(),
            k == data@.len(),
            matrix.len() == m * k,
            forall|a: int, b: int|
                0 <= a < m && 0 <= b < k ==> #[trigger] matrix@[a * k + b] == coefficient(
                    m as nat,
                    a,
                    b,
                ),
            block_len % 4 == 0,
            coding@.len() == old(coding)@.len(),
            forall|l: int|
                0 <= l < m ==> final(#[trigger] coding@[l])@ == final(old(coding)@[l])@,
            forall|l: int| 0 <= l < k ==> #[trigger] data@[l]@.len() == block_len,
            forall|l: int| 0 <= l < m ==> #[trigger] coding@[l]@.len() == block_len,
            forall|l: int|
                0 <= l < i ==> is_coding_block(
                    #[trigger] coding@[l]@,
                    contents(data@),
                    m as nat,
                    l,
                ),
        decreases m - i,
    {
        let words: usize = block_len / 4;
        let mut t: usize = 0;
        while t < words
            invariant
                i < m,
                t <= words,
                words == block_len / 4,
                m == coding@.len(),
                k == data@.len(),
                matrix.len() == m * k,
                forall|a: int, b: int|
                    0 <= a < m && 0 <= b < k ==> #[trigger] matrix@[a * k + b] == coefficient(
                        m as nat,
                        a,
                        b,
                    ),
                block_len % 4 == 0,
                coding@.len() == old(coding)@.len(),
                forall|l: int|
                    0 <= l < m ==> final(#[trigger] coding@[l])@ == final(old(coding)@[l])@,
                forall|l: int| 0 <= l < k ==> #[trigger] data@[l]@.len() == block_len,
                forall|l: int| 0 <= l < m ==> #[trigger] coding@[l]@.len() == block_len,
                forall|l: int|
                    0 <= l < i ==> is_coding_block(
                        #[trigger] coding@[l]@,
                        contents(data@),
                        m as nat,
                        l,
                    ),
                forall|s: int|
                    0 <= s < t ==> #[trigger] word(coding@[i as int]@, s) == parity(
                        column(contents(data@), s),
                        m as nat,
                        i as int,
                    ),
            decreases words - t,
        {
            let w: u32 = parity_word(&matrix, m, i, data, t);
            write_word(coding[i], t, w);
            t = t + 1;
        }
        i = i + 1;
    }
    Ok(())
}

} // verus!
