//! Restoring lost blocks of an erasure set.
use vstd::prelude::*;

use vstd::slice::slice_to_vec;

use crate::blocks::{
    all_of_len, coefficient, column, contents, equal_sized, get_matrix, in_matrix_range,
    is_codeword, is_coding_block, lemma_matrix_index, lemma_points_differ,
    lemma_words_determine_block, mut_contents, parity, parity_word, read_word, word, write_word,
    JERASURE_ALIGN,
};
use crate::cauchy::{
    cauchy_row, distinct_points, lemma_reciprocal, lemma_row_linear, lemma_row_of_zeros,
    lemma_solution_unique, solve, solves,
};
use crate::error::ErasureError;
use crate::galois::{gf_mul, lemma_mul_units, lemma_xor_laws, multiply};
use crate::positions::{
    find_positions, inverted, lemma_positions, lemma_positions_count, lemma_positions_inverted,
    positions, set_below,
};

verus! {

/// The contents of owned blocks.
pub open spec fn owned_contents(blocks: Seq<Vec<u8>>) -> Seq<Seq<u8>> {
    Seq::new(blocks.len(), |j: int| blocks[j]@)
}

/// The coding rows that take part in restoring data: as many as data blocks are lost, the
/// first of those that are not lost themselves.
pub open spec fn used_rows(data_lost: Seq<bool>, coding_lost: Seq<bool>) -> Seq<int> {
    positions(inverted(coding_lost)).take(positions(data_lost).len() as int)
}

/// The blocks `new_data` and `new_coding` are the erasure set of `data` and `coding` with
/// its lost blocks restored.
///
/// What is not lost stays as it was. The used coding blocks and the restored coding blocks
/// are coding blocks of the restored data.
pub open spec fn restored(
    data: Seq<Seq<u8>>,
    coding: Seq<Seq<u8>>,
    data_lost: Seq<bool>,
    coding_lost: Seq<bool>,
    new_data: Seq<Seq<u8>>,
    new_coding: Seq<Seq<u8>>,
) -> bool {
    let used: Seq<int> = used_rows(data_lost, coding_lost);
    &&& new_data.len() == data.len()
    &&& new_coding.len() == coding.len()
    &&& forall|j: int| 0 <= j < data.len() ==> #[trigger] new_data[j].len() == data[j].len()
    &&& forall|i: int| 0 <= i < coding.len() ==> #[trigger] new_coding[i].len() == coding[i].len()
    &&& forall|j: int| 0 <= j < data.len() && !data_lost[j] ==> #[trigger] new_data[j] == data[j]
    &&& forall|i: int|
        0 <= i < coding.len() && !coding_lost[i] ==> #[trigger] new_coding[i] == coding[i]
    &&& forall|i: int|
        0 <= i < coding.len() && coding_lost[i] ==> is_coding_block(
            #[trigger] new_coding[i],
            new_data,
            coding.len(),
            i,
        )
    &&& forall|p: int|
        0 <= p < used.len() ==> is_coding_block(
            new_coding[#[trigger] used[p]],
            new_data,
            coding.len(),
            used[p],
        )
}

/// The part of a coding word that the data blocks at hand contribute.
spec fn known_parity(col: Seq<u32>, lost: Seq<bool>, m: nat, i: int) -> u32
    decreases col.len(),
{
    if col.len() == 0 {
        0
    } else {
        known_parity(col.drop_last(), lost.drop_last(), m, i) ^ (if lost.last() {
            0
        } else {
            gf_mul(coefficient(m, i, col.len() - 1), col.last())
        })
    }
}

/// The points of the lost data blocks.
spec fn lost_points(lost: Seq<bool>, m: nat) -> Seq<u32> {
    Seq::new(positions(lost).len(), |a: int| (m + positions(lost)[a]) as u32)
}

/// The words of the lost data blocks.
spec fn lost_words(col: Seq<u32>, lost: Seq<bool>) -> Seq<u32> {
    Seq::new(positions(lost).len(), |a: int| col[positions(lost)[a]])
}

/// The points of coding rows.
spec fn row_points(rows: Seq<int>) -> Seq<u32> {
    Seq::new(rows.len(), |p: int| rows[p] as u32)
}

/// A coding word is the sum of what the data blocks at hand contribute and of a row of the
/// Cauchy system of the lost ones.
proof fn lemma_split_parity(col: Seq<u32>, lost: Seq<bool>, m: nat, i: int)
    requires
        col.len() == lost.len(),
        0 <= i < m,
        m + col.len() <= i32::MAX + 1,
    ensures
        parity(col, m, i) == known_parity(col, lost, m, i) ^ cauchy_row(
            i as u32,
            lost_points(lost, m),
            lost_words(col, lost),
        ),
    decreases col.len(),
{
    lemma_xor_laws(0, 0, 0);
    if col.len() > 0 {
        let (c1, l1): (Seq<u32>, Seq<bool>) = (col.drop_last(), lost.drop_last());
        lemma_split_parity(c1, l1, m, i);
        lemma_positions(l1);
        let known: u32 = known_parity(c1, l1, m, i);
        let row: u32 = cauchy_row(i as u32, lost_points(l1, m), lost_words(c1, l1));
        let term: u32 = gf_mul(coefficient(m, i, col.len() - 1), col.last());
        if lost.last() {
            let n: int = positions(l1).len() as int;
            assert(positions(lost)[n] == col.len() - 1);
            assert(lost_points(lost, m).drop_last() =~= lost_points(l1, m));
            assert(lost_words(col, lost).drop_last() =~= lost_words(c1, l1));
            lemma_points_differ(m, i, col.len() - 1);
            lemma_reciprocal(col.last(), (i as u32) ^ ((m + (col.len() - 1)) as u32));
            assert((known ^ row) ^ term == (known ^ 0) ^ (row ^ term)) by (bit_vector);
        } else {
            assert(lost_points(lost, m) =~= lost_points(l1, m));
            assert(lost_words(col, lost) =~= lost_words(c1, l1));
            assert((known ^ row) ^ term == (known ^ term) ^ row) by (bit_vector);
        }
    }
}

proof fn lemma_known_same(a: Seq<u32>, b: Seq<u32>, lost: Seq<bool>, m: nat, i: int)
    requires
        a.len() == lost.len(),
        b.len() == lost.len(),
        forall|j: int| 0 <= j < lost.len() && !lost[j] ==> #[trigger] a[j] == b[j],
    ensures
        known_parity(a, lost, m, i) == known_parity(b, lost, m, i),
    decreases lost.len(),
{
    if lost.len() > 0 {
        assert forall|j: int| 0 <= j < lost.len() - 1 && !lost.drop_last()[j] implies
            #[trigger] a.drop_last()[j] == b.drop_last()[j] by {
            assert(a[j] == b[j]);
        }
        lemma_known_same(a.drop_last(), b.drop_last(), lost.drop_last(), m, i);
        if !lost.last() {
            assert(a[lost.len() - 1] == b[lost.len() - 1]);
        }
    }
}

/// The points of the used rows and of the lost data blocks are distinct.
proof fn lemma_points_distinct(data_lost: Seq<bool>, coding_lost: Seq<bool>)
    requires
        coding_lost.len() + data_lost.len() <= i32::MAX + 1,
        positions(data_lost).len() + positions(coding_lost).len() <= coding_lost.len(),
    ensures
        used_rows(data_lost, coding_lost).len() == positions(data_lost).len(),
        forall|p: int|
            0 <= p < used_rows(data_lost, coding_lost).len() ==> 0 <= #[trigger] used_rows(
                data_lost,
                coding_lost,
            )[p] < coding_lost.len() && !coding_lost[used_rows(data_lost, coding_lost)[p]],
        distinct_points(
            row_points(used_rows(data_lost, coding_lost)),
            lost_points(data_lost, coding_lost.len()),
        ),
{
    lemma_positions(data_lost);
    lemma_positions(inverted(coding_lost));
    lemma_positions_inverted(coding_lost);
    let survivors: Seq<int> = positions(inverted(coding_lost));
    let used: Seq<int> = used_rows(data_lost, coding_lost);
    assert forall|p: int| 0 <= p < used.len() implies 0 <= #[trigger] used[p] < coding_lost.len()
        && !coding_lost[used[p]] by {
        assert(used[p] == survivors[p]);
        assert(inverted(coding_lost)[survivors[p]]);
    }
    let xs: Seq<u32> = row_points(used);
    let ys: Seq<u32> = lost_points(data_lost, coding_lost.len());
    assert forall|p: int, q: int| 0 <= p < q < xs.len() implies xs[p] != xs[q] by {
        assert(used[p] == survivors[p] && used[q] == survivors[q]);
    }
    assert forall|p: int, q: int| 0 <= p < q < ys.len() implies ys[p] != ys[q] by {
        assert(positions(data_lost)[p] < positions(data_lost)[q]);
    }
    assert forall|p: int, q: int| 0 <= p < xs.len() && 0 <= q < ys.len() implies xs[p] != ys[q] by {
        assert(0 <= used[p] < coding_lost.len());
        assert(0 <= positions(data_lost)[q]);
    }
}

/// An erasure set is restored in one way only.
pub proof fn lemma_restored_unique(
    data: Seq<Seq<u8>>,
    coding: Seq<Seq<u8>>,
    data_lost: Seq<bool>,
    coding_lost: Seq<bool>,
    len: nat,
    data1: Seq<Seq<u8>>,
    coding1: Seq<Seq<u8>>,
    data2: Seq<Seq<u8>>,
    coding2: Seq<Seq<u8>>,
)
    requires
        data_lost.len() == data.len(),
        coding_lost.len() == coding.len(),
        coding.len() + data.len() <= i32::MAX + 1,
        positions(data_lost).len() + positions(coding_lost).len() <= coding.len(),
        len % 4 == 0,
        all_of_len(data, len),
        all_of_len(coding, len),
        restored(data, coding, data_lost, coding_lost, data1, coding1),
        restored(data, coding, data_lost, coding_lost, data2, coding2),
    ensures
        data1 == data2,
        coding1 == coding2,
{
    let m: nat = coding.len();
    let used: Seq<int> = used_rows(data_lost, coding_lost);
    let xs: Seq<u32> = row_points(used);
    let ys: Seq<u32> = lost_points(data_lost, m);
    lemma_points_distinct(data_lost, coding_lost);
    lemma_positions(data_lost);
    assert forall|t: int| 0 <= t < len as int / 4 implies #[trigger] column(data1, t) == column(
        data2,
        t,
    ) by {
        let (c1, c2): (Seq<u32>, Seq<u32>) = (column(data1, t), column(data2, t));
        let (d1, d2): (Seq<u32>, Seq<u32>) = (lost_words(c1, data_lost), lost_words(c2, data_lost));
        assert forall|j: int| 0 <= j < data.len() && !data_lost[j] implies #[trigger] c1[j]
            == c2[j] by {
            assert(data1[j] == data[j] && data2[j] == data[j]);
        }
        assert forall|p: int| 0 <= p < xs.len() implies cauchy_row(#[trigger] xs[p], ys, d1)
            == cauchy_row(xs[p], ys, d2) by {
            let i: int = used[p];
            assert(coding1[i] == coding[i] && coding2[i] == coding[i]);
            assert(coding[i].len() == len);
            assert(word(coding1[i], t) == parity(c1, m, i));
            assert(word(coding2[i], t) == parity(c2, m, i));
            lemma_split_parity(c1, data_lost, m, i);
            lemma_split_parity(c2, data_lost, m, i);
            lemma_known_same(c1, c2, data_lost, m, i);
            let k: u32 = known_parity(c1, data_lost, m, i);
            let (r1, r2): (u32, u32) = (cauchy_row(xs[p], ys, d1), cauchy_row(xs[p], ys, d2));
            assert(k ^ r1 == k ^ r2 ==> r1 == r2) by (bit_vector);
        }
        lemma_solution_unique(xs, ys, d1, d2);
        assert forall|j: int| 0 <= j < data.len() implies c1[j] == c2[j] by {
            if data_lost[j] {
                let a: int = choose|a: int|
                    0 <= a < positions(data_lost).len() && positions(data_lost)[a] == j;
                assert(d1[a] == c1[j]);
                assert(d2[a] == c2[j]);
            }
        }
        assert(c1 =~= c2);
    }
    assert forall|j: int| 0 <= j < data.len() implies data1[j] == data2[j] by {
        assert(data[j].len() == len);
        assert forall|t: int| 0 <= t < data1[j].len() as int / 4 implies #[trigger] word(
            data1[j],
            t,
        ) == word(data2[j], t) by {
            assert(column(data1, t)[j] == column(data2, t)[j]);
        }
        lemma_words_determine_block(data1[j], data2[j]);
    }
    assert(data1 =~= data2);
    assert forall|i: int| 0 <= i < m implies coding1[i] == coding2[i] by {
        assert(coding[i].len() == len);
        if coding_lost[i] {
            lemma_words_determine_block(coding1[i], coding2[i]);
        }
    }
    assert(coding1 =~= coding2);
}

/// Restoring undoes the loss: whatever lost blocks of an erasure set held in the meantime,
/// the set that was encoded is the restored one.
pub proof fn lemma_restored_is_encoded(
    data: Seq<Seq<u8>>,
    coding: Seq<Seq<u8>>,
    data_lost: Seq<bool>,
    coding_lost: Seq<bool>,
    len: nat,
    encoded_data: Seq<Seq<u8>>,
    encoded_coding: Seq<Seq<u8>>,
    new_data: Seq<Seq<u8>>,
    new_coding: Seq<Seq<u8>>,
)
    requires
        data_lost.len() == data.len(),
        coding_lost.len() == coding.len(),
        coding.len() + data.len() <= i32::MAX + 1,
        positions(data_lost).len() + positions(coding_lost).len() <= coding.len(),
        len % 4 == 0,
        all_of_len(data, len),
        all_of_len(coding, len),
        // the encoded set
        encoded_data.len() == data.len(),
        encoded_coding.len() == coding.len(),
        all_of_len(encoded_data, len),
        all_of_len(encoded_coding, len),
        is_codeword(encoded_data, encoded_coding),
        // what is not lost is what was encoded
        forall|j: int| 0 <= j < data.len() && !data_lost[j] ==> #[trigger] data[j] == encoded_data[j],
        forall|i: int|
            0 <= i < coding.len() && !coding_lost[i] ==> #[trigger] coding[i] == encoded_coding[i],
        restored(data, coding, data_lost, coding_lost, new_data, new_coding),
    ensures
        new_data == encoded_data,
        new_coding == encoded_coding,
{
    lemma_points_distinct(data_lost, coding_lost);
    let used: Seq<int> = used_rows(data_lost, coding_lost);
    assert(restored(data, coding, data_lost, coding_lost, encoded_data, encoded_coding)) by {
        assert forall|j: int| 0 <= j < data.len() implies #[trigger] encoded_data[j].len()
            == data[j].len() by {
            assert(data[j].len() == len);
        }
        assert forall|i: int| 0 <= i < coding.len() implies #[trigger] encoded_coding[i].len()
            == coding[i].len() by {
            assert(coding[i].len() == len);
        }
        assert forall|j: int| 0 <= j < data.len() && !data_lost[j] implies #[trigger] encoded_data[j]
            == data[j] by {
            assert(data[j] == encoded_data[j]);
        }
        assert forall|i: int| 0 <= i < coding.len() && !coding_lost[i] implies
            #[trigger] encoded_coding[i] == coding[i] by {
            assert(coding[i] == encoded_coding[i]);
        }
        assert forall|p: int| 0 <= p < used.len() implies is_coding_block(
            encoded_coding[#[trigger] used[p]],
            encoded_data,
            coding.len(),
            used[p],
        ) by {
            let i: int = used[p];
            assert(is_coding_block(encoded_coding[i], encoded_data, encoded_coding.len(), i));
        }
    }
    lemma_restored_unique(
        data,
        coding,
        data_lost,
        coding_lost,
        len,
        new_data,
        new_coding,
        encoded_data,
        encoded_coding,
    );
}

/// As many blocks of an erasure set as there are data blocks determine all the others: two
/// encoded sets that agree on all but as many blocks as there are coding blocks are the same.
pub proof fn lemma_codeword_determined(
    data1: Seq<Seq<u8>>,
    coding1: Seq<Seq<u8>>,
    data2: Seq<Seq<u8>>,
    coding2: Seq<Seq<u8>>,
    data_lost: Seq<bool>,
    coding_lost: Seq<bool>,
    len: nat,
)
    requires
        data_lost.len() == data1.len(),
        coding_lost.len() == coding1.len(),
        data2.len() == data1.len(),
        coding2.len() == coding1.len(),
        coding1.len() + data1.len() <= i32::MAX + 1,
        positions(data_lost).len() + positions(coding_lost).len() <= coding1.len(),
        len % 4 == 0,
        all_of_len(data1, len),
        all_of_len(coding1, len),
        all_of_len(data2, len),
        all_of_len(coding2, len),
        is_codeword(data1, coding1),
        is_codeword(data2, coding2),
        forall|j: int|
            0 <= j < data1.len() && !data_lost[j] ==> #[trigger] data1[j] == data2[j],
        forall|i: int|
            0 <= i < coding1.len() && !coding_lost[i] ==> #[trigger] coding1[i] == coding2[i],
    ensures
        data1 == data2,
        coding1 == coding2,
{
    lemma_points_distinct(data_lost, coding_lost);
    let used: Seq<int> = used_rows(data_lost, coding_lost);
    assert(restored(data1, coding1, data_lost, coding_lost, data1, coding1)) by {
        assert forall|p: int| 0 <= p < used.len() implies is_coding_block(
            coding1[#[trigger] used[p]],
            data1,
            coding1.len(),
            used[p],
        ) by {
            assert(is_coding_block(coding1[used[p]], data1, coding1.len(), used[p]));
        }
    }
    lemma_restored_is_encoded(
        data1,
        coding1,
        data_lost,
        coding_lost,
        len,
        data2,
        coding2,
        data1,
        coding1,
    );
}

/// Returns what the data blocks at hand contribute to word `t` of coding block `i`.
fn known_word(matrix: &Vec<u32>, m: usize, i: usize, data: &[&[u8]], lost: &Vec<bool>, t: usize) -> (w:
    u32)
    requires
        i < m,
        lost.len() == data@.len(),
        matrix.len() == m * data@.len(),
        forall|a: int, b: int|
            0 <= a < m && 0 <= b < data@.len() ==> #[trigger] matrix@[a * data@.len() + b]
                == coefficient(m as nat, a, b),
        forall|j: int| 0 <= j < data@.len() ==> 4 * t + 4 <= #[trigger] data@[j]@.len(),
    ensures
        w == known_parity(column(contents(data@), t as int), lost@, m as nat, i as int),
{
    let k: usize = data.len();
    let ghost col: Seq<u32> = column(contents(data@), t as int);
    let mut w: u32 = 0;
    let mut j: usize = 0;
    while j < k
        invariant
            i < m,
            j <= k,
            k == data@.len(),
            lost.len() == k,
            matrix.len() == m * k,
            forall|a: int, b: int|
                0 <= a < m && 0 <= b < k ==> #[trigger] matrix@[a * k + b] == coefficient(
                    m as nat,
                    a,
                    b,
                ),
            forall|l: int| 0 <= l < k ==> 4 * t + 4 <= #[trigger] data@[l]@.len(),
            col == column(contents(data@), t as int),
            w == known_parity(col.take(j as int), lost@.take(j as int), m as nat, i as int),
        decreases k - j,
    {
        proof {
            lemma_matrix_index(i as int, j as int, m as int, k as int);
            assert(col.take(j + 1).drop_last() =~= col.take(j as int));
            assert(lost@.take(j + 1).drop_last() =~= lost@.take(j as int));
            assert(matrix@[i as int * k as int + j as int] == coefficient(
                m as nat,
                i as int,
                j as int,
            ));
            lemma_xor_laws(w, 0, 0);
        }
        if !lost[j] {
            w = w ^ multiply(matrix[i * k + j], read_word(data[j], t));
        }
        j = j + 1;
    }
    assert(col.take(k as int) =~= col);
    assert(lost@.take(k as int) =~= lost@);
    w
}

/// `basis[c]` solves the system whose right-hand side is one in row `c` and zero elsewhere.
spec fn is_basis(xs: Seq<u32>, ys: Seq<u32>, basis: Seq<Vec<u32>>) -> bool {
    &&& basis.len() == xs.len()
    &&& forall|c: int| 0 <= c < basis.len() ==> #[trigger] basis[c].len() == ys.len()
    &&& forall|c: int, p: int|
        0 <= c < basis.len() && 0 <= p < xs.len() ==> #[trigger] cauchy_row(
            xs[p],
            ys,
            #[trigger] basis[c]@,
        ) == (if p == c {
            1u32
        } else {
            0u32
        })
}

/// Returns the solutions for the right-hand sides with a single one.
fn invert(xs: &Vec<u32>, ys: &Vec<u32>) -> (basis: Vec<Vec<u32>>)
    requires
        xs.len() == ys.len(),
        distinct_points(xs@, ys@),
    ensures
        is_basis(xs@, ys@, basis@),
{
    let n: usize = xs.len();
    let mut basis: Vec<Vec<u32>> = Vec::with_capacity(n);
    assert(xs@.take(n as int) =~= xs@);
    assert(ys@.take(n as int) =~= ys@);
    let mut c: usize = 0;
    while c < n
        invariant
            c <= n,
            n == xs.len(),
            n == ys.len(),
            xs@.take(n as int) == xs@,
            ys@.take(n as int) == ys@,
            distinct_points(xs@, ys@),
            basis.len() == c,
            forall|a: int| 0 <= a < c ==> #[trigger] basis@[a].len() == n,
            forall|a: int, p: int|
                0 <= a < c && 0 <= p < n ==> #[trigger] cauchy_row(
                    xs@[p],
                    ys@,
                    #[trigger] basis@[a]@,
                ) == (if p == a {
                    1u32
                } else {
                    0u32
                }),
        decreases n - c,
    {
        let mut unit: Vec<u32> = vec![0u32; n];
        unit.set(c, 1);
        let d: Vec<u32> = solve(xs, ys, &unit, n);
        proof {
            assert forall|p: int| 0 <= p < n implies cauchy_row(#[trigger] xs@[p], ys@, d@) == unit@[p] by {
                assert(xs@.take(n as int)[p] == xs@[p]);
            }
        }
        basis.push(d);
        c = c + 1;
    }
    basis
}

/// Returns the solution for the right-hand side `rhs`.
fn combine(Ghost(xs): Ghost<Seq<u32>>, Ghost(ys): Ghost<Seq<u32>>, basis: &Vec<Vec<u32>>, rhs: &Vec<u32>) -> (d:
    Vec<u32>)
    requires
        xs.len() == ys.len(),
        distinct_points(xs, ys),
        is_basis(xs, ys, basis@),
        rhs.len() == xs.len(),
    ensures
        d.len() == ys.len(),
        solves(xs, ys, d@, rhs@),
{
    let n: usize = basis.len();
    let mut d: Vec<u32> = vec![0u32; n];
    proof {
        assert forall|p: int| 0 <= p < n implies cauchy_row(#[trigger] xs[p], ys, d@) == 0 by {
            lemma_row_of_zeros(xs[p], ys, d@);
        }
    }
    let mut c: usize = 0;
    while c < n
        invariant
            c <= n,
            n == basis.len(),
            n == xs.len(),
            n == ys.len(),
            n == rhs.len(),
            n == d.len(),
            distinct_points(xs, ys),
            is_basis(xs, ys, basis@),
            forall|p: int|
                0 <= p < n ==> cauchy_row(#[trigger] xs[p], ys, d@) == (if p < c {
                    rhs@[p]
                } else {
                    0u32
                }),
        decreases n - c,
    {
        let s: u32 = rhs[c];
        let ghost before: Seq<u32> = d@;
        let mut a: usize = 0;
        while a < n
            invariant
                a <= n,
                c < n,
                n == basis.len(),
                n == d.len(),
                n == ys.len(),
                n == xs.len(),
                before.len() == n,
                is_basis(xs, ys, basis@),
                forall|b: int|
                    0 <= b < a ==> #[trigger] d@[b] == before[b] ^ gf_mul(s, basis@[c as int]@[b]),
                forall|b: int| a <= b < n ==> #[trigger] d@[b] == before[b],
            decreases n - a,
        {
            assert(basis@[c as int].len() == n);
            let term: u32 = multiply(s, basis[c][a]);
            let sum: u32 = d[a] ^ term;
            d.set(a, sum);
            a = a + 1;
        }
        proof {
            assert forall|p: int| 0 <= p < n implies cauchy_row(#[trigger] xs[p], ys, d@) == (if p < c
                + 1 {
                rhs@[p]
            } else {
                0u32
            }) by {
                assert(basis@[c as int].len() == n);
                lemma_row_linear(xs[p], ys, before, s, basis@[c as int]@, d@);
                assert(cauchy_row(xs[p], ys, basis@[c as int]@) == (if p == c {
                    1u32
                } else {
                    0u32
                }));
                lemma_mul_units(s);
                lemma_xor_laws(s, 0, 0);
                lemma_xor_laws(cauchy_row(xs[p], ys, before), 0, 0);
            }
        }
        c = c + 1;
    }
    d
}

/// Writes the words `d` as word `t` of the blocks at `lost`.
fn write_column(blocks: &mut Vec<Vec<u8>>, lost: &Vec<usize>, t: usize, d: &Vec<u32>)
    requires
        lost.len() == d.len(),
        forall|a: int| 0 <= a < lost.len() ==> #[trigger] lost@[a] < old(blocks).len(),
        forall|a: int, b: int| 0 <= a < b < lost.len() ==> lost@[a] < lost@[b],
        forall|j: int| 0 <= j < old(blocks).len() ==> 4 * t + 4 <= #[trigger] old(blocks)@[j].len(),
    ensures
        final(blocks).len() == old(blocks).len(),
        forall|j: int|
            0 <= j < old(blocks).len() ==> #[trigger] final(blocks)@[j].len() == old(
                blocks,
            )@[j].len(),
        forall|j: int|
            0 <= j < old(blocks).len() && (forall|a: int| 0 <= a < lost.len() ==> lost@[a] != j)
                ==> #[trigger] final(blocks)@[j]@ == old(blocks)@[j]@,
        forall|a: int|
            0 <= a < lost.len() ==> word(final(blocks)@[#[trigger] lost@[a] as int]@, t as int)
                == d@[a],
        forall|j: int, s: int|
            0 <= j < old(blocks).len() && 0 <= s < old(blocks)@[j].len() as int / 4 && s != t
                ==> #[trigger] word(final(blocks)@[j]@, s) == word(old(blocks)@[j]@, s),
{
    let n: usize = lost.len();
    let mut a: usize = 0;
    while a < n
        invariant
            a <= n,
            n == lost.len(),
            n == d.len(),
            blocks.len() == old(blocks).len(),
            forall|b: int| 0 <= b < lost.len() ==> #[trigger] lost@[b] < blocks.len(),
            forall|b: int, c: int| 0 <= b < c < lost.len() ==> lost@[b] < lost@[c],
            forall|j: int| 0 <= j < blocks.len() ==> 4 * t + 4 <= #[trigger] old(blocks)@[j].len(),
            forall|j: int|
                0 <= j < blocks.len() ==> #[trigger] blocks@[j].len() == old(blocks)@[j].len(),
            forall|j: int|
                0 <= j < blocks.len() && (forall|b: int| 0 <= b < a ==> lost@[b] != j)
                    ==> #[trigger] blocks@[j]@ == old(blocks)@[j]@,
            forall|b: int|
                0 <= b < a ==> word(blocks@[#[trigger] lost@[b] as int]@, t as int) == d@[b],
            forall|j: int, s: int|
                0 <= j < blocks.len() && 0 <= s < old(blocks)@[j].len() as int / 4 && s != t
                    ==> #[trigger] word(blocks@[j]@, s) == word(old(blocks)@[j]@, s),
        decreases n - a,
    {
        let j: usize = lost[a];
        let ghost before: Seq<Vec<u8>> = blocks@;
        assert(4 * t + 4 <= blocks@[j as int].len());
        write_word(blocks[j].as_mut_slice(), t, d[a]);
        proof {
            assert forall|i: int, s: int|
                0 <= i < blocks.len() && 0 <= s < old(blocks)@[i].len() as int / 4 && s
                    != t implies #[trigger] word(blocks@[i]@, s) == word(old(blocks)@[i]@, s) by {
                assert(word(before[i]@, s) == word(old(blocks)@[i]@, s));
            }
        }
        a = a + 1;
    }
}

/// Returns copies of the blocks.
fn copy_blocks(blocks: &[&[u8]]) -> (copies: Vec<Vec<u8>>)
    ensures
        owned_contents(copies@) == contents(blocks@),
{
    let n: usize = blocks.len();
    let mut copies: Vec<Vec<u8>> = Vec::with_capacity(n);
    let mut j: usize = 0;
    while j < n
        invariant
            j <= n,
            n == blocks@.len(),
            copies.len() == j,
            forall|l: int| 0 <= l < j ==> #[trigger] copies@[l]@ == blocks@[l]@,
        decreases n - j,
    {
        copies.push(slice_to_vec(blocks[j]));
        j = j + 1;
    }
    assert(owned_contents(copies@) =~= contents(blocks@));
    copies
}

/// Returns the data and the coding blocks of an erasure set with the lost ones restored.
pub fn restore(
    data: &[&[u8]],
    coding: &[&[u8]],
    data_lost: &Vec<bool>,
    coding_lost: &Vec<bool>,
) -> (blocks: (Vec<Vec<u8>>, Vec<Vec<u8>>))
    requires
        data@.len() > 0,
        in_matrix_range(coding@.len(), data@.len()),
        data@[0]@.len() % 4 == 0,
        all_of_len(contents(data@), data@[0]@.len()),
        all_of_len(contents(coding@), data@[0]@.len()),
        data_lost.len() == data@.len(),
        coding_lost.len() == coding@.len(),
        positions(data_lost@).len() + positions(coding_lost@).len() <= coding@.len(),
    ensures
        restored(
            contents(data@),
            contents(coding@),
            data_lost@,
            coding_lost@,
            owned_contents(blocks.0@),
            owned_contents(blocks.1@),
        ),
{
    let k: usize = data.len();
    let m: usize = coding.len();
    let block_len: usize = data[0].len();
    let words: usize = block_len / 4;
    let ghost cdata: Seq<Seq<u8>> = contents(data@);
    let ghost ccoding: Seq<Seq<u8>> = contents(coding@);
    let ghost used: Seq<int> = used_rows(data_lost@, coding_lost@);
    let matrix: Vec<u32> = get_matrix(m, k);
    let lost: Vec<usize> = find_positions(data_lost, true);
    let survivors: Vec<usize> = find_positions(coding_lost, false);
    let e: usize = lost.len();
    proof {
        lemma_positions(data_lost@);
        lemma_points_distinct(data_lost@, coding_lost@);
        lemma_positions_inverted(coding_lost@);
        assert(lost@.map_values(|p: usize| p as int).len() == e);
        assert(survivors@.map_values(|p: usize| p as int).len() == survivors.len());
        assert forall|a: int| 0 <= a < e implies #[trigger] lost@[a] as int == positions(
            data_lost@,
        )[a] by {
            assert(lost@.map_values(|p: usize| p as int)[a] == lost@[a] as int);
        }
        assert forall|p: int| 0 <= p < e implies #[trigger] survivors@[p] as int == used[p] by {
            assert(survivors@.map_values(|p: usize| p as int)[p] == survivors@[p] as int);
        }
    }
    let mut xs: Vec<u32> = Vec::with_capacity(e);
    let mut ys: Vec<u32> = Vec::with_capacity(e);
    let mut a: usize = 0;
    while a < e
        invariant
            a <= e,
            e == lost.len(),
            e <= survivors.len(),
            k == data_lost.len(),
            m == coding_lost.len(),
            m + k <= i32::MAX + 1,
            xs.len() == a,
            ys.len() == a,
            e == used.len(),
            forall|b: int| 0 <= b < e ==> #[trigger] lost@[b] < k,
            forall|b: int| 0 <= b < e ==> #[trigger] survivors@[b] as int == used[b],
            forall|b: int| 0 <= b < e ==> 0 <= #[trigger] used[b] < m,
            forall|b: int| 0 <= b < a ==> #[trigger] xs@[b] == used[b] as u32,
            forall|b: int| 0 <= b < a ==> #[trigger] ys@[b] == (m + lost@[b]) as u32,
        decreases e - a,
    {
        assert(lost@[a as int] < k);
        xs.push(survivors[a] as u32);
        ys.push((m + lost[a]) as u32);
        a = a + 1;
    }
    proof {
        assert(xs@ =~= row_points(used));
        assert(ys@ =~= lost_points(data_lost@, m as nat)) by {
            assert forall|b: int| 0 <= b < e implies #[trigger] ys@[b] == lost_points(
                data_lost@,
                m as nat,
            )[b] by {
                assert(lost@[b] as int == positions(data_lost@)[b]);
            }
        }
    }
    let basis: Vec<Vec<u32>> = invert(&xs, &ys);
    let mut new_data: Vec<Vec<u8>> = copy_blocks(data);
    proof {
        assert(owned_contents(new_data@).len() == k);
        assert forall|j: int| 0 <= j < k implies #[trigger] new_data@[j]@ == data@[j]@ by {
            assert(owned_contents(new_data@)[j] == cdata[j]);
        }
        assert forall|j: int| 0 <= j < k implies #[trigger] data@[j]@.len() == block_len by {
            assert(cdata[j].len() == block_len);
        }
        assert forall|i: int| 0 <= i < m implies #[trigger] coding@[i]@.len() == block_len by {
            assert(ccoding[i].len() == block_len);
        }
        assert forall|a: int, b: int| 0 <= a < b < e implies lost@[a] < lost@[b] by {
            assert(lost@[a] as int == positions(data_lost@)[a]);
            assert(lost@[b] as int == positions(data_lost@)[b]);
        }
    }
    let mut t: usize = 0;
    while t < words
        invariant
            t <= words,
            words == block_len / 4,
            block_len % 4 == 0,
            k == data@.len(),
            m == coding@.len(),
            in_matrix_range(m as nat, k as nat),
            matrix.len() == m * k,
            forall|a: int, b: int|
                0 <= a < m && 0 <= b < k ==> #[trigger] matrix@[a * k + b] == coefficient(
                    m as nat,
                    a,
                    b,
                ),
            cdata == contents(data@),
            ccoding == contents(coding@),
            data_lost.len() == k,
            coding_lost.len() == m,
            e == lost.len(),
            e == used.len(),
            e <= survivors.len(),
            e == positions(data_lost@).len(),
            used == used_rows(data_lost@, coding_lost@),
            xs@ == row_points(used),
            ys@ == lost_points(data_lost@, m as nat),
            distinct_points(xs@, ys@),
            is_basis(xs@, ys@, basis@),
            forall|b: int| 0 <= b < e ==> #[trigger] lost@[b] as int == positions(data_lost@)[b],
            forall|b: int| 0 <= b < e ==> #[trigger] lost@[b] < k && data_lost@[lost@[b] as int],
            forall|b: int, c: int| 0 <= b < c < e ==> lost@[b] < lost@[c],
            forall|b: int| 0 <= b < e ==> #[trigger] survivors@[b] as int == used[b],
            forall|b: int| 0 <= b < e ==> 0 <= #[trigger] used[b] < m,
            forall|j: int| 0 <= j < k ==> #[trigger] data@[j]@.len() == block_len,
            forall|i: int| 0 <= i < m ==> #[trigger] coding@[i]@.len() == block_len,
            new_data.len() == k,
            forall|j: int| 0 <= j < k ==> #[trigger] new_data@[j].len() == block_len,
            forall|j: int|
                0 <= j < k && !data_lost@[j] ==> #[trigger] new_data@[j]@ == data@[j]@,
            forall|s: int, p: int|
                0 <= s < t && 0 <= p < e ==> #[trigger] word(
                    coding@[#[trigger] used[p]]@,
                    s,
                ) == parity(column(owned_contents(new_data@), s), m as nat, used[p]),
        decreases words - t,
    {
        let mut rhs: Vec<u32> = Vec::with_capacity(e);
        let mut p: usize = 0;
        while p < e
            invariant
                p <= e,
                rhs.len() == p,
                t < words,
                words == block_len / 4,
                k == data@.len(),
                m == coding@.len(),
                matrix.len() == m * k,
                forall|a: int, b: int|
                    0 <= a < m && 0 <= b < k ==> #[trigger] matrix@[a * k + b] == coefficient(
                        m as nat,
                        a,
                        b,
                    ),
                data_lost.len() == k,
                e == used.len(),
                e <= survivors.len(),
                forall|b: int| 0 <= b < e ==> #[trigger] survivors@[b] as int == used[b],
                forall|b: int| 0 <= b < e ==> 0 <= #[trigger] used[b] < m,
                forall|j: int| 0 <= j < k ==> #[trigger] data@[j]@.len() == block_len,
                forall|i: int| 0 <= i < m ==> #[trigger] coding@[i]@.len() == block_len,
                forall|b: int|
                    0 <= b < p ==> #[trigger] rhs@[b] == word(coding@[used[b]]@, t as int)
                        ^ known_parity(
                        column(contents(data@), t as int),
                        data_lost@,
                        m as nat,
                        used[b],
                    ),
            decreases e - p,
        {
            let i: usize = survivors[p];
            assert(survivors@[p as int] as int == used[p as int]);
            assert(0 <= used[p as int] < m);
            assert(coding@[i as int]@.len() == block_len);
            let known: u32 = known_word(&matrix, m, i, data, data_lost, t);
            rhs.push(read_word(coding[i], t) ^ known);
            p = p + 1;
        }
        let d: Vec<u32> = combine(Ghost(xs@), Ghost(ys@), &basis, &rhs);
        let ghost before: Seq<Vec<u8>> = new_data@;
        write_column(&mut new_data, &lost, t, &d);
        proof {
            let m1: nat = m as nat;
            let old_col: Seq<u32> = column(cdata, t as int);
            let new_blocks: Seq<Seq<u8>> = owned_contents(new_data@);
            let new_col: Seq<u32> = column(new_blocks, t as int);
            assert forall|j: int| 0 <= j < k && !data_lost@[j] implies #[trigger] new_data@[j]@
                == data@[j]@ by {
                assert(before[j]@ == data@[j]@);
                assert forall|a: int| 0 <= a < lost.len() implies lost@[a] != j by {}
            }
            assert(lost_words(new_col, data_lost@) =~= d@) by {
                assert forall|b: int| 0 <= b < e implies #[trigger] lost_words(
                    new_col,
                    data_lost@,
                )[b] == d@[b] by {
                    assert(lost@[b] as int == positions(data_lost@)[b]);
                    assert(word(new_data@[lost@[b] as int]@, t as int) == d@[b]);
                }
            }
            assert forall|j: int| 0 <= j < k && !data_lost@[j] implies #[trigger] new_col[j]
                == old_col[j] by {
                assert(new_data@[j]@ == data@[j]@);
            }
            assert forall|s: int, p: int| 0 <= s < t + 1 && 0 <= p < e implies #[trigger] word(
                coding@[#[trigger] used[p]]@,
                s,
            ) == parity(column(new_blocks, s), m1, used[p]) by {
                if s < t {
                    assert(column(new_blocks, s) =~= column(owned_contents(before), s)) by {
                        assert forall|j: int| 0 <= j < k implies #[trigger] column(
                            new_blocks,
                            s,
                        )[j] == column(owned_contents(before), s)[j] by {
                            assert(before[j].len() == block_len);
                            assert(word(new_data@[j]@, s) == word(before[j]@, s));
                        }
                    }
                } else {
                    let i: int = used[p];
                    lemma_split_parity(new_col, data_lost@, m1, i);
                    lemma_known_same(new_col, old_col, data_lost@, m1, i);
                    assert(xs@[p] == i as u32);
                    assert(cauchy_row(xs@[p], ys@, d@) == rhs@[p]);
                    let known: u32 = known_parity(old_col, data_lost@, m1, i);
                    let cw: u32 = word(coding@[i]@, t as int);
                    assert(known ^ (cw ^ known) == cw) by (bit_vector);
                }
            }
        }
        t = t + 1;
    }
    let mut new_coding: Vec<Vec<u8>> = copy_blocks(coding);
    proof {
        assert(owned_contents(new_coding@).len() == m);
        assert forall|i: int| 0 <= i < m implies #[trigger] new_coding@[i]@ == coding@[i]@ by {
            assert(owned_contents(new_coding@)[i] == ccoding[i]);
        }
    }
    let new_slices: Vec<&[u8]> = borrow_blocks(&new_data);
    let ghost rdata: Seq<Seq<u8>> = owned_contents(new_data@);
    proof {
        assert(contents(new_slices@).len() == k);
        assert forall|j: int| 0 <= j < k implies #[trigger] new_slices@[j]@.len() == block_len by {
            assert(contents(new_slices@)[j] == rdata[j]);
            assert(new_data@[j].len() == block_len);
        }
    }
    let mut i: usize = 0;
    while i < m
        invariant
            i <= m,
            k == new_slices.len(),
            m == coding@.len(),
            m == coding_lost.len(),
            words == block_len / 4,
            block_len % 4 == 0,
            matrix.len() == m * k,
            forall|a: int, b: int|
                0 <= a < m && 0 <= b < k ==> #[trigger] matrix@[a * k + b] == coefficient(
                    m as nat,
                    a,
                    b,
                ),
            contents(new_slices@) == rdata,
            forall|j: int| 0 <= j < k ==> #[trigger] new_slices@[j]@.len() == block_len,
            forall|i: int| 0 <= i < m ==> #[trigger] coding@[i]@.len() == block_len,
            new_coding.len() == m,
            forall|l: int| 0 <= l < m ==> #[trigger] new_coding@[l].len() == block_len,
            forall|l: int|
                0 <= l < m && (l >= i || !coding_lost@[l]) ==> #[trigger] new_coding@[l]@
                    == coding@[l]@,
            forall|l: int|
                0 <= l < i && coding_lost@[l] ==> is_coding_block(
                    #[trigger] new_coding@[l]@,
                    rdata,
                    m as nat,
                    l,
                ),
        decreases m - i,
    {
        if coding_lost[i] {
            let mut s: usize = 0;
            while s < words
                invariant
                    s <= words,
                    i < m,
                    k == new_slices.len(),
                    m == coding_lost.len(),
                    m == coding@.len(),
                    coding_lost@[i as int],
                    words == block_len / 4,
                    block_len % 4 == 0,
                    matrix.len() == m * k,
                    forall|a: int, b: int|
                        0 <= a < m && 0 <= b < k ==> #[trigger] matrix@[a * k + b] == coefficient(
                            m as nat,
                            a,
                            b,
                        ),
                    contents(new_slices@) == rdata,
                    forall|j: int| 0 <= j < k ==> #[trigger] new_slices@[j]@.len() == block_len,
                    new_coding.len() == m,
                    forall|l: int| 0 <= l < m ==> #[trigger] new_coding@[l].len() == block_len,
                    forall|l: int|
                        0 <= l < m && (l > i || !coding_lost@[l]) ==> #[trigger] new_coding@[l]@
                            == coding@[l]@,
                    forall|l: int|
                        0 <= l < i && coding_lost@[l] ==> is_coding_block(
                            #[trigger] new_coding@[l]@,
                            rdata,
                            m as nat,
                            l,
                        ),
                    forall|r: int|
                        0 <= r < s ==> #[trigger] word(new_coding@[i as int]@, r) == parity(
                            column(rdata, r),
                            m as nat,
                            i as int,
                        ),
                decreases words - s,
            {
                let w: u32 = parity_word(&matrix, m, i, new_slices.as_slice(), s);
                assert(new_coding@[i as int].len() == block_len);
                write_word(new_coding[i].as_mut_slice(), s, w);
                s = s + 1;
            }
            assert(new_coding@[i as int].len() == block_len);
            assert(is_coding_block(new_coding@[i as int]@, rdata, m as nat, i as int));
        }
        i = i + 1;
    }
    proof {
        let rcoding: Seq<Seq<u8>> = owned_contents(new_coding@);
        assert forall|j: int| 0 <= j < k implies #[trigger] rdata[j].len() == cdata[j].len() && (
        !data_lost@[j] ==> rdata[j] == cdata[j]) by {
            assert(rdata[j] == new_data@[j]@);
            assert(new_data@[j].len() == block_len && data@[j]@.len() == block_len);
        }
        assert forall|i: int| 0 <= i < m implies #[trigger] rcoding[i].len() == ccoding[i].len() && (
        !coding_lost@[i] ==> rcoding[i] == ccoding[i]) && (coding_lost@[i] ==> is_coding_block(
            rcoding[i],
            rdata,
            m as nat,
            i,
        )) by {
            assert(rcoding[i] == new_coding@[i]@);
            assert(new_coding@[i].len() == block_len && coding@[i]@.len() == block_len);
        }
        assert forall|p: int| 0 <= p < used.len() implies is_coding_block(
            rcoding[#[trigger] used[p]],
            rdata,
            m as nat,
            used[p],
        ) by {
            let r: int = used[p];
            assert(!coding_lost@[r]);
            assert(new_coding@[r]@ == coding@[r]@);
            assert forall|s: int| 0 <= s < rcoding[r].len() as int / 4 implies #[trigger] word(
                rcoding[r],
                s,
            ) == parity(column(rdata, s), m as nat, r) by {
                assert(word(coding@[used[p]]@, s) == parity(column(rdata, s), m as nat, used[p]));
            }
        }
    }
    (new_data, new_coding)
}

/// Returns the blocks as slices.
fn borrow_blocks(blocks: &Vec<Vec<u8>>) -> (slices: Vec<&[u8]>)
    ensures
        contents(slices@) == owned_contents(blocks@),
{
    let n: usize = blocks.len();
    let mut slices: Vec<&[u8]> = Vec::with_capacity(n);
    let mut j: usize = 0;
    while j < n
        invariant
            j <= n,
            n == blocks.len(),
            slices.len() == j,
            forall|l: int| 0 <= l < j ==> #[trigger] slices@[l]@ == blocks@[l]@,
        decreases n - j,
    {
        slices.push(blocks[j].as_slice());
        j = j + 1;
    }
    assert(contents(slices@) =~= owned_contents(blocks@));
    slices
}

/// The list of erasures names device `d`: an entry before the terminating `-1` equals `d`.
///
/// The data blocks are the devices `0..k`, the coding blocks the devices that follow.
pub open spec fn listed(erasures: Seq<i32>, d: int) -> bool {
    exists|p: int|
        0 <= p < erasures.len() && #[trigger] erasures[p] == d && forall|q: int|
            0 <= q <= p ==> erasures[q] != -1
}

/// The list of erasures is terminated by `-1`, and the entries before it are devices.
pub open spec fn valid_erasures(erasures: Seq<i32>, devices: nat) -> bool {
    exists|end: int|
        0 <= end < erasures.len() && #[trigger] erasures[end] == -1 && forall|p: int|
            0 <= p < end ==> 0 <= #[trigger] erasures[p] < devices
}

/// Which of the `n` devices from `first` on are listed.
pub open spec fn lost_flags(erasures: Seq<i32>, first: int, n: nat) -> Seq<bool> {
    Seq::new(n, |j: int| listed(erasures, first + j))
}

/// The number of devices that are listed.
pub open spec fn lost_count(erasures: Seq<i32>, k: nat, m: nat) -> nat {
    positions(lost_flags(erasures, 0, k)).len() + positions(
        lost_flags(erasures, k as int, m),
    ).len()
}

/// `end` is where a list of erasures ends: at its first `-1`.
pub open spec fn terminated_at(erasures: Seq<i32>, end: int) -> bool {
    &&& 0 <= end < erasures.len()
    &&& erasures[end] == -1
    &&& forall|p: int| 0 <= p < end ==> #[trigger] erasures[p] != -1
}

/// The devices that are listed are those that stand before the end of the list.
pub proof fn lemma_listed(erasures: Seq<i32>, end: int, d: i32)
    requires
        terminated_at(erasures, end),
    ensures
        d != -1 ==> (listed(erasures, d as int) <==> erasures.take(end).contains(d)),
{
    let named: Seq<i32> = erasures.take(end);
    if d != -1 && listed(erasures, d as int) {
        let p: int = choose|p: int|
            0 <= p < erasures.len() && #[trigger] erasures[p] == d && forall|q: int|
                0 <= q <= p ==> erasures[q] != -1;
        assert(p < end);
        assert(named[p] == d);
    }
    if named.contains(d) {
        let p: int = choose|p: int| 0 <= p < named.len() && named[p] == d;
        assert(erasures[p] == d);
    }
}

/// A list of devices that is terminated is valid.
pub proof fn lemma_valid_erasures(erasures: Seq<i32>, end: int, devices: nat)
    requires
        terminated_at(erasures, end),
    ensures
        valid_erasures(erasures, devices) <==> forall|p: int|
            0 <= p < end ==> 0 <= #[trigger] erasures[p] < devices,
{
    if valid_erasures(erasures, devices) {
        let other: int = choose|other: int|
            0 <= other < erasures.len() && #[trigger] erasures[other] == -1 && forall|p: int|
                0 <= p < other ==> 0 <= #[trigger] erasures[p] < devices;
        assert(other >= end);
        if other > end {
            assert(0 <= erasures[end]);
        }
    } else {
        assert(erasures[end] == -1);
    }
}

proof fn lemma_positions_join(a: Seq<bool>, b: Seq<bool>)
    ensures
        positions(a + b).len() == positions(a).len() + positions(b).len(),
    decreases b.len(),
{
    if b.len() == 0 {
        assert(a + b =~= a);
    } else {
        assert((a + b).drop_last() =~= a + b.drop_last());
        assert((a + b).last() == b.last());
        lemma_positions_join(a, b.drop_last());
    }
}

/// The number of lost blocks is the number of different devices that stand before the end of
/// the list.
pub proof fn lemma_lost_count(erasures: Seq<i32>, end: int, k: nat, m: nat)
    requires
        terminated_at(erasures, end),
        k + m <= i32::MAX + 1,
        forall|p: int| 0 <= p < end ==> 0 <= #[trigger] erasures[p] < k + m,
    ensures
        lost_count(erasures, k, m) == erasures.take(end).to_set().len(),
{
    let named: Seq<i32> = erasures.take(end);
    let flags: Seq<bool> = lost_flags(erasures, 0, k + m);
    assert(flags =~= lost_flags(erasures, 0, k) + lost_flags(erasures, k as int, m));
    lemma_positions_join(lost_flags(erasures, 0, k), lost_flags(erasures, k as int, m));
    let ps: Seq<int> = positions(flags);
    let ds: Seq<i32> = Seq::new(ps.len(), |p: int| ps[p] as i32);
    lemma_positions(flags);
    assert forall|p: int, q: int| 0 <= p < ds.len() && 0 <= q < ds.len() && p != q implies ds[p]
        != ds[q] by {
        if p < q {
            assert(ps[p] < ps[q]);
        } else {
            assert(ps[q] < ps[p]);
        }
    }
    assert(ds.no_duplicates());
    ds.unique_seq_to_set();
    assert forall|d: i32| ds.to_set().contains(d) <==> named.to_set().contains(d) by {
        if ds.contains(d) {
            let p: int = choose|p: int| 0 <= p < ds.len() && ds[p] == d;
            assert(flags[ps[p]]);
            lemma_listed(erasures, end, d);
        }
        if named.contains(d) {
            let p: int = choose|p: int| 0 <= p < named.len() && named[p] == d;
            assert(0 <= erasures[p] < k + m);
            lemma_listed(erasures, end, d);
            assert(flags[d as int]);
            let q: int = choose|q: int| 0 <= q < ps.len() && ps[q] == d;
            assert(ds[q] == d);
        }
    }
    assert(ds.to_set() =~= named.to_set());
}

/// As many blocks as there are coding blocks can be restored, whichever they are: the blocks
/// can be decoded if and only if no more different devices are listed.
pub proof fn lemma_decodable(erasures: Seq<i32>, end: int, k: nat, m: nat)
    requires
        terminated_at(erasures, end),
        k + m <= i32::MAX + 1,
        forall|p: int| 0 <= p < end ==> 0 <= #[trigger] erasures[p] < k + m,
    ensures
        lost_count(erasures, k, m) <= m <==> erasures.take(end).to_set().len() <= m,
        end <= m ==> lost_count(erasures, k, m) <= m,
{
    let named: Seq<i32> = erasures.take(end);
    lemma_lost_count(erasures, end, k, m);
    named.lemma_cardinality_of_set();
}

/// The lost data blocks come from the first coding blocks that are not lost, as many as are
/// needed: a coding block with fewer such blocks before it than data blocks are lost fits the
/// restored data.
pub proof fn lemma_first_rows_used(
    data: Seq<Seq<u8>>,
    coding: Seq<Seq<u8>>,
    data_lost: Seq<bool>,
    coding_lost: Seq<bool>,
    new_data: Seq<Seq<u8>>,
    new_coding: Seq<Seq<u8>>,
    i: int,
)
    requires
        data_lost.len() == data.len(),
        coding_lost.len() == coding.len(),
        restored(data, coding, data_lost, coding_lost, new_data, new_coding),
        0 <= i < coding.len(),
        !coding_lost[i],
        Set::new(|j: int| 0 <= j < data.len() && data_lost[j]).len() + Set::new(
            |h: int| 0 <= h < coding.len() && coding_lost[h],
        ).len() <= coding.len(),
        Set::new(|h: int| 0 <= h < i && !coding_lost[h]).len() < Set::new(
            |j: int| 0 <= j < data.len() && data_lost[j],
        ).len(),
    ensures
        is_coding_block(new_coding[i], new_data, coding.len(), i),
{
    let there: Seq<bool> = inverted(coding_lost);
    lemma_positions_count(there);
    lemma_positions_count(data_lost);
    assert(there[i]);
    assert(Set::new(|h: int| 0 <= h < i && !coding_lost[h]) =~= set_below(there, i));
    assert(Set::new(|j: int| 0 <= j < data.len() && data_lost[j]) =~= set_below(
        data_lost,
        data_lost.len() as int,
    ));
    lemma_positions_count(coding_lost);
    lemma_positions_inverted(coding_lost);
    assert(Set::new(|h: int| 0 <= h < coding.len() && coding_lost[h]) =~= set_below(
        coding_lost,
        coding_lost.len() as int,
    ));
    let p: int = set_below(there, i).len() as int;
    assert(used_rows(data_lost, coding_lost)[p] == i);
}

/// The flags of lost blocks tell which devices are listed.
pub proof fn lemma_lost_flags(erasures: Seq<i32>, first: int, n: nat)
    ensures
        lost_flags(erasures, first, n).len() == n,
        forall|j: int|
            0 <= j < n ==> #[trigger] lost_flags(erasures, first, n)[j] == listed(
                erasures,
                first + j,
            ),
{
}

/// Decoding undoes the loss: where the blocks whose devices do not stand in the list are those
/// of an encoded set, and no more different devices stand there than there are coding blocks,
/// all blocks are those of the encoded set afterwards.
pub proof fn lemma_decoded_is_encoded(
    erasures: Seq<i32>,
    end: int,
    data: Seq<Seq<u8>>,
    coding: Seq<Seq<u8>>,
    len: nat,
    encoded_data: Seq<Seq<u8>>,
    encoded_coding: Seq<Seq<u8>>,
    new_data: Seq<Seq<u8>>,
    new_coding: Seq<Seq<u8>>,
)
    requires
        terminated_at(erasures, end),
        forall|p: int| 0 <= p < end ==> 0 <= #[trigger] erasures[p] < data.len() + coding.len(),
        erasures.take(end).to_set().len() <= coding.len(),
        coding.len() + data.len() <= i32::MAX + 1,
        len % 4 == 0,
        all_of_len(data, len),
        all_of_len(coding, len),
        encoded_data.len() == data.len(),
        encoded_coding.len() == coding.len(),
        all_of_len(encoded_data, len),
        all_of_len(encoded_coding, len),
        is_codeword(encoded_data, encoded_coding),
        forall|j: int|
            0 <= j < data.len() && !erasures.take(end).contains(j as i32) ==> #[trigger] data[j]
                == encoded_data[j],
        forall|i: int|
            0 <= i < coding.len() && !erasures.take(end).contains((data.len() + i) as i32)
                ==> #[trigger] coding[i] == encoded_coding[i],
        restored(
            data,
            coding,
            lost_flags(erasures, 0, data.len()),
            lost_flags(erasures, data.len() as int, coding.len()),
            new_data,
            new_coding,
        ),
    ensures
        new_data == encoded_data,
        new_coding == encoded_coding,
{
    lemma_lost_count(erasures, end, data.len(), coding.len());
    assert forall|j: int|
        0 <= j < data.len() && !lost_flags(
            erasures,
            0,
            data.len(),
        )[j] implies #[trigger] data[j] == encoded_data[j] by {
        lemma_listed(erasures, end, j as i32);
    }
    assert forall|i: int|
        0 <= i < coding.len() && !lost_flags(
            erasures,
            data.len() as int,
            coding.len(),
        )[i] implies #[trigger] coding[i] == encoded_coding[i] by {
        lemma_listed(erasures, end, (data.len() + i) as i32);
    }
    lemma_restored_is_encoded(
        data,
        coding,
        lost_flags(erasures, 0, data.len()),
        lost_flags(erasures, data.len() as int, coding.len()),
        len,
        encoded_data,
        encoded_coding,
        new_data,
        new_coding,
    );
}

/// Lost coding blocks are coding blocks of the restored data.
pub proof fn lemma_lost_coding_restored(
    data: Seq<Seq<u8>>,
    coding: Seq<Seq<u8>>,
    data_lost: Seq<bool>,
    coding_lost: Seq<bool>,
    new_data: Seq<Seq<u8>>,
    new_coding: Seq<Seq<u8>>,
    i: int,
)
    requires
        restored(data, coding, data_lost, coding_lost, new_data, new_coding),
        0 <= i < coding.len(),
        coding_lost[i],
    ensures
        is_coding_block(new_coding[i], new_data, coding.len(), i),
{
}

/// Restoring leaves alone what is not listed, also where the blocks do not fit together, and
/// keeps the length of every block.
pub proof fn lemma_unlisted_blocks_stay(
    erasures: Seq<i32>,
    data: Seq<Seq<u8>>,
    coding: Seq<Seq<u8>>,
    new_data: Seq<Seq<u8>>,
    new_coding: Seq<Seq<u8>>,
)
    requires
        restored(
            data,
            coding,
            lost_flags(erasures, 0, data.len()),
            lost_flags(erasures, data.len() as int, coding.len()),
            new_data,
            new_coding,
        ),
    ensures
        new_data.len() == data.len(),
        new_coding.len() == coding.len(),
        forall|j: int|
            0 <= j < data.len() ==> {
                &&& (#[trigger] new_data[j]).len() == data[j].len()
                &&& !listed(erasures, j) ==> new_data[j] == data[j]
            },
        forall|i: int|
            0 <= i < coding.len() ==> {
                &&& (#[trigger] new_coding[i]).len() == coding[i].len()
                &&& !listed(erasures, data.len() + i) ==> new_coding[i] == coding[i]
            },
{
    assert forall|j: int| 0 <= j < data.len() && !listed(erasures, j) implies #[trigger] new_data[j]
        == data[j] by {
        assert(!lost_flags(erasures, 0, data.len())[j]);
    }
    assert forall|i: int| 0 <= i < coding.len() && !listed(erasures, data.len() + i) implies
        #[trigger] new_coding[i] == coding[i] by {
        assert(!lost_flags(erasures, data.len() as int, coding.len())[i]);
    }
}

/// Returns which data and which coding blocks are listed.
fn mark_lost(erasures: &[i32], k: usize, m: usize) -> (flags: (Vec<bool>, Vec<bool>))
    requires
        m + k <= i32::MAX + 1,
        valid_erasures(erasures@, (k + m) as nat),
    ensures
        flags.0@ == lost_flags(erasures@, 0, k as nat),
        flags.1@ == lost_flags(erasures@, k as int, m as nat),
{
    let mut data_lost: Vec<bool> = vec![false; k];
    let mut coding_lost: Vec<bool> = vec![false; m];
    let ghost end: int = choose|end: int|
        0 <= end < erasures@.len() && #[trigger] erasures@[end] == -1 && forall|p: int|
            0 <= p < end ==> 0 <= #[trigger] erasures@[p] < k + m;
    let mut p: usize = 0;
    while erasures[p] != -1
        invariant
            p <= end < erasures@.len(),
            m + k <= i32::MAX + 1,
            erasures@[end] == -1,
            forall|q: int| 0 <= q < end ==> 0 <= #[trigger] erasures@[q] < k + m,
            data_lost.len() == k,
            coding_lost.len() == m,
            forall|j: int|
                0 <= j < k ==> #[trigger] data_lost@[j] == exists|q: int|
                    0 <= q < p && #[trigger] erasures@[q] == j,
            forall|i: int|
                0 <= i < m ==> #[trigger] coding_lost@[i] == exists|q: int|
                    0 <= q < p && #[trigger] erasures@[q] == k + i,
        decreases end - p,
    {
        let ghost data_before: Seq<bool> = data_lost@;
        let ghost coding_before: Seq<bool> = coding_lost@;
        assert(0 <= erasures@[p as int] < k + m);
        let d: usize = erasures[p] as usize;
        if d < k {
            data_lost.set(d, true);
        } else {
            coding_lost.set(d - k, true);
        }
        proof {
            assert forall|j: int| 0 <= j < k implies #[trigger] data_lost@[j] == exists|q: int|
                0 <= q < p + 1 && #[trigger] erasures@[q] == j by {
                if data_before[j] {
                    let q: int = choose|q: int| 0 <= q < p && #[trigger] erasures@[q] == j;
                    assert(erasures@[q] == j);
                }
                if j == d {
                    assert(erasures@[p as int] == j);
                }
            }
            assert forall|i: int| 0 <= i < m implies #[trigger] coding_lost@[i] == exists|q: int|
                0 <= q < p + 1 && #[trigger] erasures@[q] == k + i by {
                if coding_before[i] {
                    let q: int = choose|q: int| 0 <= q < p && #[trigger] erasures@[q] == k + i;
                    assert(erasures@[q] == k + i);
                }
                if k + i == d {
                    assert(erasures@[p as int] == k + i);
                }
            }
        }
        p = p + 1;
    }
    proof {
        assert(p == end);
        assert forall|d: int| 0 <= d < k + m implies #[trigger] listed(erasures@, d) == exists|q: int|
            0 <= q < p && #[trigger] erasures@[q] == d by {
            if listed(erasures@, d) {
                let q: int = choose|q: int|
                    0 <= q < erasures@.len() && #[trigger] erasures@[q] == d && forall|r: int|
                        0 <= r <= q ==> erasures@[r] != -1;
                assert(q < p) by {
                    assert(erasures@[p as int] == -1);
                }
                assert(erasures@[q] == d);
            }
            if exists|q: int| 0 <= q < p && #[trigger] erasures@[q] == d {
                let q: int = choose|q: int| 0 <= q < p && #[trigger] erasures@[q] == d;
                assert(erasures@[q] == d);
            }
        }
        assert(data_lost@ =~= lost_flags(erasures@, 0, k as nat)) by {
            assert forall|j: int| 0 <= j < k implies #[trigger] data_lost@[j] == lost_flags(
                erasures@,
                0,
                k as nat,
            )[j] by {
                assert(listed(erasures@, j) == exists|q: int|
                    0 <= q < p && #[trigger] erasures@[q] == j);
            }
        }
        assert(coding_lost@ =~= lost_flags(erasures@, k as int, m as nat)) by {
            assert forall|i: int| 0 <= i < m implies #[trigger] coding_lost@[i] == lost_flags(
                erasures@,
                k as int,
                m as nat,
            )[i] by {
                assert(listed(erasures@, k + i) == exists|q: int|
                    0 <= q < p && #[trigger] erasures@[q] == k + i);
            }
        }
    }
    (data_lost, coding_lost)
}

/// Returns shared views of mutable slices.
fn share_blocks<'a>(blocks: &'a [&mut [u8]]) -> (slices: Vec<&'a [u8]>)
    ensures
        contents(slices@) == mut_contents(blocks@),
{
    let n: usize = blocks.len();
    let mut slices: Vec<&'a [u8]> = Vec::with_capacity(n);
    let mut j: usize = 0;
    while j < n
        invariant
            j <= n,
            n == blocks@.len(),
            slices.len() == j,
            forall|l: int| 0 <= l < j ==> #[trigger] slices@[l]@ == blocks@[l]@,
        decreases n - j,
    {
        slices.push(&*blocks[j]);
        j = j + 1;
    }
    assert(contents(slices@) =~= mut_contents(blocks@));
    slices
}

/// Overwrites a block with `source`.
fn overwrite(block: &mut [u8], source: &Vec<u8>)
    requires
        old(block)@.len() == source.len(),
    ensures
        final(block)@ == source@,
{
    let n: usize = source.len();
    let mut b: usize = 0;
    while b < n
        invariant
            b <= n,
            n == source.len(),
            block@.len() == n,
            forall|c: int| 0 <= c < b ==> #[trigger] block@[c] == source@[c],
        decreases n - b,
    {
        block[b] = source[b];
        b = b + 1;
    }
    assert(block@ =~= source@);
}

/// Overwrites the flagged blocks with those of `source`.
fn overwrite_lost(blocks: &mut [&mut [u8]], source: &Vec<Vec<u8>>, lost: &Vec<bool>)
    requires
        source.len() == old(blocks)@.len(),
        lost.len() == old(blocks)@.len(),
        forall|j: int|
            0 <= j < source.len() ==> #[trigger] source@[j].len() == old(blocks)@[j]@.len(),
        forall|j: int|
            0 <= j < source.len() && !lost@[j] ==> #[trigger] source@[j]@ == old(blocks)@[j]@,
    ensures
        mut_contents(final(blocks)@) == owned_contents(source@),
        final(blocks)@.len() == old(blocks)@.len(),
        forall|j: int|
            0 <= j < old(blocks)@.len() ==> final(#[trigger] final(blocks)@[j])@
                == final(old(blocks)@[j])@,
{
    let n: usize = source.len();
    let mut j: usize = 0;
    while j < n
        invariant
            j <= n,
            n == source.len(),
            n == lost.len(),
            n == blocks@.len(),
            n == old(blocks)@.len(),
            forall|l: int|
                0 <= l < n ==> #[trigger] source@[l].len() == old(blocks)@[l]@.len(),
            forall|l: int|
                0 <= l < n && !lost@[l] ==> #[trigger] source@[l]@ == old(blocks)@[l]@,
            forall|l: int| 0 <= l < j ==> #[trigger] blocks@[l]@ == source@[l]@,
            forall|l: int| j <= l < n ==> #[trigger] blocks@[l]@ == old(blocks)@[l]@,
            forall|l: int|
                0 <= l < n ==> final(#[trigger] blocks@[l])@ == final(old(blocks)@[l])@,
        decreases n - j,
    {
        assert(source@[j as int].len() == old(blocks)@[j as int]@.len());
        assert(blocks@[j as int]@ == old(blocks)@[j as int]@);
        if lost[j] {
            overwrite(blocks[j], &source[j]);
        } else {
            assert(source@[j as int]@ == old(blocks)@[j as int]@);
        }
        j = j + 1;
    }
    assert(mut_contents(blocks@) =~= owned_contents(source@));
}

/// Returns whether all blocks have the length `len`.
fn have_len(blocks: &Vec<&[u8]>, len: usize) -> (agree: bool)
    ensures
        agree == all_of_len(contents(blocks@), len as nat),
{
    let mut j: usize = 0;
    while j < blocks.len()
        invariant
            j <= blocks.len(),
            forall|l: int| 0 <= l < j ==> #[trigger] blocks@[l]@.len() == len,
        decreases blocks.len() - j,
    {
        if blocks[j].len() != len {
            assert(contents(blocks@)[j as int].len() != len);
            return false;
        }
        j = j + 1;
    }
    true
}

/// Recovers the blocks that `erasures` lists from the other data and coding blocks.
///
/// The devices are numbered: first the data blocks, then the coding blocks. The list is
/// terminated by `-1`.
pub fn decode_blocks(
    data: &mut [&mut [u8]],
    coding: &mut [&mut [u8]],
    erasures: &[i32],
) -> (result: Result<(), ErasureError>)
    requires
        old(data)@.len() > 0 ==> in_matrix_range(old(coding)@.len(), old(data)@.len()),
        old(data)@.len() > 0 && equal_sized(mut_contents(old(data)@), mut_contents(old(coding)@))
            ==> {
            &&& old(data)@[0]@.len() % JERASURE_ALIGN as nat == 0
            &&& valid_erasures(erasures@, old(data)@.len() + old(coding)@.len())
        },
    ensures
        final(data)@.len() == old(data)@.len(),
        final(coding)@.len() == old(coding)@.len(),
        forall|j: int|
            0 <= j < old(data)@.len() ==> final(#[trigger] final(data)@[j])@
                == final(old(data)@[j])@,
        forall|i: int|
            0 <= i < old(coding)@.len() ==> final(#[trigger] final(coding)@[i])@
                == final(old(coding)@[i])@,
        ({
            let d: Seq<Seq<u8>> = mut_contents(old(data)@);
            let c: Seq<Seq<u8>> = mut_contents(old(coding)@);
            let lost: nat = lost_count(erasures@, d.len(), c.len());
            &&& result is Ok <==> d.len() == 0 || (equal_sized(d, c) && lost <= c.len())
            &&& result == Err::<(), ErasureError>(ErasureError::InvalidBlockSize) <==> d.len() > 0
                && !equal_sized(d, c)
            &&& result == Err::<(), ErasureError>(ErasureError::DecodeError) <==> d.len() > 0
                && equal_sized(d, c) && lost > c.len()
            &&& forall|end: int| #[trigger]
                terminated_at(erasures@, end) && d.len() > 0 && equal_sized(d, c) ==> (result is Ok
                    <==> erasures@.take(end).to_set().len() <= c.len())
            &&& result is Ok && d.len() > 0 ==> restored(
                d,
                c,
                lost_flags(erasures@, 0, d.len()),
                lost_flags(erasures@, d.len() as int, c.len()),
                mut_contents(final(data)@),
                mut_contents(final(coding)@),
            )
            &&& result is Err || d.len() == 0 ==> {
                &&& mut_contents(final(data)@) == d
                &&& mut_contents(final(coding)@) == c
            }
        }),
{
    if data.len() == 0 {
        return Ok(());
    }
    let k: usize = data.len();
    let m: usize = coding.len();
    let block_len: usize = data[0].len();
    let ghost d: Seq<Seq<u8>> = mut_contents(data@);
    let ghost c: Seq<Seq<u8>> = mut_contents(coding@);
    assert(d[0].len() == block_len);
    let data_slices: Vec<&[u8]> = share_blocks(data);
    let coding_slices: Vec<&[u8]> = share_blocks(coding);
    assert(contents(data_slices@).len() == k);
    assert(contents(coding_slices@).len() == m);
    if !have_len(&coding_slices, block_len) {
        return Err(ErasureError::InvalidBlockSize);
    }
    if !have_len(&data_slices, block_len) {
        return Err(ErasureError::InvalidBlockSize);
    }
    proof {
        assert forall|end: int| #[trigger] terminated_at(erasures@, end) implies lost_count(
            erasures@,
            k as nat,
            m as nat,
        ) == erasures@.take(end).to_set().len() by {
            lemma_valid_erasures(erasures@, end, (k + m) as nat);
            lemma_lost_count(erasures@, end, k as nat, m as nat);
        }
    }
    let (data_lost, coding_lost): (Vec<bool>, Vec<bool>) = mark_lost(erasures, k, m);
    let lost_data: usize = find_positions(&data_lost, true).len();
    let lost_coding: usize = find_positions(&coding_lost, true).len();
    proof {
        lemma_positions(data_lost@);
        lemma_positions(coding_lost@);
    }
    if lost_data + lost_coding > m {
        return Err(ErasureError::DecodeError);
    }
    assert(contents(data_slices@)[0] == data_slices@[0]@);
    let (new_data, new_coding): (Vec<Vec<u8>>, Vec<Vec<u8>>) = restore(
        data_slices.as_slice(),
        coding_slices.as_slice(),
        &data_lost,
        &coding_lost,
    );
    proof {
        let rd: Seq<Seq<u8>> = owned_contents(new_data@);
        let rc: Seq<Seq<u8>> = owned_contents(new_coding@);
        assert(rd.len() == new_data.len() && rc.len() == new_coding.len());
        assert forall|j: int| 0 <= j < k implies #[trigger] new_data@[j].len() == data@[j]@.len() by {
            assert(rd[j] == new_data@[j]@);
            assert(d[j] == data@[j]@);
        }
        assert forall|j: int| 0 <= j < k && !data_lost@[j] implies #[trigger] new_data@[j]@
            == data@[j]@ by {
            assert(rd[j] == new_data@[j]@);
            assert(d[j] == data@[j]@);
        }
        assert forall|i: int| 0 <= i < m implies #[trigger] new_coding@[i].len()
            == coding@[i]@.len() by {
            assert(rc[i] == new_coding@[i]@);
            assert(c[i] == coding@[i]@);
        }
        assert forall|i: int| 0 <= i < m && !coding_lost@[i] implies #[trigger] new_coding@[i]@
            == coding@[i]@ by {
            assert(rc[i] == new_coding@[i]@);
            assert(c[i] == coding@[i]@);
        }
    }
    overwrite_lost(data, &new_data, &data_lost);
    overwrite_lost(coding, &new_coding, &coding_lost);
    Ok(())
}

} // verus!
