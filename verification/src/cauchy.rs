//! Linear systems whose matrix is a Cauchy matrix over the field of 2^32 elements.
//!
//! The matrix for the row points `xs` and the column points `ys` has the entry
//! `1 / (xs[i] + ys[j])` in row `i` and column `j`. When no point occurs twice, every
//! square system of this kind has exactly one solution.
use vstd::prelude::*;

use crate::galois::{
    divide, gf_div, gf_mul, lemma_div, lemma_mul_associates, lemma_mul_cancels, lemma_mul_commutes,
    lemma_mul_distributes, lemma_mul_units, lemma_xor_laws, multiply,
};

verus! {

/// The product of the row for the point `x` and the column vector `d`: the sum of
/// `d[j] / (x + ys[j])`.
pub open spec fn cauchy_row(x: u32, ys: Seq<u32>, d: Seq<u32>) -> u32
    decreases ys.len(),
{
    if ys.len() == 0 {
        0
    } else {
        cauchy_row(x, ys.drop_last(), d.drop_last()) ^ gf_div(d.last(), x ^ ys.last())
    }
}

/// No point occurs twice, neither among the rows, nor among the columns, nor in both.
pub open spec fn distinct_points(xs: Seq<u32>, ys: Seq<u32>) -> bool {
    &&& forall|i: int, j: int| 0 <= i < j < xs.len() ==> xs[i] != xs[j]
    &&& forall|i: int, j: int| 0 <= i < j < ys.len() ==> ys[i] != ys[j]
    &&& forall|i: int, j: int| 0 <= i < xs.len() && 0 <= j < ys.len() ==> xs[i] != ys[j]
}

/// `d` solves the system with the right-hand side `rhs`.
pub open spec fn solves(xs: Seq<u32>, ys: Seq<u32>, d: Seq<u32>, rhs: Seq<u32>) -> bool {
    forall|i: int| 0 <= i < xs.len() ==> cauchy_row(#[trigger] xs[i], ys, d) == rhs[i]
}

/// `(a * b) * c == (a * c) * b`.
proof fn lemma_mul_swap(a: u32, b: u32, c: u32)
    ensures
        gf_mul(gf_mul(a, b), c) == gf_mul(gf_mul(a, c), b),
{
    lemma_mul_associates(a, b, c);
    lemma_mul_commutes(b, c);
    lemma_mul_associates(a, c, b);
}

/// Division is multiplication by the reciprocal.
pub proof fn lemma_reciprocal(a: u32, b: u32)
    requires
        b != 0,
    ensures
        gf_mul(gf_div(1, b), a) == gf_div(a, b),
{
    lemma_div(1, b);
    lemma_div(a, b);
    lemma_mul_swap(gf_div(1, b), a, b);
    lemma_mul_units(a);
}

/// Division distributes over addition and commutes with scaling.
proof fn lemma_div_linear(a: u32, b: u32, s: u32, c: u32)
    requires
        c != 0,
    ensures
        gf_div(a ^ b, c) == gf_div(a, c) ^ gf_div(b, c),
        gf_div(gf_mul(s, a), c) == gf_mul(s, gf_div(a, c)),
        gf_div(0, c) == 0,
{
    lemma_div(a, c);
    lemma_div(b, c);
    lemma_div(a ^ b, c);
    lemma_mul_distributes(c, gf_div(a, c), gf_div(b, c));
    lemma_div(gf_mul(s, a), c);
    lemma_mul_associates(s, gf_div(a, c), c);
    lemma_div(0, c);
    lemma_mul_units(c);
}

/// The identity behind the elimination of one row and one column.
///
/// With the row points `x` and `x0` and the column points `y` and `y0`,
/// `(x + y0) * d / (x + y) + (x0 + y0) * d / (x0 + y)` equals
/// `(x + x0) * ((y + y0) * d / (x0 + y)) / (x + y)`.
proof fn lemma_eliminate_term(x: u32, x0: u32, y: u32, y0: u32, d: u32)
    requires
        x ^ y != 0,
        x0 ^ y != 0,
    ensures
        gf_mul(x ^ y0, gf_div(d, x ^ y)) ^ gf_mul(x0 ^ y0, gf_div(d, x0 ^ y)) == gf_mul(
            x ^ x0,
            gf_div(gf_div(gf_mul(y ^ y0, d), x0 ^ y), x ^ y),
        ),
{
    let (a, b, c, e, f, g): (u32, u32, u32, u32, u32, u32) = (
        x ^ y0,
        x0 ^ y,
        x0 ^ y0,
        x ^ y,
        x ^ x0,
        y ^ y0,
    );
    let u: u32 = gf_div(d, e);
    let v: u32 = gf_div(d, b);
    let w: u32 = gf_div(gf_mul(g, d), b);
    let z: u32 = gf_div(w, e);
    lemma_div(d, e);
    lemma_div(d, b);
    lemma_div(gf_mul(g, d), b);
    lemma_div(w, e);
    // a * b + c * e == f * g
    assert(gf_mul(a, b) ^ gf_mul(c, e) == gf_mul(f, g)) by {
        lemma_mul_distributes(b, x, y0);
        lemma_mul_distributes(x, x0, y);
        lemma_mul_distributes(y0, x0, y);
        lemma_mul_distributes(e, x0, y0);
        lemma_mul_distributes(x0, x, y);
        lemma_mul_distributes(y0, x, y);
        lemma_mul_distributes(g, x, x0);
        lemma_mul_distributes(x, y, y0);
        lemma_mul_distributes(x0, y, y0);
        lemma_mul_commutes(x, x0);
        lemma_mul_commutes(x, y0);
        lemma_mul_commutes(x0, y0);
        let xx0: u32 = gf_mul(x, x0);
        let xy: u32 = gf_mul(x, y);
        let y0x0: u32 = gf_mul(y0, x0);
        let y0y: u32 = gf_mul(y0, y);
        let x0y: u32 = gf_mul(x0, y);
        let y0x: u32 = gf_mul(y0, x);
        assert(gf_mul(a, b) == (xx0 ^ xy) ^ (y0x0 ^ y0y));
        assert(gf_mul(c, e) == (xx0 ^ x0y) ^ (y0x ^ y0y));
        assert(gf_mul(f, g) == (xy ^ y0x) ^ (x0y ^ y0x0));
        assert(((xx0 ^ xy) ^ (y0x0 ^ y0y)) ^ ((xx0 ^ x0y) ^ (y0x ^ y0y)) == (xy ^ y0x) ^ (x0y
            ^ y0x0)) by (bit_vector);
    }
    let p: u32 = gf_mul(a, u);
    let q: u32 = gf_mul(c, v);
    let r: u32 = gf_mul(f, z);
    // multiplied by e * b, both sides are (f * g) * d
    assert(gf_mul(gf_mul(p, e), b) == gf_mul(gf_mul(a, b), d)) by {
        lemma_mul_associates(a, u, e);
        lemma_mul_swap(a, d, b);
    }
    assert(gf_mul(gf_mul(q, e), b) == gf_mul(gf_mul(c, e), d)) by {
        lemma_mul_swap(q, e, b);
        lemma_mul_associates(c, v, b);
        lemma_mul_swap(c, d, e);
    }
    assert(gf_mul(gf_mul(r, e), b) == gf_mul(gf_mul(f, g), d)) by {
        lemma_mul_associates(f, z, e);
        lemma_mul_associates(f, w, b);
        lemma_mul_associates(f, g, d);
    }
    lemma_mul_distributes(e, p, q);
    lemma_mul_distributes(b, gf_mul(p, e), gf_mul(q, e));
    lemma_mul_distributes(d, gf_mul(a, b), gf_mul(c, e));
    lemma_mul_cancels(gf_mul(p ^ q, e), gf_mul(r, e), b);
    lemma_mul_cancels(p ^ q, r, e);
}

/// The unknowns of the reduced system after the row point `x0` and the column point `y0`
/// are eliminated.
spec fn reduced(x0: u32, y0: u32, ys: Seq<u32>, d: Seq<u32>) -> Seq<u32> {
    Seq::new(ys.len(), |j: int| gf_div(gf_mul(ys[j] ^ y0, d[j]), x0 ^ ys[j]))
}

proof fn lemma_eliminate_prefix(x: u32, x0: u32, y0: u32, ys: Seq<u32>, d: Seq<u32>)
    requires
        d.len() == ys.len(),
        forall|j: int| 0 <= j < ys.len() ==> x != #[trigger] ys[j] && x0 != ys[j],
    ensures
        gf_mul(x ^ y0, cauchy_row(x, ys, d)) ^ gf_mul(x0 ^ y0, cauchy_row(x0, ys, d)) == gf_mul(
            x ^ x0,
            cauchy_row(x, ys, reduced(x0, y0, ys, d)),
        ),
    decreases ys.len(),
{
    lemma_mul_units(x ^ y0);
    lemma_mul_units(x0 ^ y0);
    lemma_mul_units(x ^ x0);
    lemma_xor_laws(0, 0, 0);
    if ys.len() > 0 {
        let (ys1, d1): (Seq<u32>, Seq<u32>) = (ys.drop_last(), d.drop_last());
        let y: u32 = ys.last();
        let e: Seq<u32> = reduced(x0, y0, ys, d);
        assert forall|j: int| 0 <= j < ys1.len() implies x != #[trigger] ys1[j] && x0 != ys1[j] by {
            assert(ys1[j] == ys[j]);
        }
        lemma_eliminate_prefix(x, x0, y0, ys1, d1);
        assert(e.drop_last() =~= reduced(x0, y0, ys1, d1));
        lemma_xor_laws(x, y, 0);
        lemma_xor_laws(x0, y, 0);
        lemma_eliminate_term(x, x0, y, y0, d.last());
        let p: u32 = cauchy_row(x, ys1, d1);
        let q: u32 = cauchy_row(x0, ys1, d1);
        let r: u32 = cauchy_row(x, ys1, e.drop_last());
        lemma_mul_distributes(x ^ y0, p, gf_div(d.last(), x ^ y));
        lemma_mul_distributes(x0 ^ y0, q, gf_div(d.last(), x0 ^ y));
        lemma_mul_distributes(x ^ x0, r, gf_div(e.last(), x ^ y));
        let (a, b): (u32, u32) = (gf_mul(x ^ y0, p), gf_mul(x0 ^ y0, q));
        let (c, f): (u32, u32) = (
            gf_mul(x ^ y0, gf_div(d.last(), x ^ y)),
            gf_mul(x0 ^ y0, gf_div(d.last(), x0 ^ y)),
        );
        assert((a ^ c) ^ (b ^ f) == (a ^ b) ^ (c ^ f)) by (bit_vector);
    }
}

/// Eliminating the last row and the last column of a square system leaves the system of
/// the remaining points.
proof fn lemma_eliminate(x: u32, x0: u32, ys: Seq<u32>, d: Seq<u32>)
    requires
        ys.len() > 0,
        d.len() == ys.len(),
        forall|j: int| 0 <= j < ys.len() ==> x != #[trigger] ys[j] && x0 != ys[j],
    ensures
        gf_mul(x ^ ys.last(), cauchy_row(x, ys, d)) ^ gf_mul(x0 ^ ys.last(), cauchy_row(x0, ys, d))
            == gf_mul(
            x ^ x0,
            cauchy_row(
                x,
                ys.drop_last(),
                reduced(x0, ys.last(), ys.drop_last(), d.drop_last()),
            ),
        ),
{
    let (ys1, d1): (Seq<u32>, Seq<u32>) = (ys.drop_last(), d.drop_last());
    let y0: u32 = ys.last();
    let last: u32 = d.last();
    assert forall|j: int| 0 <= j < ys1.len() implies x != #[trigger] ys1[j] && x0 != ys1[j] by {
        assert(ys1[j] == ys[j]);
    }
    lemma_eliminate_prefix(x, x0, y0, ys1, d1);
    let p: u32 = cauchy_row(x, ys1, d1);
    let q: u32 = cauchy_row(x0, ys1, d1);
    lemma_xor_laws(x, y0, 0);
    lemma_xor_laws(x0, y0, 0);
    lemma_div(last, x ^ y0);
    lemma_div(last, x0 ^ y0);
    lemma_mul_commutes(gf_div(last, x ^ y0), x ^ y0);
    lemma_mul_commutes(gf_div(last, x0 ^ y0), x0 ^ y0);
    lemma_mul_distributes(x ^ y0, p, gf_div(last, x ^ y0));
    lemma_mul_distributes(x0 ^ y0, q, gf_div(last, x0 ^ y0));
    let (a, b): (u32, u32) = (gf_mul(x ^ y0, p), gf_mul(x0 ^ y0, q));
    assert((a ^ last) ^ (b ^ last) == a ^ b) by (bit_vector);
}

proof fn lemma_distinct_prefix(xs: Seq<u32>, ys: Seq<u32>)
    requires
        distinct_points(xs, ys),
        xs.len() > 0,
        ys.len() > 0,
    ensures
        distinct_points(xs.drop_last(), ys.drop_last()),
        forall|i: int, j: int|
            0 <= i < xs.len() && 0 <= j < ys.len() ==> #[trigger] xs[i] ^ #[trigger] ys[j] != 0,
        forall|i: int| 0 <= i < xs.len() - 1 ==> #[trigger] xs[i] ^ xs.last() != 0,
        forall|j: int| 0 <= j < ys.len() - 1 ==> #[trigger] ys[j] ^ ys.last() != 0,
{
    assert forall|i: int, j: int| 0 <= i < xs.len() && 0 <= j < ys.len() implies #[trigger] xs[i]
        ^ #[trigger] ys[j] != 0 by {
        lemma_xor_laws(xs[i], ys[j], 0);
    }
    assert forall|i: int| 0 <= i < xs.len() - 1 implies #[trigger] xs[i] ^ xs.last() != 0 by {
        lemma_xor_laws(xs[i], xs.last(), 0);
    }
    assert forall|j: int| 0 <= j < ys.len() - 1 implies #[trigger] ys[j] ^ ys.last() != 0 by {
        lemma_xor_laws(ys[j], ys.last(), 0);
    }
}

/// A square Cauchy system with distinct points has at most one solution.
pub proof fn lemma_solution_unique(xs: Seq<u32>, ys: Seq<u32>, d: Seq<u32>, e: Seq<u32>)
    requires
        distinct_points(xs, ys),
        xs.len() == ys.len(),
        d.len() == ys.len(),
        e.len() == ys.len(),
        forall|i: int|
            0 <= i < xs.len() ==> cauchy_row(#[trigger] xs[i], ys, d) == cauchy_row(xs[i], ys, e),
    ensures
        d == e,
    decreases ys.len(),
{
    if ys.len() == 0 {
        assert(d =~= e);
    } else {
        lemma_distinct_prefix(xs, ys);
        let (xs1, ys1): (Seq<u32>, Seq<u32>) = (xs.drop_last(), ys.drop_last());
        let (d1, e1): (Seq<u32>, Seq<u32>) = (d.drop_last(), e.drop_last());
        let (x0, y0): (u32, u32) = (xs.last(), ys.last());
        let rd: Seq<u32> = reduced(x0, y0, ys1, d1);
        let re: Seq<u32> = reduced(x0, y0, ys1, e1);
        assert forall|i: int| 0 <= i < xs1.len() implies cauchy_row(#[trigger] xs1[i], ys1, rd)
            == cauchy_row(xs1[i], ys1, re) by {
            let x: u32 = xs[i];
            lemma_eliminate(x, x0, ys, d);
            lemma_eliminate(x, x0, ys, e);
            assert(cauchy_row(xs[i], ys, d) == cauchy_row(xs[i], ys, e));
            lemma_mul_commutes(x ^ x0, cauchy_row(x, ys1, rd));
            lemma_mul_commutes(x ^ x0, cauchy_row(x, ys1, re));
            lemma_mul_cancels(cauchy_row(x, ys1, rd), cauchy_row(x, ys1, re), x ^ x0);
        }
        lemma_solution_unique(xs1, ys1, rd, re);
        assert forall|j: int| 0 <= j < ys1.len() implies d[j] == e[j] by {
            let y: u32 = ys[j];
            assert(ys1[j] == y);
            assert(xs[xs.len() - 1] ^ ys[j] != 0);
            assert(rd[j] == re[j]);
            lemma_div(gf_mul(y ^ y0, d[j]), x0 ^ y);
            lemma_div(gf_mul(y ^ y0, e[j]), x0 ^ y);
            lemma_mul_commutes(y ^ y0, d[j]);
            lemma_mul_commutes(y ^ y0, e[j]);
            lemma_mul_cancels(d[j], e[j], y ^ y0);
        }
        assert(d1 =~= e1);
        assert(x0 ^ y0 != 0) by {
            assert(xs[xs.len() - 1] ^ ys[ys.len() - 1] != 0);
        }
        let p: u32 = cauchy_row(x0, ys1, d1);
        let (u, v): (u32, u32) = (gf_div(d.last(), x0 ^ y0), gf_div(e.last(), x0 ^ y0));
        assert(cauchy_row(xs[xs.len() - 1], ys, d) == cauchy_row(xs[xs.len() - 1], ys, e));
        assert(p ^ u == p ^ v ==> u == v) by (bit_vector);
        lemma_div(d.last(), x0 ^ y0);
        lemma_div(e.last(), x0 ^ y0);
        assert(d =~= d1.push(d.last()));
        assert(e =~= e1.push(e.last()));
    }
}

/// A row is a linear map: it commutes with adding a multiple of one vector to another.
pub proof fn lemma_row_linear(x: u32, ys: Seq<u32>, d: Seq<u32>, s: u32, e: Seq<u32>, sum: Seq<u32>)
    requires
        d.len() == ys.len(),
        e.len() == ys.len(),
        sum.len() == ys.len(),
        forall|j: int| 0 <= j < ys.len() ==> x != #[trigger] ys[j],
        forall|j: int| 0 <= j < ys.len() ==> #[trigger] sum[j] == d[j] ^ gf_mul(s, e[j]),
    ensures
        cauchy_row(x, ys, sum) == cauchy_row(x, ys, d) ^ gf_mul(s, cauchy_row(x, ys, e)),
    decreases ys.len(),
{
    lemma_mul_units(s);
    lemma_xor_laws(0, 0, 0);
    if ys.len() > 0 {
        let ys1: Seq<u32> = ys.drop_last();
        let c: u32 = x ^ ys.last();
        lemma_xor_laws(x, ys.last(), 0);
        assert forall|j: int| 0 <= j < ys1.len() implies x != #[trigger] ys1[j] by {
            assert(ys1[j] == ys[j]);
        }
        lemma_row_linear(x, ys1, d.drop_last(), s, e.drop_last(), sum.drop_last());
        let (p, q): (u32, u32) = (cauchy_row(x, ys1, d.drop_last()), cauchy_row(x, ys1, e.drop_last()));
        let (u, v): (u32, u32) = (gf_div(d.last(), c), gf_div(e.last(), c));
        lemma_div_linear(d.last(), gf_mul(s, e.last()), s, c);
        lemma_div_linear(e.last(), 0, s, c);
        lemma_mul_distributes(s, q, v);
        let (sq, sv): (u32, u32) = (gf_mul(s, q), gf_mul(s, v));
        assert((p ^ sq) ^ (u ^ sv) == (p ^ u) ^ (sq ^ sv)) by (bit_vector);
    }
}

/// A row maps the zero vector to zero.
pub proof fn lemma_row_of_zeros(x: u32, ys: Seq<u32>, d: Seq<u32>)
    requires
        d.len() == ys.len(),
        forall|j: int| 0 <= j < ys.len() ==> x != #[trigger] ys[j],
        forall|j: int| 0 <= j < ys.len() ==> #[trigger] d[j] == 0,
    ensures
        cauchy_row(x, ys, d) == 0,
    decreases ys.len(),
{
    if ys.len() > 0 {
        let ys1: Seq<u32> = ys.drop_last();
        assert forall|j: int| 0 <= j < ys1.len() implies x != #[trigger] ys1[j] by {
            assert(ys1[j] == ys[j]);
        }
        lemma_row_of_zeros(x, ys1, d.drop_last());
        lemma_xor_laws(x, ys.last(), 0);
        lemma_div_linear(0, 0, 0, x ^ ys.last());
        lemma_xor_laws(0, 0, 0);
    }
}

/// A row maps a vector with a single entry to the quotient of the entry by the sum of the
/// points of row and column. With linearity, this determines the row.
pub proof fn lemma_row_of_single(x: u32, ys: Seq<u32>, d: Seq<u32>, j: int)
    requires
        d.len() == ys.len(),
        0 <= j < ys.len(),
        forall|l: int| 0 <= l < ys.len() ==> x != #[trigger] ys[l],
        forall|l: int| 0 <= l < ys.len() && l != j ==> #[trigger] d[l] == 0,
    ensures
        gf_mul(cauchy_row(x, ys, d), x ^ ys[j]) == d[j],
    decreases ys.len(),
{
    let last: int = ys.len() - 1;
    let ys1: Seq<u32> = ys.drop_last();
    let d1: Seq<u32> = d.drop_last();
    assert forall|l: int| 0 <= l < last implies x != #[trigger] ys1[l] by {
        assert(ys1[l] == ys[l]);
    }
    lemma_xor_laws(x, ys[last], 0);
    if j == last {
        assert forall|l: int| 0 <= l < last implies #[trigger] d1[l] == 0 by {
            assert(d1[l] == d[l]);
        }
        lemma_row_of_zeros(x, ys1, d1);
        lemma_div(d[last], x ^ ys[last]);
        lemma_xor_laws(gf_div(d[last], x ^ ys[last]), 0, 0);
    } else {
        assert forall|l: int| 0 <= l < last && l != j implies #[trigger] d1[l] == 0 by {
            assert(d1[l] == d[l]);
        }
        lemma_row_of_single(x, ys1, d1, j);
        lemma_div(0, x ^ ys[last]);
        lemma_mul_units(x ^ ys[last]);
        assert(d[last] == 0);
        assert(gf_div(0, x ^ ys[last]) == 0);
        lemma_xor_laws(cauchy_row(x, ys1, d1), 0, 0);
    }
}

/// What it is to have distinct points and to solve a system, point by point.
pub proof fn lemma_system(xs: Seq<u32>, ys: Seq<u32>, d: Seq<u32>, rhs: Seq<u32>)
    ensures
        distinct_points(xs, ys) <==> xs.no_duplicates() && ys.no_duplicates() && forall|x: u32| !(
        #[trigger] xs.contains(x) && ys.contains(x)),
        solves(xs, ys, d, rhs) <==> forall|i: int|
            0 <= i < xs.len() ==> cauchy_row(#[trigger] xs[i], ys, d) == rhs[i],
{
    if distinct_points(xs, ys) {
        assert(xs.no_duplicates());
        assert(ys.no_duplicates());
        assert forall|x: u32| !(#[trigger] xs.contains(x) && ys.contains(x)) by {
            if xs.contains(x) && ys.contains(x) {
                let i: int = choose|i: int| 0 <= i < xs.len() && xs[i] == x;
                let j: int = choose|j: int| 0 <= j < ys.len() && ys[j] == x;
                assert(xs[i] != ys[j]);
            }
        }
    }
    if xs.no_duplicates() && ys.no_duplicates() && forall|x: u32| !(#[trigger] xs.contains(x)
        && ys.contains(x)) {
        assert forall|i: int, j: int| 0 <= i < xs.len() && 0 <= j < ys.len() implies xs[i]
            != ys[j] by {
            assert(xs.contains(xs[i]));
            if xs[i] == ys[j] {
                assert(ys.contains(xs[i]));
            }
        }
    }
}

/// A solution `e` of the system without the last row and column gives a solution `d` of the
/// whole system.
proof fn lemma_back_substitute(
    xs: Seq<u32>,
    ys: Seq<u32>,
    rhs: Seq<u32>,
    rest: Seq<u32>,
    e: Seq<u32>,
    d: Seq<u32>,
)
    requires
        distinct_points(xs, ys),
        0 < xs.len(),
        xs.len() == ys.len(),
        xs.len() <= rhs.len(),
        xs.len() - 1 == rest.len(),
        xs.len() - 1 == e.len(),
        xs.len() == d.len(),
        forall|k: int|
            0 <= k < rest.len() ==> #[trigger] rest[k] == gf_div(
                gf_mul(xs[k] ^ ys.last(), rhs[k]) ^ gf_mul(
                    xs.last() ^ ys.last(),
                    rhs[xs.len() - 1],
                ),
                xs[k] ^ xs.last(),
            ),
        solves(xs.drop_last(), ys.drop_last(), e, rest),
        forall|k: int|
            0 <= k < e.len() ==> #[trigger] d[k] == gf_div(
                gf_mul(e[k], xs.last() ^ ys[k]),
                ys[k] ^ ys.last(),
            ),
        d.last() == gf_mul(
            rhs[xs.len() - 1] ^ cauchy_row(xs.last(), ys.drop_last(), d.drop_last()),
            xs.last() ^ ys.last(),
        ),
    ensures
        solves(xs, ys, d, rhs),
{
    let last: int = xs.len() - 1;
    let (x0, y0): (u32, u32) = (xs.last(), ys.last());
    let s0: u32 = rhs[last];
    let d1: Seq<u32> = d.drop_last();
    let ys1: Seq<u32> = ys.drop_last();
    let scaled: u32 = gf_mul(x0 ^ y0, s0);
    let partial: u32 = cauchy_row(x0, ys1, d1);
    lemma_distinct_prefix(xs, ys);
    assert(x0 ^ y0 != 0) by {
        assert(xs[last] ^ ys[last] != 0);
    }
    // the eliminated row
    lemma_div(d.last(), x0 ^ y0);
    assert(gf_div(d.last(), x0 ^ y0) == s0 ^ partial);
    assert(partial ^ (s0 ^ partial) == s0) by (bit_vector);
    // the reduced unknowns are the solution of the reduced system
    assert(reduced(x0, y0, ys1, d1) =~= e) by {
        assert forall|k: int| 0 <= k < last implies #[trigger] reduced(x0, y0, ys1, d1)[k]
            == e[k] by {
            let y: u32 = ys[k];
            assert(ys1[k] == y && d1[k] == d[k]);
            assert(xs[last] ^ ys[k] != 0);
            assert(ys[k] ^ ys.last() != 0);
            lemma_div(gf_mul(e[k], x0 ^ y), y ^ y0);
            lemma_mul_commutes(y ^ y0, d1[k]);
            lemma_div(gf_mul(y ^ y0, d1[k]), x0 ^ y);
        }
    }
    assert forall|k: int| 0 <= k < xs.len() implies cauchy_row(#[trigger] xs[k], ys, d) == rhs[k] by {
        if k < last {
            let x: u32 = xs[k];
            assert forall|l: int| 0 <= l < ys.len() implies x != #[trigger] ys[l] && x0 != ys[l] by {
                assert(xs[k] != ys[l]);
                assert(xs[last] != ys[l]);
            }
            lemma_eliminate(x, x0, ys, d);
            assert(xs.drop_last()[k] == x);
            assert(cauchy_row(xs.drop_last()[k], ys1, e) == rest[k]);
            let t: u32 = gf_mul(x ^ y0, rhs[k]);
            let r: u32 = gf_mul(x ^ y0, cauchy_row(x, ys, d));
            assert(xs[k] ^ xs.last() != 0);
            lemma_div(t ^ scaled, x ^ x0);
            lemma_mul_commutes(rest[k], x ^ x0);
            assert(r ^ scaled == t ^ scaled);
            assert(r ^ scaled == t ^ scaled ==> r == t) by (bit_vector);
            assert(xs[k] ^ ys[last] != 0);
            lemma_mul_commutes(x ^ y0, rhs[k]);
            lemma_mul_commutes(x ^ y0, cauchy_row(x, ys, d));
            lemma_mul_cancels(cauchy_row(x, ys, d), rhs[k], x ^ y0);
        }
    }
}

/// A square system of distinct points has a solution for every right-hand side.
pub proof fn lemma_solution_exists(xs: Seq<u32>, ys: Seq<u32>, rhs: Seq<u32>) -> (d: Seq<u32>)
    requires
        distinct_points(xs, ys),
        xs.len() == ys.len(),
        xs.len() <= rhs.len(),
    ensures
        d.len() == ys.len(),
        solves(xs, ys, d, rhs),
    decreases ys.len(),
{
    if ys.len() == 0 {
        Seq::empty()
    } else {
        lemma_distinct_prefix(xs, ys);
        let last: int = xs.len() - 1;
        let (x0, y0): (u32, u32) = (xs.last(), ys.last());
        let rest: Seq<u32> = Seq::new(
            last as nat,
            |k: int|
                gf_div(
                    gf_mul(xs[k] ^ y0, rhs[k]) ^ gf_mul(x0 ^ y0, rhs[last]),
                    xs[k] ^ x0,
                ),
        );
        let e: Seq<u32> = lemma_solution_exists(xs.drop_last(), ys.drop_last(), rest);
        let d1: Seq<u32> = Seq::new(
            last as nat,
            |k: int| gf_div(gf_mul(e[k], x0 ^ ys[k]), ys[k] ^ y0),
        );
        let d: Seq<u32> = d1.push(
            gf_mul(rhs[last] ^ cauchy_row(x0, ys.drop_last(), d1), x0 ^ y0),
        );
        assert(d.drop_last() =~= d1);
        lemma_back_substitute(xs, ys, rhs, rest, e, d);
        d
    }
}

/// Returns the product of the row for `x` and the first `n` entries of `d`.
fn row_product(x: u32, ys: &Vec<u32>, d: &Vec<u32>, n: usize) -> (sum: u32)
    requires
        n <= ys.len(),
        n <= d.len(),
        forall|j: int| 0 <= j < n ==> x != #[trigger] ys@[j],
    ensures
        sum == cauchy_row(x, ys@.take(n as int), d@.take(n as int)),
{
    let mut sum: u32 = 0;
    let mut j: usize = 0;
    while j < n
        invariant
            j <= n <= ys.len(),
            n <= d.len(),
            forall|k: int| 0 <= k < n ==> x != #[trigger] ys@[k],
            sum == cauchy_row(x, ys@.take(j as int), d@.take(j as int)),
        decreases n - j,
    {
        proof {
            lemma_xor_laws(x, ys@[j as int], 0);
            assert(ys@.take(j + 1).drop_last() =~= ys@.take(j as int));
            assert(d@.take(j + 1).drop_last() =~= d@.take(j as int));
        }
        sum = sum ^ divide(d[j], x ^ ys[j]);
        j = j + 1;
    }
    sum
}

/// Returns the solution of the square system of the first `n` row and column points.
///
/// One row and one column are eliminated, the remaining system of the same kind is
/// solved, and the eliminated unknown follows from its row.
pub fn solve(xs: &Vec<u32>, ys: &Vec<u32>, rhs: &Vec<u32>, n: usize) -> (d: Vec<u32>)
    requires
        n <= xs.len(),
        n <= ys.len(),
        n <= rhs.len(),
        distinct_points(xs@.take(n as int), ys@.take(n as int)),
    ensures
        d.len() == n,
        solves(xs@.take(n as int), ys@.take(n as int), d@, rhs@),
    decreases n,
{
    if n == 0 {
        return Vec::new();
    }
    let last: usize = n - 1;
    let ghost gx: Seq<u32> = xs@.take(n as int);
    let ghost gy: Seq<u32> = ys@.take(n as int);
    proof {
        lemma_distinct_prefix(gx, gy);
        assert(gx.drop_last() =~= xs@.take(last as int));
        assert(gy.drop_last() =~= ys@.take(last as int));
        assert forall|i: int, j: int| 0 <= i < n && 0 <= j < n implies #[trigger] xs@[i]
            != #[trigger] ys@[j] && xs@[i] ^ ys@[j] != 0 by {
            assert(gx[i] == xs@[i] && gy[j] == ys@[j]);
        }
        assert forall|i: int| 0 <= i < last implies #[trigger] xs@[i] ^ xs@[last as int] != 0 by {
            assert(gx[i] ^ gx.last() != 0);
        }
        assert forall|i: int| 0 <= i < last implies #[trigger] ys@[i] ^ ys@[last as int] != 0 by {
            assert(gy[i] ^ gy.last() != 0);
        }
    }
    let x0: u32 = xs[last];
    let y0: u32 = ys[last];
    let s0: u32 = rhs[last];
    let scaled: u32 = multiply(x0 ^ y0, s0);
    let mut rest: Vec<u32> = Vec::with_capacity(last);
    let mut i: usize = 0;
    while i < last
        invariant
            i <= last < n <= xs.len(),
            n <= rhs.len(),
            x0 == xs@[last as int],
            rest.len() == i,
            forall|k: int| 0 <= k < last ==> #[trigger] xs@[k] ^ x0 != 0,
            forall|k: int|
                0 <= k < i ==> #[trigger] rest@[k] == gf_div(
                    gf_mul(xs@[k] ^ y0, rhs@[k]) ^ scaled,
                    xs@[k] ^ x0,
                ),
        decreases last - i,
    {
        rest.push(divide(multiply(xs[i] ^ y0, rhs[i]) ^ scaled, xs[i] ^ x0));
        i = i + 1;
    }
    let e: Vec<u32> = solve(xs, ys, &rest, last);
    let mut d: Vec<u32> = Vec::with_capacity(n);
    let mut j: usize = 0;
    while j < last
        invariant
            j <= last < n <= ys.len(),
            e.len() == last,
            d.len() == j,
            y0 == ys@[last as int],
            forall|k: int| 0 <= k < last ==> #[trigger] ys@[k] ^ y0 != 0,
            forall|k: int|
                0 <= k < j ==> #[trigger] d@[k] == gf_div(
                    gf_mul(e@[k], x0 ^ ys@[k]),
                    ys@[k] ^ y0,
                ),
        decreases last - j,
    {
        d.push(divide(multiply(e[j], x0 ^ ys[j]), ys[j] ^ y0));
        j = j + 1;
    }
    proof {
        assert forall|k: int| 0 <= k < last implies x0 != #[trigger] ys@[k] by {
            assert(xs@[last as int] != ys@[k]);
        }
    }
    let partial: u32 = row_product(x0, ys, &d, last);
    let ghost d1: Seq<u32> = d@;
    d.push(multiply(s0 ^ partial, x0 ^ y0));
    proof {
        assert(d@.drop_last() =~= d1);
        assert(d1.take(last as int) =~= d1);
        assert forall|k: int| 0 <= k < last implies #[trigger] d@[k] == gf_div(
            gf_mul(e@[k], x0 ^ gy[k]),
            gy[k] ^ y0,
        ) by {
            assert(d1[k] == d@[k] && gy[k] == ys@[k]);
        }
        lemma_back_substitute(gx, gy, rhs@, rest@, e@, d@);
    }
    d
}

} // verus!
