//! Arithmetic in the field of 2^32 elements.
//!
//! An element is a `u32` whose bit `i` is the coefficient of `x^i`. Addition is
//! exclusive or. Multiplication is polynomial multiplication over the bits modulo the
//! irreducible polynomial `x^32 + x^22 + x^2 + x + 1`.
use vstd::prelude::*;

verus! {

/// The field polynomial without its leading term `x^32`.
pub const FIELD_POLY: u32 = 0x0040_0007;

/// The product of `a` and `x`.
pub open spec fn times_x(a: u32) -> u32 {
    if a & 0x8000_0000u32 != 0 {
        (a << 1u32) ^ FIELD_POLY
    } else {
        a << 1u32
    }
}

/// The product of `a` and `b`: the sum of `a * x^i` over the bits `i` set in `b`.
pub open spec fn gf_mul(a: u32, b: u32) -> u32
    decreases b,
{
    if b == 0 {
        0
    } else {
        proof {
            assert(b != 0 ==> b >> 1u32 < b) by (bit_vector);
        }
        (if b & 1u32 == 1 {
            a
        } else {
            0
        }) ^ gf_mul(times_x(a), b >> 1u32)
    }
}

/// The quotient of `a` by a nonzero `b`: the element whose product with `b` is `a`.
pub open spec fn gf_div(a: u32, b: u32) -> u32 {
    choose|q: u32| #[trigger] gf_mul(q, b) == a
}

/// Exclusive or is an abelian group operation in which each element is its own inverse.
pub proof fn lemma_xor_laws(a: u32, b: u32, c: u32)
    ensures
        a ^ b == b ^ a,
        (a ^ b) ^ c == a ^ (b ^ c),
        a ^ 0 == a,
        0 ^ a == a,
        a ^ a == 0,
        (a ^ b) ^ b == a,
        a ^ b == 0 ==> a == b,
        a == b ==> a ^ b == 0,
{
    assert(a ^ b == b ^ a && (a ^ b) ^ c == a ^ (b ^ c) && a ^ 0 == a && 0 ^ a == a && a ^ a == 0
        && (a ^ b) ^ b == a && (a ^ b == 0 ==> a == b) && (a == b ==> a ^ b == 0)) by (bit_vector);
}

proof fn lemma_times_x_linear(a: u32, b: u32)
    ensures
        times_x(a ^ b) == times_x(a) ^ times_x(b),
        times_x(0) == 0,
        times_x(1) == 2,
{
    assert(times_x(a ^ b) == times_x(a) ^ times_x(b) && times_x(0) == 0 && times_x(1) == 2)
        by (bit_vector);
}

/// Splits an element into its lowest bit and `x` times the rest.
proof fn lemma_split_low(a: u32)
    ensures
        a == times_x(a >> 1u32) ^ (a & 1u32),
        a & 1u32 == 0 || a & 1u32 == 1,
        a != 0 ==> a >> 1u32 < a,
{
    assert(a == times_x(a >> 1u32) ^ (a & 1u32) && (a & 1u32 == 0 || a & 1u32 == 1) && (a != 0 ==> a
        >> 1u32 < a)) by (bit_vector);
}

proof fn lemma_mul_left_linear(a: u32, b: u32, c: u32)
    ensures
        gf_mul(a ^ b, c) == gf_mul(a, c) ^ gf_mul(b, c),
    decreases c,
{
    if c == 0 {
        lemma_xor_laws(0, 0, 0);
    } else {
        lemma_split_low(c);
        lemma_times_x_linear(a, b);
        lemma_mul_left_linear(times_x(a), times_x(b), c >> 1u32);
        let p: u32 = gf_mul(times_x(a), c >> 1u32);
        let q: u32 = gf_mul(times_x(b), c >> 1u32);
        assert((a ^ b) ^ (p ^ q) == (a ^ p) ^ (b ^ q)) by (bit_vector);
        assert(0u32 ^ (p ^ q) == (0u32 ^ p) ^ (0u32 ^ q)) by (bit_vector);
    }
}

proof fn lemma_mul_times_x(a: u32, b: u32)
    ensures
        gf_mul(times_x(a), b) == times_x(gf_mul(a, b)),
    decreases b,
{
    lemma_times_x_linear(0, 0);
    if b != 0 {
        lemma_split_low(b);
        let low: u32 = if b & 1u32 == 1 {
            a
        } else {
            0
        };
        lemma_mul_times_x(times_x(a), b >> 1u32);
        lemma_times_x_linear(low, gf_mul(times_x(a), b >> 1u32));
    }
}

/// Multiplication by the lowest bit and by the rest of the left factor.
proof fn lemma_mul_step(a: u32, b: u32)
    ensures
        gf_mul(a, b) == (if b & 1u32 == 1 {
            a
        } else {
            0
        }) ^ times_x(gf_mul(a, b >> 1u32)),
{
    lemma_mul_times_x(a, b >> 1u32);
    if b == 0 {
        assert(0u32 >> 1u32 == 0 && 0u32 & 1u32 == 0 && 0u32 ^ 0u32 == 0) by (bit_vector);
        lemma_times_x_linear(0, 0);
    }
}

proof fn lemma_mul_one_left(a: u32)
    ensures
        gf_mul(1, a) == a,
    decreases a,
{
    if a != 0 {
        lemma_mul_step(1, a);
        lemma_split_low(a);
        lemma_mul_one_left(a >> 1u32);
        lemma_xor_laws(a & 1u32, times_x(a >> 1u32), 0);
    }
}

proof fn lemma_mul_zero_left(a: u32)
    ensures
        gf_mul(0, a) == 0,
    decreases a,
{
    if a != 0 {
        lemma_mul_step(0, a);
        lemma_split_low(a);
        lemma_mul_zero_left(a >> 1u32);
        lemma_times_x_linear(0, 0);
        lemma_xor_laws(0, 0, 0);
    }
}

/// Multiplication is commutative.
pub proof fn lemma_mul_commutes(a: u32, b: u32)
    ensures
        gf_mul(a, b) == gf_mul(b, a),
    decreases b,
{
    if b == 0 {
        lemma_mul_zero_left(a);
    } else {
        lemma_split_low(b);
        lemma_mul_step(a, b);
        lemma_mul_commutes(a, b >> 1u32);
        lemma_mul_left_linear(times_x(b >> 1u32), b & 1u32, a);
        lemma_mul_times_x(b >> 1u32, a);
        lemma_mul_one_left(a);
        lemma_mul_zero_left(a);
        lemma_xor_laws(gf_mul(b & 1u32, a), times_x(gf_mul(b >> 1u32, a)), 0);
    }
}

/// Multiplication distributes over addition on both sides.
pub proof fn lemma_mul_distributes(a: u32, b: u32, c: u32)
    ensures
        gf_mul(a, b ^ c) == gf_mul(a, b) ^ gf_mul(a, c),
        gf_mul(b ^ c, a) == gf_mul(b, a) ^ gf_mul(c, a),
{
    lemma_mul_left_linear(b, c, a);
    lemma_mul_commutes(a, b ^ c);
    lemma_mul_commutes(a, b);
    lemma_mul_commutes(a, c);
}

/// Multiplication is associative.
pub proof fn lemma_mul_associates(a: u32, b: u32, c: u32)
    ensures
        gf_mul(gf_mul(a, b), c) == gf_mul(a, gf_mul(b, c)),
    decreases c,
{
    if c == 0 {
    } else {
        lemma_split_low(c);
        lemma_mul_step(gf_mul(a, b), c);
        lemma_mul_step(b, c);
        let low: u32 = if c & 1u32 == 1 {
            b
        } else {
            0
        };
        let rest: u32 = gf_mul(b, c >> 1u32);
        lemma_mul_distributes(a, low, times_x(rest));
        lemma_mul_commutes(a, times_x(rest));
        lemma_mul_times_x(rest, a);
        lemma_mul_commutes(rest, a);
        lemma_mul_associates(a, b, c >> 1u32);
    }
}

/// One is neutral and zero absorbs.
pub proof fn lemma_mul_units(a: u32)
    ensures
        gf_mul(1, a) == a,
        gf_mul(a, 1) == a,
        gf_mul(0, a) == 0,
        gf_mul(a, 0) == 0,
{
    lemma_mul_one_left(a);
    lemma_mul_zero_left(a);
    lemma_mul_commutes(1, a);
}

/// Multiplication by `x` doubles, and takes off the field polynomial on overflow. With this,
/// the units, associativity and distributivity, all products are determined.
pub proof fn lemma_mul_by_x(a: u32)
    ensures
        a < 0x8000_0000 ==> gf_mul(2, a) == 2 * a,
        a >= 0x8000_0000 ==> gf_mul(2, a) == ((2 * a - 0x1_0000_0000) as u32) ^ 0x0040_0007,
{
    lemma_times_x_linear(0, 0);
    lemma_mul_times_x(1, a);
    lemma_mul_units(a);
    assert((a < 0x8000_0000 ==> times_x(a) == 2 * a) && (a >= 0x8000_0000 ==> times_x(a) == ((2 * a
        - 0x1_0000_0000) as u32) ^ 0x0040_0007)) by (bit_vector);
}

/// The low 64 bits of a product reduced once: each term `x^(32 + i)` becomes
/// `x^i * (x^22 + x^2 + x + 1)`.
spec fn fold_once(s: u64) -> u64 {
    let h: u64 = s >> 32u64;
    (s & 0xffff_ffffu64) ^ h ^ (h << 1u64) ^ (h << 2u64) ^ (h << 22u64)
}

/// The bits of `a` moved from position `i` to position `2 * i`.
spec fn spread(a: u32) -> u64 {
    let s0: u64 = a as u64;
    let s1: u64 = (s0 | (s0 << 16u64)) & 0x0000_ffff_0000_ffffu64;
    let s2: u64 = (s1 | (s1 << 8u64)) & 0x00ff_00ff_00ff_00ffu64;
    let s3: u64 = (s2 | (s2 << 4u64)) & 0x0f0f_0f0f_0f0f_0f0fu64;
    let s4: u64 = (s3 | (s3 << 2u64)) & 0x3333_3333_3333_3333u64;
    (s4 | (s4 << 1u64)) & 0x5555_5555_5555_5555u64
}

/// The square of `a`, by spreading its bits and reducing.
spec fn square_bits(a: u32) -> u32 {
    fold_once(fold_once(fold_once(fold_once(spread(a))))) as u32
}

proof fn lemma_square_bits(a: u32)
    ensures
        gf_mul(a, a) == square_bits(a),
    decreases a,
{
    assert(square_bits(a) == times_x(times_x(square_bits(a >> 1u32))) ^ (a & 1u32)) by (bit_vector);
    assert(square_bits(0) == 0) by (bit_vector);
    if a != 0 {
        lemma_split_low(a);
        lemma_square_bits(a >> 1u32);
        let b: u32 = a >> 1u32;
        let t: u32 = times_x(b);
        let l: u32 = a & 1u32;
        // (t + l)^2 = t^2 + l^2, since the two cross terms are equal
        lemma_square_adds(t, l);
        lemma_mul_times_x(b, t);
        lemma_mul_commutes(b, t);
        lemma_mul_times_x(b, b);
        lemma_mul_units(l);
        assert(gf_mul(l, l) == l);
    }
}

proof fn lemma_square_adds(a: u32, b: u32)
    ensures
        gf_mul(a ^ b, a ^ b) == gf_mul(a, a) ^ gf_mul(b, b),
{
    lemma_mul_distributes(a ^ b, a, b);
    lemma_mul_distributes(a, a, b);
    lemma_mul_distributes(b, a, b);
    lemma_mul_commutes(a, b);
    let (p, q, r): (u32, u32, u32) = (gf_mul(a, a), gf_mul(a, b), gf_mul(b, b));
    assert((p ^ q) ^ (q ^ r) == p ^ r) by (bit_vector);
}

proof fn lemma_square_multiplies(a: u32, b: u32)
    ensures
        gf_mul(gf_mul(a, b), gf_mul(a, b)) == gf_mul(gf_mul(a, a), gf_mul(b, b)),
{
    lemma_mul_associates(gf_mul(a, b), a, b);
    lemma_mul_commutes(gf_mul(a, b), a);
    lemma_mul_associates(a, a, b);
    lemma_mul_associates(gf_mul(a, a), b, b);
}

/// `a` squared `n` times.
spec fn frobenius(a: u32, n: nat) -> u32
    decreases n,
{
    if n == 0 {
        a
    } else {
        gf_mul(frobenius(a, (n - 1) as nat), frobenius(a, (n - 1) as nat))
    }
}

proof fn lemma_frobenius_homomorphism(a: u32, b: u32, n: nat)
    ensures
        frobenius(a ^ b, n) == frobenius(a, n) ^ frobenius(b, n),
        frobenius(gf_mul(a, b), n) == gf_mul(frobenius(a, n), frobenius(b, n)),
    decreases n,
{
    if n > 0 {
        let k: nat = (n - 1) as nat;
        lemma_frobenius_homomorphism(a, b, k);
        lemma_square_adds(frobenius(a, k), frobenius(b, k));
        lemma_square_multiplies(frobenius(a, k), frobenius(b, k));
    }
}

proof fn lemma_frobenius_bit(a: u32, n: nat)
    requires
        a == 0 || a == 1,
    ensures
        frobenius(a, n) == a,
    decreases n,
{
    if n > 0 {
        lemma_frobenius_bit(a, (n - 1) as nat);
        lemma_mul_units(a);
    }
}

/// Squaring `x` as often as the field has bits gives `x` back.
proof fn lemma_frobenius_of_x()
    ensures
        frobenius(2, 32) == 2,
{
    assert({
        &&& square_bits(0x00000002u32) == 0x00000004u32
        &&& square_bits(0x00000004u32) == 0x00000010u32
        &&& square_bits(0x00000010u32) == 0x00000100u32
        &&& square_bits(0x00000100u32) == 0x00010000u32
        &&& square_bits(0x00010000u32) == 0x00400007u32
        &&& square_bits(0x00400007u32) == 0x01007009u32
        &&& square_bits(0x01007009u32) == 0x05070181u32
        &&& square_bits(0x05070181u32) == 0x15765dadu32
        &&& square_bits(0x15765dadu32) == 0x4627f291u32
        &&& square_bits(0x4627f291u32) == 0x2034416au32
        &&& square_bits(0x2034416au32) == 0x58460ef3u32
        &&& square_bits(0x58460ef3u32) == 0x37899219u32
        &&& square_bits(0x37899219u32) == 0x0a681b81u32
        &&& square_bits(0x0a681b81u32) == 0x50d95ac6u32
        &&& square_bits(0x50d95ac6u32) == 0x771821cfu32
        &&& square_bits(0x771821cfu32) == 0x3b308ae2u32
        &&& square_bits(0x3b308ae2u32) == 0x5fd9f86fu32
        &&& square_bits(0x5fd9f86fu32) == 0x63f70f55u32
        &&& square_bits(0x63f70f55u32) == 0x2c54ba11u32
        &&& square_bits(0x2c54ba11u32) == 0x0cb31bb6u32
        &&& square_bits(0x0cb31bb6u32) == 0x44b4f263u32
        &&& square_bits(0x44b4f263u32) == 0x2569d405u32
        &&& square_bits(0x2569d405u32) == 0x5c2071cau32
        &&& square_bits(0x5c2071cau32) == 0x26ace728u32
        &&& square_bits(0x26ace728u32) == 0x087fc340u32
        &&& square_bits(0x087fc340u32) == 0x04c50aacu32
        &&& square_bits(0x04c50aacu32) == 0x0135e84cu32
        &&& square_bits(0x0135e84cu32) == 0x00470ae0u32
        &&& square_bits(0x00470ae0u32) == 0x04042477u32
        &&& square_bits(0x04042477u32) == 0x00200962u32
        &&& square_bits(0x00200962u32) == 0x00010803u32
        &&& square_bits(0x00010803u32) == 0x00000002u32
    }) by (bit_vector);
    assert(frobenius(2, 0) == 2);
    lemma_square_bits(0x00000002);
    lemma_square_bits(0x00000004);
    lemma_square_bits(0x00000010);
    lemma_square_bits(0x00000100);
    lemma_square_bits(0x00010000);
    lemma_square_bits(0x00400007);
    lemma_square_bits(0x01007009);
    lemma_square_bits(0x05070181);
    lemma_square_bits(0x15765dad);
    lemma_square_bits(0x4627f291);
    lemma_square_bits(0x2034416a);
    lemma_square_bits(0x58460ef3);
    lemma_square_bits(0x37899219);
    lemma_square_bits(0x0a681b81);
    lemma_square_bits(0x50d95ac6);
    lemma_square_bits(0x771821cf);
    lemma_square_bits(0x3b308ae2);
    lemma_square_bits(0x5fd9f86f);
    lemma_square_bits(0x63f70f55);
    lemma_square_bits(0x2c54ba11);
    lemma_square_bits(0x0cb31bb6);
    lemma_square_bits(0x44b4f263);
    lemma_square_bits(0x2569d405);
    lemma_square_bits(0x5c2071ca);
    lemma_square_bits(0x26ace728);
    lemma_square_bits(0x087fc340);
    lemma_square_bits(0x04c50aac);
    lemma_square_bits(0x0135e84c);
    lemma_square_bits(0x00470ae0);
    lemma_square_bits(0x04042477);
    lemma_square_bits(0x00200962);
    lemma_square_bits(0x00010803);
    assert(frobenius(2, 1) == 0x00000004u32);
    assert(frobenius(2, 2) == 0x00000010u32);
    assert(frobenius(2, 3) == 0x00000100u32);
    assert(frobenius(2, 4) == 0x00010000u32);
    assert(frobenius(2, 5) == 0x00400007u32);
    assert(frobenius(2, 6) == 0x01007009u32);
    assert(frobenius(2, 7) == 0x05070181u32);
    assert(frobenius(2, 8) == 0x15765dadu32);
    assert(frobenius(2, 9) == 0x4627f291u32);
    assert(frobenius(2, 10) == 0x2034416au32);
    assert(frobenius(2, 11) == 0x58460ef3u32);
    assert(frobenius(2, 12) == 0x37899219u32);
    assert(frobenius(2, 13) == 0x0a681b81u32);
    assert(frobenius(2, 14) == 0x50d95ac6u32);
    assert(frobenius(2, 15) == 0x771821cfu32);
    assert(frobenius(2, 16) == 0x3b308ae2u32);
    assert(frobenius(2, 17) == 0x5fd9f86fu32);
    assert(frobenius(2, 18) == 0x63f70f55u32);
    assert(frobenius(2, 19) == 0x2c54ba11u32);
    assert(frobenius(2, 20) == 0x0cb31bb6u32);
    assert(frobenius(2, 21) == 0x44b4f263u32);
    assert(frobenius(2, 22) == 0x2569d405u32);
    assert(frobenius(2, 23) == 0x5c2071cau32);
    assert(frobenius(2, 24) == 0x26ace728u32);
    assert(frobenius(2, 25) == 0x087fc340u32);
    assert(frobenius(2, 26) == 0x04c50aacu32);
    assert(frobenius(2, 27) == 0x0135e84cu32);
    assert(frobenius(2, 28) == 0x00470ae0u32);
    assert(frobenius(2, 29) == 0x04042477u32);
    assert(frobenius(2, 30) == 0x00200962u32);
    assert(frobenius(2, 31) == 0x00010803u32);
    assert(frobenius(2, 32) == 0x00000002u32);
}

/// Squaring any element as often as the field has bits gives the element back.
proof fn lemma_frobenius_order(a: u32)
    ensures
        frobenius(a, 32) == a,
    decreases a,
{
    lemma_split_low(a);
    if a == 0 {
        lemma_frobenius_bit(0, 32);
    } else {
        let b: u32 = a >> 1u32;
        lemma_frobenius_order(b);
        lemma_frobenius_of_x();
        lemma_frobenius_bit(a & 1u32, 32);
        lemma_times_x_linear(0, 0);
        lemma_mul_times_x(1, b);
        lemma_mul_units(b);
        assert(times_x(b) == gf_mul(2, b));
        lemma_frobenius_homomorphism(2, b, 32);
        lemma_frobenius_homomorphism(times_x(b), a & 1u32, 32);
    }
}

/// The only elements equal to their square are zero and one.
proof fn lemma_idempotent(e: u32)
    requires
        gf_mul(e, e) == e,
    ensures
        e == 0 || e == 1,
{
    lemma_square_bits(e);
    assert(square_bits(e) == e ==> e == 0 || e == 1) by (bit_vector);
}

/// The product of `frobenius(a, i)` over `lo <= i < hi`.
spec fn frobenius_product(a: u32, lo: nat, hi: nat) -> u32
    decreases hi,
{
    if hi <= lo {
        1
    } else {
        gf_mul(frobenius_product(a, lo, (hi - 1) as nat), frobenius(a, (hi - 1) as nat))
    }
}

proof fn lemma_product_shift(a: u32, n: nat)
    ensures
        gf_mul(a, frobenius_product(a, 1, n + 1)) == frobenius_product(a, 0, n + 1),
        gf_mul(frobenius_product(a, 0, n), frobenius_product(a, 0, n)) == frobenius_product(a, 1, n + 1),
        gf_mul(frobenius_product(a, 0, n), a) == frobenius(a, n),
    decreases n,
{
    lemma_mul_units(a);
    lemma_mul_units(1);
    if n == 0 {
        assert(frobenius_product(a, 0, 0) == 1);
        assert(frobenius_product(a, 1, 1) == 1);
        assert(frobenius_product(a, 0, 1) == gf_mul(1, frobenius(a, 0)));
    } else {
        let k: nat = (n - 1) as nat;
        lemma_product_shift(a, k);
        let f: u32 = frobenius(a, n);
        let g: u32 = frobenius(a, k);
        let p: u32 = frobenius_product(a, 0, k);
        assert(frobenius_product(a, 1, n + 1) == gf_mul(frobenius_product(a, 1, n), f));
        assert(frobenius_product(a, 0, n + 1) == gf_mul(frobenius_product(a, 0, n), f));
        lemma_mul_associates(a, frobenius_product(a, 1, n), f);
        assert(frobenius_product(a, 0, n) == gf_mul(p, g));
        lemma_square_multiplies(p, g);
        assert(f == gf_mul(g, g));
        lemma_mul_associates(p, g, a);
        lemma_mul_commutes(g, a);
        lemma_mul_associates(p, a, g);
    }
}

/// The product of the 1st to the 31st repeated squares of a nonzero element is its inverse.
proof fn lemma_inverse_product(a: u32)
    requires
        a != 0,
    ensures
        gf_mul(a, frobenius_product(a, 1, 32)) == 1,
{
    let e: u32 = frobenius_product(a, 0, 32);
    lemma_product_shift(a, 31);
    lemma_product_shift(a, 32);
    lemma_frobenius_order(a);
    assert(frobenius_product(a, 1, 33) == gf_mul(frobenius_product(a, 1, 32), frobenius(a, 32)));
    lemma_mul_commutes(a, frobenius_product(a, 1, 32));
    assert(gf_mul(e, e) == e);
    lemma_idempotent(e);
    lemma_mul_units(a);
}

/// A nonzero element divides every element, with one quotient.
pub proof fn lemma_div(a: u32, b: u32)
    requires
        b != 0,
    ensures
        gf_mul(gf_div(a, b), b) == a,
        forall|q: u32| #[trigger] gf_mul(q, b) == a ==> q == gf_div(a, b),
{
    let i: u32 = frobenius_product(b, 1, 32);
    lemma_inverse_product(b);
    lemma_mul_commutes(b, i);
    lemma_mul_associates(a, i, b);
    lemma_mul_units(a);
    assert(gf_mul(gf_mul(a, i), b) == a);
    assert forall|q: u32| #[trigger] gf_mul(q, b) == a implies q == gf_div(a, b) by {
        lemma_mul_cancels(q, gf_div(a, b), b);
    }
}

/// Multiplication by a nonzero element is injective.
pub proof fn lemma_mul_cancels(p: u32, q: u32, b: u32)
    requires
        b != 0,
        gf_mul(p, b) == gf_mul(q, b),
    ensures
        p == q,
{
    let i: u32 = frobenius_product(b, 1, 32);
    lemma_inverse_product(b);
    lemma_mul_associates(p, b, i);
    lemma_mul_associates(q, b, i);
    lemma_mul_units(p);
    lemma_mul_units(q);
}

/// Returns the product of `a` and `b`.
pub fn multiply(a: u32, b: u32) -> (product: u32)
    ensures
        product == gf_mul(a, b),
{
    let mut product: u32 = 0;
    let mut shifted: u32 = a;
    let mut rest: u32 = b;
    proof {
        lemma_xor_laws(gf_mul(a, b), 0, 0);
    }
    while rest != 0
        invariant
            product ^ gf_mul(shifted, rest) == gf_mul(a, b),
        decreases rest,
    {
        proof {
            lemma_split_low(rest);
            lemma_xor_laws(product, shifted, gf_mul(times_x(shifted), rest >> 1u32));
            lemma_xor_laws(gf_mul(times_x(shifted), rest >> 1u32), 0, 0);
        }
        if rest & 1 == 1 {
            product = product ^ shifted;
        }
        shifted = if shifted & 0x8000_0000 != 0 {
            (shifted << 1) ^ FIELD_POLY
        } else {
            shifted << 1
        };
        rest = rest >> 1;
    }
    proof {
        lemma_xor_laws(product, 0, 0);
    }
    product
}

/// Returns the quotient of `a` by `b`.
pub fn divide(a: u32, b: u32) -> (quotient: u32)
    requires
        b != 0,
    ensures
        quotient == gf_div(a, b),
        gf_mul(quotient, b) == a,
{
    let mut power: u32 = b;
    let mut inverse: u32 = 1;
    let mut i: u32 = 1;
    while i < 32
        invariant
            1 <= i <= 32,
            power == frobenius(b, (i - 1) as nat),
            inverse == frobenius_product(b, 1, i as nat),
        decreases 32 - i,
    {
        power = multiply(power, power);
        inverse = multiply(inverse, power);
        i = i + 1;
    }
    proof {
        lemma_inverse_product(b);
        lemma_mul_commutes(b, inverse);
        lemma_mul_associates(a, inverse, b);
        lemma_mul_units(a);
        lemma_div(a, b);
    }
    multiply(a, inverse)
}

} // verus!
