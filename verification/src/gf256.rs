//! Arithmetic in the finite field GF(2^8) with the reduction polynomial
//! x^8 + x^4 + x^3 + x + 1 (0x11b): addition is XOR, multiplication is
//! carry-less multiplication reduced by that polynomial.

use vstd::prelude::*;
use vstd::relations::injective_on;
use vstd::set_lib::{lemma_int_range, lemma_map_size, lemma_subset_equality, set_int_range};

verus! {

/// Multiplication by x: a left shift, reduced by 0x1b when the top bit falls out.
pub open spec fn xtime(a: u8) -> u8 {
    if a & 0x80u8 != 0 {
        ((a << 1u8) ^ 0x1bu8) as u8
    } else {
        (a << 1u8) as u8
    }
}

/// `a` if the low bit of `b` is set, else zero.
pub open spec fn select(b: u8, a: u8) -> u8 {
    if b & 1u8 != 0 {
        a
    } else {
        0u8
    }
}

/// The sum of x^i * a over the lowest `k` bits i set in `b`.
pub open spec fn mul_bits(a: u8, b: u8, k: nat) -> u8
    decreases k,
{
    if k == 0 {
        0u8
    } else {
        select(b, a) ^ mul_bits(xtime(a), b >> 1u8, (k - 1) as nat)
    }
}

/// The field product.
pub open spec fn field_mul(a: u8, b: u8) -> u8 {
    mul_bits(a, b, 8)
}

/// Term `i` of the carry-less product: `a` shifted left by `i` when bit `i` of `b` is set.
pub open spec fn clmul_term(a: u8, b: u8, i: u16) -> u16 {
    if ((b as u16) >> i) & 1u16 == 1u16 {
        (a as u16) << i
    } else {
        0u16
    }
}

/// The product of `a` and `b` as polynomials over GF(2) (bit `i` the coefficient of x^i):
/// the XOR of `a` shifted by each bit position set in `b`.
pub open spec fn clmul(a: u8, b: u8) -> u16 {
    clmul_term(a, b, 0) ^ clmul_term(a, b, 1) ^ clmul_term(a, b, 2) ^ clmul_term(a, b, 3)
        ^ clmul_term(a, b, 4) ^ clmul_term(a, b, 5) ^ clmul_term(a, b, 6) ^ clmul_term(a, b, 7)
}

/// Clears bit `k` (at least 8) of a polynomial by adding 0x11b times x^(k - 8) when it is set.
pub open spec fn reduce_at(p: u16, k: u16, shift: u16) -> u16 {
    if (p >> k) & 1u16 == 1u16 {
        p ^ (0x11bu16 << shift)
    } else {
        p
    }
}

/// The remainder of a polynomial of degree below 15 modulo x^8 + x^4 + x^3 + x + 1.
pub open spec fn poly_mod(p: u16) -> u8 {
    reduce_at(
        reduce_at(
            reduce_at(
                reduce_at(reduce_at(reduce_at(reduce_at(p, 14, 6), 13, 5), 12, 4), 11, 3),
                10,
                2,
            ),
            9,
            1,
        ),
        8,
        0,
    ) as u8
}

/// The multiplicative inverse of a non-zero element.
pub open spec fn field_inv(a: u8) -> u8 {
    choose|b: u8| field_mul(a, b) == 1u8
}

/// XOR on bytes is an abelian group with zero as identity, each element its own inverse;
/// and the shifts and masks that the multiplication needs, on the constants it meets.
pub proof fn lemma_xor_laws()
    ensures
        forall|a: u8| #[trigger] (a ^ 0u8) == a,
        forall|a: u8| #[trigger] (0u8 ^ a) == a,
        forall|a: u8| #[trigger] (a ^ a) == 0u8,
        forall|a: u8, b: u8| #[trigger] (a ^ b) == b ^ a,
        forall|a: u8, b: u8, c: u8| #[trigger] ((a ^ b) ^ c) == a ^ (b ^ c),
        forall|a: u8, b: u8| (a ^ b) == 0u8 ==> a == b,
        forall|a: u8, b: u8| #[trigger] ((a ^ b) >> 1u8) == (a >> 1u8) ^ (b >> 1u8),
        forall|a: u8, b: u8| #[trigger] ((a ^ b) & 1u8) != 0u8 <==> ((a & 1u8 != 0u8) != (b & 1u8 != 0u8)),
        (0u8 >> 1u8) == 0u8,
        (0u8 & 1u8) == 0u8,
{
    assert(forall|a: u8| #[trigger] (a ^ 0u8) == a) by (bit_vector);
    assert(forall|a: u8| #[trigger] (0u8 ^ a) == a) by (bit_vector);
    assert(forall|a: u8| #[trigger] (a ^ a) == 0u8) by (bit_vector);
    assert(forall|a: u8, b: u8| #[trigger] (a ^ b) == b ^ a) by (bit_vector);
    assert(forall|a: u8, b: u8, c: u8| #[trigger] ((a ^ b) ^ c) == a ^ (b ^ c)) by (bit_vector);
    assert(forall|a: u8, b: u8| (a ^ b) == 0u8 ==> a == b) by (bit_vector);
    assert(forall|a: u8, b: u8| #[trigger] ((a ^ b) >> 1u8) == (a >> 1u8) ^ (b >> 1u8))
        by (bit_vector);
    assert(forall|a: u8, b: u8| #[trigger] ((a ^ b) & 1u8) != 0u8 <==> ((a & 1u8 != 0u8) != (b
        & 1u8 != 0u8))) by (bit_vector);
    assert((0u8 >> 1u8) == 0u8) by (bit_vector);
    assert((0u8 & 1u8) == 0u8) by (bit_vector);
}

/// XOR facts on two given bytes.
pub proof fn lemma_xor_pair(a: u8, b: u8)
    by (bit_vector)
    ensures
        a ^ 0u8 == a,
        0u8 ^ a == a,
        a ^ a == 0u8,
        a ^ b == b ^ a,
        (a ^ b) ^ b == a,
        (a ^ b == a) ==> b == 0u8,
{
}

/// Multiplication by x is additive, and maps zero to zero.
pub proof fn lemma_xtime_linear()
    ensures
        forall|a: u8, c: u8| #[trigger] xtime(a ^ c) == xtime(a) ^ xtime(c),
        xtime(0u8) == 0u8,
{
    assert(forall|a: u8, c: u8| #[trigger] xtime(a ^ c) == xtime(a) ^ xtime(c)) by (bit_vector);
    assert(xtime(0u8) == 0u8) by (bit_vector);
}

/// Zero times anything is zero.
pub proof fn lemma_mul_bits_zero_left(b: u8, k: nat)
    ensures
        mul_bits(0u8, b, k) == 0u8,
    decreases k,
{
    lemma_xor_laws();
    lemma_xtime_linear();
    if k > 0 {
        lemma_mul_bits_zero_left(b >> 1u8, (k - 1) as nat);
    }
}

/// Anything times zero is zero.
pub proof fn lemma_mul_bits_zero_right(a: u8, k: nat)
    ensures
        mul_bits(a, 0u8, k) == 0u8,
    decreases k,
{
    lemma_xor_laws();
    if k > 0 {
        lemma_mul_bits_zero_right(xtime(a), (k - 1) as nat);
    }
}

/// Multiplication distributes over addition in its first argument.
pub proof fn lemma_mul_bits_add_left(a: u8, c: u8, b: u8, k: nat)
    ensures
        mul_bits(a ^ c, b, k) == mul_bits(a, b, k) ^ mul_bits(c, b, k),
    decreases k,
{
    lemma_xor_laws();
    lemma_xtime_linear();
    if k > 0 {
        let k1 = (k - 1) as nat;
        lemma_mul_bits_add_left(xtime(a), xtime(c), b >> 1u8, k1);
        let ma = mul_bits(xtime(a), b >> 1u8, k1);
        let mc = mul_bits(xtime(c), b >> 1u8, k1);
        assert(select(b, a ^ c) == select(b, a) ^ select(b, c));
        assert((select(b, a) ^ select(b, c)) ^ (ma ^ mc) == (select(b, a) ^ ma) ^ (select(b, c)
            ^ mc)) by {
            assert((select(b, a) ^ select(b, c)) ^ (ma ^ mc) == select(b, a) ^ (select(b, c) ^ (ma
                ^ mc)));
            assert(select(b, c) ^ (ma ^ mc) == (select(b, c) ^ ma) ^ mc);
            assert(select(b, c) ^ ma == ma ^ select(b, c));
            assert((ma ^ select(b, c)) ^ mc == ma ^ (select(b, c) ^ mc));
            assert(select(b, a) ^ (ma ^ (select(b, c) ^ mc)) == (select(b, a) ^ ma) ^ (select(
                b,
                c,
            ) ^ mc));
        }
    }
}

/// Multiplying the first factor by x multiplies the product by x.
pub proof fn lemma_mul_bits_xtime(a: u8, c: u8, k: nat)
    ensures
        mul_bits(xtime(a), c, k) == xtime(mul_bits(a, c, k)),
    decreases k,
{
    lemma_xor_laws();
    lemma_xtime_linear();
    if k > 0 {
        lemma_mul_bits_xtime(xtime(a), c >> 1u8, (k - 1) as nat);
        assert(xtime(select(c, a)) == select(c, xtime(a)));
    }
}

/// field_mul(a * b, c) == (a * c) * b, unrolled over the bits of b.
proof fn lemma_mul_bits_swap(a: u8, b: u8, c: u8, k: nat)
    ensures
        field_mul(mul_bits(a, b, k), c) == mul_bits(field_mul(a, c), b, k),
    decreases k,
{
    lemma_xor_laws();
    if k == 0 {
        lemma_mul_bits_zero_left(c, 8);
    } else {
        let k1 = (k - 1) as nat;
        let rest = mul_bits(xtime(a), b >> 1u8, k1);
        lemma_mul_bits_add_left(select(b, a), rest, c, 8);
        lemma_mul_bits_swap(xtime(a), b >> 1u8, c, k1);
        lemma_mul_bits_xtime(a, c, 8);
        lemma_mul_bits_zero_left(c, 8);
        assert(field_mul(select(b, a), c) == select(b, field_mul(a, c)));
    }
}

/// One is the identity of multiplication.
pub proof fn lemma_mul_one_left(b: u8)
    ensures
        field_mul(1u8, b) == b,
{
    reveal_with_fuel(mul_bits, 9);
    let b1 = b >> 1u8;
    let b2 = b1 >> 1u8;
    let b3 = b2 >> 1u8;
    let b4 = b3 >> 1u8;
    let b5 = b4 >> 1u8;
    let b6 = b5 >> 1u8;
    let b7 = b6 >> 1u8;
    let b8 = b7 >> 1u8;
    assert(xtime(1u8) == 2u8 && xtime(2u8) == 4u8 && xtime(4u8) == 8u8 && xtime(8u8) == 16u8
        && xtime(16u8) == 32u8 && xtime(32u8) == 64u8 && xtime(64u8) == 128u8) by (bit_vector);
    assert(select(b, 1u8) ^ (select(b1, 2u8) ^ (select(b2, 4u8) ^ (select(b3, 8u8) ^ (select(
        b4,
        16u8,
    ) ^ (select(b5, 32u8) ^ (select(b6, 64u8) ^ (select(b7, 128u8) ^ 0u8))))))) == b)
        by (bit_vector)
        requires
            b1 == b >> 1u8,
            b2 == b1 >> 1u8,
            b3 == b2 >> 1u8,
            b4 == b3 >> 1u8,
            b5 == b4 >> 1u8,
            b6 == b5 >> 1u8,
            b7 == b6 >> 1u8,
    ;
}

/// Reduction modulo x^8 + x^4 + x^3 + x + 1 is additive.
proof fn lemma_poly_mod_additive(x: u16, y: u16)
    ensures
        poly_mod(x ^ y) == poly_mod(x) ^ poly_mod(y),
{
    assert(forall|p: u16, q: u16, k: u16, t: u16| #[trigger] reduce_at(p ^ q, k, t) == reduce_at(p, k, t) ^ reduce_at(q, k, t)) by (bit_vector);
    assert(forall|p: u16, q: u16| #[trigger] ((p ^ q) as u8) == (p as u8) ^ (q as u8)) by (bit_vector);
}

/// The field product is the product of the two bytes as polynomials over GF(2), reduced
/// modulo x^8 + x^4 + x^3 + x + 1.
pub proof fn lemma_field_mul_is_polynomial_product(a: u8, b: u8)
    ensures
        field_mul(a, b) == poly_mod(clmul(a, b)),
{
    reveal_with_fuel(mul_bits, 9);
    let b1 = b >> 1u8;
    let b2 = b1 >> 1u8;
    let b3 = b2 >> 1u8;
    let b4 = b3 >> 1u8;
    let b5 = b4 >> 1u8;
    let b6 = b5 >> 1u8;
    let b7 = b6 >> 1u8;
    let a1 = xtime(a);
    let a2 = xtime(a1);
    let a3 = xtime(a2);
    let a4 = xtime(a3);
    let a5 = xtime(a4);
    let a6 = xtime(a5);
    let a7 = xtime(a6);
    assert(poly_mod(clmul_term(a, b, 0)) == select(b, a)) by (bit_vector)
        requires
            b1 == b >> 1u8,
            b2 == b1 >> 1u8,
            b3 == b2 >> 1u8,
            b4 == b3 >> 1u8,
            b5 == b4 >> 1u8,
            b6 == b5 >> 1u8,
            b7 == b6 >> 1u8,
            a1 == xtime(a),
            a2 == xtime(a1),
            a3 == xtime(a2),
            a4 == xtime(a3),
            a5 == xtime(a4),
            a6 == xtime(a5),
            a7 == xtime(a6),
    ;
    assert(poly_mod(clmul_term(a, b, 1)) == select(b1, a1)) by (bit_vector)
        requires
            b1 == b >> 1u8,
            b2 == b1 >> 1u8,
            b3 == b2 >> 1u8,
            b4 == b3 >> 1u8,
            b5 == b4 >> 1u8,
            b6 == b5 >> 1u8,
            b7 == b6 >> 1u8,
            a1 == xtime(a),
            a2 == xtime(a1),
            a3 == xtime(a2),
            a4 == xtime(a3),
            a5 == xtime(a4),
            a6 == xtime(a5),
            a7 == xtime(a6),
    ;
    assert(poly_mod(clmul_term(a, b, 2)) == select(b2, a2)) by (bit_vector)
        requires
            b1 == b >> 1u8,
            b2 == b1 >> 1u8,
            b3 == b2 >> 1u8,
            b4 == b3 >> 1u8,
            b5 == b4 >> 1u8,
            b6 == b5 >> 1u8,
            b7 == b6 >> 1u8,
            a1 == xtime(a),
            a2 == xtime(a1),
            a3 == xtime(a2),
            a4 == xtime(a3),
            a5 == xtime(a4),
            a6 == xtime(a5),
            a7 == xtime(a6),
    ;
    assert(poly_mod(clmul_term(a, b, 3)) == select(b3, a3)) by (bit_vector)
        requires
            b1 == b >> 1u8,
            b2 == b1 >> 1u8,
            b3 == b2 >> 1u8,
            b4 == b3 >> 1u8,
            b5 == b4 >> 1u8,
            b6 == b5 >> 1u8,
            b7 == b6 >> 1u8,
            a1 == xtime(a),
            a2 == xtime(a1),
            a3 == xtime(a2),
            a4 == xtime(a3),
            a5 == xtime(a4),
            a6 == xtime(a5),
            a7 == xtime(a6),
    ;
    assert(poly_mod(clmul_term(a, b, 4)) == select(b4, a4)) by (bit_vector)
        requires
            b1 == b >> 1u8,
            b2 == b1 >> 1u8,
            b3 == b2 >> 1u8,
            b4 == b3 >> 1u8,
            b5 == b4 >> 1u8,
            b6 == b5 >> 1u8,
            b7 == b6 >> 1u8,
            a1 == xtime(a),
            a2 == xtime(a1),
            a3 == xtime(a2),
            a4 == xtime(a3),
            a5 == xtime(a4),
            a6 == xtime(a5),
            a7 == xtime(a6),
    ;
    assert(poly_mod(clmul_term(a, b, 5)) == select(b5, a5)) by (bit_vector)
        requires
            b1 == b >> 1u8,
            b2 == b1 >> 1u8,
            b3 == b2 >> 1u8,
            b4 == b3 >> 1u8,
            b5 == b4 >> 1u8,
            b6 == b5 >> 1u8,
            b7 == b6 >> 1u8,
            a1 == xtime(a),
            a2 == xtime(a1),
            a3 == xtime(a2),
            a4 == xtime(a3),
            a5 == xtime(a4),
            a6 == xtime(a5),
            a7 == xtime(a6),
    ;
    assert(poly_mod(clmul_term(a, b, 6)) == select(b6, a6)) by (bit_vector)
        requires
            b1 == b >> 1u8,
            b2 == b1 >> 1u8,
            b3 == b2 >> 1u8,
            b4 == b3 >> 1u8,
            b5 == b4 >> 1u8,
            b6 == b5 >> 1u8,
            b7 == b6 >> 1u8,
            a1 == xtime(a),
            a2 == xtime(a1),
            a3 == xtime(a2),
            a4 == xtime(a3),
            a5 == xtime(a4),
            a6 == xtime(a5),
            a7 == xtime(a6),
    ;
    assert(poly_mod(clmul_term(a, b, 7)) == select(b7, a7)) by (bit_vector)
        requires
            b1 == b >> 1u8,
            b2 == b1 >> 1u8,
            b3 == b2 >> 1u8,
            b4 == b3 >> 1u8,
            b5 == b4 >> 1u8,
            b6 == b5 >> 1u8,
            b7 == b6 >> 1u8,
            a1 == xtime(a),
            a2 == xtime(a1),
            a3 == xtime(a2),
            a4 == xtime(a3),
            a5 == xtime(a4),
            a6 == xtime(a5),
            a7 == xtime(a6),
    ;
    let t0 = clmul_term(a, b, 0);
    let t1 = clmul_term(a, b, 1);
    let t2 = clmul_term(a, b, 2);
    let t3 = clmul_term(a, b, 3);
    let t4 = clmul_term(a, b, 4);
    let t5 = clmul_term(a, b, 5);
    let t6 = clmul_term(a, b, 6);
    let t7 = clmul_term(a, b, 7);
    lemma_poly_mod_additive(t0 ^ t1 ^ t2 ^ t3 ^ t4 ^ t5 ^ t6, t7);
    lemma_poly_mod_additive(t0 ^ t1 ^ t2 ^ t3 ^ t4 ^ t5, t6);
    lemma_poly_mod_additive(t0 ^ t1 ^ t2 ^ t3 ^ t4, t5);
    lemma_poly_mod_additive(t0 ^ t1 ^ t2 ^ t3, t4);
    lemma_poly_mod_additive(t0 ^ t1 ^ t2, t3);
    lemma_poly_mod_additive(t0 ^ t1, t2);
    lemma_poly_mod_additive(t0, t1);
    let s0 = select(b, a);
    let s1 = select(b1, a1);
    let s2 = select(b2, a2);
    let s3 = select(b3, a3);
    let s4 = select(b4, a4);
    let s5 = select(b5, a5);
    let s6 = select(b6, a6);
    let s7 = select(b7, a7);
    assert(s0 ^ (s1 ^ (s2 ^ (s3 ^ (s4 ^ (s5 ^ (s6 ^ (s7 ^ 0u8))))))) == s0 ^ s1 ^ s2 ^ s3 ^ s4
        ^ s5 ^ s6 ^ s7) by (bit_vector);
}

/// Multiplication is commutative.
pub proof fn lemma_mul_commutative(a: u8, b: u8)
    ensures
        field_mul(a, b) == field_mul(b, a),
{
    lemma_mul_bits_swap(1u8, a, b, 8);
    lemma_mul_one_left(a);
    lemma_mul_one_left(b);
}

/// Multiplication is associative.
pub proof fn lemma_mul_associative(a: u8, b: u8, c: u8)
    ensures
        field_mul(field_mul(a, b), c) == field_mul(a, field_mul(b, c)),
{
    lemma_mul_commutative(a, field_mul(b, c));
    lemma_mul_bits_swap(b, c, a, 8);
    lemma_mul_commutative(b, a);
    lemma_mul_bits_swap(a, b, c, 8);
    lemma_mul_bits_swap(a, c, b, 8);
    lemma_mul_commutative(b, c);
    lemma_mul_bits_swap(a, c, b, 8);
}

/// Multiplication distributes over addition in its second argument.
pub proof fn lemma_mul_add_right(a: u8, b: u8, c: u8)
    ensures
        field_mul(a, b ^ c) == field_mul(a, b) ^ field_mul(a, c),
{
    lemma_mul_commutative(a, b ^ c);
    lemma_mul_bits_add_left(b, c, a, 8);
    lemma_mul_commutative(b, a);
    lemma_mul_commutative(c, a);
}

/// Multiplication distributes over addition in its first argument.
pub proof fn lemma_mul_add_left(a: u8, b: u8, c: u8)
    ensures
        field_mul(a ^ b, c) == field_mul(a, c) ^ field_mul(b, c),
{
    lemma_mul_bits_add_left(a, b, c, 8);
}

/// Zero annihilates.
pub proof fn lemma_mul_zero(a: u8)
    ensures
        field_mul(a, 0u8) == 0u8,
        field_mul(0u8, a) == 0u8,
{
    lemma_mul_bits_zero_right(a, 8);
    lemma_mul_bits_zero_left(a, 8);
}

/// The product of two non-zero elements is non-zero: the reduction polynomial is irreducible.
pub proof fn lemma_no_zero_divisors(a: u8, b: u8)
    requires
        a != 0u8,
        b != 0u8,
    ensures
        field_mul(a, b) != 0u8,
{
    reveal_with_fuel(mul_bits, 9);
    let a1 = xtime(a);
    let a2 = xtime(a1);
    let a3 = xtime(a2);
    let a4 = xtime(a3);
    let a5 = xtime(a4);
    let a6 = xtime(a5);
    let a7 = xtime(a6);
    let b1 = b >> 1u8;
    let b2 = b1 >> 1u8;
    let b3 = b2 >> 1u8;
    let b4 = b3 >> 1u8;
    let b5 = b4 >> 1u8;
    let b6 = b5 >> 1u8;
    let b7 = b6 >> 1u8;
    assert(select(b, a) ^ (select(b1, a1) ^ (select(b2, a2) ^ (select(b3, a3) ^ (select(b4, a4)
        ^ (select(b5, a5) ^ (select(b6, a6) ^ (select(b7, a7) ^ 0u8))))))) != 0u8) by (bit_vector)
        requires
            a != 0u8,
            b != 0u8,
            a1 == xtime(a),
            a2 == xtime(a1),
            a3 == xtime(a2),
            a4 == xtime(a3),
            a5 == xtime(a4),
            a6 == xtime(a5),
            a7 == xtime(a6),
            b1 == b >> 1u8,
            b2 == b1 >> 1u8,
            b3 == b2 >> 1u8,
            b4 == b3 >> 1u8,
            b5 == b4 >> 1u8,
            b6 == b5 >> 1u8,
            b7 == b6 >> 1u8,
    ;
}

/// Multiplication by a non-zero element is injective.
pub proof fn lemma_mul_cancel(a: u8, b: u8, c: u8)
    requires
        a != 0u8,
        field_mul(a, b) == field_mul(a, c),
    ensures
        b == c,
{
    lemma_xor_laws();
    lemma_mul_add_right(a, b, c);
    if b ^ c != 0u8 {
        lemma_no_zero_divisors(a, b ^ c);
    }
}

/// Every non-zero element has an inverse, and it is unique.
pub proof fn lemma_inverse_exists(a: u8)
    requires
        a != 0u8,
    ensures
        field_mul(a, field_inv(a)) == 1u8,
        forall|b: u8| #[trigger] field_mul(a, b) == 1u8 ==> b == field_inv(a),
{
    let dom = set_int_range(0, 256);
    let f = |i: int| field_mul(a, i as u8) as int;
    lemma_int_range(0, 256);
    assert(injective_on(f, dom)) by {
        assert forall|x: int, y: int| dom.contains(x) && dom.contains(y) && #[trigger] f(x)
            == #[trigger] f(y) implies x == y by {
            lemma_mul_cancel(a, x as u8, y as u8);
        }
    }
    lemma_map_size(dom, dom.map(f), f);
    assert(dom.map(f).subset_of(dom));
    lemma_subset_equality(dom.map(f), dom);
    assert(dom.contains(1));
    assert(dom.map(f).contains(1));
    let w = choose|i: int| dom.contains(i) && f(i) == 1;
    assert(field_mul(a, w as u8) == 1u8);
    assert forall|b: u8| #[trigger] field_mul(a, b) == 1u8 implies b == field_inv(a) by {
        lemma_mul_cancel(a, b, field_inv(a));
    }
}

/// Field addition.
pub fn gf_add(a: u8, b: u8) -> (r: u8)
    ensures
        r == a ^ b,
{
    a ^ b
}

/// Field multiplication, by shift-and-add over the bits of `b`: the product of the two bytes
/// as polynomials over GF(2), reduced modulo x^8 + x^4 + x^3 + x + 1.
pub fn gf_mul(a: u8, b: u8) -> (r: u8)
    ensures
        r == field_mul(a, b),
        r == poly_mod(clmul(a, b)),
{
    proof {
        lemma_field_mul_is_polynomial_product(a, b);
    }
    let ghost a0 = a;
    let ghost b0 = b;
    let mut a = a;
    let mut b = b;
    let mut p: u8 = 0;
    proof {
        lemma_xor_laws();
    }
    let mut i: u8 = 0;
    while i < 8
        invariant
            i <= 8,
            p ^ mul_bits(a, b, (8 - i) as nat) == field_mul(a0, b0),
        decreases 8 - i,
    {
        proof {
            lemma_xor_laws();
        }
        let ghost k = (8 - i - 1) as nat;
        assert(mul_bits(a, b, (8 - i) as nat) == select(b, a) ^ mul_bits(xtime(a), b >> 1u8, k));
        if b & 1 != 0 {
            p ^= a;
        }
        let carry = a & 0x80;
        let ghost old_a = a;
        a <<= 1;
        if carry != 0 {
            a ^= 0x1b;
        }
        assert(a == xtime(old_a));
        b >>= 1;
        i += 1;
    }
    proof {
        lemma_xor_laws();
    }
    p
}

/// The first `b` from `from` up to 255 with `a * b == 1`; zero when there is none.
pub open spec fn inverse_search(a: u8, from: nat) -> u8
    decreases 256 - from,
{
    if from >= 256 {
        0u8
    } else if field_mul(a, from as u8) == 1u8 {
        from as u8
    } else {
        inverse_search(a, from + 1)
    }
}

/// The multiplicative inverse, found by search. Zero has none.
pub fn gf_inv(x: u8) -> (r: u8)
    requires
        x != 0u8,
    ensures
        field_mul(x, r) == 1u8,
        r == field_inv(x),
        r == inverse_search(x, 1),
{
    proof {
        lemma_inverse_exists(x);
        lemma_mul_zero(x);
    }
    let mut i: u16 = 1;
    while i <= 255
        invariant
            1 <= i <= 256,
            x != 0u8,
            field_mul(x, field_inv(x)) == 1u8,
            forall|j: u8| 1 <= j < i ==> #[trigger] field_mul(x, j) != 1u8,
            inverse_search(x, 1) == inverse_search(x, i as nat),
        decreases 256 - i,
    {
        let c = gf_mul(x, i as u8);
        if c == 1 {
            proof {
                lemma_inverse_exists(x);
            }
            return i as u8;
        }
        assert(inverse_search(x, i as nat) == inverse_search(x, (i + 1) as nat));
        i += 1;
    }
    proof {
        lemma_mul_zero(x);
        assert(field_mul(x, field_inv(x)) == 1u8);
    }
    assert(false);
    0
}

} // verus!
