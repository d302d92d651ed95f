//! The extension field is a commutative ring: the laws of its sum and its
//! product.

use crate::field::{lemma_reduce_add, lemma_reduce_sub, reduce, x_add, x_mul, x_sub, XWord, P};
use vstd::prelude::*;

verus! {

/// The constant coefficient of the product of `a0 + a1 x + a2 x^2` and
/// `b0 + b1 x + b2 x^2` modulo `x^3 - x + 1`, over the integers.
pub open spec fn product_c0(a0: int, a1: int, a2: int, b0: int, b1: int, b2: int) -> int {
    a0 * b0 - a2 * b1 - a1 * b2
}

/// The linear coefficient of that product.
pub open spec fn product_c1(a0: int, a1: int, a2: int, b0: int, b1: int, b2: int) -> int {
    a1 * b0 + a0 * b1 - a2 * b2 + a2 * b1 + a1 * b2
}

/// The quadratic coefficient of that product.
pub open spec fn product_c2(a0: int, a1: int, a2: int, b0: int, b1: int, b2: int) -> int {
    a2 * b0 + a1 * b1 + a0 * b2 + a2 * b2
}

/// Two integers that differ by a multiple of the prime have the same
/// residue.
pub proof fn lemma_reduce_congruent(x: int, y: int, q: int)
    requires
        x == y + q * P,
    ensures
        reduce(x) == reduce(y),
{
    vstd::arithmetic::div_mod::lemma_mod_multiples_vanish(q, y, P as int);
    assert(q * P == P * q) by (nonlinear_arith);
}

/// Over the integers, the product modulo `x^3 - x + 1` is associative.
pub proof fn lemma_product_associative(
    a0: int,
    a1: int,
    a2: int,
    b0: int,
    b1: int,
    b2: int,
    c0: int,
    c1: int,
    c2: int,
)
    ensures
        ({
            let ab0 = product_c0(a0, a1, a2, b0, b1, b2);
            let ab1 = product_c1(a0, a1, a2, b0, b1, b2);
            let ab2 = product_c2(a0, a1, a2, b0, b1, b2);
            let bc0 = product_c0(b0, b1, b2, c0, c1, c2);
            let bc1 = product_c1(b0, b1, b2, c0, c1, c2);
            let bc2 = product_c2(b0, b1, b2, c0, c1, c2);
            &&& product_c0(ab0, ab1, ab2, c0, c1, c2) == product_c0(a0, a1, a2, bc0, bc1, bc2)
            &&& product_c1(ab0, ab1, ab2, c0, c1, c2) == product_c1(a0, a1, a2, bc0, bc1, bc2)
            &&& product_c2(ab0, ab1, ab2, c0, c1, c2) == product_c2(a0, a1, a2, bc0, bc1, bc2)
        }),
{
    // the products of two coefficients, and what the three-fold products are made of
    let p00 = a0 * b0;
    let p01 = a0 * b1;
    let p02 = a0 * b2;
    let p10 = a1 * b0;
    let p11 = a1 * b1;
    let p12 = a1 * b2;
    let p20 = a2 * b0;
    let p21 = a2 * b1;
    let p22 = a2 * b2;
    let r00 = b0 * c0;
    let r01 = b0 * c1;
    let r02 = b0 * c2;
    let r10 = b1 * c0;
    let r11 = b1 * c1;
    let r12 = b1 * c2;
    let r20 = b2 * c0;
    let r21 = b2 * c1;
    let r22 = b2 * c2;
    assert(p00 * c0 == a0 * r00) by (nonlinear_arith)
        requires
            p00 == a0 * b0,
            r00 == b0 * c0,
    ;
    assert(p00 * c1 == a0 * r01) by (nonlinear_arith)
        requires
            p00 == a0 * b0,
            r01 == b0 * c1,
    ;
    assert(p00 * c2 == a0 * r02) by (nonlinear_arith)
        requires
            p00 == a0 * b0,
            r02 == b0 * c2,
    ;
    assert(p01 * c0 == a0 * r10) by (nonlinear_arith)
        requires
            p01 == a0 * b1,
            r10 == b1 * c0,
    ;
    assert(p01 * c1 == a0 * r11) by (nonlinear_arith)
        requires
            p01 == a0 * b1,
            r11 == b1 * c1,
    ;
    assert(p01 * c2 == a0 * r12) by (nonlinear_arith)
        requires
            p01 == a0 * b1,
            r12 == b1 * c2,
    ;
    assert(p02 * c0 == a0 * r20) by (nonlinear_arith)
        requires
            p02 == a0 * b2,
            r20 == b2 * c0,
    ;
    assert(p02 * c1 == a0 * r21) by (nonlinear_arith)
        requires
            p02 == a0 * b2,
            r21 == b2 * c1,
    ;
    assert(p02 * c2 == a0 * r22) by (nonlinear_arith)
        requires
            p02 == a0 * b2,
            r22 == b2 * c2,
    ;
    assert(p10 * c0 == a1 * r00) by (nonlinear_arith)
        requires
            p10 == a1 * b0,
            r00 == b0 * c0,
    ;
    assert(p10 * c1 == a1 * r01) by (nonlinear_arith)
        requires
            p10 == a1 * b0,
            r01 == b0 * c1,
    ;
    assert(p10 * c2 == a1 * r02) by (nonlinear_arith)
        requires
            p10 == a1 * b0,
            r02 == b0 * c2,
    ;
    assert(p11 * c0 == a1 * r10) by (nonlinear_arith)
        requires
            p11 == a1 * b1,
            r10 == b1 * c0,
    ;
    assert(p11 * c1 == a1 * r11) by (nonlinear_arith)
        requires
            p11 == a1 * b1,
            r11 == b1 * c1,
    ;
    assert(p11 * c2 == a1 * r12) by (nonlinear_arith)
        requires
            p11 == a1 * b1,
            r12 == b1 * c2,
    ;
    assert(p12 * c0 == a1 * r20) by (nonlinear_arith)
        requires
            p12 == a1 * b2,
            r20 == b2 * c0,
    ;
    assert(p12 * c1 == a1 * r21) by (nonlinear_arith)
        requires
            p12 == a1 * b2,
            r21 == b2 * c1,
    ;
    assert(p12 * c2 == a1 * r22) by (nonlinear_arith)
        requires
            p12 == a1 * b2,
            r22 == b2 * c2,
    ;
    assert(p20 * c0 == a2 * r00) by (nonlinear_arith)
        requires
            p20 == a2 * b0,
            r00 == b0 * c0,
    ;
    assert(p20 * c1 == a2 * r01) by (nonlinear_arith)
        requires
            p20 == a2 * b0,
            r01 == b0 * c1,
    ;
    assert(p20 * c2 == a2 * r02) by (nonlinear_arith)
        requires
            p20 == a2 * b0,
            r02 == b0 * c2,
    ;
    assert(p21 * c0 == a2 * r10) by (nonlinear_arith)
        requires
            p21 == a2 * b1,
            r10 == b1 * c0,
    ;
    assert(p21 * c1 == a2 * r11) by (nonlinear_arith)
        requires
            p21 == a2 * b1,
            r11 == b1 * c1,
    ;
    assert(p21 * c2 == a2 * r12) by (nonlinear_arith)
        requires
            p21 == a2 * b1,
            r12 == b1 * c2,
    ;
    assert(p22 * c0 == a2 * r20) by (nonlinear_arith)
        requires
            p22 == a2 * b2,
            r20 == b2 * c0,
    ;
    assert(p22 * c1 == a2 * r21) by (nonlinear_arith)
        requires
            p22 == a2 * b2,
            r21 == b2 * c1,
    ;
    assert(p22 * c2 == a2 * r22) by (nonlinear_arith)
        requires
            p22 == a2 * b2,
            r22 == b2 * c2,
    ;
    let ab0 = p00 - p21 - p12;
    let bc0 = r00 - r21 - r12;
    let ab1 = p10 + p01 - p22 + p21 + p12;
    let bc1 = r10 + r01 - r22 + r21 + r12;
    let ab2 = p20 + p11 + p02 + p22;
    let bc2 = r20 + r11 + r02 + r22;
    assert(ab0 * c0 == p00 * c0 - p21 * c0 - p12 * c0) by (nonlinear_arith)
        requires
            ab0 == p00 - p21 - p12,
    ;
    assert(ab0 * c1 == p00 * c1 - p21 * c1 - p12 * c1) by (nonlinear_arith)
        requires
            ab0 == p00 - p21 - p12,
    ;
    assert(ab0 * c2 == p00 * c2 - p21 * c2 - p12 * c2) by (nonlinear_arith)
        requires
            ab0 == p00 - p21 - p12,
    ;
    assert(ab1 * c0 == p10 * c0 + p01 * c0 - p22 * c0 + p21 * c0 + p12 * c0) by (nonlinear_arith)
        requires
            ab1 == p10 + p01 - p22 + p21 + p12,
    ;
    assert(ab1 * c1 == p10 * c1 + p01 * c1 - p22 * c1 + p21 * c1 + p12 * c1) by (nonlinear_arith)
        requires
            ab1 == p10 + p01 - p22 + p21 + p12,
    ;
    assert(ab1 * c2 == p10 * c2 + p01 * c2 - p22 * c2 + p21 * c2 + p12 * c2) by (nonlinear_arith)
        requires
            ab1 == p10 + p01 - p22 + p21 + p12,
    ;
    assert(ab2 * c0 == p20 * c0 + p11 * c0 + p02 * c0 + p22 * c0) by (nonlinear_arith)
        requires
            ab2 == p20 + p11 + p02 + p22,
    ;
    assert(ab2 * c1 == p20 * c1 + p11 * c1 + p02 * c1 + p22 * c1) by (nonlinear_arith)
        requires
            ab2 == p20 + p11 + p02 + p22,
    ;
    assert(ab2 * c2 == p20 * c2 + p11 * c2 + p02 * c2 + p22 * c2) by (nonlinear_arith)
        requires
            ab2 == p20 + p11 + p02 + p22,
    ;
    assert(a0 * bc0 == a0 * r00 - a0 * r21 - a0 * r12) by (nonlinear_arith)
        requires
            bc0 == r00 - r21 - r12,
    ;
    assert(a0 * bc1 == a0 * r10 + a0 * r01 - a0 * r22 + a0 * r21 + a0 * r12) by (nonlinear_arith)
        requires
            bc1 == r10 + r01 - r22 + r21 + r12,
    ;
    assert(a0 * bc2 == a0 * r20 + a0 * r11 + a0 * r02 + a0 * r22) by (nonlinear_arith)
        requires
            bc2 == r20 + r11 + r02 + r22,
    ;
    assert(a1 * bc0 == a1 * r00 - a1 * r21 - a1 * r12) by (nonlinear_arith)
        requires
            bc0 == r00 - r21 - r12,
    ;
    assert(a1 * bc1 == a1 * r10 + a1 * r01 - a1 * r22 + a1 * r21 + a1 * r12) by (nonlinear_arith)
        requires
            bc1 == r10 + r01 - r22 + r21 + r12,
    ;
    assert(a1 * bc2 == a1 * r20 + a1 * r11 + a1 * r02 + a1 * r22) by (nonlinear_arith)
        requires
            bc2 == r20 + r11 + r02 + r22,
    ;
    assert(a2 * bc0 == a2 * r00 - a2 * r21 - a2 * r12) by (nonlinear_arith)
        requires
            bc0 == r00 - r21 - r12,
    ;
    assert(a2 * bc1 == a2 * r10 + a2 * r01 - a2 * r22 + a2 * r21 + a2 * r12) by (nonlinear_arith)
        requires
            bc1 == r10 + r01 - r22 + r21 + r12,
    ;
    assert(a2 * bc2 == a2 * r20 + a2 * r11 + a2 * r02 + a2 * r22) by (nonlinear_arith)
        requires
            bc2 == r20 + r11 + r02 + r22,
    ;
}

/// Over the integers, the product is linear in its first factor: a
/// multiple of `m` added to the first factor adds a multiple of `m` to
/// every coefficient of the product.
pub proof fn lemma_product_shift_left(
    u0: int,
    u1: int,
    u2: int,
    d0: int,
    d1: int,
    d2: int,
    c0: int,
    c1: int,
    c2: int,
    m: int,
)
    ensures
        product_c0(u0 + d0 * m, u1 + d1 * m, u2 + d2 * m, c0, c1, c2) == product_c0(
            u0,
            u1,
            u2,
            c0,
            c1,
            c2,
        ) + product_c0(d0, d1, d2, c0, c1, c2) * m,
        product_c1(u0 + d0 * m, u1 + d1 * m, u2 + d2 * m, c0, c1, c2) == product_c1(
            u0,
            u1,
            u2,
            c0,
            c1,
            c2,
        ) + product_c1(d0, d1, d2, c0, c1, c2) * m,
        product_c2(u0 + d0 * m, u1 + d1 * m, u2 + d2 * m, c0, c1, c2) == product_c2(
            u0,
            u1,
            u2,
            c0,
            c1,
            c2,
        ) + product_c2(d0, d1, d2, c0, c1, c2) * m,
{
    let t00 = d0 * c0;
    assert((u0 + d0 * m) * c0 == u0 * c0 + t00 * m) by (nonlinear_arith)
        requires
            t00 == d0 * c0,
    ;
    let t01 = d0 * c1;
    assert((u0 + d0 * m) * c1 == u0 * c1 + t01 * m) by (nonlinear_arith)
        requires
            t01 == d0 * c1,
    ;
    let t02 = d0 * c2;
    assert((u0 + d0 * m) * c2 == u0 * c2 + t02 * m) by (nonlinear_arith)
        requires
            t02 == d0 * c2,
    ;
    let t10 = d1 * c0;
    assert((u1 + d1 * m) * c0 == u1 * c0 + t10 * m) by (nonlinear_arith)
        requires
            t10 == d1 * c0,
    ;
    let t11 = d1 * c1;
    assert((u1 + d1 * m) * c1 == u1 * c1 + t11 * m) by (nonlinear_arith)
        requires
            t11 == d1 * c1,
    ;
    let t12 = d1 * c2;
    assert((u1 + d1 * m) * c2 == u1 * c2 + t12 * m) by (nonlinear_arith)
        requires
            t12 == d1 * c2,
    ;
    let t20 = d2 * c0;
    assert((u2 + d2 * m) * c0 == u2 * c0 + t20 * m) by (nonlinear_arith)
        requires
            t20 == d2 * c0,
    ;
    let t21 = d2 * c1;
    assert((u2 + d2 * m) * c1 == u2 * c1 + t21 * m) by (nonlinear_arith)
        requires
            t21 == d2 * c1,
    ;
    let t22 = d2 * c2;
    assert((u2 + d2 * m) * c2 == u2 * c2 + t22 * m) by (nonlinear_arith)
        requires
            t22 == d2 * c2,
    ;
    assert((t00 - t21 - t12) * m == t00 * m - t21 * m - t12 * m) by (nonlinear_arith);
    assert((t10 + t01 - t22 + t21 + t12) * m == t10 * m + t01 * m - t22 * m + t21 * m + t12 * m) by (nonlinear_arith);
    assert((t20 + t11 + t02 + t22) * m == t20 * m + t11 * m + t02 * m + t22 * m) by (nonlinear_arith);
}

/// Over the integers, the product does not depend on the order of its
/// factors.
pub proof fn lemma_product_commutes(a0: int, a1: int, a2: int, b0: int, b1: int, b2: int)
    ensures
        product_c0(a0, a1, a2, b0, b1, b2) == product_c0(b0, b1, b2, a0, a1, a2),
        product_c1(a0, a1, a2, b0, b1, b2) == product_c1(b0, b1, b2, a0, a1, a2),
        product_c2(a0, a1, a2, b0, b1, b2) == product_c2(b0, b1, b2, a0, a1, a2),
{
    assert(a0 * b0 == b0 * a0) by (nonlinear_arith);
    assert(a0 * b1 == b1 * a0) by (nonlinear_arith);
    assert(a0 * b2 == b2 * a0) by (nonlinear_arith);
    assert(a1 * b0 == b0 * a1) by (nonlinear_arith);
    assert(a1 * b1 == b1 * a1) by (nonlinear_arith);
    assert(a1 * b2 == b2 * a1) by (nonlinear_arith);
    assert(a2 * b0 == b0 * a2) by (nonlinear_arith);
    assert(a2 * b1 == b1 * a2) by (nonlinear_arith);
    assert(a2 * b2 == b2 * a2) by (nonlinear_arith);
}

/// Over the integers, the product distributes over the sum of two second
/// factors.
pub proof fn lemma_product_distributes(
    a0: int,
    a1: int,
    a2: int,
    b0: int,
    b1: int,
    b2: int,
    c0: int,
    c1: int,
    c2: int,
)
    ensures
        product_c0(a0, a1, a2, b0 + c0, b1 + c1, b2 + c2) == product_c0(a0, a1, a2, b0, b1, b2)
            + product_c0(a0, a1, a2, c0, c1, c2),
        product_c1(a0, a1, a2, b0 + c0, b1 + c1, b2 + c2) == product_c1(a0, a1, a2, b0, b1, b2)
            + product_c1(a0, a1, a2, c0, c1, c2),
        product_c2(a0, a1, a2, b0 + c0, b1 + c1, b2 + c2) == product_c2(a0, a1, a2, b0, b1, b2)
            + product_c2(a0, a1, a2, c0, c1, c2),
        product_c0(a0, a1, a2, b0 - c0, b1 - c1, b2 - c2) == product_c0(a0, a1, a2, b0, b1, b2)
            - product_c0(a0, a1, a2, c0, c1, c2),
        product_c1(a0, a1, a2, b0 - c0, b1 - c1, b2 - c2) == product_c1(a0, a1, a2, b0, b1, b2)
            - product_c1(a0, a1, a2, c0, c1, c2),
        product_c2(a0, a1, a2, b0 - c0, b1 - c1, b2 - c2) == product_c2(a0, a1, a2, b0, b1, b2)
            - product_c2(a0, a1, a2, c0, c1, c2),
{
    assert(a0 * (b0 + c0) == a0 * b0 + a0 * c0) by (nonlinear_arith);
    assert(a0 * (b0 - c0) == a0 * b0 - a0 * c0) by (nonlinear_arith);
    assert(a0 * (b1 + c1) == a0 * b1 + a0 * c1) by (nonlinear_arith);
    assert(a0 * (b1 - c1) == a0 * b1 - a0 * c1) by (nonlinear_arith);
    assert(a0 * (b2 + c2) == a0 * b2 + a0 * c2) by (nonlinear_arith);
    assert(a0 * (b2 - c2) == a0 * b2 - a0 * c2) by (nonlinear_arith);
    assert(a1 * (b0 + c0) == a1 * b0 + a1 * c0) by (nonlinear_arith);
    assert(a1 * (b0 - c0) == a1 * b0 - a1 * c0) by (nonlinear_arith);
    assert(a1 * (b1 + c1) == a1 * b1 + a1 * c1) by (nonlinear_arith);
    assert(a1 * (b1 - c1) == a1 * b1 - a1 * c1) by (nonlinear_arith);
    assert(a1 * (b2 + c2) == a1 * b2 + a1 * c2) by (nonlinear_arith);
    assert(a1 * (b2 - c2) == a1 * b2 - a1 * c2) by (nonlinear_arith);
    assert(a2 * (b0 + c0) == a2 * b0 + a2 * c0) by (nonlinear_arith);
    assert(a2 * (b0 - c0) == a2 * b0 - a2 * c0) by (nonlinear_arith);
    assert(a2 * (b1 + c1) == a2 * b1 + a2 * c1) by (nonlinear_arith);
    assert(a2 * (b1 - c1) == a2 * b1 - a2 * c1) by (nonlinear_arith);
    assert(a2 * (b2 + c2) == a2 * b2 + a2 * c2) by (nonlinear_arith);
    assert(a2 * (b2 - c2) == a2 * b2 - a2 * c2) by (nonlinear_arith);
}

/// The element whose coefficients are the residues of three integers.
pub open spec fn residues(u0: int, u1: int, u2: int) -> XWord {
    XWord { c0: reduce(u0), c1: reduce(u1), c2: reduce(u2) }
}

/// The product of two elements is made of the residues of the integer
/// product of their coefficients.
pub proof fn lemma_mul_is_product(a: XWord, b: XWord)
    ensures
        x_mul(a, b) == residues(
            product_c0(a.c0 as int, a.c1 as int, a.c2 as int, b.c0 as int, b.c1 as int, b.c2 as int),
            product_c1(a.c0 as int, a.c1 as int, a.c2 as int, b.c0 as int, b.c1 as int, b.c2 as int),
            product_c2(a.c0 as int, a.c1 as int, a.c2 as int, b.c0 as int, b.c1 as int, b.c2 as int),
        ),
{
    reveal(x_mul);
}

/// An integer is its residue plus a multiple of the prime.
pub proof fn lemma_residue_and_multiple(x: int)
    ensures
        x == reduce(x) + (x / (P as int)) * P,
{
    vstd::arithmetic::div_mod::lemma_fundamental_div_mod(x, P as int);
    assert((P as int) * (x / (P as int)) == (x / (P as int)) * P) by (nonlinear_arith);
}

/// Multiplying the residues of three integers with an element gives the
/// residues of the integer product.
pub proof fn lemma_mul_of_residues(u0: int, u1: int, u2: int, c: XWord)
    ensures
        x_mul(residues(u0, u1, u2), c) == residues(
            product_c0(u0, u1, u2, c.c0 as int, c.c1 as int, c.c2 as int),
            product_c1(u0, u1, u2, c.c0 as int, c.c1 as int, c.c2 as int),
            product_c2(u0, u1, u2, c.c0 as int, c.c1 as int, c.c2 as int),
        ),
        x_mul(c, residues(u0, u1, u2)) == residues(
            product_c0(c.c0 as int, c.c1 as int, c.c2 as int, u0, u1, u2),
            product_c1(c.c0 as int, c.c1 as int, c.c2 as int, u0, u1, u2),
            product_c2(c.c0 as int, c.c1 as int, c.c2 as int, u0, u1, u2),
        ),
{
    let p = P as int;
    let r = residues(u0, u1, u2);
    let (c0, c1, c2) = (c.c0 as int, c.c1 as int, c.c2 as int);
    let (r0, r1, r2) = (r.c0 as int, r.c1 as int, r.c2 as int);
    let (q0, q1, q2) = (u0 / p, u1 / p, u2 / p);
    lemma_residue_and_multiple(u0);
    lemma_residue_and_multiple(u1);
    lemma_residue_and_multiple(u2);
    lemma_mul_is_product(r, c);
    lemma_product_shift_left(r0, r1, r2, q0, q1, q2, c0, c1, c2, p);
    lemma_reduce_congruent(
        product_c0(u0, u1, u2, c0, c1, c2),
        product_c0(r0, r1, r2, c0, c1, c2),
        product_c0(q0, q1, q2, c0, c1, c2),
    );
    lemma_reduce_congruent(
        product_c1(u0, u1, u2, c0, c1, c2),
        product_c1(r0, r1, r2, c0, c1, c2),
        product_c1(q0, q1, q2, c0, c1, c2),
    );
    lemma_reduce_congruent(
        product_c2(u0, u1, u2, c0, c1, c2),
        product_c2(r0, r1, r2, c0, c1, c2),
        product_c2(q0, q1, q2, c0, c1, c2),
    );
    crate::algebra::lemma_mul_commutes(c, r);
    lemma_product_commutes(c0, c1, c2, u0, u1, u2);
}

/// The product of extension field elements is associative.
pub proof fn lemma_mul_associative(a: XWord, b: XWord, c: XWord)
    ensures
        x_mul(x_mul(a, b), c) == x_mul(a, x_mul(b, c)),
{
    let (a0, a1, a2) = (a.c0 as int, a.c1 as int, a.c2 as int);
    let (b0, b1, b2) = (b.c0 as int, b.c1 as int, b.c2 as int);
    let (c0, c1, c2) = (c.c0 as int, c.c1 as int, c.c2 as int);
    lemma_mul_is_product(a, b);
    lemma_mul_is_product(b, c);
    lemma_mul_of_residues(
        product_c0(a0, a1, a2, b0, b1, b2),
        product_c1(a0, a1, a2, b0, b1, b2),
        product_c2(a0, a1, a2, b0, b1, b2),
        c,
    );
    lemma_mul_of_residues(
        product_c0(b0, b1, b2, c0, c1, c2),
        product_c1(b0, b1, b2, c0, c1, c2),
        product_c2(b0, b1, b2, c0, c1, c2),
        a,
    );
    lemma_product_associative(a0, a1, a2, b0, b1, b2, c0, c1, c2);
}

/// The product distributes over sums and differences.
pub proof fn lemma_mul_distributes(a: XWord, b: XWord, c: XWord)
    ensures
        x_mul(a, x_add(b, c)) == x_add(x_mul(a, b), x_mul(a, c)),
        x_mul(a, x_sub(b, c)) == x_sub(x_mul(a, b), x_mul(a, c)),
        x_mul(x_add(b, c), a) == x_add(x_mul(b, a), x_mul(c, a)),
        x_mul(x_sub(b, c), a) == x_sub(x_mul(b, a), x_mul(c, a)),
{
    let (a0, a1, a2) = (a.c0 as int, a.c1 as int, a.c2 as int);
    let (b0, b1, b2) = (b.c0 as int, b.c1 as int, b.c2 as int);
    let (c0, c1, c2) = (c.c0 as int, c.c1 as int, c.c2 as int);
    reveal(x_add);
    reveal(x_sub);
    assert(x_add(b, c) == residues(b0 + c0, b1 + c1, b2 + c2));
    assert(x_sub(b, c) == residues(b0 - c0, b1 - c1, b2 - c2));
    lemma_mul_of_residues(b0 + c0, b1 + c1, b2 + c2, a);
    lemma_mul_of_residues(b0 - c0, b1 - c1, b2 - c2, a);
    lemma_product_distributes(a0, a1, a2, b0, b1, b2, c0, c1, c2);
    lemma_mul_is_product(a, b);
    lemma_mul_is_product(a, c);
    lemma_reduce_add(product_c0(a0, a1, a2, b0, b1, b2), product_c0(a0, a1, a2, c0, c1, c2));
    lemma_reduce_add(product_c1(a0, a1, a2, b0, b1, b2), product_c1(a0, a1, a2, c0, c1, c2));
    lemma_reduce_add(product_c2(a0, a1, a2, b0, b1, b2), product_c2(a0, a1, a2, c0, c1, c2));
    lemma_reduce_sub(product_c0(a0, a1, a2, b0, b1, b2), product_c0(a0, a1, a2, c0, c1, c2));
    lemma_reduce_sub(product_c1(a0, a1, a2, b0, b1, b2), product_c1(a0, a1, a2, c0, c1, c2));
    lemma_reduce_sub(product_c2(a0, a1, a2, b0, b1, b2), product_c2(a0, a1, a2, c0, c1, c2));
    crate::algebra::lemma_mul_commutes(a, x_add(b, c));
    crate::algebra::lemma_mul_commutes(a, x_sub(b, c));
    crate::algebra::lemma_mul_commutes(a, b);
    crate::algebra::lemma_mul_commutes(a, c);
}

} // verus!
