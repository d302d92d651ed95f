//! The identities of field arithmetic that the laws of the table rest on.

use crate::field::{
    b_add, b_mul, b_sub, is_inverse_or_zero, lemma_reduce_sub, reduce, x_add, x_lift, x_mul, x_one, x_sub, x_zero,
    XWord, P,
};
use vstd::prelude::*;

verus! {

/// Two canonical elements are equal exactly if their difference is zero.
pub proof fn lemma_difference_is_zero(a: u64, b: u64)
    requires
        a < P,
        b < P,
    ensures
        (b_sub(a, b) == 0) <==> (a == b),
{
}

/// The product of base field elements does not depend on their order.
pub proof fn lemma_b_mul_commutes(a: u64, b: u64)
    ensures
        b_mul(a, b) == b_mul(b, a),
{
    assert(a * b == b * a) by (nonlinear_arith);
}

/// A base field element has at most one multiplicative inverse.
pub proof fn lemma_inverse_is_unique(a: u64, x: u64, y: u64)
    requires
        x < P,
        y < P,
        b_mul(a, x) == 1,
        b_mul(a, y) == 1,
    ensures
        x == y,
{
    let p = P as int;
    // x = x * (a * y) = (a * x) * y = y, all modulo the prime
    vstd::arithmetic::div_mod::lemma_mul_mod_noop_right(x as int, a * y, p);
    vstd::arithmetic::div_mod::lemma_mul_mod_noop_left(a * x, y as int, p);
    assert(x * (a * y) == (a * x) * y) by (nonlinear_arith);
    assert((x * 1) % p == x);
    assert((1 * y) % p == y);
    assert((a * y) % p == 1);
    assert((a * x) % p == 1);
    assert((x * ((a * y) % p)) % p == (x * (a * y)) % p);
    assert((((a * x) % p) * y) % p == ((a * x) * y) % p);
}

/// What inverts an element, or is zero with it, is determined by it.
pub proof fn lemma_inverse_or_zero_is_unique(a: u64, x: u64, y: u64)
    requires
        is_inverse_or_zero(a, x),
        is_inverse_or_zero(a, y),
    ensures
        x == y,
{
    if a != 0 {
        lemma_inverse_is_unique(a, x, y);
    }
}

/// An element less itself is zero.
pub proof fn lemma_sub_self(a: XWord)
    ensures
        x_sub(a, a) == x_zero(),
{
    reveal(x_add);
    reveal(x_sub);
}

/// Zero added to or taken from an element leaves it as it is.
pub proof fn lemma_zero_is_neutral(a: XWord)
    requires
        a.wf(),
    ensures
        x_add(a, x_zero()) == a,
        x_add(x_zero(), a) == a,
        x_sub(a, x_zero()) == a,
{
    reveal(x_add);
    reveal(x_sub);
}

/// A product with a zero factor is zero.
pub proof fn lemma_mul_zero(a: XWord)
    ensures
        x_mul(x_zero(), a) == x_zero(),
        x_mul(a, x_zero()) == x_zero(),
{
    reveal(x_mul);
    assert(0 * a.c0 == 0 && 0 * a.c1 == 0 && 0 * a.c2 == 0) by (nonlinear_arith);
    assert(a.c0 * 0 == 0 && a.c1 * 0 == 0 && a.c2 * 0 == 0) by (nonlinear_arith);
}

/// A product with the factor one is the other factor.
pub proof fn lemma_mul_one(a: XWord)
    requires
        a.wf(),
    ensures
        x_mul(x_one(), a) == a,
        x_mul(a, x_one()) == a,
{
    reveal(x_mul);
    assert(0 * a.c0 == 0 && 0 * a.c1 == 0 && 0 * a.c2 == 0) by (nonlinear_arith);
    assert(a.c0 * 0 == 0 && a.c1 * 0 == 0 && a.c2 * 0 == 0) by (nonlinear_arith);
    assert(1 * a.c0 == a.c0 && 1 * a.c1 == a.c1 && 1 * a.c2 == a.c2) by (nonlinear_arith);
    assert(a.c0 * 1 == a.c0 && a.c1 * 1 == a.c1 && a.c2 * 1 == a.c2) by (nonlinear_arith);
}

/// The product of extension field elements does not depend on their order.
pub proof fn lemma_mul_commutes(a: XWord, b: XWord)
    ensures
        x_mul(a, b) == x_mul(b, a),
{
    reveal(x_mul);
    assert(a.c0 * b.c0 == b.c0 * a.c0) by (nonlinear_arith);
    assert(a.c0 * b.c1 == b.c1 * a.c0) by (nonlinear_arith);
    assert(a.c0 * b.c2 == b.c2 * a.c0) by (nonlinear_arith);
    assert(a.c1 * b.c0 == b.c0 * a.c1) by (nonlinear_arith);
    assert(a.c1 * b.c1 == b.c1 * a.c1) by (nonlinear_arith);
    assert(a.c1 * b.c2 == b.c2 * a.c1) by (nonlinear_arith);
    assert(a.c2 * b.c0 == b.c0 * a.c2) by (nonlinear_arith);
    assert(a.c2 * b.c1 == b.c1 * a.c2) by (nonlinear_arith);
    assert(a.c2 * b.c2 == b.c2 * a.c2) by (nonlinear_arith);
}

/// Sums, differences and products are well-formed elements.
pub proof fn lemma_results_wf(a: XWord, b: XWord)
    ensures
        x_add(a, b).wf(),
        x_sub(a, b).wf(),
        x_mul(a, b).wf(),
{
    reveal(x_add);
    reveal(x_sub);
    reveal(x_mul);
}

/// In the base field, what is added and then taken away again leaves no
/// trace.
pub proof fn lemma_b_add_then_sub(m: u64, c: u64)
    requires
        m < P,
        c < P,
    ensures
        b_sub(b_add(m, c), c) == m,
        b_sub(b_sub(b_add(m, c), c), m) == 0,
        b_sub(b_sub(b_add(m, c), m), c) == 0,
{
    assert(reduce(m as int) == m && reduce(c as int) == c);
    lemma_reduce_sub(m + c, c as int);
    lemma_reduce_sub(m + c, m as int);
    assert(reduce(m + c - c) == m);
    assert(reduce(m + c - m) == c);
}

/// What is added and then taken away again leaves no trace.
pub proof fn lemma_add_then_sub(m: XWord, c: XWord)
    requires
        m.wf(),
        c.wf(),
    ensures
        x_sub(x_add(m, c), c) == m,
        x_sub(x_sub(x_add(m, c), c), m) == x_zero(),
        x_sub(x_sub(x_add(m, c), m), c) == x_zero(),
{
    reveal(x_add);
    reveal(x_sub);
    lemma_b_add_then_sub(m.c0, c.c0);
    lemma_b_add_then_sub(m.c1, c.c1);
    lemma_b_add_then_sub(m.c2, c.c2);
}

/// The embedding of the base field respects sums, differences and
/// products.
pub proof fn lemma_lift_respects(a: u64, b: u64)
    requires
        a < P,
        b < P,
    ensures
        x_add(x_lift(a), x_lift(b)) == x_lift(b_add(a, b)),
        x_sub(x_lift(a), x_lift(b)) == x_lift(b_sub(a, b)),
        x_mul(x_lift(a), x_lift(b)) == x_lift(b_mul(a, b)),
{
    reveal(x_add);
    reveal(x_sub);
    reveal(x_mul);
    assert(0 * b == 0 && a * 0 == 0 && 0 * 0 == 0) by (nonlinear_arith);
}

/// Two well-formed elements are equal exactly if their difference is zero.
pub proof fn lemma_x_difference_is_zero(a: XWord, b: XWord)
    requires
        a.wf(),
        b.wf(),
    ensures
        (x_sub(a, b) == x_zero()) <==> (a == b),
{
    reveal(x_sub);
    lemma_difference_is_zero(a.c0, b.c0);
    lemma_difference_is_zero(a.c1, b.c1);
    lemma_difference_is_zero(a.c2, b.c2);
}

} // verus!
