//! The value of a polynomial over the base field at a point of the
//! extension field, and how it goes with the operations on polynomials.

use crate::algebra::{
    lemma_lift_respects, lemma_mul_commutes, lemma_mul_zero, lemma_results_wf,
    lemma_zero_is_neutral,
};
use crate::bezout::{
    canonical_coefficients, coefficient, formal_derivative, resized, roots_polynomial,
    times_linear,
};
use crate::field::{
    b_add, b_mul, b_sub, lemma_reduce_add, lemma_reduce_mul, lemma_reduce_sub, reduce, x_add,
    x_lift, x_mul, x_one, x_sub, x_zero, XWord, P,
};
use crate::ring::{lemma_mul_associative, lemma_mul_distributes};
use vstd::prelude::*;

verus! {

/// The value at `z` of the terms of `p` from the `k`-th on, divided by the
/// `k`-th power of `z`: Horner's rule, from the leading coefficient down.
pub open spec fn horner(p: Seq<u64>, k: int, z: XWord) -> XWord
    decreases p.len() - k,
{
    if 0 <= k < p.len() {
        x_add(x_mul(horner(p, k + 1, z), z), x_lift(p[k]))
    } else {
        x_zero()
    }
}

/// The value of the polynomial `p` at the point `z`.
pub open spec fn value_at(p: Seq<u64>, z: XWord) -> XWord {
    horner(p, 0, z)
}

/// Every value that Horner's rule passes through is well-formed.
pub proof fn lemma_horner_wf(p: Seq<u64>, k: int, z: XWord)
    ensures
        horner(p, k, z).wf(),
{
    if 0 <= k < p.len() {
        lemma_results_wf(x_mul(horner(p, k + 1, z), z), x_lift(p[k]));
    }
}

/// Horner's rule makes one step for every coefficient, and a step beyond
/// the leading coefficient, where the coefficient is zero, changes
/// nothing.
pub proof fn lemma_horner_step(p: Seq<u64>, k: int, z: XWord)
    requires
        0 <= k,
    ensures
        horner(p, k, z) == x_add(x_mul(horner(p, k + 1, z), z), x_lift(coefficient(p, k))),
{
    if k >= p.len() {
        lemma_mul_zero(z);
        lemma_zero_is_neutral(x_zero());
    }
}

/// Four terms of a sum and a difference, regrouped.
pub proof fn lemma_regroup_difference(y: XWord, w: XWord, l: XWord, v: XWord)
    requires
        y.wf(),
        w.wf(),
        l.wf(),
        v.wf(),
    ensures
        x_add(x_add(y, w), x_sub(l, v)) == x_add(l, x_add(w, x_sub(y, v))),
{
    reveal(x_add);
    reveal(x_sub);
    lemma_b_regroup_difference(y.c0, w.c0, l.c0, v.c0);
    lemma_b_regroup_difference(y.c1, w.c1, l.c1, v.c1);
    lemma_b_regroup_difference(y.c2, w.c2, l.c2, v.c2);
}

/// Four terms of a sum and a difference in the base field, regrouped.
pub proof fn lemma_b_regroup_difference(y: u64, w: u64, l: u64, v: u64)
    requires
        y < P,
        w < P,
        l < P,
        v < P,
    ensures
        b_add(b_add(y, w), b_sub(l, v)) == b_add(l, b_add(w, b_sub(y, v))),
{
    assert(reduce(w as int) == w && reduce(l as int) == l);
    lemma_reduce_add(y + w, l - v);
    lemma_reduce_add(w as int, y - v);
    lemma_reduce_add(l as int, w + (y - v));
}

/// Four terms of a sum in the base field, regrouped.
pub proof fn lemma_b_regroup_sum(a: u64, b: u64, c: u64, d: u64)
    ensures
        b_add(b_add(a, b), b_add(c, d)) == b_add(b_add(a, c), b_add(b, d)),
{
    lemma_reduce_add(a + b, c + d);
    lemma_reduce_add(a + c, b + d);
}

/// Four terms of a sum, regrouped.
pub proof fn lemma_regroup_sum(a: XWord, b: XWord, c: XWord, d: XWord)
    ensures
        x_add(x_add(a, b), x_add(c, d)) == x_add(x_add(a, c), x_add(b, d)),
{
    reveal(x_add);
    lemma_b_regroup_sum(a.c0, b.c0, c.c0, d.c0);
    lemma_b_regroup_sum(a.c1, b.c1, c.c1, d.c1);
    lemma_b_regroup_sum(a.c2, b.c2, c.c2, d.c2);
}

/// Horner's rule on the product of a polynomial and a linear factor: the
/// value from the `k`-th term on is that of the polynomial times the value
/// of the factor, and the coefficient before the `k`-th on top.
pub proof fn lemma_horner_times_linear(p: Seq<u64>, root: u64, z: XWord, k: int)
    requires
        canonical_coefficients(p),
        root < P,
        z.wf(),
        0 <= k <= p.len() + 1,
    ensures
        horner(times_linear(p, root), k, z) == x_add(
            x_lift(coefficient(p, k - 1)),
            x_mul(horner(p, k, z), x_sub(z, x_lift(root))),
        ),
    decreases p.len() + 1 - k,
{
    let q = times_linear(p, root);
    let delta = x_sub(z, x_lift(root));
    if k == p.len() + 1 {
        lemma_mul_zero(delta);
        lemma_zero_is_neutral(x_zero());
    } else {
        lemma_horner_times_linear(p, root, z, k + 1);
        let u = horner(p, k + 1, z);
        let here = coefficient(p, k);
        let below = coefficient(p, k - 1);
        let lifted_here = x_lift(here);
        let lifted_below = x_lift(below);
        let a = x_lift(root);
        lemma_horner_wf(p, k + 1, z);
        lemma_horner_step(p, k, z);
        // the k-th coefficient of the product, lifted
        assert(q[k] == b_sub(below, b_mul(root, here)));
        lemma_lift_respects(root, here);
        lemma_lift_respects(below, b_mul(root, here));
        assert(x_lift(q[k]) == x_sub(lifted_below, x_mul(a, lifted_here)));
        // the step of Horner's rule on the product, multiplied out
        let w = x_mul(x_mul(u, z), delta);
        let y = x_mul(lifted_here, z);
        let v = x_mul(a, lifted_here);
        lemma_mul_distributes(z, lifted_here, x_mul(u, delta));
        lemma_mul_associative(u, delta, z);
        lemma_mul_commutes(delta, z);
        lemma_mul_associative(u, z, delta);
        assert(x_mul(x_add(lifted_here, x_mul(u, delta)), z) == x_add(y, w));
        // the same step on the polynomial, times the factor, multiplied out
        lemma_mul_distributes(delta, x_mul(u, z), lifted_here);
        lemma_mul_distributes(lifted_here, z, a);
        lemma_mul_commutes(lifted_here, a);
        assert(x_mul(x_add(x_mul(u, z), lifted_here), delta) == x_add(w, x_sub(y, v)));
        lemma_results_wf(lifted_here, z);
        lemma_results_wf(a, lifted_here);
        lemma_results_wf(x_mul(u, z), delta);
        lemma_regroup_difference(y, w, lifted_below, v);
    }
}

/// The value of the product of a polynomial and a linear factor is the
/// product of their values.
pub proof fn lemma_value_times_linear(p: Seq<u64>, root: u64, z: XWord)
    requires
        canonical_coefficients(p),
        root < P,
        z.wf(),
    ensures
        value_at(times_linear(p, root), z) == x_mul(value_at(p, z), x_sub(z, x_lift(root))),
{
    lemma_horner_times_linear(p, root, z, 0);
    lemma_results_wf(value_at(p, z), x_sub(z, x_lift(root)));
    lemma_zero_is_neutral(x_mul(value_at(p, z), x_sub(z, x_lift(root))));
}

/// The sum of two polynomials with equally many coefficients.
pub open spec fn sum_of(s: Seq<u64>, t: Seq<u64>) -> Seq<u64> {
    Seq::new(s.len(), |k: int| b_add(s[k], t[k]))
}

/// Horner's rule on the sum of two polynomials gives the sum of what it
/// gives on each.
pub proof fn lemma_horner_sum(s: Seq<u64>, t: Seq<u64>, z: XWord, k: int)
    requires
        s.len() == t.len(),
        canonical_coefficients(s),
        canonical_coefficients(t),
        0 <= k,
    ensures
        horner(sum_of(s, t), k, z) == x_add(horner(s, k, z), horner(t, k, z)),
    decreases s.len() - k,
{
    if k >= s.len() {
        lemma_zero_is_neutral(x_zero());
    } else {
        lemma_horner_sum(s, t, z, k + 1);
        let hs = horner(s, k + 1, z);
        let ht = horner(t, k + 1, z);
        lemma_mul_distributes(z, hs, ht);
        lemma_lift_respects(s[k], t[k]);
        lemma_regroup_sum(x_mul(hs, z), x_mul(ht, z), x_lift(s[k]), x_lift(t[k]));
    }
}

/// The coefficient of a product's derivative, by the product rule: the
/// `k`-th coefficient of the derivative of `p(x) (x - a)` is that of the
/// derivative of `p`, times the factor, and `p` on top.
pub proof fn lemma_derivative_coefficient(k: int, pk: u64, pn: u64, a: u64)
    requires
        0 <= k,
        pk < P,
        pn < P,
        a < P,
    ensures
        b_mul(reduce(k + 1), b_sub(pk, b_mul(a, pn))) == b_add(
            b_sub(b_mul(reduce(k), pk), b_mul(a, b_mul(reduce(k + 1), pn))),
            pk,
        ),
{
    assert(reduce(pk as int) == pk && reduce(pn as int) == pn && reduce(a as int) == a);
    lemma_reduce_sub(pk as int, a * pn);
    lemma_reduce_mul(k + 1, pk - a * pn);
    lemma_reduce_mul(k, pk as int);
    lemma_reduce_mul(k + 1, pn as int);
    lemma_reduce_mul(a as int, (k + 1) * pn);
    lemma_reduce_sub(k * pk, a * ((k + 1) * pn));
    lemma_reduce_add(k * pk - a * ((k + 1) * pn), pk as int);
    assert((k + 1) * (pk - a * pn) == k * pk - a * ((k + 1) * pn) + pk) by (nonlinear_arith);
}

/// The product rule for polynomials: the derivative of `p(x) (x - a)` is
/// the derivative of `p`, times the factor, plus `p`.
pub proof fn lemma_derivative_of_product(p: Seq<u64>, root: u64)
    requires
        canonical_coefficients(p),
        root < P,
        p.len() >= 1,
    ensures
        formal_derivative(times_linear(p, root)) == sum_of(
            times_linear(formal_derivative(p), root),
            p,
        ),
        canonical_coefficients(times_linear(formal_derivative(p), root)),
        times_linear(formal_derivative(p), root).len() == p.len(),
{
    let q = times_linear(p, root);
    let d = formal_derivative(p);
    let lhs = formal_derivative(q);
    let rhs = sum_of(times_linear(d, root), p);
    assert(lhs.len() == rhs.len());
    assert forall|k: int| 0 <= k < lhs.len() implies lhs[k] == rhs[k] by {
        let pk = p[k];
        let pn = coefficient(p, k + 1);
        lemma_derivative_coefficient(k, pk, pn, root);
        assert(q[k + 1] == b_sub(pk, b_mul(root, pn)));
        assert(coefficient(d, k - 1) == b_mul(reduce(k), pk)) by {
            if k == 0 {
                assert(0 * pk == 0) by (nonlinear_arith);
            }
        }
        assert(coefficient(d, k) == b_mul(reduce(k + 1), pn)) by {
            if k + 1 >= p.len() {
                assert(reduce(k + 1) * 0 == 0) by (nonlinear_arith);
            }
        }
    }
    assert(lhs =~= rhs);
}

/// Filling a polynomial up with zero coefficients does not change what
/// Horner's rule gives.
pub proof fn lemma_horner_resized(u: Seq<u64>, n: nat, z: XWord, k: int)
    requires
        u.len() <= n,
        0 <= k,
    ensures
        horner(resized(u, n), k, z) == horner(u, k, z),
    decreases n - k,
{
    if k < n {
        lemma_horner_resized(u, n, z, k + 1);
        lemma_horner_step(u, k, z);
    }
}

/// The product of the linear factors of the given roots at the point `z`.
pub open spec fn product_of_factors(roots: Seq<u64>, z: XWord) -> XWord
    decreases roots.len(),
{
    if roots.len() == 0 {
        x_one()
    } else {
        x_mul(product_of_factors(roots.drop_last(), z), x_sub(z, x_lift(roots.last())))
    }
}

/// The derivative of the product of the linear factors of the given roots
/// at the point `z`, by the product rule.
pub open spec fn derivative_of_factors(roots: Seq<u64>, z: XWord) -> XWord
    decreases roots.len(),
{
    if roots.len() == 0 {
        x_zero()
    } else {
        x_add(
            x_mul(x_sub(z, x_lift(roots.last())), derivative_of_factors(roots.drop_last(), z)),
            product_of_factors(roots.drop_last(), z),
        )
    }
}

/// The polynomial with the given roots has one coefficient more than it
/// has roots, and all of them are canonical.
pub proof fn lemma_roots_polynomial(roots: Seq<u64>)
    requires
        canonical_coefficients(roots),
    ensures
        roots_polynomial(roots).len() == roots.len() + 1,
        canonical_coefficients(roots_polynomial(roots)),
    decreases roots.len(),
{
    if roots.len() > 0 {
        lemma_roots_polynomial(roots.drop_last());
    }
}

/// The value of the polynomial with the given roots is the product of its
/// linear factors, and the value of its formal derivative is the
/// derivative of that product.
pub proof fn lemma_value_of_roots_polynomial(roots: Seq<u64>, z: XWord)
    requires
        canonical_coefficients(roots),
        z.wf(),
    ensures
        value_at(roots_polynomial(roots), z) == product_of_factors(roots, z),
        value_at(formal_derivative(roots_polynomial(roots)), z) == derivative_of_factors(
            roots,
            z,
        ),
    decreases roots.len(),
{
    if roots.len() == 0 {
        let one = seq![1u64];
        assert(roots_polynomial(roots) == one);
        assert(horner(one, 1, z) == x_zero());
        lemma_mul_zero(z);
        lemma_zero_is_neutral(x_one());
        assert(formal_derivative(one) =~= Seq::<u64>::empty());
    } else {
        let front = roots.drop_last();
        let root = roots.last();
        let p = roots_polynomial(front);
        let d = formal_derivative(p);
        let delta = x_sub(z, x_lift(root));
        lemma_roots_polynomial(front);
        lemma_value_of_roots_polynomial(front, z);
        lemma_value_times_linear(p, root, z);
        lemma_derivative_of_product(p, root);
        lemma_horner_sum(times_linear(d, root), p, z, 0);
        assert(canonical_coefficients(d));
        lemma_value_times_linear(d, root, z);
        lemma_mul_commutes(value_at(d, z), delta);
    }
}

} // verus!
