//! The Bézout coefficients that certify that no address occurs twice.
//!
//! The distinct addresses are the roots of a polynomial. That polynomial and
//! its formal derivative are coprime exactly if no root is repeated, and the
//! coefficients of the Bézout identity between the two are stored in the
//! table, one pair per address.

use crate::evaluation::value_at;
use crate::field::{
    b_mul, b_sub, bfe_mul, bfe_sub, canonical, reduce, x_add, x_mul, XWord, P,
};
use twenty_first::math::b_field_element::BFieldElement;
use twenty_first::math::polynomial::Polynomial;
use vstd::prelude::*;

verus! {

/// What can be wrong with a table or with the trace it is built from.
#[derive(Clone, Copy, Debug, PartialEq, Eq, Structural)]
pub enum RamTableError {
    /// The polynomial of the addresses and its derivative are not coprime.
    RepeatedAddress,
    /// The first Bézout coefficient has more terms than there are addresses.
    BezoutCoefficient0Degree,
    /// The second Bézout coefficient has a degree above the number of addresses.
    BezoutCoefficient1Degree,
}

/// Whether every coefficient is a canonical field element.
pub open spec fn canonical_coefficients(p: Seq<u64>) -> bool {
    forall|k: int| 0 <= k < p.len() ==> #[trigger] p[k] < P
}

/// The coefficient of `x^k` in `p`, which is zero beyond the end of `p`.
pub open spec fn coefficient(p: Seq<u64>, k: int) -> u64 {
    if 0 <= k < p.len() {
        p[k]
    } else {
        0
    }
}

/// The product of the polynomial `p` and the linear factor `x - root`.
pub open spec fn times_linear(p: Seq<u64>, root: u64) -> Seq<u64> {
    Seq::new(
        p.len() + 1,
        |k: int| b_sub(coefficient(p, k - 1), b_mul(root, coefficient(p, k))),
    )
}

/// The monic polynomial whose roots are the given values.
pub open spec fn roots_polynomial(roots: Seq<u64>) -> Seq<u64>
    decreases roots.len(),
{
    if roots.len() == 0 {
        seq![1u64]
    } else {
        times_linear(roots_polynomial(roots.drop_last()), roots.last())
    }
}

/// The formal derivative of the polynomial `p`.
pub open spec fn formal_derivative(p: Seq<u64>) -> Seq<u64> {
    Seq::new(
        if p.len() == 0 {
            0
        } else {
            (p.len() - 1) as nat
        },
        |k: int| b_mul(reduce(k + 1), p[k + 1]),
    )
}

/// The coefficients of `c` cut off or filled up with zeros to `n` entries.
pub open spec fn resized(c: Seq<u64>, n: nat) -> Seq<u64> {
    Seq::new(n, |k: int| coefficient(c, k))
}

/// The greatest common divisor of two polynomials and the two Bézout
/// coefficients, as `Polynomial::xgcd` computes them: each the sequence of
/// its coefficients from the constant term up to the leading one.
pub uninterp spec fn xgcd_coefficients(x: Seq<u64>, y: Seq<u64>) -> (Seq<u64>, Seq<u64>, Seq<u64>);

/// Whether the Bézout identity `u x + v y = gcd` holds of the values of
/// the five polynomials at the point `z`.
pub open spec fn bezout_identity_at(
    x: Seq<u64>,
    y: Seq<u64>,
    gcd: Seq<u64>,
    u: Seq<u64>,
    v: Seq<u64>,
    z: XWord,
) -> bool {
    x_add(x_mul(value_at(u, z), value_at(x, z)), x_mul(value_at(v, z), value_at(y, z)))
        == value_at(gcd, z)
}

/// Runs the extended Euclidean algorithm `Polynomial::xgcd` on the two
/// polynomials with the given coefficients. The three results are read out
/// with `into_coefficients`, which drops leading zeros, and `value`, which
/// gives canonical representatives. The algorithm returns a greatest common
/// divisor `gcd` and coefficients `u` and `v` with `gcd = u x + v y`; two
/// equal polynomials have equal values at every point of the extension
/// field, and that is how the identity is stated here.
#[verifier::external_body]
pub(crate) fn polynomial_xgcd(x: &Vec<u64>, y: &Vec<u64>) -> (r: (Vec<u64>, Vec<u64>, Vec<u64>))
    requires
        canonical_coefficients(x@),
        canonical_coefficients(y@),
    ensures
        (r.0@, r.1@, r.2@) == xgcd_coefficients(x@, y@),
        canonical_coefficients(r.0@),
        canonical_coefficients(r.1@),
        canonical_coefficients(r.2@),
        forall|z: XWord| z.wf() ==> #[trigger] bezout_identity_at(x@, y@, r.0@, r.1@, r.2@, z),
{
    let x = Polynomial::new(x.iter().map(|&c| BFieldElement::new(c)).collect());
    let y = Polynomial::new(y.iter().map(|&c| BFieldElement::new(c)).collect());
    let (gcd, a, b) = Polynomial::xgcd(x, y);
    let gcd = gcd.into_coefficients().iter().map(|c| c.value()).collect();
    let a = a.into_coefficients().iter().map(|c| c.value()).collect();
    let b = b.into_coefficients().iter().map(|c| c.value()).collect();
    (gcd, a, b)
}

/// The product of the polynomial `p` and the linear factor `x - root`.
pub fn multiply_by_linear(p: &Vec<u64>, root: u64) -> (r: Vec<u64>)
    requires
        canonical_coefficients(p@),
        root < P,
        p.len() < usize::MAX,
    ensures
        r@ == times_linear(p@, root),
        canonical_coefficients(r@),
{
    let mut r: Vec<u64> = Vec::new();
    let mut k: usize = 0;
    while k <= p.len()
        invariant
            k <= p.len() + 1,
            p.len() < usize::MAX,
            root < P,
            canonical_coefficients(p@),
            canonical_coefficients(r@),
            r.len() == k,
            forall|m: int| 0 <= m < k ==> r@[m] == #[trigger] times_linear(p@, root)[m],
        decreases p.len() + 1 - k,
    {
        let lower: u64 = if k > 0 {
            p[k - 1]
        } else {
            0
        };
        let upper: u64 = if k < p.len() {
            p[k]
        } else {
            0
        };
        r.push(bfe_sub(lower, bfe_mul(root, upper)));
        k += 1;
    }
    assert(r@ =~= times_linear(p@, root));
    r
}

/// The monic polynomial whose roots are the given values.
pub fn polynomial_with_roots(roots: &Vec<u64>) -> (p: Vec<u64>)
    requires
        canonical_coefficients(roots@),
        roots.len() < usize::MAX - 1,
    ensures
        p@ == roots_polynomial(roots@),
        p.len() == roots.len() + 1,
        canonical_coefficients(p@),
{
    let mut p: Vec<u64> = Vec::new();
    p.push(1);
    let mut i: usize = 0;
    assert(roots@.take(0) =~= Seq::empty());
    while i < roots.len()
        invariant
            i <= roots.len(),
            roots.len() < usize::MAX - 1,
            canonical_coefficients(roots@),
            canonical_coefficients(p@),
            p.len() == i + 1,
            p@ == roots_polynomial(roots@.take(i as int)),
        decreases roots.len() - i,
    {
        proof {
            assert(roots@.take(i + 1).drop_last() =~= roots@.take(i as int));
        }
        p = multiply_by_linear(&p, roots[i]);
        i += 1;
    }
    proof {
        assert(roots@.take(roots.len() as int) =~= roots@);
    }
    p
}

/// The formal derivative of the polynomial `p`.
pub fn derivative(p: &Vec<u64>) -> (d: Vec<u64>)
    requires
        canonical_coefficients(p@),
    ensures
        d@ == formal_derivative(p@),
        canonical_coefficients(d@),
{
    let mut d: Vec<u64> = Vec::new();
    let mut k: usize = 1;
    while k < p.len()
        invariant
            1 <= k,
            k <= p.len() || k == 1,
            canonical_coefficients(p@),
            canonical_coefficients(d@),
            d.len() == k - 1,
            forall|m: int| 0 <= m < k - 1 ==> d@[m] == #[trigger] formal_derivative(p@)[m],
        decreases p.len() - k,
    {
        let factor: u64 = canonical(k as u64);
        d.push(bfe_mul(factor, p[k]));
        k += 1;
    }
    assert(d@ =~= formal_derivative(p@));
    d
}

/// The fault, if any, in a greatest common divisor and two Bézout
/// coefficients that are to certify `n` distinct addresses: the divisor must
/// be the constant one, the first coefficient must fit in `n` entries and
/// the second in `n + 1`.
pub open spec fn bezout_fault(gcd: Seq<u64>, b0: Seq<u64>, b1: Seq<u64>, n: nat) -> Option<
    RamTableError,
> {
    if gcd != seq![1u64] {
        Some(RamTableError::RepeatedAddress)
    } else if b0.len() > n {
        Some(RamTableError::BezoutCoefficient0Degree)
    } else if b1.len() > n + 1 {
        Some(RamTableError::BezoutCoefficient1Degree)
    } else {
        None
    }
}

/// A copy of `c` cut off or filled up with zeros to `n` entries.
pub fn resize_coefficients(c: &Vec<u64>, n: usize) -> (r: Vec<u64>)
    ensures
        r@ == resized(c@, n as nat),
{
    let mut r: Vec<u64> = Vec::new();
    let mut k: usize = 0;
    while k < n
        invariant
            k <= n,
            r.len() == k,
            forall|m: int| 0 <= m < k ==> r@[m] == coefficient(c@, m),
        decreases n - k,
    {
        let entry: u64 = if k < c.len() {
            c[k]
        } else {
            0
        };
        r.push(entry);
        k += 1;
    }
    assert(r@ =~= resized(c@, n as nat));
    r
}

/// Checks a greatest common divisor and two Bézout coefficients against the
/// number `n` of addresses, and brings both coefficients to `n` entries.
pub fn check_bezout(gcd: &Vec<u64>, b0: &Vec<u64>, b1: &Vec<u64>, n: usize) -> (r: Result<
    (Vec<u64>, Vec<u64>),
    RamTableError,
>)
    ensures
        match r {
            Ok(pair) => bezout_fault(gcd@, b0@, b1@, n as nat) is None && pair.0@ == resized(
                b0@,
                n as nat,
            ) && pair.1@ == resized(b1@, n as nat),
            Err(e) => bezout_fault(gcd@, b0@, b1@, n as nat) == Some(e),
        },
{
    if gcd.len() != 1 || gcd[0] != 1 {
        assert(gcd@ != seq![1u64]) by {
            if gcd@ == seq![1u64] {
                assert(seq![1u64].len() == 1);
                assert(seq![1u64][0] == 1);
            }
        }
        return Err(RamTableError::RepeatedAddress);
    }
    assert(gcd@ =~= seq![1u64]);
    if b0.len() > n {
        return Err(RamTableError::BezoutCoefficient0Degree);
    }
    if b1.len() > n && b1.len() - n > 1 {
        return Err(RamTableError::BezoutCoefficient1Degree);
    }
    Ok((resize_coefficients(b0, n), resize_coefficients(b1, n)))
}

/// The greatest common divisor and the Bézout coefficients of the
/// polynomial with the given roots and its formal derivative.
pub open spec fn bezout_of(addrs: Seq<u64>) -> (Seq<u64>, Seq<u64>, Seq<u64>) {
    xgcd_coefficients(roots_polynomial(addrs), formal_derivative(roots_polynomial(addrs)))
}

/// The fault, if any, in the Bézout coefficients of the given addresses.
pub open spec fn bezout_fault_of(addrs: Seq<u64>) -> Option<RamTableError> {
    bezout_fault(bezout_of(addrs).0, bezout_of(addrs).1, bezout_of(addrs).2, addrs.len())
}

/// Whether the Bézout identity holds of the greatest common divisor and
/// the Bézout coefficients of the given addresses, at every point of the
/// extension field.
pub open spec fn bezout_identity_of(addrs: Seq<u64>) -> bool {
    forall|z: XWord|
        z.wf() ==> #[trigger] bezout_identity_at(
            roots_polynomial(addrs),
            formal_derivative(roots_polynomial(addrs)),
            bezout_of(addrs).0,
            bezout_of(addrs).1,
            bezout_of(addrs).2,
            z,
        )
}

/// Whether the greatest common divisor and the two Bézout coefficients of
/// the given addresses have canonical coefficients.
pub open spec fn bezout_is_canonical(addrs: Seq<u64>) -> bool {
    &&& canonical_coefficients(bezout_of(addrs).0)
    &&& canonical_coefficients(bezout_of(addrs).1)
    &&& canonical_coefficients(bezout_of(addrs).2)
}

/// Whether the Bézout coefficients of the given addresses fit into their
/// columns with the degrees that the constraints count on: the first has
/// fewer terms than there are addresses, so that its leading entry is
/// zero, and the second has no more terms than there are addresses, so
/// that none is cut off.
pub open spec fn bezout_terms_fit(addrs: Seq<u64>) -> bool {
    &&& bezout_of(addrs).1.len() < addrs.len()
    &&& bezout_of(addrs).2.len() <= addrs.len()
}

/// The two Bézout coefficients of the given addresses, each brought to one
/// entry per address.
pub open spec fn bezout_columns(addrs: Seq<u64>) -> (Seq<u64>, Seq<u64>) {
    (resized(bezout_of(addrs).1, addrs.len()), resized(bezout_of(addrs).2, addrs.len()))
}

/// The Bézout coefficients for the given distinct addresses, one pair of
/// entries per address, or the fault that was found in them.
pub fn bezout_coefficients(addrs: &Vec<u64>) -> (r: Result<(Vec<u64>, Vec<u64>), RamTableError>)
    requires
        canonical_coefficients(addrs@),
        addrs.len() < usize::MAX - 1,
    ensures
        match r {
            Ok(pair) => bezout_fault_of(addrs@) is None && (pair.0@, pair.1@) == bezout_columns(
                addrs@,
            ) && canonical_coefficients(pair.0@) && canonical_coefficients(pair.1@),
            Err(e) => bezout_fault_of(addrs@) == Some(e),
        },
        bezout_identity_of(addrs@),
        bezout_is_canonical(addrs@),
{
    let p = polynomial_with_roots(addrs);
    let d = derivative(&p);
    let (gcd, b0, b1) = polynomial_xgcd(&p, &d);
    check_bezout(&gcd, &b0, &b1, addrs.len())
}

/// Whether the Bézout coefficients of the given addresses fit into their
/// columns with the degrees that the constraints count on. The
/// coefficients are computed anew and their numbers of terms are compared
/// with the number of addresses.
pub fn bezout_coefficients_fit(addrs: &Vec<u64>) -> (fit: bool)
    requires
        canonical_coefficients(addrs@),
        addrs.len() < usize::MAX - 1,
    ensures
        fit == bezout_terms_fit(addrs@),
        bezout_identity_of(addrs@),
        bezout_is_canonical(addrs@),
{
    let p = polynomial_with_roots(addrs);
    let d = derivative(&p);
    let (_gcd, b0, b1) = polynomial_xgcd(&p, &d);
    b0.len() < addrs.len() && b1.len() <= addrs.len()
}

} // verus!
