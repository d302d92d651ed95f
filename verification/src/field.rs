//! Arithmetic of the base field and of its cubic extension.
//!
//! A base field element is a `u64` below the prime [`P`]. An extension field
//! element is an [`XWord`]: a polynomial of degree below three over the base
//! field, taken modulo `x^3 - x + 1`.

use twenty_first::math::b_field_element::BFieldElement;
use twenty_first::math::traits::Inverse;
use vstd::prelude::*;

verus! {

/// The prime modulus of the base field: 2^64 - 2^32 + 1.
pub const P: u64 = 0xffff_ffff_0000_0001;

/// The residue of `a` modulo the prime.
pub open spec fn reduce(a: int) -> u64 {
    (a % (P as int)) as u64
}

/// Sum of two base field elements.
pub open spec fn b_add(a: u64, b: u64) -> u64 {
    reduce(a + b)
}

/// Difference of two base field elements.
pub open spec fn b_sub(a: u64, b: u64) -> u64 {
    reduce(a - b)
}

/// Product of two base field elements.
pub open spec fn b_mul(a: u64, b: u64) -> u64 {
    reduce(a * b)
}

/// `r` is zero where `a` is zero, and the multiplicative inverse of `a`
/// everywhere else.
pub open spec fn is_inverse_or_zero(a: u64, r: u64) -> bool {
    &&& r < P
    &&& a == 0 ==> r == 0
    &&& a != 0 ==> b_mul(a, r) == 1
}

/// Adds two base field elements with `BFieldElement`'s `Add`, which yields
/// the canonical residue of the sum.
#[verifier::external_body]
pub(crate) fn bfe_add(a: u64, b: u64) -> (r: u64)
    requires
        a < P,
        b < P,
    ensures
        r == b_add(a, b),
{
    (BFieldElement::new(a) + BFieldElement::new(b)).value()
}

/// Subtracts two base field elements with `BFieldElement`'s `Sub`, which
/// yields the canonical residue of the difference.
#[verifier::external_body]
pub(crate) fn bfe_sub(a: u64, b: u64) -> (r: u64)
    requires
        a < P,
        b < P,
    ensures
        r == b_sub(a, b),
{
    (BFieldElement::new(a) - BFieldElement::new(b)).value()
}

/// Multiplies two base field elements with `BFieldElement`'s `Mul`, which
/// yields the canonical residue of the product.
#[verifier::external_body]
pub(crate) fn bfe_mul(a: u64, b: u64) -> (r: u64)
    requires
        a < P,
        b < P,
    ensures
        r == b_mul(a, b),
{
    (BFieldElement::new(a) * BFieldElement::new(b)).value()
}

/// Inverts a base field element with `Inverse::inverse_or_zero`: zero stays
/// zero, and the product of any other element with the result is one.
#[verifier::external_body]
pub(crate) fn bfe_inverse_or_zero(a: u64) -> (r: u64)
    requires
        a < P,
    ensures
        is_inverse_or_zero(a, r),
{
    BFieldElement::new(a).inverse_or_zero().value()
}

/// The canonical representative of any `u64`.
pub fn canonical(a: u64) -> (r: u64)
    ensures
        r == reduce(a as int),
        r < P,
{
    if a >= P {
        a - P
    } else {
        a
    }
}

/// An element of the cubic extension field: `c0 + c1 x + c2 x^2`.
#[derive(Clone, Copy, Debug, PartialEq, Eq, Structural)]
pub struct XWord {
    pub c0: u64,
    pub c1: u64,
    pub c2: u64,
}

/// The additive identity of the extension field.
pub open spec fn x_zero() -> XWord {
    XWord { c0: 0, c1: 0, c2: 0 }
}

/// The multiplicative identity of the extension field.
pub open spec fn x_one() -> XWord {
    XWord { c0: 1, c1: 0, c2: 0 }
}

/// The base field element `a` as an element of the extension field.
pub open spec fn x_lift(a: u64) -> XWord {
    XWord { c0: a, c1: 0, c2: 0 }
}

/// Sum of two extension field elements.
#[verifier::opaque]
pub open spec fn x_add(a: XWord, b: XWord) -> XWord {
    XWord { c0: b_add(a.c0, b.c0), c1: b_add(a.c1, b.c1), c2: b_add(a.c2, b.c2) }
}

/// Difference of two extension field elements.
#[verifier::opaque]
pub open spec fn x_sub(a: XWord, b: XWord) -> XWord {
    XWord { c0: b_sub(a.c0, b.c0), c1: b_sub(a.c1, b.c1), c2: b_sub(a.c2, b.c2) }
}

/// Product of two extension field elements: the product of the two
/// polynomials, reduced by `x^3 = x - 1`.
#[verifier::opaque]
pub open spec fn x_mul(a: XWord, b: XWord) -> XWord {
    XWord {
        c0: reduce(a.c0 * b.c0 - a.c2 * b.c1 - a.c1 * b.c2),
        c1: reduce(
            a.c1 * b.c0 + a.c0 * b.c1 - a.c2 * b.c2 + a.c2 * b.c1 + a.c1 * b.c2,
        ),
        c2: reduce(a.c2 * b.c0 + a.c1 * b.c1 + a.c0 * b.c2 + a.c2 * b.c2),
    }
}

impl XWord {
    /// Whether all three coefficients are canonical.
    pub open spec fn wf(self) -> bool {
        self.c0 < P && self.c1 < P && self.c2 < P
    }

    /// The element with the given coefficients, each reduced modulo the prime.
    pub fn new(c0: u64, c1: u64, c2: u64) -> (r: XWord)
        ensures
            r == (XWord { c0: reduce(c0 as int), c1: reduce(c1 as int), c2: reduce(c2 as int) }),
            r.wf(),
    {
        XWord { c0: canonical(c0), c1: canonical(c1), c2: canonical(c2) }
    }

    /// The additive identity.
    pub fn zero() -> (r: XWord)
        ensures
            r == x_zero(),
    {
        XWord { c0: 0, c1: 0, c2: 0 }
    }

    /// The multiplicative identity.
    pub fn one() -> (r: XWord)
        ensures
            r == x_one(),
    {
        XWord { c0: 1, c1: 0, c2: 0 }
    }

    /// Embeds a base field element.
    pub fn lift(a: u64) -> (r: XWord)
        requires
            a < P,
        ensures
            r == x_lift(a),
            r.wf(),
    {
        XWord { c0: a, c1: 0, c2: 0 }
    }

    /// The sum of this element and another.
    pub fn plus(self, other: XWord) -> (r: XWord)
        requires
            self.wf(),
            other.wf(),
        ensures
            r == x_add(self, other),
            r.wf(),
    {
        reveal(x_add);
        XWord {
            c0: bfe_add(self.c0, other.c0),
            c1: bfe_add(self.c1, other.c1),
            c2: bfe_add(self.c2, other.c2),
        }
    }

    /// The difference of this element and another.
    pub fn minus(self, other: XWord) -> (r: XWord)
        requires
            self.wf(),
            other.wf(),
        ensures
            r == x_sub(self, other),
            r.wf(),
    {
        reveal(x_sub);
        XWord {
            c0: bfe_sub(self.c0, other.c0),
            c1: bfe_sub(self.c1, other.c1),
            c2: bfe_sub(self.c2, other.c2),
        }
    }

    /// The product of this element and another.
    pub fn times(self, other: XWord) -> (r: XWord)
        requires
            self.wf(),
            other.wf(),
        ensures
            r == x_mul(self, other),
            r.wf(),
    {
        let a0b0 = bfe_mul(self.c0, other.c0);
        let a0b1 = bfe_mul(self.c0, other.c1);
        let a0b2 = bfe_mul(self.c0, other.c2);
        let a1b0 = bfe_mul(self.c1, other.c0);
        let a1b1 = bfe_mul(self.c1, other.c1);
        let a1b2 = bfe_mul(self.c1, other.c2);
        let a2b0 = bfe_mul(self.c2, other.c0);
        let a2b1 = bfe_mul(self.c2, other.c1);
        let a2b2 = bfe_mul(self.c2, other.c2);
        let cross = bfe_add(a2b1, a1b2);
        let c0 = bfe_sub(a0b0, cross);
        let c1 = bfe_add(bfe_sub(bfe_add(a1b0, a0b1), a2b2), cross);
        let c2 = bfe_add(bfe_add(bfe_add(a2b0, a1b1), a0b2), a2b2);
        proof {
            reveal(x_mul);
            let p00 = self.c0 * other.c0;
            let p01 = self.c0 * other.c1;
            let p02 = self.c0 * other.c2;
            let p10 = self.c1 * other.c0;
            let p11 = self.c1 * other.c1;
            let p12 = self.c1 * other.c2;
            let p20 = self.c2 * other.c0;
            let p21 = self.c2 * other.c1;
            let p22 = self.c2 * other.c2;
            lemma_reduce_add(p21, p12);
            lemma_reduce_sub(p00, p21 + p12);
            lemma_reduce_add(p10, p01);
            lemma_reduce_sub(p10 + p01, p22);
            lemma_reduce_add(p10 + p01 - p22, p21 + p12);
            lemma_reduce_add(p20, p11);
            lemma_reduce_add(p20 + p11, p02);
            lemma_reduce_add(p20 + p11 + p02, p22);
        }
        XWord { c0, c1, c2 }
    }
}

/// The sum of two residues is the residue of the sum.
pub proof fn lemma_reduce_add(a: int, b: int)
    ensures
        b_add(reduce(a), reduce(b)) == reduce(a + b),
{
    vstd::arithmetic::div_mod::lemma_add_mod_noop(a, b, P as int);
}

/// The difference of two residues is the residue of the difference.
pub proof fn lemma_reduce_sub(a: int, b: int)
    ensures
        b_sub(reduce(a), reduce(b)) == reduce(a - b),
{
    vstd::arithmetic::div_mod::lemma_sub_mod_noop(a, b, P as int);
}

/// The product of two residues is the residue of the product.
pub proof fn lemma_reduce_mul(a: int, b: int)
    ensures
        b_mul(reduce(a), reduce(b)) == reduce(a * b),
{
    vstd::arithmetic::div_mod::lemma_mul_mod_noop_general(a, b, P as int);
}

} // verus!
