//! Rings and fields as capability sets with their laws.

use vstd::prelude::*;
use crate::groups::AbelianGroup;

verus! {

/// A commutative ring with unit: the additive and multiplicative structure
/// together with the laws that relate them.
pub trait Ring: AbelianGroup + Copy {
    spec fn spec_zero() -> Self;

    spec fn spec_one() -> Self;

    spec fn spec_add(self, rhs: Self) -> Self;

    spec fn spec_neg(self) -> Self;

    spec fn spec_mul(self, rhs: Self) -> Self;

    /// The identity of the group is the zero of the ring.
    proof fn lemma_identity_is_zero()
        ensures
            Self::spec_identity() == Self::spec_zero(),
    ;

    /// An element and its inverse in the group add up to zero.
    proof fn lemma_add_inverse(a: Self)
        ensures
            a.spec_add(a.spec_inverse()) == Self::spec_zero(),
    ;

    proof fn lemma_add_commutative(a: Self, b: Self)
        ensures
            a.spec_add(b) == b.spec_add(a),
    ;

    proof fn lemma_add_associative(a: Self, b: Self, c: Self)
        ensures
            a.spec_add(b).spec_add(c) == a.spec_add(b.spec_add(c)),
    ;

    proof fn lemma_add_zero(a: Self)
        ensures
            a.spec_add(Self::spec_zero()) == a,
    ;

    proof fn lemma_add_neg(a: Self)
        ensures
            a.spec_add(a.spec_neg()) == Self::spec_zero(),
    ;

    proof fn lemma_mul_commutative(a: Self, b: Self)
        ensures
            a.spec_mul(b) == b.spec_mul(a),
    ;

    proof fn lemma_mul_associative(a: Self, b: Self, c: Self)
        ensures
            a.spec_mul(b).spec_mul(c) == a.spec_mul(b.spec_mul(c)),
    ;

    proof fn lemma_mul_one(a: Self)
        ensures
            a.spec_mul(Self::spec_one()) == a,
    ;

    proof fn lemma_distributive(a: Self, b: Self, c: Self)
        ensures
            a.spec_mul(b.spec_add(c)) == a.spec_mul(b).spec_add(a.spec_mul(c)),
    ;

    fn zero() -> (r: Self)
        ensures
            r == Self::spec_zero(),
    ;

    fn one() -> (r: Self)
        ensures
            r == Self::spec_one(),
    ;

    fn is_zero(&self) -> (b: bool)
        ensures
            b == (*self == Self::spec_zero()),
    ;

    fn equals(self, rhs: Self) -> (same: bool)
        ensures
            same == (self == rhs),
    ;

    fn add(self, rhs: Self) -> (r: Self)
        ensures
            r == self.spec_add(rhs),
    ;

    fn neg(self) -> (r: Self)
        ensures
            r == self.spec_neg(),
    ;

    fn sub(self, rhs: Self) -> (r: Self)
        ensures
            r == self.spec_add(rhs.spec_neg()),
    ;

    fn mul(self, rhs: Self) -> (r: Self)
        ensures
            r == self.spec_mul(rhs),
    ;
}

/// A ring in which every element but zero has a multiplicative inverse.
pub trait Field: Ring {
    spec fn spec_inv(self) -> Self;

    proof fn lemma_zero_is_not_one()
        ensures
            Self::spec_zero() != Self::spec_one(),
    ;

    proof fn lemma_mul_inverse(a: Self)
        requires
            a != Self::spec_zero(),
        ensures
            a.spec_mul(a.spec_inv()) == Self::spec_one(),
    ;

    /// Returns the multiplicative inverse of a nonzero element.
    fn multiplicative_inverse(&self) -> (r: Self)
        requires
            *self != Self::spec_zero(),
        ensures
            r == self.spec_inv(),
    ;

    fn div(self, rhs: Self) -> (r: Self)
        requires
            rhs != Self::spec_zero(),
        ensures
            r == self.spec_mul(rhs.spec_inv()),
    ;
}

/// Zero is neutral on the left as well.
pub proof fn lemma_zero_add<R: Ring>(a: R)
    ensures
        R::spec_zero().spec_add(a) == a,
{
    R::lemma_add_commutative(R::spec_zero(), a);
    R::lemma_add_zero(a);
}

/// The negative cancels from the left as well.
pub proof fn lemma_neg_add<R: Ring>(a: R)
    ensures
        a.spec_neg().spec_add(a) == R::spec_zero(),
{
    R::lemma_add_commutative(a.spec_neg(), a);
    R::lemma_add_neg(a);
}

/// A common summand can be cancelled.
pub proof fn lemma_add_cancel<R: Ring>(a: R, b: R, c: R)
    requires
        a.spec_add(c) == b.spec_add(c),
    ensures
        a == b,
{
    R::lemma_add_associative(a, c, c.spec_neg());
    R::lemma_add_associative(b, c, c.spec_neg());
    R::lemma_add_neg(c);
    R::lemma_add_zero(a);
    R::lemma_add_zero(b);
}

/// The negative of an element is the only one that cancels it.
pub proof fn lemma_neg_unique<R: Ring>(a: R, b: R)
    requires
        a.spec_add(b) == R::spec_zero(),
    ensures
        b == a.spec_neg(),
{
    R::lemma_add_commutative(a, b);
    lemma_neg_add(a);
    lemma_add_cancel(b, a.spec_neg(), a);
}

/// Negating twice gives the element back.
/// The inverse of an element in the group is its negative in the ring, and
/// the element combines with it to the identity of the group.
pub proof fn lemma_inverse_is_neg<R: Ring>(a: R)
    ensures
        a.spec_inverse() == a.spec_neg(),
        a.spec_add(a.spec_inverse()) == R::spec_identity(),
{
    R::lemma_add_inverse(a);
    R::lemma_identity_is_zero();
    lemma_neg_unique(a, a.spec_inverse());
}

pub proof fn lemma_neg_neg<R: Ring>(a: R)
    ensures
        a.spec_neg().spec_neg() == a,
{
    lemma_neg_add(a);
    lemma_neg_unique(a.spec_neg(), a);
}

/// Any product with zero is zero.
pub proof fn lemma_mul_zero<R: Ring>(a: R)
    ensures
        a.spec_mul(R::spec_zero()) == R::spec_zero(),
        R::spec_zero().spec_mul(a) == R::spec_zero(),
{
    let z = R::spec_zero();
    let x = a.spec_mul(z);
    R::lemma_add_zero(z);
    R::lemma_distributive(a, z, z);
    lemma_zero_add(x);
    lemma_add_cancel(x, z, x);
    R::lemma_mul_commutative(a, z);
}

/// A negative factor can be pulled out of a product.
pub proof fn lemma_mul_neg<R: Ring>(a: R, b: R)
    ensures
        a.spec_mul(b.spec_neg()) == a.spec_mul(b).spec_neg(),
        a.spec_neg().spec_mul(b) == a.spec_mul(b).spec_neg(),
{
    R::lemma_distributive(a, b, b.spec_neg());
    R::lemma_add_neg(b);
    lemma_mul_zero(a);
    lemma_neg_unique(a.spec_mul(b), a.spec_mul(b.spec_neg()));
    R::lemma_mul_commutative(a.spec_neg(), b);
    R::lemma_mul_commutative(a, b);
    R::lemma_distributive(b, a, a.spec_neg());
    R::lemma_add_neg(a);
    lemma_mul_zero(b);
    lemma_neg_unique(b.spec_mul(a), b.spec_mul(a.spec_neg()));
}

/// Multiplication distributes from the right as well.
pub proof fn lemma_distributive_right<R: Ring>(a: R, b: R, c: R)
    ensures
        a.spec_add(b).spec_mul(c) == a.spec_mul(c).spec_add(b.spec_mul(c)),
{
    R::lemma_mul_commutative(a.spec_add(b), c);
    R::lemma_distributive(c, a, b);
    R::lemma_mul_commutative(c, a);
    R::lemma_mul_commutative(c, b);
}

/// The last two of three summands can change places.
pub proof fn lemma_add_swap<R: Ring>(a: R, b: R, c: R)
    ensures
        a.spec_add(b).spec_add(c) == a.spec_add(c).spec_add(b),
{
    R::lemma_add_associative(a, b, c);
    R::lemma_add_commutative(b, c);
    R::lemma_add_associative(a, c, b);
}

/// One is neutral on the left too.
pub proof fn lemma_one_mul<R: Ring>(a: R)
    ensures
        R::spec_one().spec_mul(a) == a,
{
    R::lemma_mul_commutative(R::spec_one(), a);
    R::lemma_mul_one(a);
}

/// Two sums of two are added term by term.
pub proof fn lemma_add_interchange<R: Ring>(a: R, b: R, c: R, d: R)
    ensures
        a.spec_add(b).spec_add(c.spec_add(d)) == a.spec_add(c).spec_add(b.spec_add(d)),
{
    R::lemma_add_associative(a, b, c.spec_add(d));
    R::lemma_add_associative(b, c, d);
    R::lemma_add_commutative(b, c);
    R::lemma_add_associative(c, b, d);
    R::lemma_add_associative(a, c, b.spec_add(d));
}

/// The quotient of `a` by `p`, times `p`, is `a`.
pub proof fn lemma_quotient_times<F: Field>(a: F, p: F)
    requires
        p != F::spec_zero(),
    ensures
        a.spec_mul(p.spec_inv()).spec_mul(p) == a,
{
    F::lemma_mul_associative(a, p.spec_inv(), p);
    F::lemma_mul_commutative(p.spec_inv(), p);
    F::lemma_mul_inverse(p);
    F::lemma_mul_one(a);
}

/// Taking from `a` its quotient by `p`, times `p`, leaves zero.
pub proof fn lemma_quotient_clears<F: Field>(a: F, p: F)
    requires
        p != F::spec_zero(),
    ensures
        a.spec_add(a.spec_mul(p.spec_inv()).spec_neg().spec_mul(p)) == F::spec_zero(),
        a.spec_add(a.spec_mul(p.spec_inv()).spec_mul(p).spec_neg()) == F::spec_zero(),
{
    lemma_quotient_times(a, p);
    lemma_mul_neg(a.spec_mul(p.spec_inv()), p);
    F::lemma_add_neg(a);
}

/// Where `p` times `y` and `d` add up to zero, `y` is `d` times the negated
/// inverse of `p`.
pub proof fn lemma_solve<F: Field>(p: F, y: F, d: F)
    requires
        p != F::spec_zero(),
        p.spec_mul(y).spec_add(d) == F::spec_zero(),
    ensures
        y == p.spec_inv().spec_neg().spec_mul(d),
{
    let q = p.spec_inv();
    lemma_neg_unique(p.spec_mul(y), d);
    lemma_mul_neg(q.spec_neg(), p.spec_mul(y));
    lemma_mul_neg(q, p.spec_mul(y));
    lemma_neg_neg(q.spec_mul(p.spec_mul(y)));
    F::lemma_mul_associative(q, p, y);
    F::lemma_mul_commutative(q, p);
    F::lemma_mul_inverse(p);
    lemma_one_mul(y);
}

} // verus!
