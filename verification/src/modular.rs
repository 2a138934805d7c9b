//! The field with seven elements: the integers modulo seven.

use vstd::prelude::*;
use crate::groups::{AbelianGroup, Group};
use crate::rings::{Field, Ring};

verus! {

/// An element of GF(7), named by its least residue.
#[derive(Copy, Clone, Debug, PartialEq, Eq, Structural)]
pub enum Gf7 {
    Zero,
    One,
    Two,
    Three,
    Four,
    Five,
    Six,
}

impl Gf7 {
    /// The least residue of the element: an integer from 0 to 6.
    pub open spec fn residue(self) -> int {
        match self {
            Gf7::Zero => 0,
            Gf7::One => 1,
            Gf7::Two => 2,
            Gf7::Three => 3,
            Gf7::Four => 4,
            Gf7::Five => 5,
            Gf7::Six => 6,
        }
    }

    /// The class of the integer `n` modulo seven.
    pub open spec fn class(n: int) -> Gf7 {
        let r = n % 7;
        if r == 0 {
            Gf7::Zero
        } else if r == 1 {
            Gf7::One
        } else if r == 2 {
            Gf7::Two
        } else if r == 3 {
            Gf7::Three
        } else if r == 4 {
            Gf7::Four
        } else if r == 5 {
            Gf7::Five
        } else {
            Gf7::Six
        }
    }

    /// The least residue as a machine integer.
    pub fn value(self) -> (n: u8)
        ensures
            n == self.residue(),
    {
        match self {
            Gf7::Zero => 0,
            Gf7::One => 1,
            Gf7::Two => 2,
            Gf7::Three => 3,
            Gf7::Four => 4,
            Gf7::Five => 5,
            Gf7::Six => 6,
        }
    }

    /// The class of `n` modulo seven.
    pub fn new(n: u64) -> (x: Gf7)
        ensures
            x == Gf7::class(n as int),
    {
        let r = n % 7;
        if r == 0 {
            Gf7::Zero
        } else if r == 1 {
            Gf7::One
        } else if r == 2 {
            Gf7::Two
        } else if r == 3 {
            Gf7::Three
        } else if r == 4 {
            Gf7::Four
        } else if r == 5 {
            Gf7::Five
        } else {
            Gf7::Six
        }
    }
}

/// The product of two residues is in the class of the product of any
/// integers in their classes.
proof fn lemma_product_class(a: Gf7, n: int)
    ensures
        Gf7::class(a.residue() * (n % 7)) == Gf7::class(a.residue() * n),
{
    match a {
        Gf7::Zero => {},
        Gf7::One => {},
        Gf7::Two => {},
        Gf7::Three => {},
        Gf7::Four => {},
        Gf7::Five => {},
        Gf7::Six => {},
    }
}

/// The residue of a class is the remainder of any integer in it.
proof fn lemma_class_residue(n: int)
    ensures
        Gf7::class(n).residue() == n % 7,
{
}

/// The sum of two remainders is in the class of the sum.
proof fn lemma_sum_class(n: int, m: int)
    ensures
        Gf7::class(n % 7 + m % 7) == Gf7::class(n + m),
{
}

impl Group for Gf7 {
    open spec fn spec_identity() -> Self {
        Gf7::Zero
    }

    open spec fn spec_inverse(&self) -> Self {
        Gf7::class(7 - self.residue())
    }

    fn identity() -> (e: Self) {
        Gf7::Zero
    }

    /// The element that adds up to zero with this one.
    fn inverse(&self) -> (r: Self) {
        Gf7::new((7 - self.value()) as u64)
    }
}

impl AbelianGroup for Gf7 {

}

impl Ring for Gf7 {
    open spec fn spec_zero() -> Self {
        Gf7::Zero
    }

    open spec fn spec_one() -> Self {
        Gf7::One
    }

    open spec fn spec_add(self, rhs: Self) -> Self {
        Gf7::class(self.residue() + rhs.residue())
    }

    open spec fn spec_neg(self) -> Self {
        Gf7::class(7 - self.residue())
    }

    open spec fn spec_mul(self, rhs: Self) -> Self {
        Gf7::class(self.residue() * rhs.residue())
    }

    proof fn lemma_identity_is_zero() {
    }

    proof fn lemma_add_inverse(a: Self) {
    }

    proof fn lemma_add_commutative(a: Self, b: Self) {
    }

    proof fn lemma_add_associative(a: Self, b: Self, c: Self) {
    }

    proof fn lemma_add_zero(a: Self) {
    }

    proof fn lemma_add_neg(a: Self) {
    }

    proof fn lemma_mul_commutative(a: Self, b: Self) {
        assert(a.residue() * b.residue() == b.residue() * a.residue()) by (nonlinear_arith);
    }

    proof fn lemma_mul_associative(a: Self, b: Self, c: Self) {
        let x = a.residue();
        let y = b.residue();
        let z = c.residue();
        // (x * y mod 7) * z and x * (y * z mod 7) are both in the class of x * y * z.
        lemma_product_class(c, x * y);
        lemma_product_class(a, y * z);
        assert(a.spec_mul(b).residue() == (x * y) % 7);
        assert(b.spec_mul(c).residue() == (y * z) % 7);
        assert(((x * y) % 7) * z == z * ((x * y) % 7)) by (nonlinear_arith);
        assert(z * (x * y) == x * (y * z)) by (nonlinear_arith);
    }

    proof fn lemma_mul_one(a: Self) {
    }

    proof fn lemma_distributive(a: Self, b: Self, c: Self) {
        let x = a.residue();
        let y = b.residue();
        let z = c.residue();
        let n = x * y;
        let m = x * z;
        lemma_product_class(a, y + z);
        lemma_class_residue(y + z);
        lemma_class_residue(n);
        lemma_class_residue(m);
        lemma_sum_class(n, m);
        assert(x * (y + z) == n + m) by (nonlinear_arith)
            requires
                n == x * y,
                m == x * z,
        ;
    }

    fn zero() -> (r: Self) {
        Gf7::Zero
    }

    fn one() -> (r: Self) {
        Gf7::One
    }

    fn is_zero(&self) -> (b: bool) {
        self.value() == 0
    }

    fn equals(self, rhs: Self) -> (same: bool) {
        self.value() == rhs.value()
    }

    fn add(self, rhs: Self) -> (r: Self) {
        Gf7::new((self.value() + rhs.value()) as u64)
    }

    fn neg(self) -> (r: Self) {
        Gf7::new((7 - self.value()) as u64)
    }

    fn sub(self, rhs: Self) -> (r: Self) {
        let back = Gf7::new((7 - rhs.value()) as u64);
        Gf7::new((self.value() + back.value()) as u64)
    }

    fn mul(self, rhs: Self) -> (r: Self) {
        Gf7::new((self.value() * rhs.value()) as u64)
    }
}

impl Field for Gf7 {
    open spec fn spec_inv(self) -> Self {
        match self {
            Gf7::Zero => Gf7::Zero,
            Gf7::One => Gf7::One,
            Gf7::Two => Gf7::Four,
            Gf7::Three => Gf7::Five,
            Gf7::Four => Gf7::Two,
            Gf7::Five => Gf7::Three,
            Gf7::Six => Gf7::Six,
        }
    }

    proof fn lemma_zero_is_not_one() {
    }

    proof fn lemma_mul_inverse(a: Self) {
    }

    fn multiplicative_inverse(&self) -> (r: Self) {
        match self {
            Gf7::Zero => Gf7::Zero,
            Gf7::One => Gf7::One,
            Gf7::Two => Gf7::Four,
            Gf7::Three => Gf7::Five,
            Gf7::Four => Gf7::Two,
            Gf7::Five => Gf7::Three,
            Gf7::Six => Gf7::Six,
        }
    }

    fn div(self, rhs: Self) -> (r: Self) {
        let inverse = rhs.multiplicative_inverse();
        Gf7::new((self.value() * inverse.value()) as u64)
    }
}

} // verus!
