//! The field with two elements, carried by `bool`.

use vstd::prelude::*;
use crate::groups::{AbelianGroup, Group};
use crate::rings::{Field, Ring};

verus! {

/// An element of GF(2): `false` is zero and `true` is one. Addition is
/// exclusive or, multiplication is conjunction.
#[derive(Copy, Clone, Debug, PartialEq, Eq, Structural)]
pub struct Boolean(pub bool);

impl From<bool> for Boolean {
    fn from(b: bool) -> (r: Self) {
        Self(b)
    }
}

impl vstd::std_specs::convert::FromSpecImpl<bool> for Boolean {
    open spec fn obeys_from_spec() -> bool {
        true
    }

    open spec fn from_spec(b: bool) -> Self {
        Boolean(b)
    }
}

impl From<Boolean> for bool {
    fn from(b: Boolean) -> (r: Self) {
        b.0
    }
}

impl vstd::std_specs::convert::FromSpecImpl<Boolean> for bool {
    open spec fn obeys_from_spec() -> bool {
        true
    }

    open spec fn from_spec(b: Boolean) -> Self {
        b.0
    }
}

impl core::ops::Add for Boolean {
    type Output = Self;

    /// Addition in GF(2) is exclusive or.
    fn add(self, rhs: Self) -> (r: Self) {
        Self(self.0 ^ rhs.0)
    }
}

impl vstd::std_specs::ops::AddSpecImpl for Boolean {
    open spec fn obeys_add_spec() -> bool {
        true
    }

    open spec fn add_req(self, rhs: Self) -> bool {
        true
    }

    open spec fn add_spec(self, rhs: Self) -> Self {
        Boolean(self.0 != rhs.0)
    }
}

impl core::ops::AddAssign for Boolean {
    fn add_assign(&mut self, rhs: Self)
        ensures
            final(self).0 == (old(self).0 != rhs.0),
    {
        self.0 = self.0 ^ rhs.0;
    }
}

impl core::ops::Sub for Boolean {
    type Output = Self;

    /// Subtraction coincides with addition, since every element is its own
    /// negative.
    fn sub(self, rhs: Self) -> (r: Self) {
        self + rhs
    }
}

impl vstd::std_specs::ops::SubSpecImpl for Boolean {
    open spec fn obeys_sub_spec() -> bool {
        true
    }

    open spec fn sub_req(self, rhs: Self) -> bool {
        true
    }

    open spec fn sub_spec(self, rhs: Self) -> Self {
        Boolean(self.0 != rhs.0)
    }
}

impl core::ops::SubAssign for Boolean {
    fn sub_assign(&mut self, rhs: Self)
        ensures
            final(self).0 == (old(self).0 != rhs.0),
    {
        self.0 = self.0 ^ rhs.0;
    }
}

impl core::ops::Neg for Boolean {
    type Output = Self;

    /// Negation is the identity map.
    fn neg(self) -> (r: Self) {
        self
    }
}

impl vstd::std_specs::ops::NegSpecImpl for Boolean {
    open spec fn obeys_neg_spec() -> bool {
        true
    }

    open spec fn neg_req(self) -> bool {
        true
    }

    open spec fn neg_spec(self) -> Self {
        self
    }
}

impl core::ops::Mul for Boolean {
    type Output = Self;

    /// Multiplication in GF(2) is conjunction.
    fn mul(self, rhs: Self) -> (r: Self) {
        Self(self.0 && rhs.0)
    }
}

impl vstd::std_specs::ops::MulSpecImpl for Boolean {
    open spec fn obeys_mul_spec() -> bool {
        true
    }

    open spec fn mul_req(self, rhs: Self) -> bool {
        true
    }

    open spec fn mul_spec(self, rhs: Self) -> Self {
        Boolean(self.0 && rhs.0)
    }
}

impl core::ops::MulAssign for Boolean {
    fn mul_assign(&mut self, rhs: Self)
        ensures
            final(self).0 == (old(self).0 && rhs.0),
    {
        self.0 = self.0 && rhs.0;
    }
}

impl core::ops::Div for Boolean {
    type Output = Self;

    /// Division multiplies by the divisor, which is its own inverse when it
    /// is not zero.
    fn div(self, rhs: Self) -> (r: Self) {
        self * rhs
    }
}

impl vstd::std_specs::ops::DivSpecImpl for Boolean {
    open spec fn obeys_div_spec() -> bool {
        true
    }

    open spec fn div_req(self, rhs: Self) -> bool {
        true
    }

    open spec fn div_spec(self, rhs: Self) -> Self {
        Boolean(self.0 && rhs.0)
    }
}

impl core::ops::DivAssign for Boolean {
    fn div_assign(&mut self, rhs: Self)
        ensures
            final(self).0 == (old(self).0 && rhs.0),
    {
        self.0 = self.0 && rhs.0;
    }
}

impl Group for Boolean {
    open spec fn spec_identity() -> Self {
        Boolean(false)
    }

    open spec fn spec_inverse(&self) -> Self {
        *self
    }

    fn identity() -> (e: Self) {
        Self(false)
    }

    /// The element itself: under exclusive or each element is its own
    /// inverse.
    fn inverse(&self) -> (r: Self) {
        *self
    }
}

impl AbelianGroup for Boolean {

}

impl Ring for Boolean {
    open spec fn spec_zero() -> Self {
        Boolean(false)
    }

    open spec fn spec_one() -> Self {
        Boolean(true)
    }

    open spec fn spec_add(self, rhs: Self) -> Self {
        Boolean(self.0 != rhs.0)
    }

    open spec fn spec_neg(self) -> Self {
        self
    }

    open spec fn spec_mul(self, rhs: Self) -> Self {
        Boolean(self.0 && rhs.0)
    }

    proof fn lemma_identity_is_zero() {
    }

    proof fn lemma_add_inverse(a: Self) {
    }

    proof fn lemma_add_commutative(a: Self, b: Self) {
    }

    proof fn lemma_add_associative(a: Self, b: Self, c: Self) {
    }

    proof fn lemma_add_zero(a: Self) {
    }

    proof fn lemma_add_neg(a: Self) {
    }

    proof fn lemma_mul_commutative(a: Self, b: Self) {
    }

    proof fn lemma_mul_associative(a: Self, b: Self, c: Self) {
    }

    proof fn lemma_mul_one(a: Self) {
    }

    proof fn lemma_distributive(a: Self, b: Self, c: Self) {
    }

    fn zero() -> (r: Self) {
        Self(false)
    }

    fn one() -> (r: Self) {
        Self(true)
    }

    fn is_zero(&self) -> (b: bool) {
        !self.0
    }

    fn equals(self, rhs: Self) -> (same: bool) {
        self.0 == rhs.0
    }

    fn add(self, rhs: Self) -> (r: Self) {
        self + rhs
    }

    fn neg(self) -> (r: Self) {
        core::ops::Neg::neg(self)
    }

    fn sub(self, rhs: Self) -> (r: Self) {
        self - rhs
    }

    fn mul(self, rhs: Self) -> (r: Self) {
        self * rhs
    }
}

impl Field for Boolean {
    open spec fn spec_inv(self) -> Self {
        self
    }

    proof fn lemma_zero_is_not_one() {
    }

    proof fn lemma_mul_inverse(a: Self) {
    }

    /// The only nonzero element is one, which is its own inverse.
    fn multiplicative_inverse(&self) -> (r: Self) {
        *self
    }

    fn div(self, rhs: Self) -> (r: Self) {
        self / rhs
    }
}

} // verus!
