//! Group-theoretic capabilities.

use vstd::prelude::*;

verus! {

/// A group: a set with an operation, an identity element for it, and for
/// each element the inverse that combines with it to the identity. The
/// operation, and with it the laws of identity and inverse, come with the
/// structure that has one: for a ring, its addition.
pub trait Group: Sized {
    /// The identity element.
    spec fn spec_identity() -> Self;

    /// The element that combines with `self` to the identity.
    spec fn spec_inverse(&self) -> Self;

    /// Returns the identity element of the group.
    fn identity() -> (e: Self)
        ensures
            e == Self::spec_identity(),
    ;

    /// Returns the inverse of an element.
    fn inverse(&self) -> (r: Self)
        ensures
            r == self.spec_inverse(),
    ;
}

/// A group written additively, whose operation commutes.
pub trait AbelianGroup: Group {

}

/// A group written multiplicatively, whose operation need not commute.
pub trait NonAbelianGroup: Group {

}

} // verus!
