//! The failures that the library reports.

use vstd::prelude::*;

verus! {

/// Why an operation of the library refused its input.
#[derive(Clone, Copy, Debug, PartialEq, Eq, Structural)]
pub enum TopologyError {
    /// A cell or a restriction map was malformed when it was built.
    Construction,
    /// Vectors or matrices of incompatible shapes were combined.
    DimensionMismatch,
    /// A cell or a stalk assignment that was referred to is absent.
    Lookup,
}

} // verus!
