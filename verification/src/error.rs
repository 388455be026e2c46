//! Why a tree could not be built.

use vstd::prelude::*;

verus! {

/// The ways in which building a tree fails.
#[derive(Debug, Clone, Copy, PartialEq, Eq, Structural)]
pub enum FastError {
    /// The inputs are empty, or there are not as many values as keys.
    DomainViolation,
    /// The offset of a page does not fit the key type.
    Overflow,
}

} // verus!
