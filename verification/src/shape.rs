//! Errors raised when a construct is put together in a malformed shape.
//! They are reported before anything is evaluated.

use vstd::prelude::*;

verus! {

/// Why a construct was rejected at construction.
#[derive(Clone, Copy, Debug, PartialEq, Eq, Structural)]
pub enum ShapeError {
    /// A comprehension was given no range to iterate.
    MissingRange,
    /// A branch table has no default branch.
    MissingDefault,
    /// A branch table has more than one default branch.
    DuplicateDefault,
    /// The default branch of a branch table is not its last branch.
    DefaultNotLast,
}

} // verus!
