//! What can go wrong when a tape is built or simplified.
use vstd::prelude::*;

verus! {

/// The errors that the library returns.
#[derive(Clone, Copy, Debug, PartialEq, Eq, Structural)]
pub enum Error {
    /// A node is not part of the context that it was used with.
    BadNode,
    /// A choice vector has the first length where the tape needs the
    /// second.
    BadChoiceSlice(usize, usize),
    /// A tape without operations has no root to work from.
    EmptyTape,
    /// The expression may need more slots than 32 bits can number.
    TooManyNodes,
}

} // verus!
