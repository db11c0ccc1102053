//! Decisions recorded for `min` and `max` operations.
use vstd::prelude::*;

verus! {

/// Which operand of a `min` or `max` can reach the output in a region.
#[derive(Clone, Copy, Debug, PartialEq, Eq, Structural)]
pub enum Choice {
    /// Only the left-hand operand matters.
    Left,
    /// Only the right-hand operand matters.
    Right,
    /// Both operands may matter.
    Both,
    /// Nothing has been recorded yet; never part of a finished choice vector.
    Unknown,
}

impl Choice {
    /// True for the three values that a finished choice vector may hold.
    pub open spec fn is_known(self) -> bool {
        self != Choice::Unknown
    }

    /// Tells whether this choice may appear in a finished choice vector.
    pub fn known(&self) -> (r: bool)
        ensures
            r == self.is_known(),
    {
        match self {
            Choice::Unknown => false,
            _ => true,
        }
    }
}

} // verus!
