//! The ways in which a request to the board can be refused.

use vstd::prelude::*;

verus! {

/// Why the board refused a request.
#[derive(Clone, Copy, Debug, PartialEq, Eq, Structural)]
pub enum BoardError {
    /// A step of the path names no child of the cell it is applied to, or the
    /// path does not end at a cell that it may address.
    InvalidPath,
    /// Coordinates that had to be subtracted differ in their number of
    /// components.
    ArityMismatch,
    /// A cell that had to be judged for capture does not have the nine
    /// children that win detection is defined for.
    UnsupportedBranchingFactor,
}

} // verus!
