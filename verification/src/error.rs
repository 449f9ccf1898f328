use vstd::prelude::*;
use crate::grid_cell::GridCell;

verus! {

/// Why an operation on stitches produced no result.
#[derive(Copy, Clone, Debug, PartialEq, Eq, Structural)]
pub enum StitchError {
    /// A squared distance, or a running total, does not fit the integer width.
    ArithmeticOverflow,
    /// Two consecutive half-stitches where the first ends exactly where the
    /// second starts. Holds the starts of the first and of the second.
    InvalidSequence(GridCell, GridCell),
}

} // verus!
