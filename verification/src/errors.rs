//! The fault that a board reports.

use vstd::prelude::*;

verus! {

/// Why an operation on a board failed.
#[derive(Clone, Copy, Debug, PartialEq, Eq, Structural)]
pub enum GameError {
    /// A ball was to be dropped into a column that has no free cell left.
    BoardIsFull,
}

} // verus!
