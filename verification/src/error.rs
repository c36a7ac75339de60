//! What can go wrong while a pattern is loaded.

use vstd::prelude::*;

verus! {

/// Why a pattern text was refused.
#[derive(Clone, Copy, Debug, PartialEq, Eq, Structural)]
pub enum LoadError {
    /// The format hint names neither of the two pattern formats.
    UnsupportedFormat,
    /// The text holds no line of a pattern.
    Empty,
    /// The header line does not declare the grid's columns and rows.
    MalformedHeader,
    /// The grid would hold more cells than a machine word can count.
    TooLarge,
    /// The body is not a sequence of runs closed by `!`.
    MalformedBody,
    /// A run of cells passes the end of the grid.
    OutOfGrid,
}

} // verus!
