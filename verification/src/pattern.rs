//! A pattern: a grid of its own size that is searched for or copied into
//! the live grid.

use vstd::prelude::*;
use vstd::std_specs::convert::FromSpecImpl;
use crate::error::LoadError;
use crate::field::Field;
use crate::plain::{plain_cells, plain_columns, plain_lines, plain_loads, plain_rows};
use crate::rle::rle_outcome;

verus! {

/// A grid of `rows` by `columns` cells in row-major order, alive or dead.
#[derive(Clone, Debug, PartialEq, Eq)]
pub struct Pattern {
    pub cells: Vec<bool>,
    pub rows: usize,
    pub columns: usize,
}

impl Pattern {
    /// The pattern holds exactly `rows * columns` cells.
    pub open spec fn wf(&self) -> bool {
        self.cells@.len() == self.rows * self.columns
    }

    /// The pattern is the grid with these rows, columns and cells.
    pub open spec fn is_grid(&self, grid: (nat, nat, Seq<bool>)) -> bool {
        self.wf() && self.rows == grid.0 && self.columns == grid.1 && self.cells@ == grid.2
    }

    /// Loads a pattern in the plain format.  The text has to hold a line
    /// of a pattern.
    pub fn from_cells(pattern: &str) -> (loaded: Pattern)
        requires
            plain_loads(pattern@),
        ensures
            loaded.is_grid(
                (
                    plain_rows(pattern@),
                    plain_columns(pattern@),
                    plain_cells(plain_lines(pattern@, 0), plain_columns(pattern@)),
                ),
            ),
    {
        let field = Field::from_cells(pattern);
        Pattern { cells: field.cells, rows: field.rows, columns: field.columns }
    }

    /// Loads a pattern in the run-length encoded format.
    pub fn from_rle(pattern: &str) -> (r: Result<Pattern, LoadError>)
        ensures
            match rle_outcome(pattern@) {
                Ok(grid) => r.is_ok() && r.unwrap().is_grid(grid),
                Err(e) => r == Err::<Pattern, LoadError>(e),
            },
    {
        match Field::from_rle(pattern) {
            Ok(field) => Ok(Pattern { cells: field.cells, rows: field.rows, columns: field.columns }),
            Err(e) => Err(e),
        }
    }
}

impl From<Pattern> for Field<bool> {
    fn from(pattern: Pattern) -> (field: Field<bool>) {
        Field { cells: pattern.cells, rows: pattern.rows, columns: pattern.columns }
    }
}

impl FromSpecImpl<Pattern> for Field<bool> {
    open spec fn obeys_from_spec() -> bool {
        true
    }

    open spec fn from_spec(pattern: Pattern) -> Field<bool> {
        Field { cells: pattern.cells, rows: pattern.rows, columns: pattern.columns }
    }
}

} // verus!
