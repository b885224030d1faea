//! The error type shared by the fallible operations of the library.

use vstd::prelude::*;

verus! {

/// An error raised by the rule engine: either a descriptive message (used for
/// malformed rule text and mismatched pattern dimensions) or an out-of-bounds
/// cell access carrying the offending coordinate and the grid dimensions.
#[derive(Debug, PartialEq, Eq)]
pub enum CelluminaError {
    /// Any different type of error, described by a message.
    CustomError(String),
    /// An index `(row, col)` was out of bounds for a grid of size
    /// `(rows, cols)`; the fields are in that order.
    IndexOutOfBoundsError(u32, u32, u32, u32),
}

impl CelluminaError {
    /// A human-readable description of the error.
    pub fn describe(&self) -> String {
        match self {
            CelluminaError::CustomError(msg) => msg.clone(),
            CelluminaError::IndexOutOfBoundsError(row, col, rows, cols) => describe_bounds(
                *row,
                *col,
                *rows,
                *cols,
            ),
        }
    }
}

/// Relies on the std `format!` macro to render the out-of-bounds message.
#[verifier::external_body]
fn describe_bounds(row: u32, col: u32, rows: u32, cols: u32) -> (s: String)
    ensures
        s@.len() > 0,
{
    format!("index ({}, {}) out of bounds for state grid of size ({}, {})", row, col, rows, cols)
}

} // verus!
