//! Errors returned by table operations.
use vstd::prelude::*;

verus! {

/// A recoverable failure of a table operation.
///
/// Topology errors are deterministic: an operation that addresses a column
/// or a row that the current table does not have reports it here and leaves
/// no partially edited table behind.
#[derive(Debug, Clone, PartialEq, Eq)]
pub enum TableError {
    /// A column reference (by name or by position) did not resolve against
    /// the current header.
    ColumnNotFound { column: String },
    /// A row index was at or past the number of rows.
    RowOutOfBounds { index: usize, rows: usize },
    /// The delimited-text codec reported a failure.
    Csv { message: String },
}

impl TableError {
    /// A human-readable description of the failure.
    pub fn message(&self) -> (r: String)
        ensures
            match self {
                TableError::ColumnNotFound { column } => r@ == "could not find column "@ + column@
                    + " in table"@,
                TableError::RowOutOfBounds { .. } => r@ == "row index out of bounds"@,
                TableError::Csv { message } => r@ == "csv failure: "@ + message@,
            },
    {
        match self {
            TableError::ColumnNotFound { column } => {
                let mut s = String::from_str("could not find column ");
                s.append(column.as_str());
                s.append(" in table");
                proof {
                    assert(s@ =~= "could not find column "@ + column@ + " in table"@);
                }
                s
            },
            TableError::RowOutOfBounds { .. } => String::from_str("row index out of bounds"),
            TableError::Csv { message } => {
                let mut s = String::from_str("csv failure: ");
                s.append(message.as_str());
                s
            },
        }
    }
}

} // verus!
