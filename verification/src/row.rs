//! A transient, read-only view into one row of a table.
//!
//! A row view borrows the header snapshot, one row's key sequence and the
//! cell store, strictly for the duration of a single lookup or callback. It
//! owns no data.
use crate::column::Column;
use crate::error::TableError;
use vstd::prelude::*;

verus! {

/// A read accessor for one row, bound to a header snapshot and the cell
/// store of the table it came from.
#[derive(Debug)]
pub struct Row<'a, T> {
    cols: &'a Vec<String>,
    keys: &'a Vec<usize>,
    cells: &'a Vec<T>,
}

impl<'a, T> Row<'a, T> {
    /// The header snapshot this view resolves names against.
    pub closed spec fn header(self) -> Seq<Seq<char>> {
        self.cols.deep_view()
    }

    /// The keys of this row, one per column.
    pub closed spec fn keys_view(self) -> Seq<usize> {
        self.keys@
    }

    /// The cell store of the table this view came from.
    pub closed spec fn store(self) -> Seq<T> {
        self.cells@
    }

    /// The view is consistent: one key per column, every key in range.
    pub open spec fn wf(self) -> bool {
        &&& self.keys_view().len() == self.header().len()
        &&& forall|c: int|
            0 <= c < self.keys_view().len() ==> (#[trigger] self.keys_view()[c])
                < self.store().len()
    }

    /// The cell values of this row, in column order.
    pub open spec fn values(self) -> Seq<T> {
        self.keys_view().map_values(|k: usize| self.store()[k as int])
    }

    /// Bind a view to a header snapshot, a key sequence and a cell store.
    pub fn new(cols: &'a Vec<String>, keys: &'a Vec<usize>, cells: &'a Vec<T>) -> (r: Row<'a, T>)
        ensures
            r.header() == cols.deep_view(),
            r.keys_view() == keys@,
            r.store() == cells@,
    {
        Row { cols, keys, cells }
    }

    /// The cell of this row in the column `col` resolves to, or `None` when
    /// the reference does not resolve.
    pub fn try_get<C: Column>(&self, col: &C) -> (r: Option<&T>)
        requires
            self.wf(),
        ensures
            match r {
                Some(v) => {
                    &&& col.resolve(self.header()) matches Some(i)
                    &&& *v == self.values()[i]
                },
                None => col.resolve(self.header()) is None,
            },
    {
        match col.find(self.cols) {
            Some(i) => {
                let k = self.keys[i];
                Some(&self.cells[k])
            },
            None => None,
        }
    }

    /// The cell of this row in the column `col` resolves to, or a
    /// `ColumnNotFound` failure when the reference does not resolve.
    pub fn get<C: Column>(&self, col: &C) -> (r: Result<&T, TableError>)
        requires
            self.wf(),
        ensures
            match r {
                Ok(v) => {
                    &&& col.resolve(self.header()) matches Some(i)
                    &&& *v == self.values()[i]
                },
                Err(e) => {
                    &&& col.resolve(self.header()) is None
                    &&& e matches TableError::ColumnNotFound { column } && column@
                        == col.describe_name()
                },
            },
    {
        match self.try_get(col) {
            Some(v) => Ok(v),
            None => Err(TableError::ColumnNotFound { column: col.describe() }),
        }
    }
}

} // verus!
