//! The table: a flat cell store, per-row key vectors and a column header.
//!
//! Structural operations consume the table by value and return a new table
//! value, so at most one owner is live at a time. Operations that can orphan
//! cells trigger a lazy reclamation check; see `consolidate`.
use crate::column::Column;
use crate::error::TableError;
use crate::model::{
    apply_renames, compact_store, filter_by, grid, key_used, keys_wf, lemma_apply_renames_take,
    lemma_compact_index, lemma_compact_len, lemma_filter_by_prefix, lemma_filter_by_take,
    lemma_new_key_le, lemma_new_key_surjective, lemma_store_bound, new_key, pick_data, pick_row,
    trail_inds,
};
use crate::row::Row;
use vstd::prelude::*;

verus! {

/// `post` is what one compaction pass makes of `pre`: the same column
/// names, the store reduced to `pre`'s referenced cells in order, and every
/// key renumbered to its new position.
pub open spec fn consolidation_of<T>(post: Table<T>, pre: Table<T>) -> bool {
    &&& post.names() == pre.names()
    &&& post.store() == compact_store(pre.store(), pre.keys(), pre.store_len() as int)
    &&& post.keys().len() == pre.keys().len()
    &&& forall|r: int|
        0 <= r < pre.keys().len() ==> (#[trigger] post.keys()[r]).len() == pre.keys()[r].len()
    &&& forall|r: int, c: int|
        0 <= r < pre.keys().len() && 0 <= c < pre.keys()[r].len() ==> (#[trigger] post.keys()[r][c])
            as int == new_key(pre.keys(), pre.keys()[r][c] as int)
}

/// Some consistent row view over `t`'s header and store, showing the values
/// of row `j`, was decided `b` by `pred`.
pub open spec fn row_decided<T, F: for<'a> Fn(Row<'a, T>) -> Result<bool, TableError>>(
    t: Table<T>,
    pred: F,
    j: int,
    b: bool,
) -> bool {
    exists|row: Row<'_, T>|
        {
            &&& row.wf()
            &&& row.header() == t.header()
            &&& row.values() == t.data()[j]
            &&& #[trigger] call_ensures(pred, (row,), Result::<bool, TableError>::Ok(b))
        }
}

/// Some consistent row view over `t`'s header and store, showing the values
/// of row `j`, made `pred` report the failure `e`.
pub open spec fn row_refused<T, F: for<'a> Fn(Row<'a, T>) -> Result<bool, TableError>>(
    t: Table<T>,
    pred: F,
    j: int,
    e: TableError,
) -> bool {
    exists|row: Row<'_, T>|
        {
            &&& row.wf()
            &&& row.header() == t.header()
            &&& row.values() == t.data()[j]
            &&& #[trigger] call_ensures(pred, (row,), Result::<bool, TableError>::Err(e))
        }
}

/// Some consistent row view over `t`'s header and store, showing the values
/// of row `j`, made `f` produce the cell `v`.
pub open spec fn cell_appended<T, F: for<'a> Fn(Row<'a, T>) -> T>(
    t: Table<T>,
    f: F,
    j: int,
    v: T,
) -> bool {
    exists|row: Row<'_, T>|
        {
            &&& row.wf()
            &&& row.header() == t.header()
            &&& row.values() == t.data()[j]
            &&& #[trigger] call_ensures(f, (row,), v)
        }
}

/// Some consistent row view over `t`'s header and store, showing the values
/// of row `j`, together with row `j`'s cell in column `p`, made `f` produce
/// the cell `v`.
pub open spec fn cell_mapped<T, F: for<'a> Fn(Row<'a, T>, &T) -> T>(
    t: Table<T>,
    f: F,
    p: int,
    j: int,
    v: T,
) -> bool {
    exists|row: Row<'_, T>|
        {
            &&& row.wf()
            &&& row.header() == t.header()
            &&& row.values() == t.data()[j]
            &&& #[trigger] call_ensures(f, (row, &t.data()[j][p]), v)
        }
}

/// Some consistent row view over `t`'s header and store, showing the values
/// of row `j`, was given the sort key `k` by `f`.
pub open spec fn row_keyed<T, F: for<'a> Fn(Row<'a, T>) -> u64>(
    t: Table<T>,
    f: F,
    j: int,
    k: u64,
) -> bool {
    exists|row: Row<'_, T>|
        {
            &&& row.wf()
            &&& row.header() == t.header()
            &&& row.values() == t.data()[j]
            &&& #[trigger] call_ensures(f, (row,), k)
        }
}

/// `post`'s rows are `pre`'s rows reordered by `perm`, a permutation that
/// sorts the keys `ks` ascending and stably: rows with equal keys keep
/// their original relative order.
pub open spec fn rows_sorted_by<T>(
    pre: Table<T>,
    post: Table<T>,
    ks: Seq<u64>,
    perm: Seq<int>,
) -> bool {
    &&& ks.len() == pre.nrows()
    &&& perm.len() == pre.nrows()
    &&& forall|a: int| 0 <= a < perm.len() ==> 0 <= #[trigger] perm[a] < perm.len()
    &&& forall|a: int, b: int|
        0 <= a < b < perm.len() ==> #[trigger] perm[a] != #[trigger] perm[b]
    &&& forall|a: int| 0 <= a < perm.len() ==> #[trigger] post.data()[a] == pre.data()[perm[a]]
    &&& forall|a: int, b: int|
        0 <= a <= b < perm.len() ==> ks[#[trigger] perm[a]] <= ks[#[trigger] perm[b]]
    &&& forall|a: int, b: int|
        0 <= a < b < perm.len() && ks[#[trigger] perm[a]] == ks[#[trigger] perm[b]] ==> perm[a]
            < perm[b]
}

/// `post`'s columns are `pre`'s columns reordered by `perm`, a permutation
/// of the column positions that sorts the keys `ks` ascending and stably:
/// columns with equal keys keep their original relative order.
pub open spec fn cols_sorted_by<T>(
    pre: Table<T>,
    post: Table<T>,
    ks: Seq<u64>,
    perm: Seq<usize>,
) -> bool {
    &&& ks.len() == pre.ncols()
    &&& perm.len() == pre.ncols()
    &&& forall|a: int| 0 <= a < perm.len() ==> (#[trigger] perm[a]) < pre.ncols()
    &&& forall|a: int, b: int|
        0 <= a < b < perm.len() ==> #[trigger] perm[a] != #[trigger] perm[b]
    &&& post.names() == pick_row(pre.names(), perm)
    &&& post.data() == pick_data(pre.data(), perm)
    &&& forall|a: int, b: int|
        0 <= a <= b < perm.len() ==> ks[(#[trigger] perm[a]) as int] <= ks[(#[trigger] perm[b]) as int]
    &&& forall|a: int, b: int|
        0 <= a < b < perm.len() && ks[(#[trigger] perm[a]) as int] == ks[(#[trigger] perm[b]) as int]
            ==> perm[a] < perm[b]
}

/// Whether `x` occurs in `v`.
fn contains_key(v: &Vec<usize>, x: usize) -> (r: bool)
    ensures
        r == v@.contains(x),
{
    let n = v.len();
    let mut i: usize = 0;
    while i < n
        invariant
            n == v.len(),
            0 <= i <= n,
            forall|j: int| 0 <= j < i ==> v@[j] != x,
        decreases n - i,
    {
        if v[i] == x {
            assert(v@.contains(x));
            return true;
        }
        i += 1;
    }
    assert(!v@.contains(x));
    false
}

/// A copy of one row's key vector.
fn copy_keys(v: &Vec<usize>) -> (r: Vec<usize>)
    ensures
        r@ == v@,
{
    let mut r: Vec<usize> = Vec::new();
    let n = v.len();
    let mut i: usize = 0;
    while i < n
        invariant
            n == v.len(),
            0 <= i <= n,
            r@ == v@.take(i as int),
        decreases n - i,
    {
        r.push(v[i]);
        proof {
            assert(r@ =~= v@.take(i as int + 1));
        }
        i += 1;
    }
    proof {
        assert(v@.take(n as int) =~= v@);
    }
    r
}

/// One column of a table, detached from it: the column's name and a copy of
/// its cell values in row order.
#[derive(Debug)]
pub struct Col<T> {
    /// The column's name.
    pub name: String,
    /// The column's cell values, one per row, in row order.
    pub values: Vec<T>,
}

/// A general table with an ergonomic API for transforming tables.
///
/// All cell data lives in one flat vector; each row is a vector of keys
/// into it, one per column in column order. Structural edits rearrange keys
/// and never copy cell payloads; cells left behind by an edit stay in the
/// store until the reclamation threshold is passed.
#[derive(Debug, Clone)]
pub struct Table<T> {
    cells: Vec<T>,
    rows: Vec<Vec<usize>>,
    cols: Vec<String>,
}

impl<T> Table<T> {
    /// The cell store.
    pub closed spec fn store(self) -> Seq<T> {
        self.cells@
    }

    /// The key sequences, one per row.
    pub closed spec fn keys(self) -> Seq<Seq<usize>> {
        self.rows@.map_values(|v: Vec<usize>| v@)
    }

    /// The column names, in column order.
    pub closed spec fn names(self) -> Seq<String> {
        self.cols@
    }

    /// The header: the column names as character sequences.
    pub open spec fn header(self) -> Seq<Seq<char>> {
        self.names().map_values(|s: String| s@)
    }

    /// Number of rows.
    pub open spec fn nrows(self) -> nat {
        self.keys().len()
    }

    /// Number of columns.
    pub open spec fn ncols(self) -> nat {
        self.names().len()
    }

    /// Number of cells in the backing store, orphans included.
    pub open spec fn store_len(self) -> nat {
        self.store().len()
    }

    /// The table invariants: every row has one key per column and every key
    /// is a valid index into the cell store.
    pub open spec fn wf(self) -> bool {
        keys_wf(self.keys(), self.ncols(), self.store_len())
    }

    /// The observable grid of cell values: row by row, in column order.
    pub open spec fn data(self) -> Seq<Seq<T>> {
        grid(self.store(), self.keys())
    }

    /// No two row-and-column slots share a cell key. This is the normal
    /// state of a table; picking the same column twice is the one edit that
    /// makes two slots share one cell.
    pub open spec fn distinct_keys(self) -> bool {
        forall|r1: int, c1: int, r2: int, c2: int|
            0 <= r1 < self.keys().len() && 0 <= c1 < self.keys()[r1].len() && 0 <= r2
                < self.keys().len() && 0 <= c2 < self.keys()[r2].len() && (#[trigger] self.keys()[
            r1][c1]) == (#[trigger] self.keys()[r2][c2]) ==> r1 == r2 && c1 == c2
    }

    /// Assemble a table from its parts.
    pub(crate) fn from_parts(cells: Vec<T>, rows: Vec<Vec<usize>>, cols: Vec<String>) -> (t: Self)
        ensures
            t.store() == cells@,
            t.keys() == rows@.map_values(|v: Vec<usize>| v@),
            t.names() == cols@,
    {
        Table { cells, rows, cols }
    }

    /// The column names as they are stored.
    pub(crate) fn names_vec(&self) -> (r: &Vec<String>)
        ensures
            r@ == self.names(),
    {
        &self.cols
    }

    /// Construct a new, empty, table.
    pub fn new() -> (r: Self)
        ensures
            r.wf(),
            r.nrows() == 0,
            r.ncols() == 0,
            r.store_len() == 0,
    {
        Table { cells: Vec::new(), rows: Vec::new(), cols: Vec::new() }
    }

    /// Check the table invariants at run time: one key per column in every
    /// row, every key a valid index into the cell store.
    ///
    /// Tables built and edited through this library always pass; the check
    /// is for callers outside it that need the guarantee before an
    /// operation that demands a well-formed table.
    pub fn is_well_formed(&self) -> (r: bool)
        ensures
            r == self.wf(),
    {
        let rn = self.rows.len();
        let cn = self.cols.len();
        let sn = self.cells.len();
        let mut i: usize = 0;
        while i < rn
            invariant
                rn == self.nrows(),
                cn == self.ncols(),
                sn == self.store_len(),
                0 <= i <= rn,
                forall|r2: int| 0 <= r2 < i ==> (#[trigger] self.keys()[r2]).len() == cn,
                forall|r2: int, c2: int|
                    0 <= r2 < i && 0 <= c2 < self.keys()[r2].len() ==> (#[trigger] self.keys()[r2][
                    c2]) < sn,
            decreases rn - i,
        {
            proof {
                assert(self.keys()[i as int] == self.rows@[i as int]@);
            }
            if self.rows[i].len() != cn {
                return false;
            }
            let mut c: usize = 0;
            while c < cn
                invariant
                    rn == self.nrows(),
                    cn == self.ncols(),
                    sn == self.store_len(),
                    0 <= i < rn,
                    0 <= c <= cn,
                    self.keys()[i as int] == self.rows@[i as int]@,
                    self.keys()[i as int].len() == cn,
                    forall|c2: int|
                        0 <= c2 < c ==> (#[trigger] self.keys()[i as int][c2]) < sn,
                decreases cn - c,
            {
                if self.rows[i][c] >= sn {
                    return false;
                }
                c += 1;
            }
            i += 1;
        }
        true
    }

    /// Number of rows.
    pub fn num_rows(&self) -> (r: usize)
        ensures
            r == self.nrows(),
    {
        self.rows.len()
    }

    /// Number of columns.
    pub fn num_cols(&self) -> (r: usize)
        ensures
            r == self.ncols(),
    {
        self.cols.len()
    }

    /// Number of cells held by the backing store, orphans included.
    pub fn cell_count(&self) -> (r: usize)
        ensures
            r == self.store_len(),
    {
        self.cells.len()
    }

    /// A view of the row at `row_index`, or a `RowOutOfBounds` failure when
    /// the index is at or past the number of rows.
    pub fn get_row(&self, row_index: usize) -> (r: Result<Row<'_, T>, TableError>)
        requires
            self.wf(),
        ensures
            match r {
                Ok(row) => {
                    &&& row_index < self.nrows()
                    &&& row.wf()
                    &&& row.header() == self.header()
                    &&& row.values() == self.data()[row_index as int]
                },
                Err(e) => row_index >= self.nrows() && e matches TableError::RowOutOfBounds { .. },
            },
    {
        match self.try_get_row(row_index) {
            Some(row) => Ok(row),
            None => Err(TableError::RowOutOfBounds { index: row_index, rows: self.rows.len() }),
        }
    }

    /// A view of the row at `row_index`, or `None` when the index is at or
    /// past the number of rows.
    pub fn try_get_row(&self, row_index: usize) -> (r: Option<Row<'_, T>>)
        requires
            self.wf(),
        ensures
            match r {
                Some(row) => {
                    &&& row_index < self.nrows()
                    &&& row.wf()
                    &&& row.header() == self.header()
                    &&& row.values() == self.data()[row_index as int]
                },
                None => row_index >= self.nrows(),
            },
    {
        if row_index < self.rows.len() {
            let row = Row::new(&self.cols, &self.rows[row_index], &self.cells);
            proof {
                assert(self.keys()[row_index as int] == self.rows@[row_index as int]@);
                assert(row.values() =~= self.data()[row_index as int]);
                assert(row.header() =~= self.header());
            }
            Some(row)
        } else {
            None
        }
    }

    /// The column `col` resolves to, detached from the table: its name and a
    /// copy of its values in row order. Fails with `ColumnNotFound` exactly
    /// when the reference does not resolve.
    pub fn get_col<C: Column>(&self, col: &C) -> (r: Result<Col<T>, TableError>) where T: Clone
        requires
            self.wf(),
        ensures
            match r {
                Ok(c) => {
                    &&& col.resolve(self.header()) matches Some(p)
                    &&& 0 <= p < self.ncols()
                    &&& c.name@ == self.header()[p]
                    &&& c.values@.len() == self.nrows()
                    &&& forall|i: int|
                        0 <= i < self.nrows() ==> cloned::<T>(
                            self.data()[i][p],
                            #[trigger] c.values@[i],
                        )
                },
                Err(e) => {
                    &&& col.resolve(self.header()) is None
                    &&& e matches TableError::ColumnNotFound { column } && column@
                        == col.describe_name()
                },
            },
    {
        match self.try_get_col(col) {
            Some(c) => Ok(c),
            None => Err(TableError::ColumnNotFound { column: col.describe() }),
        }
    }

    /// As `get_col`, but `None` instead of a failure when the reference does
    /// not resolve.
    pub fn try_get_col<C: Column>(&self, col: &C) -> (r: Option<Col<T>>) where T: Clone
        requires
            self.wf(),
        ensures
            match r {
                Some(c) => {
                    &&& col.resolve(self.header()) matches Some(p)
                    &&& 0 <= p < self.ncols()
                    &&& c.name@ == self.header()[p]
                    &&& c.values@.len() == self.nrows()
                    &&& forall|i: int|
                        0 <= i < self.nrows() ==> cloned::<T>(
                            self.data()[i][p],
                            #[trigger] c.values@[i],
                        )
                },
                None => col.resolve(self.header()) is None,
            },
    {
        proof {
            assert(self.cols.deep_view() =~= self.header());
        }
        let p = match col.find(&self.cols) {
            Some(p) => p,
            None => {
                return None;
            },
        };
        let name = self.cols[p].clone();
        let mut values: Vec<T> = Vec::new();
        let n = self.rows.len();
        let mut i: usize = 0;
        while i < n
            invariant
                self.wf(),
                n == self.nrows(),
                0 <= i <= n,
                p < self.ncols(),
                values@.len() == i,
                forall|j: int|
                    0 <= j < i ==> cloned::<T>(self.data()[j][p as int], #[trigger] values@[j]),
            decreases n - i,
        {
            assert(self.keys()[i as int] == self.rows@[i as int]@);
            assert(self.keys()[i as int].len() == self.ncols());
            let k = self.rows[i][p];
            let v = self.cells[k].clone();
            proof {
                assert(self.data()[i as int][p as int] == self.store()[self.keys()[i as int][
                    p as int] as int]);
            }
            values.push(v);
            i += 1;
        }
        Some(Col { name, values })
    }

    /// Retain the rows whose cell in the column `col` resolves to satisfies
    /// the predicate; row order among kept rows is preserved.
    ///
    /// Fails with `ColumnNotFound` exactly when the reference does not
    /// resolve; the table is then discarded unedited. Afterwards the
    /// reclamation check runs.
    pub fn filter<C: Column, P: Fn(&T) -> bool>(self, col: C, pred: P) -> (res: Result<
        Self,
        TableError,
    >)
        requires
            self.wf(),
            forall|v: &T| call_requires(pred, (v,)),
        ensures
            match res {
                Ok(t) => {
                    &&& col.resolve(self.header()) matches Some(p)
                    &&& 0 <= p < self.ncols()
                    &&& t.wf()
                    &&& t.names() == self.names()
                    &&& t.store_len() as int <= 5 * t.nrows() * t.ncols()
                    &&& self.distinct_keys() ==> t.distinct_keys()
                    &&& exists|keep: Seq<bool>|
                        {
                            &&& keep.len() == self.nrows()
                            &&& t.data() == filter_by(self.data(), keep)
                            &&& forall|i: int|
                                0 <= i < keep.len() ==> call_ensures(
                                    pred,
                                    (&self.data()[i][p],),
                                    #[trigger] keep[i],
                                )
                        }
                },
                Err(e) => {
                    &&& col.resolve(self.header()) is None
                    &&& e matches TableError::ColumnNotFound { column } && column@
                        == col.describe_name()
                },
            },
    {
        proof {
            assert(self.cols.deep_view() =~= self.header());
        }
        let p = match col.find(&self.cols) {
            Some(p) => p,
            None => {
                return Err(TableError::ColumnNotFound { column: col.describe() });
            },
        };
        let mut kept: Vec<Vec<usize>> = Vec::new();
        let ghost mut keep: Seq<bool> = Seq::empty();
        let n = self.rows.len();
        let mut i: usize = 0;
        while i < n
            invariant
                self.wf(),
                n == self.nrows(),
                0 <= i <= n,
                0 <= p < self.ncols(),
                forall|v: &T| call_requires(pred, (v,)),
                keep.len() == i,
                kept@.map_values(|v: Vec<usize>| v@) == filter_by(
                    self.keys().take(i as int),
                    keep,
                ),
                forall|j: int|
                    0 <= j < i ==> call_ensures(
                        pred,
                        (&self.data()[j][p as int],),
                        #[trigger] keep[j],
                    ),
            decreases n - i,
        {
            proof {
                assert(self.keys()[i as int] == self.rows@[i as int]@);
                assert(self.data()[i as int][p as int] == self.store()[self.keys()[i as int][
                    p as int] as int]);
            }
            let k = self.rows[i][p];
            let b = pred(&self.cells[k]);
            let ghost old_kept = kept@.map_values(|v: Vec<usize>| v@);
            if b {
                let kr = copy_keys(&self.rows[i]);
                kept.push(kr);
                proof {
                    assert(kr@ == self.keys()[i as int]);
                    assert(kept@.map_values(|v: Vec<usize>| v@) =~= old_kept.push(
                        self.keys()[i as int],
                    ));
                }
            }
            proof {
                let prev = keep;
                keep = keep.push(b);
                assert(keep.take(i as int) =~= prev);
                assert(keep.take(i as int + 1) =~= keep);
                assert(keep[i as int] == b);
                lemma_filter_by_take(self.keys(), keep, i as int);
                assert(self.keys().take(i as int + 1).take(i as int) =~= self.keys().take(
                    i as int,
                ));
                assert(filter_by(self.keys().take(i as int + 1), keep) == filter_by(
                    self.keys().take(i as int),
                    prev,
                ) + (if b {
                    seq![self.keys()[i as int]]
                } else {
                    Seq::<Seq<usize>>::empty()
                }));
                if b {
                    assert(old_kept.push(self.keys()[i as int]) =~= old_kept + seq![
                        self.keys()[i as int],
                    ]);
                } else {
                    assert(old_kept + Seq::<Seq<usize>>::empty() =~= old_kept);
                }
                assert(kept@.map_values(|v: Vec<usize>| v@) =~= filter_by(
                    self.keys().take(i as int + 1),
                    keep,
                ));
                assert forall|j: int| 0 <= j < i + 1 implies call_ensures(
                    pred,
                    (&self.data()[j][p as int],),
                    #[trigger] keep[j],
                ) by {
                    if j < i {
                        assert(keep[j] == prev[j]);
                    }
                }
            }
            i += 1;
        }
        let ghost gorig = self;
        let t0 = Table { cells: self.cells, rows: kept, cols: self.cols };
        proof {
            assert(gorig.keys().take(n as int) =~= gorig.keys());
            assert(t0.keys() == filter_by(gorig.keys(), keep));
            crate::model::lemma_filter_by_len(gorig.keys(), keep);
            assert forall|r: int| 0 <= r < t0.keys().len() implies {
                &&& (#[trigger] t0.keys()[r]).len() == t0.ncols()
                &&& forall|c: int|
                    0 <= c < t0.keys()[r].len() ==> (#[trigger] t0.keys()[r][c]) < t0.store_len()
            } by {
                crate::model::lemma_filter_by_element(gorig.keys(), keep, r);
                let r0 = choose|r0: int|
                    0 <= r0 < gorig.keys().len() && filter_by(gorig.keys(), keep)[r] == gorig.keys()[
                    r0];
                assert(gorig.keys()[r0].len() == gorig.ncols());
            }
            assert(t0.wf());
            crate::model::lemma_filter_by_map_values(
                gorig.keys(),
                keep,
                |row: Seq<usize>| row.map_values(|k: usize| gorig.store()[k as int]),
            );
            assert(t0.data() == filter_by(gorig.data(), keep));
            if gorig.distinct_keys() {
                assert forall|r1: int, c1: int, r2: int, c2: int|
                    0 <= r1 < t0.keys().len() && 0 <= c1 < t0.keys()[r1].len() && 0 <= r2
                        < t0.keys().len() && 0 <= c2 < t0.keys()[r2].len() && (#[trigger] t0.keys()[
                    r1][c1]) == (#[trigger] t0.keys()[r2][c2]) implies r1 == r2 && c1 == c2 by {
                    crate::model::lemma_filter_by_kept_pos(gorig.keys(), keep, r1);
                    crate::model::lemma_filter_by_kept_pos(gorig.keys(), keep, r2);
                    let p1 = crate::model::kept_pos(keep, r1);
                    let p2 = crate::model::kept_pos(keep, r2);
                    assert(gorig.keys()[p1][c1] == gorig.keys()[p2][c2]);
                    assert(p1 == p2 && c1 == c2);
                    if r1 < r2 {
                        crate::model::lemma_kept_pos_strict(gorig.keys(), keep, r1, r2);
                    } else if r2 < r1 {
                        crate::model::lemma_kept_pos_strict(gorig.keys(), keep, r2, r1);
                    }
                }
            }
        }
        let t = t0.maybe_consolidate();
        proof {
            assert(t.data() == filter_by(gorig.data(), keep));
            assert(keep.len() == gorig.nrows());
        }
        Ok(t)
    }

    /// Retain the columns whose name satisfies the predicate, in their
    /// original order; every row's key at a removed position is removed in
    /// lockstep. Afterwards the reclamation check runs.
    pub fn filter_cols<P: Fn(&String) -> bool>(self, pred: P) -> (t: Self)
        requires
            self.wf(),
            forall|s: &String| call_requires(pred, (s,)),
        ensures
            t.wf(),
            t.nrows() == self.nrows(),
            t.store_len() as int <= 5 * t.nrows() * t.ncols(),
            self.distinct_keys() ==> t.distinct_keys(),
            exists|keep: Seq<bool>|
                {
                    &&& keep.len() == self.ncols()
                    &&& t.names() == filter_by(self.names(), keep)
                    &&& forall|r: int|
                        0 <= r < self.nrows() ==> #[trigger] t.data()[r] == filter_by(
                            self.data()[r],
                            keep,
                        )
                    &&& forall|i: int|
                        0 <= i < keep.len() ==> call_ensures(
                            pred,
                            (&self.names()[i],),
                            #[trigger] keep[i],
                        )
                },
    {
        let cn = self.cols.len();
        let mut decisions: Vec<bool> = Vec::new();
        let mut new_cols: Vec<String> = Vec::new();
        let mut i: usize = 0;
        while i < cn
            invariant
                cn == self.ncols(),
                0 <= i <= cn,
                forall|s: &String| call_requires(pred, (s,)),
                decisions@.len() == i,
                new_cols@ == filter_by(self.names().take(i as int), decisions@),
                forall|j: int|
                    0 <= j < i ==> call_ensures(
                        pred,
                        (&self.names()[j],),
                        #[trigger] decisions@[j],
                    ),
            decreases cn - i,
        {
            let b = pred(&self.cols[i]);
            let ghost old_cols = new_cols@;
            let ghost prev = decisions@;
            if b {
                let name = self.cols[i].clone();
                new_cols.push(name);
            }
            decisions.push(b);
            proof {
                let keep = decisions@;
                assert(keep.take(i as int) =~= prev);
                assert(keep.take(i as int + 1) =~= keep);
                assert(keep[i as int] == b);
                lemma_filter_by_take(self.names(), keep, i as int);
                assert(self.names().take(i as int + 1).take(i as int) =~= self.names().take(
                    i as int,
                ));
                if b {
                    assert(new_cols@ =~= old_cols + seq![self.names()[i as int]]);
                } else {
                    assert(old_cols + Seq::<String>::empty() =~= old_cols);
                }
                assert(new_cols@ =~= filter_by(self.names().take(i as int + 1), keep));
                assert forall|j: int| 0 <= j < i + 1 implies call_ensures(
                    pred,
                    (&self.names()[j],),
                    #[trigger] keep[j],
                ) by {
                    if j < i {
                        assert(keep[j] == prev[j]);
                    }
                }
            }
            i += 1;
        }
        proof {
            assert(self.names().take(cn as int) =~= self.names());
        }
        // remove, in every row, the key at each removed column position
        let rn = self.rows.len();
        let mut new_rows: Vec<Vec<usize>> = Vec::new();
        let mut r: usize = 0;
        while r < rn
            invariant
                self.wf(),
                rn == self.nrows(),
                cn == self.ncols(),
                0 <= r <= rn,
                decisions@.len() == cn,
                new_rows@.len() == r,
                forall|r2: int|
                    0 <= r2 < r ==> (#[trigger] new_rows@[r2]@) == filter_by(
                        self.keys()[r2],
                        decisions@,
                    ),
            decreases rn - r,
        {
            let mut nr: Vec<usize> = Vec::new();
            let mut c: usize = 0;
            proof {
                assert(self.keys()[r as int] == self.rows@[r as int]@);
            }
            while c < cn
                invariant
                    self.wf(),
                    rn == self.nrows(),
                    cn == self.ncols(),
                    0 <= r < rn,
                    0 <= c <= cn,
                    decisions@.len() == cn,
                    self.keys()[r as int] == self.rows@[r as int]@,
                    nr@ == filter_by(self.keys()[r as int].take(c as int), decisions@),
                decreases cn - c,
            {
                let ghost old_nr = nr@;
                if decisions[c] {
                    nr.push(self.rows[r][c]);
                }
                proof {
                    let keys_r = self.keys()[r as int];
                    lemma_filter_by_take(keys_r, decisions@, c as int);
                    assert(keys_r.take(c as int + 1).take(c as int) =~= keys_r.take(c as int));
                    assert(decisions@.take(c as int + 1).take(c as int) =~= decisions@.take(
                        c as int,
                    ));
                    assert(decisions@.take(c as int + 1) =~= decisions@.take(c as int).push(
                        decisions@[c as int],
                    ));
                    assert(filter_by(keys_r.take(c as int), decisions@.take(c as int))
                        == filter_by(keys_r.take(c as int), decisions@)) by {
                        lemma_filter_by_prefix(keys_r.take(c as int), decisions@, c as int);
                    }
                    assert(filter_by(keys_r.take(c as int + 1), decisions@.take(c as int + 1))
                        == filter_by(keys_r.take(c as int + 1), decisions@)) by {
                        lemma_filter_by_prefix(keys_r.take(c as int + 1), decisions@, c as int + 1);
                    }
                    if decisions@[c as int] {
                        assert(nr@ =~= old_nr + seq![keys_r[c as int]]);
                    } else {
                        assert(old_nr + Seq::<usize>::empty() =~= old_nr);
                    }
                    assert(nr@ =~= filter_by(keys_r.take(c as int + 1), decisions@));
                }
                c += 1;
            }
            proof {
                assert(self.keys()[r as int].take(cn as int) =~= self.keys()[r as int]);
            }
            new_rows.push(nr);
            r += 1;
        }
        let ghost gorig = self;
        let ghost keep = decisions@;
        let t0 = Table { cells: self.cells, rows: new_rows, cols: new_cols };
        proof {
            assert(t0.keys() =~= Seq::new(rn as nat, |r2: int| filter_by(gorig.keys()[r2], keep)));
            assert forall|r2: int| 0 <= r2 < rn implies {
                &&& (#[trigger] t0.keys()[r2]).len() == t0.ncols()
                &&& forall|c2: int|
                    0 <= c2 < t0.keys()[r2].len() ==> (#[trigger] t0.keys()[r2][c2])
                        < t0.store_len()
            } by {
                crate::model::lemma_filter_by_len_eq(gorig.names(), gorig.keys()[r2], keep);
                assert forall|c2: int| 0 <= c2 < t0.keys()[r2].len() implies (#[trigger] t0.keys()[
                    r2][c2]) < t0.store_len() by {
                    crate::model::lemma_filter_by_element(gorig.keys()[r2], keep, c2);
                }
            }
            assert(t0.wf());
            if gorig.distinct_keys() {
                assert forall|r1: int, c1: int, r2: int, c2: int|
                    0 <= r1 < t0.keys().len() && 0 <= c1 < t0.keys()[r1].len() && 0 <= r2
                        < t0.keys().len() && 0 <= c2 < t0.keys()[r2].len() && (#[trigger] t0.keys()[
                    r1][c1]) == (#[trigger] t0.keys()[r2][c2]) implies r1 == r2 && c1 == c2 by {
                    crate::model::lemma_filter_by_kept_pos(gorig.keys()[r1], keep, c1);
                    crate::model::lemma_filter_by_kept_pos(gorig.keys()[r2], keep, c2);
                    let p1 = crate::model::kept_pos(keep, c1);
                    let p2 = crate::model::kept_pos(keep, c2);
                    assert(gorig.keys()[r1][p1] == gorig.keys()[r2][p2]);
                    assert(r1 == r2 && p1 == p2);
                    if c1 < c2 {
                        crate::model::lemma_kept_pos_strict(gorig.keys()[r1], keep, c1, c2);
                    } else if c2 < c1 {
                        crate::model::lemma_kept_pos_strict(gorig.keys()[r1], keep, c2, c1);
                    }
                }
            }
            assert forall|r2: int| 0 <= r2 < rn implies #[trigger] t0.data()[r2] == filter_by(
                gorig.data()[r2],
                keep,
            ) by {
                crate::model::lemma_filter_by_map_values(
                    gorig.keys()[r2],
                    keep,
                    |k: usize| gorig.store()[k as int],
                );
                assert(gorig.data()[r2] == gorig.keys()[r2].map_values(
                    |k: usize| gorig.store()[k as int],
                ));
                assert(t0.data()[r2] =~= t0.keys()[r2].map_values(
                    |k: usize| gorig.store()[k as int],
                ));
            }
        }
        let t = t0.maybe_consolidate();
        proof {
            assert(keep.len() == gorig.ncols());
            assert(t.names() == filter_by(gorig.names(), keep));
            assert forall|r2: int| 0 <= r2 < gorig.nrows() implies #[trigger] t.data()[r2]
                == filter_by(gorig.data()[r2], keep) by {
                assert(t.data()[r2] == t0.data()[r2]);
            }
        }
        t
    }

    /// Retain the rows the predicate accepts, in their original order.
    ///
    /// The predicate reads each row through a transient view; it may reject
    /// the row with a failure, in which case the scan reports that failure
    /// and no edited table is handed out. Afterwards the reclamation check
    /// runs, so the store never leaves here past its threshold.
    pub fn filter_rows<F: for<'a> Fn(Row<'a, T>) -> Result<bool, TableError>>(self, pred: F) -> (res:
        Result<Self, TableError>)
        requires
            self.wf(),
            forall|row: Row<'_, T>|
                row.wf() && row.header() == self.header() ==> call_requires(pred, (row,)),
        ensures
            match res {
                Ok(t) => {
                    &&& t.wf()
                    &&& t.names() == self.names()
                    &&& t.store_len() as int <= 5 * t.nrows() * t.ncols()
                    &&& self.distinct_keys() ==> t.distinct_keys()
                    &&& exists|keep: Seq<bool>|
                        {
                            &&& keep.len() == self.nrows()
                            &&& t.data() == filter_by(self.data(), keep)
                            &&& forall|i: int|
                                0 <= i < keep.len() ==> row_decided(
                                    self,
                                    pred,
                                    i,
                                    #[trigger] keep[i],
                                )
                        }
                },
                Err(e) => exists|i: int|
                    {
                        &&& 0 <= i < self.nrows()
                        &&& row_refused(self, pred, i, e)
                        &&& forall|j: int|
                            0 <= j < i ==> row_decided(self, pred, j, true) || row_decided(
                                self,
                                pred,
                                j,
                                false,
                            )
                    },
            },
    {
        let mut kept: Vec<Vec<usize>> = Vec::new();
        let ghost mut keep: Seq<bool> = Seq::empty();
        let n = self.rows.len();
        let mut i: usize = 0;
        while i < n
            invariant
                self.wf(),
                n == self.nrows(),
                0 <= i <= n,
                forall|row: Row<'_, T>|
                    row.wf() && row.header() == self.header() ==> call_requires(pred, (row,)),
                keep.len() == i,
                kept@.map_values(|v: Vec<usize>| v@) == filter_by(
                    self.keys().take(i as int),
                    keep,
                ),
                forall|j: int| 0 <= j < i ==> row_decided(self, pred, j, #[trigger] keep[j]),
            decreases n - i,
        {
            let row = Row::new(&self.cols, &self.rows[i], &self.cells);
            proof {
                assert(self.keys()[i as int] == self.rows@[i as int]@);
                assert(row.header() =~= self.header());
                assert(row.values() =~= self.data()[i as int]);
                assert(row.wf());
            }
            let verdict = pred(row);
            match verdict {
                Ok(b) => {
                    let ghost old_kept = kept@.map_values(|v: Vec<usize>| v@);
                    if b {
                        let kr = copy_keys(&self.rows[i]);
                        kept.push(kr);
                        proof {
                            assert(kr@ == self.keys()[i as int]);
                            assert(kept@.map_values(|v: Vec<usize>| v@) =~= old_kept.push(
                                self.keys()[i as int],
                            ));
                        }
                    }
                    proof {
                        let prev = keep;
                        keep = keep.push(b);
                        assert(keep.take(i as int) =~= prev);
                        assert(keep.take(i as int + 1) =~= keep);
                        assert(keep[i as int] == b);
                        lemma_filter_by_take(self.keys(), keep, i as int);
                        assert(self.keys().take(i as int + 1).take(i as int) =~= self.keys().take(
                            i as int,
                        ));
                        assert(filter_by(self.keys().take(i as int + 1), keep) == filter_by(
                            self.keys().take(i as int),
                            prev,
                        ) + (if b {
                            seq![self.keys()[i as int]]
                        } else {
                            Seq::<Seq<usize>>::empty()
                        }));
                        if b {
                            assert(old_kept.push(self.keys()[i as int]) =~= old_kept + seq![
                                self.keys()[i as int],
                            ]);
                        } else {
                            assert(old_kept + Seq::<Seq<usize>>::empty() =~= old_kept);
                        }
                        assert(kept@.map_values(|v: Vec<usize>| v@) =~= filter_by(
                            self.keys().take(i as int + 1),
                            keep,
                        ));
                        assert(call_ensures(pred, (row,), Result::<bool, TableError>::Ok(b)));
                        assert(row_decided(self, pred, i as int, b));
                        assert forall|j: int| 0 <= j < i + 1 implies row_decided(
                            self,
                            pred,
                            j,
                            #[trigger] keep[j],
                        ) by {
                            if j < i {
                                assert(keep[j] == prev[j]);
                                assert(row_decided(self, pred, j, prev[j]));
                            }
                        }
                    }
                },
                Err(e) => {
                    proof {
                        assert(call_ensures(pred, (row,), Result::<bool, TableError>::Err(e)));
                        assert(row_refused(self, pred, i as int, e));
                        // every earlier row was decided, so this failure is
                        // the first one the scan met
                        assert forall|j: int| 0 <= j < i implies row_decided(self, pred, j, true)
                            || row_decided(self, pred, j, false) by {
                            assert(row_decided(self, pred, j, keep[j]));
                        }
                    }
                    return Err(e);
                },
            }
            i += 1;
        }
        let ghost gorig = self;
        let t0 = Table { cells: self.cells, rows: kept, cols: self.cols };
        proof {
            assert(self.keys().take(n as int) =~= self.keys());
            assert(t0.keys() == filter_by(gorig.keys(), keep));
            crate::model::lemma_filter_by_len(gorig.keys(), keep);
            assert forall|r: int| 0 <= r < t0.keys().len() implies {
                &&& (#[trigger] t0.keys()[r]).len() == t0.ncols()
                &&& forall|c: int|
                    0 <= c < t0.keys()[r].len() ==> (#[trigger] t0.keys()[r][c])
                        < t0.store_len()
            } by {
                crate::model::lemma_filter_by_element(gorig.keys(), keep, r);
                let r0 = choose|r0: int|
                    0 <= r0 < gorig.keys().len() && filter_by(gorig.keys(), keep)[r] == gorig.keys()[
                    r0];
                assert(gorig.keys()[r0].len() == gorig.ncols());
            }
            assert(t0.wf());
            crate::model::lemma_filter_by_map_values(
                gorig.keys(),
                keep,
                |row: Seq<usize>| row.map_values(|k: usize| gorig.store()[k as int]),
            );
            assert(t0.data() == filter_by(gorig.data(), keep));
            if gorig.distinct_keys() {
                assert forall|r1: int, c1: int, r2: int, c2: int|
                    0 <= r1 < t0.keys().len() && 0 <= c1 < t0.keys()[r1].len() && 0 <= r2
                        < t0.keys().len() && 0 <= c2 < t0.keys()[r2].len() && (#[trigger] t0.keys()[
                    r1][c1]) == (#[trigger] t0.keys()[r2][c2]) implies r1 == r2 && c1 == c2 by {
                    crate::model::lemma_filter_by_kept_pos(gorig.keys(), keep, r1);
                    crate::model::lemma_filter_by_kept_pos(gorig.keys(), keep, r2);
                    let p1 = crate::model::kept_pos(keep, r1);
                    let p2 = crate::model::kept_pos(keep, r2);
                    assert(gorig.keys()[p1][c1] == gorig.keys()[p2][c2]);
                    assert(p1 == p2 && c1 == c2);
                    if r1 < r2 {
                        crate::model::lemma_kept_pos_strict(gorig.keys(), keep, r1, r2);
                    } else if r2 < r1 {
                        crate::model::lemma_kept_pos_strict(gorig.keys(), keep, r2, r1);
                    }
                }
            }
        }
        let t = t0.maybe_consolidate();
        proof {
            assert(t.data() == filter_by(gorig.data(), keep));
            assert(keep.len() == gorig.nrows());
        }
        Ok(t)
    }

    /// Append a column at the end of the table.
    ///
    /// Each row is visited in order, before the new column exists; `f`
    /// computes the row's new cell from a view of the row, the cell is
    /// appended to the store and its key to the row. The original columns
    /// are unaffected.
    pub fn append<F: for<'a> Fn(Row<'a, T>) -> T>(self, header: String, f: F) -> (t: Self)
        requires
            self.wf(),
            forall|row: Row<'_, T>|
                row.wf() && row.header() == self.header() ==> call_requires(f, (row,)),
        ensures
            t.wf(),
            t.names() == self.names().push(header),
            t.nrows() == self.nrows(),
            t.store_len() == self.store_len() + self.nrows(),
            self.distinct_keys() ==> t.distinct_keys(),
            forall|r: int|
                0 <= r < self.nrows() ==> #[trigger] t.keys()[r] == self.keys()[r].push(
                    (self.store_len() + r) as usize,
                ),
            forall|r: int|
                0 <= r < self.nrows() ==> {
                    &&& (#[trigger] t.data()[r]).len() == self.ncols() + 1
                    &&& t.data()[r].take(self.ncols() as int) == self.data()[r]
                    &&& cell_appended(self, f, r, t.data()[r][self.ncols() as int])
                },
    {
        let ghost gorig = self;
        let Table { mut cells, rows, mut cols } = self;
        let rn = rows.len();
        let ghost oncols = gorig.ncols();
        let mut new_rows: Vec<Vec<usize>> = Vec::new();
        let mut r: usize = 0;
        while r < rn
            invariant
                rn == gorig.nrows(),
                oncols == gorig.ncols(),
                gorig.wf(),
                rows@.map_values(|v: Vec<usize>| v@) == gorig.keys(),
                cols@ == gorig.names(),
                forall|row: Row<'_, T>|
                    row.wf() && row.header() == gorig.header() ==> call_requires(f, (row,)),
                0 <= r <= rn,
                cells@.len() == gorig.store_len() + r,
                cells@.take(gorig.store_len() as int) == gorig.store(),
                new_rows@.len() == r,
                forall|i: int|
                    0 <= i < r ==> {
                        &&& (#[trigger] new_rows@[i]@).len() == oncols + 1
                        &&& new_rows@[i]@.take(oncols as int) == gorig.keys()[i]
                        &&& new_rows@[i]@[oncols as int] == gorig.store_len() + i
                        &&& cell_appended(
                            gorig,
                            f,
                            i,
                            cells@[new_rows@[i]@[oncols as int] as int],
                        )
                    },
            decreases rn - r,
        {
            let row = Row::new(&cols, &rows[r], &cells);
            proof {
                assert(gorig.keys()[r as int] == rows@[r as int]@);
                assert(row.header() =~= gorig.header());
                assert forall|c: int| 0 <= c < row.keys_view().len() implies #[trigger] row.values()[
                    c] == gorig.data()[r as int][c] by {
                    let kk = gorig.keys()[r as int][c];
                    assert(cells@[kk as int] == cells@.take(gorig.store_len() as int)[kk as int]);
                }
                assert(row.wf());
                assert(row.values() =~= gorig.data()[r as int]);
            }
            let v = f(row);
            proof {
                assert(call_ensures(f, (row,), v));
            }
            let key = cells.len();
            cells.push(v);
            let mut kr = copy_keys(&rows[r]);
            proof {
                assert(kr@ == gorig.keys()[r as int]);
                assert(kr@.len() == oncols);
            }
            kr.push(key);
            let ghost krv = kr@;
            new_rows.push(kr);
            proof {
                assert(new_rows@[r as int]@ == krv);
                assert(krv.take(oncols as int) =~= gorig.keys()[r as int]);
                assert(cells@[key as int] == v);
                assert(cell_appended(gorig, f, r as int, v));
                assert(cells@.take(gorig.store_len() as int) =~= gorig.store());
            }
            r += 1;
        }
        cols.push(header);
        let t = Table { cells, rows: new_rows, cols };
        proof {
            assert(t.keys() =~= new_rows@.map_values(|v: Vec<usize>| v@));
            assert(t.names() =~= gorig.names().push(header));
            assert forall|i: int| 0 <= i < rn implies {
                &&& (#[trigger] t.keys()[i]).len() == t.ncols()
                &&& forall|c: int|
                    0 <= c < t.keys()[i].len() ==> (#[trigger] t.keys()[i][c]) < t.store_len()
            } by {
                assert forall|c: int| 0 <= c < t.keys()[i].len() implies (#[trigger] t.keys()[i][c])
                    < t.store_len() by {
                    if c < oncols {
                        assert(t.keys()[i][c] == gorig.keys()[i][c]);
                    }
                }
            }
            assert(t.wf());
            if gorig.distinct_keys() {
                assert forall|r1: int, c1: int, r2: int, c2: int|
                    0 <= r1 < t.keys().len() && 0 <= c1 < t.keys()[r1].len() && 0 <= r2
                        < t.keys().len() && 0 <= c2 < t.keys()[r2].len() && (#[trigger] t.keys()[
                    r1][c1]) == (#[trigger] t.keys()[r2][c2]) implies r1 == r2 && c1 == c2 by {
                    if c1 < oncols {
                        assert(t.keys()[r1][c1] == gorig.keys()[r1][c1] < gorig.store_len());
                    }
                    if c2 < oncols {
                        assert(t.keys()[r2][c2] == gorig.keys()[r2][c2] < gorig.store_len());
                    }
                }
            }
            assert forall|i: int| 0 <= i < rn implies #[trigger] t.keys()[i] == gorig.keys()[
                i].push((gorig.store_len() + i) as usize) by {
                assert(t.keys()[i].take(oncols as int) == gorig.keys()[i]);
                assert(t.keys()[i][oncols as int] == gorig.store_len() + i);
                assert(t.keys()[i] =~= gorig.keys()[i].push((gorig.store_len() + i) as usize));
            }
            assert forall|i: int| 0 <= i < rn implies {
                &&& (#[trigger] t.data()[i]).len() == oncols + 1
                &&& t.data()[i].take(oncols as int) == gorig.data()[i]
                &&& cell_appended(gorig, f, i, t.data()[i][oncols as int])
            } by {
                assert forall|c: int| 0 <= c < oncols implies #[trigger] t.data()[i][c]
                    == gorig.data()[i][c] by {
                    let kk = gorig.keys()[i][c];
                    assert(t.keys()[i][c] == kk);
                    assert(t.store()[kk as int] == t.store().take(gorig.store_len() as int)[
                        kk as int]);
                }
                assert(t.data()[i].take(oncols as int) =~= gorig.data()[i]);
                assert(t.data()[i][oncols as int] == t.store()[t.keys()[i][oncols as int] as int]);
            }
        }
        t
    }

    /// Overwrite, for every row, the cell in the column `col` resolves to
    /// with what `f` makes of the row and that cell.
    ///
    /// The overwrite reuses the cell's key in place: nothing is appended and
    /// nothing is orphaned. Fails with `ColumnNotFound` exactly when the
    /// reference does not resolve. When the table's keys are distinct — the
    /// normal state — every other column is untouched and each cell of the
    /// mapped column is `f`'s answer for its own row.
    pub fn map_col<C: Column, F: for<'a> Fn(Row<'a, T>, &T) -> T>(self, col: C, f: F) -> (res:
        Result<Self, TableError>)
        requires
            self.wf(),
            forall|row: Row<'_, T>, v: &T|
                row.wf() && row.header() == self.header() ==> call_requires(f, (row, v)),
        ensures
            match res {
                Ok(t) => {
                    &&& col.resolve(self.header()) matches Some(p)
                    &&& 0 <= p < self.ncols()
                    &&& t.wf()
                    &&& t.names() == self.names()
                    &&& t.keys() == self.keys()
                    &&& t.store_len() == self.store_len()
                    &&& self.distinct_keys() ==> {
                        &&& forall|r: int, c: int|
                            0 <= r < self.nrows() && 0 <= c < self.ncols() && c != p
                                ==> #[trigger] t.data()[r][c] == self.data()[r][c]
                        &&& forall|r: int|
                            0 <= r < self.nrows() ==> cell_mapped(
                                self,
                                f,
                                p,
                                r,
                                #[trigger] t.data()[r][p],
                            )
                    }
                },
                Err(e) => {
                    &&& col.resolve(self.header()) is None
                    &&& e matches TableError::ColumnNotFound { column } && column@
                        == col.describe_name()
                },
            },
    {
        proof {
            assert(self.cols.deep_view() =~= self.header());
        }
        let p = match col.find(&self.cols) {
            Some(p) => p,
            None => {
                return Err(TableError::ColumnNotFound { column: col.describe() });
            },
        };
        let ghost gorig = self;
        let Table { mut cells, rows, cols } = self;
        let rn = rows.len();
        let mut r: usize = 0;
        while r < rn
            invariant
                rn == gorig.nrows(),
                gorig.wf(),
                0 <= p < gorig.ncols(),
                rows@.map_values(|v: Vec<usize>| v@) == gorig.keys(),
                cols@ == gorig.names(),
                forall|row: Row<'_, T>, v: &T|
                    row.wf() && row.header() == gorig.header() ==> call_requires(f, (row, v)),
                0 <= r <= rn,
                cells@.len() == gorig.store_len(),
                gorig.distinct_keys() ==> {
                    &&& forall|i: int, c: int|
                        0 <= i < rn && 0 <= c < gorig.ncols() && !(c == p && i < r)
                            ==> #[trigger] cells@[gorig.keys()[i][c] as int] == gorig.store()[
                            gorig.keys()[i][c] as int]
                    &&& forall|i: int|
                        0 <= i < r ==> cell_mapped(
                            gorig,
                            f,
                            p as int,
                            i,
                            #[trigger] cells@[gorig.keys()[i][p as int] as int],
                        )
                },
            decreases rn - r,
        {
            let row = Row::new(&cols, &rows[r], &cells);
            proof {
                assert(gorig.keys()[r as int] == rows@[r as int]@);
                assert(row.header() =~= gorig.header());
                assert(row.wf());
                if gorig.distinct_keys() {
                    assert forall|c: int| 0 <= c < row.keys_view().len() implies #[trigger] row.values()[
                        c] == gorig.data()[r as int][c] by {
                        assert(cells@[gorig.keys()[r as int][c] as int] == gorig.store()[
                            gorig.keys()[r as int][c] as int]);
                    }
                    assert(row.values() =~= gorig.data()[r as int]);
                }
            }
            let j = rows[r][p];
            let v = f(row, &cells[j]);
            proof {
                assert(call_ensures(f, (row, &cells@[j as int]), v));
            }
            cells[j] = v;
            proof {
                if gorig.distinct_keys() {
                    assert(cells@[j as int] == v);
                    assert(gorig.data()[r as int][p as int] == gorig.store()[j as int]);
                    assert(cell_mapped(gorig, f, p as int, r as int, v));
                    assert forall|i: int, c: int|
                        0 <= i < rn && 0 <= c < gorig.ncols() && !(c == p && i < r + 1) implies #[trigger] cells@[
                        gorig.keys()[i][c] as int] == gorig.store()[gorig.keys()[i][c] as int] by {
                        assert(gorig.keys()[i][c] != gorig.keys()[r as int][p as int]);
                    }
                    assert forall|i: int| 0 <= i < r + 1 implies cell_mapped(
                        gorig,
                        f,
                        p as int,
                        i,
                        #[trigger] cells@[gorig.keys()[i][p as int] as int],
                    ) by {
                        if i < r {
                            assert(gorig.keys()[i][p as int] != gorig.keys()[r as int][p as int]);
                        }
                    }
                }
            }
            r += 1;
        }
        let t = Table { cells, rows, cols };
        proof {
            assert(t.keys() =~= gorig.keys());
            assert(t.wf());
            if gorig.distinct_keys() {
                assert forall|i: int, c: int|
                    0 <= i < rn && 0 <= c < gorig.ncols() && c != p implies #[trigger] t.data()[i][c]
                    == gorig.data()[i][c] by {
                    assert(t.data()[i][c] == t.store()[gorig.keys()[i][c] as int]);
                }
                assert forall|i: int| 0 <= i < rn implies cell_mapped(
                    gorig,
                    f,
                    p as int,
                    i,
                    #[trigger] t.data()[i][p as int],
                ) by {
                    assert(t.data()[i][p as int] == t.store()[gorig.keys()[i][p as int] as int]);
                }
            }
        }
        Ok(t)
    }

    /// Reorder the rows by ascending sort key, stably: rows with equal keys
    /// keep their relative order.
    ///
    /// `key` reads each row through a transient view and gives it a sort
    /// key; the rows are then reordered by a permutation that sorts those
    /// keys. Only the row sequence is reordered: no key vector and no cell
    /// is touched.
    pub fn sort_rows<F: for<'a> Fn(Row<'a, T>) -> u64>(self, key: F) -> (t: Self)
        requires
            self.wf(),
            forall|row: Row<'_, T>|
                row.wf() && row.header() == self.header() ==> call_requires(key, (row,)),
        ensures
            t.wf(),
            t.names() == self.names(),
            t.nrows() == self.nrows(),
            t.store_len() == self.store_len(),
            self.distinct_keys() ==> t.distinct_keys(),
            exists|ks: Seq<u64>, perm: Seq<int>|
                {
                    &&& #[trigger] rows_sorted_by(self, t, ks, perm)
                    &&& forall|j: int| 0 <= j < ks.len() ==> row_keyed(self, key, j, #[trigger] ks[j])
                },
    {
        let ghost gorig = self;
        let rn = self.rows.len();
        // give every row its sort key
        let mut ks: Vec<u64> = Vec::new();
        let mut i: usize = 0;
        while i < rn
            invariant
                self.wf(),
                rn == self.nrows(),
                forall|row: Row<'_, T>|
                    row.wf() && row.header() == self.header() ==> call_requires(key, (row,)),
                0 <= i <= rn,
                ks@.len() == i,
                forall|j: int| 0 <= j < i ==> row_keyed(self, key, j, #[trigger] ks@[j]),
            decreases rn - i,
        {
            let row = Row::new(&self.cols, &self.rows[i], &self.cells);
            proof {
                assert(self.keys()[i as int] == self.rows@[i as int]@);
                assert(row.header() =~= self.header());
                assert(row.values() =~= self.data()[i as int]);
                assert(row.wf());
            }
            let k = key(row);
            proof {
                assert(call_ensures(key, (row,), k));
                assert(row_keyed(self, key, i as int, k));
            }
            ks.push(k);
            i += 1;
        }
        // stable insertion: each row goes in after the rows whose key is not
        // greater than its own
        let Table { cells, rows, cols } = self;
        let mut skeys: Vec<u64> = Vec::new();
        let mut sorted: Vec<Vec<usize>> = Vec::new();
        let ghost mut perm: Seq<int> = Seq::empty();
        let mut i2: usize = 0;
        while i2 < rn
            invariant
                rn == gorig.nrows(),
                gorig.wf(),
                rows@.map_values(|v: Vec<usize>| v@) == gorig.keys(),
                ks@.len() == rn,
                0 <= i2 <= rn,
                skeys@.len() == i2,
                sorted@.len() == i2,
                perm.len() == i2,
                forall|a: int| 0 <= a < i2 ==> 0 <= #[trigger] perm[a] < i2,
                forall|a: int, b: int|
                    0 <= a < b < i2 ==> #[trigger] perm[a] != #[trigger] perm[b],
                forall|a: int|
                    0 <= a < i2 ==> {
                        &&& (#[trigger] sorted@[a]@) == gorig.keys()[perm[a]]
                        &&& skeys@[a] == ks@[perm[a]]
                    },
                forall|a: int, b: int| 0 <= a <= b < i2 ==> #[trigger] skeys@[a] <= #[trigger] skeys@[b],
                forall|a: int, b: int|
                    0 <= a < b < i2 && #[trigger] skeys@[a] == #[trigger] skeys@[b] ==> perm[a]
                        < perm[b],
            decreases rn - i2,
        {
            let k = ks[i2];
            let kr = copy_keys(&rows[i2]);
            let ghost krv = kr@;
            proof {
                assert(krv == gorig.keys()[i2 as int]);
            }
            let mut pos = skeys.len();
            while pos > 0 && skeys[pos - 1] > k
                invariant
                    skeys@.len() == i2,
                    0 <= pos <= i2,
                    forall|b: int| pos <= b < i2 ==> #[trigger] skeys@[b] > k,
                decreases pos,
            {
                pos -= 1;
            }
            let ghost oldperm = perm;
            let ghost oldskeys = skeys@;
            let ghost oldsorted = sorted@;
            skeys.insert(pos, k);
            sorted.insert(pos, kr);
            proof {
                perm = perm.insert(pos as int, i2 as int);
                oldskeys.insert_ensures(pos as int, k);
                oldsorted.insert_ensures(pos as int, kr);
                oldperm.insert_ensures(pos as int, i2 as int);
                assert(skeys@ == oldskeys.insert(pos as int, k));
                assert(sorted@ == oldsorted.insert(pos as int, kr));
                assert forall|a: int| 0 <= a < i2 + 1 implies {
                    &&& 0 <= #[trigger] perm[a] < i2 + 1
                    &&& sorted@[a]@ == gorig.keys()[perm[a]]
                    &&& skeys@[a] == ks@[perm[a]]
                } by {
                    if a < pos {
                        assert(perm[a] == oldperm[a]);
                        assert(sorted@[a] == oldsorted[a]);
                        assert(skeys@[a] == oldskeys[a]);
                        assert(oldsorted[a]@ == gorig.keys()[oldperm[a]]);
                        assert(oldskeys[a] == ks@[oldperm[a]]);
                    } else if a == pos {
                        assert(perm[a] == i2 as int);
                        assert(sorted@[a]@ == krv);
                        assert(skeys@[a] == k);
                    } else {
                        let a0 = a - 1;
                        assert(perm[a0 + 1] == oldperm[a0]);
                        assert(sorted@[a0 + 1] == oldsorted[a0]);
                        assert(skeys@[a0 + 1] == oldskeys[a0]);
                        assert(oldsorted[a0]@ == gorig.keys()[oldperm[a0]]);
                        assert(oldskeys[a0] == ks@[oldperm[a0]]);
                    }
                }
                assert forall|a: int, b: int| 0 <= a < b < i2 + 1 implies #[trigger] perm[a]
                    != #[trigger] perm[b] by {
                    assert(0 <= perm[a] < i2 + 1 && 0 <= perm[b] < i2 + 1);
                    if a < pos {
                        assert(perm[a] == oldperm[a]);
                    } else if a > pos {
                        let a0 = a - 1;
                        assert(perm[a0 + 1] == oldperm[a0]);
                    }
                    if b < pos {
                        assert(perm[b] == oldperm[b]);
                    } else if b > pos {
                        let b0 = b - 1;
                        assert(perm[b0 + 1] == oldperm[b0]);
                    }
                }
                assert forall|a: int, b: int|
                    0 <= a <= b < i2 + 1 implies #[trigger] skeys@[a] <= #[trigger] skeys@[b] by {
                    if a < pos {
                        assert(skeys@[a] == oldskeys[a]);
                    } else if a > pos {
                        let a0 = a - 1;
                        assert(skeys@[a0 + 1] == oldskeys[a0]);
                    }
                    if b < pos {
                        assert(skeys@[b] == oldskeys[b]);
                    } else if b > pos {
                        let b0 = b - 1;
                        assert(skeys@[b0 + 1] == oldskeys[b0]);
                        assert(oldskeys[b0] > k);
                    }
                    if pos > 0 && a < pos && b == pos {
                        assert(oldskeys[a] <= oldskeys[pos - 1]);
                    }
                }
                assert forall|a: int, b: int|
                    0 <= a < b < i2 + 1 && #[trigger] skeys@[a] == #[trigger] skeys@[b] implies
                    perm[a] < perm[b] by {
                    if a < pos {
                        assert(skeys@[a] == oldskeys[a] && perm[a] == oldperm[a]);
                        assert(oldperm[a] < i2);
                    } else if a > pos {
                        let a0 = a - 1;
                        assert(skeys@[a0 + 1] == oldskeys[a0] && perm[a0 + 1] == oldperm[a0]);
                        assert(oldperm[a0] < i2);
                    }
                    if b < pos {
                        assert(skeys@[b] == oldskeys[b] && perm[b] == oldperm[b]);
                    } else if b > pos {
                        let b0 = b - 1;
                        assert(skeys@[b0 + 1] == oldskeys[b0] && perm[b0 + 1] == oldperm[b0]);
                        assert(oldskeys[b0] > k);
                    }
                }
            }
            i2 += 1;
        }
        proof {
            assert forall|a: int, b: int| 0 <= a <= b < rn implies ks@[#[trigger] perm[a]] <= ks@[
                #[trigger] perm[b]] by {
                assert(sorted@[a]@ == gorig.keys()[perm[a]]);
                assert(sorted@[b]@ == gorig.keys()[perm[b]]);
                assert(skeys@[a] <= skeys@[b]);
            }
            assert forall|a: int, b: int|
                0 <= a < b < rn && ks@[#[trigger] perm[a]] == ks@[#[trigger] perm[b]] implies perm[
                a] < perm[b] by {
                assert(sorted@[a]@ == gorig.keys()[perm[a]]);
                assert(sorted@[b]@ == gorig.keys()[perm[b]]);
                assert(skeys@[a] == ks@[perm[a]] && skeys@[b] == ks@[perm[b]]);
            }
        }
        let t = Table { cells, rows: sorted, cols };
        proof {
            assert(t.keys() =~= sorted@.map_values(|v: Vec<usize>| v@));
            assert forall|a: int| 0 <= a < rn implies {
                &&& (#[trigger] t.keys()[a]).len() == t.ncols()
                &&& forall|c: int|
                    0 <= c < t.keys()[a].len() ==> (#[trigger] t.keys()[a][c]) < t.store_len()
            } by {
                assert(t.keys()[a] == gorig.keys()[perm[a]]);
            }
            assert(t.wf());
            assert forall|a: int| 0 <= a < rn implies #[trigger] t.data()[a] == gorig.data()[perm[a]] by {
                assert(t.keys()[a] == gorig.keys()[perm[a]]);
                assert(t.data()[a] =~= gorig.data()[perm[a]]);
            }
            assert(rows_sorted_by(gorig, t, ks@, perm));
            if gorig.distinct_keys() {
                assert forall|r1: int, c1: int, r2: int, c2: int|
                    0 <= r1 < t.keys().len() && 0 <= c1 < t.keys()[r1].len() && 0 <= r2
                        < t.keys().len() && 0 <= c2 < t.keys()[r2].len() && (#[trigger] t.keys()[
                    r1][c1]) == (#[trigger] t.keys()[r2][c2]) implies r1 == r2 && c1 == c2 by {
                    assert(t.keys()[r1] == gorig.keys()[perm[r1]]);
                    assert(t.keys()[r2] == gorig.keys()[perm[r2]]);
                    assert(gorig.keys()[perm[r1]][c1] == gorig.keys()[perm[r2]][c2]);
                    assert(perm[r1] == perm[r2] && c1 == c2);
                }
            }
        }
        t
    }

    /// Reorder the columns by ascending sort key, stably: columns with
    /// equal keys keep their relative order.
    ///
    /// `key` gives each column a sort key from its name; the header and
    /// every row's key sequence are then reordered in lockstep by a
    /// permutation that sorts those keys. Afterwards the reclamation check
    /// runs.
    pub fn sort_cols<F: Fn(&String) -> u64>(self, key: F) -> (t: Self)
        requires
            self.wf(),
            forall|s: &String| call_requires(key, (s,)),
        ensures
            t.wf(),
            t.nrows() == self.nrows(),
            t.ncols() == self.ncols(),
            t.store_len() as int <= 5 * t.nrows() * t.ncols(),
            self.distinct_keys() ==> t.distinct_keys(),
            exists|ks: Seq<u64>, perm: Seq<usize>|
                {
                    &&& #[trigger] cols_sorted_by(self, t, ks, perm)
                    &&& forall|j: int|
                        0 <= j < ks.len() ==> call_ensures(
                            key,
                            (&self.names()[j],),
                            #[trigger] ks[j],
                        )
                },
    {
        let ghost gorig = self;
        let cn = self.cols.len();
        // give every column its sort key
        let mut ks: Vec<u64> = Vec::new();
        let mut i: usize = 0;
        while i < cn
            invariant
                cn == self.ncols(),
                forall|s: &String| call_requires(key, (s,)),
                0 <= i <= cn,
                ks@.len() == i,
                forall|j: int|
                    0 <= j < i ==> call_ensures(key, (&self.names()[j],), #[trigger] ks@[j]),
            decreases cn - i,
        {
            let k = key(&self.cols[i]);
            ks.push(k);
            i += 1;
        }
        // stable insertion of the column positions
        let mut skeys: Vec<u64> = Vec::new();
        let mut sind: Vec<usize> = Vec::new();
        let mut i2: usize = 0;
        while i2 < cn
            invariant
                cn == self.ncols(),
                ks@.len() == cn,
                0 <= i2 <= cn,
                skeys@.len() == i2,
                sind@.len() == i2,
                forall|a: int| 0 <= a < i2 ==> (#[trigger] sind@[a]) < i2,
                forall|a: int, b: int|
                    0 <= a < b < i2 ==> #[trigger] sind@[a] != #[trigger] sind@[b],
                forall|a: int|
                    0 <= a < i2 ==> #[trigger] skeys@[a] == ks@[sind@[a] as int],
                forall|a: int, b: int|
                    0 <= a <= b < i2 ==> #[trigger] skeys@[a] <= #[trigger] skeys@[b],
                forall|a: int, b: int|
                    0 <= a < b < i2 && #[trigger] skeys@[a] == #[trigger] skeys@[b] ==> sind@[a]
                        < sind@[b],
            decreases cn - i2,
        {
            let k = ks[i2];
            let mut pos = skeys.len();
            while pos > 0 && skeys[pos - 1] > k
                invariant
                    skeys@.len() == i2,
                    0 <= pos <= i2,
                    forall|b: int| pos <= b < i2 ==> #[trigger] skeys@[b] > k,
                decreases pos,
            {
                pos -= 1;
            }
            let ghost oldsind = sind@;
            let ghost oldskeys = skeys@;
            skeys.insert(pos, k);
            sind.insert(pos, i2);
            proof {
                oldskeys.insert_ensures(pos as int, k);
                oldsind.insert_ensures(pos as int, i2);
                assert forall|a: int| 0 <= a < i2 + 1 implies {
                    &&& (#[trigger] sind@[a]) < i2 + 1
                    &&& skeys@[a] == ks@[sind@[a] as int]
                } by {
                    if a < pos {
                        assert(sind@[a] == oldsind[a]);
                        assert(skeys@[a] == oldskeys[a]);
                        assert(oldskeys[a] == ks@[oldsind[a] as int]);
                    } else if a == pos {
                        assert(sind@[a] == i2 && skeys@[a] == k);
                    } else {
                        let a0 = a - 1;
                        assert(sind@[a0 + 1] == oldsind[a0]);
                        assert(skeys@[a0 + 1] == oldskeys[a0]);
                        assert(oldskeys[a0] == ks@[oldsind[a0] as int]);
                    }
                }
                assert forall|a: int, b: int| 0 <= a < b < i2 + 1 implies #[trigger] sind@[a]
                    != #[trigger] sind@[b] by {
                    if a < pos {
                        assert(sind@[a] == oldsind[a]);
                    } else if a > pos {
                        let a0 = a - 1;
                        assert(sind@[a0 + 1] == oldsind[a0]);
                    }
                    if b < pos {
                        assert(sind@[b] == oldsind[b]);
                    } else if b > pos {
                        let b0 = b - 1;
                        assert(sind@[b0 + 1] == oldsind[b0]);
                    }
                }
                assert forall|a: int, b: int|
                    0 <= a <= b < i2 + 1 implies #[trigger] skeys@[a] <= #[trigger] skeys@[b] by {
                    if a < pos {
                        assert(skeys@[a] == oldskeys[a]);
                    } else if a > pos {
                        let a0 = a - 1;
                        assert(skeys@[a0 + 1] == oldskeys[a0]);
                    }
                    if b < pos {
                        assert(skeys@[b] == oldskeys[b]);
                    } else if b > pos {
                        let b0 = b - 1;
                        assert(skeys@[b0 + 1] == oldskeys[b0]);
                        assert(oldskeys[b0] > k);
                    }
                    if pos > 0 && a < pos && b == pos {
                        assert(oldskeys[a] <= oldskeys[pos - 1]);
                    }
                }
                assert forall|a: int, b: int|
                    0 <= a < b < i2 + 1 && #[trigger] skeys@[a] == #[trigger] skeys@[b] implies
                    sind@[a] < sind@[b] by {
                    if a < pos {
                        assert(skeys@[a] == oldskeys[a] && sind@[a] == oldsind[a]);
                        assert(oldsind[a] < i2);
                    } else if a > pos {
                        let a0 = a - 1;
                        assert(skeys@[a0 + 1] == oldskeys[a0] && sind@[a0 + 1] == oldsind[a0]);
                        assert(oldsind[a0] < i2);
                    }
                    if b < pos {
                        assert(skeys@[b] == oldskeys[b] && sind@[b] == oldsind[b]);
                    } else if b > pos {
                        let b0 = b - 1;
                        assert(skeys@[b0 + 1] == oldskeys[b0] && sind@[b0 + 1] == oldsind[b0]);
                        assert(oldskeys[b0] > k);
                    }
                }
            }
            i2 += 1;
        }
        // rebuild the header and every row in the sorted column order
        let ghost ginds = sind@;
        proof {
            assert forall|a: int, b: int| 0 <= a <= b < cn implies ks@[(#[trigger] ginds[a]) as int]
                <= ks@[(#[trigger] ginds[b]) as int] by {
                assert(skeys@[a] == ks@[sind@[a] as int]);
                assert(skeys@[b] == ks@[sind@[b] as int]);
                assert(skeys@[a] <= skeys@[b]);
            }
            assert forall|a: int, b: int|
                0 <= a < b < cn && ks@[(#[trigger] ginds[a]) as int] == ks@[(#[trigger] ginds[b]) as int]
                implies ginds[a] < ginds[b] by {
                assert(skeys@[a] == ks@[sind@[a] as int]);
                assert(skeys@[b] == ks@[sind@[b] as int]);
            }
        }
        let mut new_cols: Vec<String> = Vec::new();
        let mut k2: usize = 0;
        while k2 < cn
            invariant
                cn == self.ncols(),
                sind@ == ginds,
                ginds.len() == cn,
                forall|j: int| 0 <= j < ginds.len() ==> (#[trigger] ginds[j]) < cn,
                0 <= k2 <= cn,
                new_cols@.len() == k2,
                forall|j: int|
                    0 <= j < k2 ==> (#[trigger] new_cols@[j]) == self.names()[ginds[j] as int],
            decreases cn - k2,
        {
            let p = sind[k2];
            let name = self.cols[p].clone();
            new_cols.push(name);
            k2 += 1;
        }
        let rn = self.rows.len();
        let mut new_rows: Vec<Vec<usize>> = Vec::new();
        let mut r: usize = 0;
        while r < rn
            invariant
                self.wf(),
                rn == self.nrows(),
                cn == self.ncols(),
                sind@ == ginds,
                ginds.len() == cn,
                forall|j: int| 0 <= j < ginds.len() ==> (#[trigger] ginds[j]) < cn,
                0 <= r <= rn,
                new_rows@.len() == r,
                forall|r2: int|
                    0 <= r2 < r ==> (#[trigger] new_rows@[r2]@) == pick_row(
                        self.keys()[r2],
                        ginds,
                    ),
            decreases rn - r,
        {
            proof {
                assert(self.keys()[r as int] == self.rows@[r as int]@);
            }
            let mut nr: Vec<usize> = Vec::new();
            let mut c: usize = 0;
            while c < cn
                invariant
                    self.wf(),
                    rn == self.nrows(),
                    cn == self.ncols(),
                    sind@ == ginds,
                    ginds.len() == cn,
                    forall|j: int| 0 <= j < ginds.len() ==> (#[trigger] ginds[j]) < cn,
                    0 <= r < rn,
                    0 <= c <= cn,
                    self.keys()[r as int] == self.rows@[r as int]@,
                    nr@.len() == c,
                    forall|c2: int|
                        0 <= c2 < c ==> (#[trigger] nr@[c2]) == self.keys()[r as int][ginds[c2] as int],
                decreases cn - c,
            {
                let p = sind[c];
                nr.push(self.rows[r][p]);
                c += 1;
            }
            new_rows.push(nr);
            r += 1;
        }
        let ghost gks = ks@;
        let t0 = Table { cells: self.cells, rows: new_rows, cols: new_cols };
        proof {
            assert(t0.names() =~= pick_row(gorig.names(), ginds));
            assert(t0.keys() =~= new_rows@.map_values(|v: Vec<usize>| v@));
            assert forall|r2: int| 0 <= r2 < rn implies {
                &&& (#[trigger] t0.keys()[r2]).len() == t0.ncols()
                &&& forall|c2: int|
                    0 <= c2 < t0.keys()[r2].len() ==> (#[trigger] t0.keys()[r2][c2])
                        < t0.store_len()
            } by {
                assert(t0.keys()[r2] == pick_row(gorig.keys()[r2], ginds));
            }
            assert(t0.wf());
            assert forall|r2: int| 0 <= r2 < rn implies #[trigger] t0.data()[r2] == pick_row(
                gorig.data()[r2],
                ginds,
            ) by {
                assert(t0.data()[r2] =~= pick_row(gorig.data()[r2], ginds));
            }
            assert(t0.data() =~= pick_data(gorig.data(), ginds));
            if gorig.distinct_keys() {
                assert forall|r1: int, c1: int, r2: int, c2: int|
                    0 <= r1 < t0.keys().len() && 0 <= c1 < t0.keys()[r1].len() && 0 <= r2
                        < t0.keys().len() && 0 <= c2 < t0.keys()[r2].len() && (#[trigger] t0.keys()[
                    r1][c1]) == (#[trigger] t0.keys()[r2][c2]) implies r1 == r2 && c1 == c2 by {
                    assert(t0.keys()[r1][c1] == gorig.keys()[r1][ginds[c1] as int]);
                    assert(t0.keys()[r2][c2] == gorig.keys()[r2][ginds[c2] as int]);
                    assert(r1 == r2 && ginds[c1] == ginds[c2]);
                }
            }
        }
        let t = t0.maybe_consolidate();
        proof {
            assert(cols_sorted_by(gorig, t, gks, ginds));
        }
        t
    }

    /// Rename columns by mapping references to new names.
    ///
    /// Every reference is resolved against one header snapshot taken before
    /// any rename is applied, so swapping two columns' names in one call is
    /// a simultaneous relabeling. When two pairs name the same column the
    /// later one wins. Fails with `ColumnNotFound` exactly when some
    /// reference does not resolve; nothing is renamed then.
    pub fn rename<C: Column>(self, map: Vec<(C, String)>) -> (res: Result<Self, TableError>)
        requires
            self.wf(),
        ensures
            match res {
                Ok(t) => {
                    &&& t.wf()
                    &&& t.keys() == self.keys()
                    &&& t.store_len() == self.store_len()
                    &&& t.data() == self.data()
                    &&& t.ncols() == self.ncols()
                    &&& exists|inds: Seq<usize>|
                        {
                            &&& inds.len() == map@.len()
                            &&& forall|k: int|
                                0 <= k < map@.len() ==> map@[k].0.resolve(self.header()) == Some(
                                    (#[trigger] inds[k]) as int,
                                )
                            &&& t.names() == apply_renames(
                                self.names(),
                                inds,
                                map@.map_values(|p: (C, String)| p.1),
                            )
                        }
                },
                Err(e) => exists|k: int|
                    {
                        &&& 0 <= k < map@.len()
                        &&& (#[trigger] map@[k].0).resolve(self.header()) is None
                        &&& forall|j: int| 0 <= j < k ==> map@[j].0.resolve(self.header()) is Some
                        &&& e matches TableError::ColumnNotFound { column } && column@
                            == map@[k].0.describe_name()
                    },
            },
    {
        proof {
            assert(self.cols.deep_view() =~= self.header());
        }
        let ghost news = map@.map_values(|p: (C, String)| p.1);
        let m = map.len();
        let mut inds: Vec<usize> = Vec::new();
        let mut k: usize = 0;
        while k < m
            invariant
                m == map@.len(),
                self.cols.deep_view() == self.header(),
                0 <= k <= m,
                inds@.len() == k,
                forall|j: int|
                    0 <= j < k ==> map@[j].0.resolve(self.header()) == Some(
                        (#[trigger] inds@[j]) as int,
                    ),
                forall|j: int| 0 <= j < k ==> (#[trigger] inds@[j]) < self.ncols(),
            decreases m - k,
        {
            match map[k].0.find(&self.cols) {
                Some(p) => {
                    inds.push(p);
                },
                None => {
                    proof {
                        // every earlier reference resolved, so this is the
                        // first unresolved one
                        assert forall|j: int| 0 <= j < k implies map@[j].0.resolve(
                            self.header(),
                        ) is Some by {
                            assert(map@[j].0.resolve(self.header()) == Some(inds@[j] as int));
                        }
                    }
                    return Err(
                        TableError::ColumnNotFound { column: map[k].0.describe() },
                    );
                },
            }
            k += 1;
        }
        let ghost gorig = self;
        let Table { cells, rows, mut cols } = self;
        let mut k2: usize = 0;
        while k2 < m
            invariant
                m == map@.len(),
                news == map@.map_values(|p: (C, String)| p.1),
                inds@.len() == m,
                forall|j: int| 0 <= j < m ==> (#[trigger] inds@[j]) < gorig.ncols(),
                0 <= k2 <= m,
                cols@.len() == gorig.ncols(),
                cols@ == apply_renames(
                    gorig.names(),
                    inds@.take(k2 as int),
                    news.take(k2 as int),
                ),
            decreases m - k2,
        {
            let name = map[k2].1.clone();
            let p = inds[k2];
            proof {
                assert(name == news[k2 as int]);
                lemma_apply_renames_take(gorig.names(), inds@, news, k2 as int);
            }
            cols[p] = name;
            k2 += 1;
        }
        proof {
            assert(inds@.take(m as int) =~= inds@);
            assert(news.take(m as int) =~= news);
        }
        let t = Table { cells, rows, cols };
        proof {
            assert(t.keys() =~= gorig.keys());
            assert(t.wf());
            assert(t.data() =~= gorig.data());
        }
        Ok(t)
    }

    /// Reorder and select columns by picking out specific columns, in the
    /// given order.
    ///
    /// Every reference is resolved against one header snapshot; the new
    /// column order is the resolved positions in the given sequence. With
    /// `trail` set, the columns not picked follow, in their original
    /// relative order. Every row's keys are rebuilt in the new order; a
    /// reference picked twice makes two columns share one cell. Fails with
    /// `ColumnNotFound` exactly when some reference does not resolve.
    /// Afterwards the reclamation check runs.
    pub fn pick<C: Column>(self, trail: bool, refs: Vec<C>) -> (res: Result<Self, TableError>)
        requires
            self.wf(),
        ensures
            match res {
                Ok(t) => {
                    &&& t.wf()
                    &&& t.nrows() == self.nrows()
                    &&& t.store_len() as int <= 5 * t.nrows() * t.ncols()
                    &&& exists|inds: Seq<usize>|
                        {
                            &&& inds.len() >= refs@.len()
                            &&& forall|k: int|
                                0 <= k < refs@.len() ==> refs@[k].resolve(self.header()) == Some(
                                    (#[trigger] inds[k]) as int,
                                )
                            &&& forall|k: int|
                                0 <= k < inds.len() ==> (#[trigger] inds[k]) < self.ncols()
                            &&& (if trail {
                                inds == inds.take(refs@.len() as int) + trail_inds(
                                    inds.take(refs@.len() as int),
                                    self.ncols(),
                                )
                            } else {
                                inds.len() == refs@.len()
                            })
                            &&& t.names() == pick_row(self.names(), inds)
                            &&& t.data() == pick_data(self.data(), inds)
                        }
                },
                Err(e) => exists|k: int|
                    {
                        &&& 0 <= k < refs@.len()
                        &&& (#[trigger] refs@[k]).resolve(self.header()) is None
                        &&& forall|j: int| 0 <= j < k ==> refs@[j].resolve(self.header()) is Some
                        &&& e matches TableError::ColumnNotFound { column } && column@
                            == refs@[k].describe_name()
                    },
            },
    {
        proof {
            assert(self.cols.deep_view() =~= self.header());
        }
        let m = refs.len();
        let cn = self.cols.len();
        let mut inds: Vec<usize> = Vec::new();
        let mut k: usize = 0;
        while k < m
            invariant
                m == refs@.len(),
                cn == self.ncols(),
                self.cols.deep_view() == self.header(),
                0 <= k <= m,
                inds@.len() == k,
                forall|j: int|
                    0 <= j < k ==> refs@[j].resolve(self.header()) == Some(
                        (#[trigger] inds@[j]) as int,
                    ),
                forall|j: int| 0 <= j < k ==> (#[trigger] inds@[j]) < cn,
            decreases m - k,
        {
            match refs[k].find(&self.cols) {
                Some(p) => {
                    inds.push(p);
                },
                None => {
                    proof {
                        // every earlier reference resolved, so this is the
                        // first unresolved one
                        assert forall|j: int| 0 <= j < k implies refs@[j].resolve(
                            self.header(),
                        ) is Some by {
                            assert(refs@[j].resolve(self.header()) == Some(inds@[j] as int));
                        }
                    }
                    return Err(TableError::ColumnNotFound { column: refs[k].describe() });
                },
            }
            k += 1;
        }
        let ghost picked = inds@;
        if trail {
            let chosen = copy_keys(&inds);
            let ghost ids = Seq::new(cn as nat, |i: int| i as usize);
            let ghost keepflags = Seq::new(cn as nat, |i: int| !picked.contains(i as usize));
            let mut i: usize = 0;
            while i < cn
                invariant
                    cn == self.ncols(),
                    chosen@ == picked,
                    picked.len() == m,
                    forall|j: int| 0 <= j < picked.len() ==> (#[trigger] picked[j]) < cn,
                    ids == Seq::new(cn as nat, |i2: int| i2 as usize),
                    keepflags == Seq::new(cn as nat, |i2: int| !picked.contains(i2 as usize)),
                    0 <= i <= cn,
                    inds@ == picked + filter_by(ids.take(i as int), keepflags),
                decreases cn - i,
            {
                let ghost old_inds = inds@;
                if !contains_key(&chosen, i) {
                    inds.push(i);
                }
                proof {
                    lemma_filter_by_take(ids, keepflags, i as int);
                    assert(ids.take(i as int + 1).take(i as int) =~= ids.take(i as int));
                    assert(keepflags.take(i as int + 1).take(i as int) =~= keepflags.take(
                        i as int,
                    ));
                    assert(filter_by(ids.take(i as int), keepflags.take(i as int)) == filter_by(
                        ids.take(i as int),
                        keepflags,
                    )) by {
                        lemma_filter_by_prefix(ids.take(i as int), keepflags, i as int);
                    }
                    assert(filter_by(ids.take(i as int + 1), keepflags.take(i as int + 1))
                        == filter_by(ids.take(i as int + 1), keepflags)) by {
                        lemma_filter_by_prefix(ids.take(i as int + 1), keepflags, i as int + 1);
                    }
                    assert(ids[i as int] == i as usize);
                    assert(keepflags[i as int] == !picked.contains(i as usize));
                    if !picked.contains(i as usize) {
                        assert(inds@ =~= old_inds + seq![i as usize]);
                        assert(old_inds + seq![i as usize] =~= picked + (filter_by(
                            ids.take(i as int),
                            keepflags,
                        ) + seq![i as usize]));
                    } else {
                        assert(filter_by(ids.take(i as int + 1), keepflags) == filter_by(
                            ids.take(i as int),
                            keepflags,
                        ) + Seq::<usize>::empty());
                        assert(filter_by(ids.take(i as int), keepflags) + Seq::<usize>::empty()
                            =~= filter_by(ids.take(i as int), keepflags));
                    }
                    assert(inds@ =~= picked + filter_by(ids.take(i as int + 1), keepflags));
                }
                i += 1;
            }
            proof {
                assert(ids.take(cn as int) =~= ids);
                assert(inds@ == picked + trail_inds(picked, cn as nat));
                assert forall|j: int| 0 <= j < inds@.len() implies (#[trigger] inds@[j]) < cn by {
                    if j >= picked.len() {
                        crate::model::lemma_filter_by_element(ids, keepflags, j - picked.len());
                        let i0 = choose|i0: int|
                            0 <= i0 < ids.len() && filter_by(ids, keepflags)[j - picked.len()]
                                == ids[i0];
                    }
                }
                assert(inds@.take(m as int) =~= picked);
            }
        }
        // build the new header and rebuild every row in the new order
        let ghost ginds = inds@;
        let pn = inds.len();
        let mut new_cols: Vec<String> = Vec::new();
        let mut k2: usize = 0;
        while k2 < pn
            invariant
                pn == ginds.len(),
                inds@ == ginds,
                cn == self.ncols(),
                forall|j: int| 0 <= j < ginds.len() ==> (#[trigger] ginds[j]) < cn,
                0 <= k2 <= pn,
                new_cols@.len() == k2,
                forall|j: int|
                    0 <= j < k2 ==> (#[trigger] new_cols@[j]) == self.names()[ginds[j] as int],
            decreases pn - k2,
        {
            let p = inds[k2];
            let name = self.cols[p].clone();
            new_cols.push(name);
            k2 += 1;
        }
        let rn = self.rows.len();
        let mut new_rows: Vec<Vec<usize>> = Vec::new();
        let mut r: usize = 0;
        while r < rn
            invariant
                self.wf(),
                rn == self.nrows(),
                cn == self.ncols(),
                pn == ginds.len(),
                inds@ == ginds,
                forall|j: int| 0 <= j < ginds.len() ==> (#[trigger] ginds[j]) < cn,
                0 <= r <= rn,
                new_rows@.len() == r,
                forall|r2: int|
                    0 <= r2 < r ==> (#[trigger] new_rows@[r2]@) == pick_row(
                        self.keys()[r2],
                        ginds,
                    ),
            decreases rn - r,
        {
            proof {
                assert(self.keys()[r as int] == self.rows@[r as int]@);
            }
            let mut nr: Vec<usize> = Vec::new();
            let mut c: usize = 0;
            while c < pn
                invariant
                    self.wf(),
                    rn == self.nrows(),
                    cn == self.ncols(),
                    pn == ginds.len(),
                    inds@ == ginds,
                    forall|j: int| 0 <= j < ginds.len() ==> (#[trigger] ginds[j]) < cn,
                    0 <= r < rn,
                    0 <= c <= pn,
                    self.keys()[r as int] == self.rows@[r as int]@,
                    nr@.len() == c,
                    forall|c2: int|
                        0 <= c2 < c ==> (#[trigger] nr@[c2]) == self.keys()[r as int][ginds[c2] as int],
                decreases pn - c,
            {
                let p = inds[c];
                nr.push(self.rows[r][p]);
                c += 1;
            }
            new_rows.push(nr);
            r += 1;
        }
        let ghost gorig = self;
        let t0 = Table { cells: self.cells, rows: new_rows, cols: new_cols };
        proof {
            assert(t0.names() =~= pick_row(gorig.names(), ginds));
            assert(t0.keys() =~= new_rows@.map_values(|v: Vec<usize>| v@));
            assert forall|r2: int| 0 <= r2 < rn implies {
                &&& (#[trigger] t0.keys()[r2]).len() == t0.ncols()
                &&& forall|c2: int|
                    0 <= c2 < t0.keys()[r2].len() ==> (#[trigger] t0.keys()[r2][c2])
                        < t0.store_len()
            } by {
                assert(t0.keys()[r2] == pick_row(gorig.keys()[r2], ginds));
            }
            assert(t0.wf());
            assert forall|r2: int| 0 <= r2 < rn implies #[trigger] t0.data()[r2] == pick_row(
                gorig.data()[r2],
                ginds,
            ) by {
                assert(t0.data()[r2] =~= pick_row(gorig.data()[r2], ginds));
            }
            assert(t0.data() =~= pick_data(gorig.data(), ginds));
        }
        let t = t0.maybe_consolidate();
        proof {
            assert(t.names() == pick_row(gorig.names(), ginds));
            assert(t.data() == pick_data(gorig.data(), ginds));
            assert(ginds.len() >= m);
            if trail {
                assert(ginds.take(m as int) =~= picked);
                assert(ginds == ginds.take(m as int) + trail_inds(
                    ginds.take(m as int),
                    gorig.ncols(),
                ));
            }
        }
        Ok(t)
    }

    /// Splice a new row in at `row_index`, shifting the rows from there on
    /// down by one.
    ///
    /// The caller supplies one cell per column, in column order, and an
    /// index no greater than the number of rows; the new cells are appended
    /// to the store and the row's keys point at them.
    pub fn insert(self, row_index: usize, row: Vec<T>) -> (t: Self)
        requires
            self.wf(),
            row_index <= self.nrows(),
            row@.len() == self.ncols(),
        ensures
            t.wf(),
            t.names() == self.names(),
            t.nrows() == self.nrows() + 1,
            t.data() == self.data().insert(row_index as int, row@),
            self.distinct_keys() ==> t.distinct_keys(),
    {
        let ghost gorig = self;
        let ghost grow = row@;
        let Table { mut cells, mut rows, cols } = self;
        let base = cells.len();
        let m = row.len();
        // reverse the new cells once, then append them in order
        let mut tmp: Vec<T> = Vec::new();
        let mut rest = row;
        while rest.len() > 0
            invariant
                m == grow.len(),
                rest@ == grow.take(rest@.len() as int),
                tmp@.len() == m - rest@.len(),
                forall|i: int| 0 <= i < tmp@.len() ==> #[trigger] tmp@[i] == grow[m - 1 - i],
            decreases rest.len(),
        {
            let ghost l = rest@.len() as int;
            match rest.pop() {
                Some(x) => {
                    proof {
                        assert(x == grow.take(l)[l - 1]);
                        assert(rest@ =~= grow.take(l - 1));
                    }
                    tmp.push(x);
                },
                None => {},
            }
        }
        let mut keys: Vec<usize> = Vec::new();
        let mut j: usize = 0;
        while j < m
            invariant
                m == grow.len(),
                base == gorig.store_len(),
                0 <= j <= m,
                tmp@.len() == m - j,
                forall|i: int| 0 <= i < tmp@.len() ==> #[trigger] tmp@[i] == grow[m - 1 - i],
                cells@ == gorig.store() + grow.take(j as int),
                keys@.len() == j,
                forall|i: int| 0 <= i < j ==> #[trigger] keys@[i] == base + i,
            decreases m - j,
        {
            match tmp.pop() {
                Some(x) => {
                    proof {
                        assert(x == grow[j as int]);
                    }
                    let key = cells.len();
                    proof {
                        assert(key == base + j);
                    }
                    keys.push(key);
                    cells.push(x);
                    proof {
                        assert(cells@ =~= gorig.store() + grow.take(j as int + 1));
                    }
                },
                None => {},
            }
            j += 1;
        }
        proof {
            assert(grow.take(m as int) =~= grow);
        }
        rows.insert(row_index, keys);
        let t = Table { cells, rows, cols };
        proof {
            assert(t.keys() =~= gorig.keys().insert(row_index as int, keys@));
            assert forall|r: int| 0 <= r < t.keys().len() implies {
                &&& (#[trigger] t.keys()[r]).len() == t.ncols()
                &&& forall|c: int|
                    0 <= c < t.keys()[r].len() ==> (#[trigger] t.keys()[r][c]) < t.store_len()
            } by {
                if r < row_index {
                    assert(t.keys()[r] == gorig.keys()[r]);
                } else if r == row_index {
                    assert(t.keys()[r] == keys@);
                } else {
                    assert(t.keys()[r] == gorig.keys()[r - 1]);
                }
            }
            assert(t.wf());
            if gorig.distinct_keys() {
                assert forall|r1: int, c1: int, r2: int, c2: int|
                    0 <= r1 < t.keys().len() && 0 <= c1 < t.keys()[r1].len() && 0 <= r2
                        < t.keys().len() && 0 <= c2 < t.keys()[r2].len() && (#[trigger] t.keys()[
                    r1][c1]) == (#[trigger] t.keys()[r2][c2]) implies r1 == r2 && c1 == c2 by {
                    let o1: int = if r1 < row_index {
                        r1
                    } else {
                        r1 - 1
                    };
                    let o2: int = if r2 < row_index {
                        r2
                    } else {
                        r2 - 1
                    };
                    if r1 != row_index {
                        assert(t.keys()[r1][c1] == gorig.keys()[o1][c1] < base);
                    } else {
                        assert(t.keys()[r1][c1] == keys@[c1] >= base);
                    }
                    if r2 != row_index {
                        assert(t.keys()[r2][c2] == gorig.keys()[o2][c2] < base);
                    } else {
                        assert(t.keys()[r2][c2] == keys@[c2] >= base);
                    }
                }
            }
            assert forall|r: int| 0 <= r < t.data().len() implies #[trigger] t.data()[r]
                == gorig.data().insert(row_index as int, grow)[r] by {
                if r < row_index {
                    assert(t.keys()[r] == gorig.keys()[r]);
                    assert(t.data()[r] =~= gorig.data()[r]);
                } else if r == row_index {
                    assert(t.keys()[r] == keys@);
                    assert(t.data()[r] =~= grow);
                } else {
                    assert(t.keys()[r] == gorig.keys()[r - 1]);
                    assert(t.data()[r] =~= gorig.data()[r - 1]);
                }
            }
            assert(t.data() =~= gorig.data().insert(row_index as int, grow));
        }
        t
    }

    /// Rewrite every cell of the table through `f`, in place: the store, the
    /// keys and the header keep their shape, and each cell is replaced by
    /// what `f` made of it.
    pub fn typify<F: Fn(&T) -> T>(self, f: F) -> (t: Self)
        requires
            self.wf(),
            forall|v: &T| call_requires(f, (v,)),
        ensures
            t.wf(),
            t.names() == self.names(),
            t.keys() == self.keys(),
            t.store_len() == self.store_len(),
            forall|k: int|
                0 <= k < self.store_len() ==> call_ensures(
                    f,
                    (&self.store()[k],),
                    #[trigger] t.store()[k],
                ),
            forall|r: int, c: int|
                0 <= r < self.nrows() && 0 <= c < self.ncols() ==> call_ensures(
                    f,
                    (&self.data()[r][c],),
                    #[trigger] t.data()[r][c],
                ),
    {
        let ghost gorig = self;
        let Table { mut cells, rows, cols } = self;
        let n = cells.len();
        let mut k: usize = 0;
        while k < n
            invariant
                n == gorig.store_len(),
                0 <= k <= n,
                cells@.len() == n,
                forall|v: &T| call_requires(f, (v,)),
                forall|i: int| k <= i < n ==> #[trigger] cells@[i] == gorig.store()[i],
                forall|i: int|
                    0 <= i < k ==> call_ensures(f, (&gorig.store()[i],), #[trigger] cells@[i]),
            decreases n - k,
        {
            let v = f(&cells[k]);
            cells[k] = v;
            k += 1;
        }
        let t = Table { cells, rows, cols };
        proof {
            assert(t.keys() =~= gorig.keys());
            assert(t.wf());
            assert forall|r: int, c: int|
                0 <= r < gorig.nrows() && 0 <= c < gorig.ncols() implies call_ensures(
                f,
                (&gorig.data()[r][c],),
                #[trigger] t.data()[r][c],
            ) by {
                let kk = gorig.keys()[r][c];
                assert(gorig.data()[r][c] == gorig.store()[kk as int]);
                assert(t.data()[r][c] == t.store()[kk as int]);
            }
        }
        t
    }

    /// Reduce the backing store to the cells the table still references.
    ///
    /// Orphaned cells are dropped; surviving cells keep their order and are
    /// renumbered densely; every row's keys are rewritten accordingly. The
    /// observable table — header and grid — is unchanged. It is generally
    /// not necessary to call this: operations that can orphan cells run it
    /// once the store outgrows the reclamation threshold.
    pub fn consolidate(self) -> (t: Self)
        requires
            self.wf(),
        ensures
            t.wf(),
            consolidation_of(t, self),
            t.data() == self.data(),
            t.nrows() == self.nrows(),
            t.ncols() == self.ncols(),
            forall|k: usize| k < t.store_len() ==> key_used(t.keys(), k),
            t.store_len() <= t.nrows() * t.ncols(),
            self.distinct_keys() ==> t.distinct_keys(),
    {
        let ghost okeys = self.keys();
        let ghost ostore = self.store();
        let ghost oncols = self.ncols();
        let Table { cells, rows, cols } = self;
        let n = cells.len();
        proof {
            assert(okeys =~= rows@.map_values(|v: Vec<usize>| v@));
        }
        // mark the keys that some row still references
        let mut used: Vec<bool> = vec![false; n];
        let rn = rows.len();
        let mut r: usize = 0;
        while r < rn
            invariant
                rn == rows.len(),
                0 <= r <= rn,
                used@.len() == n,
                okeys == rows@.map_values(|v: Vec<usize>| v@),
                okeys.len() == rn,
                keys_wf(okeys, oncols, n as nat),
                forall|j: int| 0 <= j < n ==> (#[trigger] used@[j] ==> key_used(okeys, j as usize)),
                forall|r2: int, c2: int|
                    0 <= r2 < r && 0 <= c2 < okeys[r2].len() ==> used@[(#[trigger] okeys[r2][c2])
                        as int],
            decreases rn - r,
        {
            let cn = rows[r].len();
            proof {
                assert(okeys[r as int] == rows@[r as int]@);
            }
            let mut c: usize = 0;
            while c < cn
                invariant
                    rn == rows.len(),
                    0 <= r < rn,
                    cn == rows@[r as int]@.len(),
                    0 <= c <= cn,
                    used@.len() == n,
                    okeys == rows@.map_values(|v: Vec<usize>| v@),
                    okeys.len() == rn,
                    okeys[r as int] == rows@[r as int]@,
                    keys_wf(okeys, oncols, n as nat),
                    forall|j: int|
                        0 <= j < n ==> (#[trigger] used@[j] ==> key_used(okeys, j as usize)),
                    forall|r2: int, c2: int|
                        0 <= r2 < r && 0 <= c2 < okeys[r2].len() ==> used@[(#[trigger] okeys[r2][
                            c2]) as int],
                    forall|c2: int|
                        0 <= c2 < c ==> used@[(#[trigger] okeys[r as int][c2]) as int],
                decreases cn - c,
            {
                let k = rows[r][c];
                proof {
                    assert(okeys[r as int][c as int] == k);
                    assert(key_used(okeys, k));
                }
                used[k] = true;
                c += 1;
            }
            r += 1;
        }
        proof {
            assert forall|j: usize| j < n implies (used@[j as int] <==> key_used(okeys, j)) by {
                if key_used(okeys, j) {
                    let (r2, c2) = choose|r2: int, c2: int|
                        0 <= r2 < okeys.len() && 0 <= c2 < okeys[r2].len() && (#[trigger] okeys[r2][
                            c2]) == j;
                    assert(used@[okeys[r2][c2] as int]);
                }
            }
        }
        // build the renumbering table: each key's count of referenced keys
        // strictly below it
        let mut remap: Vec<usize> = Vec::new();
        let mut count: usize = 0;
        let mut k: usize = 0;
        while k < n
            invariant
                used@.len() == n,
                forall|j: usize| j < n ==> (used@[j as int] <==> key_used(okeys, j)),
                0 <= k <= n,
                remap@.len() == k,
                count as int == new_key(okeys, k as int),
                forall|j: int| 0 <= j < k ==> (#[trigger] remap@[j]) as int == new_key(okeys, j),
            decreases n - k,
        {
            remap.push(count);
            if used[k] {
                proof {
                    lemma_new_key_le(okeys, k as int);
                }
                count += 1;
            }
            k += 1;
        }
        // rebuild the store: reverse once, then take the surviving cells in
        // order
        let mut tmp: Vec<T> = Vec::new();
        let mut rest = cells;
        while rest.len() > 0
            invariant
                n == ostore.len(),
                rest@ == ostore.take(rest@.len() as int),
                tmp@.len() == n - rest@.len(),
                forall|i: int| 0 <= i < tmp@.len() ==> #[trigger] tmp@[i] == ostore[n - 1 - i],
            decreases rest.len(),
        {
            let ghost m = rest@.len() as int;
            match rest.pop() {
                Some(x) => {
                    proof {
                        assert(x == ostore.take(m)[m - 1]);
                        assert(rest@ =~= ostore.take(m - 1));
                    }
                    tmp.push(x);
                },
                None => {},
            }
        }
        let mut out: Vec<T> = Vec::new();
        let mut k2: usize = 0;
        while k2 < n
            invariant
                n == ostore.len(),
                used@.len() == n,
                forall|j: usize| j < n ==> (used@[j as int] <==> key_used(okeys, j)),
                0 <= k2 <= n,
                tmp@.len() == n - k2,
                forall|i: int| 0 <= i < tmp@.len() ==> #[trigger] tmp@[i] == ostore[n - 1 - i],
                out@ == compact_store(ostore, okeys, k2 as int),
            decreases n - k2,
        {
            match tmp.pop() {
                Some(x) => {
                    proof {
                        assert(x == ostore[k2 as int]);
                    }
                    if used[k2] {
                        out.push(x);
                    }
                    proof {
                        assert(out@ =~= compact_store(ostore, okeys, k2 + 1));
                    }
                },
                None => {},
            }
            k2 += 1;
        }
        // rewrite every row's keys through the renumbering
        let mut new_rows: Vec<Vec<usize>> = Vec::new();
        let mut r2: usize = 0;
        while r2 < rn
            invariant
                rn == rows.len(),
                okeys == rows@.map_values(|v: Vec<usize>| v@),
                okeys.len() == rn,
                keys_wf(okeys, oncols, n as nat),
                remap@.len() == n,
                forall|j: int| 0 <= j < n ==> (#[trigger] remap@[j]) as int == new_key(okeys, j),
                0 <= r2 <= rn,
                new_rows@.len() == r2,
                forall|i: int|
                    0 <= i < r2 ==> (#[trigger] new_rows@[i]@).len() == okeys[i].len(),
                forall|i: int, c: int|
                    0 <= i < r2 && 0 <= c < okeys[i].len() ==> (#[trigger] new_rows@[i]@[c]) as int
                        == new_key(okeys, okeys[i][c] as int),
            decreases rn - r2,
        {
            let cn = rows[r2].len();
            proof {
                assert(okeys[r2 as int] == rows@[r2 as int]@);
            }
            let mut nr: Vec<usize> = Vec::new();
            let mut c: usize = 0;
            while c < cn
                invariant
                    rn == rows.len(),
                    0 <= r2 < rn,
                    cn == rows@[r2 as int]@.len(),
                    okeys[r2 as int] == rows@[r2 as int]@,
                    keys_wf(okeys, oncols, n as nat),
                    okeys.len() == rn,
                    remap@.len() == n,
                    forall|j: int|
                        0 <= j < n ==> (#[trigger] remap@[j]) as int == new_key(okeys, j),
                    0 <= c <= cn,
                    nr@.len() == c,
                    forall|c2: int|
                        0 <= c2 < c ==> (#[trigger] nr@[c2]) as int == new_key(
                            okeys,
                            okeys[r2 as int][c2] as int,
                        ),
                decreases cn - c,
            {
                let k3 = rows[r2][c];
                nr.push(remap[k3]);
                c += 1;
            }
            new_rows.push(nr);
            r2 += 1;
        }
        let result = Table { cells: out, rows: new_rows, cols };
        proof {
            let rkeys = result.keys();
            assert(rkeys =~= new_rows@.map_values(|v: Vec<usize>| v@));
            assert(result.store() == compact_store(ostore, okeys, n as int));
            lemma_compact_len(ostore, okeys, n as int);
            // well-formedness and the grid being unchanged, key by key
            assert forall|i: int, c: int|
                0 <= i < rn && 0 <= c < okeys[i].len() implies {
                &&& (#[trigger] rkeys[i][c]) < result.store_len()
                &&& result.store()[rkeys[i][c] as int] == ostore[okeys[i][c] as int]
            } by {
                let kk = okeys[i][c];
                assert(key_used(okeys, kk));
                lemma_compact_index(ostore, okeys, kk as int, n as int);
            }
            assert(result.wf());
            assert(result.data() =~~= self.data());
            // every cell of the new store is still referenced
            assert forall|kk: usize| kk < result.store_len() implies key_used(rkeys, kk) by {
                lemma_new_key_surjective(okeys, n as int, kk as int);
                let k0 = choose|k0: int|
                    0 <= k0 < n && key_used(okeys, k0 as usize) && new_key(okeys, k0) == kk as int;
                let (ri, ci) = choose|ri: int, ci: int|
                    0 <= ri < okeys.len() && 0 <= ci < okeys[ri].len() && (#[trigger] okeys[ri][ci])
                        == k0 as usize;
                assert(rkeys[ri][ci] == kk);
            }
            // the new store holds at most one cell per row and column slot
            lemma_store_bound(okeys, oncols, n as int);
            // renumbering is injective on referenced keys, so distinct slots
            // stay distinct
            if self.distinct_keys() {
                assert forall|r1: int, c1: int, r2: int, c2: int|
                    0 <= r1 < rkeys.len() && 0 <= c1 < rkeys[r1].len() && 0 <= r2 < rkeys.len()
                        && 0 <= c2 < rkeys[r2].len() && (#[trigger] rkeys[r1][c1]) == (
                    #[trigger] rkeys[r2][c2]) implies r1 == r2 && c1 == c2 by {
                    let k1 = okeys[r1][c1];
                    let k2 = okeys[r2][c2];
                    assert(key_used(okeys, k1));
                    assert(key_used(okeys, k2));
                    if k1 < k2 {
                        lemma_compact_index(ostore, okeys, k1 as int, k2 as int);
                    } else if k2 < k1 {
                        lemma_compact_index(ostore, okeys, k2 as int, k1 as int);
                    }
                    assert(k1 == k2);
                }
            }
        }
        result
    }

    /// Run the reclamation check: consolidate when the store has outgrown
    /// five cells per row and column slot, and return the table untouched
    /// otherwise.
    fn maybe_consolidate(self) -> (t: Self)
        requires
            self.wf(),
        ensures
            t.wf(),
            t.names() == self.names(),
            t.data() == self.data(),
            t.nrows() == self.nrows(),
            t.ncols() == self.ncols(),
            t.store_len() as int <= 5 * t.nrows() * t.ncols(),
            self.store_len() as int <= 5 * self.nrows() * self.ncols() ==> t == self,
            self.store_len() as int > 5 * self.nrows() * self.ncols() ==> consolidation_of(
                t,
                self,
            ),
            self.distinct_keys() ==> t.distinct_keys(),
    {
        let sl = self.cells.len();
        let rn = self.rows.len();
        let cn = self.cols.len();
        let threshold_opt = match rn.checked_mul(cn) {
            Some(slots) => slots.checked_mul(5),
            None => None,
        };
        match threshold_opt {
            Some(threshold) => {
                if sl > threshold {
                    proof {
                        assert(sl as int > 5 * (self.nrows() as int) * (self.ncols() as int))
                            by (nonlinear_arith)
                            requires
                                sl > threshold,
                                threshold == 5 * ((self.nrows() as int) * (self.ncols() as int)),
                        ;
                    }
                    let t = self.consolidate();
                    proof {
                        assert(t.store_len() as int <= 5 * t.nrows() * t.ncols())
                            by (nonlinear_arith)
                            requires
                                t.store_len() <= t.nrows() * t.ncols(),
                        ;
                    }
                    t
                } else {
                    proof {
                        assert(sl as int <= 5 * (rn as int) * (cn as int)) by (nonlinear_arith)
                            requires
                                sl <= threshold,
                                threshold == 5 * ((rn as int) * (cn as int)),
                        ;
                    }
                    self
                }
            },
            None => {
                // the threshold exceeds what a store could ever hold
                proof {
                    assert(sl as int <= 5 * (rn as int) * (cn as int)) by (nonlinear_arith)
                        requires
                            sl <= usize::MAX,
                            (rn as int) * (cn as int) > usize::MAX || 5 * ((rn as int) * (
                            cn as int)) > usize::MAX,
                    ;
                }
                self
            },
        }
    }
}

} // verus!
