//! Converting a table into a pretty-printed display grid.
//!
//! The rendering — column widths, borders, presets — belongs to the
//! comfy_table crate; this module hands it the header row and the data rows
//! in order, through trusted wrappers whose contracts say which rows the
//! grid was given and that the rendered text is a function of those rows.
use crate::csvio::text_grid;
use crate::table::Table;
use vstd::prelude::*;

verus! {

/// A pretty-printable display grid. Verus sees nothing inside: which rows
/// it was given is tracked by `grid_rows`, and `render` turns them into
/// their bordered text form.
#[verifier::external_body]
pub struct TableGrid {
    inner: comfy_table::Table,
}

/// The rows a display grid has been given so far, top to bottom, each cell
/// as its text.
pub uninterp spec fn grid_rows(t: TableGrid) -> Seq<Seq<Seq<char>>>;

/// The text the display crate renders for a sequence of rows, under its
/// default style.
pub uninterp spec fn rendering(rows: Seq<Seq<Seq<char>>>) -> Seq<char>;

/// Relies on comfy_table::Table::new: a fresh grid holds no rows.
#[verifier::external_body]
fn comfy_new() -> (t: TableGrid)
    ensures
        grid_rows(t) == Seq::<Seq<Seq<char>>>::empty(),
{
    TableGrid { inner: comfy_table::Table::new() }
}

/// Relies on comfy_table::Table::add_row: the cells are appended as one row
/// below the rows already given.
#[verifier::external_body]
fn comfy_add_row(t: &mut TableGrid, cells: &Vec<String>)
    ensures
        grid_rows(*final(t)) == grid_rows(*old(t)).push(cells.deep_view()),
{
    t.inner.add_row(cells.iter());
}

impl TableGrid {
    /// Relies on the Display impl of comfy_table::Table: under the default
    /// style the text depends on the rows alone.
    #[verifier::external_body]
    pub fn render(&self) -> (r: String)
        ensures
            r@ == rendering(grid_rows(*self)),
    {
        self.inner.to_string()
    }
}

impl Table<String> {
    /// Convert this table into a display grid: the header row first, then
    /// the data rows in current order, cells in current column order.
    ///
    /// The grid's rendering is its own crate's business; which rows it
    /// holds is pinned here.
    pub fn display(self) -> (r: TableGrid)
        requires
            self.wf(),
        ensures
            grid_rows(r) == Seq::<Seq<Seq<char>>>::empty().push(self.header()) + text_grid(
                self.data(),
            ),
    {
        let ghost target = Seq::<Seq<Seq<char>>>::empty().push(self.header()) + text_grid(
            self.data(),
        );
        let mut grid = comfy_new();
        let names = self.names_vec();
        comfy_add_row(&mut grid, names);
        proof {
            assert(names.deep_view() =~= self.header());
            assert(grid_rows(grid) =~= target.take(1));
        }
        let rn = self.num_rows();
        let cn = self.num_cols();
        let mut r: usize = 0;
        while r < rn
            invariant
                self.wf(),
                rn == self.nrows(),
                cn == self.ncols(),
                target == Seq::<Seq<Seq<char>>>::empty().push(self.header()) + text_grid(
                    self.data(),
                ),
                0 <= r <= rn,
                grid_rows(grid) == target.take(r as int + 1),
            decreases rn - r,
        {
            let row = match self.try_get_row(r) {
                Some(row) => row,
                None => {
                    return grid;
                },
            };
            let mut rv: Vec<String> = Vec::new();
            let mut c: usize = 0;
            while c < cn
                invariant
                    self.wf(),
                    rn == self.nrows(),
                    cn == self.ncols(),
                    0 <= r < rn,
                    0 <= c <= cn,
                    row.wf(),
                    row.header() == self.header(),
                    row.values() == self.data()[r as int],
                    rv@.len() == c,
                    forall|i: int| 0 <= i < c ==> (#[trigger] rv@[i]) == self.data()[r as int][i],
                decreases cn - c,
            {
                match row.try_get(&c) {
                    Some(v) => {
                        rv.push(v.clone());
                    },
                    None => {
                        return grid;
                    },
                }
                c += 1;
            }
            comfy_add_row(&mut grid, &rv);
            proof {
                assert(rv.deep_view() =~= text_grid(self.data())[r as int]);
                assert(target[r as int + 1] == text_grid(self.data())[r as int]);
                assert(grid_rows(grid) =~= target.take(r as int + 2));
            }
            r += 1;
        }
        proof {
            assert(target.take(rn as int + 1) =~= target);
        }
        grid
    }
}

} // verus!
