//! Reading a table from delimited text and writing one back.
//!
//! The delimited-text convention itself — quoting, escaping, the record
//! terminator — is the csv crate's: its reader and writer are called
//! through trusted wrappers whose contracts name what they compute, and the
//! table is built from, or handed over as, plain decoded records by
//! verified code.
use crate::error::TableError;
use crate::table::Table;
use vstd::prelude::*;

verus! {

/// The delimited-text format marker.
pub struct CSV;

/// A grid of strings as a grid of character sequences.
pub open spec fn text_grid(data: Seq<Seq<String>>) -> Seq<Seq<Seq<char>>> {
    data.map_values(|row: Seq<String>| row.map_values(|s: String| s@))
}

/// What the csv crate's reader decodes the bytes to: a header and the rows
/// after it, or nothing when the bytes are not a well-formed table.
pub uninterp spec fn csv_decoding(bytes: Seq<u8>) -> Option<
    (Seq<Seq<char>>, Seq<Seq<Seq<char>>>),
>;

/// The bytes the csv crate's writer emits for a sequence of records.
pub uninterp spec fn csv_encoding(records: Seq<Seq<Seq<char>>>) -> Seq<u8>;

/// A csv writer over an in-memory buffer. Verus sees nothing inside: what
/// it has been handed is tracked by `csv_written`, and the wrappers below
/// say how each call changes that.
#[verifier::external_body]
pub struct CsvSink {
    inner: csv::Writer<Vec<u8>>,
}

/// The records a csv writer has been handed so far.
pub uninterp spec fn csv_written(w: CsvSink) -> Seq<Seq<Seq<char>>>;

/// No write on this writer has failed. A failed record leaves the csv
/// writer's field count and buffer dirty, so nothing is promised of a
/// writer past its first failure.
pub uninterp spec fn csv_sink_clean(w: CsvSink) -> bool;

/// Relies on csv::Reader: the first record is the header, the records after
/// it are the rows, and a reader left at its default (not flexible) reports
/// an error instead of a record whose length differs from the header's.
#[verifier::external_body]
fn csv_decode(bytes: &[u8]) -> (r: Result<(Vec<String>, Vec<Vec<String>>), String>)
    ensures
        match r {
            Ok(p) => {
                &&& csv_decoding(bytes@) matches Some(d)
                &&& p.0.deep_view() == d.0
                &&& p.1.deep_view() == d.1
                &&& forall|i: int| 0 <= i < p.1@.len() ==> (#[trigger] p.1@[i])@.len() == p.0@.len()
            },
            Err(_) => csv_decoding(bytes@) is None,
        },
{
    let mut rdr = csv::Reader::from_reader(bytes);
    let hdr: Vec<String> = match rdr.headers() {
        Ok(h) => h.iter().map(|s| s.to_string()).collect(),
        Err(e) => return Err(e.to_string()),
    };
    let mut rows: Vec<Vec<String>> = Vec::new();
    for rec in rdr.records() {
        match rec {
            Ok(x) => rows.push(x.iter().map(|s| s.to_string()).collect()),
            Err(e) => return Err(e.to_string()),
        }
    }
    Ok((hdr, rows))
}

/// Relies on csv::Writer::from_writer: a fresh writer has written nothing
/// and is clean.
#[verifier::external_body]
fn csv_writer_new() -> (w: CsvSink)
    ensures
        csv_written(w) == Seq::<Seq<Seq<char>>>::empty(),
        csv_sink_clean(w),
{
    CsvSink { inner: csv::Writer::from_writer(Vec::new()) }
}

/// Relies on csv::Writer::write_record: on success from a clean writer the
/// record is appended to what the writer was handed before, and the writer
/// stays clean. A writer left at its default (not flexible) refuses only a
/// record whose field count differs from the first record's; writing into
/// an in-memory buffer cannot fail otherwise, so on a clean writer the
/// first record, and any record as long as the first, succeed.
#[verifier::external_body]
fn csv_write_record(w: &mut CsvSink, rec: &Vec<String>) -> (r: Result<(), String>)
    ensures
        csv_sink_clean(*old(w)) && (r matches Ok(())) ==> {
            &&& csv_written(*final(w)) == csv_written(*old(w)).push(rec.deep_view())
            &&& csv_sink_clean(*final(w))
        },
        csv_sink_clean(*old(w)) && (csv_written(*old(w)).len() == 0 || rec@.len() == csv_written(
            *old(w),
        )[0].len()) ==> r is Ok,
{
    w.inner.write_record(rec.iter()).map_err(|e| e.to_string())
}

/// Relies on csv::Writer::into_inner: it can fail only when flushing the
/// buffered bytes fails, and a flush into an in-memory buffer cannot; for a
/// clean writer it hands back exactly the bytes written for the records.
#[verifier::external_body]
fn csv_writer_finish(w: CsvSink) -> (r: Result<Vec<u8>, String>)
    ensures
        r is Ok,
        r matches Ok(bytes) ==> (csv_sink_clean(w) ==> bytes@ == csv_encoding(csv_written(w))),
{
    w.inner.into_inner().map_err(|e| e.to_string())
}

impl Table<String> {
    /// Read a table from delimited-text bytes, each field becoming one cell,
    /// rows in source order.
    ///
    /// The first record is the header; every following record must have the
    /// same length, which the decoder enforces. Fails with `Csv` exactly
    /// when the bytes do not decode.
    pub fn from_csv(bytes: &[u8]) -> (res: Result<Table<String>, TableError>)
        ensures
            match res {
                Ok(t) => {
                    &&& csv_decoding(bytes@) matches Some(d)
                    &&& t.wf()
                    &&& t.distinct_keys()
                    &&& t.header() == d.0
                    &&& text_grid(t.data()) == d.1
                    &&& t.nrows() == d.1.len()
                    &&& t.ncols() == d.0.len()
                    &&& t.store_len() == t.nrows() * t.ncols()
                    &&& forall|i: int, j: int|
                        0 <= i < t.nrows() && 0 <= j < t.ncols() ==> (#[trigger] t.keys()[i][j])
                            as int == i * t.ncols() + j
                },
                Err(e) => csv_decoding(bytes@) is None && e matches TableError::Csv { .. },
            },
    {
        let (hdr, recs) = match csv_decode(bytes) {
            Ok(p) => p,
            Err(m) => {
                return Err(TableError::Csv { message: m });
            },
        };
        let ghost ghdr = hdr.deep_view();
        let ghost grecs = recs.deep_view();
        let ghost grecs_str = recs@.map_values(|v: Vec<String>| v@);
        let cn = hdr.len();
        let rn = recs.len();
        let mut cells: Vec<String> = Vec::new();
        let mut rows: Vec<Vec<usize>> = Vec::new();
        // take the decoded records in order: reverse once, then pop
        let mut tmp: Vec<Vec<String>> = Vec::new();
        let mut rest = recs;
        proof {
            assert forall|i: int| 0 <= i < rest@.len() implies (#[trigger] rest@[i])@
                == grecs_str[i] by {}
        }
        while rest.len() > 0
            invariant
                rn == grecs_str.len(),
                rest@.len() <= rn,
                forall|i: int| 0 <= i < rest@.len() ==> (#[trigger] rest@[i])@ == grecs_str[i],
                tmp@.len() == rn - rest@.len(),
                forall|i: int|
                    0 <= i < tmp@.len() ==> (#[trigger] tmp@[i])@ == grecs_str[rn - 1 - i],
            decreases rest.len(),
        {
            let ghost m = rest@.len() as int;
            let ghost orest = rest@;
            match rest.pop() {
                Some(x) => {
                    proof {
                        assert(x == orest[m - 1]);
                        assert(x@ == grecs_str[m - 1]);
                    }
                    tmp.push(x);
                },
                None => {},
            }
        }
        let mut r: usize = 0;
        while r < rn
            invariant
                rn == grecs_str.len(),
                forall|i: int| 0 <= i < grecs_str.len() ==> (#[trigger] grecs_str[i]).len() == cn,
                0 <= r <= rn,
                tmp@.len() == rn - r,
                forall|i: int|
                    0 <= i < tmp@.len() ==> (#[trigger] tmp@[i])@ == grecs_str[rn - 1 - i],
                rows@.len() == r,
                cells@.len() == r * cn,
                forall|i: int| 0 <= i < r ==> (#[trigger] rows@[i]@).len() == cn,
                forall|i: int, c: int|
                    0 <= i < r && 0 <= c < cn ==> (#[trigger] rows@[i]@[c]) as int == i * cn + c,
                forall|i: int, c: int|
                    0 <= i < r && 0 <= c < cn ==> (#[trigger] rows@[i]@[c]) < cells@.len(),
                forall|i1: int, c1: int, i2: int, c2: int|
                    0 <= i1 < r && 0 <= c1 < cn && 0 <= i2 < r && 0 <= c2 < cn && (#[trigger] rows@[
                    i1]@[c1]) == (#[trigger] rows@[i2]@[c2]) ==> i1 == i2 && c1 == c2,
                forall|i: int, c: int|
                    0 <= i < r && 0 <= c < cn ==> (#[trigger] cells@[rows@[i]@[c] as int])
                        == grecs_str[i][c],
            decreases rn - r,
        {
            let mut rec = match tmp.pop() {
                Some(x) => x,
                None => Vec::new(),
            };
            let ghost grec = rec@;
            proof {
                assert(grec == grecs_str[r as int]);
                assert(grec.len() == cn);
            }
            // take the record's fields in order: reverse once, then pop
            let mut ftmp: Vec<String> = Vec::new();
            while rec.len() > 0
                invariant
                    rec@ == grec.take(rec@.len() as int),
                    ftmp@.len() == grec.len() - rec@.len(),
                    forall|i: int|
                        0 <= i < ftmp@.len() ==> (#[trigger] ftmp@[i]) == grec[grec.len() - 1 - i],
                decreases rec.len(),
            {
                let ghost m = rec@.len() as int;
                match rec.pop() {
                    Some(x) => {
                        proof {
                            assert(rec@ =~= grec.take(m - 1));
                            assert(x == grec[m - 1]);
                        }
                        ftmp.push(x);
                    },
                    None => {},
                }
            }
            let ghost base = cells@.len() as int;
            let mut keys: Vec<usize> = Vec::new();
            let mut c: usize = 0;
            while c < cn
                invariant
                    grec.len() == cn,
                    0 <= c <= cn,
                    ftmp@.len() == cn - c,
                    forall|i: int|
                        0 <= i < ftmp@.len() ==> (#[trigger] ftmp@[i]) == grec[grec.len() - 1 - i],
                    0 <= base,
                    base == r * cn,
                    cells@.len() == base + c,
                    rows@.len() == r,
                    forall|i: int| 0 <= i < r ==> (#[trigger] rows@[i]@).len() == cn,
                    forall|i: int, c2: int|
                        0 <= i < r && 0 <= c2 < cn ==> (#[trigger] rows@[i]@[c2]) as int == i * cn
                            + c2,
                    forall|i: int, c2: int|
                        0 <= i < r && 0 <= c2 < cn ==> (#[trigger] rows@[i]@[c2]) < base,
                    forall|i1: int, c1: int, i2: int, c2: int|
                        0 <= i1 < r && 0 <= c1 < cn && 0 <= i2 < r && 0 <= c2 < cn && (
                        #[trigger] rows@[i1]@[c1]) == (#[trigger] rows@[i2]@[c2]) ==> i1 == i2
                            && c1 == c2,
                    forall|i: int, c2: int|
                        0 <= i < r && 0 <= c2 < cn ==> (#[trigger] cells@[rows@[i]@[c2] as int])
                            == grecs_str[i][c2],
                    keys@.len() == c,
                    forall|i: int| 0 <= i < c ==> (#[trigger] keys@[i]) == base + i,
                    forall|i: int|
                        0 <= i < c ==> (#[trigger] cells@[base + i]) == grec[i],
                decreases cn - c,
            {
                let ghost ocells = cells@;
                match ftmp.pop() {
                    Some(x) => {
                        proof {
                            assert(x == grec[c as int]);
                        }
                        let key = cells.len();
                        keys.push(key);
                        cells.push(x);
                        proof {
                            assert(ocells.len() == base + c);
                            assert(cells@ == ocells.push(x));
                            assert forall|i: int| 0 <= i < c + 1 implies (#[trigger] cells@[base
                                + i]) == grec[i] by {
                                if i < c {
                                    assert(base + i < ocells.len());
                                    assert(cells@[base + i] == ocells[base + i]);
                                }
                            }
                        }
                    },
                    None => {},
                }
                c += 1;
            }
            proof {
                assert(cells@.len() == r * cn + cn);
                assert((r + 1) * cn == r * cn + cn) by (nonlinear_arith);
                assert forall|c2: int| 0 <= c2 < cn implies (#[trigger] keys@[c2]) as int == r * cn
                    + c2 by {
                    assert(keys@[c2] == base + c2);
                }
            }
            rows.push(keys);
            r += 1;
        }
        let t = Table::from_parts(cells, rows, hdr);
        proof {
            assert(t.wf());
            assert(t.header() =~= ghdr);
            assert(text_grid(t.data()) =~~= grecs);
            assert(t.store_len() == t.nrows() * t.ncols());
            assert forall|i: int, j: int|
                0 <= i < t.nrows() && 0 <= j < t.ncols() implies (#[trigger] t.keys()[i][j]) as int
                == i * t.ncols() + j by {
                assert(t.keys()[i][j] == rows@[i]@[j]);
            }
        }
        Ok(t)
    }

    /// Serialize the table as delimited-text bytes: the header record first,
    /// then one record per row in current row order, cells in current column
    /// order.
    ///
    /// The quoting and escaping of fields is the csv writer's. A well-formed
    /// table always serializes: every record handed to the writer has the
    /// header's length, the one condition its in-memory writer can refuse.
    pub fn write_as(&self, _format: CSV) -> (res: Result<Vec<u8>, TableError>)
        requires
            self.wf(),
        ensures
            res matches Ok(bytes) && bytes@ == csv_encoding(
                Seq::<Seq<Seq<char>>>::empty().push(self.header()) + text_grid(self.data()),
            ),
    {
        let ghost target = Seq::<Seq<Seq<char>>>::empty().push(self.header()) + text_grid(
            self.data(),
        );
        let mut w = csv_writer_new();
        let names = self.names_vec();
        match csv_write_record(&mut w, names) {
            Ok(()) => {},
            Err(m) => {
                return Err(TableError::Csv { message: m });
            },
        }
        proof {
            assert(names.deep_view() =~= self.header());
            assert(csv_written(w) =~= target.take(1));
        }
        let rn = self.num_rows();
        let cn = self.num_cols();
        let mut r: usize = 0;
        while r < rn
            invariant
                self.wf(),
                rn == self.nrows(),
                cn == self.ncols(),
                target == Seq::<Seq<Seq<char>>>::empty().push(self.header()) + text_grid(
                    self.data(),
                ),
                0 <= r <= rn,
                csv_sink_clean(w),
                csv_written(w) == target.take(r as int + 1),
            decreases rn - r,
        {
            let row = match self.try_get_row(r) {
                Some(row) => row,
                None => {
                    return Err(TableError::Csv { message: String::new() });
                },
            };
            let mut rv: Vec<String> = Vec::new();
            let mut c: usize = 0;
            while c < cn
                invariant
                    self.wf(),
                    rn == self.nrows(),
                    cn == self.ncols(),
                    0 <= r < rn,
                    0 <= c <= cn,
                    row.wf(),
                    row.header() == self.header(),
                    row.values() == self.data()[r as int],
                    rv@.len() == c,
                    forall|i: int|
                        0 <= i < c ==> (#[trigger] rv@[i]) == self.data()[r as int][i],
                decreases cn - c,
            {
                match row.try_get(&c) {
                    Some(v) => {
                        rv.push(v.clone());
                    },
                    None => {
                        return Err(TableError::Csv { message: String::new() });
                    },
                }
                c += 1;
            }
            proof {
                assert(csv_written(w)[0] == self.header());
                assert(self.header().len() == cn);
                assert(rv@.len() == csv_written(w)[0].len());
            }
            match csv_write_record(&mut w, &rv) {
                Ok(()) => {},
                Err(m) => {
                    return Err(TableError::Csv { message: m });
                },
            }
            proof {
                assert(rv.deep_view() =~= text_grid(self.data())[r as int]);
                assert(target[r as int + 1] == text_grid(self.data())[r as int]);
                assert(csv_written(w) =~= target.take(r as int + 2));
            }
            r += 1;
        }
        proof {
            assert(target.take(rn as int + 1) =~= target);
        }
        match csv_writer_finish(w) {
            Ok(bytes) => Ok(bytes),
            Err(m) => Err(TableError::Csv { message: m }),
        }
    }
}

} // verus!
