//! A mutable, column-oriented table with an indirect cell-storage model.
//!
//! Cells live in a single flat backing store and are addressed through
//! per-row key vectors, so structural operations (filtering, reordering or
//! renaming columns) never copy cell payloads. Orphaned cells are reclaimed
//! lazily by a compaction pass once the store grows past a threshold.
//!
//! Every operation carries a contract that pins down the observable table —
//! its header and its grid of cell values — that it returns.

pub mod column;
pub mod csvio;
pub mod error;
pub mod laws;
pub mod model;
pub mod pretty;
pub mod row;
pub mod table;
