//! Verified core of a directory reducer for comma-separated time-series
//! files: filenames are grouped by the part before the first `_`, each
//! group's files are merged by summing the numeric third field position by
//! position, and a lone file in a group is renamed to the canonical output
//! name.  I/O, threads and progress rendering live outside this crate's
//! verified boundary; every decision and transformation on plain values is
//! specified and proved here.

pub mod bytestr;
pub mod value;
pub mod rows;
pub mod grouping;
pub mod partition;
pub mod plan;
