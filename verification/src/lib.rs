//! An append-only store of time-series sensor measurements, read back from a
//! comma-delimited, header-led text encoding.
//!
//! The record model and the reader capability live in [`reader`]; the
//! structured-text backend, which parses the encoding and tolerates malformed
//! rows, lives in [`csv_reader`]; the byte-level text machinery both rest on
//! lives in [`text`].

pub mod csv_reader;
pub mod reader;
pub mod text;
