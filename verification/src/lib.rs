//! A verified parser and writer for the GFA sequence-graph text format.
//!
//! The format is line oriented: each tab-delimited line carries one record
//! (header, segment, link, containment or path), a fixed positional schema
//! followed by SAM-style typed optional fields.  The crate proves the core
//! design invariant of the format: encoding any constructible value and
//! decoding it back yields the same value, both for single optional fields
//! and for whole record lines.

pub mod bytes;
pub mod float_text;
pub mod numbers;
pub mod optfields;
pub mod gfa;
pub mod parser;
pub mod writer;
