//! A self-describing binary container for columnar data.
//!
//! The container holds one schema (an ordered list of named, typed fields)
//! followed by zero or more batch frames, each carrying one column of values
//! per field, and ends with a footer marker. Writing and parsing are verified
//! to round-trip losslessly, and a truncated container is always rejected.

use vstd::prelude::*;

pub mod codec;
pub mod generate;
pub mod laws;
pub mod model;
pub mod reader;
pub mod writer;

verus! {

/// The logical type of a column's values.
#[derive(Clone, Copy, PartialEq, Eq, Structural, Debug)]
pub enum LogicalType {
    Int32,
    Utf8,
}

} // verus!
