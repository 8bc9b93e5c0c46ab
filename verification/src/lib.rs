//! Aggregation engine for `<key>;<value>` record streams.
//!
//! The engine consumes a byte buffer of newline-terminated records, each
//! holding a key and a fixed-point decimal value, and produces the summary
//! string `{k1=min/avg/max, k2=min/avg/max, ...}\n` with keys in ascending
//! byte order. The pipeline is: segment planner, per-segment workers folding
//! into private open-addressing tables, a merger, and a reporter.

use vstd::prelude::*;

pub mod agg;
pub mod engine;
pub mod fixed;
pub mod report;
pub mod scan;
pub mod table;

verus! {

/// A fatal condition that aborts a run.
#[derive(Debug, Clone, PartialEq, Eq)]
pub enum RunError {
    /// A record is missing its separator or terminator, or its value does
    /// not match a supported decimal shape. `offset` is the byte offset of
    /// the start of the offending record.
    MalformedRecord { offset: usize },
    /// More distinct keys were observed than the table capacity admits.
    /// Carries the offending key and the distinct-key count at that point.
    CapacityExceeded { key: Vec<u8>, distinct: usize },
    /// The byte source could not be read or mapped. Never produced by the
    /// engine itself; reserved for the callers that own the input source.
    IOFailure,
}

} // verus!
