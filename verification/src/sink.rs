//! The output sink's report type.
//!
//! Accepted grids are handed line by line to an external writer that may
//! keep numbered storage chunks, each capped at a configured line count.
//! After each accepted line the writer reports whether it rolled over to
//! a new chunk; the engine's logic never consumes the report, it exists
//! for progress logging only.

use vstd::prelude::*;

verus! {

/// Whether writing one line made the sink roll over to a new storage
/// chunk, and if so, the new chunk's index.
pub enum RollOver {
    Rolled(usize),
    NoRollover,
}

} // verus!
