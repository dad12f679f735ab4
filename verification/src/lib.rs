//! Exhaustive enumeration of square-grid tile mosaics under local
//! edge-adjacency constraints, with a precomputed neighbor-constraint
//! lookup table, an iterative backtracking search engine, and
//! completion-time filters (crossing-count threshold, row-loop rejection).

pub mod engine;
pub mod mosaic;
pub mod sink;
pub mod table;
pub mod tiles;
