//! Tile identifiers and their per-direction connection classification.
//!
//! A tile is one of eleven local connection patterns on a square cell:
//! identifiers 0 through 6 are the seven non-crossing arc patterns, and
//! 7 through 10 are the four variants of a crossing (two strands passing
//! over/under each other).  The identifier 11 is a sentinel meaning
//! "unassigned".  Every tile has a fixed classification saying, for each
//! of the four directions, whether it carries a connection on that side.

use vstd::prelude::*;

verus! {

/// The sentinel identifier for an unassigned cell.
pub open spec fn sentinel() -> int {
    11
}

/// Tiles that carry a connection on their right side.
pub open spec fn connects_right(t: int) -> bool {
    t == 2 || t == 3 || t == 5 || t == 7 || t == 8 || t == 9 || t == 10
}

/// Tiles that carry a connection on their upper side.
pub open spec fn connects_up(t: int) -> bool {
    t == 3 || t == 4 || t == 6 || t == 7 || t == 8 || t == 9 || t == 10
}

/// Tiles that carry a connection on their left side.
pub open spec fn connects_left(t: int) -> bool {
    t == 1 || t == 4 || t == 5 || t == 7 || t == 8 || t == 9 || t == 10
}

/// Tiles that carry a connection on their lower side.
pub open spec fn connects_down(t: int) -> bool {
    t == 1 || t == 2 || t == 6 || t == 7 || t == 8 || t == 9 || t == 10
}

/// Executable mirror of `connects_right`.
pub fn tile_connects_right(t: u8) -> (r: bool)
    ensures
        r == connects_right(t as int),
{
    t == 2 || t == 3 || t == 5 || (7 <= t && t <= 10)
}

/// Executable mirror of `connects_up`.
pub fn tile_connects_up(t: u8) -> (r: bool)
    ensures
        r == connects_up(t as int),
{
    t == 3 || t == 4 || t == 6 || (7 <= t && t <= 10)
}

/// Executable mirror of `connects_left`.
pub fn tile_connects_left(t: u8) -> (r: bool)
    ensures
        r == connects_left(t as int),
{
    t == 1 || t == 4 || t == 5 || (7 <= t && t <= 10)
}

/// Executable mirror of `connects_down`.
pub fn tile_connects_down(t: u8) -> (r: bool)
    ensures
        r == connects_down(t as int),
{
    t == 1 || t == 2 || t == 6 || (7 <= t && t <= 10)
}

} // verus!
