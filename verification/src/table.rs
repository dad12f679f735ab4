//! The neighbor-constraint lookup table.
//!
//! A cell about to be assigned gets a fingerprint: a 4-digit base-3 number
//! built from the states of its four neighbors.  Each digit is 0 ("the
//! neighbor forbids a connection toward this cell"), 1 ("the neighbor
//! requires one"), or 2 ("the neighbor is free/undecided").  The digits are
//! weighted right 1, up 3, left 9, down 27, so a fingerprint lies in 0..=80.
//!
//! The table maps each fingerprint to its candidate set: the ordered,
//! deduplicated list of tile identifiers compatible with it.  A tile `t`
//! belongs to the set for fingerprint `f` if and only if, for each direction
//! whose digit is 0, `t` has no connection in that direction, and for each
//! direction whose digit is 1, `t` has one; digit 2 leaves the direction
//! unconstrained.  The table is built once and read-only afterwards.

use vstd::prelude::*;
use crate::tiles::{
    connects_down, connects_left, connects_right, connects_up, tile_connects_down,
    tile_connects_left, tile_connects_right, tile_connects_up,
};

verus! {

/// Whether a single constraint digit admits a side that has (`c == true`)
/// or lacks (`c == false`) a connection.
pub open spec fn digit_ok(d: int, c: bool) -> bool {
    d == 2 || ((d == 1) <==> c)
}

/// Whether tile `t` satisfies every per-direction constraint of
/// fingerprint `f`.
pub open spec fn tile_fits(f: int, t: int) -> bool {
    &&& digit_ok(f % 3, connects_right(t))
    &&& digit_ok((f / 3) % 3, connects_up(t))
    &&& digit_ok((f / 9) % 3, connects_left(t))
    &&& digit_ok((f / 27) % 3, connects_down(t))
}

/// The tiles below `n` that satisfy fingerprint `f`, in ascending order.
pub open spec fn candidates_upto(f: int, n: int) -> Seq<u8>
    decreases n,
{
    if n <= 0 {
        Seq::empty()
    } else if tile_fits(f, n - 1) {
        candidates_upto(f, n - 1).push((n - 1) as u8)
    } else {
        candidates_upto(f, n - 1)
    }
}

/// The candidate set of fingerprint `f`: all tiles 0..=10 that satisfy it,
/// in ascending order.
pub open spec fn candidates(f: int) -> Seq<u8> {
    candidates_upto(f, 11)
}

proof fn lemma_candidates_upto_sound(f: int, n: int)
    requires
        0 <= n <= 11,
    ensures
        candidates_upto(f, n).len() <= n,
        forall|i: int|
            0 <= i < candidates_upto(f, n).len() ==> {
                &&& 0 <= #[trigger] candidates_upto(f, n)[i] < n
                &&& tile_fits(f, candidates_upto(f, n)[i] as int)
            },
    decreases n,
{
    if n > 0 {
        lemma_candidates_upto_sound(f, n - 1);
        assert forall|i: int| 0 <= i < candidates_upto(f, n).len() implies {
            &&& 0 <= #[trigger] candidates_upto(f, n)[i] < n
            &&& tile_fits(f, candidates_upto(f, n)[i] as int)
        } by {
            if tile_fits(f, n - 1) {
                assert(candidates_upto(f, n) == candidates_upto(f, n - 1).push((n - 1) as u8));
                if i < candidates_upto(f, n - 1).len() {
                    assert(candidates_upto(f, n)[i] == candidates_upto(f, n - 1)[i]);
                } else {
                    assert(candidates_upto(f, n)[i] == (n - 1) as u8);
                }
            } else {
                assert(candidates_upto(f, n) == candidates_upto(f, n - 1));
            }
        }
    }
}

proof fn lemma_candidates_upto_complete(f: int, n: int, t: int)
    requires
        0 <= t < n,
        tile_fits(f, t),
    ensures
        candidates_upto(f, n).contains(t as u8),
    decreases n,
{
    if t == n - 1 {
        assert(candidates_upto(f, n)[candidates_upto(f, n).len() - 1] == (t as u8));
    } else {
        lemma_candidates_upto_complete(f, n - 1, t);
        let i = choose|i: int|
            0 <= i < candidates_upto(f, n - 1).len() && #[trigger] candidates_upto(f, n - 1)[i]
                == (t as u8);
        assert(candidates_upto(f, n)[i] == (t as u8));
    }
}

/// Table totality (round-trip consistency): every tile identifier stored in
/// the candidate set of any fingerprint independently satisfies that
/// fingerprint's per-direction 0/1/2 constraints when its direction
/// classification is reapplied, and is a committed tile (0..=10).
pub proof fn lemma_table_total(f: int, i: int)
    requires
        0 <= i < candidates(f).len(),
    ensures
        tile_fits(f, candidates(f)[i] as int),
        0 <= candidates(f)[i] <= 10,
{
    lemma_candidates_upto_sound(f, 11);
}

/// The converse of totality: no compatible tile is missing from the table.
pub proof fn lemma_table_complete(f: int, t: int)
    requires
        0 <= t <= 10,
        tile_fits(f, t),
    ensures
        candidates(f).contains(t as u8),
{
    lemma_candidates_upto_complete(f, 11, t);
}

/// A candidate set holds at most the eleven committed tiles.
pub proof fn lemma_candidates_len(f: int)
    ensures
        candidates(f).len() <= 11,
{
    lemma_candidates_upto_sound(f, 11);
}

proof fn lemma_candidates_upto_sorted(f: int, n: int)
    requires
        0 <= n <= 11,
    ensures
        forall|i: int, j: int|
            0 <= i < j < candidates_upto(f, n).len() ==> #[trigger] candidates_upto(f, n)[i]
                < #[trigger] candidates_upto(f, n)[j],
    decreases n,
{
    if n > 0 {
        lemma_candidates_upto_sorted(f, n - 1);
        lemma_candidates_upto_sound(f, (n - 1) as int);
        assert forall|i: int, j: int|
            0 <= i < j < candidates_upto(f, n).len() implies #[trigger] candidates_upto(f, n)[i]
            < #[trigger] candidates_upto(f, n)[j] by {
            if j < candidates_upto(f, n - 1).len() {
                assert(candidates_upto(f, n)[i] == candidates_upto(f, n - 1)[i]);
                assert(candidates_upto(f, n)[j] == candidates_upto(f, n - 1)[j]);
            } else {
                assert(candidates_upto(f, n)[i] == candidates_upto(f, n - 1)[i]);
                assert(candidates_upto(f, n)[j] == (n - 1) as u8);
                assert(candidates_upto(f, n - 1)[i] < n - 1);
            }
        }
    }
}

/// Each candidate set is strictly ascending: its tiles are distinct and
/// tried in increasing identifier order.
pub proof fn lemma_candidates_sorted(f: int)
    ensures
        forall|i: int, j: int|
            0 <= i < j < candidates(f).len() ==> #[trigger] candidates(f)[i]
                < #[trigger] candidates(f)[j],
{
    lemma_candidates_upto_sorted(f, 11);
}

fn digit_ok_exec(d: usize, c: bool) -> (r: bool)
    ensures
        r == digit_ok(d as int, c),
{
    d == 2 || ((d == 1) == c)
}

fn tile_fits_exec(f: usize, t: u8) -> (r: bool)
    requires
        f < 81,
    ensures
        r == tile_fits(f as int, t as int),
{
    let dr: usize = f % 3;
    let du: usize = (f / 3) % 3;
    let dl: usize = (f / 9) % 3;
    let dd: usize = (f / 27) % 3;
    let fits_r = digit_ok_exec(dr, tile_connects_right(t));
    let fits_u = digit_ok_exec(du, tile_connects_up(t));
    let fits_l = digit_ok_exec(dl, tile_connects_left(t));
    let fits_d = digit_ok_exec(dd, tile_connects_down(t));
    fits_r && fits_u && fits_l && fits_d
}

/// The transition table: one candidate set per fingerprint 0..=80,
/// derived once from the per-direction constraint rule and immutable
/// afterwards.
pub struct ConnTable {
    entries: Vec<Vec<u8>>,
}

impl ConnTable {
    /// The table holds exactly the candidate set of every fingerprint.
    pub closed spec fn wf(&self) -> bool {
        &&& self.entries@.len() == 81
        &&& forall|f: int| 0 <= f < 81 ==> #[trigger] self.entries@[f]@ == candidates(f)
    }

    /// Build the table by classifying each of the eleven tiles against
    /// each of the 81 fingerprints.
    pub fn new() -> (table: ConnTable)
        ensures
            table.wf(),
    {
        let mut entries: Vec<Vec<u8>> = Vec::new();
        let mut f: usize = 0;
        while f < 81
            invariant
                f <= 81,
                entries@.len() == f,
                forall|g: int| 0 <= g < f ==> #[trigger] entries@[g]@ == candidates(g),
            decreases 81 - f,
        {
            let mut cs: Vec<u8> = Vec::new();
            let mut t: u8 = 0;
            while t < 11
                invariant
                    t <= 11,
                    f < 81,
                    cs@ == candidates_upto(f as int, t as int),
                decreases 11 - t,
            {
                if tile_fits_exec(f, t) {
                    cs.push(t);
                }
                t = t + 1;
            }
            entries.push(cs);
            f = f + 1;
        }
        ConnTable { entries }
    }

    /// Look up the candidate set of fingerprint `f`.
    pub fn lookup(&self, f: usize) -> (r: &Vec<u8>)
        requires
            self.wf(),
            f < 81,
        ensures
            r@ == candidates(f as int),
    {
        &self.entries[f]
    }
}

} // verus!
