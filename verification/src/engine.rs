//! The iterative backtracking search engine and its completion-time
//! filters.
//!
//! The engine visits cells in row-major order.  At each cell it derives a
//! fingerprint from the four neighbor states, looks the candidate set up
//! in the transition table, and drives a forward/backward traversal over
//! an explicit per-cell frame array (fingerprint and try-cursor) instead
//! of recursive calls.  A fully assigned grid is evaluated by the filters
//! and, if accepted, serialized as one line of hexadecimal digits.
//!
//! The whole traversal is mirrored by a specification-level state machine
//! (`SearchState`, `step`, `run`); the executable engine is proved to
//! return exactly the line sequence of that machine, which pins the
//! emitted output down to a mathematical function of the configuration.

use vstd::prelude::*;
use crate::mosaic::{
    cell_index, crossing_count, down_neighbor, left_neighbor, lemma_cell_index_in_range,
    right_neighbor, up_neighbor, Mosaic,
};
use crate::table::{
    candidates, digit_ok, lemma_candidates_len, lemma_candidates_sorted, lemma_table_complete,
    lemma_table_total,
    tile_fits, ConnTable,
};
use crate::tiles::{connects_down, connects_left, connects_right, connects_up};
use crate::tiles::{
    tile_connects_down, tile_connects_left, tile_connects_right, tile_connects_up,
};

verus! {

// --- Fingerprint -------------------------------------------------------

/// The constraint digit a right neighbor of tile `t` contributes: it faces
/// the current cell with its left side.
pub open spec fn digit_from_right(t: int) -> int {
    if t == 11 {
        2
    } else if connects_left(t) {
        1
    } else {
        0
    }
}

/// The constraint digit an upper neighbor contributes: it faces the
/// current cell with its lower side.
pub open spec fn digit_from_up(t: int) -> int {
    if t == 11 {
        2
    } else if connects_down(t) {
        1
    } else {
        0
    }
}

/// The constraint digit a left neighbor contributes: it faces the current
/// cell with its right side.
pub open spec fn digit_from_left(t: int) -> int {
    if t == 11 {
        2
    } else if connects_right(t) {
        1
    } else {
        0
    }
}

/// The constraint digit a lower neighbor contributes: it faces the current
/// cell with its upper side.
pub open spec fn digit_from_down(t: int) -> int {
    if t == 11 {
        2
    } else if connects_up(t) {
        1
    } else {
        0
    }
}

/// The neighbor fingerprint of the cell with linear index `idx`: the four
/// neighbor digits weighted right 1, up 3, left 9, down 27.
pub open spec fn fingerprint(g: Seq<u8>, s: int, idx: int) -> int {
    let x = idx % s;
    let y = idx / s;
    digit_from_right(right_neighbor(g, s, x, y)) + 3 * digit_from_up(up_neighbor(g, s, x, y))
        + 9 * digit_from_left(left_neighbor(g, s, x, y)) + 27 * digit_from_down(
        down_neighbor(g, s, x, y),
    )
}

/// A fingerprint always lies in 0..=80.
pub proof fn lemma_fingerprint_range(g: Seq<u8>, s: int, idx: int)
    ensures
        0 <= fingerprint(g, s, idx) < 81,
{
}

/// The fingerprint of the cell `curr_tile` is about to be assigned,
/// computed from its four neighbor states.
pub fn calc_fingerprint(mosaic: &Mosaic, curr_tile: usize, size: usize) -> (f: usize)
    requires
        mosaic.wf(),
        mosaic.side() == size,
        1 <= size,
        curr_tile < mosaic.grid().len(),
    ensures
        f as int == fingerprint(mosaic.grid(), size as int, curr_tile as int),
        f < 81,
{
    let curr_x = curr_tile % size;
    let curr_y = curr_tile / size;
    proof {
        assert((curr_tile as int) / (size as int) < size as int) by (nonlinear_arith)
            requires
                1 <= size,
                curr_tile < size * size,
        ;
    }
    let right_tile = mosaic.right_tile(curr_x, curr_y);
    let up_tile = mosaic.up_tile(curr_x, curr_y);
    let left_tile = mosaic.left_tile(curr_x, curr_y);
    let down_tile = mosaic.down_tile(curr_x, curr_y);
    let dr: usize = if right_tile == 11 {
        2
    } else if tile_connects_left(right_tile) {
        1
    } else {
        0
    };
    let du: usize = if up_tile == 11 {
        2
    } else if tile_connects_down(up_tile) {
        1
    } else {
        0
    };
    let dl: usize = if left_tile == 11 {
        2
    } else if tile_connects_right(left_tile) {
        1
    } else {
        0
    };
    let dd: usize = if down_tile == 11 {
        2
    } else if tile_connects_up(down_tile) {
        1
    } else {
        0
    };
    dr + 3 * du + 9 * dl + 27 * dd
}

/// The candidate set for the cell `curr_tile` is about to be assigned:
/// the transition table's entry for that cell's neighbor fingerprint.
pub fn calc_valid_tiles<'a>(
    table: &'a ConnTable,
    mosaic: &Mosaic,
    curr_tile: usize,
    size: usize,
) -> (r: &'a Vec<u8>)
    requires
        table.wf(),
        mosaic.wf(),
        mosaic.side() == size,
        1 <= size,
        curr_tile < mosaic.grid().len(),
    ensures
        r@ == candidates(fingerprint(mosaic.grid(), size as int, curr_tile as int)),
{
    let f = calc_fingerprint(mosaic, curr_tile, size);
    table.lookup(f)
}

// --- Completion filters ------------------------------------------------

/// Tiles carrying a horizontal through-connection on both sides: a row
/// made only of these forms a degenerate row loop.
pub open spec fn loop_tile(t: int) -> bool {
    t == 5 || t == 9 || t == 10
}

/// The tile at grid coordinates `(x, y)`.
pub open spec fn tile_at(g: Seq<u8>, s: int, x: int, y: int) -> int {
    g[cell_index(s, x, y)] as int
}

/// Whether row `y` consists entirely of loop tiles.
pub open spec fn row_is_loop(g: Seq<u8>, s: int, y: int) -> bool {
    forall|x: int| 0 <= x < s ==> loop_tile(#[trigger] tile_at(g, s, x, y))
}

/// Whether some full row of the grid consists entirely of loop tiles.
pub open spec fn row_loop_exists(g: Seq<u8>, s: int) -> bool {
    exists|y: int| 0 <= y < s && #[trigger] row_is_loop(g, s, y)
}

/// Whether `t` is a loop tile.
pub fn is_loop_tile(t: u8) -> (r: bool)
    ensures
        r == loop_tile(t as int),
{
    t == 5 || t == 9 || t == 10
}

/// The row-loop detector: scan for a full row of loop tiles, stopping at
/// the first one found.
pub fn has_row_loop(mosaic: &Mosaic) -> (r: bool)
    requires
        mosaic.wf(),
        1 <= mosaic.side(),
    ensures
        r == row_loop_exists(mosaic.grid(), mosaic.side() as int),
{
    let ghost g = mosaic.grid();
    let ghost s = mosaic.side() as int;
    let size = mosaic.side_len();
    let mut y: usize = 0;
    while y < size
        invariant
            mosaic.wf(),
            mosaic.side() == size,
            g == mosaic.grid(),
            s == size as int,
            y <= size,
            forall|ry: int| 0 <= ry < y ==> !#[trigger] row_is_loop(g, s, ry),
        decreases size - y,
    {
        let mut x: usize = 0;
        let mut all_loop = true;
        while x < size && all_loop
            invariant
                mosaic.wf(),
                mosaic.side() == size,
                g == mosaic.grid(),
                s == size as int,
                x <= size,
                y < size,
                all_loop ==> forall|rx: int|
                    0 <= rx < x ==> loop_tile(#[trigger] tile_at(g, s, rx, y as int)),
                !all_loop ==> !row_is_loop(g, s, y as int),
            decreases size - x,
        {
            if !is_loop_tile(mosaic.get(x, y)) {
                all_loop = false;
                proof {
                    assert(!loop_tile(tile_at(g, s, x as int, y as int)));
                }
            }
            x = x + 1;
        }
        if all_loop {
            proof {
                assert(row_is_loop(g, s, y as int));
            }
            return true;
        }
        y = y + 1;
    }
    false
}

// --- Serialization -----------------------------------------------------

/// The hexadecimal digit (as an ASCII byte) for tile identifier `t`:
/// 0..=9 as themselves, 10 as `a`.
pub open spec fn hex_byte(t: u8) -> u8 {
    if t < 10 {
        (48 + t) as u8
    } else {
        (87 + t) as u8
    }
}

/// One serialized grid: one hexadecimal digit per cell, row-major, no
/// separators.
pub open spec fn hex_line(g: Seq<u8>) -> Seq<u8> {
    g.map_values(|t: u8| hex_byte(t))
}

fn to_hex_byte(t: u8) -> (b: u8)
    requires
        t <= 11,
    ensures
        b == hex_byte(t),
{
    if t < 10 {
        48 + t
    } else {
        87 + t
    }
}

/// Serialize a grid as one line of hexadecimal digits.
pub fn mosaic_line(mosaic: &Mosaic) -> (line: Vec<u8>)
    requires
        forall|i: int| 0 <= i < mosaic.grid().len() ==> mosaic.grid()[i] <= 11,
    ensures
        line@ == hex_line(mosaic.grid()),
{
    let ghost g = mosaic.grid();
    let n = mosaic.cell_count();
    let mut line: Vec<u8> = Vec::new();
    let mut i: usize = 0;
    while i < n
        invariant
            g == mosaic.grid(),
            n == g.len(),
            i <= n,
            forall|j: int| 0 <= j < g.len() ==> g[j] <= 11,
            line@.len() == i,
            forall|j: int| 0 <= j < i ==> line@[j] == hex_byte(g[j]),
        decreases n - i,
    {
        line.push(to_hex_byte(mosaic.get_linear(i)));
        i = i + 1;
    }
    proof {
        assert(line@ =~= hex_line(g));
    }
    line
}

// --- The state machine, at specification level -------------------------

/// Whether a fully assigned grid passes the crossing-count threshold:
/// grids whose crossing count is at or below the configured threshold are
/// rejected.  `None` disables the filter.
pub open spec fn passes_trim(g: Seq<u8>, trim: Option<usize>) -> bool {
    match trim {
        Some(k) => crossing_count(g) > k,
        None => true,
    }
}

/// Whether a fully assigned grid is accepted by both completion filters.
pub open spec fn accepted(g: Seq<u8>, s: int, trim: Option<usize>, row_loop: bool) -> bool {
    &&& passes_trim(g, trim)
    &&& (row_loop ==> !row_loop_exists(g, s))
}

/// The complete state of the backtracking traversal: the grid, the two
/// parallel frame arrays (per-cell fingerprint and try-cursor), the cell
/// cursor and the direction flag.
#[verifier::ext_equal]
pub ghost struct SearchState {
    pub grid: Seq<u8>,
    pub fps: Seq<usize>,
    pub idx: Seq<usize>,
    pub cur: int,
    pub rightward: bool,
}

/// The number of committed frames: in forward mode the cells before the
/// cursor, in backward mode the cursor's cell as well.
pub open spec fn frame_limit(st: SearchState) -> int {
    if st.rightward {
        st.cur
    } else {
        st.cur + 1
    }
}

/// Well-formedness of a traversal state for side length `s`: the arrays
/// have one entry per cell, the cursor is in range, every committed frame
/// holds a fingerprint in range and a try-cursor pointing just past the
/// candidate its cell holds, and every cell beyond the committed frames
/// is unassigned.
pub open spec fn st_wf(st: SearchState, s: int) -> bool {
    let n = s * s;
    &&& 1 <= s
    &&& st.grid.len() == n
    &&& st.fps.len() == n
    &&& st.idx.len() == n
    &&& 0 <= st.cur < n
    &&& forall|i: int|
        0 <= i < frame_limit(st) ==> {
            &&& #[trigger] st.fps[i] < 81
            &&& 1 <= st.idx[i] <= candidates(st.fps[i] as int).len()
            &&& st.grid[i] == candidates(st.fps[i] as int)[st.idx[i] - 1]
        }
    &&& forall|i: int| frame_limit(st) <= i < n ==> #[trigger] st.grid[i] == 11
}

/// Terminal states: the traversal has backed off to cell 0 and exhausted
/// its candidate list, or (a guard for a state no reachable run produces)
/// cell 0 itself admits no candidate at all.
pub open spec fn st_done(st: SearchState, s: int) -> bool {
    ||| (st.rightward && st.cur == 0 && candidates(fingerprint(st.grid, s, 0)).len() == 0)
    ||| (!st.rightward && st.cur == 0 && st.idx[0] == candidates(st.fps[0] as int).len())
}

/// One transition of the traversal.  Forward at `cur`: record the
/// fingerprint, back off if its candidate set is empty, otherwise commit
/// the first candidate and advance (or turn around at the last cell).
/// Backward at `cur`: on an exhausted frame reset the cell and back off;
/// otherwise commit the next candidate and resume forward motion (staying
/// put at the last cell).
pub open spec fn step(st: SearchState, s: int) -> SearchState {
    let n = s * s;
    if st.rightward {
        let f = fingerprint(st.grid, s, st.cur);
        let fps2 = st.fps.update(st.cur, f as usize);
        let cands = candidates(f);
        if cands.len() == 0 {
            SearchState { fps: fps2, cur: st.cur - 1, rightward: false, ..st }
        } else {
            let st2 = SearchState {
                grid: st.grid.update(st.cur, cands[0]),
                fps: fps2,
                idx: st.idx.update(st.cur, 1),
                ..st
            };
            if st.cur == n - 1 {
                SearchState { rightward: false, ..st2 }
            } else {
                SearchState { cur: st.cur + 1, ..st2 }
            }
        }
    } else {
        let cands = candidates(st.fps[st.cur] as int);
        if st.idx[st.cur] == cands.len() {
            SearchState { grid: st.grid.update(st.cur, 11), cur: st.cur - 1, ..st }
        } else {
            let st2 = SearchState {
                grid: st.grid.update(st.cur, cands[st.idx[st.cur] as int]),
                idx: st.idx.update(st.cur, (st.idx[st.cur] + 1) as usize),
                ..st
            };
            if st.cur < n - 1 {
                SearchState { cur: st.cur + 1, rightward: true, ..st2 }
            } else {
                st2
            }
        }
    }
}

/// The lines a state emits when the traversal processes it: exactly the
/// backward visits to the last cell expose a fully assigned grid, which is
/// serialized if the filters accept it.
pub open spec fn emits(st: SearchState, s: int, trim: Option<usize>, row_loop: bool) -> Seq<
    Seq<u8>,
> {
    if !st.rightward && st.cur == s * s - 1 && accepted(st.grid, s, trim, row_loop) {
        seq![hex_line(st.grid)]
    } else {
        seq![]
    }
}

/// Whether a state is a completed-assignment visit: a backward processing
/// of the last cell.
pub open spec fn visit(st: SearchState, s: int) -> int {
    if !st.rightward && st.cur == s * s - 1 {
        1int
    } else {
        0int
    }
}

// --- Termination measure ------------------------------------------------

/// Powers of 30, the per-cell branching budget of the measure.
pub open spec fn pow30(n: nat) -> int
    decreases n,
{
    if n == 0 {
        1int
    } else {
        30 * pow30((n - 1) as nat)
    }
}

proof fn lemma_pow30_pos(n: nat)
    ensures
        pow30(n) >= 1,
    decreases n,
{
    if n > 0 {
        lemma_pow30_pos((n - 1) as nat);
    }
}

/// The budget of the whole subtree rooted at cell `i` of an `n`-cell grid.
pub open spec fn weight(n: int, i: int) -> int {
    pow30((n - i) as nat)
}

/// The measure contributed by the first `k` committed frames: each
/// untried candidate pays for one pick step plus one full subtree below,
/// and each frame pays one final exhaust step.
pub open spec fn frames_measure(fps: Seq<usize>, idx: Seq<usize>, k: int, n: int) -> int
    decreases k,
{
    if k <= 0 {
        0
    } else {
        frames_measure(fps, idx, k - 1, n) + (candidates(fps[k - 1] as int).len() - idx[k - 1])
            * (weight(n, k) + 1) + 1
    }
}

proof fn lemma_frames_measure_agree(
    fps1: Seq<usize>,
    idx1: Seq<usize>,
    fps2: Seq<usize>,
    idx2: Seq<usize>,
    k: int,
    n: int,
)
    requires
        forall|i: int| 0 <= i < k ==> (#[trigger] fps1[i]) == fps2[i],
        forall|i: int| 0 <= i < k ==> (#[trigger] idx1[i]) == idx2[i],
    ensures
        frames_measure(fps1, idx1, k, n) == frames_measure(fps2, idx2, k, n),
    decreases k,
{
    if k > 0 {
        lemma_frames_measure_agree(fps1, idx1, fps2, idx2, k - 1, n);
    }
}

proof fn lemma_frames_measure_nonneg(fps: Seq<usize>, idx: Seq<usize>, k: int, n: int)
    requires
        forall|i: int| 0 <= i < k ==> idx[i] <= candidates(#[trigger] fps[i] as int).len(),
    ensures
        frames_measure(fps, idx, k, n) >= 0,
    decreases k,
{
    if k > 0 {
        lemma_frames_measure_nonneg(fps, idx, k - 1, n);
        let rem = candidates(fps[k - 1] as int).len() - idx[k - 1];
        let w = weight(n, k);
        lemma_pow30_pos((n - k) as nat);
        assert(rem * (w + 1) >= 0) by (nonlinear_arith)
            requires
                rem >= 0,
                w >= 1,
        ;
    }
}

/// The full measure of a state: the committed frames' budgets, plus one
/// whole subtree budget when the traversal is about to explore forward.
pub open spec fn phi(st: SearchState, s: int) -> int {
    let n = s * s;
    frames_measure(st.fps, st.idx, frame_limit(st), n) + if st.rightward {
        weight(n, st.cur)
    } else {
        0
    }
}

/// Every transition from a live well-formed state preserves
/// well-formedness and strictly shrinks the measure, which stays
/// nonnegative: the traversal terminates.
pub proof fn lemma_step_preserves(st: SearchState, s: int)
    requires
        st_wf(st, s),
        !st_done(st, s),
    ensures
        st_wf(step(st, s), s),
        0 <= phi(step(st, s), s) < phi(st, s),
{
    let n = s * s;
    let st2 = step(st, s);
    assert(s * s >= 1) by (nonlinear_arith)
        requires
            s >= 1,
    ;
    lemma_frames_measure_nonneg(st.fps, st.idx, frame_limit(st), n);
    if st.rightward {
        let f = fingerprint(st.grid, s, st.cur);
        lemma_fingerprint_range(st.grid, s, st.cur);
        let cands = candidates(f);
        lemma_candidates_len(f);
        lemma_frames_measure_agree(st2.fps, st2.idx, st.fps, st.idx, st.cur, n);
        lemma_pow30_pos((n - st.cur) as nat);
        lemma_pow30_pos((n - st.cur - 1) as nat);
        if cands.len() == 0 {
            assert(st.cur >= 1);
            assert(frame_limit(st2) == st.cur);
            assert forall|i: int| 0 <= i < frame_limit(st2) implies {
                &&& (#[trigger] st2.fps[i]) < 81
                &&& 1 <= st2.idx[i] <= candidates(st2.fps[i] as int).len()
                &&& st2.grid[i] == candidates(st2.fps[i] as int)[st2.idx[i] - 1]
            } by {
                assert(st2.fps[i] == st.fps[i]);
                assert(st.fps[i] < 81);
            }
            assert forall|i: int| frame_limit(st2) <= i < n implies (#[trigger] st2.grid[i])
                == 11 by {
                assert(st.grid[i] == 11);
            }
            assert(phi(st2, s) == frames_measure(st.fps, st.idx, st.cur, n));
        } else {
            lemma_table_total(f, 0);
            assert(frame_limit(st2) == st.cur + 1);
            assert forall|i: int| 0 <= i < frame_limit(st2) implies {
                &&& (#[trigger] st2.fps[i]) < 81
                &&& 1 <= st2.idx[i] <= candidates(st2.fps[i] as int).len()
                &&& st2.grid[i] == candidates(st2.fps[i] as int)[st2.idx[i] - 1]
            } by {
                if i < st.cur {
                    assert(st2.fps[i] == st.fps[i]);
                    assert(st2.idx[i] == st.idx[i]);
                    assert(st2.grid[i] == st.grid[i]);
                    assert(st.fps[i] < 81);
                } else {
                    assert(st2.fps[i] == f as usize);
                    assert(st2.idx[i] == 1usize);
                    assert(st2.grid[i] == cands[0]);
                }
            }
            assert forall|i: int| frame_limit(st2) <= i < n implies (#[trigger] st2.grid[i])
                == 11 by {
                assert(st.grid[i] == 11);
            }
            assert(frames_measure(st2.fps, st2.idx, st.cur + 1, n) == frames_measure(
                st.fps,
                st.idx,
                st.cur,
                n,
            ) + (cands.len() - 1) * (weight(n, st.cur + 1) + 1) + 1);
            let w = weight(n, st.cur + 1);
            assert(weight(n, st.cur) == 30 * w);
            assert((cands.len() - 1) * (w + 1) + 1 + w < 30 * w) by (nonlinear_arith)
                requires
                    w >= 1,
                    0 <= cands.len() - 1 <= 10,
            ;
            assert((cands.len() - 1) * (w + 1) >= 0) by (nonlinear_arith)
                requires
                    w >= 1,
                    cands.len() >= 1,
            ;
            lemma_frames_measure_nonneg(st2.fps, st2.idx, st.cur, n);
        }
    } else {
        let cands = candidates(st.fps[st.cur] as int);
        lemma_candidates_len(st.fps[st.cur] as int);
        let w = weight(n, st.cur + 1);
        lemma_pow30_pos((n - st.cur - 1) as nat);
        assert(frames_measure(st.fps, st.idx, st.cur + 1, n) == frames_measure(
            st.fps,
            st.idx,
            st.cur,
            n,
        ) + (cands.len() - st.idx[st.cur]) * (w + 1) + 1);
        if st.idx[st.cur] == cands.len() {
            assert(st.cur >= 1);
            lemma_frames_measure_agree(st2.fps, st2.idx, st.fps, st.idx, st.cur, n);
            lemma_frames_measure_nonneg(st.fps, st.idx, st.cur, n);
            assert forall|i: int| 0 <= i < frame_limit(st2) implies {
                &&& (#[trigger] st2.fps[i]) < 81
                &&& 1 <= st2.idx[i] <= candidates(st2.fps[i] as int).len()
                &&& st2.grid[i] == candidates(st2.fps[i] as int)[st2.idx[i] - 1]
            } by {
                assert(st2.grid[i] == st.grid[i]);
                assert(st.fps[i] < 81);
            }
            assert forall|i: int| frame_limit(st2) <= i < n implies (#[trigger] st2.grid[i])
                == 11 by {
                if i > st.cur {
                    assert(st.grid[i] == 11);
                }
            }
            assert(phi(st2, s) == frames_measure(st.fps, st.idx, st.cur, n));
        } else {
            lemma_table_total(st.fps[st.cur] as int, st.idx[st.cur] as int);
            lemma_frames_measure_agree(st2.fps, st2.idx, st.fps, st.idx, st.cur, n);
            assert forall|i: int| 0 <= i < frame_limit(st2) implies {
                &&& (#[trigger] st2.fps[i]) < 81
                &&& 1 <= st2.idx[i] <= candidates(st2.fps[i] as int).len()
                &&& st2.grid[i] == candidates(st2.fps[i] as int)[st2.idx[i] - 1]
            } by {
                if i < st.cur {
                    assert(st2.fps[i] == st.fps[i]);
                    assert(st2.idx[i] == st.idx[i]);
                    assert(st2.grid[i] == st.grid[i]);
                    assert(st.fps[i] < 81);
                } else {
                    assert(st2.fps[i] == st.fps[i]);
                    assert(st2.idx[i] == (st.idx[st.cur] + 1) as usize);
                    assert(st.idx[st.cur] + 1 <= 11);
                    assert(st2.grid[i] == cands[st.idx[st.cur] as int]);
                }
            }
            assert forall|i: int| frame_limit(st2) <= i < n implies (#[trigger] st2.grid[i])
                == 11 by {
                assert(st.grid[i] == 11);
            }
            assert(frames_measure(st2.fps, st2.idx, st.cur + 1, n) == frames_measure(
                st.fps,
                st.idx,
                st.cur,
                n,
            ) + (cands.len() - st.idx[st.cur] - 1) * (w + 1) + 1);
            let rem = cands.len() - st.idx[st.cur];
            assert((rem - 1) * (w + 1) == rem * (w + 1) - (w + 1)) by (nonlinear_arith);
            lemma_frames_measure_nonneg(st2.fps, st2.idx, frame_limit(st2), n);
        }
    }
}

/// In a well-formed state every cell holds a committed tile or the
/// sentinel.
pub proof fn lemma_wf_grid_bounded(st: SearchState, s: int)
    requires
        st_wf(st, s),
    ensures
        forall|i: int| 0 <= i < st.grid.len() ==> #[trigger] st.grid[i] <= 11,
{
    assert forall|i: int| 0 <= i < st.grid.len() implies (#[trigger] st.grid[i]) <= 11 by {
        if i < frame_limit(st) {
            assert(st.fps[i] < 81);
            lemma_table_total(st.fps[i] as int, st.idx[i] - 1);
        } else {
            assert(st.grid[i] == 11);
        }
    }
}

/// The lines and the completed-assignment visit count of the whole
/// traversal from state `st` onward.
pub open spec fn run(st: SearchState, s: int, trim: Option<usize>, row_loop: bool) -> (Seq<
    Seq<u8>,
>, int)
    decreases phi(st, s)
    when st_wf(st, s)
    via run_decreases
{
    if st_done(st, s) {
        (emits(st, s, trim, row_loop), visit(st, s))
    } else {
        let rest = run(step(st, s), s, trim, row_loop);
        (emits(st, s, trim, row_loop) + rest.0, visit(st, s) + rest.1)
    }
}

#[via_fn]
proof fn run_decreases(st: SearchState, s: int, trim: Option<usize>, row_loop: bool) {
    if st_wf(st, s) && !st_done(st, s) {
        lemma_step_preserves(st, s);
    }
}

// --- The executable engine ---------------------------------------------

/// The state a run starts from: every cell unassigned, both frame arrays
/// zeroed, the cursor on cell 0, moving forward.
pub open spec fn init_state(s: int) -> SearchState {
    SearchState {
        grid: Seq::new((s * s) as nat, |i: int| 11u8),
        fps: Seq::new((s * s) as nat, |i: int| 0usize),
        idx: Seq::new((s * s) as nat, |i: int| 0usize),
        cur: 0,
        rightward: true,
    }
}

/// The emitted line sequence of a whole enumeration, as a mathematical
/// function of the configuration.
pub open spec fn generated_lines(s: int, trim: Option<usize>, row_loop: bool) -> Seq<Seq<u8>> {
    run(init_state(s), s, trim, row_loop).0
}

/// The number of fully assigned grids a whole enumeration visits.
pub open spec fn generated_visits(s: int, trim: Option<usize>, row_loop: bool) -> int {
    run(init_state(s), s, trim, row_loop).1
}

proof fn lemma_init_wf(s: int)
    requires
        1 <= s,
    ensures
        st_wf(init_state(s), s),
{
    assert(s * s >= 1) by (nonlinear_arith)
        requires
            s >= 1,
    ;
}

/// Bundling of the live traversal variables into the abstract state.
pub open spec fn st_of(
    grid: Seq<u8>,
    fps: Seq<usize>,
    idx: Seq<usize>,
    cur: int,
    rightward: bool,
) -> SearchState {
    SearchState { grid, fps, idx, cur, rightward }
}

/// Enumerate every tile assignment of a `size`×`size` grid that satisfies
/// the neighbor constraints, in depth-first order, and return the
/// serialized lines of those fully assigned grids that the completion
/// filters accept: the crossing-count threshold (`trim_crossings`, grids
/// with a crossing count at or below it are discarded; `None` disables
/// it) and the row-loop detector (`row_loop_filter`).
///
/// The returned sequence is exactly the emitted line sequence of the
/// abstract traversal, `generated_lines`.
pub fn mosaic_gen(
    table: &ConnTable,
    size: usize,
    trim_crossings: Option<usize>,
    row_loop_filter: bool,
) -> (lines: Vec<Vec<u8>>)
    requires
        table.wf(),
        1 <= size,
        size * size <= usize::MAX,
    ensures
        lines@.map_values(|l: Vec<u8>| l@) == generated_lines(
            size as int,
            trim_crossings,
            row_loop_filter,
        ),
{
    let ghost s = size as int;
    let ghost init = init_state(s);
    proof {
        assert(s * s >= 1) by (nonlinear_arith)
            requires
                s >= 1,
        ;
        lemma_init_wf(s);
    }
    let n = size * size;
    let vector_length = n - 1;
    let mut mosaic = Mosaic::new(size);
    let mut fps_arr: Vec<usize> = vec![0; n];
    let mut idx_arr: Vec<usize> = vec![0; n];
    let mut curr_tile: usize = 0;
    let mut rightward: bool = true;
    let mut lines: Vec<Vec<u8>> = Vec::new();
    proof {
        assert(mosaic.grid() =~= init.grid);
        assert(fps_arr@ =~= init.fps);
        assert(idx_arr@ =~= init.idx);
        assert(st_of(mosaic.grid(), fps_arr@, idx_arr@, 0, true) == init);
        assert(lines@.map_values(|l: Vec<u8>| l@) + run(init, s, trim_crossings, row_loop_filter).0
            =~= run(init, s, trim_crossings, row_loop_filter).0);
    }
    loop
        invariant_except_break
            table.wf(),
            mosaic.wf(),
            mosaic.side() == size,
            1 <= size,
            s == size as int,
            init == init_state(s),
            n == size * size,
            n <= usize::MAX,
            vector_length == n - 1,
            fps_arr@.len() == n,
            idx_arr@.len() == n,
            curr_tile < n,
            st_wf(st_of(mosaic.grid(), fps_arr@, idx_arr@, curr_tile as int, rightward), s),
            run(init, s, trim_crossings, row_loop_filter).0 == lines@.map_values(|l: Vec<u8>| l@)
                + run(
                st_of(mosaic.grid(), fps_arr@, idx_arr@, curr_tile as int, rightward),
                s,
                trim_crossings,
                row_loop_filter,
            ).0,
        ensures
            run(init, s, trim_crossings, row_loop_filter).0 == lines@.map_values(
                |l: Vec<u8>| l@,
            ),
        decreases phi(st_of(mosaic.grid(), fps_arr@, idx_arr@, curr_tile as int, rightward), s),
    {
        let ghost st = st_of(mosaic.grid(), fps_arr@, idx_arr@, curr_tile as int, rightward);
        let ghost lines0 = lines@.map_values(|l: Vec<u8>| l@);
        if rightward {
            let f = calc_fingerprint(&mosaic, curr_tile, size);
            fps_arr.set(curr_tile, f);
            let cands_len = table.lookup(f).len();
            if cands_len == 0 {
                if curr_tile == 0 {
                    // No reachable run produces this state (cell 0 always
                    // admits a candidate): kept as a terminating guard.
                    proof {
                        assert(st_done(st, s));
                        assert(run(st, s, trim_crossings, row_loop_filter).0 == emits(
                            st,
                            s,
                            trim_crossings,
                            row_loop_filter,
                        ));
                        assert(lines0 + emits(st, s, trim_crossings, row_loop_filter) =~= lines0);
                    }
                    break;
                }
                rightward = false;
                curr_tile = curr_tile - 1;
                proof {
                    assert(!st_done(st, s));
                    lemma_step_preserves(st, s);
                    let st2 = st_of(
                        mosaic.grid(),
                        fps_arr@,
                        idx_arr@,
                        curr_tile as int,
                        rightward,
                    );
                    assert(st2 == step(st, s));
                    assert(emits(st, s, trim_crossings, row_loop_filter) + run(
                        st2,
                        s,
                        trim_crossings,
                        row_loop_filter,
                    ).0 =~= run(st2, s, trim_crossings, row_loop_filter).0);
                }
                continue;
            }
            idx_arr.set(curr_tile, 1);
            let t0 = table.lookup(f)[0];
            mosaic.set_linear(curr_tile, t0);
            if curr_tile == vector_length {
                rightward = false;
            } else {
                curr_tile = curr_tile + 1;
            }
            proof {
                assert(!st_done(st, s));
                lemma_step_preserves(st, s);
                let st2 = st_of(mosaic.grid(), fps_arr@, idx_arr@, curr_tile as int, rightward);
                assert(st2 == step(st, s));
                assert(emits(st, s, trim_crossings, row_loop_filter) + run(
                    st2,
                    s,
                    trim_crossings,
                    row_loop_filter,
                ).0 =~= run(st2, s, trim_crossings, row_loop_filter).0);
            }
            continue;
        }
        // Backward: a full assignment exists exactly when the cursor sits
        // on the last cell; evaluate the filters and emit before deciding
        // how to continue.
        if curr_tile == vector_length {
            let keep_trim = match trim_crossings {
                Some(k) => mosaic.crossing_ct() > k,
                None => true,
            };
            let keep = keep_trim && (!row_loop_filter || !has_row_loop(&mosaic));
            if keep {
                proof {
                    lemma_wf_grid_bounded(st, s);
                }
                let line = mosaic_line(&mosaic);
                lines.push(line);
            }
        }
        proof {
            assert(lines@.map_values(|l: Vec<u8>| l@) =~= lines0 + emits(
                st,
                s,
                trim_crossings,
                row_loop_filter,
            ));
        }
        let fcur = fps_arr[curr_tile];
        let flen = table.lookup(fcur).len();
        if idx_arr[curr_tile] == flen {
            if curr_tile == 0 {
                proof {
                    assert(st_done(st, s));
                }
                break;
            }
            mosaic.set_linear(curr_tile, 11);
            curr_tile = curr_tile - 1;
        } else {
            proof {
                lemma_candidates_len(fcur as int);
            }
            let t = table.lookup(fcur)[idx_arr[curr_tile]];
            mosaic.set_linear(curr_tile, t);
            idx_arr.set(curr_tile, idx_arr[curr_tile] + 1);
            if curr_tile < vector_length {
                curr_tile = curr_tile + 1;
                rightward = true;
            }
        }
        proof {
            assert(!st_done(st, s));
            lemma_step_preserves(st, s);
            let st2 = st_of(mosaic.grid(), fps_arr@, idx_arr@, curr_tile as int, rightward);
            assert(st2 == step(st, s));
            assert(lines0 + (emits(st, s, trim_crossings, row_loop_filter) + run(
                st2,
                s,
                trim_crossings,
                row_loop_filter,
            ).0) =~= (lines0 + emits(st, s, trim_crossings, row_loop_filter)) + run(
                st2,
                s,
                trim_crossings,
                row_loop_filter,
            ).0);
        }
    }
    lines
}

// --- Properties of the enumeration -------------------------------------

/// Determinism: the emitted sequence is a function of the configuration
/// alone, so two runs with identical side length, threshold and row-loop
/// setting produce identical, identically ordered line sequences.
pub proof fn lemma_determinism(
    s: int,
    trim: Option<usize>,
    row_loop: bool,
    r1: Seq<Seq<u8>>,
    r2: Seq<Seq<u8>>,
)
    requires
        r1 == generated_lines(s, trim, row_loop),
        r2 == generated_lines(s, trim, row_loop),
    ensures
        r1 == r2,
{
}

/// A serialized line of a committed `s`×`s` grid: one hexadecimal digit
/// per cell, each the digit of a committed tile (`0`..`9` or `a`), never
/// the sentinel digit `b`.
pub open spec fn line_wf(line: Seq<u8>, s: int) -> bool {
    &&& line.len() == s * s
    &&& forall|j: int| 0 <= j < line.len() ==> (48 <= #[trigger] line[j] <= 57 || line[j] == 97)
}

proof fn lemma_emit_lines_wf(st: SearchState, s: int, trim: Option<usize>, row_loop: bool)
    requires
        st_wf(st, s),
    ensures
        forall|k: int|
            0 <= k < emits(st, s, trim, row_loop).len() ==> line_wf(
                #[trigger] emits(st, s, trim, row_loop)[k],
                s,
            ),
{
    let n = s * s;
    if !st.rightward && st.cur == n - 1 && accepted(st.grid, s, trim, row_loop) {
        let line = hex_line(st.grid);
        assert forall|j: int| 0 <= j < line.len() implies (48 <= #[trigger] line[j] <= 57
            || line[j] == 97) by {
            assert(frame_limit(st) == n);
            assert(st.fps[j] < 81);
            lemma_table_total(st.fps[j] as int, st.idx[j] - 1);
            assert(st.grid[j] <= 10);
            assert(line[j] == hex_byte(st.grid[j]));
        }
        assert(emits(st, s, trim, row_loop)[0] == line);
    }
}

/// Every line the traversal emits from a well-formed state is the
/// serialization of a committed grid: `s`·`s` hexadecimal digits, none of
/// them the sentinel digit `b`.
pub proof fn lemma_run_lines_wf(st: SearchState, s: int, trim: Option<usize>, row_loop: bool)
    requires
        st_wf(st, s),
    ensures
        forall|k: int|
            0 <= k < run(st, s, trim, row_loop).0.len() ==> line_wf(
                #[trigger] run(st, s, trim, row_loop).0[k],
                s,
            ),
    decreases phi(st, s),
{
    lemma_emit_lines_wf(st, s, trim, row_loop);
    if !st_done(st, s) {
        lemma_step_preserves(st, s);
        lemma_run_lines_wf(step(st, s), s, trim, row_loop);
        let e = emits(st, s, trim, row_loop);
        let rest = run(step(st, s), s, trim, row_loop).0;
        assert forall|k: int| 0 <= k < run(st, s, trim, row_loop).0.len() implies line_wf(
            #[trigger] run(st, s, trim, row_loop).0[k],
            s,
        ) by {
            if k < e.len() {
                assert(run(st, s, trim, row_loop).0[k] == e[k]);
            } else {
                assert(run(st, s, trim, row_loop).0[k] == rest[k - e.len()]);
            }
        }
    }
}

/// No emitted line of a whole enumeration ever contains the sentinel
/// value: the hexadecimal digit `b` appears in no line, for any side
/// length and any filter configuration.
pub proof fn lemma_no_sentinel_emitted(
    s: int,
    trim: Option<usize>,
    row_loop: bool,
    k: int,
    j: int,
)
    requires
        1 <= s,
        0 <= k < generated_lines(s, trim, row_loop).len(),
        0 <= j < generated_lines(s, trim, row_loop)[k].len(),
    ensures
        generated_lines(s, trim, row_loop)[k][j] != 98,
        generated_lines(s, trim, row_loop)[k].len() == s * s,
{
    lemma_init_wf(s);
    lemma_run_lines_wf(init_state(s), s, trim, row_loop);
}

// --- Soundness: emitted grids satisfy the adjacency constraints --------

/// A fully assigned grid satisfying every local edge-adjacency
/// constraint of the cylindrical topology: horizontally adjacent tiles
/// (wrapping around the row) agree on their shared edge, vertically
/// adjacent tiles agree on theirs, and the open top and bottom
/// boundaries carry no connection.
pub open spec fn cell_ok(g: Seq<u8>, s: int, x: int, y: int) -> bool {
    &&& connects_right(tile_at(g, s, x, y)) == connects_left(tile_at(g, s, (x + 1) % s, y))
    &&& (y == 0 ==> !connects_up(tile_at(g, s, x, y)))
    &&& (y + 1 < s ==> connects_down(tile_at(g, s, x, y)) == connects_up(tile_at(g, s, x, y + 1)))
    &&& (y + 1 == s ==> !connects_down(tile_at(g, s, x, y)))
}

pub open spec fn grid_valid(g: Seq<u8>, s: int) -> bool {
    forall|x: int, y: int| 0 <= x < s && 0 <= y < s ==> #[trigger] cell_ok(g, s, x, y)
}

/// The grid as it stood when cell `k` was reached: the cells before `k`
/// as they are now, every other cell unassigned.
pub open spec fn blank_from(g: Seq<u8>, k: int) -> Seq<u8> {
    Seq::new(
        g.len(),
        |j: int|
            if j < k {
                g[j]
            } else {
                11u8
            },
    )
}

/// Each committed frame still holds the fingerprint its cell was
/// assigned under: the fingerprint of the cell in the grid restricted to
/// the earlier cells.  Cells at or after a frame's own cell were
/// unassigned when its fingerprint was computed, and the machine never
/// rewrites an earlier cell without first discarding the later frames.
pub open spec fn st_sound(st: SearchState, s: int) -> bool {
    forall|i: int|
        0 <= i < frame_limit(st) ==> (#[trigger] st.fps[i]) as int == fingerprint(
            blank_from(st.grid, i),
            s,
            i,
        )
}

proof fn lemma_step_sound(st: SearchState, s: int)
    requires
        st_wf(st, s),
        st_sound(st, s),
        !st_done(st, s),
    ensures
        st_sound(step(st, s), s),
{
    let n = s * s;
    let st2 = step(st, s);
    assert forall|i: int| 0 <= i < frame_limit(st2) implies (#[trigger] st2.fps[i]) as int
        == fingerprint(blank_from(st2.grid, i), s, i) by {
        if i < st.cur {
            assert(st2.fps[i] == st.fps[i]);
            assert(blank_from(st2.grid, i) =~= blank_from(st.grid, i));
        } else {
            assert(i == st.cur);
            if st.rightward {
                assert(blank_from(st2.grid, i) =~= st.grid);
                assert(st2.fps[i] as int == fingerprint(st.grid, s, st.cur));
            } else {
                assert(st2.fps[i] == st.fps[i]);
                assert(blank_from(st2.grid, i) =~= blank_from(st.grid, i));
            }
        }
    }
}

/// The four constraint digits of a fingerprint, recovered from its
/// base-3 encoding.
proof fn lemma_digits_of_fingerprint(g: Seq<u8>, s: int, i: int)
    requires
        1 <= s,
    ensures
        fingerprint(g, s, i) % 3 == digit_from_right(right_neighbor(g, s, i % s, i / s)),
        (fingerprint(g, s, i) / 3) % 3 == digit_from_up(up_neighbor(g, s, i % s, i / s)),
        (fingerprint(g, s, i) / 9) % 3 == digit_from_left(left_neighbor(g, s, i % s, i / s)),
        (fingerprint(g, s, i) / 27) % 3 == digit_from_down(down_neighbor(g, s, i % s, i / s)),
{
    let x = i % s;
    let y = i / s;
    let dr = digit_from_right(right_neighbor(g, s, x, y));
    let du = digit_from_up(up_neighbor(g, s, x, y));
    let dl = digit_from_left(left_neighbor(g, s, x, y));
    let dd = digit_from_down(down_neighbor(g, s, x, y));
    let f = fingerprint(g, s, i);
    assert(f == dr + 3 * (du + 3 * dl + 9 * dd));
    vstd::arithmetic::div_mod::lemma_fundamental_div_mod_converse(
        f,
        3,
        du + 3 * dl + 9 * dd,
        dr,
    );
    vstd::arithmetic::div_mod::lemma_fundamental_div_mod_converse(
        du + 3 * dl + 9 * dd,
        3,
        dl + 3 * dd,
        du,
    );
    vstd::arithmetic::div_mod::lemma_div_denominator(f, 3, 3);
    vstd::arithmetic::div_mod::lemma_fundamental_div_mod_converse(dl + 3 * dd, 3, dd, dl);
    vstd::arithmetic::div_mod::lemma_div_denominator(f, 9, 3);
    vstd::arithmetic::div_mod::lemma_small_mod(dd as nat, 3nat);
}

/// The per-direction constraints cell `i`'s committed tile was checked
/// against, phrased over the grid as it stood when the cell was reached.
proof fn lemma_cell_constraints(st: SearchState, s: int, i: int)
    requires
        st_wf(st, s),
        st_sound(st, s),
        0 <= i < frame_limit(st),
    ensures
        st.grid[i] <= 10,
        digit_ok(
            digit_from_right(right_neighbor(blank_from(st.grid, i), s, i % s, i / s)),
            connects_right(st.grid[i] as int),
        ),
        digit_ok(
            digit_from_up(up_neighbor(blank_from(st.grid, i), s, i % s, i / s)),
            connects_up(st.grid[i] as int),
        ),
        digit_ok(
            digit_from_left(left_neighbor(blank_from(st.grid, i), s, i % s, i / s)),
            connects_left(st.grid[i] as int),
        ),
        digit_ok(
            digit_from_down(down_neighbor(blank_from(st.grid, i), s, i % s, i / s)),
            connects_down(st.grid[i] as int),
        ),
{
    let f = st.fps[i] as int;
    assert(st.fps[i] < 81);
    lemma_table_total(f, st.idx[i] - 1);
    assert(tile_fits(f, st.grid[i] as int));
    lemma_digits_of_fingerprint(blank_from(st.grid, i), s, i);
}

/// A fully committed traversal state holds a grid that satisfies every
/// adjacency constraint: each pair of neighboring cells was checked by
/// whichever of the two was committed later, and the vertical boundaries
/// were checked against the imaginary non-connecting tile.
proof fn lemma_full_grid_valid(st: SearchState, s: int)
    requires
        st_wf(st, s),
        st_sound(st, s),
        frame_limit(st) == s * s,
    ensures
        grid_valid(st.grid, s),
{
    let n = s * s;
    let g = st.grid;
    assert forall|x: int, y: int| 0 <= x < s && 0 <= y < s implies #[trigger] cell_ok(
        g,
        s,
        x,
        y,
    ) by {
        let i = y * s + x;
        lemma_cell_index_in_range(s, x, y);
        vstd::arithmetic::div_mod::lemma_fundamental_div_mod_converse(i, s, y, x);
        lemma_cell_constraints(st, s, i);
        let gb = blank_from(g, i);
        let t = g[i] as int;
        // Open vertical boundary: the first row's upper neighbor and the
        // last row's lower neighbor read as tile 0, which connects nowhere.
        if y == 0 {
            assert(up_neighbor(gb, s, x, y) == 0);
            assert(!connects_up(t));
        }
        if y + 1 == s {
            assert(down_neighbor(gb, s, x, y) == 0);
            assert(!connects_down(t));
        }
        // Vertical pair (x, y)-(x, y+1): checked when the lower cell was
        // committed, its upper neighbor already holding this cell's tile.
        if y + 1 < s {
            let j = (y + 1) * s + x;
            lemma_cell_index_in_range(s, x, y + 1);
            vstd::arithmetic::div_mod::lemma_fundamental_div_mod_converse(j, s, y + 1, x);
            lemma_cell_constraints(st, s, j);
            let gbj = blank_from(g, j);
            assert(i < j) by (nonlinear_arith)
                requires
                    i == y * s + x,
                    j == (y + 1) * s + x,
                    s >= 1,
            ;
            assert(up_neighbor(gbj, s, x, y + 1) == gbj[i]);
            assert(gbj[i] == g[i]);
            assert(digit_from_up(g[i] as int) != 2);
            assert(connects_down(t) == connects_up(g[j] as int));
        }
        // Horizontal pair, wrapping around the row.
        if s == 1 {
            // The single cell of the row is its own horizontal neighbor;
            // the open vertical boundaries already force a tile with
            // matching left and right sides.
            assert((x + 1) % s == 0) by {
                vstd::arithmetic::div_mod::lemma_fundamental_div_mod_converse(x + 1, 1, x + 1, 0);
            }
            assert(y == 0 && y + 1 == s);
            assert(!connects_up(t) && !connects_down(t));
            assert(connects_right(t) == connects_left(t));
        } else if x + 1 < s {
            // Checked when the right cell was committed, its left
            // neighbor already holding this cell's tile.
            let j = y * s + (x + 1);
            lemma_cell_index_in_range(s, x + 1, y);
            vstd::arithmetic::div_mod::lemma_fundamental_div_mod_converse(j, s, y, x + 1);
            lemma_cell_constraints(st, s, j);
            let gbj = blank_from(g, j);
            assert((x + 1) % s == x + 1) by {
                vstd::arithmetic::div_mod::lemma_small_mod((x + 1) as nat, s as nat);
            }
            assert((x + 1 + s - 1) % s == x) by {
                vstd::arithmetic::div_mod::lemma_fundamental_div_mod_converse(x + s, s, 1, x);
            }
            assert(left_neighbor(gbj, s, x + 1, y) == gbj[i] as int);
            assert(gbj[i] == g[i]);
            assert(digit_from_left(g[i] as int) != 2);
            assert(connects_right(t) == connects_left(g[j] as int));
        } else {
            // The row's last cell wraps: checked when this cell itself
            // was committed, its right neighbor being the row's first
            // cell, already committed.
            let j = y * s;
            lemma_cell_index_in_range(s, 0, y);
            vstd::arithmetic::div_mod::lemma_fundamental_div_mod_converse(j, s, y, 0);
            lemma_cell_constraints(st, s, j);
            assert((x + 1) % s == 0) by {
                vstd::arithmetic::div_mod::lemma_fundamental_div_mod_converse(x + 1, s, 1, 0);
            }
            assert(j < i);
            assert(right_neighbor(gb, s, x, y) == gb[j] as int);
            assert(gb[j] == g[j]);
            assert(digit_from_right(g[j] as int) != 2);
            assert(connects_right(t) == connects_left(g[j] as int));
        }
    }
}

/// Whether a line is the serialization of some fully assigned grid that
/// satisfies every adjacency constraint and that both filters accept.
pub open spec fn line_of_valid_grid(
    line: Seq<u8>,
    s: int,
    trim: Option<usize>,
    row_loop: bool,
) -> bool {
    exists|g: Seq<u8>|
        {
            &&& #[trigger] grid_valid(g, s)
            &&& accepted(g, s, trim, row_loop)
            &&& line == hex_line(g)
        }
}

proof fn lemma_run_lines_valid(st: SearchState, s: int, trim: Option<usize>, row_loop: bool)
    requires
        st_wf(st, s),
        st_sound(st, s),
    ensures
        forall|k: int|
            0 <= k < run(st, s, trim, row_loop).0.len() ==> line_of_valid_grid(
                #[trigger] run(st, s, trim, row_loop).0[k],
                s,
                trim,
                row_loop,
            ),
    decreases phi(st, s),
{
    let n = s * s;
    let e = emits(st, s, trim, row_loop);
    if e.len() > 0 {
        assert(frame_limit(st) == n);
        lemma_full_grid_valid(st, s);
        assert(grid_valid(st.grid, s) && accepted(st.grid, s, trim, row_loop) && e[0] == hex_line(
            st.grid,
        ));
    }
    if !st_done(st, s) {
        lemma_step_preserves(st, s);
        lemma_step_sound(st, s);
        lemma_run_lines_valid(step(st, s), s, trim, row_loop);
        let rest = run(step(st, s), s, trim, row_loop).0;
        assert forall|k: int| 0 <= k < run(st, s, trim, row_loop).0.len() implies line_of_valid_grid(
            #[trigger] run(st, s, trim, row_loop).0[k],
            s,
            trim,
            row_loop,
        ) by {
            if k < e.len() {
                assert(run(st, s, trim, row_loop).0[k] == e[k]);
            } else {
                assert(run(st, s, trim, row_loop).0[k] == rest[k - e.len()]);
            }
        }
    }
}

/// Soundness of the whole enumeration: every emitted line is the
/// serialization of a fully assigned grid that satisfies every local
/// adjacency constraint and that both completion filters accept.
pub proof fn lemma_emitted_lines_valid(s: int, trim: Option<usize>, row_loop: bool, k: int)
    requires
        1 <= s,
        0 <= k < generated_lines(s, trim, row_loop).len(),
    ensures
        line_of_valid_grid(generated_lines(s, trim, row_loop)[k], s, trim, row_loop),
{
    lemma_init_wf(s);
    lemma_run_lines_valid(init_state(s), s, trim, row_loop);
}

/// A fully assigned grid of the right size with committed tiles only.
pub open spec fn full_grid(g: Seq<u8>, s: int) -> bool {
    &&& g.len() == s * s
    &&& forall|i: int| 0 <= i < g.len() ==> #[trigger] g[i] <= 10
}

/// In a valid full grid, every cell's tile satisfies the fingerprint the
/// search derives for that cell: the digits of committed earlier
/// neighbors match by validity, and every other digit is free or an open
/// boundary whose constraint validity also grants.
proof fn lemma_valid_cell_fits(g: Seq<u8>, s: int, i: int)
    requires
        1 <= s,
        full_grid(g, s),
        grid_valid(g, s),
        0 <= i < s * s,
    ensures
        tile_fits(fingerprint(blank_from(g, i), s, i), g[i] as int),
{
    let n = s * s;
    let gb = blank_from(g, i);
    let x = i % s;
    let y = i / s;
    assert(x + y * s == i && 0 <= x < s && 0 <= y < s) by (nonlinear_arith)
        requires
            1 <= s,
            0 <= i < s * s,
            x == i % s,
            y == i / s,
    ;
    lemma_digits_of_fingerprint(gb, s, i);
    let t = g[i] as int;
    assert(tile_at(g, s, x, y) == t);
    lemma_cell_index_in_range(s, x, y);
    // right neighbor: committed only when this cell ends its row
    let rx = (x + 1) % s;
    if x + 1 < s {
        vstd::arithmetic::div_mod::lemma_small_mod((x + 1) as nat, s as nat);
        assert(rx == x + 1);
        lemma_cell_index_in_range(s, rx, y);
        assert(cell_index(s, rx, y) == i + 1);
        assert(right_neighbor(gb, s, x, y) == 11);
    } else {
        vstd::arithmetic::div_mod::lemma_fundamental_div_mod_converse(x + 1, s, 1, 0);
        assert(rx == 0);
        lemma_cell_index_in_range(s, 0, y);
        if s == 1 {
            assert(cell_index(s, 0, y) == i);
            assert(right_neighbor(gb, s, x, y) == 11);
        } else {
            assert(cell_index(s, 0, y) == y * s < i);
            assert(right_neighbor(gb, s, x, y) == g[y * s] as int);
            assert(cell_ok(g, s, x, y));
            assert(connects_right(t) == connects_left(g[y * s] as int));
        }
    }
    // left neighbor: committed except at the row's first cell
    if x > 0 {
        vstd::arithmetic::div_mod::lemma_fundamental_div_mod_converse(x + s - 1, s, 1, x - 1);
        assert((x + s - 1) % s == x - 1);
        lemma_cell_index_in_range(s, x - 1, y);
        assert(cell_index(s, x - 1, y) == i - 1);
        assert(left_neighbor(gb, s, x, y) == g[i - 1] as int);
        assert(tile_at(g, s, x - 1, y) == g[i - 1] as int);
        assert(x % s == x) by {
            vstd::arithmetic::div_mod::lemma_small_mod(x as nat, s as nat);
        }
        assert(cell_ok(g, s, x - 1, y));
        assert(connects_right(g[i - 1] as int) == connects_left(t));
    } else {
        vstd::arithmetic::div_mod::lemma_fundamental_div_mod_converse(x + s - 1, s, 0, s - 1);
        assert((x + s - 1) % s == s - 1);
        lemma_cell_index_in_range(s, s - 1, y);
        if s == 1 {
            assert(cell_index(s, s - 1, y) == i);
            assert(left_neighbor(gb, s, x, y) == 11);
        } else {
            assert(cell_index(s, s - 1, y) == y * s + s - 1 > i);
            assert(left_neighbor(gb, s, x, y) == 11);
        }
    }
    // upper neighbor: committed except in the first row
    if y > 0 {
        lemma_cell_index_in_range(s, x, y - 1);
        assert(cell_index(s, x, y - 1) == i - s) by (nonlinear_arith)
            requires
                i == y * s + x,
        ;
        assert(up_neighbor(gb, s, x, y) == g[i - s] as int);
        assert(tile_at(g, s, x, y - 1) == g[i - s] as int);
        assert(cell_ok(g, s, x, y - 1));
        assert(connects_down(g[i - s] as int) == connects_up(t));
    } else {
        assert(up_neighbor(gb, s, x, y) == 0);
        assert(cell_ok(g, s, x, y));
        assert(!connects_up(t));
    }
    // lower neighbor: unassigned except past the last row
    if y + 1 < s {
        lemma_cell_index_in_range(s, x, y + 1);
        assert(cell_index(s, x, y + 1) == i + s) by (nonlinear_arith)
            requires
                i == y * s + x,
        ;
        assert(down_neighbor(gb, s, x, y) == 11);
    } else {
        assert(down_neighbor(gb, s, x, y) == 0);
        assert(cell_ok(g, s, x, y));
        assert(!connects_down(t));
    }
}

// --- Completeness: every solution is emitted ---------------------------

/// The grids agree on every cell before `m`.
pub open spec fn grid_agrees(g: Seq<u8>, h: Seq<u8>, m: int) -> bool {
    forall|j: int| 0 <= j < m ==> g[j] == h[j]
}

/// Frame `i` can still reach `g`: the grids agree before the frame's
/// cell, and `g`'s tile there is among the frame's untried candidates.
pub open spec fn frame_can_reach(st: SearchState, g: Seq<u8>, i: int) -> bool {
    &&& grid_agrees(g, st.grid, i)
    &&& exists|j: int|
        st.idx[i] <= j < candidates(st.fps[i] as int).len() && candidates(st.fps[i] as int)[j]
            == g[i]
}

/// `g` still lies ahead of the traversal: either it completes the
/// committed prefix, or some frame's untried candidates lead to it, or
/// (backward at the last cell) it is the very grid being processed.
pub open spec fn solution_ahead(st: SearchState, s: int, g: Seq<u8>) -> bool {
    if st.rightward {
        grid_agrees(g, st.grid, st.cur) || (exists|i: int|
            0 <= i < st.cur && #[trigger] frame_can_reach(st, g, i))
    } else {
        (st.cur == s * s - 1 && g == st.grid) || (exists|i: int|
            0 <= i <= st.cur && #[trigger] frame_can_reach(st, g, i))
    }
}

/// When a solution completes the committed prefix, its tile at the
/// cursor is among the candidates the search derives there.
proof fn lemma_ahead_cell_candidate(st: SearchState, s: int, g: Seq<u8>)
    requires
        st_wf(st, s),
        st_sound(st, s),
        full_grid(g, s),
        grid_valid(g, s),
        st.rightward,
        grid_agrees(g, st.grid, st.cur),
    ensures
        candidates(fingerprint(st.grid, s, st.cur)).contains(g[st.cur]),
{
    let cur = st.cur;
    let f = fingerprint(st.grid, s, cur);
    assert(st.grid =~= blank_from(st.grid, cur));
    assert(blank_from(st.grid, cur) =~= blank_from(g, cur));
    lemma_valid_cell_fits(g, s, cur);
    assert(tile_fits(f, g[cur] as int));
    lemma_table_complete(f, g[cur] as int);
}

/// A frame that can reach a solution still can after a transition that
/// leaves the frame and the cells before it untouched.
proof fn lemma_frame_reach_stable(st: SearchState, st2: SearchState, g: Seq<u8>, i: int)
    requires
        frame_can_reach(st, g, i),
        st2.fps[i] == st.fps[i],
        st2.idx[i] == st.idx[i],
        grid_agrees(g, st2.grid, i),
    ensures
        frame_can_reach(st2, g, i),
{
    let j = choose|j: int|
        st.idx[i] <= j < candidates(st.fps[i] as int).len() && candidates(st.fps[i] as int)[j]
            == g[i];
    assert(st2.idx[i] <= j < candidates(st2.fps[i] as int).len() && candidates(
        st2.fps[i] as int,
    )[j] == g[i]);
}

proof fn lemma_run_complete(
    st: SearchState,
    s: int,
    trim: Option<usize>,
    row_loop: bool,
    g: Seq<u8>,
)
    requires
        st_wf(st, s),
        st_sound(st, s),
        full_grid(g, s),
        grid_valid(g, s),
        accepted(g, s, trim, row_loop),
        solution_ahead(st, s, g),
    ensures
        run(st, s, trim, row_loop).0.contains(hex_line(g)),
    decreases phi(st, s),
{
    let n = s * s;
    let cur = st.cur;
    let out = run(st, s, trim, row_loop).0;
    let e = emits(st, s, trim, row_loop);
    if st_done(st, s) {
        if st.rightward {
            // cell 0 would admit no candidate, yet the solution's own
            // tile is one: no solution can be ahead of this state
            lemma_ahead_cell_candidate(st, s, g);
            assert(false);
        } else {
            // cell 0's frame is exhausted, so only the grid itself is
            // ahead, and this very state emits it
            assert(cur == n - 1 && g == st.grid);
            assert(accepted(st.grid, s, trim, row_loop));
            assert(out[0] == hex_line(g));
            assert(out.contains(hex_line(g)));
        }
    } else {
        lemma_step_preserves(st, s);
        lemma_step_sound(st, s);
        let st2 = step(st, s);
        let rest = run(st2, s, trim, row_loop).0;
        if !st.rightward && cur == n - 1 && g == st.grid {
            // the visit being processed is the solution itself
            assert(accepted(st.grid, s, trim, row_loop));
            assert(out[0] == hex_line(g));
            assert(out.contains(hex_line(g)));
        } else {
            // the solution is still ahead after one transition
            if st.rightward {
                let f = fingerprint(st.grid, s, cur);
                let cands = candidates(f);
                if grid_agrees(g, st.grid, cur) {
                    lemma_ahead_cell_candidate(st, s, g);
                    let j = choose|j: int|
                        0 <= j < cands.len() && #[trigger] cands[j] == g[cur];
                    assert(cands.len() > 0);
                    assert(grid_agrees(g, st2.grid, cur));
                    if g[cur] == cands[0] {
                        assert(st2.grid[cur] == g[cur]);
                        assert(grid_agrees(g, st2.grid, cur + 1));
                        if cur == n - 1 {
                            assert(g =~= st2.grid);
                        }
                    } else {
                        assert(j >= 1);
                        assert(st2.idx[cur] == 1);
                        assert(st2.fps[cur] as int == f);
                        assert(frame_can_reach(st2, g, cur));
                    }
                } else {
                    // whether the step advances or backs off, frame i
                    // and the cells before it are untouched
                    let i = choose|i: int| 0 <= i < cur && #[trigger] frame_can_reach(st, g, i);
                    assert(st2.fps[i] == st.fps[i] && st2.idx[i] == st.idx[i]);
                    assert(grid_agrees(g, st2.grid, i));
                    lemma_frame_reach_stable(st, st2, g, i);
                }
            } else {
                let cands = candidates(st.fps[cur] as int);
                lemma_candidates_len(st.fps[cur] as int);
                let i = choose|i: int| 0 <= i <= cur && #[trigger] frame_can_reach(st, g, i);
                if st.idx[cur] == cands.len() {
                    assert(i < cur);
                    assert(st2.fps[i] == st.fps[i] && st2.idx[i] == st.idx[i]);
                    assert(grid_agrees(g, st2.grid, i));
                    lemma_frame_reach_stable(st, st2, g, i);
                } else {
                    if i < cur {
                        assert(st2.fps[i] == st.fps[i] && st2.idx[i] == st.idx[i]);
                        assert(grid_agrees(g, st2.grid, i));
                        lemma_frame_reach_stable(st, st2, g, i);
                    } else {
                        let j = choose|j: int|
                            st.idx[cur] <= j < cands.len() && candidates(st.fps[cur] as int)[j]
                                == g[cur];
                        assert(grid_agrees(g, st2.grid, cur));
                        if j == st.idx[cur] {
                            assert(st2.grid[cur] == g[cur]);
                            assert(grid_agrees(g, st2.grid, cur + 1));
                            if cur == n - 1 {
                                assert(g =~= st2.grid);
                            }
                        } else {
                            assert(st2.idx[cur] == st.idx[cur] + 1);
                            assert(st2.idx[cur] <= j);
                            assert(st2.fps[cur] == st.fps[cur]);
                            assert(frame_can_reach(st2, g, cur));
                        }
                    }
                }
            }
            assert(solution_ahead(st2, s, g));
            lemma_run_complete(st2, s, trim, row_loop, g);
            let k = choose|k: int| 0 <= k < rest.len() && rest[k] == hex_line(g);
            assert(out[e.len() + k] == hex_line(g));
            assert(out.contains(hex_line(g)));
        }
    }
}

/// Completeness of the whole enumeration: every fully assigned grid that
/// satisfies the adjacency constraints and that the configured filters
/// accept appears in the emitted output.
pub proof fn lemma_emits_every_accepted_solution(
    s: int,
    trim: Option<usize>,
    row_loop: bool,
    g: Seq<u8>,
)
    requires
        1 <= s,
        full_grid(g, s),
        grid_valid(g, s),
        accepted(g, s, trim, row_loop),
    ensures
        generated_lines(s, trim, row_loop).contains(hex_line(g)),
{
    lemma_init_wf(s);
    lemma_run_complete(init_state(s), s, trim, row_loop, g);
}

/// Filter independence, the completeness half: with both filters
/// disabled, every constraint-satisfying full assignment is emitted.
pub proof fn lemma_unfiltered_emits_every_solution(s: int, g: Seq<u8>)
    requires
        1 <= s,
        full_grid(g, s),
        grid_valid(g, s),
    ensures
        generated_lines(s, None, false).contains(hex_line(g)),
{
    lemma_emits_every_accepted_solution(s, None, false, g);
}

// --- Exactly-once: no line is emitted twice ----------------------------

/// The first `p` bytes of `l` agree with `h`.
pub open spec fn line_agrees(l: Seq<u8>, h: Seq<u8>, p: int) -> bool {
    forall|j: int| 0 <= j < p ==> l[j] == h[j]
}

/// `l` exceeds `h` at some position before `m`, agreeing with it before
/// that position: `l` comes lexicographically after `h`.
pub open spec fn line_above(l: Seq<u8>, h: Seq<u8>, m: int) -> bool {
    exists|p: int|
        0 <= p < m && p < l.len() && p < h.len() && #[trigger] line_agrees(l, h, p) && l[p] > h[p]
}

/// How a line still to be emitted relates to the state's own grid,
/// serialized with its unassigned cells as sentinel digits: in forward
/// mode the line completes the committed prefix or exceeds it; in
/// backward mode it is the grid itself (the visit being processed) or
/// exceeds the committed prefix, the cursor's cell included.
pub open spec fn future_line(st: SearchState, l: Seq<u8>) -> bool {
    if st.rightward {
        line_agrees(l, hex_line(st.grid), st.cur) || line_above(l, hex_line(st.grid), st.cur)
    } else {
        l == hex_line(st.grid) || line_above(l, hex_line(st.grid), st.cur + 1)
    }
}

/// Whatever one transition does to the grid, a line emitted afterwards
/// still completes or exceeds the earlier state's committed prefix; and
/// once a state's own full assignment has been processed, every later
/// line strictly exceeds it somewhere — the same line never comes back.
proof fn lemma_future_line_lift(st: SearchState, s: int, l: Seq<u8>)
    requires
        st_wf(st, s),
        !st_done(st, s),
        future_line(step(st, s), l),
        line_wf(l, s),
    ensures
        st.rightward ==> future_line(st, l),
        !st.rightward ==> line_above(l, hex_line(st.grid), st.cur + 1),
{
    let n = s * s;
    let st2 = step(st, s);
    let hl = hex_line(st.grid);
    let hl2 = hex_line(st2.grid);
    let cur = st.cur;
    assert(hl.len() == n && l.len() == n);
    if st.rightward {
        let f = fingerprint(st.grid, s, cur);
        let cands = candidates(f);
        if cands.len() == 0 {
            // the grid is untouched: the claims transfer directly
            assert(hl2 == hl);
            if l == hl {
                assert(line_agrees(l, hl, cur));
            }
        } else {
            let v = cands[0];
            lemma_table_total(f, 0);
            assert(hl2 =~= hl.update(cur, hex_byte(v)));
            if st.cur == n - 1 {
                if l == hl2 {
                    assert(line_agrees(l, hl, cur));
                } else {
                    let p = choose|p: int|
                        0 <= p < n && p < l.len() && p < hl2.len() && #[trigger] line_agrees(
                            l,
                            hl2,
                            p,
                        ) && l[p] > hl2[p];
                    if p < cur {
                        assert(line_agrees(l, hl, p));
                        assert(l[p] > hl[p]);
                        assert(line_above(l, hl, cur));
                    } else {
                        assert(line_agrees(l, hl, cur));
                    }
                }
            } else {
                if line_agrees(l, hl2, cur + 1) {
                    assert(line_agrees(l, hl, cur));
                } else {
                    let p = choose|p: int|
                        0 <= p < cur + 1 && p < l.len() && p < hl2.len() && #[trigger] line_agrees(
                            l,
                            hl2,
                            p,
                        ) && l[p] > hl2[p];
                    if p < cur {
                        assert(line_agrees(l, hl, p));
                        assert(line_above(l, hl, cur));
                    } else {
                        assert(line_agrees(l, hl, cur));
                    }
                }
            }
        }
    } else {
        let cands = candidates(st.fps[cur] as int);
        lemma_candidates_len(st.fps[cur] as int);
        if st.idx[cur] == cands.len() {
            // the cursor's cell is reset to the sentinel and the cursor
            // retreats: later lines exceed the shortened prefix, and the
            // sentinel digit rules out the serialized grid itself
            assert(cur >= 1);
            assert(hl2 =~= hl.update(cur, hex_byte(11)));
            assert(hl2[cur] == 98);
            assert(l[cur] <= 97);
            assert(l != hl2);
            let p = choose|p: int|
                0 <= p < cur && p < l.len() && p < hl2.len() && #[trigger] line_agrees(l, hl2, p)
                    && l[p] > hl2[p];
            assert(line_agrees(l, hl, p));
            assert(l[p] > hl[p]);
            assert(line_above(l, hl, cur + 1));
        } else {
            // the cursor's cell moves on to its next, strictly larger
            // candidate: later lines exceed the old grid at or before it
            let v = cands[st.idx[cur] as int];
            let w = st.grid[cur];
            lemma_table_total(st.fps[cur] as int, st.idx[cur] as int);
            lemma_table_total(st.fps[cur] as int, st.idx[cur] - 1);
            lemma_candidates_sorted(st.fps[cur] as int);
            assert(w == cands[st.idx[cur] - 1]);
            assert(w < v);
            assert(hex_byte(w) < hex_byte(v));
            assert(hl2 =~= hl.update(cur, hex_byte(v)));
            if cur < n - 1 {
                if line_agrees(l, hl2, cur + 1) {
                    assert(line_agrees(l, hl, cur));
                    assert(l[cur] == hl2[cur] > hl[cur]);
                    assert(line_above(l, hl, cur + 1));
                } else {
                    let p = choose|p: int|
                        0 <= p < cur + 1 && p < l.len() && p < hl2.len() && #[trigger] line_agrees(
                            l,
                            hl2,
                            p,
                        ) && l[p] > hl2[p];
                    assert(line_agrees(l, hl, p));
                    if p < cur {
                        assert(l[p] > hl[p]);
                    } else {
                        assert(l[p] > hl2[cur] > hl[p]);
                    }
                    assert(line_above(l, hl, cur + 1));
                }
            } else {
                if l == hl2 {
                    assert(line_agrees(l, hl, cur));
                    assert(l[cur] == hl2[cur] > hl[cur]);
                    assert(line_above(l, hl, cur + 1));
                } else {
                    let p = choose|p: int|
                        0 <= p < n && p < l.len() && p < hl2.len() && #[trigger] line_agrees(
                            l,
                            hl2,
                            p,
                        ) && l[p] > hl2[p];
                    assert(line_agrees(l, hl, p));
                    if p < cur {
                        assert(l[p] > hl[p]);
                    } else {
                        assert(p == cur);
                        assert(l[p] > hl2[cur] > hl[p]);
                    }
                    assert(line_above(l, hl, cur + 1));
                }
            }
        }
    }
}

proof fn lemma_run_lines_distinct(st: SearchState, s: int, trim: Option<usize>, row_loop: bool)
    requires
        st_wf(st, s),
    ensures
        forall|k1: int, k2: int|
            0 <= k1 < k2 < run(st, s, trim, row_loop).0.len() ==> #[trigger] run(
                st,
                s,
                trim,
                row_loop,
            ).0[k1] != #[trigger] run(st, s, trim, row_loop).0[k2],
        forall|k: int|
            0 <= k < run(st, s, trim, row_loop).0.len() ==> future_line(
                st,
                #[trigger] run(st, s, trim, row_loop).0[k],
            ),
    decreases phi(st, s),
{
    let n = s * s;
    let out = run(st, s, trim, row_loop).0;
    let hl = hex_line(st.grid);
    let e = emits(st, s, trim, row_loop);
    if st_done(st, s) {
        assert forall|k: int| 0 <= k < out.len() implies future_line(st, out[k]) by {
            assert(out[k] == hl);
        }
    } else {
        lemma_step_preserves(st, s);
        let st2 = step(st, s);
        lemma_run_lines_distinct(st2, s, trim, row_loop);
        lemma_run_lines_wf(st2, s, trim, row_loop);
        let rest = run(st2, s, trim, row_loop).0;
        assert forall|k: int| 0 <= k < out.len() implies future_line(st, out[k]) by {
            if k < e.len() {
                assert(out[k] == hl);
            } else {
                assert(out[k] == rest[k - e.len()]);
                lemma_future_line_lift(st, s, rest[k - e.len()]);
            }
        }
        assert forall|k1: int, k2: int| 0 <= k1 < k2 < out.len() implies out[k1] != out[k2] by {
            if k1 >= e.len() {
                assert(out[k1] == rest[k1 - e.len()]);
                assert(out[k2] == rest[k2 - e.len()]);
            } else {
                assert(out[k1] == hl);
                assert(out[k2] == rest[k2 - e.len()]);
                let l = rest[k2 - e.len()];
                lemma_future_line_lift(st, s, l);
                assert(line_above(l, hl, st.cur + 1));
                let p = choose|p: int|
                    0 <= p < st.cur + 1 && p < l.len() && p < hl.len() && #[trigger] line_agrees(
                        l,
                        hl,
                        p,
                    ) && l[p] > hl[p];
                assert(l[p] != hl[p]);
            }
        }
    }
}

/// Exactly-once: the enumeration never emits the same line twice, for
/// any side length and any filter configuration.
pub proof fn lemma_emitted_lines_distinct(
    s: int,
    trim: Option<usize>,
    row_loop: bool,
    k1: int,
    k2: int,
)
    requires
        1 <= s,
        0 <= k1 < k2 < generated_lines(s, trim, row_loop).len(),
    ensures
        generated_lines(s, trim, row_loop)[k1] != generated_lines(s, trim, row_loop)[k2],
{
    lemma_init_wf(s);
    lemma_run_lines_distinct(init_state(s), s, trim, row_loop);
}

/// Filter independence: with both completion filters disabled the
/// traversal emits one line for every fully assigned grid it visits —
/// no omissions and no extra emissions.
pub proof fn lemma_filters_off_emit_all(st: SearchState, s: int)
    requires
        st_wf(st, s),
    ensures
        run(st, s, None, false).0.len() == run(st, s, None, false).1,
        run(st, s, None, false).1 >= 0,
    decreases phi(st, s),
{
    if !st_done(st, s) {
        lemma_step_preserves(st, s);
        lemma_filters_off_emit_all(step(st, s), s);
    }
}

/// Filter independence over a whole enumeration: with both filters
/// disabled the number of emitted lines equals the number of fully
/// assigned grids the backtracking machine visits.
pub proof fn lemma_generate_unfiltered_counts(s: int)
    requires
        1 <= s,
    ensures
        generated_lines(s, None, false).len() == generated_visits(s, None, false),
{
    lemma_init_wf(s);
    lemma_filters_off_emit_all(init_state(s), s);
}

} // verus!
