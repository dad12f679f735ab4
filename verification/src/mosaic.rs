//! The mosaic grid: a size×size array of tile identifiers in row-major
//! order, with neighbor lookups under a deliberately asymmetric boundary
//! policy.  Right/left lookups wrap cyclically around the row (cylindrical
//! topology); up/down lookups do not wrap, an out-of-grid vertical neighbor
//! reading as an imaginary non-connecting tile (identifier 0).  A fully
//! wrapping (toric) vertical lookup is offered as an alternate mode.

use vstd::prelude::*;

verus! {

/// The linear index of cell `(x, y)` in a grid of side `s`.
pub open spec fn cell_index(s: int, x: int, y: int) -> int {
    y * s + x
}

/// The tile to the right of `(x, y)`, wrapping around the row.
pub open spec fn right_neighbor(g: Seq<u8>, s: int, x: int, y: int) -> int {
    g[cell_index(s, (x + 1) % s, y)] as int
}

/// The tile to the left of `(x, y)`, wrapping around the row.
pub open spec fn left_neighbor(g: Seq<u8>, s: int, x: int, y: int) -> int {
    g[cell_index(s, (x + s - 1) % s, y)] as int
}

/// The tile above `(x, y)`; the first row sees a non-connecting tile.
pub open spec fn up_neighbor(g: Seq<u8>, s: int, x: int, y: int) -> int {
    if y == 0 {
        0
    } else {
        g[cell_index(s, x, y - 1)] as int
    }
}

/// The tile below `(x, y)`; the last row sees a non-connecting tile.
pub open spec fn down_neighbor(g: Seq<u8>, s: int, x: int, y: int) -> int {
    if y + 1 == s {
        0
    } else {
        g[cell_index(s, x, y + 1)] as int
    }
}

/// The tile above `(x, y)` on a torus: the first row wraps to the last.
pub open spec fn up_neighbor_toric(g: Seq<u8>, s: int, x: int, y: int) -> int {
    if y == 0 {
        g[cell_index(s, x, s - 1)] as int
    } else {
        g[cell_index(s, x, y - 1)] as int
    }
}

/// The tile below `(x, y)` on a torus: the last row wraps to the first.
pub open spec fn down_neighbor_toric(g: Seq<u8>, s: int, x: int, y: int) -> int {
    if y + 1 == s {
        g[cell_index(s, x, 0)] as int
    } else {
        g[cell_index(s, x, y + 1)] as int
    }
}

/// The number of cells of `g` holding a tile identifier above 9.  On a
/// fully assigned grid this counts exactly the cells holding tile 10.
/// The predicate is deliberately this narrow — keyed to the single
/// identifier 10 rather than the whole crossing-tile group 7..=10 — and
/// load-bearing for which grids the threshold filter discards.
pub open spec fn crossing_count_upto(g: Seq<u8>, n: int) -> int
    decreases n,
{
    if n <= 0 {
        0
    } else {
        crossing_count_upto(g, n - 1) + if g[n - 1] > 9 {
            1int
        } else {
            0int
        }
    }
}

/// The crossing count of a whole grid.
pub open spec fn crossing_count(g: Seq<u8>) -> int {
    crossing_count_upto(g, g.len() as int)
}

/// A cell being in range of a square grid, in linear terms.
pub proof fn lemma_cell_index_in_range(s: int, x: int, y: int) by (nonlinear_arith)
    requires
        0 <= x < s,
        0 <= y < s,
    ensures
        0 <= cell_index(s, x, y) < s * s,
        cell_index(s, x, y) == y * s + x,
{
}

/// The mutable square grid of tile identifiers, row-major, created once
/// per run and mutated in place for the whole enumeration.
pub struct Mosaic {
    data: Vec<u8>,
    size: usize,
}

impl Mosaic {
    /// The grid contents as a sequence, row-major.
    pub closed spec fn grid(&self) -> Seq<u8> {
        self.data@
    }

    /// The side length.
    pub closed spec fn side(&self) -> nat {
        self.size as nat
    }

    /// The grid holds exactly side × side cells.
    pub open spec fn wf(&self) -> bool {
        self.grid().len() == self.side() * self.side()
    }

    /// The side length.
    pub fn side_len(&self) -> (s: usize)
        ensures
            s == self.side(),
    {
        self.size
    }

    /// The number of cells.
    pub fn cell_count(&self) -> (n: usize)
        ensures
            n == self.grid().len(),
    {
        self.data.len()
    }

    /// A fresh grid with every cell unassigned.
    pub fn new(size: usize) -> (m: Mosaic)
        requires
            size * size <= usize::MAX,
        ensures
            m.wf(),
            m.side() == size,
            forall|i: int| 0 <= i < m.grid().len() ==> m.grid()[i] == 11,
    {
        Mosaic { data: vec![11u8; size * size], size }
    }

    /// The tile at `(x, y)`.
    pub fn get(&self, x: usize, y: usize) -> (t: u8)
        requires
            self.wf(),
            x < self.side(),
            y < self.side(),
        ensures
            t == self.grid()[cell_index(self.side() as int, x as int, y as int)],
    {
        proof {
            lemma_cell_index_in_range(self.side() as int, x as int, y as int);
        }
        let n = self.data.len();
        self.data[y * self.size + x]
    }

    /// The tile at linear index `ind`.
    pub fn get_linear(&self, ind: usize) -> (t: u8)
        requires
            ind < self.grid().len(),
        ensures
            t == self.grid()[ind as int],
    {
        self.data[ind]
    }

    /// Put `tile` at `(x, y)`.
    pub fn set(&mut self, x: usize, y: usize, tile: u8)
        requires
            old(self).wf(),
            x < old(self).side(),
            y < old(self).side(),
        ensures
            final(self).grid() == old(self).grid().update(
                cell_index(old(self).side() as int, x as int, y as int),
                tile,
            ),
            final(self).side() == old(self).side(),
            final(self).wf(),
    {
        proof {
            lemma_cell_index_in_range(self.side() as int, x as int, y as int);
        }
        let n = self.data.len();
        self.data.set(y * self.size + x, tile);
    }

    /// Put `tile` at linear index `ind`.
    pub fn set_linear(&mut self, ind: usize, tile: u8)
        requires
            ind < old(self).grid().len(),
        ensures
            final(self).grid() == old(self).grid().update(ind as int, tile),
            final(self).side() == old(self).side(),
            final(self).wf() == old(self).wf(),
    {
        self.data.set(ind, tile);
    }

    /// The number of cells holding a tile identifier above 9.
    pub fn crossing_ct(&self) -> (ct: usize)
        ensures
            ct == crossing_count(self.grid()),
    {
        let mut ct: usize = 0;
        let mut i: usize = 0;
        let n = self.data.len();
        while i < n
            invariant
                i <= n,
                n == self.grid().len(),
                ct == crossing_count_upto(self.grid(), i as int),
                ct <= i,
            decreases n - i,
        {
            if self.data[i] > 9 {
                ct = ct + 1;
            }
            i = i + 1;
        }
        ct
    }

    /// The right neighbor's tile, wrapping around the row.
    pub fn right_tile(&self, x: usize, y: usize) -> (t: u8)
        requires
            self.wf(),
            x < self.side(),
            y < self.side(),
        ensures
            t as int == right_neighbor(self.grid(), self.side() as int, x as int, y as int),
    {
        let nx = (x + 1) % self.size;
        self.get(nx, y)
    }

    /// The left neighbor's tile, wrapping around the row.
    pub fn left_tile(&self, x: usize, y: usize) -> (t: u8)
        requires
            self.wf(),
            x < self.side(),
            y < self.side(),
        ensures
            t as int == left_neighbor(self.grid(), self.side() as int, x as int, y as int),
    {
        let n = self.data.len();
        proof {
            assert(x + self.size <= usize::MAX && x + self.size - 1 <= n) by (nonlinear_arith)
                requires
                    x < self.size,
                    1 <= self.size,
                    n == self.side() * self.side(),
            ;
        }
        let nx = (x + self.size - 1) % self.size;
        self.get(nx, y)
    }

    /// The tile above, the first row reading a non-connecting tile.
    pub fn up_tile(&self, x: usize, y: usize) -> (t: u8)
        requires
            self.wf(),
            x < self.side(),
            y < self.side(),
        ensures
            t as int == up_neighbor(self.grid(), self.side() as int, x as int, y as int),
    {
        match y {
            0 => 0,
            _ => self.get(x, y - 1),
        }
    }

    /// The tile below, the last row reading a non-connecting tile.
    pub fn down_tile(&self, x: usize, y: usize) -> (t: u8)
        requires
            self.wf(),
            x < self.side(),
            y < self.side(),
        ensures
            t as int == down_neighbor(self.grid(), self.side() as int, x as int, y as int),
    {
        if y + 1 == self.size {
            0
        } else {
            self.get(x, y + 1)
        }
    }

    /// The tile above on a torus: the first row wraps to the last.
    pub fn up_tile_toric(&self, x: usize, y: usize) -> (t: u8)
        requires
            self.wf(),
            x < self.side(),
            y < self.side(),
        ensures
            t as int == up_neighbor_toric(self.grid(), self.side() as int, x as int, y as int),
    {
        match y {
            0 => self.get(x, self.size - 1),
            _ => self.get(x, y - 1),
        }
    }

    /// The tile below on a torus: the last row wraps to the first.
    pub fn down_tile_toric(&self, x: usize, y: usize) -> (t: u8)
        requires
            self.wf(),
            x < self.side(),
            y < self.side(),
        ensures
            t as int == down_neighbor_toric(self.grid(), self.side() as int, x as int, y as int),
    {
        if y + 1 == self.size {
            self.get(x, 0)
        } else {
            self.get(x, y + 1)
        }
    }
}

} // verus!
