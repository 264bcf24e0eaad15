//! The validated ridge-map container: a rectangular binary grid of at least
//! 3x3 with checked pixel access. Neighbor access is defined only for
//! interior pixels; everything else answers `OutOfBounds`.

use vstd::prelude::*;
use crate::grid::{
    check_binary, check_dims, get_neighbors, grid_wf, gv, in_interior, nbr, set_cell,
    RidgeMapError,
};

verus! {

/// A rectangular 0/1 pixel grid, at least 3x3, indexed `[row][col]`.
pub struct BinaryRidgeMap {
    cells: Vec<Vec<u8>>,
}

impl BinaryRidgeMap {
    /// The grid held by the map.
    pub closed spec fn grid(&self) -> Seq<Seq<u8>> {
        gv(self.cells@)
    }

    /// The container's invariant: rectangular, binary, at least 3x3.
    pub open spec fn wf(&self) -> bool {
        grid_wf(self.grid())
    }

    /// Validates and wraps a pixel grid; grids smaller than 3x3, with ragged
    /// rows, or with a cell other than 0 and 1 are rejected.
    pub fn new(cells: Vec<Vec<u8>>) -> (r: Result<BinaryRidgeMap, RidgeMapError>)
        ensures
            match r {
                Ok(m) => grid_wf(gv(cells@)) && m.wf() && m.grid() == gv(cells@),
                Err(e) => e == RidgeMapError::InvalidInput && !grid_wf(gv(cells@)),
            },
    {
        if check_dims(&cells) && check_binary(&cells) {
            Ok(BinaryRidgeMap { cells })
        } else {
            Err(RidgeMapError::InvalidInput)
        }
    }

    /// Height and width of the grid.
    pub fn dimensions(&self) -> (d: (usize, usize))
        requires
            self.wf(),
        ensures
            d.0 == self.grid().len(),
            d.1 == self.grid()[0].len(),
    {
        proof {
            assert(self.grid()[0] == self.cells@[0]@);
        }
        (self.cells.len(), self.cells[0].len())
    }

    /// The bit at `(row, col)`, or `OutOfBounds` when the position lies
    /// outside the grid.
    pub fn get(&self, row: usize, col: usize) -> (r: Result<u8, RidgeMapError>)
        requires
            self.wf(),
        ensures
            match r {
                Ok(v) => row < self.grid().len() && col < self.grid()[0].len() && v
                    == self.grid()[row as int][col as int],
                Err(e) => e == RidgeMapError::OutOfBounds && !(row < self.grid().len() && col
                    < self.grid()[0].len()),
            },
    {
        proof {
            assert(self.grid()[0] == self.cells@[0]@);
        }
        if row < self.cells.len() && col < self.cells[0].len() {
            proof {
                assert(self.grid()[row as int] == self.cells@[row as int]@);
                assert(self.grid()[row as int].len() == self.grid()[0].len());
            }
            Ok(self.cells[row][col])
        } else {
            Err(RidgeMapError::OutOfBounds)
        }
    }

    /// Writes `bit` at `(row, col)`, or answers `OutOfBounds` (leaving the
    /// grid unchanged) when the position lies outside the grid.
    pub fn set(&mut self, row: usize, col: usize, bit: u8) -> (r: Result<(), RidgeMapError>)
        requires
            old(self).wf(),
            bit == 0 || bit == 1,
        ensures
            final(self).wf(),
            final(self).grid().len() == old(self).grid().len(),
            match r {
                Ok(u) => row < old(self).grid().len() && col < old(self).grid()[0].len() && forall|
                    ri: int,
                |
                    0 <= ri < old(self).grid().len() ==> #[trigger] final(self).grid()[ri] == (if ri
                        == row as int {
                        old(self).grid()[row as int].update(col as int, bit)
                    } else {
                        old(self).grid()[ri]
                    }),
                Err(e) => e == RidgeMapError::OutOfBounds && !(row < old(self).grid().len() && col
                    < old(self).grid()[0].len()) && final(self).grid() == old(self).grid(),
            },
    {
        proof {
            assert(self.grid()[0] == self.cells@[0]@);
        }
        if row < self.cells.len() && col < self.cells[0].len() {
            proof {
                assert(self.grid()[row as int].len() == self.grid()[0].len());
            }
            set_cell(&mut self.cells, row, col, bit);
            proof {
                let g0 = old(self).grid();
                let g1 = self.grid();
                assert forall|i: int| 0 <= i < g1.len() implies #[trigger] g1[i].len()
                    == g1[0].len() by {
                    assert(g1[0].len() == g0[0].len());
                    assert(g1[i].len() == g0[i].len());
                }
                assert forall|i: int, j: int|
                    0 <= i < g1.len() && 0 <= j < g1[i].len() implies #[trigger] g1[i][j] == 0
                    || g1[i][j] == 1 by {
                    if i == row as int {
                        assert(g1[i] == g0[i].update(col as int, bit));
                    } else {
                        assert(g1[i] == g0[i]);
                    }
                }
            }
            Ok(())
        } else {
            Err(RidgeMapError::OutOfBounds)
        }
    }

    /// The 8 neighbors of interior pixel `(row, col)` clockwise from North:
    /// `[N, NE, E, SE, S, SW, W, NW]`. Border and out-of-range positions
    /// answer `OutOfBounds`: their neighborhood is not defined.
    pub fn neighbors(&self, row: usize, col: usize) -> (r: Result<Vec<u8>, RidgeMapError>)
        requires
            self.wf(),
        ensures
            match r {
                Ok(ns) => in_interior(self.grid(), row as int, col as int) && ns@ == nbr(
                    self.grid(),
                    row as int,
                    col as int,
                ),
                Err(e) => e == RidgeMapError::OutOfBounds && !in_interior(
                    self.grid(),
                    row as int,
                    col as int,
                ),
            },
    {
        proof {
            assert(self.grid()[0] == self.cells@[0]@);
        }
        let h = self.cells.len();
        let w = self.cells[0].len();
        if 1 <= row && row < h - 1 && 1 <= col && col < w - 1 {
            Ok(get_neighbors(&self.cells, row, col))
        } else {
            Err(RidgeMapError::OutOfBounds)
        }
    }

    /// Hands the pixel grid back to the caller.
    pub fn into_cells(self) -> (r: Vec<Vec<u8>>)
        requires
            self.wf(),
        ensures
            gv(r@) == self.grid(),
            grid_wf(gv(r@)),
    {
        self.cells
    }
}

} // verus!
