//! The hexagonal tessellation: a brick-wall layout of six-neighbour cells on
//! a rectangular index array, where odd columns shift their diagonal
//! neighbours down by one row.

use vstd::prelude::*;

use crate::grid::{AbstractCell, AbstractGrid, RectangularGrid};
use crate::rectangle::{
    cells_wf, fresh_cells, lemma_bounded_set_finite, lemma_cells_coords, lemma_cells_index,
    link_cells, Cell,
};

verus! {

/// The rows reachable diagonally when stepping one column east from a cell
/// in column `c`, row `r`: the column's parity decides whether the pair sits
/// level or shifted down.
pub open spec fn hex_diag(c: int, r: int, rr: int) -> bool {
    if c % 2 == 0 {
        rr == r - 1 || rr == r
    } else {
        rr == r || rr == r + 1
    }
}

/// Spatial adjacency of the hexagonal tessellation: vertically adjacent in
/// the same column, or one column apart on a diagonal row pair.
pub open spec fn hex_adj(r1: int, c1: int, r2: int, c2: int) -> bool {
    ||| (c1 == c2 && (r1 == r2 + 1 || r2 == r1 + 1))
    ||| (c2 == c1 + 1 && hex_diag(c1, r1, r2))
    ||| (c1 == c2 + 1 && hex_diag(c2, r2, r1))
}

/// A `height` x `width` grid of six-neighbour hexagonal cells in row-major
/// order.
#[derive(Clone, Debug)]
pub struct HexagonalGrid {
    pub height: usize,
    pub width: usize,
    pub cells: Vec<Cell>,
}

impl HexagonalGrid {
    /// The spatial adjacency of this grid, over indices.
    pub open spec fn adj_at(&self, i: int, j: int) -> bool {
        0 <= i < self.cells@.len() && 0 <= j < self.cells@.len()
            && hex_adj(self.cells@[i].row_of(), self.cells@[i].col_of(),
                self.cells@[j].row_of(), self.cells@[j].col_of())
    }

    /// A fresh grid of `rows` rows and `cols` columns with every passage
    /// closed.
    pub fn new(rows: usize, cols: usize) -> (g: HexagonalGrid)
        ensures
            g.wf(),
            g.size() == rows as int * cols as int,
            g.width as int == cols as int,
            g.height as int == rows as int,
            forall|i: int| g.links_of(i) == Set::<int>::empty(),
    {
        let gridarr = fresh_cells(rows, cols);
        let g = HexagonalGrid { width: cols, height: rows, cells: gridarr };
        proof {
            assert(g.wf());
            assert forall|t: int| g.links_of(t) == Set::<int>::empty() by {
                if 0 <= t < g.size() {
                    assert(g.cells@[t].links_set() == Set::<int>::empty());
                }
            }
        }
        g
    }

    /// Looks up the cell at the given coordinates when they are on the grid,
    /// and proves its adjacency to `ix` when the coordinates are adjacent.
    fn lookup(&self, ix: usize, rr: usize, ok: bool, cc: usize) -> (res: Option<usize>)
        requires
            self.wf(),
            (ix as int) < self.size(),
        ensures
            res is Some ==> (res.unwrap() as int) < self.size()
                && ok
                && self.cells@[res.unwrap() as int].row_of() == rr as int
                && self.cells@[res.unwrap() as int].col_of() == cc as int,
            (ok && (rr as int) < self.height as int && (cc as int) < self.width as int)
                ==> res is Some,
    {
        if ok && rr < self.height && cc < self.width {
            proof {
                lemma_cells_index(self.cells@, self.width as int, self.height as int,
                    |r1: int, c1: int, r2: int, c2: int| hex_adj(r1, c1, r2, c2),
                    rr as int, cc as int);
            }
            let total = self.cells.len();
            proof {
                assert((rr as int * self.width as int + cc as int) < (total as int));
            }
            Option::Some(cc + rr * self.width)
        } else {
            Option::None
        }
    }

}

impl AbstractGrid<Cell> for HexagonalGrid {
    open spec fn size(&self) -> int {
        self.cells@.len() as int
    }

    open spec fn neighbours_of(&self, i: int) -> Set<int> {
        Set::new(|j: int| self.adj_at(i, j))
    }

    open spec fn links_of(&self, i: int) -> Set<int> {
        if 0 <= i < self.cells@.len() {
            self.cells@[i].links_set()
        } else {
            Set::<int>::empty()
        }
    }

    open spec fn row_at(&self, i: int) -> int {
        if 0 <= i < self.cells@.len() {
            self.cells@[i].row_of()
        } else {
            0
        }
    }

    open spec fn col_at(&self, i: int) -> int {
        if 0 <= i < self.cells@.len() {
            self.cells@[i].col_of()
        } else {
            0
        }
    }

    open spec fn wf(&self) -> bool {
        cells_wf(self.cells@, self.width as int, self.height as int,
            |r1: int, c1: int, r2: int, c2: int| hex_adj(r1, c1, r2, c2))
    }

    proof fn lemma_wf(&self) {
        assert forall|i: int| (#[trigger] self.neighbours_of(i)).finite() by {
            lemma_bounded_set_finite(self.neighbours_of(i), self.size());
        }
        assert forall|i: int| (#[trigger] self.links_of(i)).finite() by {
            if 0 <= i < self.size() {
                self.cells@[i].lemma_inv();
            } else {
                assert(self.links_of(i) =~= Set::<int>::empty());
            }
        }
    }

    fn len(&self) -> (n: usize) {
        self.cells.len()
    }

    #[verifier::rlimit(100)]
    fn neighbours(&self, ix: usize) -> (v: Vec<usize>) {
        proof {
            lemma_cells_coords(self.cells@, self.width as int, self.height as int,
                |r1: int, c1: int, r2: int, c2: int| hex_adj(r1, c1, r2, c2), ix as int);
        }
        let row = self.cells[ix].row;
        let col = self.cells[ix].col;
        let even = col % 2 == 0;
        let dn: Option<usize> = if row >= 1 {
            self.lookup(ix, row - 1, true, col)
        } else {
            Option::None
        };
        let ds: Option<usize> = self.lookup(ix, row + 1, true, col);
        let dne: Option<usize> = if even {
            if row >= 1 {
                self.lookup(ix, row - 1, true, col + 1)
            } else {
                Option::None
            }
        } else {
            self.lookup(ix, row, true, col + 1)
        };
        let dse: Option<usize> = if even {
            self.lookup(ix, row, true, col + 1)
        } else {
            self.lookup(ix, row + 1, true, col + 1)
        };
        let dnw: Option<usize> = if col >= 1 {
            if even {
                if row >= 1 {
                    self.lookup(ix, row - 1, true, col - 1)
                } else {
                    Option::None
                }
            } else {
                self.lookup(ix, row, true, col - 1)
            }
        } else {
            Option::None
        };
        let dsw: Option<usize> = if col >= 1 {
            if even {
                self.lookup(ix, row, true, col - 1)
            } else {
                self.lookup(ix, row + 1, true, col - 1)
            }
        } else {
            Option::None
        };
        let mut v: Vec<usize> = Vec::new();
        let ghost mut kn: int = -1;
        let ghost mut ks: int = -1;
        let ghost mut kne: int = -1;
        let ghost mut kse: int = -1;
        let ghost mut knw: int = -1;
        let ghost mut ksw: int = -1;
        match dn {
            Option::Some(t) => {
                proof { kn = v@.len() as int; }
                proof { assert(self.adj_at(ix as int, t as int)); }
                v.push(t);
            },
            Option::None => {},
        }
        match ds {
            Option::Some(t) => {
                proof { ks = v@.len() as int; }
                proof { assert(self.adj_at(ix as int, t as int)); }
                v.push(t);
            },
            Option::None => {},
        }
        match dne {
            Option::Some(t) => {
                proof { kne = v@.len() as int; }
                proof { assert(self.adj_at(ix as int, t as int)); }
                v.push(t);
            },
            Option::None => {},
        }
        match dse {
            Option::Some(t) => {
                proof { kse = v@.len() as int; }
                proof { assert(self.adj_at(ix as int, t as int)); }
                v.push(t);
            },
            Option::None => {},
        }
        match dnw {
            Option::Some(t) => {
                proof { knw = v@.len() as int; }
                proof { assert(self.adj_at(ix as int, t as int)); }
                v.push(t);
            },
            Option::None => {},
        }
        match dsw {
            Option::Some(t) => {
                proof { ksw = v@.len() as int; }
                proof { assert(self.adj_at(ix as int, t as int)); }
                v.push(t);
            },
            Option::None => {},
        }
        proof {
            let w = self.width as int;
            let h = self.height as int;
            let ri = row as int;
            let ci = col as int;
            assert forall|j: int| #[trigger] self.neighbours_of(ix as int).contains(j)
                implies exists|k: int| 0 <= k < v@.len() && v@[k] as int == j by {
                lemma_cells_coords(self.cells@, w, h,
                    |r1: int, c1: int, r2: int, c2: int| hex_adj(r1, c1, r2, c2), j);
                let rj = self.cells@[j].row_of();
                let cj = self.cells@[j].col_of();
                assert(j == rj * w + cj);
                if ci == cj && ri == rj + 1 {
                    assert(dn is Some && dn.unwrap() as int == j);
                    assert(0 <= kn < v@.len() && v@[kn] as int == j);
                } else if ci == cj && rj == ri + 1 {
                    assert(ds is Some && ds.unwrap() as int == j);
                    assert(0 <= ks < v@.len() && v@[ks] as int == j);
                } else if cj == ci + 1 {
                    if rj == (if ci % 2 == 0 { ri - 1 } else { ri }) {
                        assert(dne is Some && dne.unwrap() as int == j);
                        assert(0 <= kne < v@.len() && v@[kne] as int == j);
                    } else {
                        assert(rj == (if ci % 2 == 0 { ri } else { ri + 1 }));
                        assert(dse is Some && dse.unwrap() as int == j);
                        assert(0 <= kse < v@.len() && v@[kse] as int == j);
                    }
                } else {
                    assert(ci == cj + 1 && hex_diag(cj, rj, ri));
                    if rj == (if ci % 2 == 0 { ri - 1 } else { ri }) {
                        assert(dnw is Some && dnw.unwrap() as int == j);
                        assert(0 <= knw < v@.len() && v@[knw] as int == j);
                    } else {
                        assert(rj == (if ci % 2 == 0 { ri } else { ri + 1 }));
                        assert(dsw is Some && dsw.unwrap() as int == j);
                        assert(0 <= ksw < v@.len() && v@[ksw] as int == j);
                    }
                }
            }
            // the six directions land on six different cells: their
            // coordinate pairs are pairwise distinct
            let cs = self.cells@;
            assert(dn is Some ==> cs[dn.unwrap() as int].row_of() == row as int - 1
                && cs[dn.unwrap() as int].col_of() == col as int);
            assert(ds is Some ==> cs[ds.unwrap() as int].row_of() == row as int + 1
                && cs[ds.unwrap() as int].col_of() == col as int);
            assert(dne is Some ==> cs[dne.unwrap() as int].col_of() == col as int + 1);
            assert(dse is Some ==> cs[dse.unwrap() as int].col_of() == col as int + 1);
            assert(dnw is Some ==> cs[dnw.unwrap() as int].col_of() == col as int - 1);
            assert(dsw is Some ==> cs[dsw.unwrap() as int].col_of() == col as int - 1);
            assert(dne is Some && dse is Some
                ==> cs[dne.unwrap() as int].row_of() + 1 == cs[dse.unwrap() as int].row_of());
            assert(dnw is Some && dsw is Some
                ==> cs[dnw.unwrap() as int].row_of() + 1 == cs[dsw.unwrap() as int].row_of());
            assert(v@.no_duplicates());
        }
        v
    }

    fn links(&self, ix: usize) -> (v: Vec<usize>) {
        proof {
            lemma_cells_coords(self.cells@, self.width as int, self.height as int,
                |r1: int, c1: int, r2: int, c2: int| hex_adj(r1, c1, r2, c2), ix as int);
        }
        self.cells[ix].links()
    }

    fn cell(&self, ix: usize) -> (c: &Cell) {
        proof {
            lemma_cells_coords(self.cells@, self.width as int, self.height as int,
                |r1: int, c1: int, r2: int, c2: int| hex_adj(r1, c1, r2, c2), ix as int);
        }
        &self.cells[ix]
    }

    fn link(&mut self, ix1: usize, ix2: usize) {
        proof {
            lemma_cells_coords(self.cells@, self.width as int, self.height as int,
                |r1: int, c1: int, r2: int, c2: int| hex_adj(r1, c1, r2, c2), ix1 as int);
            lemma_cells_coords(self.cells@, self.width as int, self.height as int,
                |r1: int, c1: int, r2: int, c2: int| hex_adj(r1, c1, r2, c2), ix2 as int);
            assert(ix1 != ix2);
        }
        link_cells(&mut self.cells, ix1, ix2);
        proof {
            assert forall|i: int| #[trigger] self.neighbours_of(i) == old(self).neighbours_of(i) by {
                assert(self.neighbours_of(i) =~= old(self).neighbours_of(i));
            }
        }
    }
}

impl RectangularGrid<Cell> for HexagonalGrid {
    open spec fn width_of(&self) -> int {
        self.width as int
    }

    open spec fn height_of(&self) -> int {
        self.height as int
    }

    proof fn lemma_dims(&self) {
    }

    fn width(&self) -> (w: usize) {
        self.width
    }

    fn height(&self) -> (h: usize) {
        self.height
    }

    fn ix(&self, row: usize, col: usize) -> (r: usize) {
        proof {
            lemma_cells_index(self.cells@, self.width as int, self.height as int,
                |r1: int, c1: int, r2: int, c2: int| hex_adj(r1, c1, r2, c2),
                row as int, col as int);
        }
        let total = self.cells.len();
        proof {
            assert((row as int * self.width as int + col as int) < (total as int));
        }
        col + row * self.width
    }

    fn ix_opt(&self, row: usize, col: usize) -> (r: Option<usize>) {
        if row >= self.height || col >= self.width {
            return Option::None;
        }
        Option::Some(self.ix(row, col))
    }
}

} // verus!
