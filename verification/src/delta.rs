//! The triangular ("delta") tessellation: alternating apex-up and apex-down
//! triangles; every cell has east/west neighbours, an up cell has a south
//! neighbour and a down cell a north neighbour.

use vstd::prelude::*;

use crate::grid::{
    AbstractCell, AbstractGrid, CompassDirections, CompassGrid, RectangularGrid,
};
use crate::rectangle::{
    cells_wf, fresh_cells, lemma_bounded_set_finite, lemma_cells_coords, lemma_cells_index,
    link_cells, Cell,
};

verus! {

/// An apex-up triangle sits where row and column have the same parity.
pub open spec fn delta_up(r: int, c: int) -> bool {
    (r + c) % 2 == 0
}

/// Whether the triangle at the given coordinates points up.
pub fn is_up(row: usize, col: usize) -> (b: bool)
    ensures
        b == delta_up(row as int, col as int),
{
    let b = (row % 2 + col % 2) % 2 == 0;
    proof {
        assert(((row as int % 2 + col as int % 2) % 2 == 0) == ((row as int + col as int) % 2
            == 0)) by (nonlinear_arith)
            requires
                row as int >= 0,
                col as int >= 0;
    }
    b
}

/// Spatial adjacency of the delta tessellation: east/west in the same row,
/// or vertically between an up cell and the down cell below it.
pub open spec fn delta_adj(r1: int, c1: int, r2: int, c2: int) -> bool {
    ||| (r1 == r2 && (c1 == c2 + 1 || c2 == c1 + 1))
    ||| (c1 == c2 && ((delta_up(r1, c1) && r2 == r1 + 1) || (delta_up(r2, c2) && r1 == r2 + 1)))
}

/// A `height` x `width` grid of triangular cells in row-major order.
#[derive(Clone, Debug)]
pub struct DeltaGrid {
    pub height: usize,
    pub width: usize,
    pub cells: Vec<Cell>,
}

impl DeltaGrid {
    /// The spatial adjacency of this grid, over indices.
    pub open spec fn adj_at(&self, i: int, j: int) -> bool {
        0 <= i < self.cells@.len() && 0 <= j < self.cells@.len()
            && delta_adj(self.cells@[i].row_of(), self.cells@[i].col_of(),
                self.cells@[j].row_of(), self.cells@[j].col_of())
    }

    /// A fresh grid of `rows` rows and `cols` columns with every passage
    /// closed.
    pub fn new(rows: usize, cols: usize) -> (g: DeltaGrid)
        ensures
            g.wf(),
            g.size() == rows as int * cols as int,
            g.width as int == cols as int,
            g.height as int == rows as int,
            forall|i: int| g.links_of(i) == Set::<int>::empty(),
    {
        let gridarr = fresh_cells(rows, cols);
        let g = DeltaGrid { width: cols, height: rows, cells: gridarr };
        proof {
            assert(g.wf());
            assert forall|t: int| g.links_of(t) == Set::<int>::empty() by {
                if 0 <= t < g.size() {
                    assert(g.cells@[t].links_set() == Set::<int>::empty());
                }
            }
        }
        g
    }

    pub open spec fn north_at(&self, i: int) -> Option<int> {
        if 0 <= i < self.cells@.len()
            && !delta_up(self.cells@[i].row_of(), self.cells@[i].col_of())
            && self.cells@[i].row_of() >= 1 {
            Option::Some(i - self.width as int)
        } else {
            Option::None
        }
    }

    pub open spec fn east_at(&self, i: int) -> Option<int> {
        if 0 <= i < self.cells@.len() && self.cells@[i].col_of() + 1 < self.width as int {
            Option::Some(i + 1)
        } else {
            Option::None
        }
    }

    pub open spec fn south_at(&self, i: int) -> Option<int> {
        if 0 <= i < self.cells@.len()
            && delta_up(self.cells@[i].row_of(), self.cells@[i].col_of())
            && self.cells@[i].row_of() + 1 < self.height as int {
            Option::Some(i + self.width as int)
        } else {
            Option::None
        }
    }

    pub open spec fn west_at(&self, i: int) -> Option<int> {
        if 0 <= i < self.cells@.len() && self.cells@[i].col_of() >= 1 {
            Option::Some(i - 1)
        } else {
            Option::None
        }
    }

    /// Looks up the cell at the given coordinates when they are on the grid.
    fn lookup(&self, rr: usize, cc: usize) -> (res: Option<usize>)
        requires
            self.wf(),
        ensures
            res is Some ==> (res.unwrap() as int) < self.size()
                && self.cells@[res.unwrap() as int].row_of() == rr as int
                && self.cells@[res.unwrap() as int].col_of() == cc as int,
            ((rr as int) < self.height as int && (cc as int) < self.width as int)
                ==> res is Some,
    {
        if rr < self.height && cc < self.width {
            proof {
                lemma_cells_index(self.cells@, self.width as int, self.height as int,
                    |r1: int, c1: int, r2: int, c2: int| delta_adj(r1, c1, r2, c2),
                    rr as int, cc as int);
            }
            let total = self.cells.len();
            proof {
                assert((rr as int * self.width as int + cc as int) < (total as int));
            }
            Option::Some(cc + rr * self.width)
        } else {
            Option::None
        }
    }
}

impl AbstractGrid<Cell> for DeltaGrid {
    open spec fn size(&self) -> int {
        self.cells@.len() as int
    }

    open spec fn neighbours_of(&self, i: int) -> Set<int> {
        Set::new(|j: int| self.adj_at(i, j))
    }

    open spec fn links_of(&self, i: int) -> Set<int> {
        if 0 <= i < self.cells@.len() {
            self.cells@[i].links_set()
        } else {
            Set::<int>::empty()
        }
    }

    open spec fn row_at(&self, i: int) -> int {
        if 0 <= i < self.cells@.len() {
            self.cells@[i].row_of()
        } else {
            0
        }
    }

    open spec fn col_at(&self, i: int) -> int {
        if 0 <= i < self.cells@.len() {
            self.cells@[i].col_of()
        } else {
            0
        }
    }

    open spec fn wf(&self) -> bool {
        cells_wf(self.cells@, self.width as int, self.height as int,
            |r1: int, c1: int, r2: int, c2: int| delta_adj(r1, c1, r2, c2))
    }

    proof fn lemma_wf(&self) {
        assert forall|i: int| (#[trigger] self.neighbours_of(i)).finite() by {
            lemma_bounded_set_finite(self.neighbours_of(i), self.size());
        }
        assert forall|i: int| (#[trigger] self.links_of(i)).finite() by {
            if 0 <= i < self.size() {
                self.cells@[i].lemma_inv();
            } else {
                assert(self.links_of(i) =~= Set::<int>::empty());
            }
        }
    }

    fn len(&self) -> (n: usize) {
        self.cells.len()
    }

    #[verifier::rlimit(100)]
    fn neighbours(&self, ix: usize) -> (v: Vec<usize>) {
        proof {
            lemma_cells_coords(self.cells@, self.width as int, self.height as int,
                |r1: int, c1: int, r2: int, c2: int| delta_adj(r1, c1, r2, c2), ix as int);
        }
        let n = self.north_lookup(ix);
        let s = self.south_lookup(ix);
        let e = self.east_lookup(ix);
        let w = self.west_lookup(ix);
        let mut v: Vec<usize> = Vec::new();
        let ghost mut kn: int = -1;
        let ghost mut ks: int = -1;
        let ghost mut ke: int = -1;
        let ghost mut kw: int = -1;
        match n {
            Option::Some(t) => {
                proof { kn = v@.len() as int; }
                v.push(t);
            },
            Option::None => {},
        }
        match s {
            Option::Some(t) => {
                proof { ks = v@.len() as int; }
                v.push(t);
            },
            Option::None => {},
        }
        match e {
            Option::Some(t) => {
                proof { ke = v@.len() as int; }
                v.push(t);
            },
            Option::None => {},
        }
        match w {
            Option::Some(t) => {
                proof { kw = v@.len() as int; }
                v.push(t);
            },
            Option::None => {},
        }
        proof {
            let wd = self.width as int;
            let ri = self.cells@[ix as int].row_of();
            let ci = self.cells@[ix as int].col_of();
            assert forall|j: int| #[trigger] self.neighbours_of(ix as int).contains(j)
                implies exists|k: int| 0 <= k < v@.len() && v@[k] as int == j by {
                lemma_cells_coords(self.cells@, wd, self.height as int,
                    |r1: int, c1: int, r2: int, c2: int| delta_adj(r1, c1, r2, c2), j);
                let rj = self.cells@[j].row_of();
                let cj = self.cells@[j].col_of();
                assert(j == rj * wd + cj);
                if ri == rj && cj == ci + 1 {
                    assert(e is Some && e.unwrap() as int == j);
                    assert(0 <= ke < v@.len() && v@[ke] as int == j);
                } else if ri == rj && ci == cj + 1 {
                    assert(w is Some && w.unwrap() as int == j);
                    assert(0 <= kw < v@.len() && v@[kw] as int == j);
                } else if ci == cj && delta_up(ri, ci) && rj == ri + 1 {
                    assert(s is Some && s.unwrap() as int == j);
                    assert(0 <= ks < v@.len() && v@[ks] as int == j);
                } else {
                    assert(ci == cj && delta_up(rj, cj) && ri == rj + 1);
                    assert(n is Some && n.unwrap() as int == j);
                    assert(0 <= kn < v@.len() && v@[kn] as int == j);
                }
            }
            // the four directions land on four different cells
            assert(wd >= 1);
            assert(n is Some ==> n.unwrap() as int == ix as int - wd);
            assert(s is Some ==> s.unwrap() as int == ix as int + wd);
            assert(e is Some ==> e.unwrap() as int == ix as int + 1);
            assert(w is Some ==> w.unwrap() as int == ix as int - 1);
            assert(w is Some ==> ci >= 1 && wd >= 2);
            assert(e is Some ==> ci + 1 < wd && wd >= 2);
            assert(v@.no_duplicates());
        }
        v
    }

    fn links(&self, ix: usize) -> (v: Vec<usize>) {
        proof {
            lemma_cells_coords(self.cells@, self.width as int, self.height as int,
                |r1: int, c1: int, r2: int, c2: int| delta_adj(r1, c1, r2, c2), ix as int);
        }
        self.cells[ix].links()
    }

    fn cell(&self, ix: usize) -> (c: &Cell) {
        proof {
            lemma_cells_coords(self.cells@, self.width as int, self.height as int,
                |r1: int, c1: int, r2: int, c2: int| delta_adj(r1, c1, r2, c2), ix as int);
        }
        &self.cells[ix]
    }

    fn link(&mut self, ix1: usize, ix2: usize) {
        proof {
            lemma_cells_coords(self.cells@, self.width as int, self.height as int,
                |r1: int, c1: int, r2: int, c2: int| delta_adj(r1, c1, r2, c2), ix1 as int);
            lemma_cells_coords(self.cells@, self.width as int, self.height as int,
                |r1: int, c1: int, r2: int, c2: int| delta_adj(r1, c1, r2, c2), ix2 as int);
            assert(ix1 != ix2);
        }
        link_cells(&mut self.cells, ix1, ix2);
        proof {
            assert forall|i: int| #[trigger] self.neighbours_of(i) == old(self).neighbours_of(i) by {
                assert(self.neighbours_of(i) =~= old(self).neighbours_of(i));
            }
        }
    }
}

impl DeltaGrid {
    fn north_lookup(&self, ix: usize) -> (r: Option<usize>)
        requires
            self.wf(),
            (ix as int) < self.size(),
        ensures
            crate::grid::dir_agrees(r, self.north_at(ix as int)),
            r is Some ==> self.adj_at(ix as int, r.unwrap() as int),
    {
        proof {
            lemma_cells_coords(self.cells@, self.width as int, self.height as int,
                |r1: int, c1: int, r2: int, c2: int| delta_adj(r1, c1, r2, c2), ix as int);
        }
        let row = self.cells[ix].row;
        let col = self.cells[ix].col;
        if !is_up(row, col) && row >= 1 {
            let res = self.lookup(row - 1, col);
            proof {
                crate::grid::lemma_row_shift(self.width as int, row as int, col as int, ix as int);
                let j = res.unwrap() as int;
                assert(j == (row as int - 1) * self.width as int + col as int);
                assert(self.adj_at(ix as int, j));
            }
            res
        } else {
            Option::None
        }
    }

    fn east_lookup(&self, ix: usize) -> (r: Option<usize>)
        requires
            self.wf(),
            (ix as int) < self.size(),
        ensures
            crate::grid::dir_agrees(r, self.east_at(ix as int)),
            r is Some ==> self.adj_at(ix as int, r.unwrap() as int),
    {
        proof {
            lemma_cells_coords(self.cells@, self.width as int, self.height as int,
                |r1: int, c1: int, r2: int, c2: int| delta_adj(r1, c1, r2, c2), ix as int);
        }
        let row = self.cells[ix].row;
        let col = self.cells[ix].col;
        if col + 1 < self.width {
            let res = self.lookup(row, col + 1);
            proof {
                let j = res.unwrap() as int;
                assert(j == row as int * self.width as int + (col as int + 1));
                assert(self.adj_at(ix as int, j));
            }
            res
        } else {
            Option::None
        }
    }

    fn south_lookup(&self, ix: usize) -> (r: Option<usize>)
        requires
            self.wf(),
            (ix as int) < self.size(),
        ensures
            crate::grid::dir_agrees(r, self.south_at(ix as int)),
            r is Some ==> self.adj_at(ix as int, r.unwrap() as int),
    {
        proof {
            lemma_cells_coords(self.cells@, self.width as int, self.height as int,
                |r1: int, c1: int, r2: int, c2: int| delta_adj(r1, c1, r2, c2), ix as int);
        }
        let row = self.cells[ix].row;
        let col = self.cells[ix].col;
        if is_up(row, col) && row + 1 < self.height {
            let res = self.lookup(row + 1, col);
            proof {
                crate::grid::lemma_row_shift(self.width as int, row as int, col as int, ix as int);
                let j = res.unwrap() as int;
                assert(j == (row as int + 1) * self.width as int + col as int);
                assert(self.adj_at(ix as int, j));
            }
            res
        } else {
            Option::None
        }
    }

    fn west_lookup(&self, ix: usize) -> (r: Option<usize>)
        requires
            self.wf(),
            (ix as int) < self.size(),
        ensures
            crate::grid::dir_agrees(r, self.west_at(ix as int)),
            r is Some ==> self.adj_at(ix as int, r.unwrap() as int),
    {
        proof {
            lemma_cells_coords(self.cells@, self.width as int, self.height as int,
                |r1: int, c1: int, r2: int, c2: int| delta_adj(r1, c1, r2, c2), ix as int);
        }
        let row = self.cells[ix].row;
        let col = self.cells[ix].col;
        if col >= 1 {
            let res = self.lookup(row, col - 1);
            proof {
                let j = res.unwrap() as int;
                assert(j == row as int * self.width as int + (col as int - 1));
                assert(self.adj_at(ix as int, j));
            }
            res
        } else {
            Option::None
        }
    }
}

impl CompassDirections<Cell> for DeltaGrid {
    open spec fn north_of(&self, i: int) -> Option<int> {
        self.north_at(i)
    }

    open spec fn east_of(&self, i: int) -> Option<int> {
        self.east_at(i)
    }

    open spec fn south_of(&self, i: int) -> Option<int> {
        self.south_at(i)
    }

    open spec fn west_of(&self, i: int) -> Option<int> {
        self.west_at(i)
    }

    fn north_ix(&self, ix: usize) -> (r: Option<usize>) {
        self.north_lookup(ix)
    }

    fn east_ix(&self, ix: usize) -> (r: Option<usize>) {
        self.east_lookup(ix)
    }

    fn south_ix(&self, ix: usize) -> (r: Option<usize>) {
        self.south_lookup(ix)
    }

    fn west_ix(&self, ix: usize) -> (r: Option<usize>) {
        self.west_lookup(ix)
    }
}

impl RectangularGrid<Cell> for DeltaGrid {
    open spec fn width_of(&self) -> int {
        self.width as int
    }

    open spec fn height_of(&self) -> int {
        self.height as int
    }

    proof fn lemma_dims(&self) {
    }

    fn width(&self) -> (w: usize) {
        self.width
    }

    fn height(&self) -> (h: usize) {
        self.height
    }

    fn ix(&self, row: usize, col: usize) -> (r: usize) {
        proof {
            lemma_cells_index(self.cells@, self.width as int, self.height as int,
                |r1: int, c1: int, r2: int, c2: int| delta_adj(r1, c1, r2, c2),
                row as int, col as int);
        }
        let total = self.cells.len();
        proof {
            assert((row as int * self.width as int + col as int) < (total as int));
        }
        col + row * self.width
    }

    fn ix_opt(&self, row: usize, col: usize) -> (r: Option<usize>) {
        if row >= self.height || col >= self.width {
            return Option::None;
        }
        Option::Some(self.ix(row, col))
    }
}

impl CompassGrid<Cell> for DeltaGrid {

}

} // verus!
