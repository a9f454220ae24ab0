//! The rectangular (von Neumann, 4-neighbour) tessellation: `Cell`, shared by
//! the rectangular, hexagonal and triangular grids, and `RectangleGrid`.

use vstd::prelude::*;

use crate::grid::{
    idx_set, lemma_idx_set, lemma_idx_set_len, lemma_idx_set_push, lemma_no_dup_push,
    lemma_row_major_in_range, lemma_row_major_unique, AbstractCell, AbstractGrid,
    CompassDirections, CompassGrid, RectangularGrid,
};

verus! {

/// True when `x` occurs in `v`.
pub fn vec_contains(v: &Vec<usize>, x: usize) -> (r: bool)
    ensures
        r == v@.contains(x),
{
    let mut k: usize = 0;
    while k < v.len()
        invariant
            k <= v@.len(),
            forall|t: int| 0 <= t < k ==> v@[t] != x,
        decreases v@.len() - k,
    {
        if v[k] == x {
            assert(v@[k as int] == x);
            return true;
        }
        k = k + 1;
    }
    assert(!v@.contains(x));
    false
}

/// An element-for-element copy of a vector of indices.
pub fn vec_copy(v: &Vec<usize>) -> (r: Vec<usize>)
    ensures
        r@ == v@,
{
    let mut r: Vec<usize> = Vec::new();
    let mut k: usize = 0;
    while k < v.len()
        invariant
            k <= v@.len(),
            r@ == v@.subrange(0, k as int),
        decreases v@.len() - k,
    {
        r.push(v[k]);
        proof {
            assert(r@ =~= v@.subrange(0, k as int + 1));
        }
        k = k + 1;
    }
    proof {
        assert(r@ =~= v@);
    }
    r
}

/// A set of indices, all below `n`, is finite and has at most `n` elements.
pub proof fn lemma_bounded_set_finite(s: Set<int>, n: int)
    requires
        n >= 0,
        forall|j: int| s.contains(j) ==> 0 <= j < n,
    ensures
        s.finite(),
        s.len() <= n,
{
    let r = vstd::set_lib::set_int_range(0, n);
    vstd::set_lib::lemma_int_range(0, n);
    assert(s =~= r.intersect(s));
    assert(s.subset_of(r));
    vstd::set_lib::lemma_len_subset(s, r);
}

/// A cell of a row/column tessellation: its coordinates, fixed at
/// construction, and the indices of the cells it is linked to.
#[derive(Clone, Debug)]
pub struct Cell {
    pub row: usize,
    pub col: usize,
    pub links: Vec<usize>,
}

impl AbstractCell for Cell {
    open spec fn links_set(&self) -> Set<int> {
        idx_set(self.links@)
    }

    open spec fn row_of(&self) -> int {
        self.row as int
    }

    open spec fn col_of(&self) -> int {
        self.col as int
    }

    open spec fn inv(&self) -> bool {
        self.links@.no_duplicates()
    }

    proof fn lemma_inv(&self) {
        lemma_idx_set(self.links@);
    }

    fn row(&self) -> (r: usize) {
        self.row
    }

    fn col(&self) -> (c: usize) {
        self.col
    }

    fn links(&self) -> (v: Vec<usize>) {
        proof {
            lemma_idx_set(self.links@);
            lemma_idx_set_len(self.links@);
        }
        vec_copy(&self.links)
    }

    fn link(&mut self, ix: usize) {
        proof {
            lemma_idx_set(self.links@);
        }
        if !vec_contains(&self.links, ix) {
            let ghost before = self.links@;
            self.links.push(ix);
            proof {
                lemma_idx_set_push(before, ix);
                lemma_no_dup_push(before, ix);
            }
        } else {
            proof {
                assert(self.links_set().contains(ix as int));
                assert(self.links_set() =~= old(self).links_set().insert(ix as int));
            }
        }
    }
}

impl Cell {
    /// A fresh, unlinked cell at the given coordinates.
    pub fn new(row: usize, col: usize) -> (c: Cell)
        ensures
            c.inv(),
            c.row_of() == row as int,
            c.col_of() == col as int,
            c.links_set() == Set::<int>::empty(),
    {
        let c = Cell { row, col, links: Vec::new() };
        proof {
            lemma_idx_set(c.links@);
            assert(c.links_set() =~= Set::<int>::empty());
        }
        c
    }
}

/// Spatial adjacency of two cells given by their coordinates: same row and
/// adjacent columns, or same column and adjacent rows.
pub open spec fn rect_adj(r1: int, c1: int, r2: int, c2: int) -> bool {
    ||| (r1 == r2 && (c1 == c2 + 1 || c2 == c1 + 1))
    ||| (c1 == c2 && (r1 == r2 + 1 || r2 == r1 + 1))
}

/// A `height` x `width` grid of 4-neighbour cells in row-major order.
#[derive(Clone, Debug)]
pub struct RectangleGrid {
    pub width: usize,
    pub height: usize,
    pub cells: Vec<Cell>,
}

/// The well-formedness shared by the row/column grids over `Cell`: coordinate
/// consistency, per-cell invariants, and a link relation that is symmetric
/// and confined to `adj`.
pub open spec fn cells_wf(cells: Seq<Cell>, w: int, h: int, adj: spec_fn(int, int, int, int) -> bool) -> bool {
    &&& cells.len() == w * h
    &&& forall|i: int| 0 <= i < cells.len() ==> (#[trigger] cells[i]).inv()
    &&& forall|i: int| 0 <= i < cells.len() ==> 0 <= (#[trigger] cells[i]).row_of() < h
            && 0 <= cells[i].col_of() < w && cells[i].row_of() * w + cells[i].col_of() == i
    &&& forall|i: int, j: int| 0 <= i < cells.len()
            && #[trigger] cells[i].links_set().contains(j)
            ==> 0 <= j < cells.len()
                && adj(cells[i].row_of(), cells[i].col_of(), cells[j].row_of(), cells[j].col_of())
                && cells[j].links_set().contains(i)
}

/// Index/coordinate consistency of one cell, for any grid over `cells_wf`.
pub proof fn lemma_cells_coords(cells: Seq<Cell>, w: int, h: int, adj: spec_fn(int, int, int, int) -> bool, i: int)
    requires
        cells_wf(cells, w, h, adj),
        0 <= i < cells.len(),
    ensures
        0 <= cells[i].row_of() < h,
        0 <= cells[i].col_of() < w,
        cells[i].row_of() * w + cells[i].col_of() == i,
        cells[i].inv(),
{
}

/// The index determined by a pair of in-range coordinates, for any grid over
/// `cells_wf`.
pub proof fn lemma_cells_index(cells: Seq<Cell>, w: int, h: int, adj: spec_fn(int, int, int, int) -> bool, r: int, c: int)
    requires
        cells_wf(cells, w, h, adj),
        0 <= r < h,
        0 <= c < w,
    ensures
        0 <= r * w + c < cells.len(),
        cells[r * w + c].row_of() == r,
        cells[r * w + c].col_of() == c,
{
    lemma_row_major_in_range(w, h, r, c);
    let t = r * w + c;
    lemma_cells_coords(cells, w, h, adj, t);
    lemma_row_major_unique(w, cells[t].row_of(), cells[t].col_of(), r, c);
}

/// Builds the row-major array of fresh cells for a `row` by `col` grid.
pub fn fresh_cells(row: usize, col: usize) -> (v: Vec<Cell>)
    ensures
        v@.len() == row as int * col as int,
        forall|t: int| 0 <= t < v@.len() ==> (#[trigger] v@[t]).inv()
            && v@[t].links_set() == Set::<int>::empty()
            && 0 <= v@[t].row_of() < row as int
            && 0 <= v@[t].col_of() < col as int
            && v@[t].row_of() * col as int + v@[t].col_of() == t,
{
    let mut gridarr: Vec<Cell> = Vec::new();
    let mut i: usize = 0;
    while i < row
        invariant
            i <= row,
            gridarr@.len() == i as int * col as int,
            forall|t: int| 0 <= t < gridarr@.len() ==> (#[trigger] gridarr@[t]).inv()
                && gridarr@[t].links_set() == Set::<int>::empty()
                && 0 <= gridarr@[t].row_of() < row as int
                && 0 <= gridarr@[t].col_of() < col as int
                && gridarr@[t].row_of() * col as int + gridarr@[t].col_of() == t,
        decreases row - i,
    {
        let mut j: usize = 0;
        while j < col
            invariant
                i < row,
                j <= col,
                gridarr@.len() == i as int * col as int + j as int,
                forall|t: int| 0 <= t < gridarr@.len() ==> (#[trigger] gridarr@[t]).inv()
                    && gridarr@[t].links_set() == Set::<int>::empty()
                    && 0 <= gridarr@[t].row_of() < row as int
                    && 0 <= gridarr@[t].col_of() < col as int
                    && gridarr@[t].row_of() * col as int + gridarr@[t].col_of() == t,
            decreases col - j,
        {
            gridarr.push(Cell::new(i, j));
            j = j + 1;
        }
        proof {
            assert((i as int + 1) * col as int == i as int * col as int + col as int)
                by (nonlinear_arith);
        }
        i = i + 1;
    }
    gridarr
}

/// Opens the passage between `ix1` and `ix2` in a cell array, in both
/// directions, leaving everything else unchanged.
pub fn link_cells(cells: &mut Vec<Cell>, ix1: usize, ix2: usize)
    requires
        (ix1 as int) < old(cells)@.len(),
        (ix2 as int) < old(cells)@.len(),
        old(cells)@[ix1 as int].inv(),
        old(cells)@[ix2 as int].inv(),
    ensures
        final(cells)@.len() == old(cells)@.len(),
        forall|i: int| 0 <= i < old(cells)@.len() && i != ix1 as int && i != ix2 as int
            ==> #[trigger] final(cells)@[i] == old(cells)@[i],
        final(cells)@[ix1 as int].inv(),
        final(cells)@[ix2 as int].inv(),
        final(cells)@[ix1 as int].links_set()
            == old(cells)@[ix1 as int].links_set().insert(ix2 as int),
        final(cells)@[ix2 as int].links_set()
            == (if ix1 == ix2 {
                old(cells)@[ix1 as int].links_set().insert(ix2 as int)
            } else {
                old(cells)@[ix2 as int].links_set().insert(ix1 as int)
            }),
        final(cells)@[ix1 as int].row_of() == old(cells)@[ix1 as int].row_of(),
        final(cells)@[ix1 as int].col_of() == old(cells)@[ix1 as int].col_of(),
        final(cells)@[ix2 as int].row_of() == old(cells)@[ix2 as int].row_of(),
        final(cells)@[ix2 as int].col_of() == old(cells)@[ix2 as int].col_of(),
    {
    let c1 = &mut cells[ix1];
    c1.link(ix2);
    let c2 = &mut cells[ix2];
    c2.link(ix1);
}

impl RectangleGrid {
    /// The row-major index of coordinates, as a specification.
    pub open spec fn spec_ix(&self, r: int, c: int) -> int {
        r * self.width as int + c
    }

    pub open spec fn north_at(&self, i: int) -> Option<int> {
        if 0 <= i < self.cells@.len() && self.cells@[i].row_of() >= 1 {
            Option::Some(i - self.width as int)
        } else {
            Option::None
        }
    }

    pub open spec fn east_at(&self, i: int) -> Option<int> {
        if 0 <= i < self.cells@.len() && self.cells@[i].col_of() + 1 < self.width as int {
            Option::Some(i + 1)
        } else {
            Option::None
        }
    }

    pub open spec fn south_at(&self, i: int) -> Option<int> {
        if 0 <= i < self.cells@.len() && self.cells@[i].row_of() + 1 < self.height as int {
            Option::Some(i + self.width as int)
        } else {
            Option::None
        }
    }

    pub open spec fn west_at(&self, i: int) -> Option<int> {
        if 0 <= i < self.cells@.len() && self.cells@[i].col_of() >= 1 {
            Option::Some(i - 1)
        } else {
            Option::None
        }
    }

    /// The spatial adjacency of this grid, over indices.
    pub open spec fn adj_at(&self, i: int, j: int) -> bool {
        0 <= i < self.cells@.len() && 0 <= j < self.cells@.len()
            && rect_adj(self.cells@[i].row_of(), self.cells@[i].col_of(),
                self.cells@[j].row_of(), self.cells@[j].col_of())
    }

    /// A fresh grid of `row` rows and `col` columns with every passage closed.
    pub fn new(row: usize, col: usize) -> (g: RectangleGrid)
        ensures
            g.wf(),
            g.size() == row as int * col as int,
            g.width as int == col as int,
            g.height as int == row as int,
            forall|i: int| g.links_of(i) == Set::<int>::empty(),
    {
        let gridarr = fresh_cells(row, col);
        let g = RectangleGrid { width: col, height: row, cells: gridarr };
        proof {
            assert(g.wf());
            assert forall|t: int| g.links_of(t) == Set::<int>::empty() by {
                if 0 <= t < g.size() {
                    assert(g.cells@[t].links_set() == Set::<int>::empty());
                }
            }
        }
        g
    }

    /// The compass lookups, shared by both trait implementations.
    fn north_lookup(&self, ix: usize) -> (r: Option<usize>)
        requires
            self.wf(),
            (ix as int) < self.size(),
        ensures
            crate::grid::dir_agrees(r, self.north_at(ix as int)),
            r is Some ==> self.adj_at(ix as int, r.unwrap() as int),
    {
        proof {
            lemma_rect_coords(self, ix as int);
        }
        let row = self.cells[ix].row;
        let col = self.cells[ix].col;
        if row >= 1 {
            proof {
                lemma_rect_index(self, row as int - 1, col as int);
                crate::grid::lemma_row_shift(self.width as int, row as int, col as int, ix as int);
            }
            Option::Some(ix - self.width)
        } else {
            Option::None
        }
    }

    fn east_lookup(&self, ix: usize) -> (r: Option<usize>)
        requires
            self.wf(),
            (ix as int) < self.size(),
        ensures
            crate::grid::dir_agrees(r, self.east_at(ix as int)),
            r is Some ==> self.adj_at(ix as int, r.unwrap() as int),
    {
        proof {
            lemma_rect_coords(self, ix as int);
        }
        let n = self.cells.len();
        let row = self.cells[ix].row;
        let col = self.cells[ix].col;
        if col + 1 < self.width {
            proof {
                lemma_rect_index(self, row as int, col as int + 1);
                assert(ix as int + 1 == row as int * self.width as int + (col as int + 1));
                assert(ix as int + 1 < (n as int));
            }
            Option::Some(ix + 1)
        } else {
            Option::None
        }
    }

    fn south_lookup(&self, ix: usize) -> (r: Option<usize>)
        requires
            self.wf(),
            (ix as int) < self.size(),
        ensures
            crate::grid::dir_agrees(r, self.south_at(ix as int)),
            r is Some ==> self.adj_at(ix as int, r.unwrap() as int),
    {
        proof {
            lemma_rect_coords(self, ix as int);
        }
        let n = self.cells.len();
        let row = self.cells[ix].row;
        let col = self.cells[ix].col;
        if row + 1 < self.height {
            proof {
                lemma_rect_index(self, row as int + 1, col as int);
                crate::grid::lemma_row_shift(self.width as int, row as int, col as int, ix as int);
                assert((ix as int + self.width as int) < (n as int));
            }
            Option::Some(ix + self.width)
        } else {
            Option::None
        }
    }

    fn west_lookup(&self, ix: usize) -> (r: Option<usize>)
        requires
            self.wf(),
            (ix as int) < self.size(),
        ensures
            crate::grid::dir_agrees(r, self.west_at(ix as int)),
            r is Some ==> self.adj_at(ix as int, r.unwrap() as int),
    {
        proof {
            lemma_rect_coords(self, ix as int);
        }
        let col = self.cells[ix].col;
        if col >= 1 {
            proof {
                lemma_rect_index(self, self.cells@[ix as int].row_of(), col as int - 1);
            }
            Option::Some(ix - 1)
        } else {
            Option::None
        }
    }
}

/// Index/coordinate consistency of one cell, read off the well-formedness.
pub proof fn lemma_rect_coords(g: &RectangleGrid, i: int)
    requires
        g.wf(),
        0 <= i < g.size(),
    ensures
        0 <= g.cells@[i].row_of() < g.height as int,
        0 <= g.cells@[i].col_of() < g.width as int,
        g.cells@[i].row_of() * g.width as int + g.cells@[i].col_of() == i,
        g.cells@[i].inv(),
{
}

/// The index determined by a pair of in-range coordinates, and its cell's
/// coordinates.
pub proof fn lemma_rect_index(g: &RectangleGrid, r: int, c: int)
    requires
        g.wf(),
        0 <= r < g.height as int,
        0 <= c < g.width as int,
    ensures
        0 <= r * g.width as int + c < g.size(),
        g.cells@[r * g.width as int + c].row_of() == r,
        g.cells@[r * g.width as int + c].col_of() == c,
{
    let w = g.width as int;
    let h = g.height as int;
    lemma_row_major_in_range(w, h, r, c);
    let t = r * w + c;
    lemma_rect_coords(g, t);
    lemma_row_major_unique(w, g.cells@[t].row_of(), g.cells@[t].col_of(), r, c);
}

/// The four compass directions cover the whole neighbour set of a
/// rectangular grid cell.
pub proof fn lemma_rect_dirs_cover(g: &RectangleGrid, i: int, j: int)
    requires
        g.wf(),
        0 <= i < g.size(),
        g.adj_at(i, j),
    ensures
        g.north_at(i) == Option::Some(j) || g.east_at(i) == Option::Some(j)
            || g.west_at(i) == Option::Some(j) || g.south_at(i) == Option::Some(j),
{
    let w = g.width as int;
    lemma_rect_coords(g, i);
    lemma_rect_coords(g, j);
    let ri = g.cells@[i].row_of();
    let ci = g.cells@[i].col_of();
    let rj = g.cells@[j].row_of();
    let cj = g.cells@[j].col_of();
    if ri == rj && ci == cj + 1 {
        assert(j == i - 1) by (nonlinear_arith)
            requires
                i == ri * w + ci,
                j == rj * w + cj,
                ri == rj,
                ci == cj + 1;
    } else if ri == rj && cj == ci + 1 {
        assert(j == i + 1) by (nonlinear_arith)
            requires
                i == ri * w + ci,
                j == rj * w + cj,
                ri == rj,
                cj == ci + 1;
    } else if ci == cj && ri == rj + 1 {
        assert(j == i - w) by (nonlinear_arith)
            requires
                i == ri * w + ci,
                j == rj * w + cj,
                ci == cj,
                ri == rj + 1;
    } else {
        assert(j == i + w) by (nonlinear_arith)
            requires
                i == ri * w + ci,
                j == rj * w + cj,
                ci == cj,
                rj == ri + 1;
    }
}

impl AbstractGrid<Cell> for RectangleGrid {
    open spec fn size(&self) -> int {
        self.cells@.len() as int
    }

    open spec fn neighbours_of(&self, i: int) -> Set<int> {
        Set::new(|j: int| self.adj_at(i, j))
    }

    open spec fn links_of(&self, i: int) -> Set<int> {
        if 0 <= i < self.cells@.len() {
            self.cells@[i].links_set()
        } else {
            Set::<int>::empty()
        }
    }

    open spec fn row_at(&self, i: int) -> int {
        if 0 <= i < self.cells@.len() {
            self.cells@[i].row_of()
        } else {
            0
        }
    }

    open spec fn col_at(&self, i: int) -> int {
        if 0 <= i < self.cells@.len() {
            self.cells@[i].col_of()
        } else {
            0
        }
    }

    open spec fn wf(&self) -> bool {
        cells_wf(self.cells@, self.width as int, self.height as int,
            |r1: int, c1: int, r2: int, c2: int| rect_adj(r1, c1, r2, c2))
    }

    proof fn lemma_wf(&self) {
        assert forall|i: int| (#[trigger] self.neighbours_of(i)).finite() by {
            lemma_bounded_set_finite(self.neighbours_of(i), self.size());
        }
        assert forall|i: int| (#[trigger] self.links_of(i)).finite() by {
            if 0 <= i < self.size() {
                self.cells@[i].lemma_inv();
            } else {
                assert(self.links_of(i) =~= Set::<int>::empty());
            }
        }
    }

    fn len(&self) -> (n: usize) {
        self.cells.len()
    }

    fn neighbours(&self, ix: usize) -> (v: Vec<usize>) {
        let mut v: Vec<usize> = Vec::new();
        let n = self.north_lookup(ix);
        let e = self.east_lookup(ix);
        let w = self.west_lookup(ix);
        let s = self.south_lookup(ix);
        let ghost mut kn: int = -1;
        let ghost mut ke: int = -1;
        let ghost mut kw: int = -1;
        let ghost mut ks: int = -1;
        match n {
            Option::Some(t) => {
                proof { kn = v@.len() as int; }
                v.push(t);
            },
            Option::None => {},
        }
        match e {
            Option::Some(t) => {
                proof { ke = v@.len() as int; }
                v.push(t);
            },
            Option::None => {},
        }
        match w {
            Option::Some(t) => {
                proof { kw = v@.len() as int; }
                v.push(t);
            },
            Option::None => {},
        }
        match s {
            Option::Some(t) => {
                proof { ks = v@.len() as int; }
                v.push(t);
            },
            Option::None => {},
        }
        proof {
            assert forall|j: int| #[trigger] self.neighbours_of(ix as int).contains(j)
                implies exists|k: int| 0 <= k < v@.len() && v@[k] as int == j by {
                lemma_rect_dirs_cover(self, ix as int, j);
                if self.north_at(ix as int) == Option::Some(j) {
                    assert(0 <= kn < v@.len() && v@[kn] as int == j);
                } else if self.east_at(ix as int) == Option::Some(j) {
                    assert(0 <= ke < v@.len() && v@[ke] as int == j);
                } else if self.west_at(ix as int) == Option::Some(j) {
                    assert(0 <= kw < v@.len() && v@[kw] as int == j);
                } else {
                    assert(0 <= ks < v@.len() && v@[ks] as int == j);
                }
            }
            // the four directions land on four different cells
            let ww = self.width as int;
            let ii = ix as int;
            lemma_rect_coords(self, ii);
            assert(ww >= 1);
            assert(n is Some ==> n.unwrap() as int == ii - ww);
            assert(e is Some ==> e.unwrap() as int == ii + 1);
            assert(w is Some ==> w.unwrap() as int == ii - 1);
            assert(s is Some ==> s.unwrap() as int == ii + ww);
            assert(w is Some ==> self.cells@[ii].col_of() >= 1 && ww >= 2);
            assert(e is Some ==> self.cells@[ii].col_of() + 1 < ww && ww >= 2);
            assert(v@.no_duplicates());
        }
        v
    }

    fn links(&self, ix: usize) -> (v: Vec<usize>) {
        self.cells[ix].links()
    }

    fn cell(&self, ix: usize) -> (c: &Cell) {
        &self.cells[ix]
    }

    fn link(&mut self, ix1: usize, ix2: usize) {
        let c1 = &mut self.cells[ix1];
        c1.link(ix2);
        let c2 = &mut self.cells[ix2];
        c2.link(ix1);
        proof {
            assert forall|i: int| #[trigger] self.neighbours_of(i) == old(self).neighbours_of(i) by {
                assert(self.neighbours_of(i) =~= old(self).neighbours_of(i));
            }
        }
    }
}

impl RectangularGrid<Cell> for RectangleGrid {
    open spec fn width_of(&self) -> int {
        self.width as int
    }

    open spec fn height_of(&self) -> int {
        self.height as int
    }

    proof fn lemma_dims(&self) {
    }

    fn width(&self) -> (w: usize) {
        self.width
    }

    fn height(&self) -> (h: usize) {
        self.height
    }

    fn ix(&self, row: usize, col: usize) -> (r: usize) {
        let n = self.cells.len();
        proof {
            lemma_rect_index(self, row as int, col as int);
            assert((row as int * self.width as int + col as int) < (n as int));
        }
        col + row * self.width
    }

    fn ix_opt(&self, row: usize, col: usize) -> (r: Option<usize>) {
        if row >= self.height || col >= self.width {
            return Option::None;
        }
        let n = self.cells.len();
        proof {
            lemma_rect_index(self, row as int, col as int);
            assert((row as int * self.width as int + col as int) < (n as int));
        }
        Option::Some(col + row * self.width)
    }
}

impl CompassDirections<Cell> for RectangleGrid {
    open spec fn north_of(&self, i: int) -> Option<int> {
        self.north_at(i)
    }

    open spec fn east_of(&self, i: int) -> Option<int> {
        self.east_at(i)
    }

    open spec fn south_of(&self, i: int) -> Option<int> {
        self.south_at(i)
    }

    open spec fn west_of(&self, i: int) -> Option<int> {
        self.west_at(i)
    }

    fn north_ix(&self, ix: usize) -> (r: Option<usize>) {
        self.north_lookup(ix)
    }

    fn east_ix(&self, ix: usize) -> (r: Option<usize>) {
        self.east_lookup(ix)
    }

    fn south_ix(&self, ix: usize) -> (r: Option<usize>) {
        self.south_lookup(ix)
    }

    fn west_ix(&self, ix: usize) -> (r: Option<usize>) {
        self.west_lookup(ix)
    }
}

impl CompassGrid<Cell> for RectangleGrid {

}

} // verus!
