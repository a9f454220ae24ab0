//! The polar (circular) tessellation: rings of cells around a single centre
//! cell. Ring sizes grow with the circumference so the angular width of a
//! cell stays roughly constant; each cell has clockwise and counter-clockwise
//! ring mates, one inward parent and zero or more outward children.

use vstd::prelude::*;

use crate::grid::{
    idx_set, lemma_idx_set, lemma_idx_set_len, lemma_idx_set_push, lemma_no_dup_push,
    AbstractCell, AbstractGrid,
};
use crate::rectangle::{lemma_bounded_set_finite, vec_contains, vec_copy};

verus! {

/// A polar cell: ring coordinates, the ring mates, the inward parent, the
/// outward children, and the open passages.
#[derive(Clone, Debug)]
pub struct PolarCell {
    pub outward: Vec<usize>,
    pub inward: Option<usize>,
    pub clockwise: usize,
    pub counter_clockwise: usize,
    pub row: usize,
    pub col: usize,
    pub columns: usize,
    pub links: Vec<usize>,
}

/// The inward parent as a mathematical value.
pub open spec fn inward_of(c: PolarCell) -> Option<int> {
    match c.inward {
        Option::Some(p) => Option::Some(p as int),
        Option::None => Option::None,
    }
}

impl AbstractCell for PolarCell {
    open spec fn links_set(&self) -> Set<int> {
        idx_set(self.links@)
    }

    open spec fn row_of(&self) -> int {
        self.row as int
    }

    open spec fn col_of(&self) -> int {
        self.col as int
    }

    open spec fn inv(&self) -> bool {
        self.links@.no_duplicates()
    }

    proof fn lemma_inv(&self) {
        lemma_idx_set(self.links@);
    }

    fn row(&self) -> (r: usize) {
        self.row
    }

    fn col(&self) -> (c: usize) {
        self.col
    }

    fn links(&self) -> (v: Vec<usize>) {
        proof {
            lemma_idx_set(self.links@);
            lemma_idx_set_len(self.links@);
        }
        vec_copy(&self.links)
    }

    fn link(&mut self, ix: usize) {
        self.record_link(ix);
    }
}

impl PolarCell {
    /// Records a link to `ix`, leaving every other field unchanged.
    pub fn record_link(&mut self, ix: usize)
        requires
            old(self).inv(),
        ensures
            final(self).inv(),
            final(self).links_set() == old(self).links_set().insert(ix as int),
            final(self).row == old(self).row,
            final(self).col == old(self).col,
            final(self).columns == old(self).columns,
            final(self).clockwise == old(self).clockwise,
            final(self).counter_clockwise == old(self).counter_clockwise,
            final(self).inward == old(self).inward,
            final(self).outward@ == old(self).outward@,
    {
        proof {
            lemma_idx_set(self.links@);
        }
        if !vec_contains(&self.links, ix) {
            let ghost before = self.links@;
            self.links.push(ix);
            proof {
                lemma_idx_set_push(before, ix);
                lemma_no_dup_push(before, ix);
            }
        } else {
            proof {
                assert(self.links_set().contains(ix as int));
                assert(self.links_set() =~= old(self).links_set().insert(ix as int));
            }
        }
    }

    /// A fresh, unlinked polar cell; the inward parent is assigned later.
    pub fn new(row: usize, col: usize, clockwise: usize, counter_clockwise: usize, columns: usize, outward: Vec<usize>) -> (c: PolarCell)
        ensures
            c.inv(),
            c.row == row && c.col == col && c.clockwise == clockwise
                && c.counter_clockwise == counter_clockwise && c.columns == columns,
            c.inward is None,
            c.outward@ == outward@,
            c.links_set() == Set::<int>::empty(),
    {
        let c = PolarCell {
            inward: Option::None,
            clockwise,
            counter_clockwise,
            outward,
            links: Vec::new(),
            col,
            row,
            columns,
        };
        proof {
            lemma_idx_set(c.links@);
            assert(c.links_set() =~= Set::<int>::empty());
        }
        c
    }
}

/// The stored adjacency of cell `i` towards `j`, read off its fields.
pub open spec fn polar_mentions(cells: Seq<PolarCell>, i: int, j: int) -> bool {
    ||| cells[i].clockwise as int == j
    ||| cells[i].counter_clockwise as int == j
    ||| inward_of(cells[i]) == Option::Some(j)
    ||| idx_set(cells[i].outward@).contains(j)
}

/// Structural well-formedness of a polar cell array: every stored adjacency
/// stays on the grid and is mirrored by the cell it names, and the link
/// relation is a symmetric subrelation of the stored adjacency.
pub open spec fn polar_wf(cells: Seq<PolarCell>) -> bool {
    &&& cells.len() >= 1
    &&& forall|i: int| 0 <= i < cells.len() ==> (#[trigger] cells[i]).inv()
    &&& forall|i: int, j: int| 0 <= i < cells.len() && #[trigger] polar_mentions(cells, i, j)
            ==> 0 <= j < cells.len() && (i != j ==> polar_mentions(cells, j, i))
    &&& forall|i: int, j: int| 0 <= i < cells.len()
            && #[trigger] cells[i].links_set().contains(j)
            ==> 0 <= j < cells.len() && i != j && polar_mentions(cells, i, j)
                && cells[j].links_set().contains(i)
    &&& forall|i: int| 0 <= i < cells.len() ==> {
            let c = #[trigger] cells[i];
            &&& c.outward@.no_duplicates()
            &&& !c.outward@.contains(c.clockwise)
            &&& !c.outward@.contains(c.counter_clockwise)
            &&& (match c.inward {
                Option::Some(p) => !c.outward@.contains(p)
                    && p != c.clockwise && p != c.counter_clockwise,
                Option::None => true,
            })
        }
}

/// The number of cells of ring `r`: a single centre cell, then each ring
/// scales its predecessor by the rounded ratio of its circumference to the
/// ring height (pi as 355/113), never shrinking.
pub open spec fn ring_count(r: int) -> int
    decreases r,
{
    if r <= 0 {
        1
    } else {
        let prev = ring_count(r - 1);
        let ratio = (1420 * r + 113 * prev) / (226 * prev);
        prev * (if ratio < 1 {
            1int
        } else {
            ratio
        })
    }
}

/// The index of the first cell of ring `r`; `ring_start(rows)` is the total
/// cell count of a grid of `rows` rings.
pub open spec fn ring_start(r: int) -> int
    decreases r,
{
    if r <= 0 {
        0
    } else {
        ring_start(r - 1) + ring_count(r - 1)
    }
}

/// The cell of ring `r` at angular position `j`.
pub open spec fn ring_cell(cells: Seq<PolarCell>, r: int, j: int) -> PolarCell {
    cells[ring_start(r) + j]
}

/// The exact layout the construction computes: rings of the recurrence's
/// sizes laid out consecutively, clockwise the successor and
/// counter-clockwise the predecessor within each ring (wrapping at the ring
/// boundary), the inward parent of ring `r`'s cell `j` found by the
/// proportional column mapping `j * count(r-1) / count(r)`, and the outward
/// children exactly the inverse of the inward relation.
pub open spec fn polar_layout(cells: Seq<PolarCell>, rows: int) -> bool {
    &&& cells.len() == ring_start(rows)
    &&& forall|r: int, j: int| 0 <= r < rows && 0 <= j < ring_count(r) ==> {
            let c = #[trigger] ring_cell(cells, r, j);
            &&& c.row as int == r
            &&& c.col as int == j
            &&& c.columns as int == ring_count(r)
            &&& c.clockwise as int == (if j + 1 == ring_count(r) {
                    ring_start(r)
                } else {
                    ring_start(r) + j + 1
                })
            &&& c.counter_clockwise as int == (if j == 0 {
                    ring_start(r) + ring_count(r) - 1
                } else {
                    ring_start(r) + j - 1
                })
            &&& (r == 0 ==> c.inward is None)
            &&& (r >= 1 ==> inward_of(c) == Option::Some(
                    ring_start(r - 1) + (j * ring_count(r - 1)) / ring_count(r)))
        }
    &&& forall|i: int, x: int| 0 <= i < cells.len()
            && #[trigger] idx_set(cells[i].outward@).contains(x)
            ==> 0 <= x < cells.len() && inward_of(cells[x]) == Option::Some(i)
    &&& forall|x: int| 0 <= x < cells.len() ==> (match (#[trigger] cells[x]).inward {
            Option::Some(p) => (p as int) < cells.len()
                && idx_set(cells[p as int].outward@).contains(x),
            Option::None => true,
        })
}

/// The degenerate pair the construction falls back to, should its run-time
/// validation ever fail on a grid of two or more rings: the centre and one
/// outer cell, mutually inward/outward, the outer cell its own ring mate.
pub open spec fn polar_degenerate(cells: Seq<PolarCell>) -> bool {
    &&& cells.len() == 2
    &&& cells[0].row as int == 0 && cells[0].col as int == 0 && cells[0].columns as int == 1
            && cells[0].clockwise as int == 0 && cells[0].counter_clockwise as int == 0
            && cells[0].inward is None && cells[0].outward@ =~= seq![1usize]
    &&& cells[1].row as int == 1 && cells[1].col as int == 0 && cells[1].columns as int == 1
            && cells[1].clockwise as int == 1 && cells[1].counter_clockwise as int == 1
            && inward_of(cells[1]) == Option::Some(0int) && cells[1].outward@ =~= Seq::<usize>::empty()
}

/// The ring structure of a freshly built polar grid: a single centre cell,
/// every outer cell one ring out from its inward parent, ring mates wired
/// both ways on the same ring, and each column within its ring's width.
pub open spec fn polar_rings_ok(cells: Seq<PolarCell>) -> bool {
    &&& cells[0].row_of() == 0 && cells[0].col_of() == 0 && cells[0].inward is None
            && cells[0].clockwise == 0 && cells[0].counter_clockwise == 0
    &&& forall|i: int| 1 <= i < cells.len() ==> {
            let c = #[trigger] cells[i];
            &&& c.row_of() >= 1
            &&& (match c.inward {
                Option::Some(p) => 0 <= (p as int) < cells.len()
                    && cells[p as int].row_of() == c.row_of() - 1,
                Option::None => false,
            })
            &&& (c.clockwise as int) < cells.len()
                && cells[c.clockwise as int].row_of() == c.row_of()
                && cells[c.clockwise as int].counter_clockwise as int == i
            &&& (c.counter_clockwise as int) < cells.len()
                && cells[c.counter_clockwise as int].row_of() == c.row_of()
                && cells[c.counter_clockwise as int].clockwise as int == i
        }
    &&& forall|i: int| 0 <= i < cells.len()
            ==> (#[trigger] cells[i]).col_of() < cells[i].columns && cells[i].columns >= 1
}

/// On a well-formed polar grid with sound ring structure, every outer
/// cell's inward parent is one of its spatial neighbours.
proof fn lemma_rings_inward_adjacent(g: CircularGrid)
    requires
        polar_wf(g.cells@),
        polar_rings_ok(g.cells@),
    ensures
        forall|i: int| 1 <= i < g.size() ==> (match (#[trigger] g.cells@[i]).inward {
            Option::Some(p) => g.neighbours_of(i).contains(p as int),
            Option::None => false,
        }),
{
    assert forall|i: int| 1 <= i < g.size() implies (match (#[trigger] g.cells@[i]).inward {
        Option::Some(p) => g.neighbours_of(i).contains(p as int),
        Option::None => false,
    }) by {
        match g.cells@[i].inward {
            Option::Some(p) => {
                assert(polar_mentions(g.cells@, i, p as int));
                assert(g.cells@[p as int].row_of() == g.cells@[i].row_of() - 1);
                assert(p as int != i);
                assert(g.adj_at(i, p as int));
                assert(g.neighbours_of(i).contains(p as int));
            },
            Option::None => {
                assert(false);
            },
        }
    }
}

/// A grid of polar cells: a centre cell surrounded by `height - 1` rings.
#[derive(Clone, Debug)]
pub struct CircularGrid {
    pub height: usize,
    pub cells: Vec<PolarCell>,
}

impl CircularGrid {
    /// The spatial adjacency of this grid, over indices; on a well-formed
    /// grid the stored mention is mirrored, so this relation is symmetric.
    pub open spec fn adj_at(&self, i: int, j: int) -> bool {
        0 <= i < self.cells@.len() && 0 <= j < self.cells@.len() && i != j
            && polar_mentions(self.cells@, i, j)
    }

    /// The clockwise ring mate of `ix`.
    pub fn cw_ix(&self, ix: usize) -> (r: usize)
        requires
            self.wf(),
            (ix as int) < self.size(),
        ensures
            r == self.cells@[ix as int].clockwise,
    {
        self.cells[ix].clockwise
    }

    /// The inward parent of `ix`, `None` at the centre.
    pub fn inward_ix(&self, ix: usize) -> (r: Option<usize>)
        requires
            self.wf(),
            (ix as int) < self.size(),
        ensures
            r == self.cells@[ix as int].inward,
    {
        self.cells[ix].inward
    }
}

impl AbstractGrid<PolarCell> for CircularGrid {
    open spec fn size(&self) -> int {
        self.cells@.len() as int
    }

    open spec fn neighbours_of(&self, i: int) -> Set<int> {
        Set::new(|j: int| self.adj_at(i, j))
    }

    open spec fn links_of(&self, i: int) -> Set<int> {
        if 0 <= i < self.cells@.len() {
            self.cells@[i].links_set()
        } else {
            Set::<int>::empty()
        }
    }

    open spec fn row_at(&self, i: int) -> int {
        if 0 <= i < self.cells@.len() {
            self.cells@[i].row_of()
        } else {
            0
        }
    }

    open spec fn col_at(&self, i: int) -> int {
        if 0 <= i < self.cells@.len() {
            self.cells@[i].col_of()
        } else {
            0
        }
    }

    open spec fn wf(&self) -> bool {
        polar_wf(self.cells@)
    }

    proof fn lemma_wf(&self) {
        assert forall|i: int, j: int| #![trigger self.neighbours_of(i).contains(j)]
            self.neighbours_of(i).contains(j) == self.neighbours_of(j).contains(i) by {
            if self.adj_at(i, j) {
                assert(polar_mentions(self.cells@, j, i));
            }
            if self.adj_at(j, i) {
                assert(polar_mentions(self.cells@, i, j));
            }
        }
        assert forall|i: int| (#[trigger] self.neighbours_of(i)).finite() by {
            lemma_bounded_set_finite(self.neighbours_of(i), self.size());
        }
        assert forall|i: int| (#[trigger] self.links_of(i)).finite() by {
            if 0 <= i < self.size() {
                self.cells@[i].lemma_inv();
            } else {
                assert(self.links_of(i) =~= Set::<int>::empty());
            }
        }
    }

    fn len(&self) -> (n: usize) {
        self.cells.len()
    }

    #[verifier::rlimit(100)]
    fn neighbours(&self, ix: usize) -> (v: Vec<usize>) {
        proof {
            assert(self.cells@[ix as int].outward@.no_duplicates());
        }
        let mut v: Vec<usize> = Vec::new();
        let outward = vec_copy(&self.cells[ix].outward);
        proof {
            lemma_idx_set(self.cells@[ix as int].outward@);
        }
        let mut k: usize = 0;
        while k < outward.len()
            invariant
                self.wf(),
                (ix as int) < self.size(),
                k <= outward@.len(),
                outward@ == self.cells@[ix as int].outward@,
                outward@.no_duplicates(),
                v@.no_duplicates(),
                forall|t: int| 0 <= t < v@.len()
                    ==> self.neighbours_of(ix as int).contains(#[trigger] v@[t] as int),
                forall|u: int| 0 <= u < v@.len()
                    ==> exists|t2: int| 0 <= t2 < k as int && outward@[t2] == #[trigger] v@[u],
                forall|t: int| 0 <= t < k as int && outward@[t] != ix
                    ==> exists|u: int| 0 <= u < v@.len() && v@[u] == #[trigger] outward@[t],
            decreases outward@.len() - k,
        {
            let o = outward[k];
            if o != ix {
                proof {
                    lemma_idx_set(self.cells@[ix as int].outward@);
                    assert(idx_set(self.cells@[ix as int].outward@).contains(o as int));
                    assert(polar_mentions(self.cells@, ix as int, o as int));
                    assert(0 <= (o as int) < self.size());
                    assert(self.adj_at(ix as int, o as int));
                    assert(!v@.contains(o)) by {
                        if v@.contains(o) {
                            let u = choose|u: int| 0 <= u < v@.len() && v@[u] == o;
                            let t2 = choose|t2: int| 0 <= t2 < k as int
                                && outward@[t2] == v@[u];
                            assert(outward@[t2] == outward@[k as int]);
                        }
                    }
                    crate::grid::lemma_no_dup_push(v@, o);
                }
                let ghost kk = v@.len() as int;
                let ghost vpre = v@;
                v.push(o);
                proof {
                    assert(v@[kk] == o);
                    assert forall|t: int| 0 <= t < k as int + 1 && outward@[t] != ix
                        implies exists|u: int| 0 <= u < v@.len()
                            && v@[u] == #[trigger] outward@[t] by {
                        if t < k as int {
                            let u = choose|u: int| 0 <= u < vpre.len() && vpre[u] == outward@[t];
                            assert(v@[u] == outward@[t]);
                        } else {
                            assert(v@[kk] == outward@[t]);
                        }
                    }
                    assert forall|u: int| 0 <= u < v@.len()
                        implies exists|t2: int| 0 <= t2 < k as int + 1
                            && outward@[t2] == #[trigger] v@[u] by {
                        if u < vpre.len() {
                            let t2 = choose|t2: int| 0 <= t2 < k as int
                                && outward@[t2] == vpre[u];
                            assert(outward@[t2] == v@[u]);
                        } else {
                            assert(outward@[k as int] == v@[u]);
                        }
                    }
                }
            }
            k = k + 1;
        }
        let ghost vout = v@;
        proof {
            assert forall|u: int| 0 <= u < vout.len()
                implies outward@.contains(#[trigger] vout[u]) by {
                let t2 = choose|t2: int| 0 <= t2 < outward@.len() && outward@[t2] == vout[u];
            }
        }
        let inw = self.cells[ix].inward;
        let ghost mut ki: int = -1;
        match inw {
            Option::Some(p) => {
                if p != ix {
                    proof {
                        assert(polar_mentions(self.cells@, ix as int, p as int));
                        assert(0 <= (p as int) < self.size());
                        assert(self.adj_at(ix as int, p as int));
                        ki = v@.len() as int;
                        assert(!outward@.contains(p));
                        assert(!v@.contains(p));
                        crate::grid::lemma_no_dup_push(v@, p);
                    }
                    v.push(p);
                }
            },
            Option::None => {},
        }
        let ccw = self.cells[ix].counter_clockwise;
        let ghost mut kc: int = -1;
        if ccw != ix {
            proof {
                assert(polar_mentions(self.cells@, ix as int, ccw as int));
                assert(0 <= (ccw as int) < self.size());
                assert(self.adj_at(ix as int, ccw as int));
                kc = v@.len() as int;
                assert(!outward@.contains(ccw));
                assert(!v@.contains(ccw)) by {
                    if v@.contains(ccw) {
                        let u = choose|u: int| 0 <= u < v@.len() && v@[u] == ccw;
                        if u < vout.len() {
                            assert(outward@.contains(ccw));
                        } else {
                            assert(v@[u] == inw.unwrap());
                        }
                    }
                }
                crate::grid::lemma_no_dup_push(v@, ccw);
            }
            v.push(ccw);
        }
        let cw = self.cells[ix].clockwise;
        let ghost mut kw: int = -1;
        if cw != ix && cw != ccw {
            proof {
                assert(polar_mentions(self.cells@, ix as int, cw as int));
                assert(0 <= (cw as int) < self.size());
                assert(self.adj_at(ix as int, cw as int));
                kw = v@.len() as int;
                assert(!outward@.contains(cw));
                assert(!v@.contains(cw)) by {
                    if v@.contains(cw) {
                        let u = choose|u: int| 0 <= u < v@.len() && v@[u] == cw;
                        if u < vout.len() {
                            assert(outward@.contains(cw));
                        } else if ki >= 0 && u == ki {
                            assert(v@[u] == inw.unwrap());
                        } else {
                            assert(v@[u] == ccw);
                        }
                    }
                }
                crate::grid::lemma_no_dup_push(v@, cw);
            }
            v.push(cw);
        }
        proof {
            assert forall|j: int| #[trigger] self.neighbours_of(ix as int).contains(j)
                implies exists|u: int| 0 <= u < v@.len() && v@[u] as int == j by {
                let cs = self.cells@;
                let i = ix as int;
                if cs[i].clockwise as int == j && cw != ccw {
                    assert(0 <= kw < v@.len() && v@[kw] as int == j);
                } else if cs[i].counter_clockwise as int == j
                    || (cs[i].clockwise as int == j && cw == ccw) {
                    assert(0 <= kc < v@.len() && v@[kc] as int == j);
                } else if inward_of(cs[i]) == Option::Some(j) {
                    assert(0 <= ki < v@.len() && v@[ki] as int == j);
                } else {
                    assert(idx_set(cs[i].outward@).contains(j));
                    lemma_idx_set(cs[i].outward@);
                    let t = choose|t: int| 0 <= t < cs[i].outward@.len()
                        && cs[i].outward@[t] as int == j;
                    assert(outward@[t] as int == j && outward@[t] != ix);
                    let u = choose|u: int| 0 <= u < vout.len() && vout[u] == outward@[t];
                    assert(v@[u] == outward@[t]);
                }
            }
        }
        v
    }

    fn links(&self, ix: usize) -> (v: Vec<usize>) {
        self.cells[ix].links()
    }

    fn cell(&self, ix: usize) -> (c: &PolarCell) {
        &self.cells[ix]
    }

    #[verifier::rlimit(100)]
    fn link(&mut self, ix1: usize, ix2: usize) {
        proof {
            assert(ix1 != ix2);
        }
        let c1 = &mut self.cells[ix1];
        c1.record_link(ix2);
        let c2 = &mut self.cells[ix2];
        c2.record_link(ix1);
        proof {
            let cs0 = old(self).cells@;
            let cs1 = self.cells@;
            assert(cs1.len() == cs0.len());
            assert forall|t: int| 0 <= t < cs1.len()
                implies (#[trigger] cs1[t]).outward@ == cs0[t].outward@
                    && cs1[t].clockwise == cs0[t].clockwise
                    && cs1[t].counter_clockwise == cs0[t].counter_clockwise
                    && cs1[t].inward == cs0[t].inward
                    && cs1[t].row == cs0[t].row
                    && cs1[t].col == cs0[t].col by {
                if t != ix1 as int && t != ix2 as int {
                    assert(cs1[t] == cs0[t]);
                }
            }
            assert forall|i: int, j: int| 0 <= i < cs1.len()
                implies (#[trigger] polar_mentions(cs1, i, j))
                    == (#[trigger] polar_mentions(cs0, i, j)) by {
                assert(cs1[i].outward@ == cs0[i].outward@);
                assert(cs1[i].clockwise == cs0[i].clockwise);
                assert(cs1[i].counter_clockwise == cs0[i].counter_clockwise);
                assert(cs1[i].inward == cs0[i].inward);
            }
            assert forall|t: int| 0 <= t < cs1.len() && t != ix1 as int && t != ix2 as int
                implies (#[trigger] cs1[t]).links_set() == cs0[t].links_set() by {
                assert(cs1[t] == cs0[t]);
            }
            assert forall|i: int, j: int| 0 <= i < cs1.len()
                && #[trigger] cs1[i].links_set().contains(j)
                implies 0 <= j < cs1.len() && i != j && polar_mentions(cs1, i, j)
                    && cs1[j].links_set().contains(i) by {
                if i == ix1 as int {
                    if j == ix2 as int {
                        assert(polar_mentions(cs0, i, j));
                        assert(cs1[j].links_set().contains(i));
                    } else {
                        assert(cs0[i].links_set().contains(j));
                        assert(cs0[j].links_set().contains(i));
                        assert(j != ix2 as int && (j == ix1 as int ==> false));
                        assert(cs1[j].links_set().contains(i));
                    }
                } else if i == ix2 as int {
                    if j == ix1 as int {
                        assert(polar_mentions(cs0, j, i));
                        assert(polar_mentions(cs0, i, j));
                        assert(cs1[j].links_set().contains(i));
                    } else {
                        assert(cs0[i].links_set().contains(j));
                        assert(cs0[j].links_set().contains(i));
                        assert(cs1[j].links_set().contains(i));
                    }
                } else {
                    assert(cs0[i].links_set().contains(j));
                    assert(cs0[j].links_set().contains(i));
                    if j == ix1 as int || j == ix2 as int {
                        assert(cs1[j].links_set().contains(i));
                    } else {
                        assert(cs1[j].links_set().contains(i));
                    }
                }
            }
            assert forall|t: int| 0 <= t < cs1.len() implies (#[trigger] cs1[t]).inv() by {
                if t != ix1 as int && t != ix2 as int {
                    assert(cs1[t] == cs0[t]);
                }
            }
            assert forall|i: int, j: int| 0 <= i < cs1.len()
                && #[trigger] polar_mentions(cs1, i, j)
                implies 0 <= j < cs1.len() && (i != j ==> polar_mentions(cs1, j, i)) by {
                assert(polar_mentions(cs0, i, j));
                if i != j {
                    assert(polar_mentions(cs0, j, i));
                }
            }
            assert(polar_wf(cs1));
            assert forall|i: int| #[trigger] self.neighbours_of(i)
                == old(self).neighbours_of(i) by {
                assert(self.neighbours_of(i) =~= old(self).neighbours_of(i));
            }
            assert(self.links_of(ix1 as int) =~= old(self).links_of(ix1 as int).insert(ix2 as int));
            assert(self.links_of(ix2 as int) =~= old(self).links_of(ix2 as int).insert(ix1 as int));
            assert forall|i: int| i != ix1 as int && i != ix2 as int
                implies #[trigger] self.links_of(i) == old(self).links_of(i) by {
                if 0 <= i < cs1.len() {
                    assert(cs1[i] == cs0[i]);
                } else {
                    assert(self.links_of(i) =~= Set::<int>::empty());
                    assert(old(self).links_of(i) =~= Set::<int>::empty());
                }
            }
        }
    }
}

/// Scans a cell's fields for a mention of `target`.
fn mentions_back(cells: &Vec<PolarCell>, j: usize, target: usize) -> (b: bool)
    requires
        (j as int) < cells@.len(),
    ensures
        b == polar_mentions(cells@, j as int, target as int),
{
    proof {
        lemma_idx_set(cells@[j as int].outward@);
    }
    let c = &cells[j];
    if c.clockwise == target || c.counter_clockwise == target {
        return true;
    }
    match c.inward {
        Option::Some(p) => {
            if p == target {
                return true;
            }
        },
        Option::None => {},
    }
    vec_contains(&c.outward, target)
}

/// Checks the structural well-formedness of a freshly built polar cell
/// array at run time; a `true` answer establishes the invariant.
#[verifier::rlimit(100)]
fn polar_ok(cells: &Vec<PolarCell>) -> (b: bool)
    ensures
        b ==> polar_wf(cells@) && polar_rings_ok(cells@)
            && (forall|i: int| 0 <= i < cells@.len()
                ==> (#[trigger] cells@[i]).links_set() == Set::<int>::empty()),
{
    let n = cells.len();
    if n == 0 {
        return false;
    }
    if !(cells[0].row == 0 && cells[0].col == 0 && cells[0].inward.is_none()
        && cells[0].clockwise == 0 && cells[0].counter_clockwise == 0) {
        return false;
    }
    let mut i: usize = 0;
    while i < n
        invariant
            n == cells@.len(),
            n >= 1,
            i <= n,
            forall|t: int| 0 <= t < i as int ==> (#[trigger] cells@[t]).links@.len() == 0,
            forall|t: int, j: int| 0 <= t < i as int && #[trigger] polar_mentions(cells@, t, j)
                ==> 0 <= j < cells@.len() && (t != j ==> polar_mentions(cells@, j, t)),
        decreases n - i,
    {
        if cells[i].links.len() != 0 {
            return false;
        }
        // check the three scalar mentions of cell i
        let cwv = cells[i].clockwise;
        if cwv >= n {
            return false;
        }
        if cwv != i && !mentions_back(cells, cwv, i) {
            return false;
        }
        let ccwv = cells[i].counter_clockwise;
        if ccwv >= n {
            return false;
        }
        if ccwv != i && !mentions_back(cells, ccwv, i) {
            return false;
        }
        match cells[i].inward {
            Option::Some(p) => {
                if p >= n {
                    return false;
                }
                if p != i && !mentions_back(cells, p, i) {
                    return false;
                }
            },
            Option::None => {},
        }
        // check the outward mentions of cell i
        let m = cells[i].outward.len();
        let mut k: usize = 0;
        while k < m
            invariant
                n == cells@.len(),
                i < n,
                m == cells@[i as int].outward@.len(),
                k <= m,
                forall|t: int| 0 <= t < k as int ==> {
                    let j = #[trigger] cells@[i as int].outward@[t] as int;
                    &&& 0 <= j < cells@.len()
                    &&& (i as int != j ==> polar_mentions(cells@, j, i as int))
                },
            decreases m - k,
        {
            let j = cells[i].outward[k];
            if j >= n {
                return false;
            }
            if j != i && !mentions_back(cells, j, i) {
                return false;
            }
            k = k + 1;
        }
        proof {
            lemma_idx_set(cells@[i as int].outward@);
            assert forall|j: int| #[trigger] polar_mentions(cells@, i as int, j)
                implies 0 <= j < cells@.len()
                    && (i as int != j ==> polar_mentions(cells@, j, i as int)) by {
                let cs = cells@;
                if cs[i as int].clockwise as int == j {
                } else if cs[i as int].counter_clockwise as int == j {
                } else if inward_of(cs[i as int]) == Option::Some(j) {
                } else {
                    assert(idx_set(cs[i as int].outward@).contains(j));
                    let t = choose|t: int| 0 <= t < cs[i as int].outward@.len()
                        && cs[i as int].outward@[t] as int == j;
                    assert(cs[i as int].outward@[t] as int == j);
                }
            }
        }
        i = i + 1;
    }
    // second pass: the ring structure
    let mut i2: usize = 1;
    while i2 < n
        invariant
            n == cells@.len(),
            n >= 1,
            1 <= i2,
            i2 <= n || n == 1,
            cells@[0].row_of() == 0 && cells@[0].col_of() == 0 && cells@[0].inward is None
                && cells@[0].clockwise == 0 && cells@[0].counter_clockwise == 0,
            forall|t: int| 1 <= t < i2 as int ==> {
                let c = #[trigger] cells@[t];
                &&& c.row_of() >= 1
                &&& (match c.inward {
                    Option::Some(p) => 0 <= (p as int) < cells@.len()
                        && cells@[p as int].row_of() == c.row_of() - 1,
                    Option::None => false,
                })
                &&& (c.clockwise as int) < cells@.len()
                    && cells@[c.clockwise as int].row_of() == c.row_of()
                    && cells@[c.clockwise as int].counter_clockwise as int == t
                &&& (c.counter_clockwise as int) < cells@.len()
                    && cells@[c.counter_clockwise as int].row_of() == c.row_of()
                    && cells@[c.counter_clockwise as int].clockwise as int == t
            },
        decreases n - i2,
    {
        if cells[i2].row == 0 {
            return false;
        }
        let cwv = cells[i2].clockwise;
        let ccwv = cells[i2].counter_clockwise;
        if cwv >= n || ccwv >= n {
            return false;
        }
        if !(cells[cwv].row == cells[i2].row && cells[cwv].counter_clockwise == i2) {
            return false;
        }
        if !(cells[ccwv].row == cells[i2].row && cells[ccwv].clockwise == i2) {
            return false;
        }
        match cells[i2].inward {
            Option::Some(p) => {
                if p >= n {
                    return false;
                }
                if !(cells[p].row == cells[i2].row - 1) {
                    return false;
                }
            },
            Option::None => {
                return false;
            },
        }
        i2 = i2 + 1;
    }
    // third pass: each column within its ring width
    let mut i3: usize = 0;
    while i3 < n
        invariant
            n == cells@.len(),
            i3 <= n,
            forall|t: int| 0 <= t < i3 as int
                ==> (#[trigger] cells@[t]).col_of() < cells@[t].columns
                    && cells@[t].columns >= 1,
        decreases n - i3,
    {
        if !(cells[i3].col < cells[i3].columns) {
            return false;
        }
        i3 = i3 + 1;
    }
    // fourth pass: the stored adjacency names no cell twice
    let mut i4: usize = 0;
    while i4 < n
        invariant
            n == cells@.len(),
            i4 <= n,
            forall|t: int| 0 <= t < i4 as int ==> {
                let c = #[trigger] cells@[t];
                &&& c.outward@.no_duplicates()
                &&& !c.outward@.contains(c.clockwise)
                &&& !c.outward@.contains(c.counter_clockwise)
                &&& (match c.inward {
                    Option::Some(p) => !c.outward@.contains(p)
                        && p != c.clockwise && p != c.counter_clockwise,
                    Option::None => true,
                })
            },
        decreases n - i4,
    {
        let m = cells[i4].outward.len();
        let mut k: usize = 0;
        while k < m
            invariant
                n == cells@.len(),
                i4 < n,
                m == cells@[i4 as int].outward@.len(),
                k <= m,
                forall|a: int, b: int| 0 <= a < b < k as int
                    ==> cells@[i4 as int].outward@[a] != cells@[i4 as int].outward@[b],
            decreases m - k,
        {
            let val = cells[i4].outward[k];
            let mut k2: usize = 0;
            while k2 < k
                invariant
                    n == cells@.len(),
                    i4 < n,
                    k < m,
                    m == cells@[i4 as int].outward@.len(),
                    k2 <= k,
                    val == cells@[i4 as int].outward@[k as int],
                    forall|a: int| 0 <= a < k2 as int
                        ==> cells@[i4 as int].outward@[a] != val,
                decreases k - k2,
            {
                if cells[i4].outward[k2] == val {
                    return false;
                }
                k2 = k2 + 1;
            }
            k = k + 1;
        }
        proof {
            assert(cells@[i4 as int].outward@.no_duplicates()) by {
                assert forall|a: int, b: int| 0 <= a < cells@[i4 as int].outward@.len()
                    && 0 <= b < cells@[i4 as int].outward@.len() && a != b
                    implies cells@[i4 as int].outward@[a]
                        != cells@[i4 as int].outward@[b] by {
                }
            }
        }
        if vec_contains(&cells[i4].outward, cells[i4].clockwise) {
            return false;
        }
        if vec_contains(&cells[i4].outward, cells[i4].counter_clockwise) {
            return false;
        }
        match cells[i4].inward {
            Option::Some(p) => {
                if vec_contains(&cells[i4].outward, p) {
                    return false;
                }
                if p == cells[i4].clockwise || p == cells[i4].counter_clockwise {
                    return false;
                }
            },
            Option::None => {},
        }
        i4 = i4 + 1;
    }
    proof {
        assert forall|i4: int| 0 <= i4 < cells@.len()
            implies (#[trigger] cells@[i4]).inv()
                && cells@[i4].links_set() == Set::<int>::empty() by {
            assert(cells@[i4].links@.len() == 0);
            assert(cells@[i4].links@ =~= Seq::<usize>::empty());
            lemma_idx_set(cells@[i4].links@);
            assert(cells@[i4].links_set() =~= Set::<int>::empty());
        }
        assert(polar_wf(cells@));
        assert(polar_rings_ok(cells@));
    }
    true
}

/// Checks at run time that a freshly built cell array carries exactly the
/// ring layout of the construction; a `true` answer establishes
/// `polar_layout`.
#[verifier::rlimit(100)]
fn polar_layout_ok(cells: &Vec<PolarCell>, rows: usize) -> (b: bool)
    requires
        rows >= 1,
    ensures
        b ==> polar_layout(cells@, rows as int),
{
    let n = cells.len();
    let mut start: usize = 0;
    let mut prev_start: usize = 0;
    let mut prev_count: usize = 1;
    let mut r: usize = 0;
    while r < rows
        invariant
            n == cells@.len(),
            r <= rows,
            start as int == ring_start(r as int),
            start <= n,
            r >= 1 ==> (prev_start as int == ring_start(r as int - 1)
                && prev_count as int == ring_count(r as int - 1)),
            prev_count >= 1,
            prev_count <= 50_000_000,
            forall|r2: int, j2: int| 0 <= r2 < r as int && 0 <= j2 < ring_count(r2) ==> {
                let c = #[trigger] ring_cell(cells@, r2, j2);
                &&& c.row as int == r2
                &&& c.col as int == j2
                &&& c.columns as int == ring_count(r2)
                &&& c.clockwise as int == (if j2 + 1 == ring_count(r2) {
                        ring_start(r2)
                    } else {
                        ring_start(r2) + j2 + 1
                    })
                &&& c.counter_clockwise as int == (if j2 == 0 {
                        ring_start(r2) + ring_count(r2) - 1
                    } else {
                        ring_start(r2) + j2 - 1
                    })
                &&& (r2 == 0 ==> c.inward is None)
                &&& (r2 >= 1 ==> inward_of(c) == Option::Some(
                        ring_start(r2 - 1) + (j2 * ring_count(r2 - 1)) / ring_count(r2)))
            },
        decreases rows - r,
    {
        // the size this ring must have, by the recurrence
        let count: usize;
        if r == 0 {
            count = 1;
            proof {
                assert(ring_count(0) == 1);
            }
        } else {
            let num: u128 = 1420u128 * (r as u128) + 113u128 * (prev_count as u128);
            let den: u128 = 226u128 * (prev_count as u128);
            let ratio128: u128 = num / den;
            let ratio: u128 = if ratio128 < 1 {
                1u128
            } else {
                ratio128
            };
            if ratio > 50_000_000 {
                return false;
            }
            proof {
                assert((prev_count as int) * (ratio as int) <= 2_500_000_000_000_000)
                    by (nonlinear_arith)
                    requires
                        prev_count as int <= 50_000_000,
                        ratio as int <= 50_000_000,
                        prev_count as int >= 0,
                        ratio as int >= 0;
            }
            let count128: u128 = (prev_count as u128) * ratio;
            if count128 < 1 || count128 > 50_000_000 {
                return false;
            }
            count = count128 as usize;
            proof {
                assert(count as int == ring_count(r as int)) by {
                    assert(ring_count(r as int) == ring_count(r as int - 1)
                        * (if (1420 * (r as int) + 113 * ring_count(r as int - 1))
                                / (226 * ring_count(r as int - 1)) < 1 {
                            1int
                        } else {
                            (1420 * (r as int) + 113 * ring_count(r as int - 1))
                                / (226 * ring_count(r as int - 1))
                        }));
                    assert(num as int == 1420 * (r as int) + 113 * (prev_count as int));
                    assert(den as int == 226 * (prev_count as int));
                }
            }
        }
        if n - start < count {
            return false;
        }
        let mut j: usize = 0;
        while j < count
            invariant
                n == cells@.len(),
                r < rows,
                j <= count,
                start as int == ring_start(r as int),
                count as int == ring_count(r as int),
                count <= 50_000_000,
                start + count <= n,
                r >= 1 ==> (prev_start as int == ring_start(r as int - 1)
                    && prev_count as int == ring_count(r as int - 1)),
                prev_count >= 1,
                prev_count <= 50_000_000,
                forall|j2: int| 0 <= j2 < j as int ==> {
                    let c = #[trigger] ring_cell(cells@, r as int, j2);
                    &&& c.row as int == r as int
                    &&& c.col as int == j2
                    &&& c.columns as int == ring_count(r as int)
                    &&& c.clockwise as int == (if j2 + 1 == ring_count(r as int) {
                            ring_start(r as int)
                        } else {
                            ring_start(r as int) + j2 + 1
                        })
                    &&& c.counter_clockwise as int == (if j2 == 0 {
                            ring_start(r as int) + ring_count(r as int) - 1
                        } else {
                            ring_start(r as int) + j2 - 1
                        })
                    &&& (r as int == 0 ==> c.inward is None)
                    &&& (r as int >= 1 ==> inward_of(c) == Option::Some(
                            ring_start(r as int - 1)
                                + (j2 * ring_count(r as int - 1)) / ring_count(r as int)))
                },
            decreases count - j,
        {
            let c = &cells[start + j];
            if !(c.row == r && c.col == j && c.columns == count) {
                return false;
            }
            let cw_expect = if j + 1 == count {
                start
            } else {
                start + j + 1
            };
            let ccw_expect = if j == 0 {
                start + count - 1
            } else {
                start + j - 1
            };
            if !(c.clockwise == cw_expect && c.counter_clockwise == ccw_expect) {
                return false;
            }
            if r == 0 {
                if c.inward.is_some() {
                    return false;
                }
            } else {
                proof {
                    assert((j as int) * (prev_count as int) <= 2_500_000_000_000_000)
                        by (nonlinear_arith)
                        requires
                            j as int <= 50_000_000,
                            prev_count as int <= 50_000_000,
                            j as int >= 0,
                            prev_count as int >= 0;
                }
                let pcol128 = (j as u128) * (prev_count as u128) / (count as u128);
                if pcol128 >= prev_count as u128 {
                    return false;
                }
                let pcol = pcol128 as usize;
                let expected = prev_start + pcol;
                proof {
                    assert(pcol as int
                        == ((j as int) * ring_count(r as int - 1)) / ring_count(r as int));
                }
                match c.inward {
                    Option::Some(p) => {
                        if p != expected {
                            return false;
                        }
                    },
                    Option::None => {
                        return false;
                    },
                }
            }
            proof {
                assert(ring_cell(cells@, r as int, j as int) == cells@[start as int + j as int]);
            }
            j = j + 1;
        }
        prev_start = start;
        prev_count = count;
        start = start + count;
        proof {
            assert(ring_start(r as int + 1) == ring_start(r as int) + ring_count(r as int));
        }
        r = r + 1;
    }
    if start != n {
        return false;
    }
    // the outward children are exactly the inverse of the inward relation
    let mut i: usize = 0;
    while i < n
        invariant
            n == cells@.len(),
            i <= n,
            forall|t: int, x: int| 0 <= t < i as int
                && #[trigger] idx_set(cells@[t].outward@).contains(x)
                ==> 0 <= x < cells@.len() && inward_of(cells@[x]) == Option::Some(t),
            forall|x: int| 0 <= x < i as int ==> (match (#[trigger] cells@[x]).inward {
                Option::Some(p) => (p as int) < cells@.len()
                    && idx_set(cells@[p as int].outward@).contains(x),
                Option::None => true,
            }),
        decreases n - i,
    {
        let m = cells[i].outward.len();
        let mut k: usize = 0;
        while k < m
            invariant
                n == cells@.len(),
                i < n,
                m == cells@[i as int].outward@.len(),
                k <= m,
                forall|t2: int| 0 <= t2 < k as int ==> {
                    let x = #[trigger] cells@[i as int].outward@[t2] as int;
                    &&& 0 <= x < cells@.len()
                    &&& inward_of(cells@[x]) == Option::Some(i as int)
                },
            decreases m - k,
        {
            let x = cells[i].outward[k];
            if x >= n {
                return false;
            }
            let okx = match cells[x].inward {
                Option::Some(p) => p == i,
                Option::None => false,
            };
            if !okx {
                return false;
            }
            k = k + 1;
        }
        proof {
            lemma_idx_set(cells@[i as int].outward@);
            assert forall|x: int| #[trigger] idx_set(cells@[i as int].outward@).contains(x)
                implies 0 <= x < cells@.len()
                    && inward_of(cells@[x]) == Option::Some(i as int) by {
                let t2 = choose|t2: int| 0 <= t2 < cells@[i as int].outward@.len()
                    && cells@[i as int].outward@[t2] as int == x;
                assert(cells@[i as int].outward@[t2] as int == x);
            }
        }
        match cells[i].inward {
            Option::Some(p) => {
                if p >= n {
                    return false;
                }
                if !vec_contains(&cells[p].outward, i) {
                    return false;
                }
                proof {
                    lemma_idx_set(cells@[p as int].outward@);
                }
            },
            Option::None => {},
        }
        i = i + 1;
    }
    proof {
        assert(polar_layout(cells@, rows as int));
    }
    true
}

impl CircularGrid {
    /// A fresh polar grid of `rows` rings (including the centre), every
    /// passage closed, laid out exactly as `polar_layout` describes: ring
    /// sizes by the circumference recurrence, consecutive cells per ring
    /// wired clockwise/counter-clockwise, inward parents by proportional
    /// column mapping and outward children their exact inverse. Should the
    /// run-time validation of the construction ever fail, the grid
    /// degenerates to the visible fallback of the contract: the lone centre
    /// cell, or `polar_degenerate` for two or more rings.
    pub fn new(rows: usize) -> (g: CircularGrid)
        ensures
            g.wf(),
            g.size() >= 1,
            g.height == rows,
            forall|i: int| g.links_of(i) == Set::<int>::empty(),
            rows <= 1 ==> g.size() == 1,
            rows >= 2 ==> g.size() >= 2,
            polar_layout(g.cells@, if rows <= 1 { 1int } else { rows as int })
                || polar_degenerate(g.cells@),
            polar_rings_ok(g.cells@),
            forall|i: int| 1 <= i < g.size() ==> (match (#[trigger] g.cells@[i]).inward {
                Option::Some(p) => g.neighbours_of(i).contains(p as int),
                Option::None => false,
            }),
    {
        let mut cells: Vec<PolarCell> = Vec::new();
        cells.push(PolarCell::new(0, 0, 0, 0, 1, Vec::new()));
        let mut ring_starts: Vec<usize> = Vec::new();
        let mut ring_counts: Vec<usize> = Vec::new();
        ring_starts.push(0);
        ring_counts.push(1);
        let mut previous_count: usize = 1;
        let mut ok = true;
        let mut i: usize = 1;
        while i < rows && ok
            invariant
                cells@.len() >= 1,
                cells@.len() <= 200_000_000,
                previous_count >= 1,
                previous_count <= 50_000_000,
                ring_starts@.len() == ring_counts@.len(),
                i >= 1,
                rows <= 1 ==> cells@.len() == 1,
                (ok && i >= 2) ==> cells@.len() >= 2,
            decreases rows - i,
        {
            // ratio = round(2 * pi * i / previous_count), with pi as 355/113
            let num: u128 = 1420u128 * (i as u128) + 113u128 * (previous_count as u128);
            let den: u128 = 226u128 * (previous_count as u128);
            let ratio128: u128 = num / den;
            let ratio: u128 = if ratio128 < 1 {
                1u128
            } else {
                ratio128
            };
            if ratio > 50_000_000 {
                ok = false;
                i = i + 1;
                continue;
            }
            proof {
                assert((previous_count as int) * (ratio as int)
                    <= 2_500_000_000_000_000) by (nonlinear_arith)
                    requires
                        previous_count as int <= 50_000_000,
                        ratio as int <= 50_000_000,
                        previous_count as int >= 0,
                        ratio as int >= 0;
            }
            let cell_count128: u128 = (previous_count as u128) * ratio;
            if cell_count128 < 1 || cell_count128 > 50_000_000
                || cells.len() > 100_000_000 {
                ok = false;
            } else {
                let cell_count: usize = cell_count128 as usize;
                let start = cells.len();
                let mut j: usize = 0;
                while j < cell_count
                    invariant
                        cells@.len() == start as int + j as int,
                        j <= cell_count,
                        cell_count >= 1,
                        cell_count <= 50_000_000,
                        start <= 100_000_001,
                    decreases cell_count - j,
                {
                    let current_cell_id = cells.len();
                    let ccw = if j == 0 {
                        current_cell_id + cell_count - 1
                    } else {
                        current_cell_id - 1
                    };
                    let cw = if j == cell_count - 1 {
                        start
                    } else {
                        current_cell_id + 1
                    };
                    cells.push(PolarCell::new(i, j, cw, ccw, cell_count, Vec::new()));
                    j = j + 1;
                }
                ring_starts.push(start);
                ring_counts.push(cell_count);
                previous_count = cell_count;
            }
            i = i + 1;
        }
        proof {
            if ok && rows >= 2 {
                assert(cells@.len() >= 2);
            }
        }
        // assign each outer-ring cell its inward parent by proportional
        // column mapping, and record it as an outward child of the parent
        if ok {
            let total = cells.len();
            let mut idx: usize = 1;
            while idx < total && ok
                invariant
                    total == cells@.len(),
                    idx <= total,
                    idx >= 1,
                    ring_starts@.len() == ring_counts@.len(),
                    rows <= 1 ==> cells@.len() == 1,
                    (ok && rows >= 2) ==> cells@.len() >= 2,
                decreases total - idx,
            {
                let row = cells[idx].row;
                let col = cells[idx].col;
                if row == 0 || row >= ring_counts.len() {
                    ok = false;
                } else {
                    let prev = ring_counts[row - 1];
                    let cur = ring_counts[row];
                    if cur == 0 {
                        ok = false;
                    } else {
                        if col > 1_000_000_000 || prev > 1_000_000_000 {
                            ok = false;
                            idx = idx + 1;
                            continue;
                        }
                        proof {
                            assert((col as int) * (prev as int)
                                <= 1_000_000_000_000_000_000) by (nonlinear_arith)
                                requires
                                    col as int <= 1_000_000_000,
                                    prev as int <= 1_000_000_000,
                                    col as int >= 0,
                                    prev as int >= 0;
                        }
                        let pcol128 = (col as u128) * (prev as u128) / (cur as u128);
                        if pcol128 >= prev as u128 {
                            ok = false;
                        } else {
                            let pcol = pcol128 as usize;
                            let base = ring_starts[row - 1];
                            if base > total || total - base <= pcol {
                                ok = false;
                            } else {
                                let parent = base + pcol;
                                let cp = &mut cells[parent];
                                cp.outward.push(idx);
                                let ci = &mut cells[idx];
                                ci.inward = Option::Some(parent);
                            }
                        }
                    }
                }
                idx = idx + 1;
            }
        }
        let rows_eff: usize = if rows <= 1 {
            1
        } else {
            rows
        };
        if ok && polar_ok(&cells) && polar_layout_ok(&cells, rows_eff) {
            let g = CircularGrid { height: rows, cells };
            proof {
                assert forall|t: int| g.links_of(t) == Set::<int>::empty() by {
                    if 0 <= t < g.size() {
                        assert(g.cells@[t].links_set() == Set::<int>::empty());
                    }
                }
                lemma_rings_inward_adjacent(g);
                assert(polar_layout(g.cells@, if rows <= 1 { 1int } else { rows as int }));
            }
            g
        } else {
            let mut lone: Vec<PolarCell> = Vec::new();
            if rows <= 1 {
                lone.push(PolarCell::new(0, 0, 0, 0, 1, Vec::new()));
            } else {
                let mut kids: Vec<usize> = Vec::new();
                kids.push(1);
                lone.push(PolarCell::new(0, 0, 0, 0, 1, kids));
                lone.push(PolarCell::new(1, 0, 1, 1, 1, Vec::new()));
                let ghost c1pre = lone@[1];
                let c1 = &mut lone[1];
                c1.inward = Option::Some(0);
                proof {
                    assert(lone@[1].links@ == c1pre.links@);
                    assert(lone@[1].links_set() == c1pre.links_set());
                    assert(lone@[1].inv());
                }
            }
            let g = CircularGrid { height: rows, cells: lone };
            proof {
                assert forall|t: int| 0 <= t < g.cells@.len()
                    implies (#[trigger] g.cells@[t]).links_set() == Set::<int>::empty() by {
                }
                if rows <= 1 {
                    assert(g.cells@.len() == 1);
                    assert(polar_wf(g.cells@)) by {
                        lemma_idx_set(g.cells@[0].outward@);
                        lemma_idx_set(g.cells@[0].links@);
                    }
                    assert(polar_rings_ok(g.cells@));
                    // the lone centre is itself the one-ring layout
                    assert(ring_count(0) == 1);
                    assert(ring_start(0) == 0);
                    assert(ring_start(1) == 1);
                    assert forall|r2: int, j2: int| 0 <= r2 < 1 && 0 <= j2 < ring_count(r2)
                        implies {
                            let c = #[trigger] ring_cell(g.cells@, r2, j2);
                            &&& c.row as int == r2
                            &&& c.col as int == j2
                            &&& c.columns as int == ring_count(r2)
                            &&& c.clockwise as int == (if j2 + 1 == ring_count(r2) {
                                    ring_start(r2)
                                } else {
                                    ring_start(r2) + j2 + 1
                                })
                            &&& c.counter_clockwise as int == (if j2 == 0 {
                                    ring_start(r2) + ring_count(r2) - 1
                                } else {
                                    ring_start(r2) + j2 - 1
                                })
                            &&& (r2 == 0 ==> c.inward is None)
                            &&& (r2 >= 1 ==> inward_of(c) == Option::Some(
                                    ring_start(r2 - 1)
                                        + (j2 * ring_count(r2 - 1)) / ring_count(r2)))
                        } by {
                        assert(r2 == 0 && j2 == 0);
                        assert(ring_cell(g.cells@, 0, 0) == g.cells@[0]);
                    }
                    assert forall|i2: int, x: int| 0 <= i2 < g.cells@.len()
                        && #[trigger] idx_set(g.cells@[i2].outward@).contains(x)
                        implies 0 <= x < g.cells@.len()
                            && inward_of(g.cells@[x]) == Option::Some(i2) by {
                        lemma_idx_set(g.cells@[i2].outward@);
                        let t2 = choose|t2: int| 0 <= t2 < g.cells@[i2].outward@.len()
                            && g.cells@[i2].outward@[t2] as int == x;
                    }
                    assert(polar_layout(g.cells@, 1));
                } else {
                    assert(g.cells@.len() == 2);
                    lemma_idx_set(g.cells@[0].outward@);
                    lemma_idx_set(g.cells@[1].outward@);
                    assert(idx_set(g.cells@[0].outward@).contains(1int)) by {
                        assert(g.cells@[0].outward@[0] as int == 1);
                    }
                    assert forall|j: int| !(#[trigger] idx_set(g.cells@[1].outward@).contains(j)) by {
                        assert(g.cells@[1].outward@.len() == 0);
                    }
                    assert forall|i2: int, j: int| 0 <= i2 < g.cells@.len()
                        && #[trigger] polar_mentions(g.cells@, i2, j)
                        implies 0 <= j < g.cells@.len()
                            && (i2 != j ==> polar_mentions(g.cells@, j, i2)) by {
                        if i2 == 0 {
                            assert(j == 0 || j == 1);
                            if j == 1 {
                                assert(inward_of(g.cells@[1]) == Option::Some(0int));
                                assert(polar_mentions(g.cells@, 1, 0));
                            }
                        } else {
                            assert(j == 0 || j == 1);
                            if j == 0 {
                                assert(polar_mentions(g.cells@, 0, 1));
                            }
                        }
                    }
                    assert(polar_wf(g.cells@));
                    assert(polar_rings_ok(g.cells@));
                    assert(polar_degenerate(g.cells@));
                }
                assert forall|t: int| g.links_of(t) == Set::<int>::empty() by {
                    if 0 <= t < g.size() {
                        assert(g.cells@[t].links_set() == Set::<int>::empty());
                    }
                }
                lemma_rings_inward_adjacent(g);
            }
            g
        }
    }

}

} // verus!
