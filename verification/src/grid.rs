//! The capability traits shared by every tessellation: a cell with a link
//! set, a grid with a neighbour relation and a link relation over dense
//! indices `0..size`, and the compass/rectangular refinements used by the
//! direction-aware generators.

use vstd::prelude::*;

verus! {

/// Converts a sequence of indices into the set of its elements, as `int`s.
pub open spec fn idx_set(s: Seq<usize>) -> Set<int> {
    s.map_values(|x: usize| x as int).to_set()
}

pub proof fn lemma_idx_set(s: Seq<usize>)
    ensures
        idx_set(s).finite(),
        forall|j: int| idx_set(s).contains(j) <==> exists|k: int| 0 <= k < s.len() && s[k] as int == j,
        forall|k: int| 0 <= k < s.len() ==> idx_set(s).contains(#[trigger] s[k] as int),
{
    let m = s.map_values(|x: usize| x as int);
    vstd::seq_lib::seq_to_set_is_finite(m);
    assert forall|j: int| idx_set(s).contains(j) implies exists|k: int|
        0 <= k < s.len() && s[k] as int == j by {
        assert(m.contains(j));
        let k = choose|k: int| 0 <= k < m.len() && m[k] == j;
        assert(s[k] as int == j);
    }
    assert forall|k: int| 0 <= k < s.len() implies idx_set(s).contains(#[trigger] s[k] as int) by {
        assert(m[k] == s[k] as int);
        assert(m.contains(m[k]));
    }
}

/// Appending an index inserts it into the element set.
pub proof fn lemma_idx_set_push(s: Seq<usize>, x: usize)
    ensures
        idx_set(s.push(x)) == idx_set(s).insert(x as int),
{
    lemma_idx_set(s);
    lemma_idx_set(s.push(x));
    assert forall|j: int| idx_set(s.push(x)).contains(j)
        implies idx_set(s).insert(x as int).contains(j) by {
        let k = choose|k: int| 0 <= k < s.push(x).len() && s.push(x)[k] as int == j;
        if k < s.len() {
            assert(s[k] as int == j);
            assert(idx_set(s).contains(j));
        } else {
            assert(j == x as int);
        }
    }
    assert forall|j: int| idx_set(s).insert(x as int).contains(j)
        implies idx_set(s.push(x)).contains(j) by {
        if j == x as int {
            assert(s.push(x)[s.len() as int] as int == j);
        } else {
            let k = choose|k: int| 0 <= k < s.len() && s[k] as int == j;
            assert(s.push(x)[k] as int == j);
        }
    }
    assert(idx_set(s.push(x)) =~= idx_set(s).insert(x as int));
}

/// Appending a fresh element keeps a sequence duplicate-free.
pub proof fn lemma_no_dup_push(s: Seq<usize>, x: usize)
    requires
        s.no_duplicates(),
        !s.contains(x),
    ensures
        s.push(x).no_duplicates(),
{
    let t = s.push(x);
    assert forall|i: int, j: int| 0 <= i < t.len() && 0 <= j < t.len() && i != j
        implies t[i] != t[j] by {
        if i < s.len() && j < s.len() {
            assert(t[i] == s[i] && t[j] == s[j]);
        } else if i < s.len() {
            assert(t[j] == x && t[i] == s[i]);
            if s[i] == x {
                assert(s.contains(x));
            }
        } else {
            assert(t[i] == x && t[j] == s[j]);
            if s[j] == x {
                assert(s.contains(x));
            }
        }
    }
}

/// A sequence without duplicates has exactly as many elements as its set,
/// provided the elements stay distinct after the cast to `int`.
pub proof fn lemma_idx_set_len(s: Seq<usize>)
    requires
        s.no_duplicates(),
    ensures
        idx_set(s).len() == s.len(),
{
    let m = s.map_values(|x: usize| x as int);
    assert(m.no_duplicates());
    m.unique_seq_to_set();
}

/// A cell of some tessellation: it carries its coordinates, fixed at
/// construction, and the set of cell indices it is linked to.
pub trait AbstractCell: Sized {
    /// The set of cell indices this cell is linked to (open passages).
    spec fn links_set(&self) -> Set<int>;

    /// The cell's row coordinate.
    spec fn row_of(&self) -> int;

    /// The cell's column coordinate.
    spec fn col_of(&self) -> int;

    /// Internal consistency of the stored link list.
    spec fn inv(&self) -> bool;

    proof fn lemma_inv(&self)
        requires
            self.inv(),
        ensures
            self.links_set().finite(),
    ;

    fn row(&self) -> (r: usize)
        ensures
            r as int == self.row_of(),
    ;

    fn col(&self) -> (c: usize)
        ensures
            c as int == self.col_of(),
    ;

    /// The link set as a duplicate-free vector.
    fn links(&self) -> (v: Vec<usize>)
        requires
            self.inv(),
        ensures
            v@.no_duplicates(),
            idx_set(v@) == self.links_set(),
            v@.len() == self.links_set().len(),
            forall|k: int| 0 <= k < v@.len() ==> self.links_set().contains(#[trigger] v@[k] as int),
            forall|j: int| #[trigger] self.links_set().contains(j)
                ==> exists|k: int| 0 <= k < v@.len() && v@[k] as int == j,
    ;

    /// Records a link to cell `ix`; linking twice is the same as linking once.
    fn link(&mut self, ix: usize)
        requires
            old(self).inv(),
        ensures
            final(self).inv(),
            final(self).links_set() == old(self).links_set().insert(ix as int),
            final(self).row_of() == old(self).row_of(),
            final(self).col_of() == old(self).col_of(),
    ;
}

/// A maze grid: a dense array of cells with a fixed neighbour relation and a
/// mutable link relation, both over indices `0..size`.
pub trait AbstractGrid<C: AbstractCell>: Sized {
    /// Number of cells.
    spec fn size(&self) -> int;

    /// The fixed, topology-derived adjacency at cell `i`.
    spec fn neighbours_of(&self, i: int) -> Set<int>;

    /// The current open passages at cell `i`.
    spec fn links_of(&self, i: int) -> Set<int>;

    /// The row coordinate of cell `i`, fixed at construction.
    spec fn row_at(&self, i: int) -> int;

    /// The column coordinate of cell `i`, fixed at construction.
    spec fn col_at(&self, i: int) -> int;

    /// Structural well-formedness, established at construction and preserved
    /// by every mutation.
    spec fn wf(&self) -> bool;

    /// The facts every well-formed grid guarantees: the neighbour relation is
    /// in-range, irreflexive and symmetric; the link relation is a symmetric
    /// subrelation of it; both are finite at every cell.
    proof fn lemma_wf(&self)
        requires
            self.wf(),
        ensures
            self.size() >= 0,
            forall|i: int, j: int| #[trigger] self.neighbours_of(i).contains(j)
                ==> 0 <= i < self.size() && 0 <= j < self.size() && i != j,
            forall|i: int, j: int| #![trigger self.neighbours_of(i).contains(j)]
                self.neighbours_of(i).contains(j) == self.neighbours_of(j).contains(i),
            forall|i: int, j: int| #[trigger] self.links_of(i).contains(j)
                ==> self.neighbours_of(i).contains(j),
            forall|i: int, j: int| #![trigger self.links_of(i).contains(j)]
                self.links_of(i).contains(j) == self.links_of(j).contains(i),
            forall|i: int| (#[trigger] self.neighbours_of(i)).finite(),
            forall|i: int| (#[trigger] self.links_of(i)).finite(),
    ;

    fn len(&self) -> (n: usize)
        requires
            self.wf(),
        ensures
            n as int == self.size(),
    ;

    /// The spatial neighbours of `ix`, each exactly once, in some order.
    fn neighbours(&self, ix: usize) -> (v: Vec<usize>)
        requires
            self.wf(),
            (ix as int) < self.size(),
        ensures
            v@.no_duplicates(),
            forall|k: int| 0 <= k < v@.len()
                ==> self.neighbours_of(ix as int).contains(#[trigger] v@[k] as int),
            forall|j: int| #[trigger] self.neighbours_of(ix as int).contains(j)
                ==> exists|k: int| 0 <= k < v@.len() && v@[k] as int == j,
    ;

    /// The current links of `ix`, without duplicates.
    fn links(&self, ix: usize) -> (v: Vec<usize>)
        requires
            self.wf(),
            (ix as int) < self.size(),
        ensures
            v@.no_duplicates(),
            idx_set(v@) == self.links_of(ix as int),
            v@.len() == self.links_of(ix as int).len(),
            forall|k: int| 0 <= k < v@.len()
                ==> self.links_of(ix as int).contains(#[trigger] v@[k] as int),
            forall|j: int| #[trigger] self.links_of(ix as int).contains(j)
                ==> exists|k: int| 0 <= k < v@.len() && v@[k] as int == j,
    ;

    /// Read access to a cell; its link set and coordinates agree with the
    /// grid's.
    fn cell(&self, ix: usize) -> (c: &C)
        requires
            self.wf(),
            (ix as int) < self.size(),
        ensures
            c.inv(),
            c.links_set() == self.links_of(ix as int),
            c.row_of() == self.row_at(ix as int),
            c.col_of() == self.col_at(ix as int),
    ;

    /// Opens the passage between two spatially adjacent cells, in both
    /// directions; everything else is left unchanged.
    fn link(&mut self, ix1: usize, ix2: usize)
        requires
            old(self).wf(),
            (ix1 as int) < old(self).size(),
            (ix2 as int) < old(self).size(),
            old(self).neighbours_of(ix1 as int).contains(ix2 as int),
        ensures
            final(self).wf(),
            final(self).size() == old(self).size(),
            forall|i: int| #[trigger] final(self).neighbours_of(i) == old(self).neighbours_of(i),
            final(self).links_of(ix1 as int) == old(self).links_of(ix1 as int).insert(ix2 as int),
            final(self).links_of(ix2 as int) == old(self).links_of(ix2 as int).insert(ix1 as int),
            forall|i: int| i != ix1 as int && i != ix2 as int
                ==> #[trigger] final(self).links_of(i) == old(self).links_of(i),
            forall|i: int| #[trigger] final(self).row_at(i) == old(self).row_at(i),
            forall|i: int| #[trigger] final(self).col_at(i) == old(self).col_at(i),
    ;
}

/// Agreement between an executable direction lookup and its specification.
pub open spec fn dir_agrees(r: Option<usize>, s: Option<int>) -> bool {
    match (r, s) {
        (Option::Some(a), Option::Some(b)) => a as int == b,
        (Option::None, Option::None) => true,
        _ => false,
    }
}

/// Grids with the four cardinal directions; a direction either names a
/// spatial neighbour or falls off the boundary.
pub trait CompassDirections<C: AbstractCell>: AbstractGrid<C> {
    spec fn north_of(&self, i: int) -> Option<int>;

    spec fn east_of(&self, i: int) -> Option<int>;

    spec fn south_of(&self, i: int) -> Option<int>;

    spec fn west_of(&self, i: int) -> Option<int>;

    fn north_ix(&self, ix: usize) -> (r: Option<usize>)
        requires
            self.wf(),
            (ix as int) < self.size(),
        ensures
            dir_agrees(r, self.north_of(ix as int)),
            r is Some ==> self.neighbours_of(ix as int).contains(r.unwrap() as int),
    ;

    fn east_ix(&self, ix: usize) -> (r: Option<usize>)
        requires
            self.wf(),
            (ix as int) < self.size(),
        ensures
            dir_agrees(r, self.east_of(ix as int)),
            r is Some ==> self.neighbours_of(ix as int).contains(r.unwrap() as int),
    ;

    fn south_ix(&self, ix: usize) -> (r: Option<usize>)
        requires
            self.wf(),
            (ix as int) < self.size(),
        ensures
            dir_agrees(r, self.south_of(ix as int)),
            r is Some ==> self.neighbours_of(ix as int).contains(r.unwrap() as int),
    ;

    fn west_ix(&self, ix: usize) -> (r: Option<usize>)
        requires
            self.wf(),
            (ix as int) < self.size(),
        ensures
            dir_agrees(r, self.west_of(ix as int)),
            r is Some ==> self.neighbours_of(ix as int).contains(r.unwrap() as int),
    ;
}

/// Marker for grids that support both the generic operations and the four
/// cardinal directions.
pub trait CompassGrid<C: AbstractCell>: AbstractGrid<C> + CompassDirections<C> {

}

/// Grids laid out as `height` rows of `width` cells in row-major order.
pub trait RectangularGrid<C: AbstractCell>: AbstractGrid<C> {
    spec fn width_of(&self) -> int;

    spec fn height_of(&self) -> int;

    proof fn lemma_dims(&self)
        requires
            self.wf(),
        ensures
            self.width_of() >= 0,
            self.height_of() >= 0,
            self.size() == self.width_of() * self.height_of(),
    ;

    fn width(&self) -> (w: usize)
        requires
            self.wf(),
        ensures
            w as int == self.width_of(),
    ;

    fn height(&self) -> (h: usize)
        requires
            self.wf(),
        ensures
            h as int == self.height_of(),
    ;

    fn ix(&self, row: usize, col: usize) -> (r: usize)
        requires
            self.wf(),
            (row as int) < self.height_of(),
            (col as int) < self.width_of(),
        ensures
            r as int == row as int * self.width_of() + col as int,
            (r as int) < self.size(),
    ;

    fn ix_opt(&self, row: usize, col: usize) -> (r: Option<usize>)
        requires
            self.wf(),
        ensures
            ((row as int) < self.height_of() && (col as int) < self.width_of()) ==> (r is Some
                && r.unwrap() as int == row as int * self.width_of() + col as int
                && (r.unwrap() as int) < self.size()),
            ((row as int) >= self.height_of() || (col as int) >= self.width_of()) ==> r is None,
    ;
}

/// Row-major indices are injective in the (row, col) pair.
pub proof fn lemma_row_major_unique(w: int, r1: int, c1: int, r2: int, c2: int)
    requires
        0 <= c1 < w,
        0 <= c2 < w,
        0 <= r1,
        0 <= r2,
        r1 * w + c1 == r2 * w + c2,
    ensures
        r1 == r2,
        c1 == c2,
{
    assert(r1 == r2 && c1 == c2) by (nonlinear_arith)
        requires
            0 <= c1 < w,
            0 <= c2 < w,
            0 <= r1,
            0 <= r2,
            r1 * w + c1 == r2 * w + c2;
}

/// Moving one row in a row-major layout shifts the index by the width.
pub proof fn lemma_row_shift(w: int, r: int, c: int, i: int)
    requires
        i == r * w + c,
    ensures
        i + w == (r + 1) * w + c,
        i - w == (r - 1) * w + c,
{
    assert(i + w == (r + 1) * w + c && i - w == (r - 1) * w + c) by (nonlinear_arith)
        requires
            i == r * w + c;
}

/// A row-major index is within a `width * height` grid.
pub proof fn lemma_row_major_in_range(w: int, h: int, r: int, c: int)
    requires
        0 <= r < h,
        0 <= c < w,
    ensures
        0 <= r * w + c < w * h,
{
    assert(0 <= r * w + c < w * h) by (nonlinear_arith)
        requires
            0 <= r < h,
            0 <= c < w;
}

} // verus!
