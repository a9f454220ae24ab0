//! The breadth-first solver: `initial` seeds the search at a start cell,
//! `next_step` expands the front cell of the FIFO frontier, and
//! `solve_with_longest_path` drives the search to completion from cell 0.
//! Every cell ends up labelled with its BFS distance from the start
//! (`path_length`, `-1` while unvisited) and its predecessor on a shortest
//! path (`parent`, `-1` while unvisited, the cell itself at the start).

use vstd::prelude::*;

use std::collections::VecDeque;

use crate::graph::{lemma_one_member, lemma_two_members};
use crate::grid::{AbstractCell, AbstractGrid};
use crate::rectangle::lemma_bounded_set_finite;

verus! {

/// Per-cell solver output: BFS distance from the solve start and the
/// predecessor on the shortest-path tree, both `-1` while the cell is
/// unvisited.
#[derive(Clone, Copy, Debug)]
pub struct PathBacktrackItem {
    pub path_length: i32,
    pub parent: i32,
}

/// One state of the breadth-first search: the per-cell labels and the FIFO
/// frontier of cells waiting to be expanded.
#[derive(Clone, Debug)]
pub struct DijkstraStep {
    pub cell_weights: Vec<PathBacktrackItem>,
    pub lookup_queue: VecDeque<usize>,
}

/// Cell `i` has been discovered.
pub open spec fn disc_at(w: Seq<PathBacktrackItem>, i: int) -> bool {
    w[i].parent >= 0
}

/// The recorded distance of cell `i`.
pub open spec fn pl_at(w: Seq<PathBacktrackItem>, i: int) -> int {
    w[i].path_length as int
}

/// The recorded predecessor of cell `i`.
pub open spec fn par_at(w: Seq<PathBacktrackItem>, i: int) -> int {
    w[i].parent as int
}

/// The set of discovered cells.
pub open spec fn disc_set_of(w: Seq<PathBacktrackItem>) -> Set<int> {
    Set::new(|i: int| 0 <= i < w.len() && disc_at(w, i))
}

/// Index `i` occurs in the queue `q`.
pub open spec fn in_seq(q: Seq<usize>, i: int) -> bool {
    exists|k: int| 0 <= k < q.len() && q[k] as int == i
}

/// The label structure of a breadth-first search in progress: exactly the
/// discovered cells carry distances; distances follow the parent edges,
/// which are open passages; the start is the unique cell at distance zero;
/// and no distance reaches the number of discovered cells.
#[verifier::opaque]
pub open spec fn solver_core<C: AbstractCell, G: AbstractGrid<C>>(g: &G, w: Seq<PathBacktrackItem>) -> bool {
    let n = g.size();
    &&& w.len() == n
    &&& forall|i: int| 0 <= i < n ==> ((#[trigger] disc_at(w, i)) <==> pl_at(w, i) >= 0)
    &&& forall|i: int| 0 <= i < n ==> -1 <= #[trigger] par_at(w, i) < n && -1 <= pl_at(w, i)
    &&& forall|i: int| 0 <= i < n && #[trigger] disc_at(w, i) && pl_at(w, i) == 0 ==> par_at(w, i) == i
    &&& forall|i: int, j: int| #![trigger disc_at(w, i), disc_at(w, j)]
            0 <= i < n && 0 <= j < n && disc_at(w, i) && disc_at(w, j)
            && pl_at(w, i) == 0 && pl_at(w, j) == 0 ==> i == j
    &&& forall|i: int| 0 <= i < n && #[trigger] disc_at(w, i) && pl_at(w, i) > 0
            ==> 0 <= par_at(w, i) < n && par_at(w, i) != i && disc_at(w, par_at(w, i))
                && g.links_of(i).contains(par_at(w, i)) && pl_at(w, i) == pl_at(w, par_at(w, i)) + 1
    &&& forall|i: int| 0 <= i < n && #[trigger] disc_at(w, i) ==> pl_at(w, i) < disc_set_of(w).len()
}

/// The frontier structure: the queue holds discovered cells in FIFO level
/// order - distances non-decreasing along the queue and spanning at most
/// two levels - while every expanded cell (discovered but no longer queued)
/// sits at or below the whole queue and has all the cells behind its
/// passages discovered within one extra step.
#[verifier::opaque]
pub open spec fn solver_queue<C: AbstractCell, G: AbstractGrid<C>>(g: &G, w: Seq<PathBacktrackItem>, q: Seq<usize>) -> bool {
    let n = g.size();
    &&& q.no_duplicates()
    &&& forall|k: int| 0 <= k < q.len() ==> 0 <= ((#[trigger] q[k]) as int) < n && disc_at(w, q[k] as int)
    &&& forall|k1: int, k2: int| #![trigger q[k1], q[k2]]
            0 <= k1 <= k2 < q.len() ==> pl_at(w, q[k1] as int) <= pl_at(w, q[k2] as int)
    &&& q.len() > 0 ==> pl_at(w, q[q.len() - 1] as int) <= pl_at(w, q[0] as int) + 1
    &&& forall|i: int, k: int| #![trigger disc_at(w, i), q[k]]
            0 <= i < n && disc_at(w, i) && !in_seq(q, i) && 0 <= k < q.len()
            ==> pl_at(w, i) <= pl_at(w, q[k] as int)
    &&& forall|i: int, j: int| 0 <= i < n && #[trigger] disc_at(w, i) && !in_seq(q, i)
            && #[trigger] g.links_of(i).contains(j)
            ==> 0 <= j < n && disc_at(w, j) && pl_at(w, j) <= pl_at(w, i) + 1
}

/// The full invariant tying a solver state to its grid.
pub open spec fn solver_inv<C: AbstractCell, G: AbstractGrid<C>>(g: &G, s: &DijkstraStep) -> bool {
    &&& solver_core(g, s.cell_weights@)
    &&& solver_queue(g, s.cell_weights@, s.lookup_queue@)
}

/// The facts a single expansion needs about the state it starts from.
proof fn lemma_queue_head_facts<C: AbstractCell, G: AbstractGrid<C>>(g: &G, s: &DijkstraStep)
    requires
        g.wf(),
        solver_inv(g, s),
        s.lookup_queue@.len() > 0,
    ensures
        s.cell_weights@.len() == g.size(),
        0 <= (s.lookup_queue@[0] as int) < g.size(),
        disc_at(s.cell_weights@, s.lookup_queue@[0] as int),
        s.lookup_queue@.no_duplicates(),
        s.lookup_queue@.subrange(1, s.lookup_queue@.len() as int).no_duplicates(),
{
    reveal(solver_core);
    reveal(solver_queue);
    let q0 = s.lookup_queue@;
    let tail = q0.subrange(1, q0.len() as int);
    assert forall|k1: int, k2: int| 0 <= k1 < tail.len() && 0 <= k2 < tail.len() && k1 != k2
        implies tail[k1] != tail[k2] by {
        assert(tail[k1] == q0[k1 + 1] && tail[k2] == q0[k2 + 1]);
    }
}

impl DijkstraStep {
    /// Cell `i` has been discovered.
    pub open spec fn disc(&self, i: int) -> bool {
        disc_at(self.cell_weights@, i)
    }

    /// The recorded distance of cell `i`.
    pub open spec fn dist(&self, i: int) -> int {
        pl_at(self.cell_weights@, i)
    }

    /// The recorded predecessor of cell `i`.
    pub open spec fn pred(&self, i: int) -> int {
        par_at(self.cell_weights@, i)
    }

    /// The first breadth-first state: the start cell is at distance zero from
    /// itself, every cell linked to it is at distance one and queued, and
    /// everything else is unvisited.
    pub fn initial<C: AbstractCell, T: AbstractGrid<C>>(g: &T, start: usize) -> (r: DijkstraStep)
        requires
            g.wf(),
            (start as int) < g.size(),
            g.size() <= 0x7fff_ffff,
        ensures
            solver_inv(g, &r),
            r.cell_weights@.len() == g.size(),
            r.disc(start as int) && r.dist(start as int) == 0 && r.pred(start as int) == start as int,
            forall|i: int| 0 <= i < g.size() && i != start as int
                ==> ((#[trigger] r.disc(i)) <==> g.links_of(start as int).contains(i)),
            forall|i: int| 0 <= i < g.size() && i != start as int && #[trigger] r.disc(i)
                ==> r.dist(i) == 1 && r.pred(i) == start as int,
            forall|i: int| #[trigger] in_seq(r.lookup_queue@, i)
                <==> g.links_of(start as int).contains(i),
    {
        proof {
            g.lemma_wf();
        }
        let n = g.len();
        let mut cell_weights: Vec<PathBacktrackItem> = Vec::new();
        let mut t: usize = 0;
        while t < n
            invariant
                t <= n,
                cell_weights@.len() == t as int,
                forall|i: int| 0 <= i < t as int
                    ==> (#[trigger] cell_weights@[i]).path_length == -1
                        && cell_weights@[i].parent == -1,
            decreases n - t,
        {
            cell_weights.push(PathBacktrackItem { path_length: -1, parent: -1 });
            t = t + 1;
        }
        cell_weights[start] = PathBacktrackItem { path_length: 0, parent: start as i32 };
        let links = g.links(start);
        let mut lookup_queue: VecDeque<usize> = VecDeque::new();
        let mut k: usize = 0;
        while k < links.len()
            invariant
                g.wf(),
                (start as int) < g.size(),
                g.size() <= 0x7fff_ffff,
                cell_weights@.len() == g.size(),
                k <= links@.len(),
                links@.no_duplicates(),
                forall|t2: int| 0 <= t2 < links@.len()
                    ==> g.links_of(start as int).contains(#[trigger] links@[t2] as int),
                forall|j: int| #[trigger] g.links_of(start as int).contains(j)
                    ==> exists|t2: int| 0 <= t2 < links@.len() && links@[t2] as int == j,
                cell_weights@[start as int].path_length == 0,
                cell_weights@[start as int].parent == start as i32,
                lookup_queue@ == links@.subrange(0, k as int),
                forall|t2: int| 0 <= t2 < k as int
                    ==> (#[trigger] cell_weights@[links@[t2] as int]).path_length == 1
                        && cell_weights@[links@[t2] as int].parent == start as i32,
                forall|i: int| 0 <= i < g.size() && i != start as int
                        && !(exists|t2: int| 0 <= t2 < k as int && links@[t2] as int == i)
                    ==> (#[trigger] cell_weights@[i]).path_length == -1
                        && cell_weights@[i].parent == -1,
            decreases links@.len() - k,
        {
            let ix = links[k];
            proof {
                g.lemma_wf();
                assert(g.links_of(start as int).contains(ix as int));
                assert(g.neighbours_of(start as int).contains(ix as int));
                assert(ix as int != start as int);
                assert(cell_weights@[ix as int].parent == -1) by {
                    if exists|t2: int| 0 <= t2 < k as int && links@[t2] as int == ix as int {
                        let t2 = choose|t2: int| 0 <= t2 < k as int && links@[t2] as int == ix as int;
                        assert(links@[t2] == links@[k as int]);
                        assert(false);
                    }
                }
            }
            lookup_queue.push_back(ix);
            cell_weights[ix] = PathBacktrackItem { path_length: 1, parent: start as i32 };
            proof {
                assert(lookup_queue@ =~= links@.subrange(0, k as int + 1));
            }
            k = k + 1;
        }
        let r = DijkstraStep { cell_weights, lookup_queue };
        proof {
            assert(r.lookup_queue@ =~= links@);
            lemma_initial_inv(g, &r, start as int, links@);
        }
        r
    }

    /// Expands the front cell of the frontier: every cell linked to it that
    /// is still unvisited is labelled with one more than its distance, made
    /// its child, and enqueued; everything else is unchanged.
    #[verifier::rlimit(100)]
    pub fn next_step<C: AbstractCell, T: AbstractGrid<C>>(&self, g: &T) -> (r: DijkstraStep)
        requires
            g.wf(),
            g.size() <= 0x7fff_ffff,
            solver_inv(g, self),
            self.lookup_queue@.len() > 0,
        ensures
            solver_inv(g, &r),
            r.cell_weights@.len() == g.size(),
            forall|i: int| 0 <= i < g.size() && #[trigger] disc_at(self.cell_weights@, i)
                ==> r.cell_weights@[i] == self.cell_weights@[i],
            forall|i: int| 0 <= i < g.size() && !(#[trigger] disc_at(self.cell_weights@, i))
                ==> (disc_at(r.cell_weights@, i)
                    <==> g.links_of(self.lookup_queue@[0] as int).contains(i)),
            forall|i: int| 0 <= i < g.size() && !(#[trigger] disc_at(self.cell_weights@, i))
                    && disc_at(r.cell_weights@, i)
                ==> pl_at(r.cell_weights@, i)
                        == pl_at(self.cell_weights@, self.lookup_queue@[0] as int) + 1
                    && par_at(r.cell_weights@, i) == self.lookup_queue@[0] as int,
            forall|t: int| 0 <= t < self.lookup_queue@.len() - 1
                ==> #[trigger] r.lookup_queue@[t] == self.lookup_queue@[t + 1],
            r.lookup_queue@.len() >= self.lookup_queue@.len() - 1,
            forall|t: int| self.lookup_queue@.len() - 1 <= t < r.lookup_queue@.len()
                ==> !disc_at(self.cell_weights@, (#[trigger] r.lookup_queue@[t]) as int)
                    && disc_at(r.cell_weights@, r.lookup_queue@[t] as int)
                    && 0 <= (r.lookup_queue@[t] as int) < g.size(),
            forall|i: int| 0 <= i < g.size() && !(#[trigger] disc_at(self.cell_weights@, i))
                    && disc_at(r.cell_weights@, i)
                ==> in_seq(r.lookup_queue@, i),
    {
        proof {
            g.lemma_wf();
        }
        let ghost w0 = self.cell_weights@;
        let ghost q0 = self.lookup_queue@;
        let mut lookup_queue = copy_queue(&self.lookup_queue);
        let mut cell_weights = copy_weights(&self.cell_weights);
        proof {
            lemma_queue_head_facts(g, self);
        }
        let cur_cell = lookup_queue.pop_front().unwrap();
        let ghost cur = cur_cell as int;
        let cur_weight = cell_weights[cur_cell].path_length;
        proof {
            lemma_bounded_set_finite(disc_set_of(w0), g.size());
        }
        let links = g.links(cur_cell);
        let ghost tail = q0.subrange(1, q0.len() as int);
        proof {
            assert(lookup_queue@ == tail);
        }
        let mut k: usize = 0;
        while k < links.len()
            invariant
                g.wf(),
                g.size() <= 0x7fff_ffff,
                solver_core(g, w0),
                solver_queue(g, w0, q0),
                q0.len() > 0,
                cur == q0[0] as int,
                0 <= cur < g.size(),
                cur == cur_cell as int,
                disc_at(w0, cur),
                cur_weight as int == pl_at(w0, cur),
                tail == q0.subrange(1, q0.len() as int),
                k <= links@.len(),
                links@.no_duplicates(),
                forall|t2: int| 0 <= t2 < links@.len()
                    ==> g.links_of(cur).contains(#[trigger] links@[t2] as int),
                forall|j: int| #[trigger] g.links_of(cur).contains(j)
                    ==> exists|t2: int| 0 <= t2 < links@.len() && links@[t2] as int == j,
                cell_weights@.len() == g.size(),
                solver_core(g, cell_weights@),
                forall|i: int| 0 <= i < g.size() && #[trigger] disc_at(w0, i)
                    ==> cell_weights@[i] == w0[i],
                forall|i: int| 0 <= i < g.size() && !(#[trigger] disc_at(w0, i))
                    ==> (disc_at(cell_weights@, i)
                        <==> exists|t2: int| 0 <= t2 < k as int && links@[t2] as int == i),
                forall|i: int| 0 <= i < g.size() && !(#[trigger] disc_at(w0, i))
                        && disc_at(cell_weights@, i)
                    ==> pl_at(cell_weights@, i) == cur_weight as int + 1
                        && par_at(cell_weights@, i) == cur,
                lookup_queue@.len() >= tail.len(),
                forall|t2: int| 0 <= t2 < tail.len() ==> lookup_queue@[t2] == #[trigger] tail[t2],
                forall|t2: int| tail.len() <= t2 < lookup_queue@.len()
                    ==> !disc_at(w0, (#[trigger] lookup_queue@[t2]) as int)
                        && disc_at(cell_weights@, lookup_queue@[t2] as int)
                        && 0 <= (lookup_queue@[t2] as int) < g.size(),
                forall|i: int| 0 <= i < g.size() && !disc_at(w0, i) && #[trigger] disc_at(cell_weights@, i)
                    ==> exists|t2: int| tail.len() <= t2 < lookup_queue@.len()
                        && lookup_queue@[t2] as int == i,
                lookup_queue@.no_duplicates(),
            decreases links@.len() - k,
        {
            let ix = links[k];
            proof {
                g.lemma_wf();
                assert(g.links_of(cur).contains(ix as int));
                assert(g.neighbours_of(cur).contains(ix as int));
                assert(0 <= (ix as int) < g.size());
            }
            if cell_weights[ix].parent < 0 {
                proof {
                    assert(!disc_at(w0, ix as int)) by {
                        if disc_at(w0, ix as int) {
                            assert(cell_weights@[ix as int] == w0[ix as int]);
                        }
                    }
                    assert(!disc_at(cell_weights@, ix as int));
                    assert(cell_weights@[cur] == w0[cur]);
                    assert(disc_at(cell_weights@, cur));
                    assert(pl_at(cell_weights@, cur) < disc_set_of(cell_weights@).len()) by {
                        reveal(solver_core);
                    }
                    lemma_bounded_set_finite(disc_set_of(cell_weights@), g.size());
                    assert(pl_at(cell_weights@, cur) + 1 <= 0x7fff_ffff);
                    assert(cur < 0x8000_0000);
                }
                let ghost qpre = lookup_queue@;
                proof {
                    assert(!qpre.contains(ix)) by {
                        if qpre.contains(ix) {
                            let t2 = choose|t2: int| 0 <= t2 < qpre.len() && qpre[t2] == ix;
                            if t2 < tail.len() {
                                reveal(solver_queue);
                                assert(tail[t2] == q0[t2 + 1]);
                                assert(disc_at(w0, q0[t2 + 1] as int));
                                assert(disc_at(w0, tail[t2] as int));
                            } else {
                                assert(disc_at(cell_weights@, qpre[t2] as int));
                            }
                        }
                    }
                    crate::grid::lemma_no_dup_push(qpre, ix);
                }
                lookup_queue.push_back(ix);
                let ghost wpre = cell_weights@;
                cell_weights[ix] = PathBacktrackItem {
                    path_length: cur_weight + 1,
                    parent: cur_cell as i32,
                };
                proof {
                    assert(cell_weights@[ix as int].path_length as int == pl_at(wpre, cur) + 1);
                    assert(cell_weights@[ix as int].parent as int == cur);
                    assert(cell_weights@[ix as int] == (PathBacktrackItem {
                        path_length: (pl_at(wpre, cur) + 1) as i32,
                        parent: cur as i32,
                    }));
                    assert(cell_weights@ == wpre.update(ix as int, (PathBacktrackItem {
                        path_length: (pl_at(wpre, cur) + 1) as i32,
                        parent: cur as i32,
                    })));
                    lemma_discover_one(g, wpre, cell_weights@, cur, ix as int);
                    lemma_track_queue(g.size(), w0, wpre, cell_weights@, qpre, lookup_queue@,
                        tail, ix);
                }
            } else {
                proof {
                    assert(disc_at(cell_weights@, ix as int));
                }
            }
            k = k + 1;
        }
        let r = DijkstraStep { cell_weights, lookup_queue };
        proof {
            lemma_next_step_inv(g, self, &r, links@);
        }
        r
    }
}

/// An element-for-element copy of the frontier queue.
fn copy_queue(q: &VecDeque<usize>) -> (r: VecDeque<usize>)
    ensures
        r@ == q@,
{
    let mut r: VecDeque<usize> = VecDeque::new();
    let mut k: usize = 0;
    while k < q.len()
        invariant
            k <= q@.len(),
            r@ == q@.subrange(0, k as int),
        decreases q@.len() - k,
    {
        r.push_back(q[k]);
        proof {
            assert(r@ =~= q@.subrange(0, k as int + 1));
        }
        k = k + 1;
    }
    proof {
        assert(r@ =~= q@);
    }
    r
}

/// An element-for-element copy of the per-cell labels.
fn copy_weights(w: &Vec<PathBacktrackItem>) -> (r: Vec<PathBacktrackItem>)
    ensures
        r@ == w@,
{
    let mut r: Vec<PathBacktrackItem> = Vec::new();
    let mut k: usize = 0;
    while k < w.len()
        invariant
            k <= w@.len(),
            r@ == w@.subrange(0, k as int),
        decreases w@.len() - k,
    {
        r.push(w[k]);
        proof {
            assert(r@ =~= w@.subrange(0, k as int + 1));
        }
        k = k + 1;
    }
    proof {
        assert(r@ =~= w@);
    }
    r
}

/// Tracks the frontier bookkeeping when one newly discovered cell is pushed.
#[verifier::rlimit(100)]
proof fn lemma_track_queue(n: int, w0: Seq<PathBacktrackItem>, wpre: Seq<PathBacktrackItem>, wpost: Seq<PathBacktrackItem>, qpre: Seq<usize>, qpost: Seq<usize>, tail: Seq<usize>, ix: usize)
    requires
        qpost == qpre.push(ix),
        wpost.len() == n,
        wpre.len() == n,
        forall|i: int| 0 <= i < n && i != ix as int ==> #[trigger] wpost[i] == wpre[i],
        0 <= (ix as int) < n,
        !disc_at(w0, ix as int),
        disc_at(wpost, ix as int),
        qpre.len() >= tail.len(),
        forall|t2: int| 0 <= t2 < tail.len() ==> qpre[t2] == #[trigger] tail[t2],
        forall|t2: int| tail.len() <= t2 < qpre.len()
            ==> !disc_at(w0, (#[trigger] qpre[t2]) as int)
                && disc_at(wpre, qpre[t2] as int)
                && 0 <= (qpre[t2] as int) < n,
        forall|i: int| 0 <= i < n && !disc_at(w0, i) && #[trigger] disc_at(wpre, i)
            ==> exists|t2: int| tail.len() <= t2 < qpre.len() && qpre[t2] as int == i,
    ensures
        qpost.len() >= tail.len(),
        forall|t2: int| 0 <= t2 < tail.len() ==> qpost[t2] == #[trigger] tail[t2],
        forall|t2: int| tail.len() <= t2 < qpost.len()
            ==> !disc_at(w0, (#[trigger] qpost[t2]) as int)
                && disc_at(wpost, qpost[t2] as int)
                && 0 <= (qpost[t2] as int) < n,
        forall|i: int| 0 <= i < n && !disc_at(w0, i) && #[trigger] disc_at(wpost, i)
            ==> exists|t2: int| tail.len() <= t2 < qpost.len() && qpost[t2] as int == i,
{
    assert forall|t2: int| tail.len() <= t2 < qpost.len()
        implies !disc_at(w0, (#[trigger] qpost[t2]) as int)
            && disc_at(wpost, qpost[t2] as int)
            && 0 <= (qpost[t2] as int) < n by {
        if t2 < qpre.len() {
            assert(qpost[t2] == qpre[t2]);
            if qpre[t2] as int != ix as int {
                assert(wpost[qpre[t2] as int] == wpre[qpre[t2] as int]);
            }
        } else {
            assert(qpost[t2] == ix);
        }
    }
    assert forall|i: int| 0 <= i < n && !disc_at(w0, i) && #[trigger] disc_at(wpost, i)
        implies exists|t2: int| tail.len() <= t2 < qpost.len() && qpost[t2] as int == i by {
        if i == ix as int {
            assert(qpost[qpost.len() - 1] as int == i);
        } else {
            assert(wpost[i] == wpre[i]);
            assert(disc_at(wpre, i));
            let t2 = choose|t2: int| tail.len() <= t2 < qpre.len() && qpre[t2] as int == i;
            assert(qpost[t2] as int == i);
        }
    }
}

/// Discovering one unvisited cell linked to the current cell preserves the
/// label structure.
#[verifier::rlimit(100)]
proof fn lemma_discover_one<C: AbstractCell, G: AbstractGrid<C>>(g: &G, w1: Seq<PathBacktrackItem>, w2: Seq<PathBacktrackItem>, cur: int, v: int)
    requires
        g.wf(),
        solver_core(g, w1),
        0 <= cur < g.size(),
        0 <= v < g.size(),
        disc_at(w1, cur),
        !disc_at(w1, v),
        g.links_of(cur).contains(v),
        w2 == w1.update(v, (PathBacktrackItem {
            path_length: (pl_at(w1, cur) + 1) as i32,
            parent: cur as i32,
        })),
        pl_at(w1, cur) + 1 <= 0x7fff_ffff,
        g.size() <= 0x7fff_ffff,
    ensures
        solver_core(g, w2),
        disc_set_of(w2) == disc_set_of(w1).insert(v),
{
    reveal(solver_core);
    reveal(solver_queue);
    g.lemma_wf();
    assert(v != cur);
    assert(0 <= pl_at(w1, cur));
    assert((cur as i32) as int == cur);
    assert(((pl_at(w1, cur) + 1) as i32) as int == pl_at(w1, cur) + 1);
    assert(par_at(w2, v) == cur);
    assert(pl_at(w2, v) == pl_at(w1, cur) + 1);
    assert(disc_at(w2, v));
    assert(disc_set_of(w2) =~= disc_set_of(w1).insert(v));
    lemma_bounded_set_finite(disc_set_of(w1), g.size());
    vstd::set::axiom_set_insert_len(disc_set_of(w1), v);
    assert(disc_set_of(w2).len() == disc_set_of(w1).len() + 1);
    assert forall|i: int| 0 <= i < g.size() implies ((#[trigger] disc_at(w2, i))
        <==> pl_at(w2, i) >= 0) by {
        if i != v {
            assert(w2[i] == w1[i]);
            assert((disc_at(w1, i)) <==> pl_at(w1, i) >= 0);
        } else {
            assert(disc_at(w2, v) && pl_at(w2, v) >= 0);
        }
    }
    assert forall|i: int| 0 <= i < g.size() && #[trigger] disc_at(w2, i) && pl_at(w2, i) == 0
        implies par_at(w2, i) == i by {
        if i != v {
            assert(w2[i] == w1[i]);
            assert(disc_at(w1, i));
            if pl_at(w1, i) == 0 {
                assert(par_at(w1, i) == i);
            }
        }
    }
    assert forall|i: int| 0 <= i < g.size() implies -1 <= #[trigger] par_at(w2, i) < g.size()
        && -1 <= pl_at(w2, i) by {
        if i != v {
            assert(w2[i] == w1[i]);
            assert(-1 <= par_at(w1, i) < g.size() && -1 <= pl_at(w1, i));
        }
    }
    assert forall|i: int, j: int| #![trigger disc_at(w2, i), disc_at(w2, j)]
        0 <= i < g.size() && 0 <= j < g.size() && disc_at(w2, i) && disc_at(w2, j)
        && pl_at(w2, i) == 0 && pl_at(w2, j) == 0 implies i == j by {
        if i != v && j != v {
            assert(w2[i] == w1[i] && w2[j] == w1[j]);
            assert(disc_at(w1, i) && disc_at(w1, j));
        }
    }
    assert forall|i: int| 0 <= i < g.size() && #[trigger] disc_at(w2, i)
        implies pl_at(w2, i) < disc_set_of(w2).len() by {
        if i != v {
            assert(w2[i] == w1[i]);
            assert(disc_at(w1, i));
        }
    }
    assert forall|i: int| 0 <= i < g.size() && #[trigger] disc_at(w2, i) && pl_at(w2, i) > 0
        implies 0 <= par_at(w2, i) < g.size() && par_at(w2, i) != i && disc_at(w2, par_at(w2, i))
            && g.links_of(i).contains(par_at(w2, i))
            && pl_at(w2, i) == pl_at(w2, par_at(w2, i)) + 1 by {
        if i == v {
            assert(par_at(w2, v) == cur);
            assert(g.links_of(v).contains(cur));
            assert(w2[cur] == w1[cur]);
        } else {
            assert(w2[i] == w1[i]);
            assert(disc_at(w1, i));
            assert(par_at(w1, i) != v);
            assert(w2[par_at(w1, i)] == w1[par_at(w1, i)]);
        }
    }
}

/// Reassembles the full invariant after `initial` has seeded the search.
#[verifier::rlimit(100)]
proof fn lemma_initial_inv<C: AbstractCell, G: AbstractGrid<C>>(g: &G, r: &DijkstraStep, start: int, links: Seq<usize>)
    requires
        g.wf(),
        0 <= start < g.size(),
        g.size() <= 0x7fff_ffff,
        r.cell_weights@.len() == g.size(),
        links.no_duplicates(),
        forall|t: int| 0 <= t < links.len()
            ==> g.links_of(start).contains(#[trigger] links[t] as int),
        forall|j: int| #[trigger] g.links_of(start).contains(j)
            ==> exists|t: int| 0 <= t < links.len() && links[t] as int == j,
        r.lookup_queue@ == links,
        pl_at(r.cell_weights@, start) == 0,
        par_at(r.cell_weights@, start) == start,
        forall|t: int| 0 <= t < links.len()
            ==> pl_at(r.cell_weights@, #[trigger] links[t] as int) == 1
                && par_at(r.cell_weights@, links[t] as int) == start,
        forall|i: int| 0 <= i < g.size() && i != start
                && !(exists|t: int| 0 <= t < links.len() && links[t] as int == i)
            ==> pl_at(r.cell_weights@, i) == -1 && par_at(r.cell_weights@, i) == -1,
    ensures
        solver_inv(g, r),
        r.disc(start) && r.dist(start) == 0 && r.pred(start) == start,
        forall|i: int| 0 <= i < g.size() && i != start
            ==> ((#[trigger] r.disc(i)) <==> g.links_of(start).contains(i)),
        forall|i: int| 0 <= i < g.size() && i != start && #[trigger] r.disc(i)
            ==> r.dist(i) == 1 && r.pred(i) == start,
        forall|i: int| #[trigger] in_seq(r.lookup_queue@, i) <==> g.links_of(start).contains(i),
{
    reveal(solver_core);
    reveal(solver_queue);
    g.lemma_wf();
    let w = r.cell_weights@;
    let q = r.lookup_queue@;
    let n = g.size();
    assert(!g.links_of(start).contains(start));
    // classify every cell: the start, a cell linked to it, or unvisited
    assert forall|i: int| #![trigger w[i]] 0 <= i < n implies
        ((i == start && pl_at(w, i) == 0 && par_at(w, i) == start)
            || (i != start && g.links_of(start).contains(i) && pl_at(w, i) == 1
                && par_at(w, i) == start)
            || (i != start && !g.links_of(start).contains(i) && pl_at(w, i) == -1
                && par_at(w, i) == -1)) by {
        if i != start {
            if g.links_of(start).contains(i) {
                let t = choose|t: int| 0 <= t < links.len() && links[t] as int == i;
                assert(pl_at(w, links[t] as int) == 1);
            } else {
                assert(!(exists|t: int| 0 <= t < links.len() && links[t] as int == i)) by {
                    if exists|t: int| 0 <= t < links.len() && links[t] as int == i {
                        let t = choose|t: int| 0 <= t < links.len() && links[t] as int == i;
                        assert(g.links_of(start).contains(links[t] as int));
                    }
                }
            }
        }
    }
    assert(disc_at(w, start));
    assert forall|i: int| #[trigger] in_seq(q, i) implies g.links_of(start).contains(i) by {
        let k = choose|k: int| 0 <= k < q.len() && q[k] as int == i;
        assert(g.links_of(start).contains(links[k] as int));
    }
    assert forall|i: int| g.links_of(start).contains(i) implies in_seq(q, i) by {
        let t = choose|t: int| 0 <= t < links.len() && links[t] as int == i;
        assert(q[t] as int == i);
    }
    // the distance bound: the start and each linked cell are distinct members
    lemma_bounded_set_finite(disc_set_of(w), n);
    assert forall|i: int| 0 <= i < n && #[trigger] disc_at(w, i)
        implies pl_at(w, i) < disc_set_of(w).len() by {
        assert(disc_set_of(w).contains(start));
        if i == start {
            lemma_one_member(disc_set_of(w), start);
        } else {
            assert(disc_set_of(w).contains(i));
            lemma_two_members(disc_set_of(w), start, i);
        }
    }
    assert(solver_core(g, w));
    // every queued cell sits at distance one, so the level order is flat
    assert forall|k: int| 0 <= k < q.len()
        implies pl_at(w, (#[trigger] q[k]) as int) == 1 by {
        assert(pl_at(w, links[k] as int) == 1);
    }
    assert forall|i: int, j: int| 0 <= i < n && #[trigger] disc_at(w, i) && !in_seq(q, i)
        && #[trigger] g.links_of(i).contains(j)
        implies 0 <= j < n && disc_at(w, j) && pl_at(w, j) <= pl_at(w, i) + 1 by {
        if i != start {
            assert(g.links_of(start).contains(i));
            assert(in_seq(q, i));
        }
        assert(i == start);
        assert(g.links_of(start).contains(j));
    }
    assert forall|i: int, k: int| #![trigger disc_at(w, i), q[k]]
        0 <= i < n && disc_at(w, i) && !in_seq(q, i) && 0 <= k < q.len()
        implies pl_at(w, i) <= pl_at(w, q[k] as int) by {
        if i != start {
            assert(g.links_of(start).contains(i));
            assert(in_seq(q, i));
        }
    }
    assert(solver_queue(g, w, q));
}

/// After one expansion, the cells no longer queued sit at or below the
/// whole queue, and their passages stay within one extra step.
#[verifier::rlimit(100)]
proof fn lemma_next_step_finished<C: AbstractCell, G: AbstractGrid<C>>(g: &G, s: &DijkstraStep, r: &DijkstraStep, links: Seq<usize>)
    requires
        g.wf(),
        g.size() <= 0x7fff_ffff,
        solver_inv(g, s),
        s.lookup_queue@.len() > 0,
        links.no_duplicates(),
        forall|t: int| 0 <= t < links.len()
            ==> g.links_of(s.lookup_queue@[0] as int).contains(#[trigger] links[t] as int),
        forall|j: int| #[trigger] g.links_of(s.lookup_queue@[0] as int).contains(j)
            ==> exists|t: int| 0 <= t < links.len() && links[t] as int == j,
        r.cell_weights@.len() == g.size(),
        solver_core(g, r.cell_weights@),
        forall|i: int| 0 <= i < g.size() && #[trigger] disc_at(s.cell_weights@, i)
            ==> r.cell_weights@[i] == s.cell_weights@[i],
        forall|i: int| 0 <= i < g.size() && !(#[trigger] disc_at(s.cell_weights@, i))
            ==> (disc_at(r.cell_weights@, i)
                <==> exists|t: int| 0 <= t < links.len() && links[t] as int == i),
        forall|i: int| 0 <= i < g.size() && !(#[trigger] disc_at(s.cell_weights@, i))
                && disc_at(r.cell_weights@, i)
            ==> pl_at(r.cell_weights@, i) == pl_at(s.cell_weights@, s.lookup_queue@[0] as int) + 1
                && par_at(r.cell_weights@, i) == s.lookup_queue@[0] as int,
        r.lookup_queue@.len() >= s.lookup_queue@.len() - 1,
        forall|t: int| 0 <= t < s.lookup_queue@.len() - 1
            ==> r.lookup_queue@[t] == #[trigger] s.lookup_queue@.subrange(1, s.lookup_queue@.len() as int)[t],
        forall|t: int| s.lookup_queue@.len() - 1 <= t < r.lookup_queue@.len()
            ==> !disc_at(s.cell_weights@, (#[trigger] r.lookup_queue@[t]) as int)
                && disc_at(r.cell_weights@, r.lookup_queue@[t] as int)
                && 0 <= (r.lookup_queue@[t] as int) < g.size(),
        forall|i: int| 0 <= i < g.size() && !disc_at(s.cell_weights@, i)
                && #[trigger] disc_at(r.cell_weights@, i)
            ==> exists|t: int| s.lookup_queue@.len() - 1 <= t < r.lookup_queue@.len()
                && r.lookup_queue@[t] as int == i,
        r.lookup_queue@.no_duplicates(),
    ensures
        forall|i: int, k: int| #![trigger disc_at(r.cell_weights@, i), r.lookup_queue@[k]]
            0 <= i < g.size() && disc_at(r.cell_weights@, i) && !in_seq(r.lookup_queue@, i)
            && 0 <= k < r.lookup_queue@.len()
            ==> pl_at(r.cell_weights@, i) <= pl_at(r.cell_weights@, r.lookup_queue@[k] as int),
        forall|i: int, j: int| 0 <= i < g.size() && #[trigger] disc_at(r.cell_weights@, i)
            && !in_seq(r.lookup_queue@, i) && #[trigger] g.links_of(i).contains(j)
            ==> 0 <= j < g.size() && disc_at(r.cell_weights@, j)
                && pl_at(r.cell_weights@, j) <= pl_at(r.cell_weights@, i) + 1,
{
    reveal(solver_core);
    reveal(solver_queue);
    g.lemma_wf();
    let n = g.size();
    let w0 = s.cell_weights@;
    let q0 = s.lookup_queue@;
    let w = r.cell_weights@;
    let q = r.lookup_queue@;
    let cur = q0[0] as int;
    let plcur = pl_at(w0, cur);
    let tail_len = q0.len() - 1;
    assert(disc_at(w0, cur));
    assert(pl_at(w, cur) == plcur);
    assert forall|t: int| 0 <= t < tail_len implies #[trigger] q[t] == q0[t + 1] by {
        assert(q[t] == q0.subrange(1, q0.len() as int)[t]);
    }
    assert forall|k: int| 0 <= k < q0.len()
        implies plcur <= pl_at(w0, (#[trigger] q0[k]) as int) <= plcur + 1 by {
        assert(pl_at(w0, q0[0] as int) <= pl_at(w0, q0[k] as int));
        assert(pl_at(w0, q0[k] as int) <= pl_at(w0, q0[q0.len() - 1] as int));
        assert(pl_at(w0, q0[q0.len() - 1] as int) <= pl_at(w0, q0[0] as int) + 1);
    }
    assert forall|k: int| 0 <= k < q.len()
        implies plcur <= pl_at(w, (#[trigger] q[k]) as int) by {
        if k < tail_len {
            assert(q[k] == q0[k + 1]);
            assert(disc_at(w0, q0[k + 1] as int));
            assert(w[q0[k + 1] as int] == w0[q0[k + 1] as int]);
        } else {
            assert(!disc_at(w0, q[k] as int) && disc_at(w, q[k] as int));
        }
    }
    // cells at or below the queue
    assert forall|i: int, k: int| #![trigger disc_at(w, i), q[k]]
        0 <= i < n && disc_at(w, i) && !in_seq(q, i) && 0 <= k < q.len()
        implies pl_at(w, i) <= pl_at(w, q[k] as int) by {
        assert(plcur <= pl_at(w, q[k] as int));
        if disc_at(w0, i) {
            if in_seq(q0, i) {
                let t = choose|t: int| 0 <= t < q0.len() && q0[t] as int == i;
                if t == 0 {
                    assert(pl_at(w, i) == plcur);
                } else {
                    assert(q[t - 1] == q0[t]);
                    assert(in_seq(q, i));
                }
            } else {
                assert(pl_at(w0, i) <= pl_at(w0, q0[0] as int));
            }
        } else {
            // newly discovered cells are all on the queue
            let t = choose|t: int| tail_len <= t < q.len() && q[t] as int == i;
            assert(in_seq(q, i));
        }
    }
    // their passages stay within one extra step
    assert forall|i: int, j: int| 0 <= i < n && #[trigger] disc_at(w, i) && !in_seq(q, i)
        && #[trigger] g.links_of(i).contains(j)
        implies 0 <= j < n && disc_at(w, j) && pl_at(w, j) <= pl_at(w, i) + 1 by {
        assert(0 <= j < n);
        if i == cur {
            assert(exists|t: int| 0 <= t < links.len() && links[t] as int == j);
            if disc_at(w0, j) {
                assert(w[j] == w0[j]);
                if in_seq(q0, j) {
                    let t = choose|t: int| 0 <= t < q0.len() && q0[t] as int == j;
                    assert(plcur <= pl_at(w0, q0[t] as int) <= plcur + 1);
                } else {
                    assert(pl_at(w0, j) <= pl_at(w0, q0[0] as int));
                }
            } else {
                assert(disc_at(w, j));
                assert(pl_at(w, j) == plcur + 1);
            }
        } else if disc_at(w0, i) {
            assert(!in_seq(q0, i)) by {
                if in_seq(q0, i) {
                    let t = choose|t: int| 0 <= t < q0.len() && q0[t] as int == i;
                    assert(t != 0);
                    assert(q[t - 1] == q0[t]);
                    assert(in_seq(q, i));
                }
            }
            assert(disc_at(w0, j) && pl_at(w0, j) <= pl_at(w0, i) + 1);
            assert(w[j] == w0[j] && w[i] == w0[i]);
        } else {
            let t = choose|t: int| tail_len <= t < q.len() && q[t] as int == i;
            assert(in_seq(q, i));
        }
    }
}

/// Reassembles the full invariant after `next_step` has expanded one cell.
#[verifier::rlimit(100)]
/// The level-order facts after one expansion: the new queue's distances are
/// non-decreasing and span at most two levels, expanded cells sit at or
/// below the queue, and their passages stay within one extra step.
#[verifier::rlimit(100)]
proof fn lemma_next_step_levels<C: AbstractCell, G: AbstractGrid<C>>(g: &G, s: &DijkstraStep, r: &DijkstraStep, links: Seq<usize>)
    requires
        g.wf(),
        g.size() <= 0x7fff_ffff,
        solver_inv(g, s),
        s.lookup_queue@.len() > 0,
        links.no_duplicates(),
        forall|t: int| 0 <= t < links.len()
            ==> g.links_of(s.lookup_queue@[0] as int).contains(#[trigger] links[t] as int),
        forall|j: int| #[trigger] g.links_of(s.lookup_queue@[0] as int).contains(j)
            ==> exists|t: int| 0 <= t < links.len() && links[t] as int == j,
        r.cell_weights@.len() == g.size(),
        solver_core(g, r.cell_weights@),
        forall|i: int| 0 <= i < g.size() && #[trigger] disc_at(s.cell_weights@, i)
            ==> r.cell_weights@[i] == s.cell_weights@[i],
        forall|i: int| 0 <= i < g.size() && !(#[trigger] disc_at(s.cell_weights@, i))
            ==> (disc_at(r.cell_weights@, i)
                <==> exists|t: int| 0 <= t < links.len() && links[t] as int == i),
        forall|i: int| 0 <= i < g.size() && !(#[trigger] disc_at(s.cell_weights@, i))
                && disc_at(r.cell_weights@, i)
            ==> pl_at(r.cell_weights@, i) == pl_at(s.cell_weights@, s.lookup_queue@[0] as int) + 1
                && par_at(r.cell_weights@, i) == s.lookup_queue@[0] as int,
        r.lookup_queue@.len() >= s.lookup_queue@.len() - 1,
        forall|t: int| 0 <= t < s.lookup_queue@.len() - 1
            ==> r.lookup_queue@[t] == #[trigger] s.lookup_queue@.subrange(1, s.lookup_queue@.len() as int)[t],
        forall|t: int| s.lookup_queue@.len() - 1 <= t < r.lookup_queue@.len()
            ==> !disc_at(s.cell_weights@, (#[trigger] r.lookup_queue@[t]) as int)
                && disc_at(r.cell_weights@, r.lookup_queue@[t] as int)
                && 0 <= (r.lookup_queue@[t] as int) < g.size(),
        forall|i: int| 0 <= i < g.size() && !disc_at(s.cell_weights@, i)
                && #[trigger] disc_at(r.cell_weights@, i)
            ==> exists|t: int| s.lookup_queue@.len() - 1 <= t < r.lookup_queue@.len()
                && r.lookup_queue@[t] as int == i,
        r.lookup_queue@.no_duplicates(),
    ensures
        forall|k1: int, k2: int| #![trigger r.lookup_queue@[k1], r.lookup_queue@[k2]]
            0 <= k1 <= k2 < r.lookup_queue@.len()
            ==> pl_at(r.cell_weights@, r.lookup_queue@[k1] as int)
                <= pl_at(r.cell_weights@, r.lookup_queue@[k2] as int),
        r.lookup_queue@.len() > 0
            ==> pl_at(r.cell_weights@, r.lookup_queue@[r.lookup_queue@.len() - 1] as int)
                <= pl_at(r.cell_weights@, r.lookup_queue@[0] as int) + 1,
{
    reveal(solver_queue);
    let n = g.size();
    let w0 = s.cell_weights@;
    let q0 = s.lookup_queue@;
    let w = r.cell_weights@;
    let q = r.lookup_queue@;
    let cur = q0[0] as int;
    let plcur = pl_at(w0, cur);
    let tail_len = q0.len() - 1;
    assert(disc_at(w0, cur));
    assert(pl_at(w, cur) == plcur);
    assert forall|t: int| 0 <= t < tail_len implies #[trigger] q[t] == q0[t + 1] by {
        assert(q[t] == q0.subrange(1, q0.len() as int)[t]);
    }
    // every old queue label sits between plcur and plcur + 1
    assert forall|k: int| 0 <= k < q0.len()
        implies plcur <= pl_at(w0, (#[trigger] q0[k]) as int) <= plcur + 1 by {
        assert(pl_at(w0, q0[0] as int) <= pl_at(w0, q0[k] as int));
        assert(pl_at(w0, q0[k] as int) <= pl_at(w0, q0[q0.len() - 1] as int));
        assert(pl_at(w0, q0[q0.len() - 1] as int) <= pl_at(w0, q0[0] as int) + 1);
    }
    // labels on the new queue: tail entries keep theirs, appended sit one up
    assert forall|k: int| 0 <= k < q.len()
        implies (if k < tail_len {
            pl_at(w, (#[trigger] q[k]) as int) == pl_at(w0, q0[k + 1] as int)
        } else {
            pl_at(w, (#[trigger] q[k]) as int) == plcur + 1
        }) by {
        if k < tail_len {
            assert(q[k] == q0[k + 1]);
            assert(disc_at(w0, q0[k + 1] as int));
            assert(w[q0[k + 1] as int] == w0[q0[k + 1] as int]);
        } else {
            assert(!disc_at(w0, q[k] as int) && disc_at(w, q[k] as int));
        }
    }
    // cur is not on the new queue
    assert(!in_seq(q, cur)) by {
        if in_seq(q, cur) {
            let k = choose|k: int| 0 <= k < q.len() && q[k] as int == cur;
            if k < tail_len {
                assert(q0[k + 1] as int == cur);
                assert(q0[0] == q0[k + 1]);
            } else {
                assert(!disc_at(w0, cur));
            }
        }
    }
    // order
    assert forall|k1: int, k2: int| #![trigger q[k1], q[k2]] 0 <= k1 <= k2 < q.len()
        implies pl_at(w, q[k1] as int) <= pl_at(w, q[k2] as int) by {
        if k2 < tail_len {
            assert(q[k1] == q0[k1 + 1] && q[k2] == q0[k2 + 1]);
            assert(pl_at(w0, q0[k1 + 1] as int) <= pl_at(w0, q0[k2 + 1] as int));
        } else if k1 < tail_len {
            assert(pl_at(w, q[k1] as int) <= plcur + 1);
        }
    }
    // spread
    if q.len() > 0 {
        assert(pl_at(w, q[q.len() - 1] as int) <= pl_at(w, q[0] as int) + 1) by {
            if q.len() - 1 < tail_len {
                assert(q[q.len() - 1] == q0[q.len() as int]);
                assert(pl_at(w0, q0[q.len() as int] as int) <= plcur + 1);
                assert(q[0] == q0[1]);
                assert(pl_at(w0, q0[1] as int) >= plcur);
            } else if tail_len > 0 {
                assert(pl_at(w, q[0] as int) == pl_at(w0, q0[1] as int));
                assert(pl_at(w0, q0[1] as int) >= plcur);
            } else {
                assert(pl_at(w, q[0] as int) == plcur + 1);
            }
        }
    }
}

proof fn lemma_next_step_inv<C: AbstractCell, G: AbstractGrid<C>>(g: &G, s: &DijkstraStep, r: &DijkstraStep, links: Seq<usize>)
    requires
        g.wf(),
        g.size() <= 0x7fff_ffff,
        solver_inv(g, s),
        s.lookup_queue@.len() > 0,
        links.no_duplicates(),
        forall|t: int| 0 <= t < links.len()
            ==> g.links_of(s.lookup_queue@[0] as int).contains(#[trigger] links[t] as int),
        forall|j: int| #[trigger] g.links_of(s.lookup_queue@[0] as int).contains(j)
            ==> exists|t: int| 0 <= t < links.len() && links[t] as int == j,
        r.cell_weights@.len() == g.size(),
        solver_core(g, r.cell_weights@),
        forall|i: int| 0 <= i < g.size() && #[trigger] disc_at(s.cell_weights@, i)
            ==> r.cell_weights@[i] == s.cell_weights@[i],
        forall|i: int| 0 <= i < g.size() && !(#[trigger] disc_at(s.cell_weights@, i))
            ==> (disc_at(r.cell_weights@, i)
                <==> exists|t: int| 0 <= t < links.len() && links[t] as int == i),
        forall|i: int| 0 <= i < g.size() && !(#[trigger] disc_at(s.cell_weights@, i))
                && disc_at(r.cell_weights@, i)
            ==> pl_at(r.cell_weights@, i) == pl_at(s.cell_weights@, s.lookup_queue@[0] as int) + 1
                && par_at(r.cell_weights@, i) == s.lookup_queue@[0] as int,
        r.lookup_queue@.len() >= s.lookup_queue@.len() - 1,
        forall|t: int| 0 <= t < s.lookup_queue@.len() - 1
            ==> r.lookup_queue@[t] == #[trigger] s.lookup_queue@.subrange(1, s.lookup_queue@.len() as int)[t],
        forall|t: int| s.lookup_queue@.len() - 1 <= t < r.lookup_queue@.len()
            ==> !disc_at(s.cell_weights@, (#[trigger] r.lookup_queue@[t]) as int)
                && disc_at(r.cell_weights@, r.lookup_queue@[t] as int)
                && 0 <= (r.lookup_queue@[t] as int) < g.size(),
        forall|i: int| 0 <= i < g.size() && !disc_at(s.cell_weights@, i)
                && #[trigger] disc_at(r.cell_weights@, i)
            ==> exists|t: int| s.lookup_queue@.len() - 1 <= t < r.lookup_queue@.len()
                && r.lookup_queue@[t] as int == i,
        r.lookup_queue@.no_duplicates(),
    ensures
        solver_inv(g, r),
        forall|t: int| 0 <= t < s.lookup_queue@.len() - 1
            ==> #[trigger] r.lookup_queue@[t] == s.lookup_queue@[t + 1],
        forall|i: int| 0 <= i < g.size() && !(#[trigger] disc_at(s.cell_weights@, i))
                && disc_at(r.cell_weights@, i)
            ==> in_seq(r.lookup_queue@, i),
{
    reveal(solver_core);
    reveal(solver_queue);
    g.lemma_wf();
    let n = g.size();
    let w0 = s.cell_weights@;
    let q0 = s.lookup_queue@;
    let w = r.cell_weights@;
    let q = r.lookup_queue@;
    let cur = q0[0] as int;
    let tail_len = q0.len() - 1;
    assert(disc_at(w0, cur));
    assert forall|t: int| 0 <= t < tail_len implies #[trigger] q[t] == q0[t + 1] by {
        assert(q[t] == q0.subrange(1, q0.len() as int)[t]);
    }
    // every queue entry is discovered and in range
    assert forall|k: int| 0 <= k < q.len()
        implies 0 <= ((#[trigger] q[k]) as int) < n && disc_at(w, q[k] as int) by {
        if k < tail_len {
            assert(q[k] == q0[k + 1]);
            assert(disc_at(w0, q0[k + 1] as int));
            assert(w[q0[k + 1] as int] == w0[q0[k + 1] as int]);
        }
    }
    // newly discovered cells are all on the queue
    assert forall|i: int| 0 <= i < n && !(#[trigger] disc_at(w0, i)) && disc_at(w, i)
        implies in_seq(q, i) by {
        let t = choose|t: int| tail_len <= t < q.len() && q[t] as int == i;
        assert(q[t] as int == i);
    }
    lemma_next_step_levels(g, s, r, links);
    lemma_next_step_finished(g, s, r, links);
    assert(solver_queue(g, w, q));
}

/// Following the recorded parents from any visited cell walks back to the
/// root in exactly `path_length` steps, through open passages, never
/// visiting a cell twice; on a perfect maze this walk is the unique tree
/// path, so `path_length` equals the number of edges on that path.
pub proof fn lemma_parent_chain<C: AbstractCell, G: AbstractGrid<C>>(g: &G, w: Seq<PathBacktrackItem>, root: int, i: int) -> (p: Seq<int>)
    requires
        g.wf(),
        solver_core(g, w),
        0 <= root < g.size(),
        disc_at(w, root),
        pl_at(w, root) == 0,
        0 <= i < g.size(),
        disc_at(w, i),
    ensures
        crate::graph::link_path(g, p),
        p.len() == pl_at(w, i) + 1,
        p.first() == root,
        p.last() == i,
        p.no_duplicates(),
        forall|k: int| 0 <= k < p.len() - 1 ==> par_at(w, p[k + 1]) == #[trigger] p[k],
        forall|k: int| 0 <= k < p.len() ==> pl_at(w, #[trigger] p[k]) == k,
    decreases pl_at(w, i),
{
    reveal(solver_core);
    g.lemma_wf();
    if pl_at(w, i) == 0 {
        assert(i == root);
        let p = seq![root];
        assert(crate::graph::link_path(g, p));
        assert(p.no_duplicates());
        p
    } else {
        let par = par_at(w, i);
        assert(0 <= par < g.size() && disc_at(w, par) && pl_at(w, par) == pl_at(w, i) - 1);
        let q = lemma_parent_chain(g, w, root, par);
        let p = q.push(i);
        assert(g.links_of(i).contains(par));
        assert(g.links_of(par).contains(i));
        assert forall|k: int| 0 <= k < p.len() - 1
            implies g.links_of(#[trigger] p[k]).contains(p[k + 1]) by {
            if k < q.len() - 1 {
                assert(p[k] == q[k] && p[k + 1] == q[k + 1]);
                assert(g.links_of(q[k]).contains(q[k + 1]));
            } else {
                assert(p[k] == q.last() && p[k + 1] == i);
            }
        }
        assert(crate::graph::link_path(g, p));
        assert forall|k: int| 0 <= k < p.len() implies pl_at(w, #[trigger] p[k]) == k by {
            if k < q.len() {
                assert(p[k] == q[k]);
            }
        }
        assert forall|k1: int, k2: int| 0 <= k1 < p.len() && 0 <= k2 < p.len() && k1 != k2
            implies p[k1] != p[k2] by {
            assert(pl_at(w, p[k1]) == k1 && pl_at(w, p[k2]) == k2);
        }
        assert forall|k: int| 0 <= k < p.len() - 1
            implies par_at(w, p[k + 1]) == #[trigger] p[k] by {
            if k < q.len() - 1 {
                assert(p[k] == q[k] && p[k + 1] == q[k + 1]);
                assert(par_at(w, q[k + 1]) == q[k]);
            }
        }
        p
    }
}

/// Once the frontier is empty, every cell joined by a walk of open passages
/// to a discovered cell has itself been discovered: the search covered its
/// whole component, so on a connected maze every cell carries a distance.
#[verifier::rlimit(100)]
pub proof fn lemma_solver_complete<C: AbstractCell, G: AbstractGrid<C>>(g: &G, s: &DijkstraStep, p: Seq<int>)
    requires
        g.wf(),
        solver_inv(g, s),
        s.lookup_queue@.len() == 0,
        crate::graph::link_path(g, p),
        disc_at(s.cell_weights@, p.first()),
    ensures
        disc_at(s.cell_weights@, p.last()),
    decreases p.len(),
{
    reveal(solver_core);
    reveal(solver_queue);
    g.lemma_wf();
    if p.len() > 1 {
        let q = p.drop_last();
        assert(crate::graph::link_path(g, q));
        lemma_solver_complete(g, s, q);
        let a = q.last();
        assert(a == p[p.len() - 2]);
        assert(g.links_of(a).contains(p.last()));
        assert(!in_seq(s.lookup_queue@, a));
        assert(disc_at(s.cell_weights@, p.last()));
    }
}

/// The reachability form of the completeness law.
pub proof fn lemma_solver_covers_component<C: AbstractCell, G: AbstractGrid<C>>(g: &G, s: &DijkstraStep, a: int, b: int)
    requires
        g.wf(),
        solver_inv(g, s),
        s.lookup_queue@.len() == 0,
        crate::graph::reach(g, a, b),
        0 <= a < g.size(),
        disc_at(s.cell_weights@, a),
    ensures
        disc_at(s.cell_weights@, b),
{
    let p = choose|p: Seq<int>| #[trigger] crate::graph::link_path(g, p) && p.first() == a
        && p.last() == b;
    lemma_solver_complete(g, s, p);
}

/// The distance labels are minimal: once the frontier has drained, no walk
/// through open passages undercuts `path_length`. In particular, from a
/// root at distance zero every cell's label is at most the length of any
/// link path from the root; `lemma_parent_chain` exhibits a walk of exactly
/// that length, so `path_length` is the exact link-graph distance — the
/// same on every run, however the passages were enumerated.
#[verifier::rlimit(100)]
pub proof fn lemma_path_length_minimal<C: AbstractCell, G: AbstractGrid<C>>(g: &G, s: &DijkstraStep, p: Seq<int>)
    requires
        g.wf(),
        solver_inv(g, s),
        s.lookup_queue@.len() == 0,
        crate::graph::link_path(g, p),
        disc_at(s.cell_weights@, p.first()),
    ensures
        disc_at(s.cell_weights@, p.last()),
        pl_at(s.cell_weights@, p.last())
            <= pl_at(s.cell_weights@, p.first()) + p.len() - 1,
    decreases p.len(),
{
    reveal(solver_queue);
    g.lemma_wf();
    if p.len() > 1 {
        let q = p.drop_last();
        assert(crate::graph::link_path(g, q));
        lemma_path_length_minimal(g, s, q);
        let a = q.last();
        assert(a == p[p.len() - 2]);
        assert(g.links_of(a).contains(p.last()));
        assert(!in_seq(s.lookup_queue@, a));
        assert(disc_at(s.cell_weights@, p.last())
            && pl_at(s.cell_weights@, p.last()) <= pl_at(s.cell_weights@, a) + 1);
    }
}

/// Runs the breadth-first search to completion from cell 0 and returns the
/// final labelling.
///
/// Locating the farthest cell and re-solving from it would give the textbook
/// double-sweep diameter approximation; here the labelling stays rooted at
/// the start cell, whose distances the renderer consumes directly.
#[verifier::rlimit(100)]
pub fn solve_with_longest_path<C: AbstractCell, T: AbstractGrid<C>>(g: &T) -> (r: DijkstraStep)
    requires
        g.wf(),
        g.size() >= 1,
        g.size() <= 0x7fff_ffff,
    ensures
        solver_inv(g, &r),
        r.cell_weights@.len() == g.size(),
        r.lookup_queue@.len() == 0,
        r.disc(0) && r.dist(0) == 0 && r.pred(0) == 0,
{
    let start: usize = 0;
    let mut result = DijkstraStep::initial(g, start);
    while result.lookup_queue.len() > 0
        invariant
            g.wf(),
            g.size() >= 1,
            g.size() <= 0x7fff_ffff,
            solver_inv(g, &result),
            result.cell_weights@.len() == g.size(),
            result.disc(0) && result.dist(0) == 0 && result.pred(0) == 0,
        decreases
            g.size() - disc_set_of(result.cell_weights@).len(),
            result.lookup_queue@.len(),
    {
        let ghost wprev = result.cell_weights@;
        let ghost qprev = result.lookup_queue@;
        result = result.next_step(g);
        proof {
            let dprev = disc_set_of(wprev);
            let dnow = disc_set_of(result.cell_weights@);
            lemma_bounded_set_finite(dnow, g.size());
            lemma_bounded_set_finite(dprev, g.size());
            assert forall|x: int| dprev.contains(x) implies dnow.contains(x) by {
                assert(disc_at(wprev, x));
                assert(result.cell_weights@[x] == wprev[x]);
            }
            assert(dprev.subset_of(dnow));
            vstd::set_lib::lemma_len_subset(dprev, dnow);
            if result.lookup_queue@.len() >= qprev.len() {
                let t = (qprev.len() - 1) as int;
                let x = result.lookup_queue@[t] as int;
                assert(!dprev.contains(x) && dnow.contains(x));
                assert(dprev.subset_of(dnow.remove(x)));
                vstd::set_lib::lemma_len_subset(dprev, dnow.remove(x));
                vstd::set::axiom_set_remove_len(dnow, x);
                assert(dprev.len() < dnow.len());
            }
        }
    }
    result
}

} // verus!
