//! The randomized maze generators: seven algorithms that grow the link
//! relation of a grid, and the braiding post-process that removes dead ends.
//! Every generator preserves the grid's shape and only ever opens passages
//! between spatial neighbours, so the spatial-adjacency invariant
//! `links(i) subset-of neighbours(i)` can never be violated. On a fresh
//! grid each run leaves a covered root, no visited cell bordering an
//! unvisited one, all visited cells mutually reachable through passages,
//! and one passage fewer than it has visited cells - on a connected
//! tessellation, a spanning tree (`lemma_spanning_tree`).

use vstd::prelude::*;

use crate::grid::{AbstractCell, AbstractGrid, CompassDirections, CompassGrid, RectangularGrid};
use crate::rectangle::lemma_bounded_set_finite;
use crate::rng::{draw_below, draw_u64};

verus! {

/// The immutable part of a grid is untouched: well-formedness, size and the
/// neighbour relation.
pub open spec fn keeps_shape<C: AbstractCell, T: AbstractGrid<C>>(g1: T, g2: T) -> bool {
    &&& g2.wf()
    &&& g2.size() == g1.size()
    &&& forall|i: int| #[trigger] g2.neighbours_of(i) == g1.neighbours_of(i)
}

/// Passages are only ever opened, never closed.
pub open spec fn links_extended<C: AbstractCell, T: AbstractGrid<C>>(g1: T, g2: T) -> bool {
    forall|i: int, j: int| #[trigger] g1.links_of(i).contains(j) ==> g2.links_of(i).contains(j)
}

/// Cell `i` has at least one open passage ("visited", in generator terms).
pub open spec fn cell_linked<C: AbstractCell, T: AbstractGrid<C>>(g: T, i: int) -> bool {
    exists|j: int| g.links_of(i).contains(j)
}

/// The set of visited cells.
pub open spec fn linked_cells<C: AbstractCell, T: AbstractGrid<C>>(g: T) -> Set<int> {
    Set::new(|i: int| 0 <= i < g.size() && cell_linked(g, i))
}

/// Every link set is still empty: nothing has been generated yet.
pub open spec fn from_empty<C: AbstractCell, T: AbstractGrid<C>>(g: T) -> bool {
    forall|i: int| #[trigger] g.links_of(i) == Set::<int>::empty()
}

/// Cell `i` counts as visited for a generation rooted at `root`: it has an
/// open passage, or it is the root itself (which starts out passage-free).
pub open spec fn vis_from<C: AbstractCell, T: AbstractGrid<C>>(g: T, root: int, i: int) -> bool {
    cell_linked(g, i) || i == root
}

/// Generation has run to completion: no unvisited cell borders a visited
/// one. On a grid whose neighbour graph is connected this means every cell
/// has been visited.
pub open spec fn gen_closed<C: AbstractCell, T: AbstractGrid<C>>(g: T) -> bool {
    forall|i: int, j: int| 0 <= i < g.size() && cell_linked(g, i)
        && #[trigger] g.neighbours_of(i).contains(j) ==> cell_linked(g, j)
}

/// The number of directed link entries stored at the cells `0..k`; each
/// open passage contributes one entry at each of its two ends.
pub open spec fn degree_sum<C: AbstractCell, T: AbstractGrid<C>>(g: T, k: int) -> int
    decreases k,
{
    if k <= 0 {
        0
    } else {
        degree_sum(g, k - 1) + g.links_of(k - 1).len()
    }
}

/// A grid with no open passages has no link entries.
proof fn lemma_degree_sum_empty<C: AbstractCell, T: AbstractGrid<C>>(g: T, k: int)
    requires
        forall|i: int| #[trigger] g.links_of(i) == Set::<int>::empty(),
    ensures
        degree_sum(g, k) == 0,
    decreases k,
{
    if k > 0 {
        lemma_degree_sum_empty(g, k - 1);
        assert(g.links_of(k - 1).len() == 0);
    }
}

/// Opening one new passage between `a` and `b` adds exactly one directed
/// entry at each end.
proof fn lemma_degree_sum_link<C: AbstractCell, T: AbstractGrid<C>>(g1: T, g2: T, a: int, b: int, k: int)
    requires
        a != b,
        0 <= a,
        0 <= b,
        !g1.links_of(a).contains(b),
        !g1.links_of(b).contains(a),
        g1.links_of(a).finite(),
        g1.links_of(b).finite(),
        g2.links_of(a) == g1.links_of(a).insert(b),
        g2.links_of(b) == g1.links_of(b).insert(a),
        forall|i: int| i != a && i != b ==> #[trigger] g2.links_of(i) == g1.links_of(i),
    ensures
        degree_sum(g2, k) == degree_sum(g1, k) + (if a < k { 1int } else { 0int })
            + (if b < k { 1int } else { 0int }),
    decreases k,
{
    if k > 0 {
        lemma_degree_sum_link(g1, g2, a, b, k - 1);
        if k - 1 == a {
            vstd::set::axiom_set_insert_len(g1.links_of(a), b);
        } else if k - 1 == b {
            vstd::set::axiom_set_insert_len(g1.links_of(b), a);
        } else {
            assert(g2.links_of(k - 1) == g1.links_of(k - 1));
        }
    }
}

/// A law: a closed, root-covered generation with one passage fewer than it
/// has visited cells is a spanning tree of any component that reaches every
/// cell, with exactly `size - 1` passages.
pub proof fn lemma_spanning_tree<C: AbstractCell, T: AbstractGrid<C>>(g: T, rt: int)
    requires
        g.wf(),
        gen_closed(g),
        gen_covers(g, rt),
        0 <= rt < g.size(),
        degree_sum(g, g.size()) == 2 * (linked_cells(g).insert(rt).len() - 1),
        forall|i: int| 0 <= i < g.size() ==> #[trigger] crate::graph::n_reach(&g, rt, i),
    ensures
        forall|i: int| 0 <= i < g.size() && i != rt ==> cell_linked(g, i),
        degree_sum(g, g.size()) == 2 * (g.size() - 1),
{
    g.lemma_wf();
    assert forall|i: int| 0 <= i < g.size() && i != rt implies cell_linked(g, i) by {
        assert(crate::graph::n_reach(&g, rt, i));
        let p = choose|p: Seq<int>| #[trigger] crate::graph::n_path(&g, p)
            && p.first() == rt && p.last() == i;
        assert(p.len() >= 2) by {
            if p.len() == 1 {
                assert(p.first() == p.last());
            }
        }
        lemma_component_covered(g, rt, p);
    }
    assert(linked_cells(g).insert(rt) =~= vstd::set_lib::set_int_range(0, g.size()));
    vstd::set_lib::lemma_int_range(0, g.size());
}

/// One fresh passage from a visited cell (or the root) to an unvisited cell
/// keeps the accounting: two new directed entries, one new visited cell.
proof fn lemma_count_step<C: AbstractCell, T: AbstractGrid<C>>(g1: T, g2: T, root: int, a: int, b: int, n: int)
    requires
        g1.wf(),
        g1.size() == n,
        g2.size() == n,
        0 <= root < n,
        0 <= a < n,
        0 <= b < n,
        a != b,
        b != root,
        vis_from(g1, root, a),
        !cell_linked(g1, b),
        g2.links_of(a) == g1.links_of(a).insert(b),
        g2.links_of(b) == g1.links_of(b).insert(a),
        forall|i: int| i != a && i != b ==> #[trigger] g2.links_of(i) == g1.links_of(i),
        degree_sum(g1, n) == 2 * (linked_cells(g1).insert(root).len() - 1),
    ensures
        degree_sum(g2, n) == 2 * (linked_cells(g2).insert(root).len() - 1),
{
    g1.lemma_wf();
    assert(!g1.links_of(b).contains(a)) by {
        if g1.links_of(b).contains(a) {
            assert(cell_linked(g1, b));
        }
    }
    assert(!g1.links_of(a).contains(b));
    lemma_degree_sum_link(g1, g2, a, b, n);
    let s1 = linked_cells(g1).insert(root);
    let s2 = linked_cells(g2).insert(root);
    assert forall|x: int| s2.contains(x) == s1.insert(b).contains(x) by {
        if x == b {
            assert(cell_linked(g2, b)) by {
                assert(g2.links_of(b).contains(a));
            }
        } else if x == a {
            assert(cell_linked(g2, a)) by {
                assert(g2.links_of(a).contains(b));
            }
            assert(s1.contains(a));
        } else if 0 <= x < n {
            assert(g2.links_of(x) == g1.links_of(x));
            if cell_linked(g2, x) {
                let j = choose|j: int| g2.links_of(x).contains(j);
                assert(cell_linked(g1, x));
            }
            if cell_linked(g1, x) {
                let j = choose|j: int| g1.links_of(x).contains(j);
                assert(cell_linked(g2, x));
            }
        }
    }
    assert(s2 =~= s1.insert(b));
    lemma_bounded_set_finite(s1, n);
    assert(!s1.contains(b));
    vstd::set::axiom_set_insert_len(s1, b);
}

/// The generation root is covered: as soon as it has any spatial neighbour
/// at all, both it and that neighbour have been visited. Together with
/// `gen_closed` this spreads along every walk of adjacent cells, so the
/// root's whole component of the neighbour graph is visited
/// (`lemma_component_covered`).
pub open spec fn gen_covers<C: AbstractCell, T: AbstractGrid<C>>(g: T, rt: int) -> bool {
    forall|j: int| #[trigger] g.neighbours_of(rt).contains(j)
        ==> cell_linked(g, rt) && cell_linked(g, j)
}

/// A law: a closed generation that covers its root visits every cell that a
/// walk of spatial adjacencies can reach from the root.
pub proof fn lemma_component_covered<C: AbstractCell, T: AbstractGrid<C>>(g: T, rt: int, p: Seq<int>)
    requires
        gen_closed(g),
        gen_covers(g, rt),
        crate::graph::n_path(&g, p),
        p.first() == rt,
        p.len() >= 2,
    ensures
        cell_linked(g, p.last()),
    decreases p.len(),
{
    if p.len() == 2 {
        assert(g.neighbours_of(rt).contains(p[1]));
    } else {
        let q = p.drop_last();
        assert(crate::graph::n_path(&g, q));
        lemma_component_covered(g, rt, q);
        assert(g.neighbours_of(q.last()).contains(p.last()));
        assert(q.last() == p[p.len() - 2]);
    }
}

/// All visited cells lie in a single component of open passages.
pub open spec fn gen_connected<C: AbstractCell, T: AbstractGrid<C>>(g: T) -> bool {
    forall|i: int, j: int| #![trigger cell_linked(g, i), cell_linked(g, j)]
        0 <= i < g.size() && 0 <= j < g.size() && cell_linked(g, i) && cell_linked(g, j)
        ==> crate::graph::reach(&g, i, j)
}

/// Index `i` occurs in the sequence `s`.
pub open spec fn seq_has(s: Seq<usize>, i: int) -> bool {
    exists|k: int| 0 <= k < s.len() && s[k] as int == i
}

/// Index `i` occurs among the cells of the keyed sequence `s`.
pub open spec fn pair_seq_has(s: Seq<(u64, usize)>, i: int) -> bool {
    exists|k: int| 0 <= k < s.len() && s[k].1 as int == i
}

/// The set of indices marked true.
pub open spec fn marked_set(s: Seq<bool>) -> Set<int> {
    Set::new(|i: int| 0 <= i < s.len() && s[i])
}

proof fn lemma_marked_bound(s: Seq<bool>)
    ensures
        marked_set(s).finite(),
        marked_set(s).len() <= s.len(),
{
    lemma_bounded_set_finite(marked_set(s), s.len() as int);
}

/// Marking a fresh index grows the marked set by exactly one, so the old
/// count was below the capacity.
proof fn lemma_mark_new(s1: Seq<bool>, s2: Seq<bool>, i: int)
    requires
        0 <= i < s1.len(),
        !s1[i],
        s2 == s1.update(i, true),
    ensures
        marked_set(s2) == marked_set(s1).insert(i),
        marked_set(s2).len() == marked_set(s1).len() + 1,
        marked_set(s1).len() < s1.len(),
{
    assert(marked_set(s2) =~= marked_set(s1).insert(i));
    lemma_marked_bound(s1);
    vstd::set::axiom_set_insert_len(marked_set(s1), i);
    lemma_marked_bound(s2);
}

/// Opening one passage between a visited cell (or the root) and any cell
/// keeps every visited cell reachable from the root.
proof fn lemma_root_reach_extend<C: AbstractCell, T: AbstractGrid<C>>(g1: T, g2: T, root: int, a: int, b: int)
    requires
        g1.size() == g2.size(),
        0 <= root < g1.size(),
        0 <= a < g1.size(),
        0 <= b < g1.size(),
        forall|i: int| i != a && i != b ==> #[trigger] g2.links_of(i) == g1.links_of(i),
        g2.links_of(a) == g1.links_of(a).insert(b),
        g2.links_of(b) == g1.links_of(b).insert(a),
        vis_from(g1, root, a),
        forall|i: int| 0 <= i < g1.size() && #[trigger] vis_from(g1, root, i)
            ==> crate::graph::reach(&g1, root, i),
    ensures
        forall|i: int| 0 <= i < g2.size() && #[trigger] vis_from(g2, root, i)
            ==> crate::graph::reach(&g2, root, i),
{
    assert forall|i: int, j: int| #[trigger] g1.links_of(i).contains(j)
        implies g2.links_of(i).contains(j) by {
        if i != a && i != b {
            assert(g2.links_of(i) == g1.links_of(i));
        }
    }
    assert(vis_from(g1, root, a));
    assert(crate::graph::reach(&g1, root, a));
    crate::graph::lemma_reach_monotone(&g1, &g2, root, a);
    assert(g2.links_of(a).contains(b));
    crate::graph::lemma_reach_step(&g2, root, a, b);
    assert forall|i: int| 0 <= i < g2.size() && #[trigger] vis_from(g2, root, i)
        implies crate::graph::reach(&g2, root, i) by {
        if i != b {
            if i == root || i == a {
                assert(vis_from(g1, root, i));
                crate::graph::lemma_reach_monotone(&g1, &g2, root, i);
            } else {
                assert(cell_linked(g2, i));
                let j = choose|j: int| g2.links_of(i).contains(j);
                assert(g2.links_of(i) == g1.links_of(i));
                assert(cell_linked(g1, i));
                assert(vis_from(g1, root, i));
                crate::graph::lemma_reach_monotone(&g1, &g2, root, i);
            }
        }
    }
}

/// At the end of a fresh run whose work list has emptied, the root and its
/// whole neighbourhood are visited: its neighbours are all visited-or-root,
/// and a root with any neighbour cannot have stayed passage-free.
proof fn lemma_root_covered_at_exit<C: AbstractCell, T: AbstractGrid<C>>(g: T, root: int)
    requires
        g.wf(),
        0 <= root < g.size(),
        cell_linked(g, root) || (forall|i: int| 0 <= i < g.size()
            ==> !(#[trigger] cell_linked(g, i))),
        forall|j: int| #[trigger] g.neighbours_of(root).contains(j) ==> vis_from(g, root, j),
    ensures
        gen_covers(g, root),
{
    g.lemma_wf();
    assert forall|j: int| #[trigger] g.neighbours_of(root).contains(j)
        implies cell_linked(g, root) && cell_linked(g, j) by {
        assert(j != root);
        assert(vis_from(g, root, j));
        if !cell_linked(g, root) {
            assert(!cell_linked(g, j));
        }
    }
}

/// Cells all reachable from one root are pairwise reachable.
proof fn lemma_pairwise_connected<C: AbstractCell, T: AbstractGrid<C>>(g: T, root: int)
    requires
        g.wf(),
        forall|i: int| 0 <= i < g.size() && #[trigger] vis_from(g, root, i)
            ==> crate::graph::reach(&g, root, i),
    ensures
        gen_connected(g),
{
    assert forall|i: int, j: int| #![trigger cell_linked(g, i), cell_linked(g, j)]
        0 <= i < g.size() && 0 <= j < g.size() && cell_linked(g, i) && cell_linked(g, j)
        implies crate::graph::reach(&g, i, j) by {
        assert(vis_from(g, root, i));
        assert(vis_from(g, root, j));
        crate::graph::lemma_reach_sym(&g, root, i);
        crate::graph::lemma_reach_trans(&g, i, root, j);
    }
}

/// Opening a passage to a previously unvisited cell strictly grows the
/// visited set; it can never exceed the grid.
proof fn lemma_linked_cells_grow<C: AbstractCell, T: AbstractGrid<C>>(g1: T, g2: T, b: int)
    requires
        g1.size() == g2.size(),
        g1.size() >= 0,
        forall|i: int, j: int| #[trigger] g1.links_of(i).contains(j) ==> g2.links_of(i).contains(j),
        0 <= b < g1.size(),
        !cell_linked(g1, b),
        cell_linked(g2, b),
    ensures
        linked_cells(g1).len() < linked_cells(g2).len(),
        linked_cells(g2).len() <= g1.size(),
{
    let s1 = linked_cells(g1);
    let s2 = linked_cells(g2);
    lemma_bounded_set_finite(s1, g1.size());
    lemma_bounded_set_finite(s2, g1.size());
    assert forall|x: int| s1.contains(x) implies s2.contains(x) by {
        let j = choose|j: int| g1.links_of(x).contains(j);
        assert(g2.links_of(x).contains(j));
    }
    assert(s2.contains(b));
    assert(s1.subset_of(s2.remove(b)));
    vstd::set_lib::lemma_len_subset(s1, s2.remove(b));
    vstd::set::axiom_set_remove_len(s2, b);
}

/// A cell whose link list is empty is unvisited.
proof fn lemma_empty_links_unlinked<C: AbstractCell, T: AbstractGrid<C>>(g: T, i: int)
    requires
        g.links_of(i).finite(),
        g.links_of(i).len() == 0,
    ensures
        !cell_linked(g, i),
{
    g.links_of(i).lemma_len0_is_empty();
    assert forall|j: int| !g.links_of(i).contains(j) by {
    }
}

/// Picks one of the directions that exist, uniformly at random; `None` when
/// none of them exists.
fn random_neighbor(neighbors: &Vec<Option<usize>>, r: &mut rand::rngs::StdRng) -> (res: Option<usize>)
    ensures
        res is Some ==> exists|k: int| 0 <= k < neighbors@.len()
            && neighbors@[k] == Option::Some(res.unwrap()),
        res is None ==> forall|k: int| 0 <= k < neighbors@.len()
            ==> (#[trigger] neighbors@[k]) is None,
{
    let mut results: Vec<usize> = Vec::new();
    let mut k: usize = 0;
    while k < neighbors.len()
        invariant
            k <= neighbors@.len(),
            forall|t: int| 0 <= t < results@.len() ==> exists|k2: int| 0 <= k2 < neighbors@.len()
                && neighbors@[k2] == Option::Some(#[trigger] results@[t]),
            results@.len() == 0 ==> forall|t: int| 0 <= t < k as int
                ==> (#[trigger] neighbors@[t]) is None,
        decreases neighbors@.len() - k,
    {
        match neighbors[k] {
            Option::Some(x) => {
                proof {
                    assert(neighbors@[k as int] == Option::Some(x));
                }
                results.push(x);
            },
            Option::None => {},
        }
        k = k + 1;
    }
    if results.len() == 0 {
        return Option::None;
    }
    let pick = draw_below(r, results.len());
    Option::Some(results[pick])
}

/// The spatial neighbours of `cell_idx` that are still unvisited: exactly
/// those, no more and no fewer.
fn unvisited_neighbors<C: AbstractCell, T: AbstractGrid<C>>(g: &T, cell_idx: usize) -> (res: Vec<usize>)
    requires
        g.wf(),
        (cell_idx as int) < g.size(),
    ensures
        forall|k: int| 0 <= k < res@.len()
            ==> 0 <= ((#[trigger] res@[k]) as int) < g.size()
                && g.neighbours_of(cell_idx as int).contains(res@[k] as int)
                && !cell_linked(*g, res@[k] as int),
        forall|j: int| #[trigger] g.neighbours_of(cell_idx as int).contains(j)
            && !cell_linked(*g, j)
            ==> exists|u: int| 0 <= u < res@.len() && res@[u] as int == j,
        res@.no_duplicates(),
{
    proof {
        g.lemma_wf();
    }
    let ns = g.neighbours(cell_idx);
    let mut out: Vec<usize> = Vec::new();
    let mut k: usize = 0;
    while k < ns.len()
        invariant
            g.wf(),
            (cell_idx as int) < g.size(),
            k <= ns@.len(),
            forall|t: int| 0 <= t < ns@.len()
                ==> g.neighbours_of(cell_idx as int).contains(#[trigger] ns@[t] as int),
            forall|t: int| 0 <= t < out@.len()
                ==> 0 <= ((#[trigger] out@[t]) as int) < g.size()
                    && g.neighbours_of(cell_idx as int).contains(out@[t] as int)
                    && !cell_linked(*g, out@[t] as int),
            forall|t: int| 0 <= t < k as int && !cell_linked(*g, ns@[t] as int)
                ==> exists|u: int| 0 <= u < out@.len() && out@[u] == #[trigger] ns@[t],
            ns@.no_duplicates(),
            out@.no_duplicates(),
            forall|u: int| 0 <= u < out@.len()
                ==> exists|t2: int| 0 <= t2 < k as int && ns@[t2] == #[trigger] out@[u],
        decreases ns@.len() - k,
    {
        let x = ns[k];
        proof {
            g.lemma_wf();
            assert(g.neighbours_of(cell_idx as int).contains(x as int));
            assert(0 <= (x as int) < g.size());
        }
        let lx = g.links(x);
        if lx.len() == 0 {
            proof {
                lemma_empty_links_unlinked(*g, x as int);
                assert(!out@.contains(x)) by {
                    if out@.contains(x) {
                        let u = choose|u: int| 0 <= u < out@.len() && out@[u] == x;
                        let t2 = choose|t2: int| 0 <= t2 < k as int && ns@[t2] == out@[u];
                        assert(ns@[t2] == ns@[k as int]);
                    }
                }
                crate::grid::lemma_no_dup_push(out@, x);
            }
            let ghost opre = out@;
            let ghost kk = out@.len() as int;
            out.push(x);
            proof {
                assert forall|t: int| 0 <= t < k as int + 1 && !cell_linked(*g, ns@[t] as int)
                    implies exists|u: int| 0 <= u < out@.len()
                        && out@[u] == #[trigger] ns@[t] by {
                    if t < k as int {
                        let u = choose|u: int| 0 <= u < opre.len() && opre[u] == ns@[t];
                        assert(out@[u] == ns@[t]);
                    } else {
                        assert(out@[kk] == ns@[t]);
                    }
                }
                assert forall|u: int| 0 <= u < out@.len()
                    implies exists|t2: int| 0 <= t2 < k as int + 1
                        && ns@[t2] == #[trigger] out@[u] by {
                    if u < opre.len() {
                        let t2 = choose|t2: int| 0 <= t2 < k as int && ns@[t2] == opre[u];
                        assert(ns@[t2] == out@[u]);
                    } else {
                        assert(ns@[k as int] == out@[u]);
                    }
                }
            }
        } else {
            proof {
                assert(g.links_of(x as int).contains(lx@[0] as int));
                assert(cell_linked(*g, x as int));
            }
        }
        k = k + 1;
    }
    proof {
        assert forall|j: int| #[trigger] g.neighbours_of(cell_idx as int).contains(j)
            && !cell_linked(*g, j)
            implies exists|u: int| 0 <= u < out@.len() && out@[u] as int == j by {
            let t = choose|t: int| 0 <= t < ns@.len() && ns@[t] as int == j;
            let u = choose|u: int| 0 <= u < out@.len() && out@[u] == ns@[t];
            assert(out@[u] as int == j);
        }
    }
    out
}

/// The spatial neighbours of `cell_idx` that have been visited already:
/// exactly those, no more and no fewer.
fn visited_neighbors<C: AbstractCell, T: AbstractGrid<C>>(g: &T, cell_idx: usize) -> (res: Vec<usize>)
    requires
        g.wf(),
        (cell_idx as int) < g.size(),
    ensures
        forall|k: int| 0 <= k < res@.len()
            ==> 0 <= ((#[trigger] res@[k]) as int) < g.size()
                && g.neighbours_of(cell_idx as int).contains(res@[k] as int)
                && cell_linked(*g, res@[k] as int),
        forall|j: int| #[trigger] g.neighbours_of(cell_idx as int).contains(j)
            && cell_linked(*g, j)
            ==> exists|u: int| 0 <= u < res@.len() && res@[u] as int == j,
        res@.no_duplicates(),
{
    proof {
        g.lemma_wf();
    }
    let ns = g.neighbours(cell_idx);
    let mut out: Vec<usize> = Vec::new();
    let mut k: usize = 0;
    while k < ns.len()
        invariant
            g.wf(),
            (cell_idx as int) < g.size(),
            k <= ns@.len(),
            forall|t: int| 0 <= t < ns@.len()
                ==> g.neighbours_of(cell_idx as int).contains(#[trigger] ns@[t] as int),
            forall|t: int| 0 <= t < out@.len()
                ==> 0 <= ((#[trigger] out@[t]) as int) < g.size()
                    && g.neighbours_of(cell_idx as int).contains(out@[t] as int)
                    && cell_linked(*g, out@[t] as int),
            forall|t: int| 0 <= t < k as int && cell_linked(*g, ns@[t] as int)
                ==> exists|u: int| 0 <= u < out@.len() && out@[u] == #[trigger] ns@[t],
            ns@.no_duplicates(),
            out@.no_duplicates(),
            forall|u: int| 0 <= u < out@.len()
                ==> exists|t2: int| 0 <= t2 < k as int && ns@[t2] == #[trigger] out@[u],
        decreases ns@.len() - k,
    {
        let x = ns[k];
        proof {
            g.lemma_wf();
            assert(g.neighbours_of(cell_idx as int).contains(x as int));
            assert(0 <= (x as int) < g.size());
        }
        let lx = g.links(x);
        if lx.len() > 0 {
            proof {
                assert(g.links_of(x as int).contains(lx@[0] as int));
                assert(cell_linked(*g, x as int));
                assert(!out@.contains(x)) by {
                    if out@.contains(x) {
                        let u = choose|u: int| 0 <= u < out@.len() && out@[u] == x;
                        let t2 = choose|t2: int| 0 <= t2 < k as int && ns@[t2] == out@[u];
                        assert(ns@[t2] == ns@[k as int]);
                    }
                }
                crate::grid::lemma_no_dup_push(out@, x);
            }
            let ghost opre = out@;
            let ghost kk = out@.len() as int;
            out.push(x);
            proof {
                assert forall|t: int| 0 <= t < k as int + 1 && cell_linked(*g, ns@[t] as int)
                    implies exists|u: int| 0 <= u < out@.len()
                        && out@[u] == #[trigger] ns@[t] by {
                    if t < k as int {
                        let u = choose|u: int| 0 <= u < opre.len() && opre[u] == ns@[t];
                        assert(out@[u] == ns@[t]);
                    } else {
                        assert(out@[kk] == ns@[t]);
                    }
                }
                assert forall|u: int| 0 <= u < out@.len()
                    implies exists|t2: int| 0 <= t2 < k as int + 1
                        && ns@[t2] == #[trigger] out@[u] by {
                    if u < opre.len() {
                        let t2 = choose|t2: int| 0 <= t2 < k as int && ns@[t2] == opre[u];
                        assert(ns@[t2] == out@[u]);
                    } else {
                        assert(ns@[k as int] == out@[u]);
                    }
                }
            }
        } else {
            proof {
                lemma_empty_links_unlinked(*g, x as int);
            }
        }
        k = k + 1;
    }
    proof {
        assert forall|j: int| #[trigger] g.neighbours_of(cell_idx as int).contains(j)
            && cell_linked(*g, j)
            implies exists|u: int| 0 <= u < out@.len() && out@[u] as int == j by {
            let t = choose|t: int| 0 <= t < ns@.len() && ns@[t] as int == j;
            let u = choose|u: int| 0 <= u < out@.len() && out@[u] == ns@[t];
            assert(out@[u] as int == j);
        }
    }
    out
}

/// Binary tree: every cell is linked to a uniformly random choice among its
/// north and east neighbours, when at least one of the two exists.
pub fn binary_tree<C: AbstractCell, T: CompassGrid<C>>(g: &mut T, r: &mut rand::rngs::StdRng)
    requires
        old(g).wf(),
    ensures
        keeps_shape(*old(g), *final(g)),
        links_extended(*old(g), *final(g)),
        forall|i: int| 0 <= i < old(g).size()
            && ((#[trigger] old(g).north_of(i)) is Some || old(g).east_of(i) is Some)
            ==> cell_linked(*final(g), i),
        // every passage opened joins a cell to its north or east neighbour
        forall|i: int, j: int| #[trigger] final(g).links_of(i).contains(j)
            ==> old(g).links_of(i).contains(j)
                || old(g).north_of(i) == Option::Some(j)
                || old(g).east_of(i) == Option::Some(j)
                || old(g).north_of(j) == Option::Some(i)
                || old(g).east_of(j) == Option::Some(i),
{
    let ghost g0 = *g;
    let n = g.len();
    // first sweep: record each cell's north and east neighbours before any
    // passage is opened
    let mut dirs: Vec<(Option<usize>, Option<usize>)> = Vec::new();
    let mut i: usize = 0;
    while i < n
        invariant
            *g == g0,
            g.wf(),
            n as int == g0.size(),
            i <= n,
            dirs@.len() == i as int,
            forall|t: int| 0 <= t < i as int ==> {
                let pair = #[trigger] dirs@[t];
                &&& crate::grid::dir_agrees(pair.0, g0.north_of(t))
                &&& crate::grid::dir_agrees(pair.1, g0.east_of(t))
                &&& (pair.0 is Some ==> g0.neighbours_of(t).contains(pair.0.unwrap() as int))
                &&& (pair.1 is Some ==> g0.neighbours_of(t).contains(pair.1.unwrap() as int))
            },
        decreases n - i,
    {
        let a = g.north_ix(i);
        let b = g.east_ix(i);
        dirs.push((a, b));
        i = i + 1;
    }
    // second sweep: link each cell to a uniformly random existing choice
    let mut i2: usize = 0;
    while i2 < n
        invariant
            keeps_shape(g0, *g),
            links_extended(g0, *g),
            n as int == g0.size(),
            i2 <= n,
            dirs@.len() == n as int,
            forall|t: int| 0 <= t < n as int ==> {
                let pair = #[trigger] dirs@[t];
                &&& crate::grid::dir_agrees(pair.0, g0.north_of(t))
                &&& crate::grid::dir_agrees(pair.1, g0.east_of(t))
                &&& (pair.0 is Some ==> g0.neighbours_of(t).contains(pair.0.unwrap() as int))
                &&& (pair.1 is Some ==> g0.neighbours_of(t).contains(pair.1.unwrap() as int))
            },
            forall|t: int| 0 <= t < i2 as int
                && ((#[trigger] dirs@[t]).0 is Some || dirs@[t].1 is Some)
                ==> cell_linked(*g, t),
            forall|t: int, u: int| #[trigger] g.links_of(t).contains(u)
                ==> g0.links_of(t).contains(u)
                    || g0.north_of(t) == Option::Some(u) || g0.east_of(t) == Option::Some(u)
                    || g0.north_of(u) == Option::Some(t) || g0.east_of(u) == Option::Some(t),
        decreases n - i2,
    {
        let ghost gpre = *g;
        let pair = dirs[i2];
        let mut cand: Vec<Option<usize>> = Vec::new();
        cand.push(pair.0);
        cand.push(pair.1);
        match random_neighbor(&cand, r) {
            Option::Some(neighbor) => {
                proof {
                    let k = choose|k: int| 0 <= k < cand@.len()
                        && cand@[k] == Option::Some(neighbor);
                    if k == 0 {
                        assert(cand@[0] == Option::Some(neighbor));
                        assert(g0.neighbours_of(i2 as int).contains(neighbor as int));
                    } else {
                        assert(cand@[1] == Option::Some(neighbor));
                        assert(g0.neighbours_of(i2 as int).contains(neighbor as int));
                    }
                    assert(g.neighbours_of(i2 as int).contains(neighbor as int));
                    g.lemma_wf();
                }
                g.link(i2, neighbor);
                proof {
                    assert(cell_linked(*g, i2 as int)) by {
                        assert(g.links_of(i2 as int).contains(neighbor as int));
                    }
                    assert forall|t: int| #[trigger] cell_linked(gpre, t)
                        implies cell_linked(*g, t) by {
                        let j = choose|j: int| gpre.links_of(t).contains(j);
                        assert(g.links_of(t).contains(j));
                    }
                    assert(g0.north_of(i2 as int) == Option::Some(neighbor as int)
                        || g0.east_of(i2 as int) == Option::Some(neighbor as int));
                    assert forall|t: int, u: int| #[trigger] g.links_of(t).contains(u)
                        implies gpre.links_of(t).contains(u)
                            || (t == i2 as int && u == neighbor as int)
                            || (t == neighbor as int && u == i2 as int) by {
                        if t != i2 as int && t != neighbor as int {
                            assert(g.links_of(t) == gpre.links_of(t));
                        }
                    }
                }
            },
            Option::None => {
                proof {
                    assert(cand@[0] is None && cand@[1] is None);
                }
            },
        }
        i2 = i2 + 1;
    }
    proof {
        assert forall|t: int| 0 <= t < g0.size()
            && ((#[trigger] g0.north_of(t)) is Some || g0.east_of(t) is Some)
            implies cell_linked(*g, t) by {
            let pair = dirs@[t];
            assert(pair.0 is Some || pair.1 is Some);
        }
    }
}

/// Sidewinder: row by row, a growing run of cells is either extended to the
/// east or closed out by carving north from a random cell of the run.
pub fn sidewinder<C: AbstractCell, T: RectangularGrid<C> + CompassDirections<C>>(g: &mut T, r: &mut rand::rngs::StdRng)
    requires
        old(g).wf(),
        old(g).size() == old(g).width_of() * old(g).height_of(),
        // rectangular-style layout: row-major coordinates
        forall|i: int| 0 <= i < old(g).size()
            ==> (#[trigger] old(g).row_at(i)) * old(g).width_of() + old(g).col_at(i) == i
                && 0 <= old(g).row_at(i) < old(g).height_of()
                && 0 <= old(g).col_at(i) < old(g).width_of(),
        // the east neighbour is the next cell of the row, when the row goes on
        forall|i: int| 0 <= i < old(g).size()
            ==> (#[trigger] old(g).east_of(i)) == (if old(g).col_at(i) + 1 < old(g).width_of() {
                    Option::Some(i + 1)
                } else {
                    Option::<int>::None
                }),
        // the north neighbour, when it exists, is the cell one row in
        forall|i: int| 0 <= i < old(g).size() && (#[trigger] old(g).north_of(i)) is Some
            ==> old(g).north_of(i) == Option::Some(i - old(g).width_of()),
    ensures
        keeps_shape(*old(g), *final(g)),
        links_extended(*old(g), *final(g)),
        // every cell with a north neighbour ends up on an open passage
        forall|i: int| 0 <= i < old(g).size() && (#[trigger] old(g).north_of(i)) is Some
            ==> cell_linked(*final(g), i),
        // every passage opened runs east within a row or north at a closure
        forall|i: int, j: int| #[trigger] final(g).links_of(i).contains(j)
            ==> old(g).links_of(i).contains(j)
                || (j == i + 1 && old(g).col_at(i) + 1 < old(g).width_of())
                || (i == j + 1 && old(g).col_at(j) + 1 < old(g).width_of())
                || old(g).north_of(i) == Option::Some(j)
                || old(g).north_of(j) == Option::Some(i),
        // the first two rows close only at the last column, so they are
        // full east corridors
        from_empty(*old(g)) ==> forall|i: int| 0 <= i < old(g).size()
            && (#[trigger] old(g).row_at(i)) <= 1 && old(g).col_at(i) + 1 < old(g).width_of()
            ==> final(g).links_of(i).contains(i + 1),
{
    let ghost g0 = *g;
    let ghost fresh = from_empty(g0);
    let height = g.height();
    let width = g.width();
    let n = g.len();
    // first sweep: record each cell's north neighbour before any passage opens
    let mut norths: Vec<Option<usize>> = Vec::new();
    let mut easts: Vec<Option<usize>> = Vec::new();
    let mut t: usize = 0;
    while t < n
        invariant
            *g == g0,
            g.wf(),
            n as int == g0.size(),
            t <= n,
            norths@.len() == t as int,
            easts@.len() == t as int,
            forall|u: int| 0 <= u < t as int ==> {
                let d = #[trigger] norths@[u];
                &&& crate::grid::dir_agrees(d, g0.north_of(u))
                &&& (d is Some ==> g0.neighbours_of(u).contains(d.unwrap() as int))
            },
            forall|u: int| 0 <= u < t as int ==> {
                let d = #[trigger] easts@[u];
                &&& crate::grid::dir_agrees(d, g0.east_of(u))
                &&& (d is Some ==> g0.neighbours_of(u).contains(d.unwrap() as int))
            },
        decreases n - t,
    {
        let d = g.north_ix(t);
        norths.push(d);
        let d2 = g.east_ix(t);
        easts.push(d2);
        t = t + 1;
    }
    let ghost w = g0.width_of();
    let ghost h = g0.height_of();
    let mut i: usize = 0;
    while i < height
        invariant
            keeps_shape(g0, *g),
            links_extended(g0, *g),
            n as int == g0.size(),
            height as int == h,
            width as int == w,
            g0.size() == w * h,
            i <= height,
            norths@.len() == n as int,
            easts@.len() == n as int,
            forall|u: int| 0 <= u < n as int ==> {
                let d = #[trigger] norths@[u];
                &&& crate::grid::dir_agrees(d, g0.north_of(u))
                &&& (d is Some ==> g0.neighbours_of(u).contains(d.unwrap() as int))
            },
            forall|u: int| 0 <= u < n as int ==> {
                let d = #[trigger] easts@[u];
                &&& crate::grid::dir_agrees(d, g0.east_of(u))
                &&& (d is Some ==> g0.neighbours_of(u).contains(d.unwrap() as int))
            },
            forall|u: int| 0 <= u < g0.size()
                ==> (#[trigger] g0.row_at(u)) * w + g0.col_at(u) == u
                    && 0 <= g0.row_at(u) < h && 0 <= g0.col_at(u) < w,
            forall|u: int| 0 <= u < g0.size()
                ==> (#[trigger] g0.east_of(u)) == (if g0.col_at(u) + 1 < w {
                        Option::Some(u + 1)
                    } else {
                        Option::<int>::None
                    }),
            forall|u: int| 0 <= u < g0.size() && (#[trigger] g0.north_of(u)) is Some
                ==> g0.north_of(u) == Option::Some(u - w),
            forall|u: int| 0 <= u < i as int * w && (#[trigger] g0.north_of(u)) is Some
                ==> cell_linked(*g, u),
            forall|t: int, u: int| #[trigger] g.links_of(t).contains(u)
                ==> g0.links_of(t).contains(u)
                    || (u == t + 1 && g0.col_at(t) + 1 < w)
                    || (t == u + 1 && g0.col_at(u) + 1 < w)
                    || g0.north_of(t) == Option::Some(u)
                    || g0.north_of(u) == Option::Some(t),
            fresh ==> (forall|u: int| 0 <= u < i as int * w && (#[trigger] g0.row_at(u)) <= 1
                && g0.col_at(u) + 1 < w ==> g.links_of(u).contains(u + 1)),
        decreases height - i,
    {
        let mut current_run: Vec<usize> = Vec::new();
        let mut j: usize = 0;
        while j < width
            invariant
                keeps_shape(g0, *g),
                links_extended(g0, *g),
                n as int == g0.size(),
                height as int == h,
                width as int == w,
                g0.size() == w * h,
                i < height,
                j <= width,
                norths@.len() == n as int,
                easts@.len() == n as int,
                forall|u: int| 0 <= u < n as int ==> {
                    let d = #[trigger] norths@[u];
                    &&& crate::grid::dir_agrees(d, g0.north_of(u))
                    &&& (d is Some ==> g0.neighbours_of(u).contains(d.unwrap() as int))
                },
                forall|u: int| 0 <= u < n as int ==> {
                    let d = #[trigger] easts@[u];
                    &&& crate::grid::dir_agrees(d, g0.east_of(u))
                    &&& (d is Some ==> g0.neighbours_of(u).contains(d.unwrap() as int))
                },
                forall|u: int| 0 <= u < g0.size()
                    ==> (#[trigger] g0.row_at(u)) * w + g0.col_at(u) == u
                        && 0 <= g0.row_at(u) < h && 0 <= g0.col_at(u) < w,
                forall|u: int| 0 <= u < g0.size()
                    ==> (#[trigger] g0.east_of(u)) == (if g0.col_at(u) + 1 < w {
                            Option::Some(u + 1)
                        } else {
                            Option::<int>::None
                        }),
                forall|u: int| 0 <= u < g0.size() && (#[trigger] g0.north_of(u)) is Some
                    ==> g0.north_of(u) == Option::Some(u - w),
                current_run@.len() <= j as int,
                forall|u: int| 0 <= u < current_run@.len()
                    ==> (#[trigger] current_run@[u]) as int
                        == i as int * w + j as int - current_run@.len() + u,
                forall|u: int| 0 <= u < current_run@.len()
                    ==> cell_linked(*g, (#[trigger] current_run@[u]) as int),
                current_run@.len() >= 1 ==> cell_linked(*g, i as int * w + j as int),
                forall|u: int| 0 <= u < i as int * w + j as int
                        && (#[trigger] g0.north_of(u)) is Some
                    ==> cell_linked(*g, u),
                forall|t: int, u: int| #[trigger] g.links_of(t).contains(u)
                    ==> g0.links_of(t).contains(u)
                        || (u == t + 1 && g0.col_at(t) + 1 < w)
                        || (t == u + 1 && g0.col_at(u) + 1 < w)
                        || g0.north_of(t) == Option::Some(u)
                        || g0.north_of(u) == Option::Some(t),
                fresh ==> (forall|u: int| 0 <= u < i as int * w + j as int
                    && (#[trigger] g0.row_at(u)) <= 1 && g0.col_at(u) + 1 < w
                    ==> g.links_of(u).contains(u + 1)),
            decreases width - j,
        {
            proof {
                crate::grid::lemma_row_major_in_range(w, h, i as int, j as int);
            }
            let ix1 = j + i * width;
            let ghost runpre = current_run@;
            current_run.push(ix1);
            let should_close_out = (j == width - 1) || (i > 1 && draw_below(r, 2) == 0);
            if should_close_out {
                let pick = draw_below(r, current_run.len());
                let ix2 = current_run[pick];
                proof {
                    assert(0 <= (ix2 as int) < n as int);
                    assert(g0.row_at(ix1 as int) == i as int
                        && g0.col_at(ix1 as int) == j as int) by {
                        crate::grid::lemma_row_major_unique(w, g0.row_at(ix1 as int),
                            g0.col_at(ix1 as int), i as int, j as int);
                    }
                }
                current_run.clear();
                let ghost gpre = *g;
                match norths[ix2] {
                    Option::Some(nb) => {
                        proof {
                            g.lemma_wf();
                            assert(g0.neighbours_of(ix2 as int).contains(nb as int));
                            assert(g.neighbours_of(nb as int).contains(ix2 as int));
                        }
                        g.link(nb, ix2);
                        proof {
                            assert(cell_linked(*g, ix2 as int)) by {
                                assert(g.links_of(ix2 as int).contains(nb as int));
                            }
                            assert forall|u: int| #[trigger] cell_linked(gpre, u)
                                implies cell_linked(*g, u) by {
                                let jj = choose|jj: int| gpre.links_of(u).contains(jj);
                                assert(g.links_of(u).contains(jj));
                            }
                            assert(g0.north_of(ix2 as int) == Option::Some(nb as int));
                            assert forall|t: int, u: int| #[trigger] g.links_of(t).contains(u)
                                implies gpre.links_of(t).contains(u)
                                    || (t == nb as int && u == ix2 as int)
                                    || (t == ix2 as int && u == nb as int) by {
                                if t != nb as int && t != ix2 as int {
                                    assert(g.links_of(t) == gpre.links_of(t));
                                }
                            }
                        }
                    },
                    Option::None => {},
                }
                proof {
                    // all closed-out run members with a north neighbour are linked
                    assert forall|u: int| 0 <= u < i as int * w + j as int + 1
                            && (#[trigger] g0.north_of(u)) is Some
                        implies cell_linked(*g, u) by {
                        if u >= i as int * w + j as int + 1 - (runpre.len() + 1) {
                            // u was a member of the run just closed
                            let pos = u - (i as int * w + j as int + 1 - (runpre.len() + 1));
                            if pos < runpre.len() {
                                assert(runpre[pos] as int == u);
                                assert(cell_linked(gpre, u));
                            } else {
                                assert(u == i as int * w + j as int);
                                if runpre.len() >= 1 {
                                    assert(cell_linked(gpre, u));
                                } else {
                                    assert(ix2 as int == u);
                                    assert(crate::grid::dir_agrees(norths@[u],
                                        g0.north_of(u)));
                                    assert(norths@[u] is Some);
                                    assert(cell_linked(*g, u));
                                }
                            }
                        }
                    }
                }
            } else {
                proof {
                    // the row goes on: j is not the last column
                    assert(j as int + 1 < w);
                    assert(g0.row_at(ix1 as int) == i as int
                        && g0.col_at(ix1 as int) == j as int) by {
                        crate::grid::lemma_row_major_unique(w, g0.row_at(ix1 as int),
                            g0.col_at(ix1 as int), i as int, j as int);
                    }
                    assert(g0.east_of(ix1 as int) == Option::Some(ix1 as int + 1));
                }
                let e = easts[ix1];
                let ghost gpre = *g;
                match e {
                    Option::Some(e2) => {
                        proof {
                            g.lemma_wf();
                            assert(crate::grid::dir_agrees(e, g0.east_of(ix1 as int)));
                            assert(e2 as int == ix1 as int + 1);
                            assert(g0.neighbours_of(ix1 as int).contains(e2 as int));
                            assert(g.neighbours_of(ix1 as int).contains(e2 as int));
                            assert(0 <= (e2 as int) < n as int);
                        }
                        g.link(ix1, e2);
                        proof {
                            assert(cell_linked(*g, ix1 as int)) by {
                                assert(g.links_of(ix1 as int).contains(e2 as int));
                            }
                            assert(cell_linked(*g, ix1 as int + 1)) by {
                                assert(g.links_of(ix1 as int + 1).contains(ix1 as int));
                            }
                            assert forall|u: int| #[trigger] cell_linked(gpre, u)
                                implies cell_linked(*g, u) by {
                                let jj = choose|jj: int| gpre.links_of(u).contains(jj);
                                assert(g.links_of(u).contains(jj));
                            }
                            assert forall|t: int, u: int| #[trigger] g.links_of(t).contains(u)
                                implies gpre.links_of(t).contains(u)
                                    || (t == ix1 as int && u == e2 as int)
                                    || (t == e2 as int && u == ix1 as int) by {
                                if t != ix1 as int && t != e2 as int {
                                    assert(g.links_of(t) == gpre.links_of(t));
                                }
                            }
                            assert(g.links_of(ix1 as int).contains(ix1 as int + 1));
                        }
                    },
                    Option::None => {
                        proof {
                            assert(crate::grid::dir_agrees(e, g0.east_of(ix1 as int)));
                            assert(false);
                        }
                    },
                }
            }
            j = j + 1;
        }
        proof {
            assert((i as int + 1) * w == i as int * w + w) by (nonlinear_arith);
        }
        i = i + 1;
    }
    proof {
        assert forall|u: int| 0 <= u < g0.size() && (#[trigger] g0.north_of(u)) is Some
            implies cell_linked(*g, u) by {
            assert(0 <= g0.row_at(u) < h && 0 <= g0.col_at(u) < w);
            assert(u == g0.row_at(u) * w + g0.col_at(u));
            crate::grid::lemma_row_major_in_range(w, h, g0.row_at(u), g0.col_at(u));
            assert(u < h * w);
            assert(height as int * w == h * w) by (nonlinear_arith)
                requires
                    height as int == h;
        }
    }
}

/// Aldous-Broder: a uniform random walk that links each cell to the cell the
/// walk came from the first time it is reached. A generous step budget keeps
/// the walk finite; in the astronomically unlikely event that it runs out, a
/// deterministic sweep links the remaining unvisited cells to visited
/// neighbours.
pub fn aldous_broder<C: AbstractCell, T: AbstractGrid<C>>(g: &mut T, r: &mut rand::rngs::StdRng)
    requires
        old(g).wf(),
    ensures
        keeps_shape(*old(g), *final(g)),
        links_extended(*old(g), *final(g)),
        from_empty(*old(g)) ==> gen_closed(*final(g)),
        from_empty(*old(g)) ==> gen_connected(*final(g)),
        (from_empty(*old(g)) && old(g).size() >= 1)
            ==> exists|rt: int| 0 <= rt < final(g).size() && gen_covers(*final(g), rt)
                && degree_sum(*final(g), final(g).size())
                    == 2 * (linked_cells(*final(g)).insert(rt).len() - 1),
{
    let ghost g0 = *g;
    let ghost fresh = from_empty(g0);
    let n = g.len();
    if n == 0 {
        proof {
            assert(gen_closed(*g));
            assert(gen_connected(*g));
        }
        return;
    }
    proof {
        if fresh {
            assert forall|i: int| 0 <= i < n as int implies !(#[trigger] cell_linked(*g, i)) by {
                assert(g.links_of(i) == Set::<int>::empty());
                if cell_linked(*g, i) {
                    let j = choose|j: int| g.links_of(i).contains(j);
                }
            }
        }
    }
    let mut visited: Vec<bool> = Vec::new();
    let mut t: usize = 0;
    while t < n
        invariant
            t <= n,
            visited@.len() == t as int,
            forall|k: int| 0 <= k < t as int ==> !(#[trigger] visited@[k]),
        decreases n - t,
    {
        visited.push(false);
        t = t + 1;
    }
    let start_cell = draw_below(r, n);
    let ghost root = start_cell as int;
    proof {
        assert(marked_set(visited@) =~= Set::<int>::empty());
        vstd::set::axiom_set_insert_len(marked_set(visited@), root);
        lemma_mark_new(visited@, visited@.update(root, true), root);
        if fresh {
            crate::graph::lemma_reach_refl(&*g, root);
            lemma_degree_sum_empty(*g, n as int);
            assert(linked_cells(*g) =~= Set::<int>::empty());
            vstd::set::axiom_set_insert_len(linked_cells(*g), root);
        }
    }
    let ghost vpre0 = visited@;
    visited[start_cell] = true;
    proof {
        lemma_mark_new(vpre0, visited@, root);
    }
    let mut current_cell = start_cell;
    let mut visited_count: usize = 1;
    let mut fuel: u64 = 0xffff_ffff_ffff_0000;
    while visited_count < n && fuel > 0
        invariant
            keeps_shape(g0, *g),
            links_extended(g0, *g),
            n as int == g0.size(),
            n >= 1,
            0 <= root < n as int,
            visited@.len() == n as int,
            (current_cell as int) < n as int,
            visited@[current_cell as int],
            visited@[root],
            visited_count as int == marked_set(visited@).len(),
            visited_count <= n,
            fresh ==> (forall|i: int| 0 <= i < n as int && #[trigger] cell_linked(*g, i)
                ==> visited@[i]),
            forall|i: int| 0 <= i < n as int && #[trigger] visited@[i]
                ==> vis_from(*g, root, i),
            fresh ==> (cell_linked(*g, root) || visited_count == 1),
            fresh ==> (forall|i: int| 0 <= i < n as int && #[trigger] visited@[i]
                ==> crate::graph::reach(&*g, root, i)),
            fresh ==> degree_sum(*g, n as int)
                == 2 * (linked_cells(*g).insert(root).len() - 1),
        decreases fuel,
    {
        let ghost gpre = *g;
        let ns = g.neighbours(current_cell);
        if ns.len() == 0 {
            fuel = 0;
        } else {
            let pick = draw_below(r, ns.len());
            let random_neighbor_ix = ns[pick];
            proof {
                g.lemma_wf();
                assert(g.neighbours_of(current_cell as int).contains(random_neighbor_ix as int));
                assert(g.neighbours_of(random_neighbor_ix as int).contains(current_cell as int));
                assert(0 <= (random_neighbor_ix as int) < n as int);
            }
            if !visited[random_neighbor_ix] {
                g.link(random_neighbor_ix, current_cell);
                proof {
                    assert(cell_linked(*g, random_neighbor_ix as int)) by {
                        assert(g.links_of(random_neighbor_ix as int).contains(
                            current_cell as int));
                    }
                    assert(cell_linked(*g, current_cell as int)) by {
                        assert(g.links_of(current_cell as int).contains(
                            random_neighbor_ix as int));
                    }
                    assert forall|i: int| #[trigger] cell_linked(gpre, i)
                        implies cell_linked(*g, i) by {
                        let j = choose|j: int| gpre.links_of(i).contains(j);
                        assert(g.links_of(i).contains(j));
                    }
                    if fresh {
                        lemma_root_reach_extend(gpre, *g, root, current_cell as int,
                            random_neighbor_ix as int);
                        assert(random_neighbor_ix as int != root) by {
                            assert(visited@[root]);
                        }
                        assert(!cell_linked(gpre, random_neighbor_ix as int)) by {
                            if cell_linked(gpre, random_neighbor_ix as int) {
                                assert(visited@[random_neighbor_ix as int]);
                            }
                        }
                        lemma_count_step(gpre, *g, root, current_cell as int,
                            random_neighbor_ix as int, n as int);
                    }
                    lemma_mark_new(visited@, visited@.update(random_neighbor_ix as int, true),
                        random_neighbor_ix as int);
                }
                let ghost vpre = visited@;
                visited[random_neighbor_ix] = true;
                proof {
                    lemma_mark_new(vpre, visited@, random_neighbor_ix as int);
                    if fresh {
                        assert forall|i: int| 0 <= i < n as int && #[trigger] cell_linked(*g, i)
                            implies visited@[i] by {
                            if i != random_neighbor_ix as int && i != current_cell as int {
                                assert(g.links_of(i) == gpre.links_of(i));
                                assert(cell_linked(gpre, i));
                            }
                        }
                    }
                    assert forall|i: int| 0 <= i < n as int && #[trigger] visited@[i]
                        implies vis_from(*g, root, i) by {
                        if i != random_neighbor_ix as int {
                            assert(vpre[i]);
                            assert(vis_from(gpre, root, i));
                        }
                    }
                    if fresh {
                        assert forall|i: int| 0 <= i < n as int && #[trigger] visited@[i]
                            implies crate::graph::reach(&*g, root, i) by {
                            assert(vis_from(*g, root, i));
                        }
                    }
                }
                visited_count = visited_count + 1;
            }
            current_cell = random_neighbor_ix;
            fuel = fuel - 1;
        }
    }
    // deterministic completion sweep; normally the walk has already finished
    let mut made_progress = true;
    while visited_count < n && made_progress
        invariant
            keeps_shape(g0, *g),
            links_extended(g0, *g),
            n as int == g0.size(),
            n >= 1,
            0 <= root < n as int,
            visited@.len() == n as int,
            visited@[root],
            visited_count as int == marked_set(visited@).len(),
            visited_count <= n,
            fresh ==> (forall|i: int| 0 <= i < n as int && #[trigger] cell_linked(*g, i)
                ==> visited@[i]),
            forall|i: int| 0 <= i < n as int && #[trigger] visited@[i]
                ==> vis_from(*g, root, i),
            fresh ==> (cell_linked(*g, root) || visited_count == 1),
            fresh ==> (forall|i: int| 0 <= i < n as int && #[trigger] visited@[i]
                ==> crate::graph::reach(&*g, root, i)),
            fresh ==> degree_sum(*g, n as int)
                == 2 * (linked_cells(*g).insert(root).len() - 1),
            !made_progress ==> (forall|i: int| 0 <= i < n as int && !visited@[i]
                ==> (forall|j: int| #[trigger] g.neighbours_of(i).contains(j)
                    ==> !visited@[j])),
        decreases n - visited_count, (if made_progress { 1int } else { 0int }),
    {
        let ghost gpre = *g;
        let mut found: bool = false;
        let mut found_cell: usize = 0;
        let mut found_nb: usize = 0;
        let mut i: usize = 0;
        while i < n && !found
            invariant
                keeps_shape(g0, *g),
                n as int == g0.size(),
                visited@.len() == n as int,
                i <= n,
                *g == gpre,
                found ==> ((found_cell as int) < n as int && (found_nb as int) < n as int
                    && g.neighbours_of(found_cell as int).contains(found_nb as int)
                    && !visited@[found_cell as int] && visited@[found_nb as int]),
                !found ==> (forall|t: int| 0 <= t < i as int && !visited@[t]
                    ==> (forall|j: int| #[trigger] g.neighbours_of(t).contains(j)
                        ==> !visited@[j])),
            decreases n - i,
        {
            if !visited[i] {
                let ns = g.neighbours(i);
                let mut k: usize = 0;
                while k < ns.len() && !found
                    invariant
                        keeps_shape(g0, *g),
                        n as int == g0.size(),
                        visited@.len() == n as int,
                        i < n,
                        k <= ns@.len(),
                        *g == gpre,
                        !visited@[i as int],
                        forall|t2: int| 0 <= t2 < ns@.len()
                            ==> g.neighbours_of(i as int).contains(#[trigger] ns@[t2] as int),
                        forall|j: int| #[trigger] g.neighbours_of(i as int).contains(j)
                            ==> exists|t2: int| 0 <= t2 < ns@.len() && ns@[t2] as int == j,
                        found ==> ((found_cell as int) < n as int && (found_nb as int) < n as int
                            && g.neighbours_of(found_cell as int).contains(found_nb as int)
                            && !visited@[found_cell as int] && visited@[found_nb as int]),
                        !found ==> (forall|t2: int| 0 <= t2 < k as int
                            ==> !visited@[ns@[t2] as int]),
                    decreases ns@.len() - k,
                {
                    let nb = ns[k];
                    proof {
                        g.lemma_wf();
                        assert(g.neighbours_of(i as int).contains(nb as int));
                        assert(0 <= (nb as int) < n as int);
                    }
                    if visited[nb] {
                        found = true;
                        found_cell = i;
                        found_nb = nb;
                    }
                    k = k + 1;
                }
                proof {
                    if !found {
                        assert forall|j: int| #[trigger] g.neighbours_of(i as int).contains(j)
                            implies !visited@[j] by {
                            let t2 = choose|t2: int| 0 <= t2 < ns@.len() && ns@[t2] as int == j;
                        }
                    }
                }
            }
            i = i + 1;
        }
        if found {
            proof {
                g.lemma_wf();
                assert(g.neighbours_of(found_nb as int).contains(found_cell as int));
            }
            g.link(found_cell, found_nb);
            proof {
                assert(cell_linked(*g, found_cell as int)) by {
                    assert(g.links_of(found_cell as int).contains(found_nb as int));
                }
                assert(cell_linked(*g, found_nb as int)) by {
                    assert(g.links_of(found_nb as int).contains(found_cell as int));
                }
                assert forall|t: int| #[trigger] cell_linked(gpre, t)
                    implies cell_linked(*g, t) by {
                    let j = choose|j: int| gpre.links_of(t).contains(j);
                    assert(g.links_of(t).contains(j));
                }
                if fresh {
                    lemma_root_reach_extend(gpre, *g, root, found_nb as int,
                        found_cell as int);
                    assert(found_cell as int != root) by {
                        assert(visited@[root]);
                    }
                    assert(!cell_linked(gpre, found_cell as int)) by {
                        if cell_linked(gpre, found_cell as int) {
                            assert(visited@[found_cell as int]);
                        }
                    }
                    lemma_count_step(gpre, *g, root, found_nb as int, found_cell as int,
                        n as int);
                }
                lemma_mark_new(visited@, visited@.update(found_cell as int, true),
                    found_cell as int);
            }
            let ghost vpre = visited@;
            visited[found_cell] = true;
            proof {
                lemma_mark_new(vpre, visited@, found_cell as int);
                if fresh {
                    assert forall|i: int| 0 <= i < n as int && #[trigger] cell_linked(*g, i)
                        implies visited@[i] by {
                        if i != found_cell as int && i != found_nb as int {
                            assert(g.links_of(i) == gpre.links_of(i));
                            assert(cell_linked(gpre, i));
                        }
                    }
                }
                assert forall|i: int| 0 <= i < n as int && #[trigger] visited@[i]
                    implies vis_from(*g, root, i) by {
                    if i != found_cell as int {
                        assert(vpre[i]);
                        assert(vis_from(gpre, root, i));
                    }
                }
                if fresh {
                    assert forall|i: int| 0 <= i < n as int && #[trigger] visited@[i]
                        implies crate::graph::reach(&*g, root, i) by {
                        assert(vis_from(*g, root, i));
                    }
                }
            }
            visited_count = visited_count + 1;
        } else {
            made_progress = false;
        }
    }
    proof {
        if fresh {
            g.lemma_wf();
            if visited_count >= n {
                // everything was visited: every cell is marked
                lemma_marked_bound(visited@);
                assert forall|i: int| 0 <= i < n as int implies #[trigger] visited@[i] by {
                    if !visited@[i] {
                        assert(marked_set(visited@).subset_of(
                            vstd::set_lib::set_int_range(0, n as int).remove(i)));
                        vstd::set_lib::lemma_int_range(0, n as int);
                        vstd::set_lib::lemma_len_subset(marked_set(visited@),
                            vstd::set_lib::set_int_range(0, n as int).remove(i));
                        vstd::set::axiom_set_remove_len(
                            vstd::set_lib::set_int_range(0, n as int), i);
                    }
                }
            }
            assert forall|i: int, j: int| 0 <= i < g.size() && cell_linked(*g, i)
                && #[trigger] g.neighbours_of(i).contains(j)
                implies cell_linked(*g, j) by {
                assert(visited@[i]);
                assert(0 <= j < n as int);
                if !visited@[j] {
                    // an unvisited cell next to a visited one: the sweep would
                    // have found it
                    assert(g.neighbours_of(j).contains(i));
                    assert(visited_count < n);
                    assert(!cell_linked(*g, j) ==> true);
                    assert(forall|u: int| #[trigger] g.neighbours_of(j).contains(u)
                        ==> !visited@[u]);
                    assert(false);
                }
                assert(vis_from(*g, root, j));
                if j == root && !cell_linked(*g, root) {
                    assert(visited_count == 1);
                    assert(marked_set(visited@).len() == 1);
                    assert(marked_set(visited@).contains(root));
                    assert(marked_set(visited@).contains(i));
                    if i != root {
                        crate::graph::lemma_two_members(marked_set(visited@), root, i);
                    }
                }
            }
            assert(gen_closed(*g));
            lemma_pairwise_connected(*g, root);
            assert forall|j: int| #[trigger] g.neighbours_of(root).contains(j)
                implies cell_linked(*g, root) && cell_linked(*g, j) by {
                assert(j != root);
                assert(0 <= j < n as int);
                assert(visited@[j]) by {
                    if !visited@[j] {
                        assert(visited_count < n);
                        assert(g.neighbours_of(j).contains(root));
                        assert(visited@[root]);
                    }
                }
                assert(vis_from(*g, root, j));
                assert(cell_linked(*g, j));
                if !cell_linked(*g, root) {
                    assert(visited_count == 1);
                    assert(marked_set(visited@).contains(root));
                    assert(marked_set(visited@).contains(j));
                    crate::graph::lemma_two_members(marked_set(visited@), root, j);
                }
            }
            assert(gen_covers(*g, root));
            assert(degree_sum(*g, g.size())
                == 2 * (linked_cells(*g).insert(root).len() - 1));
            assert(0 <= root < n as int && gen_covers(*g, root));
        }
    }
}

/// Hunt-and-kill: random-walk into unvisited neighbours while possible; when
/// stuck, scan for the first unvisited cell adjacent to a visited one, link
/// it, and resume from there.
pub fn hunt_and_kill<C: AbstractCell, T: AbstractGrid<C>>(g: &mut T, r: &mut rand::rngs::StdRng)
    requires
        old(g).wf(),
    ensures
        keeps_shape(*old(g), *final(g)),
        links_extended(*old(g), *final(g)),
        gen_closed(*final(g)),
        from_empty(*old(g)) ==> gen_connected(*final(g)),
        (from_empty(*old(g)) && old(g).size() >= 1)
            ==> exists|rt: int| 0 <= rt < final(g).size() && gen_covers(*final(g), rt)
                && degree_sum(*final(g), final(g).size())
                    == 2 * (linked_cells(*final(g)).insert(rt).len() - 1),
{
    let ghost g0 = *g;
    let ghost fresh = from_empty(g0);
    let n = g.len();
    if n == 0 {
        proof {
            assert(gen_closed(*g));
            assert(gen_connected(*g));
        }
        return;
    }
    let start = draw_below(r, n);
    let ghost root = start as int;
    let mut current_idx: usize = start;
    let mut running = true;
    proof {
        if fresh {
            assert forall|i: int| 0 <= i < n as int implies !(#[trigger] cell_linked(*g, i)) by {
                assert(g.links_of(i) == Set::<int>::empty());
                if cell_linked(*g, i) {
                    let j = choose|j: int| g.links_of(i).contains(j);
                }
            }
            crate::graph::lemma_reach_refl(&*g, root);
            lemma_degree_sum_empty(*g, n as int);
            assert(linked_cells(*g) =~= Set::<int>::empty());
            vstd::set::axiom_set_insert_len(linked_cells(*g), root);
        }
    }
    while running
        invariant
            keeps_shape(g0, *g),
            links_extended(g0, *g),
            n as int == g0.size(),
            n >= 1,
            0 <= root < n as int,
            (current_idx as int) < n as int,
            vis_from(*g, root, current_idx as int),
            fresh ==> (cell_linked(*g, root)
                || (forall|i: int| 0 <= i < n as int ==> !(#[trigger] cell_linked(*g, i)))),
            fresh ==> (forall|i: int| 0 <= i < n as int && #[trigger] vis_from(*g, root, i)
                ==> crate::graph::reach(&*g, root, i)),
            fresh ==> degree_sum(*g, n as int)
                == 2 * (linked_cells(*g).insert(root).len() - 1),
            !running ==> gen_closed(*g),
            (fresh && !running) ==> exists|rt: int| 0 <= rt < n as int && gen_covers(*g, rt)
                && degree_sum(*g, n as int) == 2 * (linked_cells(*g).insert(rt).len() - 1),
        decreases g0.size() - linked_cells(*g).len(), (if running { 1int } else { 0int }),
    {
        let ghost gpre = *g;
        let cell_neighbors = unvisited_neighbors(g, current_idx);
        if cell_neighbors.len() > 0 {
            let pick = draw_below(r, cell_neighbors.len());
            let next_cell = cell_neighbors[pick];
            proof {
                g.lemma_wf();
            }
            g.link(current_idx, next_cell);
            proof {
                assert(cell_linked(*g, next_cell as int)) by {
                    assert(g.links_of(next_cell as int).contains(current_idx as int));
                }
                assert(cell_linked(*g, current_idx as int)) by {
                    assert(g.links_of(current_idx as int).contains(next_cell as int));
                }
                lemma_linked_cells_grow(gpre, *g, next_cell as int);
                assert forall|i: int| #[trigger] cell_linked(gpre, i)
                    implies cell_linked(*g, i) by {
                    let j = choose|j: int| gpre.links_of(i).contains(j);
                    assert(g.links_of(i).contains(j));
                }
                if fresh {
                    lemma_root_reach_extend(gpre, *g, root, current_idx as int,
                        next_cell as int);
                    assert(next_cell as int != root) by {
                        if next_cell as int == root {
                            assert(!cell_linked(gpre, root));
                            assert(!cell_linked(gpre, current_idx as int));
                            assert(current_idx as int == root);
                            gpre.lemma_wf();
                            assert(gpre.neighbours_of(current_idx as int).contains(
                                next_cell as int));
                        }
                    }
                    lemma_count_step(gpre, *g, root, current_idx as int, next_cell as int,
                        n as int);
                }
            }
            current_idx = next_cell;
        } else {
            let mut found = false;
            let mut i: usize = 0;
            while i < n && !found
                invariant
                    keeps_shape(g0, *g),
                    links_extended(g0, *g),
                    n as int == g0.size(),
                    i <= n,
                    0 <= root < n as int,
                    found ==> linked_cells(gpre).len() < linked_cells(*g).len(),
                    found ==> linked_cells(*g).len() <= g0.size(),
                    !found ==> *g == gpre,
                    !found ==> (forall|t: int| 0 <= t < i as int
                        ==> (cell_linked(*g, t)
                            || (forall|j: int| #[trigger] g.neighbours_of(t).contains(j)
                                ==> !cell_linked(*g, j)))),
                    (current_idx as int) < n as int,
                    vis_from(*g, root, current_idx as int),
                    fresh ==> (cell_linked(*g, root)
                        || (forall|t: int| 0 <= t < n as int
                            ==> !(#[trigger] cell_linked(*g, t)))),
                    fresh ==> (forall|t: int| 0 <= t < n as int
                        && #[trigger] vis_from(*g, root, t)
                        ==> crate::graph::reach(&*g, root, t)),
                    fresh ==> degree_sum(*g, n as int)
                        == 2 * (linked_cells(*g).insert(root).len() - 1),
                decreases n - i,
            {
                let links_i = g.links(i);
                if links_i.len() == 0 {
                    proof {
                        lemma_empty_links_unlinked(*g, i as int);
                    }
                    let i_neighbors = visited_neighbors(g, i);
                    if i_neighbors.len() > 0 {
                        let ghost gmid = *g;
                        let pick = draw_below(r, i_neighbors.len());
                        let nb = i_neighbors[pick];
                        proof {
                            g.lemma_wf();
                            assert(g.neighbours_of(i as int).contains(nb as int));
                            assert(cell_linked(*g, nb as int));
                        }
                        g.link(i, nb);
                        proof {
                            assert(cell_linked(*g, i as int)) by {
                                assert(g.links_of(i as int).contains(nb as int));
                            }
                            lemma_linked_cells_grow(gmid, *g, i as int);
                            assert forall|t: int| #[trigger] cell_linked(gmid, t)
                                implies cell_linked(*g, t) by {
                                let j = choose|j: int| gmid.links_of(t).contains(j);
                                assert(g.links_of(t).contains(j));
                            }
                            if fresh {
                                lemma_root_reach_extend(gmid, *g, root, nb as int, i as int);
                                assert(i as int != root) by {
                                    if i as int == root {
                                        assert(!cell_linked(gmid, root));
                                        assert(!cell_linked(gmid, nb as int));
                                    }
                                }
                                lemma_count_step(gmid, *g, root, nb as int, i as int,
                                    n as int);
                            }
                        }
                        current_idx = i;
                        found = true;
                    } else {
                        proof {
                            // no visited neighbour: the completeness of the scan
                            assert forall|j: int| #[trigger] g.neighbours_of(i as int).contains(j)
                                implies !cell_linked(*g, j) by {
                                if cell_linked(*g, j) {
                                    assert(exists|u: int| 0 <= u < i_neighbors@.len()
                                        && i_neighbors@[u] as int == j);
                                }
                            }
                        }
                    }
                } else {
                    proof {
                        assert(g.links_of(i as int).contains(links_i@[0] as int));
                        assert(cell_linked(*g, i as int));
                    }
                }
                i = i + 1;
            }
            if !found {
                running = false;
                proof {
                    g.lemma_wf();
                    assert forall|t: int, j: int| 0 <= t < g.size() && cell_linked(*g, t)
                        && #[trigger] g.neighbours_of(t).contains(j)
                        implies cell_linked(*g, j) by {
                        if !cell_linked(*g, j) {
                            assert(0 <= j < n as int);
                            assert(g.neighbours_of(j).contains(t));
                            assert(cell_linked(*g, j)
                                || (forall|u: int| #[trigger] g.neighbours_of(j).contains(u)
                                    ==> !cell_linked(*g, u)));
                            assert(!cell_linked(*g, t));
                        }
                    }
                    assert(gen_closed(*g));
                    if fresh {
                        // the stuck cell has no unvisited neighbour left, so it
                        // and all its neighbours are visited
                        assert forall|j: int|
                            #[trigger] g.neighbours_of(current_idx as int).contains(j)
                            implies cell_linked(*g, current_idx as int)
                                && cell_linked(*g, j) by {
                            assert(*g == gpre);
                            assert(cell_linked(*g, j)) by {
                                if !cell_linked(*g, j) {
                                    assert(exists|u: int| 0 <= u < cell_neighbors@.len()
                                        && cell_neighbors@[u] as int == j);
                                }
                            }
                            if !cell_linked(*g, current_idx as int) {
                                assert(vis_from(*g, root, current_idx as int));
                                assert(current_idx as int == root);
                                assert(!cell_linked(*g, root));
                                assert(!cell_linked(*g, j));
                            }
                        }
                        assert(gen_covers(*g, current_idx as int));
                        assert(degree_sum(*g, g.size())
                            == 2 * (linked_cells(*g).insert(current_idx as int).len() - 1))
                            by {
                            if !cell_linked(*g, current_idx as int) {
                                assert(current_idx as int == root);
                            } else {
                                assert(linked_cells(*g).insert(current_idx as int)
                                    =~= linked_cells(*g).insert(root));
                            }
                        }
                        assert(0 <= (current_idx as int) < n as int
                            && gen_covers(*g, current_idx as int));
                    }
                }
            }
        }
    }
    proof {
        if fresh {
            assert(g.wf());
            lemma_pairwise_connected(*g, root);
        }
    }
}

/// Recursive backtracker: depth-first search with an explicit stack; link to
/// a random unvisited neighbour and descend, backtrack when stuck.
pub fn recursive_backtracker<C: AbstractCell, T: AbstractGrid<C>>(g: &mut T, r: &mut rand::rngs::StdRng)
    requires
        old(g).wf(),
    ensures
        keeps_shape(*old(g), *final(g)),
        links_extended(*old(g), *final(g)),
        from_empty(*old(g)) ==> gen_closed(*final(g)),
        from_empty(*old(g)) ==> gen_connected(*final(g)),
        (from_empty(*old(g)) && old(g).size() >= 1)
            ==> exists|rt: int| 0 <= rt < final(g).size() && gen_covers(*final(g), rt)
                && degree_sum(*final(g), final(g).size())
                    == 2 * (linked_cells(*final(g)).insert(rt).len() - 1),
{
    let ghost g0 = *g;
    let ghost fresh = from_empty(g0);
    let n = g.len();
    if n == 0 {
        proof {
            assert(gen_closed(*g));
            assert(gen_connected(*g));
        }
        return;
    }
    let start = draw_below(r, n);
    let ghost root = start as int;
    let mut cell_stack: Vec<usize> = Vec::new();
    cell_stack.push(start);
    proof {
        if fresh {
            assert forall|i: int| 0 <= i < n as int implies !(#[trigger] cell_linked(*g, i)) by {
                assert(g.links_of(i) == Set::<int>::empty());
                if cell_linked(*g, i) {
                    let j = choose|j: int| g.links_of(i).contains(j);
                }
            }
            crate::graph::lemma_reach_refl(&*g, root);
            assert(seq_has(cell_stack@, root)) by {
                assert(cell_stack@[0] as int == root);
            }
            lemma_degree_sum_empty(*g, n as int);
            assert(linked_cells(*g) =~= Set::<int>::empty());
            vstd::set::axiom_set_insert_len(linked_cells(*g), root);
        }
    }
    while cell_stack.len() > 0
        invariant
            keeps_shape(g0, *g),
            links_extended(g0, *g),
            n as int == g0.size(),
            0 <= root < n as int,
            forall|t: int| 0 <= t < cell_stack@.len()
                ==> ((#[trigger] cell_stack@[t]) as int) < n as int
                    && vis_from(*g, root, cell_stack@[t] as int),
            fresh ==> (cell_linked(*g, root)
                || (forall|i: int| 0 <= i < n as int ==> !(#[trigger] cell_linked(*g, i)))),
            fresh ==> (forall|i: int| 0 <= i < n as int && #[trigger] vis_from(*g, root, i)
                && !seq_has(cell_stack@, i)
                ==> (forall|j: int| #[trigger] g.neighbours_of(i).contains(j)
                    ==> vis_from(*g, root, j))),
            fresh ==> (forall|i: int| 0 <= i < n as int && #[trigger] vis_from(*g, root, i)
                ==> crate::graph::reach(&*g, root, i)),
            fresh ==> degree_sum(*g, n as int)
                == 2 * (linked_cells(*g).insert(root).len() - 1),
        decreases g0.size() - linked_cells(*g).len(), cell_stack@.len(),
    {
        let ghost gpre = *g;
        let ghost spre = cell_stack@;
        let current_idx = cell_stack[cell_stack.len() - 1];
        let neighbors = unvisited_neighbors(g, current_idx);
        if neighbors.len() == 0 {
            cell_stack.pop();
            proof {
                if fresh {
                    // the popped cell has no unvisited neighbours left
                    assert forall|i: int| 0 <= i < n as int && #[trigger] vis_from(*g, root, i)
                        && !seq_has(cell_stack@, i)
                        implies (forall|j: int| #[trigger] g.neighbours_of(i).contains(j)
                            ==> vis_from(*g, root, j)) by {
                        if seq_has(spre, i) {
                            let t = choose|t: int| 0 <= t < spre.len() && spre[t] as int == i;
                            if t < spre.len() - 1 {
                                assert(cell_stack@[t] as int == i);
                                assert(seq_has(cell_stack@, i));
                            }
                            assert(t == spre.len() - 1);
                            assert(i == current_idx as int);
                            assert forall|j: int| #[trigger] g.neighbours_of(i).contains(j)
                                implies vis_from(*g, root, j) by {
                                g.lemma_wf();
                                if !cell_linked(*g, j) {
                                    assert(exists|u: int| 0 <= u < neighbors@.len()
                                        && neighbors@[u] as int == j);
                                }
                            }
                        }
                    }
                }
            }
        } else {
            let pick = draw_below(r, neighbors.len());
            let n_ix = neighbors[pick];
            proof {
                g.lemma_wf();
            }
            g.link(current_idx, n_ix);
            proof {
                assert(cell_linked(*g, n_ix as int)) by {
                    assert(g.links_of(n_ix as int).contains(current_idx as int));
                }
                assert(cell_linked(*g, current_idx as int)) by {
                    assert(g.links_of(current_idx as int).contains(n_ix as int));
                }
                lemma_linked_cells_grow(gpre, *g, n_ix as int);
                assert forall|i: int| #[trigger] cell_linked(gpre, i)
                    implies cell_linked(*g, i) by {
                    let j = choose|j: int| gpre.links_of(i).contains(j);
                    assert(g.links_of(i).contains(j));
                }
                if fresh {
                    lemma_root_reach_extend(gpre, *g, root, current_idx as int, n_ix as int);
                    assert(n_ix as int != root) by {
                        if n_ix as int == root {
                            assert(!cell_linked(gpre, root));
                            assert(!cell_linked(gpre, current_idx as int));
                            assert(current_idx as int == root);
                            gpre.lemma_wf();
                            assert(gpre.neighbours_of(current_idx as int).contains(
                                n_ix as int));
                        }
                    }
                    lemma_count_step(gpre, *g, root, current_idx as int, n_ix as int,
                        n as int);
                }
            }
            cell_stack.push(n_ix);
            proof {
                assert(cell_stack@[cell_stack@.len() - 1] == n_ix);
                if fresh {
                    assert forall|i: int| 0 <= i < n as int && #[trigger] vis_from(*g, root, i)
                        && !seq_has(cell_stack@, i)
                        implies (forall|j: int| #[trigger] g.neighbours_of(i).contains(j)
                            ==> vis_from(*g, root, j)) by {
                        assert(i != n_ix as int);
                        if i != current_idx as int && cell_linked(*g, i) {
                            assert(g.links_of(i) == gpre.links_of(i));
                        }
                        assert(vis_from(gpre, root, i));
                        assert(!seq_has(spre, i)) by {
                            if seq_has(spre, i) {
                                let t = choose|t: int| 0 <= t < spre.len()
                                    && spre[t] as int == i;
                                assert(cell_stack@[t] as int == i);
                            }
                        }
                    }
                }
            }
        }
    }
    proof {
        if fresh {
            assert forall|i: int, j: int| 0 <= i < g.size() && cell_linked(*g, i)
                && #[trigger] g.neighbours_of(i).contains(j)
                implies cell_linked(*g, j) by {
                assert(vis_from(*g, root, i));
                assert(!seq_has(cell_stack@, i));
                assert(vis_from(*g, root, j));
                if j == root && !cell_linked(*g, root) {
                    assert(!cell_linked(*g, i));
                }
            }
            assert(gen_closed(*g));
            assert(g.wf());
            lemma_pairwise_connected(*g, root);
            assert forall|j: int| #[trigger] g.neighbours_of(root).contains(j)
                implies vis_from(*g, root, j) by {
                assert(vis_from(*g, root, root));
                assert(!seq_has(cell_stack@, root));
            }
            lemma_root_covered_at_exit(*g, root);
            assert(gen_covers(*g, root));
            assert(degree_sum(*g, g.size())
                == 2 * (linked_cells(*g).insert(root).len() - 1));
        }
    }
}

/// Simplified Prim: keep an unordered active list; repeatedly pick a random
/// active cell, link it to a random unvisited neighbour, or retire it when
/// it has none left.
pub fn simplified_prim<C: AbstractCell, T: AbstractGrid<C>>(g: &mut T, r: &mut rand::rngs::StdRng)
    requires
        old(g).wf(),
    ensures
        keeps_shape(*old(g), *final(g)),
        links_extended(*old(g), *final(g)),
        from_empty(*old(g)) ==> gen_closed(*final(g)),
        from_empty(*old(g)) ==> gen_connected(*final(g)),
        (from_empty(*old(g)) && old(g).size() >= 1)
            ==> exists|rt: int| 0 <= rt < final(g).size() && gen_covers(*final(g), rt)
                && degree_sum(*final(g), final(g).size())
                    == 2 * (linked_cells(*final(g)).insert(rt).len() - 1),
{
    let ghost g0 = *g;
    let ghost fresh = from_empty(g0);
    let n = g.len();
    if n == 0 {
        proof {
            assert(gen_closed(*g));
            assert(gen_connected(*g));
        }
        return;
    }
    let start_at = n / 2;
    let ghost root = start_at as int;
    let mut active: Vec<usize> = Vec::new();
    active.push(start_at);
    proof {
        if fresh {
            assert forall|i: int| 0 <= i < n as int implies !(#[trigger] cell_linked(*g, i)) by {
                assert(g.links_of(i) == Set::<int>::empty());
                if cell_linked(*g, i) {
                    let j = choose|j: int| g.links_of(i).contains(j);
                }
            }
            crate::graph::lemma_reach_refl(&*g, root);
            assert(seq_has(active@, root)) by {
                assert(active@[0] as int == root);
            }
            lemma_degree_sum_empty(*g, n as int);
            assert(linked_cells(*g) =~= Set::<int>::empty());
            vstd::set::axiom_set_insert_len(linked_cells(*g), root);
        }
    }
    while active.len() > 0
        invariant
            keeps_shape(g0, *g),
            links_extended(g0, *g),
            n as int == g0.size(),
            0 <= root < n as int,
            forall|t: int| 0 <= t < active@.len()
                ==> ((#[trigger] active@[t]) as int) < n as int
                    && vis_from(*g, root, active@[t] as int),
            fresh ==> (cell_linked(*g, root)
                || (forall|i: int| 0 <= i < n as int ==> !(#[trigger] cell_linked(*g, i)))),
            fresh ==> (forall|i: int| 0 <= i < n as int && #[trigger] vis_from(*g, root, i)
                && !seq_has(active@, i)
                ==> (forall|j: int| #[trigger] g.neighbours_of(i).contains(j)
                    ==> vis_from(*g, root, j))),
            fresh ==> (forall|i: int| 0 <= i < n as int && #[trigger] vis_from(*g, root, i)
                ==> crate::graph::reach(&*g, root, i)),
            fresh ==> degree_sum(*g, n as int)
                == 2 * (linked_cells(*g).insert(root).len() - 1),
        decreases g0.size() - linked_cells(*g).len(), active@.len(),
    {
        let ghost gpre = *g;
        let ghost spre = active@;
        let pick = draw_below(r, active.len());
        let current_cell = active[pick];
        let neighbors = unvisited_neighbors(g, current_cell);
        if neighbors.len() == 0 {
            active.remove(pick);
            proof {
                if fresh {
                    // the retired cell has no unvisited neighbours left
                    assert forall|i: int| 0 <= i < n as int && #[trigger] vis_from(*g, root, i)
                        && !seq_has(active@, i)
                        implies (forall|j: int| #[trigger] g.neighbours_of(i).contains(j)
                            ==> vis_from(*g, root, j)) by {
                        if seq_has(spre, i) {
                            let t = choose|t: int| 0 <= t < spre.len() && spre[t] as int == i;
                            if t < pick as int {
                                assert(active@[t] as int == i);
                                assert(seq_has(active@, i));
                            } else if t > pick as int {
                                assert(active@[t - 1] as int == i);
                                assert(seq_has(active@, i));
                            }
                            assert(i == current_cell as int);
                            assert forall|j: int| #[trigger] g.neighbours_of(i).contains(j)
                                implies vis_from(*g, root, j) by {
                                g.lemma_wf();
                                if !cell_linked(*g, j) {
                                    assert(exists|u: int| 0 <= u < neighbors@.len()
                                        && neighbors@[u] as int == j);
                                }
                            }
                        }
                    }
                }
            }
        } else {
            let pick2 = draw_below(r, neighbors.len());
            let n_ix = neighbors[pick2];
            proof {
                g.lemma_wf();
            }
            g.link(current_cell, n_ix);
            proof {
                assert(cell_linked(*g, n_ix as int)) by {
                    assert(g.links_of(n_ix as int).contains(current_cell as int));
                }
                assert(cell_linked(*g, current_cell as int)) by {
                    assert(g.links_of(current_cell as int).contains(n_ix as int));
                }
                lemma_linked_cells_grow(gpre, *g, n_ix as int);
                assert forall|i: int| #[trigger] cell_linked(gpre, i)
                    implies cell_linked(*g, i) by {
                    let j = choose|j: int| gpre.links_of(i).contains(j);
                    assert(g.links_of(i).contains(j));
                }
                if fresh {
                    lemma_root_reach_extend(gpre, *g, root, current_cell as int, n_ix as int);
                    assert(n_ix as int != root) by {
                        if n_ix as int == root {
                            assert(!cell_linked(gpre, root));
                            assert(!cell_linked(gpre, current_cell as int));
                            assert(current_cell as int == root);
                            gpre.lemma_wf();
                            assert(gpre.neighbours_of(current_cell as int).contains(
                                n_ix as int));
                        }
                    }
                    lemma_count_step(gpre, *g, root, current_cell as int, n_ix as int,
                        n as int);
                }
            }
            active.push(n_ix);
            proof {
                assert(active@[active@.len() - 1] == n_ix);
                if fresh {
                    assert forall|i: int| 0 <= i < n as int && #[trigger] vis_from(*g, root, i)
                        && !seq_has(active@, i)
                        implies (forall|j: int| #[trigger] g.neighbours_of(i).contains(j)
                            ==> vis_from(*g, root, j)) by {
                        assert(i != n_ix as int);
                        if i != current_cell as int && cell_linked(*g, i) {
                            assert(g.links_of(i) == gpre.links_of(i));
                        }
                        assert(vis_from(gpre, root, i));
                        assert(!seq_has(spre, i)) by {
                            if seq_has(spre, i) {
                                let t = choose|t: int| 0 <= t < spre.len()
                                    && spre[t] as int == i;
                                assert(active@[t] as int == i);
                            }
                        }
                    }
                }
            }
        }
    }
    proof {
        if fresh {
            assert forall|i: int, j: int| 0 <= i < g.size() && cell_linked(*g, i)
                && #[trigger] g.neighbours_of(i).contains(j)
                implies cell_linked(*g, j) by {
                assert(vis_from(*g, root, i));
                assert(!seq_has(active@, i));
                assert(vis_from(*g, root, j));
                if j == root && !cell_linked(*g, root) {
                    assert(!cell_linked(*g, i));
                }
            }
            assert(gen_closed(*g));
            assert(g.wf());
            lemma_pairwise_connected(*g, root);
            assert forall|j: int| #[trigger] g.neighbours_of(root).contains(j)
                implies vis_from(*g, root, j) by {
                assert(vis_from(*g, root, root));
                assert(!seq_has(active@, root));
            }
            lemma_root_covered_at_exit(*g, root);
            assert(gen_covers(*g, root));
            assert(degree_sum(*g, g.size())
                == 2 * (linked_cells(*g).insert(root).len() - 1));
        }
    }
}

/// True Prim: like Simplified Prim, but the active set is keyed by an
/// independent random draw per insertion and the cell with the greatest key
/// is expanded; it is only retired once it has no unvisited neighbour left.
pub fn true_prim<C: AbstractCell, T: AbstractGrid<C>>(g: &mut T, r: &mut rand::rngs::StdRng)
    requires
        old(g).wf(),
    ensures
        keeps_shape(*old(g), *final(g)),
        links_extended(*old(g), *final(g)),
        from_empty(*old(g)) ==> gen_closed(*final(g)),
        from_empty(*old(g)) ==> gen_connected(*final(g)),
        (from_empty(*old(g)) && old(g).size() >= 1)
            ==> exists|rt: int| 0 <= rt < final(g).size() && gen_covers(*final(g), rt)
                && degree_sum(*final(g), final(g).size())
                    == 2 * (linked_cells(*final(g)).insert(rt).len() - 1),
{
    let ghost g0 = *g;
    let ghost fresh = from_empty(g0);
    let n = g.len();
    if n == 0 {
        proof {
            assert(gen_closed(*g));
            assert(gen_connected(*g));
        }
        return;
    }
    let start_at: usize = 0;
    let ghost root = start_at as int;
    let mut active: Vec<(u64, usize)> = Vec::new();
    let first_key = draw_u64(r);
    active.push((first_key, start_at));
    proof {
        if fresh {
            assert forall|i: int| 0 <= i < n as int implies !(#[trigger] cell_linked(*g, i)) by {
                assert(g.links_of(i) == Set::<int>::empty());
                if cell_linked(*g, i) {
                    let j = choose|j: int| g.links_of(i).contains(j);
                }
            }
            crate::graph::lemma_reach_refl(&*g, root);
            assert(pair_seq_has(active@, root)) by {
                assert(active@[0].1 as int == root);
            }
            lemma_degree_sum_empty(*g, n as int);
            assert(linked_cells(*g) =~= Set::<int>::empty());
            vstd::set::axiom_set_insert_len(linked_cells(*g), root);
        }
    }
    while active.len() > 0
        invariant
            keeps_shape(g0, *g),
            links_extended(g0, *g),
            n as int == g0.size(),
            n >= 1,
            0 <= root < n as int,
            forall|t: int| 0 <= t < active@.len()
                ==> (((#[trigger] active@[t]).1 as int) < n as int
                    && vis_from(*g, root, active@[t].1 as int)),
            fresh ==> (cell_linked(*g, root)
                || (forall|i: int| 0 <= i < n as int ==> !(#[trigger] cell_linked(*g, i)))),
            fresh ==> (forall|i: int| 0 <= i < n as int && #[trigger] vis_from(*g, root, i)
                && !pair_seq_has(active@, i)
                ==> (forall|j: int| #[trigger] g.neighbours_of(i).contains(j)
                    ==> vis_from(*g, root, j))),
            fresh ==> (forall|i: int| 0 <= i < n as int && #[trigger] vis_from(*g, root, i)
                ==> crate::graph::reach(&*g, root, i)),
            fresh ==> degree_sum(*g, n as int)
                == 2 * (linked_cells(*g).insert(root).len() - 1),
        decreases g0.size() - linked_cells(*g).len(), active@.len(),
    {
        let ghost gpre = *g;
        let ghost spre = active@;
        // locate the entry with the greatest (key, cell) pair
        let mut best: usize = 0;
        let mut k: usize = 1;
        while k < active.len()
            invariant
                active@.len() > 0,
                k <= active@.len(),
                (best as int) < active@.len(),
            decreases active@.len() - k,
        {
            let a = active[k];
            let b = active[best];
            if a.0 > b.0 || (a.0 == b.0 && a.1 > b.1) {
                best = k;
            }
            k = k + 1;
        }
        let current_cell = active[best].1;
        let neighbors = unvisited_neighbors(g, current_cell);
        if neighbors.len() == 0 {
            active.remove(best);
            proof {
                if fresh {
                    // the retired cell has no unvisited neighbours left
                    assert forall|i: int| 0 <= i < n as int && #[trigger] vis_from(*g, root, i)
                        && !pair_seq_has(active@, i)
                        implies (forall|j: int| #[trigger] g.neighbours_of(i).contains(j)
                            ==> vis_from(*g, root, j)) by {
                        if pair_seq_has(spre, i) {
                            let t = choose|t: int| 0 <= t < spre.len() && spre[t].1 as int == i;
                            if t < best as int {
                                assert(active@[t].1 as int == i);
                                assert(pair_seq_has(active@, i));
                            } else if t > best as int {
                                assert(active@[t - 1].1 as int == i);
                                assert(pair_seq_has(active@, i));
                            }
                            assert(i == current_cell as int);
                            assert forall|j: int| #[trigger] g.neighbours_of(i).contains(j)
                                implies vis_from(*g, root, j) by {
                                g.lemma_wf();
                                if !cell_linked(*g, j) {
                                    assert(exists|u: int| 0 <= u < neighbors@.len()
                                        && neighbors@[u] as int == j);
                                }
                            }
                        }
                    }
                }
            }
        } else {
            let pick = draw_below(r, neighbors.len());
            let n_ix = neighbors[pick];
            proof {
                g.lemma_wf();
            }
            g.link(current_cell, n_ix);
            proof {
                assert(cell_linked(*g, n_ix as int)) by {
                    assert(g.links_of(n_ix as int).contains(current_cell as int));
                }
                assert(cell_linked(*g, current_cell as int)) by {
                    assert(g.links_of(current_cell as int).contains(n_ix as int));
                }
                lemma_linked_cells_grow(gpre, *g, n_ix as int);
                assert forall|i: int| #[trigger] cell_linked(gpre, i)
                    implies cell_linked(*g, i) by {
                    let j = choose|j: int| gpre.links_of(i).contains(j);
                    assert(g.links_of(i).contains(j));
                }
                if fresh {
                    lemma_root_reach_extend(gpre, *g, root, current_cell as int, n_ix as int);
                    assert(n_ix as int != root) by {
                        if n_ix as int == root {
                            assert(!cell_linked(gpre, root));
                            assert(!cell_linked(gpre, current_cell as int));
                            assert(current_cell as int == root);
                            gpre.lemma_wf();
                            assert(gpre.neighbours_of(current_cell as int).contains(
                                n_ix as int));
                        }
                    }
                    lemma_count_step(gpre, *g, root, current_cell as int, n_ix as int,
                        n as int);
                }
            }
            let key = draw_u64(r);
            active.push((key, n_ix));
            proof {
                assert(active@[active@.len() - 1].1 == n_ix);
                if fresh {
                    assert forall|i: int| 0 <= i < n as int && #[trigger] vis_from(*g, root, i)
                        && !pair_seq_has(active@, i)
                        implies (forall|j: int| #[trigger] g.neighbours_of(i).contains(j)
                            ==> vis_from(*g, root, j)) by {
                        assert(i != n_ix as int);
                        if i != current_cell as int && cell_linked(*g, i) {
                            assert(g.links_of(i) == gpre.links_of(i));
                        }
                        assert(vis_from(gpre, root, i));
                        assert(!pair_seq_has(spre, i)) by {
                            if pair_seq_has(spre, i) {
                                let t = choose|t: int| 0 <= t < spre.len()
                                    && spre[t].1 as int == i;
                                assert(active@[t].1 as int == i);
                            }
                        }
                    }
                }
            }
        }
    }
    proof {
        if fresh {
            assert forall|i: int, j: int| 0 <= i < g.size() && cell_linked(*g, i)
                && #[trigger] g.neighbours_of(i).contains(j)
                implies cell_linked(*g, j) by {
                assert(vis_from(*g, root, i));
                assert(!pair_seq_has(active@, i));
                assert(vis_from(*g, root, j));
                if j == root && !cell_linked(*g, root) {
                    assert(!cell_linked(*g, i));
                }
            }
            assert(gen_closed(*g));
            assert(g.wf());
            lemma_pairwise_connected(*g, root);
            assert forall|j: int| #[trigger] g.neighbours_of(root).contains(j)
                implies vis_from(*g, root, j) by {
                assert(vis_from(*g, root, root));
                assert(!pair_seq_has(active@, root));
            }
            lemma_root_covered_at_exit(*g, root);
            assert(gen_covers(*g, root));
            assert(degree_sum(*g, g.size())
                == 2 * (linked_cells(*g).insert(root).len() - 1));
        }
    }
}

/// Braiding: every dead end (a cell with exactly one link) is, with
/// probability `chance / 255`, linked to a random not-yet-linked neighbour.
/// With `chance == 0` the maze is left exactly as it was.
pub fn braid<C: AbstractCell, T: AbstractGrid<C>>(g: &mut T, r: &mut rand::rngs::StdRng, chance: u8)
    requires
        old(g).wf(),
    ensures
        keeps_shape(*old(g), *final(g)),
        links_extended(*old(g), *final(g)),
        chance == 0 ==> forall|i: int| #[trigger] final(g).links_of(i) == old(g).links_of(i),
        forall|i: int| 0 <= i < old(g).size() && #[trigger] cell_linked(*old(g), i)
            ==> cell_linked(*final(g), i),
        gen_closed(*old(g)) ==> gen_closed(*final(g)),
        gen_closed(*old(g)) ==> forall|i: int| 0 <= i < old(g).size()
            ==> ((#[trigger] cell_linked(*final(g), i)) <==> cell_linked(*old(g), i)),
        (chance == 255 && (forall|i: int| 0 <= i < old(g).size()
                ==> #[trigger] cell_linked(*old(g), i)))
            ==> forall|i: int| 0 <= i < final(g).size()
                && (#[trigger] final(g).links_of(i)).len() == 1
                ==> final(g).neighbours_of(i).subset_of(final(g).links_of(i)),
{
    let ghost g0 = *g;
    let ghost closed0 = gen_closed(g0);
    let ghost full = chance == 255 && (forall|i: int| 0 <= i < g0.size()
        ==> #[trigger] cell_linked(g0, i));
    let n = g.len();
    let mut i: usize = 0;
    while i < n
        invariant
            keeps_shape(g0, *g),
            links_extended(g0, *g),
            n as int == g0.size(),
            chance == 0 ==> forall|t: int| #[trigger] g.links_of(t) == g0.links_of(t),
            forall|t: int| 0 <= t < n as int && #[trigger] cell_linked(g0, t)
                ==> cell_linked(*g, t),
            closed0 ==> gen_closed(*g),
            closed0 ==> forall|t: int| 0 <= t < n as int
                ==> ((#[trigger] cell_linked(*g, t)) <==> cell_linked(g0, t)),
            full ==> chance == 255,
            full ==> forall|t: int| 0 <= t < n as int ==> #[trigger] cell_linked(g0, t),
            full ==> forall|t: int| 0 <= t < i as int
                ==> ((#[trigger] g.links_of(t)).len() >= 2
                    || g.neighbours_of(t).subset_of(g.links_of(t))),
        decreases n - i,
    {
        let ghost gpre = *g;
        let c_links = g.links(i);
        if c_links.len() == 1 {
            let dice = draw_below(r, 255);
            if dice < chance as usize {
                // collect the neighbours that are not already linked to i
                let ns_all = g.neighbours(i);
                let ghost gmid = *g;
                let mut ns: Vec<usize> = Vec::new();
                let mut k: usize = 0;
                while k < ns_all.len()
                    invariant
                        *g == gmid,
                        keeps_shape(g0, *g),
                        links_extended(g0, *g),
                        n as int == g0.size(),
                        i < n,
                        k <= ns_all@.len(),
                        crate::grid::idx_set(c_links@) == g.links_of(i as int),
                        forall|u: int| 0 <= u < c_links@.len()
                            ==> g.links_of(i as int).contains(#[trigger] c_links@[u] as int),
                        forall|t: int| 0 <= t < ns_all@.len()
                            ==> g.neighbours_of(i as int).contains(#[trigger] ns_all@[t] as int),
                        forall|t: int| 0 <= t < ns@.len()
                            ==> g.neighbours_of(i as int).contains(#[trigger] ns@[t] as int)
                                && !g.links_of(i as int).contains(ns@[t] as int),
                        forall|t: int| 0 <= t < k as int
                                && !g.links_of(i as int).contains(ns_all@[t] as int)
                            ==> exists|u: int| 0 <= u < ns@.len()
                                && ns@[u] == #[trigger] ns_all@[t],
                    decreases ns_all@.len() - k,
                {
                    let x = ns_all[k];
                    if !crate::rectangle::vec_contains(&c_links, x) {
                        proof {
                            crate::grid::lemma_idx_set(c_links@);
                            assert(!g.links_of(i as int).contains(x as int));
                        }
                        let ghost npre = ns@;
                        let ghost kk = ns@.len() as int;
                        ns.push(x);
                        proof {
                            assert forall|t: int| 0 <= t < k as int + 1
                                    && !g.links_of(i as int).contains(ns_all@[t] as int)
                                implies exists|u: int| 0 <= u < ns@.len()
                                    && ns@[u] == #[trigger] ns_all@[t] by {
                                if t < k as int {
                                    let u = choose|u: int| 0 <= u < npre.len()
                                        && npre[u] == ns_all@[t];
                                    assert(ns@[u] == ns_all@[t]);
                                } else {
                                    assert(ns@[kk] == ns_all@[t]);
                                }
                            }
                        }
                    } else {
                        proof {
                            crate::grid::lemma_idx_set(c_links@);
                            assert(g.links_of(i as int).contains(x as int));
                        }
                    }
                    k = k + 1;
                }
                if ns.len() > 0 {
                    let pick = draw_below(r, ns.len());
                    let new_neighbor = ns[pick];
                    proof {
                        g.lemma_wf();
                        assert(0 <= (new_neighbor as int) < n as int);
                    }
                    g.link(i, new_neighbor);
                    proof {
                        lemma_braid_link_frame(gpre, *g, g0, i as int, new_neighbor as int,
                            n as int, closed0, full, i as int);
                    }
                } else {
                    proof {
                        // every neighbour of the dead end is already linked to it
                        assert forall|j: int| #[trigger] g.neighbours_of(i as int).contains(j)
                            implies g.links_of(i as int).contains(j) by {
                            if !g.links_of(i as int).contains(j) {
                                let t = choose|t: int| 0 <= t < ns_all@.len()
                                    && ns_all@[t] as int == j;
                                assert(exists|u: int| 0 <= u < ns@.len()
                                    && ns@[u] as int == j);
                            }
                        }
                        assert(g.neighbours_of(i as int).subset_of(g.links_of(i as int)));
                    }
                }
            } else {
                proof {
                    if full {
                        assert(dice < 255);
                        assert(false);
                    }
                }
            }
        } else {
            proof {
                if full {
                    g.lemma_wf();
                    assert(cell_linked(g0, i as int));
                    assert(cell_linked(*g, i as int));
                    let j = choose|j: int| g.links_of(i as int).contains(j);
                    crate::graph::lemma_one_member(g.links_of(i as int), j);
                    assert(g.links_of(i as int).len() != 1);
                    assert(g.links_of(i as int).len() >= 2);
                }
            }
        }
        i = i + 1;
    }
}

/// One braiding link keeps every braid invariant: the dead end gains a
/// second passage, closedness and the visited set are unchanged, and the
/// processed prefix keeps its degrees.
proof fn lemma_braid_link_frame<C: AbstractCell, T: AbstractGrid<C>>(g1: T, g2: T, g0: T, a: int, b: int, n: int, closed0: bool, full: bool, upto: int)
    requires
        g1.wf(),
        upto == a,
        g1.size() == n,
        g2.size() == n,
        0 <= a < n,
        0 <= b < n,
        forall|i: int| i != a && i != b ==> #[trigger] g2.links_of(i) == g1.links_of(i),
        g2.links_of(a) == g1.links_of(a).insert(b),
        g2.links_of(b) == g1.links_of(b).insert(a),
        !g1.links_of(a).contains(b),
        g1.links_of(a).len() == 1,
        g1.neighbours_of(a).contains(b),
        forall|i: int| #[trigger] g1.neighbours_of(i) == g2.neighbours_of(i),
        closed0 ==> gen_closed(g1),
        closed0 ==> forall|i: int| 0 <= i < n
            ==> ((#[trigger] cell_linked(g1, i)) <==> cell_linked(g0, i)),
        full ==> forall|t: int| 0 <= t < upto
            ==> ((#[trigger] g1.links_of(t)).len() >= 2
                || g1.neighbours_of(t).subset_of(g1.links_of(t))),
    ensures
        forall|i: int| 0 <= i < n && #[trigger] cell_linked(g1, i) ==> cell_linked(g2, i),
        closed0 ==> gen_closed(g2),
        closed0 ==> forall|i: int| 0 <= i < n
            ==> ((#[trigger] cell_linked(g2, i)) <==> cell_linked(g0, i)),
        full ==> forall|t: int| 0 <= t < upto + 1
            ==> ((#[trigger] g2.links_of(t)).len() >= 2
                || g2.neighbours_of(t).subset_of(g2.links_of(t))),
{
    g1.lemma_wf();
    assert(cell_linked(g1, a)) by {
        if !cell_linked(g1, a) {
            assert(forall|j: int| !g1.links_of(a).contains(j));
            assert(g1.links_of(a) =~= Set::<int>::empty());
        }
    }
    assert forall|i: int| 0 <= i < n && #[trigger] cell_linked(g1, i)
        implies cell_linked(g2, i) by {
        let j = choose|j: int| g1.links_of(i).contains(j);
        assert(g2.links_of(i).contains(j));
    }
    vstd::set::axiom_set_insert_len(g1.links_of(a), b);
    assert(g2.links_of(a).len() == 2);
    if closed0 {
        assert(cell_linked(g1, b)) by {
            assert(gen_closed(g1));
            assert(g1.neighbours_of(a).contains(b));
        }
        assert forall|i: int| 0 <= i < n
            implies ((#[trigger] cell_linked(g2, i)) <==> cell_linked(g1, i)) by {
            if cell_linked(g2, i) && i != a && i != b {
                let j = choose|j: int| g2.links_of(i).contains(j);
                assert(g1.links_of(i).contains(j));
            }
        }
        assert forall|i: int, j: int| 0 <= i < g2.size() && cell_linked(g2, i)
            && #[trigger] g2.neighbours_of(i).contains(j)
            implies cell_linked(g2, j) by {
            assert(cell_linked(g1, i));
            assert(g1.neighbours_of(i).contains(j));
            assert(cell_linked(g1, j));
        }
    }
    if full {
        assert forall|t: int| 0 <= t < upto + 1
            implies ((#[trigger] g2.links_of(t)).len() >= 2
                || g2.neighbours_of(t).subset_of(g2.links_of(t))) by {
            if t == a {
                assert(g2.links_of(a).len() == 2);
            } else if t == b {
                assert(t < upto);
                if g1.links_of(t).len() >= 2 {
                    vstd::set::axiom_set_insert_len(g1.links_of(b), a);
                } else {
                    assert(g1.neighbours_of(t).subset_of(g1.links_of(t)));
                    assert forall|u: int| g2.neighbours_of(t).contains(u)
                        implies g2.links_of(t).contains(u) by {
                        assert(g1.neighbours_of(t).contains(u));
                        assert(g1.links_of(t).contains(u));
                    }
                }
            } else if t < upto {
                assert(g2.links_of(t) == g1.links_of(t));
                if g1.neighbours_of(t).subset_of(g1.links_of(t)) {
                    assert forall|u: int| g2.neighbours_of(t).contains(u)
                        implies g2.links_of(t).contains(u) by {
                        assert(g1.neighbours_of(t).contains(u));
                    }
                }
            }
        }
    }
}

} // verus!
