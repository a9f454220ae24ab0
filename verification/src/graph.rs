//! Reasoning about the link graph: walks through open passages and the
//! reachability relation they induce, with its basic laws. The solver's
//! completeness and parent-chain guarantees are stated over these notions.

use vstd::prelude::*;

use crate::grid::{AbstractCell, AbstractGrid};

verus! {

/// `p` is a walk through open passages of `g`: non-empty, in-range, and each
/// consecutive pair linked.
pub open spec fn link_path<C: AbstractCell, G: AbstractGrid<C>>(g: &G, p: Seq<int>) -> bool {
    &&& p.len() >= 1
    &&& forall|k: int| 0 <= k < p.len() ==> 0 <= #[trigger] p[k] < g.size()
    &&& forall|k: int| 0 <= k < p.len() - 1 ==> g.links_of(#[trigger] p[k]).contains(p[k + 1])
}

/// `p` is a walk across spatially adjacent cells (through walls or not).
pub open spec fn n_path<C: AbstractCell, G: AbstractGrid<C>>(g: &G, p: Seq<int>) -> bool {
    &&& p.len() >= 1
    &&& forall|k: int| 0 <= k < p.len() ==> 0 <= #[trigger] p[k] < g.size()
    &&& forall|k: int| 0 <= k < p.len() - 1 ==> g.neighbours_of(#[trigger] p[k]).contains(p[k + 1])
}

/// Cell `b` can be reached from cell `a` across spatially adjacent cells.
pub open spec fn n_reach<C: AbstractCell, G: AbstractGrid<C>>(g: &G, a: int, b: int) -> bool {
    exists|p: Seq<int>| #[trigger] n_path(g, p) && p.first() == a && p.last() == b
}

/// Cell `b` can be reached from cell `a` through open passages.
pub open spec fn reach<C: AbstractCell, G: AbstractGrid<C>>(g: &G, a: int, b: int) -> bool {
    exists|p: Seq<int>| #[trigger] link_path(g, p) && p.first() == a && p.last() == b
}

pub proof fn lemma_reach_refl<C: AbstractCell, G: AbstractGrid<C>>(g: &G, a: int)
    requires
        0 <= a < g.size(),
    ensures
        reach(g, a, a),
{
    let p = seq![a];
    assert(link_path(g, p));
    assert(p.first() == a && p.last() == a);
}

pub proof fn lemma_reach_step<C: AbstractCell, G: AbstractGrid<C>>(g: &G, a: int, b: int, c: int)
    requires
        reach(g, a, b),
        g.links_of(b).contains(c),
        0 <= c < g.size(),
    ensures
        reach(g, a, c),
{
    let p = choose|p: Seq<int>| #[trigger] link_path(g, p) && p.first() == a && p.last() == b;
    let q = p.push(c);
    assert forall|k: int| 0 <= k < q.len() - 1
        implies g.links_of(#[trigger] q[k]).contains(q[k + 1]) by {
        if k < p.len() - 1 {
            assert(q[k] == p[k] && q[k + 1] == p[k + 1]);
        } else {
            assert(q[k] == p.last() && q[k + 1] == c);
        }
    }
    assert(link_path(g, q));
    assert(q.first() == a && q.last() == c);
}

pub proof fn lemma_reach_trans<C: AbstractCell, G: AbstractGrid<C>>(g: &G, a: int, b: int, c: int)
    requires
        reach(g, a, b),
        reach(g, b, c),
    ensures
        reach(g, a, c),
{
    let p1 = choose|p: Seq<int>| #[trigger] link_path(g, p) && p.first() == a && p.last() == b;
    let p2 = choose|p: Seq<int>| #[trigger] link_path(g, p) && p.first() == b && p.last() == c;
    let q = p1 + p2.subrange(1, p2.len() as int);
    assert(q.len() == p1.len() + p2.len() - 1);
    assert forall|k: int| 0 <= k < q.len() implies 0 <= #[trigger] q[k] < g.size() by {
        if k < p1.len() {
            assert(q[k] == p1[k]);
        } else {
            assert(q[k] == p2[k - p1.len() + 1]);
        }
    }
    assert forall|k: int| 0 <= k < q.len() - 1
        implies g.links_of(#[trigger] q[k]).contains(q[k + 1]) by {
        if k < p1.len() - 1 {
            assert(q[k] == p1[k] && q[k + 1] == p1[k + 1]);
        } else if k == p1.len() - 1 {
            assert(q[k] == p1.last());
            if p2.len() >= 2 {
                assert(q[k + 1] == p2[1]);
                assert(g.links_of(p2[0]).contains(p2[1]));
            }
        } else {
            assert(q[k] == p2[k - p1.len() + 1] && q[k + 1] == p2[k - p1.len() + 2]);
            assert(g.links_of(p2[k - p1.len() + 1]).contains(p2[k - p1.len() + 2]));
        }
    }
    assert(link_path(g, q));
    assert(q.first() == a && q.last() == c);
}

/// Walking a path backwards, using the symmetry of the link relation.
pub proof fn lemma_path_sym<C: AbstractCell, G: AbstractGrid<C>>(g: &G, p: Seq<int>)
    requires
        g.wf(),
        link_path(g, p),
    ensures
        reach(g, p.last(), p.first()),
    decreases p.len(),
{
    g.lemma_wf();
    if p.len() == 1 {
        lemma_reach_refl(g, p.first());
    } else {
        let q = p.drop_last();
        assert(link_path(g, q));
        lemma_path_sym(g, q);
        let b = p.last();
        let c = q.last();
        assert(g.links_of(c).contains(b));
        assert(g.links_of(b).contains(c));
        lemma_reach_refl(g, b);
        lemma_reach_step(g, b, b, c);
        lemma_reach_trans(g, b, c, p.first());
    }
}

/// Reachability is symmetric on a well-formed grid.
pub proof fn lemma_reach_sym<C: AbstractCell, G: AbstractGrid<C>>(g: &G, a: int, b: int)
    requires
        g.wf(),
        reach(g, a, b),
    ensures
        reach(g, b, a),
{
    let p = choose|p: Seq<int>| #[trigger] link_path(g, p) && p.first() == a && p.last() == b;
    lemma_path_sym(g, p);
}

/// Opening more passages preserves reachability.
pub proof fn lemma_reach_monotone<C: AbstractCell, G: AbstractGrid<C>>(g1: &G, g2: &G, a: int, b: int)
    requires
        reach(g1, a, b),
        g1.size() == g2.size(),
        forall|i: int, j: int| #[trigger] g1.links_of(i).contains(j) ==> g2.links_of(i).contains(j),
    ensures
        reach(g2, a, b),
{
    let p = choose|p: Seq<int>| #[trigger] link_path(g1, p) && p.first() == a && p.last() == b;
    assert forall|k: int| 0 <= k < p.len() - 1
        implies g2.links_of(#[trigger] p[k]).contains(p[k + 1]) by {
        assert(g1.links_of(p[k]).contains(p[k + 1]));
    }
    assert(link_path(g2, p));
}

/// A cell set that contains two distinct members has at least two elements.
pub proof fn lemma_two_members(s: Set<int>, a: int, b: int)
    requires
        s.finite(),
        s.contains(a),
        s.contains(b),
        a != b,
    ensures
        s.len() >= 2,
{
    let s1 = s.remove(a);
    vstd::set::axiom_set_remove_len(s, a);
    vstd::set::axiom_set_contains_len(s1, b);
}

/// A non-empty finite set has at least one element.
pub proof fn lemma_one_member(s: Set<int>, a: int)
    requires
        s.finite(),
        s.contains(a),
    ensures
        s.len() >= 1,
{
    vstd::set::axiom_set_contains_len(s, a);
}

} // verus!
