//! The user-facing configuration vocabulary: which tessellation to build,
//! which generator to run, and the dispatcher that runs a chosen generator
//! followed by an optional braiding pass.

use vstd::prelude::*;

use crate::generate::{
    aldous_broder, braid, cell_linked, degree_sum, from_empty, gen_closed, gen_connected,
    gen_covers, keeps_shape, linked_cells, links_extended, recursive_backtracker,
    simplified_prim, true_prim,
};
use crate::grid::{AbstractCell, AbstractGrid};

verus! {

/// The tessellation of the maze.
#[derive(Clone, Copy, PartialEq, Eq, Debug)]
pub enum MazeType {
    Regular,
    Circular,
    Hexagonal,
    Delta,
}

/// The generation algorithm to run.
#[derive(Clone, Copy, PartialEq, Eq, Debug)]
pub enum GenerationType {
    RecursiveBacktracker,
    AldousBroder,
    SimplifiedPrim,
    TruePrim,
}

/// Runs the chosen generator on the grid, then braids the result when a
/// non-zero braid chance is given. On a fresh grid the run leaves no
/// visited cell bordering an unvisited one, and all visited cells mutually
/// reachable through open passages.
pub fn make_tha_maze<C: AbstractCell, T: AbstractGrid<C>>(generation_type: &GenerationType, grid: &mut T, braid_chance: u8, rng: &mut rand::rngs::StdRng)
    requires
        old(grid).wf(),
    ensures
        keeps_shape(*old(grid), *final(grid)),
        links_extended(*old(grid), *final(grid)),
        from_empty(*old(grid)) ==> gen_closed(*final(grid)),
        from_empty(*old(grid)) ==> gen_connected(*final(grid)),
        (from_empty(*old(grid)) && old(grid).size() >= 1)
            ==> exists|rt: int| 0 <= rt < final(grid).size() && gen_covers(*final(grid), rt),
        (from_empty(*old(grid)) && old(grid).size() >= 1 && braid_chance == 0)
            ==> exists|rt: int| 0 <= rt < final(grid).size() && gen_covers(*final(grid), rt)
                && degree_sum(*final(grid), final(grid).size())
                    == 2 * (linked_cells(*final(grid)).insert(rt).len() - 1),
{
    let ghost g0 = *grid;
    let ghost fresh = from_empty(g0);
    match generation_type {
        GenerationType::RecursiveBacktracker => recursive_backtracker(grid, rng),
        GenerationType::AldousBroder => aldous_broder(grid, rng),
        GenerationType::SimplifiedPrim => simplified_prim(grid, rng),
        GenerationType::TruePrim => true_prim(grid, rng),
    }
    let ghost gmid = *grid;
    if braid_chance > 0 {
        braid(grid, rng, braid_chance);
        proof {
            if fresh {
                // braiding keeps the maze closed and its visited set fixed,
                // and only opens passages, so connectivity survives
                assert(gen_closed(gmid));
                assert(gen_closed(*grid));
                assert forall|i: int, j: int|
                    #![trigger cell_linked(*grid, i), cell_linked(*grid, j)]
                    0 <= i < grid.size() && 0 <= j < grid.size()
                    && cell_linked(*grid, i) && cell_linked(*grid, j)
                    implies crate::graph::reach(&*grid, i, j) by {
                    assert(cell_linked(gmid, i));
                    assert(cell_linked(gmid, j));
                    assert(crate::graph::reach(&gmid, i, j));
                    crate::graph::lemma_reach_monotone(&gmid, &*grid, i, j);
                }
                assert(gen_connected(*grid));
                if g0.size() >= 1 {
                    let rt = choose|rt: int| 0 <= rt < gmid.size() && gen_covers(gmid, rt);
                    assert forall|j: int| #[trigger] grid.neighbours_of(rt).contains(j)
                        implies cell_linked(*grid, rt) && cell_linked(*grid, j) by {
                        assert(grid.neighbours_of(rt) == g0.neighbours_of(rt));
                        assert(gmid.neighbours_of(rt) == g0.neighbours_of(rt));
                        assert(gmid.neighbours_of(rt).contains(j));
                        assert(cell_linked(gmid, rt) && cell_linked(gmid, j));
                    }
                    assert(gen_covers(*grid, rt));
                    assert(0 <= rt < grid.size() && gen_covers(*grid, rt));
                }
            }
        }
    } else {
        proof {
            if fresh && g0.size() >= 1 {
                let rt = choose|rt: int| 0 <= rt < grid.size() && gen_covers(*grid, rt)
                    && degree_sum(*grid, grid.size())
                        == 2 * (linked_cells(*grid).insert(rt).len() - 1);
                assert(0 <= rt < grid.size() && gen_covers(*grid, rt));
            }
        }
    }
}

} // verus!
