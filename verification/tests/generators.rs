use mazes::delta::DeltaGrid;
use mazes::generate::{
    aldous_broder, binary_tree, braid, hunt_and_kill, recursive_backtracker, sidewinder,
    simplified_prim, true_prim,
};
use mazes::grid::{AbstractCell, AbstractGrid, CompassDirections, RectangularGrid};
use mazes::hexagonal::HexagonalGrid;
use mazes::polar::CircularGrid;
use mazes::rectangle::RectangleGrid;
use mazes::settings::{make_tha_maze, GenerationType};
use mazes::solve::solve_with_longest_path;
use rand::SeedableRng;

fn rng(seed: u64) -> rand::rngs::StdRng {
    rand::rngs::StdRng::seed_from_u64(seed)
}

fn directed_entries<T: AbstractCell, G: AbstractGrid<T>>(g: &G) -> usize {
    (0..g.len()).map(|i| g.links(i).len()).sum()
}

fn links_within_neighbours<T: AbstractCell, G: AbstractGrid<T>>(g: &G) {
    for i in 0..g.len() {
        let ns = g.neighbours(i);
        for j in g.links(i) {
            assert!(ns.contains(&j), "link {} of {} is not a neighbour", j, i);
            assert!(g.links(j).contains(&i), "link {} of {} is not mirrored", j, i);
        }
    }
}

fn assert_spanning_tree<T: AbstractCell, G: AbstractGrid<T>>(g: &G) {
    let n = g.len();
    assert_eq!(directed_entries(g), 2 * (n - 1), "not exactly n-1 undirected links");
    let solved = solve_with_longest_path(g);
    for i in 0..n {
        assert!(solved.cell_weights[i].path_length >= 0, "cell {} unreachable", i);
    }
    links_within_neighbours(g);
}

#[test]
fn backtracker_spans_a_3x3_grid() {
    let mut g = RectangleGrid::new(3, 3);
    let mut r = rng(7);
    recursive_backtracker(&mut g, &mut r);
    assert_eq!(directed_entries(&g), 16);
    let solved = solve_with_longest_path(&g);
    assert_eq!(solved.cell_weights[0].path_length, 0);
    for i in 0..9 {
        let pl = solved.cell_weights[i].path_length;
        assert!((0..=8).contains(&pl), "cell {} has distance {}", i, pl);
    }
}

#[test]
fn aldous_broder_links_all_25_cells() {
    for seed in [1u64, 99, 12345] {
        let mut g = RectangleGrid::new(5, 5);
        let mut r = rng(seed);
        aldous_broder(&mut g, &mut r);
        assert_eq!(directed_entries(&g), 2 * 24, "seed {}", seed);
        for i in 0..25 {
            assert!(!g.links(i).is_empty(), "cell {} unlinked for seed {}", i, seed);
        }
        assert_spanning_tree(&g);
    }
}

#[test]
fn every_generator_spans_a_rectangle() {
    let mut r = rng(11);
    let mut g = RectangleGrid::new(4, 5);
    binary_tree(&mut g, &mut r);
    assert_spanning_tree(&g);
    let mut g = RectangleGrid::new(4, 5);
    sidewinder(&mut g, &mut r);
    assert_spanning_tree(&g);
    let mut g = RectangleGrid::new(4, 5);
    hunt_and_kill(&mut g, &mut r);
    assert_spanning_tree(&g);
    let mut g = RectangleGrid::new(4, 5);
    recursive_backtracker(&mut g, &mut r);
    assert_spanning_tree(&g);
    let mut g = RectangleGrid::new(4, 5);
    simplified_prim(&mut g, &mut r);
    assert_spanning_tree(&g);
    let mut g = RectangleGrid::new(4, 5);
    true_prim(&mut g, &mut r);
    assert_spanning_tree(&g);
    let mut g = RectangleGrid::new(4, 5);
    aldous_broder(&mut g, &mut r);
    assert_spanning_tree(&g);
}

#[test]
fn generators_span_the_other_tessellations() {
    let mut r = rng(23);
    let mut g = HexagonalGrid::new(4, 4);
    recursive_backtracker(&mut g, &mut r);
    assert_spanning_tree(&g);
    let mut g = DeltaGrid::new(4, 6);
    hunt_and_kill(&mut g, &mut r);
    assert_spanning_tree(&g);
    let mut g = CircularGrid::new(4);
    aldous_broder(&mut g, &mut r);
    assert_spanning_tree(&g);
    let mut g = CircularGrid::new(4);
    true_prim(&mut g, &mut r);
    assert_spanning_tree(&g);
}

#[test]
fn generators_terminate_on_the_lone_polar_cell() {
    let mut r = rng(3);
    let mut g = CircularGrid::new(1);
    aldous_broder(&mut g, &mut r);
    assert_eq!(directed_entries(&g), 0);
    let mut g = CircularGrid::new(1);
    recursive_backtracker(&mut g, &mut r);
    assert_eq!(directed_entries(&g), 0);
    let mut g = CircularGrid::new(1);
    hunt_and_kill(&mut g, &mut r);
    assert_eq!(directed_entries(&g), 0);
    let mut g = CircularGrid::new(1);
    simplified_prim(&mut g, &mut r);
    assert_eq!(directed_entries(&g), 0);
    let mut g = CircularGrid::new(1);
    true_prim(&mut g, &mut r);
    assert_eq!(directed_entries(&g), 0);
    let mut g = CircularGrid::new(1);
    braid(&mut g, &mut r, 255);
    assert_eq!(directed_entries(&g), 0);
}

#[test]
fn binary_tree_links_every_cell_with_north_or_east() {
    let mut g = RectangleGrid::new(4, 4);
    let mut r = rng(57);
    binary_tree(&mut g, &mut r);
    for i in 0..g.len() {
        let has_north = g.north_ix(i).is_some();
        let has_east = g.east_ix(i).is_some();
        if has_north || has_east {
            assert!(!g.links(i).is_empty(), "cell {} stayed unlinked", i);
        }
    }
    links_within_neighbours(&g);
}

#[test]
fn sidewinder_links_every_cell_with_north() {
    for seed in [2u64, 40, 77] {
        let mut g = RectangleGrid::new(5, 4);
        let mut r = rng(seed);
        sidewinder(&mut g, &mut r);
        for i in 0..g.len() {
            if g.north_ix(i).is_some() {
                assert!(!g.links(i).is_empty(), "cell {} stayed unlinked, seed {}", i, seed);
            }
            // the first two rows are full east corridors
            if g.cell(i).row() <= 1 && g.cell(i).col() + 1 < g.width() {
                assert!(g.links(i).contains(&(i + 1)), "row {} not a corridor at {}",
                    g.cell(i).row(), i);
            }
        }
        links_within_neighbours(&g);
    }
}

#[test]
fn braid_with_chance_zero_changes_nothing() {
    let mut g = RectangleGrid::new(4, 4);
    let mut r = rng(5);
    recursive_backtracker(&mut g, &mut r);
    let before: Vec<Vec<usize>> = (0..g.len()).map(|i| g.links(i)).collect();
    braid(&mut g, &mut r, 0);
    let after: Vec<Vec<usize>> = (0..g.len()).map(|i| g.links(i)).collect();
    assert_eq!(before, after);
}

#[test]
fn braid_with_full_chance_removes_every_dead_end() {
    let mut g = RectangleGrid::new(5, 5);
    let mut r = rng(13);
    recursive_backtracker(&mut g, &mut r);
    braid(&mut g, &mut r, 255);
    for i in 0..g.len() {
        let links = g.links(i);
        if links.len() == 1 {
            // a remaining dead end may exist only when every neighbour is
            // already linked to it
            for j in g.neighbours(i) {
                assert!(links.contains(&j), "dead end {} still has free neighbour {}", i, j);
            }
        }
    }
    links_within_neighbours(&g);
}

#[test]
fn same_seed_reproduces_the_same_maze() {
    let mut g1 = RectangleGrid::new(6, 6);
    let mut g2 = RectangleGrid::new(6, 6);
    let mut r1 = rng(77);
    let mut r2 = rng(77);
    recursive_backtracker(&mut g1, &mut r1);
    recursive_backtracker(&mut g2, &mut r2);
    for i in 0..g1.len() {
        assert_eq!(g1.links(i), g2.links(i));
    }
}

#[test]
fn make_tha_maze_runs_every_algorithm() {
    let kinds = [
        GenerationType::RecursiveBacktracker,
        GenerationType::AldousBroder,
        GenerationType::SimplifiedPrim,
        GenerationType::TruePrim,
    ];
    let mut r = rng(31);
    for kind in kinds {
        let mut g = RectangleGrid::new(4, 4);
        make_tha_maze(&kind, &mut g, 0, &mut r);
        assert_spanning_tree(&g);
    }
    // with braiding the maze stays connected and gains links
    let mut g = RectangleGrid::new(4, 4);
    make_tha_maze(&GenerationType::RecursiveBacktracker, &mut g, 255, &mut r);
    assert!(directed_entries(&g) >= 2 * 15);
    links_within_neighbours(&g);
    let solved = solve_with_longest_path(&g);
    for i in 0..g.len() {
        assert!(solved.cell_weights[i].path_length >= 0);
    }
}
