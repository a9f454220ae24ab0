use mazes::grid::AbstractGrid;
use mazes::rectangle::RectangleGrid;
use mazes::solve::{solve_with_longest_path, DijkstraStep};
use rand::SeedableRng;

fn rng(seed: u64) -> rand::rngs::StdRng {
    rand::rngs::StdRng::seed_from_u64(seed)
}

#[test]
fn initial_labels_the_start_and_its_links() {
    let mut g = RectangleGrid::new(2, 2);
    g.link(0, 1);
    g.link(0, 2);
    let s = DijkstraStep::initial(&g, 0);
    assert_eq!(s.cell_weights[0].path_length, 0);
    assert_eq!(s.cell_weights[0].parent, 0);
    assert_eq!(s.cell_weights[1].path_length, 1);
    assert_eq!(s.cell_weights[1].parent, 0);
    assert_eq!(s.cell_weights[2].path_length, 1);
    assert_eq!(s.cell_weights[2].parent, 0);
    assert_eq!(s.cell_weights[3].path_length, -1);
    assert_eq!(s.cell_weights[3].parent, -1);
    assert_eq!(s.lookup_queue.len(), 2);
}

#[test]
fn next_step_expands_the_front_cell() {
    let mut g = RectangleGrid::new(2, 2);
    g.link(0, 1);
    g.link(1, 3);
    let s = DijkstraStep::initial(&g, 0);
    let s2 = s.next_step(&g);
    assert_eq!(s2.cell_weights[3].path_length, 2);
    assert_eq!(s2.cell_weights[3].parent, 1);
}

#[test]
fn distances_follow_the_unique_tree_path() {
    // a hand-built path maze: 0 - 1 - 3 - 2
    let mut g = RectangleGrid::new(2, 2);
    g.link(0, 1);
    g.link(1, 3);
    g.link(3, 2);
    let s = solve_with_longest_path(&g);
    assert_eq!(s.cell_weights[0].path_length, 0);
    assert_eq!(s.cell_weights[1].path_length, 1);
    assert_eq!(s.cell_weights[3].path_length, 2);
    assert_eq!(s.cell_weights[2].path_length, 3);
    assert_eq!(s.cell_weights[2].parent, 3);
    assert_eq!(s.cell_weights[3].parent, 1);
    assert_eq!(s.cell_weights[1].parent, 0);
}

#[test]
fn solving_twice_gives_identical_labels() {
    let mut g = RectangleGrid::new(5, 5);
    let mut r = rng(19);
    mazes::generate::recursive_backtracker(&mut g, &mut r);
    let s1 = solve_with_longest_path(&g);
    let s2 = solve_with_longest_path(&g);
    for i in 0..g.len() {
        assert_eq!(s1.cell_weights[i].path_length, s2.cell_weights[i].path_length);
        assert_eq!(s1.cell_weights[i].parent, s2.cell_weights[i].parent);
    }
}

#[test]
fn parent_chains_walk_back_to_the_start() {
    let mut g = RectangleGrid::new(6, 6);
    let mut r = rng(41);
    mazes::generate::hunt_and_kill(&mut g, &mut r);
    let s = solve_with_longest_path(&g);
    for i in 0..g.len() {
        let pl = s.cell_weights[i].path_length;
        assert!(pl >= 0);
        let mut cur = i;
        let mut steps: usize = 0;
        while cur != 0 {
            let p = s.cell_weights[cur].parent;
            assert!(p >= 0);
            // the parent is one step closer to the start, through a passage
            assert!(g.links(cur).contains(&(p as usize)));
            assert_eq!(s.cell_weights[p as usize].path_length + 1,
                s.cell_weights[cur].path_length);
            cur = p as usize;
            steps += 1;
            assert!(steps <= g.len(), "parent chain does not terminate");
        }
        assert_eq!(steps as i32, pl, "chain length differs from path_length at {}", i);
    }
}

#[test]
fn disconnected_cells_stay_unvisited() {
    let mut g = RectangleGrid::new(2, 2);
    g.link(0, 1);
    let s = solve_with_longest_path(&g);
    assert_eq!(s.cell_weights[0].path_length, 0);
    assert_eq!(s.cell_weights[1].path_length, 1);
    assert_eq!(s.cell_weights[2].path_length, -1);
    assert_eq!(s.cell_weights[2].parent, -1);
    assert_eq!(s.cell_weights[3].path_length, -1);
}
