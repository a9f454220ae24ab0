use mazes::delta::{is_up, DeltaGrid};
use mazes::grid::{AbstractCell, AbstractGrid, CompassDirections, RectangularGrid};
use mazes::hexagonal::HexagonalGrid;
use mazes::polar::CircularGrid;
use mazes::rectangle::RectangleGrid;

fn sorted<T: AbstractCell, G: AbstractGrid<T>>(g: &G, ix: usize) -> Vec<usize> {
    let mut v = g.neighbours(ix);
    v.sort();
    v.dedup();
    v
}

#[test]
fn rect_dimensions_and_indexing() {
    let g = RectangleGrid::new(3, 4);
    assert_eq!(g.len(), 12);
    assert_eq!(g.width(), 4);
    assert_eq!(g.height(), 3);
    assert_eq!(g.ix(1, 2), 6);
    assert_eq!(g.ix_opt(2, 3), Some(11));
    assert_eq!(g.ix_opt(3, 0), None);
    assert_eq!(g.ix_opt(0, 4), None);
    let c = g.cell(6);
    assert_eq!(c.row(), 1);
    assert_eq!(c.col(), 2);
}

#[test]
fn rect_neighbours_and_compass() {
    let g = RectangleGrid::new(3, 3);
    assert_eq!(sorted(&g, 4), vec![1, 3, 5, 7]);
    assert_eq!(sorted(&g, 0), vec![1, 3]);
    assert_eq!(sorted(&g, 8), vec![5, 7]);
    assert_eq!(g.north_ix(4), Some(1));
    assert_eq!(g.south_ix(4), Some(7));
    assert_eq!(g.east_ix(4), Some(5));
    assert_eq!(g.west_ix(4), Some(3));
    assert_eq!(g.north_ix(0), None);
    assert_eq!(g.west_ix(0), None);
    assert_eq!(g.east_ix(8), None);
    assert_eq!(g.south_ix(8), None);
}

#[test]
fn rect_link_is_symmetric() {
    let mut g = RectangleGrid::new(2, 2);
    assert!(g.links(0).is_empty());
    g.link(0, 1);
    assert_eq!(g.links(0), vec![1]);
    assert_eq!(g.links(1), vec![0]);
    // linking twice changes nothing
    g.link(1, 0);
    assert_eq!(g.links(0), vec![1]);
    assert_eq!(g.links(1), vec![0]);
}

#[test]
fn hex_neighbours_match_brick_layout() {
    let g = HexagonalGrid::new(3, 3);
    assert_eq!(g.len(), 9);
    // centre cell (row 1, col 1, odd column): diagonals shift down
    assert_eq!(sorted(&g, 4), vec![1, 3, 5, 6, 7, 8]);
    // top-left corner
    assert_eq!(sorted(&g, 0), vec![1, 3]);
    // symmetry of the whole relation
    for i in 0..g.len() {
        for j in g.neighbours(i) {
            assert!(g.neighbours(j).contains(&i), "asymmetric at {} {}", i, j);
        }
    }
}

#[test]
fn delta_parity_and_neighbours() {
    assert!(is_up(0, 0));
    assert!(!is_up(0, 1));
    assert!(!is_up(1, 0));
    assert!(is_up(1, 1));
    let g = DeltaGrid::new(3, 4);
    assert_eq!(g.len(), 12);
    // up cell (0,0): east only in row 0, plus south
    assert_eq!(sorted(&g, 0), vec![1, 4]);
    // down cell (0,1): east, west, north out of range -> none above
    assert_eq!(sorted(&g, 1), vec![0, 2]);
    // down cell (1,0): north to (0,0)
    assert_eq!(sorted(&g, 4), vec![0, 5]);
    assert_eq!(g.north_ix(4), Some(0));
    assert_eq!(g.south_ix(4), None);
    assert_eq!(g.south_ix(5), Some(9));
    for i in 0..g.len() {
        for j in g.neighbours(i) {
            assert!(g.neighbours(j).contains(&i), "asymmetric at {} {}", i, j);
        }
    }
}

#[test]
fn polar_single_ring_has_one_lonely_cell() {
    let g = CircularGrid::new(1);
    assert_eq!(g.len(), 1);
    assert!(g.neighbours(0).is_empty());
    assert!(g.links(0).is_empty());
}

#[test]
fn polar_ring_sizes_and_symmetry() {
    let g = CircularGrid::new(3);
    // centre, a ring of 6, a ring of 12
    assert_eq!(g.len(), 19);
    let ring1: Vec<usize> = (0..g.len()).filter(|&i| g.cell(i).row() == 1).collect();
    let ring2: Vec<usize> = (0..g.len()).filter(|&i| g.cell(i).row() == 2).collect();
    assert_eq!(ring1.len(), 6);
    assert_eq!(ring2.len(), 12);
    // the centre touches the whole first ring
    assert_eq!(sorted(&g, 0), ring1);
    // ring mates point at each other
    for &i in &ring1 {
        let cw = g.cw_ix(i);
        assert_eq!(g.cell(cw).row(), 1);
        assert!(g.neighbours(i).contains(&cw));
    }
    // consecutive layout: clockwise is the successor within the ring, wrapping
    for (t, &i) in ring1.iter().enumerate() {
        assert_eq!(g.cw_ix(i), ring1[(t + 1) % ring1.len()]);
    }
    for (t, &i) in ring2.iter().enumerate() {
        assert_eq!(g.cw_ix(i), ring2[(t + 1) % ring2.len()]);
    }
    // every outer cell has an inward parent one ring down, found by the
    // proportional column mapping: ring 2 cell j maps to ring 1 cell j / 2
    for (t, &i) in ring2.iter().enumerate() {
        let p = g.inward_ix(i).expect("outer cell without parent");
        assert_eq!(g.cell(p).row(), 1);
        assert_eq!(p, ring1[t / 2]);
        assert!(g.neighbours(i).contains(&p));
    }
    for i in 0..g.len() {
        for j in g.neighbours(i) {
            assert!(g.neighbours(j).contains(&i), "asymmetric at {} {}", i, j);
        }
    }
}
