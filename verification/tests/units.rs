//! Unit-level checks: node equality, the exact cost comparison, the
//! heuristic, the best-open scan and the neighbour generator.

use astar_grid::frontier::{contains_cell, find_best_open, find_same_cell};
use astar_grid::grid::{get_neighbours, Graph};
use astar_grid::node::{f_le, heuristic, Node};
use astar_grid::SessionError;

fn cell(x: usize, y: usize, g: u64, hsq: u64) -> Node {
    Node { x, y, g, hsq, accessible: true }
}

#[test]
fn node_equality_ignores_cost_fields() {
    let a = cell(3, 7, 0, 0);
    let b = cell(3, 7, 42, 99);
    assert_eq!(a, b);
    let c = cell(3, 6, 0, 0);
    assert_ne!(a, c);
}

#[test]
fn membership_matches_either_duplicate() {
    // Two snapshots of the same cell with different g: lookups with either
    // cost variant find the entry, and the first coordinate match wins.
    let nodes = vec![cell(1, 1, 5, 10), cell(2, 2, 1, 0), cell(1, 1, 9, 0)];
    assert!(contains_cell(&nodes, cell(1, 1, 123, 456)));
    assert_eq!(find_same_cell(&nodes, cell(1, 1, 777, 0)), Some(0));
    assert_eq!(find_same_cell(&nodes, cell(2, 2, 0, 0)), Some(1));
    assert_eq!(find_same_cell(&nodes, cell(0, 2, 0, 0)), None);
    assert!(!contains_cell(&nodes, cell(4, 4, 0, 0)));
}

#[test]
fn heuristic_is_squared_euclidean_distance() {
    assert_eq!(heuristic(cell(0, 0, 0, 0), cell(4, 4, 0, 0)), 32);
    assert_eq!(heuristic(cell(4, 4, 0, 0), cell(0, 0, 0, 0)), 32);
    assert_eq!(heuristic(cell(2, 3, 0, 0), cell(2, 3, 0, 0)), 0);
    assert_eq!(heuristic(cell(0, 3, 0, 0), cell(4, 0, 0, 0)), 25);
}

#[test]
fn f_le_compares_exactly() {
    // sqrt(2) > 1: the comparison must get irrational priorities right.
    let root_two = cell(0, 0, 0, 2);
    let one = cell(0, 0, 1, 0);
    assert!(!f_le(&root_two, &one));
    assert!(f_le(&one, &root_two));
    // 3 == sqrt(9): equal priorities in both directions.
    let three_flat = cell(0, 0, 3, 0);
    let three_root = cell(0, 0, 0, 9);
    assert!(f_le(&three_flat, &three_root));
    assert!(f_le(&three_root, &three_flat));
    // 1 + sqrt(18) < 1 + sqrt(25).
    let near = cell(0, 0, 1, 18);
    let far = cell(0, 0, 1, 25);
    assert!(f_le(&near, &far));
    assert!(!f_le(&far, &near));
}

#[test]
fn best_open_ties_resolve_to_last_scanned() {
    // Equal priorities: 1 + sqrt(0) and 0 + sqrt(1) are both 1.
    let nodes = vec![cell(0, 0, 1, 0), cell(1, 1, 0, 1)];
    assert_eq!(find_best_open(&nodes), 1);
    let nodes = vec![cell(0, 0, 1, 0), cell(1, 1, 0, 1), cell(2, 2, 1, 0)];
    assert_eq!(find_best_open(&nodes), 2);
    // A strictly better node later is chosen over earlier ties.
    let nodes = vec![cell(0, 0, 2, 0), cell(1, 1, 2, 0), cell(2, 2, 1, 0)];
    assert_eq!(find_best_open(&nodes), 2);
    // ... and an early strict minimum survives later worse entries.
    let nodes = vec![cell(0, 0, 1, 0), cell(1, 1, 5, 0), cell(2, 2, 9, 0)];
    assert_eq!(find_best_open(&nodes), 0);
}

#[test]
fn neighbour_counts_corner_edge_interior() {
    let graph = Graph::new(5, 5);
    assert_eq!(get_neighbours(cell(0, 0, 0, 0), &graph).len(), 3);
    assert_eq!(get_neighbours(cell(4, 4, 0, 0), &graph).len(), 3);
    assert_eq!(get_neighbours(cell(4, 0, 0, 0), &graph).len(), 3);
    assert_eq!(get_neighbours(cell(0, 2, 0, 0), &graph).len(), 5);
    assert_eq!(get_neighbours(cell(2, 0, 0, 0), &graph).len(), 5);
    assert_eq!(get_neighbours(cell(4, 2, 0, 0), &graph).len(), 5);
    assert_eq!(get_neighbours(cell(2, 2, 0, 0), &graph).len(), 8);
}

#[test]
fn neighbour_order_is_fixed() {
    let graph = Graph::new(5, 5);
    // top-right, right, top-left, left, top, bottom, bottom-left, bottom-right
    let ns = get_neighbours(cell(2, 2, 0, 0), &graph);
    let coords: Vec<(usize, usize)> = ns.iter().map(|n| (n.x, n.y)).collect();
    assert_eq!(
        coords,
        vec![(3, 3), (3, 2), (1, 3), (1, 2), (2, 3), (2, 1), (1, 1), (3, 1)]
    );
    // A corner keeps the relative order of its surviving directions.
    let ns = get_neighbours(cell(0, 0, 0, 0), &graph);
    let coords: Vec<(usize, usize)> = ns.iter().map(|n| (n.x, n.y)).collect();
    assert_eq!(coords, vec![(1, 1), (1, 0), (0, 1)]);
}

#[test]
fn grid_get_validates_bounds() {
    let graph = Graph::new(4, 3);
    let n = graph.get(3, 2).unwrap();
    assert_eq!(n.x, 3);
    assert_eq!(n.y, 2);
    assert_eq!(n.g, 0);
    assert_eq!(n.hsq, 0);
    assert!(n.accessible);
    assert_eq!(graph.get(4, 0), Err(SessionError::OutOfBounds));
    assert_eq!(graph.get(0, 3), Err(SessionError::OutOfBounds));
}

#[test]
fn grid_set_accessible_touches_one_cell() {
    let mut graph = Graph::new(4, 4);
    assert_eq!(graph.set_accessible(1, 2, false), Ok(()));
    for x in 0..4 {
        for y in 0..4 {
            let n = graph.get(x, y).unwrap();
            assert_eq!(n.accessible, !(x == 1 && y == 2));
        }
    }
    assert_eq!(graph.set_accessible(7, 0, false), Err(SessionError::OutOfBounds));
}
