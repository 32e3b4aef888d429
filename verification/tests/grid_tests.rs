use pathsearch::astar::a_star;
use pathsearch::heuristic::heuristic;

fn demo_grid() -> Vec<Vec<usize>> {
    vec![
        vec![0, 0, 0, 0, 0],
        vec![0, 1, 1, 1, 0],
        vec![0, 1, 0, 1, 0],
        vec![0, 1, 0, 1, 0],
        vec![0, 0, 0, 0, 0],
    ]
}

#[test]
fn grid_scenario_five_by_five() {
    // Obstacles at (1,1),(1,2),(1,3),(2,1),(2,3),(3,1),(3,3): the shortest
    // route from (0,0) to (4,4) takes 8 unit hops, so 9 cells.
    let grid = demo_grid();
    let path = a_star(&grid, (0, 0), (4, 4)).expect("a path exists");
    assert_eq!(path.len(), 9);
    assert_eq!(path[0], (0, 0));
    assert_eq!(path[path.len() - 1], (4, 4));
}

#[test]
fn grid_path_is_contiguous_and_free() {
    let grid = demo_grid();
    let path = a_star(&grid, (0, 0), (4, 4)).expect("a path exists");
    for w in path.windows(2) {
        let d = heuristic(w[0], w[1]);
        assert_eq!(d, 1);
    }
    for &(r, c) in &path {
        assert!(r < 5 && c < 5);
        assert_ne!(grid[r][c], 1);
    }
}

#[test]
fn grid_start_equals_goal() {
    let grid = demo_grid();
    let path = a_star(&grid, (2, 2), (2, 2)).expect("trivial path exists");
    assert_eq!(path, vec![(2, 2)]);
}

#[test]
fn grid_unreachable_goal_is_none() {
    // The centre cell is walled in on all four sides.
    let grid = vec![
        vec![0, 1, 0],
        vec![1, 0, 1],
        vec![0, 1, 0],
    ];
    assert_eq!(a_star(&grid, (0, 0), (1, 1)), None);
}

#[test]
fn grid_invalid_endpoints_are_none() {
    let grid = demo_grid();
    // Out of bounds.
    assert_eq!(a_star(&grid, (9, 9), (4, 4)), None);
    assert_eq!(a_star(&grid, (0, 0), (0, 7)), None);
    // Blocked cells are not nodes.
    assert_eq!(a_star(&grid, (1, 1), (4, 4)), None);
    assert_eq!(a_star(&grid, (0, 0), (2, 3)), None);
}

#[test]
fn grid_deterministic_repeat_calls_agree() {
    let grid = demo_grid();
    let first = a_star(&grid, (0, 0), (4, 4));
    let second = a_star(&grid, (0, 0), (4, 4));
    assert_eq!(first, second);
    let third = a_star(&grid, (4, 0), (0, 4));
    let fourth = a_star(&grid, (4, 0), (0, 4));
    assert_eq!(third, fourth);
}

#[test]
fn manhattan_heuristic_values() {
    assert_eq!(heuristic((0, 0), (4, 4)), 8);
    assert_eq!(heuristic((2, 7), (5, 1)), 9);
    assert_eq!(heuristic((3, 3), (3, 3)), 0);
    assert_eq!(heuristic((5, 1), (2, 7)), 9);
}
