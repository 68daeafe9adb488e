use llamaquest_core::errors::CoreError;
use llamaquest_core::grid::Grid;
use llamaquest_core::pathfinding::calculate_pathfinding;

fn open_grid(width: usize, height: usize) -> Grid {
    let rows = vec![vec![true; width]; height];
    Grid::from_rows(rows).unwrap()
}

#[test]
fn single_cell_path_when_start_equals_end() {
    let g = open_grid(4, 4);
    let r = calculate_pathfinding(2, 3, 2, 3, &g, None).unwrap();
    assert_eq!(r, vec![(2, 3)]);
}

#[test]
fn free_grid_diagonal_path_is_exact() {
    let g = open_grid(5, 5);
    let r = calculate_pathfinding(0, 0, 4, 4, &g, None).unwrap();
    assert_eq!(r, vec![(0, 0), (1, 1), (2, 2), (3, 3), (4, 4)]);
}

#[test]
fn free_grid_path_has_chebyshev_plus_one_cells() {
    let g = open_grid(6, 6);
    let r = calculate_pathfinding(0, 0, 3, 1, &g, None).unwrap();
    // Chebyshev distance is 3, so the path holds 4 coordinates.
    assert_eq!(r.len(), 4);
    assert_eq!(r[0], (0, 0));
    assert_eq!(r[3], (3, 1));
    for w in r.windows(2) {
        let dx = (w[0].0 as i64 - w[1].0 as i64).abs();
        let dy = (w[0].1 as i64 - w[1].1 as i64).abs();
        assert!(dx <= 1 && dy <= 1 && dx + dy > 0);
    }
}

#[test]
fn corner_cut_rejected_when_both_orthogonals_blocked() {
    // (1,0) and (0,1) are unwalkable: the diagonal from (0,0) to (1,1) is
    // rejected and no detour exists, so the start is sealed in.
    let rows = vec![
        vec![true, false, true],
        vec![false, true, true],
        vec![true, true, true],
    ];
    let g = Grid::from_rows(rows).unwrap();
    let r = calculate_pathfinding(0, 0, 1, 1, &g, None);
    assert_eq!(r, Err(CoreError::NoPathFound));
}

#[test]
fn corner_cut_rejected_routes_around_single_blocker() {
    // Only (1,0) is unwalkable: the diagonal from (0,0) to (1,1) is still
    // rejected, and the path detours through (0,1).
    let rows = vec![
        vec![true, false, true],
        vec![true, true, true],
        vec![true, true, true],
    ];
    let g = Grid::from_rows(rows).unwrap();
    let r = calculate_pathfinding(0, 0, 1, 1, &g, None).unwrap();
    assert_eq!(r, vec![(0, 0), (0, 1), (1, 1)]);
}

#[test]
fn walls_without_gap_give_no_path() {
    let rows = vec![
        vec![true, false, true],
        vec![true, false, true],
        vec![true, false, true],
    ];
    let g = Grid::from_rows(rows).unwrap();
    let r = calculate_pathfinding(0, 0, 2, 0, &g, None);
    assert_eq!(r, Err(CoreError::NoPathFound));
}

#[test]
fn path_routes_through_gap_and_avoids_walls() {
    let rows = vec![
        vec![true, false, true],
        vec![true, false, true],
        vec![true, true, true],
    ];
    let g = Grid::from_rows(rows).unwrap();
    let r = calculate_pathfinding(0, 0, 2, 0, &g, None).unwrap();
    assert_eq!(r.first(), Some(&(0, 0)));
    assert_eq!(r.last(), Some(&(2, 0)));
    // No returned cell is unwalkable or out of bounds.
    for &(x, y) in &r {
        assert!(x < 3 && y < 3);
        assert!(x != 1 || y == 2);
    }
}

#[test]
fn out_of_bounds_endpoint_is_invalid_coordinate() {
    let g = open_grid(3, 3);
    assert_eq!(
        calculate_pathfinding(9, 9, 1, 1, &g, None),
        Err(CoreError::InvalidCoordinate)
    );
    assert_eq!(
        calculate_pathfinding(1, 1, 0, 7, &g, None),
        Err(CoreError::InvalidCoordinate)
    );
}

#[test]
fn blocked_endpoint_is_unwalkable_endpoint() {
    let rows = vec![vec![true, true], vec![true, false]];
    let g = Grid::from_rows(rows).unwrap();
    assert_eq!(
        calculate_pathfinding(0, 0, 1, 1, &g, None),
        Err(CoreError::UnwalkableEndpoint)
    );
    assert_eq!(
        calculate_pathfinding(1, 1, 0, 0, &g, None),
        Err(CoreError::UnwalkableEndpoint)
    );
}

#[test]
fn budget_exhaustion_reports_budget_error() {
    let g = open_grid(5, 5);
    let r = calculate_pathfinding(0, 0, 4, 4, &g, Some(1));
    assert_eq!(r, Err(CoreError::SearchBudgetExceeded));
}

#[test]
fn generous_budget_still_finds_the_path() {
    let g = open_grid(5, 5);
    let r = calculate_pathfinding(0, 0, 4, 4, &g, Some(1000)).unwrap();
    assert_eq!(r.len(), 5);
}

#[test]
fn malformed_grids_are_rejected_at_construction() {
    assert_eq!(
        Grid::from_rows(Vec::new()).err(),
        Some(CoreError::MalformedGrid)
    );
    assert_eq!(
        Grid::from_rows(vec![Vec::new()]).err(),
        Some(CoreError::MalformedGrid)
    );
    assert_eq!(
        Grid::from_rows(vec![vec![true, true], vec![true]]).err(),
        Some(CoreError::MalformedGrid)
    );
}

#[test]
fn grid_accessors_report_dimensions_and_cells() {
    let rows = vec![vec![true, false, true], vec![false, true, false]];
    let g = Grid::from_rows(rows).unwrap();
    assert_eq!(g.width(), 3);
    assert_eq!(g.height(), 2);
    assert!(g.get(0, 0));
    assert!(!g.get(1, 0));
    assert!(!g.get(0, 1));
    assert!(g.get(1, 1));
}

#[test]
fn error_descriptions_are_stable() {
    assert_eq!(CoreError::NoPathFound.describe(), "no path found");
    assert_eq!(CoreError::InvalidCoordinate.describe(), "invalid coordinate");
}
