use llamaquest_core::errors::CoreError;
use llamaquest_core::fov::calculate_field_of_view;
use llamaquest_core::grid::Grid;

fn empty_map(width: usize, height: usize) -> Grid {
    Grid::from_rows(vec![vec![false; width]; height]).unwrap()
}

#[test]
fn origin_is_always_visible() {
    let m = empty_map(5, 5);
    let vis = calculate_field_of_view(2, 2, 3, &m).unwrap();
    assert!(vis.get(2, 2));
    // Even with radius zero, and even on an occupied origin cell.
    let vis0 = calculate_field_of_view(2, 2, 0, &m).unwrap();
    assert!(vis0.get(2, 2));
    let mut rows = vec![vec![false; 5]; 5];
    rows[2][2] = true;
    let occupied = Grid::from_rows(rows).unwrap();
    let vis_occ = calculate_field_of_view(2, 2, 3, &occupied).unwrap();
    assert!(vis_occ.get(2, 2));
}

#[test]
fn no_cell_beyond_radius_is_marked() {
    let m = empty_map(7, 7);
    let vis = calculate_field_of_view(3, 3, 2, &m).unwrap();
    for y in 0..7i64 {
        for x in 0..7i64 {
            let d2 = (x - 3) * (x - 3) + (y - 3) * (y - 3);
            if d2 > 4 {
                assert!(!vis.get(x as usize, y as usize), "({x},{y}) beyond radius");
            }
        }
    }
}

#[test]
fn open_field_within_radius_is_visible() {
    let m = empty_map(7, 7);
    let vis = calculate_field_of_view(3, 3, 2, &m).unwrap();
    for y in 0..7i64 {
        for x in 0..7i64 {
            let d2 = (x - 3) * (x - 3) + (y - 3) * (y - 3);
            if d2 <= 4 {
                assert!(vis.get(x as usize, y as usize), "({x},{y}) within radius");
            }
        }
    }
}

#[test]
fn larger_radius_never_unmarks_a_cell() {
    let mut rows = vec![vec![false; 9]; 9];
    rows[4][6] = true;
    rows[2][3] = true;
    rows[5][4] = true;
    let m = Grid::from_rows(rows).unwrap();
    let small = calculate_field_of_view(4, 4, 2, &m).unwrap();
    let large = calculate_field_of_view(4, 4, 4, &m).unwrap();
    for y in 0..9 {
        for x in 0..9 {
            if small.get(x, y) {
                assert!(large.get(x, y), "({x},{y}) unmarked by larger radius");
            }
        }
    }
}

#[test]
fn obstacle_is_visible_but_shadows_cells_behind_it() {
    let mut rows = vec![vec![false; 8]; 5];
    rows[2][3] = true;
    let m = Grid::from_rows(rows).unwrap();
    let vis = calculate_field_of_view(1, 2, 5, &m).unwrap();
    // The obstacle itself can be seen.
    assert!(vis.get(3, 2));
    // The cell right before it is visible; the cells straight behind it are
    // not.
    assert!(vis.get(2, 2));
    assert!(!vis.get(4, 2));
    assert!(!vis.get(5, 2));
}

#[test]
fn clear_cardinal_sight_line_is_visible_to_the_radius() {
    let m = empty_map(10, 3);
    let vis = calculate_field_of_view(0, 1, 6, &m).unwrap();
    for k in 1..=6 {
        assert!(vis.get(k, 1), "axis cell {k} within radius");
    }
    assert!(!vis.get(7, 1), "axis cell beyond radius");
}

#[test]
fn out_of_bounds_origin_is_invalid_coordinate() {
    let m = empty_map(4, 4);
    assert_eq!(
        calculate_field_of_view(4, 1, 2, &m).err(),
        Some(CoreError::InvalidCoordinate)
    );
    assert_eq!(
        calculate_field_of_view(0, 9, 2, &m).err(),
        Some(CoreError::InvalidCoordinate)
    );
}

#[test]
fn visibility_grid_has_the_map_dimensions() {
    let m = empty_map(6, 3);
    let vis = calculate_field_of_view(1, 1, 10, &m).unwrap();
    assert_eq!(vis.width(), 6);
    assert_eq!(vis.height(), 3);
}
