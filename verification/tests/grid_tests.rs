use beam_walk::grid::{to_pos, Grid, GridError};

#[test]
fn grid_new_accepts_matching_tables() {
    let grid = Grid::new(2, vec![1, 2, 3, 1], vec![5, 1, 1, 10]).unwrap();
    assert_eq!(grid.side(), 2);
    assert_eq!(grid.tile_type((0, 0)), 1);
    assert_eq!(grid.tile_type((0, 1)), 2);
    assert_eq!(grid.tile_type((1, 0)), 3);
    assert_eq!(grid.tile_type((1, 1)), 1);
    assert_eq!(grid.value((0, 0)), 5);
    assert_eq!(grid.value((0, 1)), 1);
    assert_eq!(grid.value((1, 0)), 1);
    assert_eq!(grid.value((1, 1)), 10);
}

#[test]
fn grid_new_accepts_the_empty_grid() {
    let grid = Grid::new(0, vec![], vec![]).unwrap();
    assert_eq!(grid.side(), 0);
}

#[test]
fn grid_new_rejects_short_tile_table() {
    let result = Grid::new(2, vec![1, 2, 3], vec![5, 1, 1, 10]);
    assert_eq!(result.err(), Some(GridError::LengthMismatch));
}

#[test]
fn grid_new_rejects_long_value_table() {
    let result = Grid::new(2, vec![1, 2, 3, 4], vec![5, 1, 1, 10, 0]);
    assert_eq!(result.err(), Some(GridError::LengthMismatch));
}

#[test]
fn grid_new_rejects_side_whose_square_does_not_fit() {
    let result = Grid::new(usize::MAX, vec![], vec![]);
    assert_eq!(result.err(), Some(GridError::LengthMismatch));
}

#[test]
fn grid_new_rejects_values_that_overflow_together() {
    let result = Grid::new(2, vec![1, 2, 3, 4], vec![u32::MAX, 0, 1, 0]);
    assert_eq!(result.err(), Some(GridError::ValueOverflow));
}

#[test]
fn grid_new_accepts_values_that_just_fit() {
    let result = Grid::new(2, vec![1, 2, 3, 4], vec![u32::MAX - 1, 0, 1, 0]);
    assert!(result.is_ok());
}

#[test]
fn grid_new_reports_length_before_overflow() {
    let result = Grid::new(2, vec![1, 2, 3], vec![u32::MAX, u32::MAX, 1, 0]);
    assert_eq!(result.err(), Some(GridError::LengthMismatch));
}

#[test]
fn to_pos_is_row_major() {
    assert_eq!(to_pos(50, (0, 0)), 0);
    assert_eq!(to_pos(50, (0, 49)), 49);
    assert_eq!(to_pos(50, (3, 7)), 157);
    assert_eq!(to_pos(50, (49, 49)), 2499);
    assert_eq!(to_pos(3, (2, 1)), 7);
}
