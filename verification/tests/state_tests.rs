use beam_walk::grid::Grid;
use beam_walk::state::{move_down, move_left, move_right, move_up, try_move, Move, State};
use std::collections::HashSet;

fn three_by_three() -> Grid {
    Grid::new(3, vec![10, 11, 12, 13, 14, 15, 16, 17, 18], vec![1, 2, 3, 4, 5, 6, 7, 8, 9]).unwrap()
}

fn labels(items: &[u32]) -> HashSet<u32> {
    items.iter().copied().collect()
}

#[test]
fn seed_collects_the_start_cell() {
    let grid = three_by_three();
    let state = State::seed(&grid, (1, 1));
    assert_eq!(state.score, 5);
    assert_eq!(state.pos, (1, 1));
    assert_eq!(state.log, "");
    assert_eq!(state.visited, labels(&[14]));
}

#[test]
fn duplicate_is_equal_and_independent() {
    let grid = three_by_three();
    let state = State::seed(&grid, (1, 1));
    let mut copy = state.duplicate();
    assert_eq!(copy.score, state.score);
    assert_eq!(copy.pos, state.pos);
    assert_eq!(copy.log, state.log);
    assert_eq!(copy.visited, state.visited);
    copy.visited.insert(99);
    copy.log.push('U');
    assert_eq!(state.visited, labels(&[14]));
    assert_eq!(state.log, "");
}

#[test]
fn move_up_steps_one_row_up() {
    let grid = three_by_three();
    let state = State::seed(&grid, (1, 1));
    let child = move_up(&state, &grid, &(0..3, 0..3)).unwrap();
    assert_eq!(child.score, 7);
    assert_eq!(child.pos, (0, 1));
    assert_eq!(child.log, "U");
    assert_eq!(child.visited, labels(&[14, 11]));
}

#[test]
fn move_down_steps_one_row_down() {
    let grid = three_by_three();
    let state = State::seed(&grid, (1, 1));
    let child = move_down(&state, &grid, &(0..3, 0..3)).unwrap();
    assert_eq!(child.score, 13);
    assert_eq!(child.pos, (2, 1));
    assert_eq!(child.log, "D");
    assert_eq!(child.visited, labels(&[14, 17]));
}

#[test]
fn move_left_steps_one_column_left() {
    let grid = three_by_three();
    let state = State::seed(&grid, (1, 1));
    let child = move_left(&state, &grid, &(0..3, 0..3)).unwrap();
    assert_eq!(child.score, 9);
    assert_eq!(child.pos, (1, 0));
    assert_eq!(child.log, "L");
    assert_eq!(child.visited, labels(&[14, 13]));
}

#[test]
fn move_right_steps_one_column_right() {
    let grid = three_by_three();
    let state = State::seed(&grid, (1, 1));
    let child = move_right(&state, &grid, &(0..3, 0..3)).unwrap();
    assert_eq!(child.score, 11);
    assert_eq!(child.pos, (1, 2));
    assert_eq!(child.log, "R");
    assert_eq!(child.visited, labels(&[14, 15]));
}

#[test]
fn try_move_agrees_with_the_named_moves() {
    let grid = three_by_three();
    let state = State::seed(&grid, (1, 1));
    let region = (0..3, 0..3);
    let up = try_move(&state, &grid, &region, Move::Up).unwrap();
    let down = try_move(&state, &grid, &region, Move::Down).unwrap();
    let left = try_move(&state, &grid, &region, Move::Left).unwrap();
    let right = try_move(&state, &grid, &region, Move::Right).unwrap();
    assert_eq!((up.pos, up.log.as_str()), ((0, 1), "U"));
    assert_eq!((down.pos, down.log.as_str()), ((2, 1), "D"));
    assert_eq!((left.pos, left.log.as_str()), ((1, 0), "L"));
    assert_eq!((right.pos, right.log.as_str()), ((1, 2), "R"));
}

#[test]
fn moves_leave_the_parent_unchanged() {
    let grid = three_by_three();
    let state = State::seed(&grid, (1, 1));
    let child = move_right(&state, &grid, &(0..3, 0..3)).unwrap();
    assert_eq!(child.visited.len(), 2);
    assert_eq!(state.score, 5);
    assert_eq!(state.pos, (1, 1));
    assert_eq!(state.log, "");
    assert_eq!(state.visited, labels(&[14]));
}

#[test]
fn moves_stop_at_the_grid_edge() {
    let grid = three_by_three();
    let everywhere = (0..3, 0..3);
    let corner = State::seed(&grid, (0, 0));
    assert!(move_up(&corner, &grid, &everywhere).is_none());
    assert!(move_left(&corner, &grid, &everywhere).is_none());
    assert!(move_down(&corner, &grid, &everywhere).is_some());
    assert!(move_right(&corner, &grid, &everywhere).is_some());
    let other = State::seed(&grid, (2, 2));
    assert!(move_down(&other, &grid, &everywhere).is_none());
    assert!(move_right(&other, &grid, &everywhere).is_none());
    assert!(move_up(&other, &grid, &everywhere).is_some());
    assert!(move_left(&other, &grid, &everywhere).is_some());
}

#[test]
fn moves_stop_at_the_grid_edge_whatever_the_region() {
    let grid = three_by_three();
    let wide = (0..10, 0..10);
    let state = State::seed(&grid, (2, 2));
    assert!(move_down(&state, &grid, &wide).is_none());
    assert!(move_right(&state, &grid, &wide).is_none());
}

#[test]
fn moves_stay_in_the_region() {
    let grid = three_by_three();
    let region = (1..2, 1..3);
    let state = State::seed(&grid, (1, 1));
    assert!(move_up(&state, &grid, &region).is_none());
    assert!(move_down(&state, &grid, &region).is_none());
    assert!(move_left(&state, &grid, &region).is_none());
    let child = move_right(&state, &grid, &region).unwrap();
    assert_eq!(child.pos, (1, 2));
}

#[test]
fn moves_need_the_neighbour_in_the_region_on_both_axes() {
    let grid = three_by_three();
    let region = (0..3, 1..3);
    let state = State::seed(&grid, (1, 0));
    assert!(move_up(&state, &grid, &region).is_none());
    assert!(move_down(&state, &grid, &region).is_none());
    let child = move_right(&state, &grid, &region).unwrap();
    assert_eq!(child.pos, (1, 1));
}

#[test]
fn moves_never_collect_a_label_twice() {
    let grid = Grid::new(2, vec![1, 2, 3, 1], vec![5, 1, 1, 10]).unwrap();
    let everywhere = (0..2, 0..2);
    let start = State::seed(&grid, (0, 0));
    let right = move_right(&start, &grid, &everywhere).unwrap();
    assert_eq!(right.score, 6);
    assert!(move_down(&right, &grid, &everywhere).is_none());
    assert!(move_left(&right, &grid, &everywhere).is_none());
    let down = move_down(&start, &grid, &everywhere).unwrap();
    assert_eq!(down.score, 6);
    assert!(move_right(&down, &grid, &everywhere).is_none());
    assert!(move_up(&down, &grid, &everywhere).is_none());
}

#[test]
fn scores_add_up_along_a_walk() {
    let grid = three_by_three();
    let everywhere = (0..3, 0..3);
    let a = State::seed(&grid, (0, 0));
    let b = move_right(&a, &grid, &everywhere).unwrap();
    let c = move_down(&b, &grid, &everywhere).unwrap();
    let d = move_left(&c, &grid, &everywhere).unwrap();
    let e = move_down(&d, &grid, &everywhere).unwrap();
    assert_eq!(e.score, 1 + 2 + 5 + 4 + 7);
    assert_eq!(e.pos, (2, 0));
    assert_eq!(e.log, "RDLD");
    assert_eq!(e.visited, labels(&[10, 11, 14, 13, 16]));
}
