use beam_walk::frontier::{move_4, Frontier};
use beam_walk::grid::Grid;
use beam_walk::state::State;
use std::collections::HashSet;

fn named(score: u32, name: &str) -> State {
    State { score, pos: (0, 0), log: String::from(name), visited: HashSet::new() }
}

fn contents(frontier: Frontier) -> Vec<(u32, String)> {
    frontier.into_vec().into_iter().map(|s| (s.score, s.log)).collect()
}

fn expected(items: &[(u32, &str)]) -> Vec<(u32, String)> {
    items.iter().map(|(score, name)| (*score, String::from(*name))).collect()
}

#[test]
fn new_frontier_is_empty() {
    let frontier = Frontier::new(3);
    assert!(frontier.is_empty());
    assert_eq!(frontier.len(), 0);
}

#[test]
fn insert_into_empty_frontier_succeeds() {
    let mut frontier = Frontier::new(3);
    frontier.insert(named(7, "a"));
    assert!(!frontier.is_empty());
    assert_eq!(frontier.len(), 1);
    assert_eq!(contents(frontier), expected(&[(7, "a")]));
}

#[test]
fn insert_keeps_descending_order() {
    let mut frontier = Frontier::new(10);
    frontier.insert(named(5, "a"));
    frontier.insert(named(9, "b"));
    frontier.insert(named(1, "c"));
    frontier.insert(named(7, "d"));
    assert_eq!(contents(frontier), expected(&[(9, "b"), (7, "d"), (5, "a"), (1, "c")]));
}

#[test]
fn insert_evicts_the_lowest_when_over_capacity() {
    let mut frontier = Frontier::new(3);
    frontier.insert(named(5, "a"));
    frontier.insert(named(9, "b"));
    frontier.insert(named(1, "c"));
    frontier.insert(named(7, "d"));
    assert_eq!(frontier.len(), 3);
    assert_eq!(contents(frontier), expected(&[(9, "b"), (7, "d"), (5, "a")]));
}

#[test]
fn insert_below_the_minimum_at_capacity_changes_nothing() {
    let mut frontier = Frontier::new(2);
    frontier.insert(named(5, "a"));
    frontier.insert(named(9, "b"));
    frontier.insert(named(3, "c"));
    assert_eq!(contents(frontier), expected(&[(9, "b"), (5, "a")]));
}

#[test]
fn insert_equal_to_the_minimum_at_capacity_changes_nothing() {
    let mut frontier = Frontier::new(2);
    frontier.insert(named(5, "a"));
    frontier.insert(named(9, "b"));
    frontier.insert(named(5, "c"));
    assert_eq!(contents(frontier), expected(&[(9, "b"), (5, "a")]));
}

#[test]
fn equal_scores_stand_in_order_of_arrival() {
    let mut frontier = Frontier::new(5);
    frontier.insert(named(4, "first"));
    frontier.insert(named(4, "second"));
    frontier.insert(named(6, "top"));
    frontier.insert(named(4, "third"));
    assert_eq!(
        contents(frontier),
        expected(&[(6, "top"), (4, "first"), (4, "second"), (4, "third")])
    );
}

#[test]
fn among_equal_scores_the_last_to_arrive_is_evicted() {
    let mut frontier = Frontier::new(2);
    frontier.insert(named(4, "first"));
    frontier.insert(named(4, "second"));
    frontier.insert(named(6, "top"));
    assert_eq!(contents(frontier), expected(&[(6, "top"), (4, "first")]));
}

#[test]
fn frontier_of_width_zero_holds_nothing() {
    let mut frontier = Frontier::new(0);
    frontier.insert(named(4, "a"));
    assert!(frontier.is_empty());
    assert_eq!(frontier.len(), 0);
}

#[test]
fn frontier_of_width_one_holds_the_best() {
    let mut frontier = Frontier::new(1);
    frontier.insert(named(4, "a"));
    frontier.insert(named(2, "b"));
    frontier.insert(named(8, "c"));
    frontier.insert(named(8, "d"));
    assert_eq!(contents(frontier), expected(&[(8, "c")]));
}

#[test]
fn move_4_enters_children_in_the_order_up_down_left_right() {
    let grid = Grid::new(3, vec![0, 1, 2, 3, 4, 5, 6, 7, 8], vec![1; 9]).unwrap();
    let state = State::seed(&grid, (1, 1));
    let mut queue = Frontier::new(10);
    move_4(&mut queue, &state, &grid, &(0..3, 0..3));
    assert_eq!(contents(queue), expected(&[(2, "U"), (2, "D"), (2, "L"), (2, "R")]));
}

#[test]
fn move_4_orders_children_by_score() {
    let grid = Grid::new(3, vec![0, 1, 2, 3, 4, 5, 6, 7, 8], vec![0, 3, 0, 9, 1, 4, 0, 3, 0])
        .unwrap();
    let state = State::seed(&grid, (1, 1));
    let mut queue = Frontier::new(10);
    move_4(&mut queue, &state, &grid, &(0..3, 0..3));
    assert_eq!(contents(queue), expected(&[(10, "L"), (5, "R"), (4, "U"), (4, "D")]));
}

#[test]
fn move_4_evicts_as_it_goes() {
    let grid = Grid::new(3, vec![0, 1, 2, 3, 4, 5, 6, 7, 8], vec![0, 3, 0, 9, 1, 4, 0, 3, 0])
        .unwrap();
    let state = State::seed(&grid, (1, 1));
    let mut queue = Frontier::new(2);
    move_4(&mut queue, &state, &grid, &(0..3, 0..3));
    assert_eq!(contents(queue), expected(&[(10, "L"), (5, "R")]));
}

#[test]
fn move_4_skips_closed_moves() {
    let grid = Grid::new(2, vec![1, 2, 3, 1], vec![5, 1, 1, 10]).unwrap();
    let state = State::seed(&grid, (0, 0));
    let mut queue = Frontier::new(10);
    move_4(&mut queue, &state, &grid, &(0..2, 0..2));
    assert_eq!(contents(queue), expected(&[(6, "D"), (6, "R")]));
    let mut narrow = Frontier::new(10);
    move_4(&mut narrow, &state, &grid, &(0..1, 0..2));
    assert_eq!(contents(narrow), expected(&[(6, "R")]));
}
