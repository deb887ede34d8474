use beam_walk::boundary::Axis;
use beam_walk::run::schedule_for;
use beam_walk::schedule::{boundary_between, find_region, make_paths, make_ranges};

#[test]
fn make_ranges_lists_regions_row_by_row() {
    let ranges = make_ranges(&[0, 17, 34, 50]);
    assert_eq!(
        ranges,
        vec![
            (0..17, 0..17),
            (0..17, 17..34),
            (0..17, 34..50),
            (17..34, 0..17),
            (17..34, 17..34),
            (17..34, 34..50),
            (34..50, 0..17),
            (34..50, 17..34),
            (34..50, 34..50),
        ]
    );
}

#[test]
fn make_ranges_of_two_cut_points_is_one_region() {
    assert_eq!(make_ranges(&[0, 50]), vec![(0..50, 0..50)]);
}

#[test]
fn make_ranges_of_fewer_than_two_cut_points_is_empty() {
    assert!(make_ranges(&[]).is_empty());
    assert!(make_ranges(&[7]).is_empty());
}

#[test]
fn find_region_locates_the_cell() {
    let ranges = make_ranges(&[0, 17, 34, 50]);
    assert_eq!(find_region(&ranges, (0, 0)), Some(0));
    assert_eq!(find_region(&ranges, (16, 17)), Some(1));
    assert_eq!(find_region(&ranges, (17, 16)), Some(3));
    assert_eq!(find_region(&ranges, (20, 20)), Some(4));
    assert_eq!(find_region(&ranges, (33, 34)), Some(5));
    assert_eq!(find_region(&ranges, (49, 49)), Some(8));
}

#[test]
fn find_region_finds_nothing_outside_all_regions() {
    let ranges = make_ranges(&[0, 17, 34, 50]);
    assert_eq!(find_region(&ranges, (50, 0)), None);
    assert_eq!(find_region(&ranges, (0, 50)), None);
    assert_eq!(find_region(&Vec::new(), (0, 0)), None);
}

#[test]
fn find_region_takes_the_first_of_overlapping_regions() {
    let ranges = vec![(0..2, 0..2), (0..5, 0..5), (1..3, 1..3)];
    assert_eq!(find_region(&ranges, (1, 1)), Some(0));
    assert_eq!(find_region(&ranges, (2, 2)), Some(1));
}

#[test]
fn boundary_to_the_right_is_the_last_column() {
    assert_eq!(boundary_between(&(0..17, 0..17), &(0..17, 17..34)), (Axis::Column, 16));
}

#[test]
fn boundary_to_the_left_is_the_first_column() {
    assert_eq!(boundary_between(&(0..17, 17..34), &(0..17, 0..17)), (Axis::Column, 17));
}

#[test]
fn boundary_downwards_is_the_last_row() {
    assert_eq!(boundary_between(&(17..34, 0..17), &(34..50, 0..17)), (Axis::Row, 33));
}

#[test]
fn boundary_upwards_is_the_first_row() {
    assert_eq!(boundary_between(&(17..34, 0..17), &(0..17, 0..17)), (Axis::Row, 17));
}

#[test]
fn make_paths_of_a_single_cell() {
    assert_eq!(make_paths(1, 0), vec![vec![0]]);
}

#[test]
fn make_paths_of_a_two_by_two_square() {
    assert_eq!(make_paths(2, 0), vec![vec![0, 1, 3, 2], vec![0, 2, 3, 1]]);
    assert_eq!(make_paths(2, 3), vec![vec![3, 2, 0, 1], vec![3, 1, 0, 2]]);
}

#[test]
fn make_paths_from_a_corner_visits_every_cell() {
    assert_eq!(
        make_paths(3, 0),
        vec![
            vec![0, 1, 2, 5, 4, 3, 6, 7, 8],
            vec![0, 1, 2, 5, 8, 7, 6, 3, 4],
            vec![0, 1, 2, 5, 8, 7, 4, 3, 6],
            vec![0, 1, 4, 3, 6, 7, 8, 5, 2],
            vec![0, 3, 4, 1, 2, 5, 8, 7, 6],
            vec![0, 3, 6, 7, 8, 5, 4, 1, 2],
            vec![0, 3, 6, 7, 8, 5, 2, 1, 4],
            vec![0, 3, 6, 7, 4, 1, 2, 5, 8],
        ]
    );
}

#[test]
fn make_paths_from_an_edge_cell_misses_one_cell() {
    assert_eq!(
        make_paths(3, 1),
        vec![
            vec![1, 2, 5, 4, 3, 6, 7, 8],
            vec![1, 2, 5, 4, 7, 6, 3, 0],
            vec![1, 2, 5, 8, 7, 6, 3, 4],
            vec![1, 2, 5, 8, 7, 6, 3, 0],
            vec![1, 2, 5, 8, 7, 4, 3, 6],
            vec![1, 2, 5, 8, 7, 4, 3, 0],
            vec![1, 0, 3, 4, 5, 8, 7, 6],
            vec![1, 0, 3, 4, 7, 8, 5, 2],
            vec![1, 0, 3, 6, 7, 8, 5, 4],
            vec![1, 0, 3, 6, 7, 8, 5, 2],
            vec![1, 0, 3, 6, 7, 4, 5, 8],
            vec![1, 0, 3, 6, 7, 4, 5, 2],
            vec![1, 4, 5, 8, 7, 6, 3, 0],
            vec![1, 4, 3, 6, 7, 8, 5, 2],
        ]
    );
}

#[test]
fn make_paths_from_the_centre() {
    let paths = make_paths(3, 4);
    assert_eq!(paths.len(), 8);
    assert_eq!(paths[0], vec![4, 5, 8, 7, 6, 3, 0, 1, 2]);
    assert_eq!(paths[7], vec![4, 1, 0, 3, 6, 7, 8, 5, 2]);
}

#[test]
fn make_paths_steps_between_neighbours_and_repeats_no_cell() {
    for start in 0..16 {
        let paths = make_paths(4, start);
        assert!(!paths.is_empty());
        let cells = paths[0].len();
        for path in &paths {
            assert_eq!(path.len(), cells);
            assert_eq!(path[0], start);
            for i in 0..path.len() {
                assert!(path[i] < 16);
                for j in 0..i {
                    assert_ne!(path[i], path[j]);
                }
            }
            for pair in path.windows(2) {
                let (a, b) = (pair[0], pair[1]);
                let same_row = a / 4 == b / 4 && (a + 1 == b || b + 1 == a);
                let same_column = a % 4 == b % 4 && (a + 4 == b || b + 4 == a);
                assert!(same_row || same_column);
            }
        }
    }
}

#[test]
fn schedule_for_a_single_region() {
    assert_eq!(schedule_for((3, 4), &[0, 50]), vec![vec![(0..50, 0..50)]]);
}

#[test]
fn schedule_for_four_regions() {
    let orders = schedule_for((3, 1), &[0, 2, 4]);
    assert_eq!(
        orders,
        vec![
            vec![(2..4, 0..2), (2..4, 2..4), (0..2, 2..4), (0..2, 0..2)],
            vec![(2..4, 0..2), (0..2, 0..2), (0..2, 2..4), (2..4, 2..4)],
        ]
    );
}

#[test]
fn schedule_for_nine_regions_from_a_corner() {
    let orders = schedule_for((40, 45), &[0, 17, 34, 50]);
    assert_eq!(orders.len(), 8);
    for order in &orders {
        assert_eq!(order.len(), 9);
        assert_eq!(order[0], (34..50, 34..50));
    }
}
