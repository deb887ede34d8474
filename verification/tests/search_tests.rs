use beam_walk::boundary::{calc_edge0, calc_edge1, expand_region, Axis};
use beam_walk::expand::calc_bulk;
use beam_walk::grid::Grid;
use beam_walk::run::run;
use beam_walk::schedule::make_ranges;
use beam_walk::state::State;

fn two_by_two() -> Grid {
    Grid::new(2, vec![1, 2, 3, 1], vec![5, 1, 1, 10]).unwrap()
}

fn all_different(values: Vec<u32>) -> Grid {
    Grid::new(3, vec![0, 1, 2, 3, 4, 5, 6, 7, 8], values).unwrap()
}

fn scrambled(side: usize, seed: u64, labels: u64) -> Grid {
    let mut x = seed;
    let mut tiles = Vec::new();
    let mut values = Vec::new();
    for _ in 0..side * side {
        x = (x * 1103515245 + 12345) % (1 << 31);
        tiles.push(((x >> 8) % labels) as u32);
        x = (x * 1103515245 + 12345) % (1 << 31);
        values.push(((x >> 8) % 100) as u32);
    }
    Grid::new(side, tiles, values).unwrap()
}

fn replay(grid: &Grid, start: (usize, usize), log: &str) -> u32 {
    let side = grid.side();
    let mut pos = start;
    let mut seen = vec![grid.tile_type(pos)];
    let mut score = grid.value(pos);
    for code in log.chars() {
        pos = match code {
            'U' => {
                assert!(pos.0 > 0);
                (pos.0 - 1, pos.1)
            }
            'D' => (pos.0 + 1, pos.1),
            'L' => {
                assert!(pos.1 > 0);
                (pos.0, pos.1 - 1)
            }
            'R' => (pos.0, pos.1 + 1),
            other => panic!("not a move: {}", other),
        };
        assert!(pos.0 < side && pos.1 < side);
        let label = grid.tile_type(pos);
        assert!(!seen.contains(&label));
        seen.push(label);
        score += grid.value(pos);
    }
    score
}

fn summary(states: &[State]) -> Vec<(u32, (usize, usize), String)> {
    states.iter().map(|s| (s.score, s.pos, s.log.clone())).collect()
}

fn expected(items: &[(u32, (usize, usize), &str)]) -> Vec<(u32, (usize, usize), String)> {
    items.iter().map(|(score, pos, log)| (*score, *pos, String::from(*log))).collect()
}

#[test]
fn single_cell_grid_scores_its_cell_without_moving() {
    let grid = Grid::new(1, vec![9], vec![42]).unwrap();
    assert_eq!(run((0, 0), &grid, &[0, 1], 100), (42, String::new()));
    assert_eq!(calc_bulk(vec![State::seed(&grid, (0, 0))], &grid, 100), (42, String::new()));
    assert_eq!(beam_walk::run::calc(State::seed(&grid, (0, 0)), &grid, &[(0..1, 0..1)], 100), (42, String::new()));
}

#[test]
fn two_by_two_grid_with_a_repeated_label_scores_six() {
    let grid = two_by_two();
    let (score, log) = run((0, 0), &grid, &[0, 2], 100);
    assert_eq!(score, 6);
    assert!(log == "R" || log == "D");
}

#[test]
fn of_equal_scores_the_first_found_is_reported() {
    let grid = two_by_two();
    assert_eq!(run((0, 0), &grid, &[0, 2], 100), (6, String::from("D")));
    assert_eq!(calc_bulk(vec![State::seed(&grid, (0, 0))], &grid, 100), (6, String::from("D")));
    assert_eq!(run((0, 0), &grid, &[0, 1, 2], 100), (6, String::from("R")));
}

#[test]
fn beam_of_width_zero_reports_the_start() {
    let grid = two_by_two();
    assert_eq!(run((0, 0), &grid, &[0, 2], 0), (5, String::new()));
}

#[test]
fn search_without_states_reports_nothing() {
    let grid = two_by_two();
    assert_eq!(calc_bulk(Vec::new(), &grid, 100), (0, String::new()));
}

#[test]
fn grid_of_zero_values_reports_score_zero_and_no_moves() {
    let grid = Grid::new(2, vec![1, 2, 3, 4], vec![0, 0, 0, 0]).unwrap();
    assert_eq!(run((0, 0), &grid, &[0, 2], 100), (0, String::new()));
}

#[test]
fn narrow_beam_follows_the_best_child() {
    let grid = all_different(vec![1, 5, 1, 1, 1, 1, 1, 1, 1]);
    let start = State::seed(&grid, (0, 0));
    let (score, log) = calc_bulk(vec![start], &grid, 1);
    assert_eq!(replay(&grid, (0, 0), &log), score);
    assert_eq!((score, log.as_str()), (10, "RDDLU"));
}

#[test]
fn best_score_never_falls_below_the_states_searched_from() {
    let grid = scrambled(12, 7, 100);
    let seed = State::seed(&grid, (5, 6));
    let first = calc_bulk(vec![seed.duplicate()], &grid, 0);
    assert_eq!(first, (seed.score, String::new()));
    for width in 1..6 {
        let (score, _) = calc_bulk(vec![seed.duplicate()], &grid, width);
        assert!(score >= seed.score);
    }
}

#[test]
fn unrestricted_search_of_a_scrambled_grid() {
    let grid = scrambled(12, 7, 100);
    let (score, log) = calc_bulk(vec![State::seed(&grid, (5, 6))], &grid, 8);
    assert_eq!(score, 2910);
    assert_eq!(log, "LLURULLLUURULLDLDDDDRDDDRRRURRDDRRRDRUUURDD");
    assert_eq!(replay(&grid, (5, 6), &log), score);
}

#[test]
fn run_over_a_scrambled_grid() {
    let grid = scrambled(12, 7, 100);
    assert_eq!(
        run((5, 6), &grid, &[0, 4, 8, 12], 1),
        (2098, String::from("RDDLULLUULULUULURRRRRRDDRDRRURUU"))
    );
    assert_eq!(
        run((5, 6), &grid, &[0, 4, 8, 12], 4),
        (2592, String::from("RDDLLLUURULLDDLUUUUULURRDRURRRDDRDRRURULLLU"))
    );
    assert_eq!(
        run((5, 6), &grid, &[0, 4, 8, 12], 8),
        (2994, String::from("DRUULLLUURULURRRRDRRRDLLLDRDLDDRDRDLLDLUULLLDLUULUURDRR"))
    );
}

#[test]
fn reported_moves_replay_to_the_reported_score() {
    for seed in 1..6 {
        let grid = scrambled(10, seed, 60);
        for start in [(0, 0), (4, 5), (9, 9), (2, 7)] {
            for cuts in [vec![0, 10], vec![0, 5, 10], vec![0, 3, 7, 10]] {
                let (score, log) = run(start, &grid, &cuts, 5);
                assert_eq!(replay(&grid, start, &log), score);
                assert!(score >= grid.value(start));
            }
        }
    }
}

#[test]
fn wider_beam_can_score_less() {
    let grid = all_different(vec![8, 3, 4, 4, 4, 8, 5, 2, 7]);
    let narrow = calc_bulk(vec![State::seed(&grid, (0, 0))], &grid, 1);
    let wide = calc_bulk(vec![State::seed(&grid, (0, 0))], &grid, 2);
    let wider = calc_bulk(vec![State::seed(&grid, (0, 0))], &grid, 3);
    assert_eq!(narrow, (45, String::from("DDRRUULD")));
    assert_eq!(wide, (38, String::from("DRRDLL")));
    assert_eq!(wider, (41, String::from("RDRDLLU")));
    assert_eq!(run((0, 0), &grid, &[0, 3], 1), (45, String::from("DDRRUULD")));
    assert_eq!(run((0, 0), &grid, &[0, 3], 2), (38, String::from("DRRDLL")));
}

#[test]
fn boundary_keeps_the_higher_score_at_each_place() {
    let grid = all_different(vec![1, 5, 1, 1, 1, 1, 1, 1, 1]);
    let mut best = (0, String::new());
    let reached = expand_region(
        vec![State::seed(&grid, (0, 0))],
        &grid,
        &(0..2, 0..2),
        Axis::Row,
        1,
        100,
        &mut best,
    );
    assert_eq!(summary(&reached), expected(&[(8, (1, 0), "RDL"), (7, (1, 1), "RD")]));
    assert_eq!(best, (8, String::from("RDL")));
}

#[test]
fn boundary_keeps_the_first_of_equal_scores() {
    let grid = all_different(vec![1; 9]);
    let mut best = (0, String::new());
    let rows =
        calc_edge0(vec![State::seed(&grid, (0, 0))], &grid, &(0..2, 0..2), 1, 100, &mut best);
    assert_eq!(summary(&rows), expected(&[(4, (1, 0), "RDL"), (3, (1, 1), "DR")]));
    assert_eq!(best, (4, String::from("DRU")));
    let columns =
        calc_edge1(vec![State::seed(&grid, (0, 0))], &grid, &(0..2, 0..2), 1, 100, &mut best);
    assert_eq!(summary(&columns), expected(&[(4, (0, 1), "DRU"), (3, (1, 1), "DR")]));
    assert_eq!(best, (4, String::from("DRU")));
}

#[test]
fn boundary_holds_one_state_for_each_place() {
    let grid = scrambled(12, 7, 100);
    let region = (4..8, 4..8);
    let mut best = (0, String::new());
    let rows = calc_edge0(vec![State::seed(&grid, (5, 6))], &grid, &region, 7, 8, &mut best);
    assert_eq!(best, (862, String::from("DRUULLLDDDRRR")));
    assert_eq!(
        summary(&rows),
        expected(&[
            (721, (7, 4), "DRUULLLDDD"),
            (729, (7, 5), "DRUULLLDDDR"),
            (817, (7, 6), "DRUULLLDDDRR"),
            (862, (7, 7), "DRUULLLDDDRRR"),
        ])
    );
    let mut kept = (5000, String::from("UU"));
    let columns = calc_edge1(vec![State::seed(&grid, (5, 6))], &grid, &region, 4, 8, &mut kept);
    assert_eq!(kept, (5000, String::from("UU")));
    assert_eq!(
        summary(&columns),
        expected(&[
            (468, (4, 4), "DRUULLL"),
            (562, (5, 4), "DRUULLLD"),
            (631, (6, 4), "DRUULLLDD"),
            (721, (7, 4), "DRUULLLDDD"),
        ])
    );
}

#[test]
fn state_on_the_boundary_at_the_start_is_recorded() {
    let grid = all_different(vec![1; 9]);
    let mut best = (0, String::new());
    let reached =
        calc_edge0(vec![State::seed(&grid, (0, 0))], &grid, &(0..1, 0..1), 0, 100, &mut best);
    assert_eq!(summary(&reached), expected(&[(1, (0, 0), "")]));
    assert_eq!(best, (1, String::new()));
}

#[test]
fn search_through_regions_of_a_scrambled_grid() {
    let grid = scrambled(12, 7, 100);
    let ranges = make_ranges(&[0, 4, 8, 12]);
    let route = vec![ranges[4].clone(), ranges[5].clone(), ranges[8].clone()];
    assert_eq!(
        beam_walk::run::calc(State::seed(&grid, (5, 6)), &grid, &route, 8),
        (2340, String::from("ULLDDDRRRUUURRRDRDDLULLDDDLLDRRRUURDDDLLLL"))
    );
}

#[test]
fn search_without_regions_is_unrestricted() {
    let grid = scrambled(12, 7, 100);
    assert_eq!(
        beam_walk::run::calc(State::seed(&grid, (5, 6)), &grid, &[], 8),
        calc_bulk(vec![State::seed(&grid, (5, 6))], &grid, 8)
    );
}

#[test]
fn unreachable_boundary_falls_back_to_unrestricted_search() {
    let grid = Grid::new(
        4,
        vec![1, 1, 2, 3, 4, 1, 5, 6, 7, 8, 9, 10, 11, 12, 13, 14],
        vec![3, 9, 9, 9, 2, 9, 9, 9, 4, 1, 1, 1, 5, 1, 1, 7],
    )
    .unwrap();
    let ranges = make_ranges(&[0, 2, 4]);
    let mut best = (0, String::new());
    let reached = expand_region(
        vec![State::seed(&grid, (0, 0))],
        &grid,
        &ranges[0],
        Axis::Column,
        1,
        10,
        &mut best,
    );
    assert!(reached.is_empty());
    assert_eq!(best, (5, String::from("D")));
    let route = vec![ranges[0].clone(), ranges[1].clone()];
    let through = beam_walk::run::calc(State::seed(&grid, (0, 0)), &grid, &route, 10);
    let unrestricted = calc_bulk(vec![State::seed(&grid, (0, 0))], &grid, 10);
    assert_eq!(through, (62, String::from("DDDRRRUUULDDL")));
    assert_eq!(through, unrestricted);
    assert_eq!(run((0, 0), &grid, &[0, 2, 4], 10), (62, String::from("DDDRRRUUULDDL")));
}

#[test]
fn state_seen_in_a_region_can_be_the_best() {
    let grid = Grid::new(
        4,
        vec![7, 10, 1, 7, 8, 7, 7, 5, 3, 5, 5, 0, 6, 0, 8, 9],
        vec![9, 1, 1, 8, 9, 4, 5, 9, 8, 5, 4, 6, 6, 2, 3, 5],
    )
    .unwrap();
    let ranges = make_ranges(&[0, 2, 4]);
    let mut best = (0, String::new());
    let reached = calc_edge1(vec![State::seed(&grid, (0, 0))], &grid, &ranges[0], 1, 2, &mut best);
    assert_eq!(summary(&reached), expected(&[(10, (0, 1), "R")]));
    assert_eq!(best, (18, String::from("D")));
    assert_eq!(calc_bulk(reached, &grid, 2), (11, String::from("RR")));
    let route = vec![ranges[0].clone(), ranges[1].clone()];
    assert_eq!(
        beam_walk::run::calc(State::seed(&grid, (0, 0)), &grid, &route, 2),
        (18, String::from("D"))
    );
}
