use puzzle_solvers::day10::{
    solve, sum_over_grid, trailheads_rating, trailheads_score, Grid, Measure, Position,
};
use puzzle_solvers::error::PuzzleError;

const EXAMPLE: &str = "89010123
78121874
87430965
96549874
45678903
32019012
01329801
10456732";

#[test]
fn day10_test_example() {
    let grid = Grid::new(&EXAMPLE).unwrap();
    assert_eq!(sum_over_grid(&grid, Measure::Score), 36);
    assert_eq!(sum_over_grid(&grid, Measure::Rating), 81);
}

#[test]
fn day10_solve_gives_both_sums() {
    assert_eq!(solve(EXAMPLE), Ok((36, 81)));
}

#[test]
fn day10_single_trailheads() {
    let grid = Grid::new(EXAMPLE).unwrap();
    assert_eq!(trailheads_score(&Position { row: 0, col: 2 }, &grid), 5);
    assert_eq!(trailheads_score(&Position { row: 0, col: 4 }, &grid), 6);
    assert_eq!(trailheads_rating(&Position { row: 0, col: 2 }, &grid), 20);
    assert_eq!(trailheads_rating(&Position { row: 0, col: 4 }, &grid), 24);
    assert_eq!(trailheads_score(&Position { row: 0, col: 3 }, &grid), 0);
    assert_eq!(trailheads_score(&Position { row: 100, col: 100 }, &grid), 0);
    // A trail may start anywhere: only the cells after the first are held to their level.
    let other = Grid::new("5123456789").unwrap();
    assert_eq!(trailheads_score(&Position { row: 0, col: 0 }, &other), 1);
    assert_eq!(trailheads_rating(&Position { row: 1, col: 1 }, &other), 1);
    assert_eq!(sum_over_grid(&other, Measure::Score), 0);
}

#[test]
fn day10_straight_trail() {
    let grid = Grid::new("0123456789").unwrap();
    assert_eq!(grid.width, 10);
    assert_eq!(grid.height, 1);
    assert_eq!(grid.data, vec![0, 1, 2, 3, 4, 5, 6, 7, 8, 9]);
    assert_eq!(solve("0123456789"), Ok((1, 1)));
    assert_eq!(solve("012345678"), Ok((0, 0)));
    assert_eq!(solve("9876543210123456789"), Ok((2, 2)));
}

#[test]
fn day10_forking_trails() {
    // Every trail steps right or down until it turns into the lower rows:
    // one summit, sixteen trails.
    let text = "0123\n1234\n8765\n9876";
    assert_eq!(solve(text), Ok((1, 16)));
}

#[test]
fn day10_lookup() {
    let grid = Grid::new("01\n23").unwrap();
    assert_eq!(grid.get(&Position { row: 1, col: 0 }), Some(2));
    assert_eq!(grid.get(&Position { row: 2, col: 0 }), None);
    assert_eq!(grid.get(&Position { row: 0, col: 2 }), None);
}

#[test]
fn day10_neighbours() {
    let at = |row, col| Position { row, col };
    assert_eq!(at(1, 1).get_direct_neighbors(), vec![at(0, 1), at(2, 1), at(1, 0), at(1, 2)]);
    assert_eq!(at(0, 0).get_direct_neighbors(), vec![at(1, 0), at(0, 1)]);
    assert_eq!(
        at(usize::MAX, usize::MAX).get_direct_neighbors(),
        vec![at(usize::MAX - 1, usize::MAX), at(usize::MAX, usize::MAX - 1)]
    );
}

#[test]
fn day10_errors() {
    assert_eq!(Grid::new("").unwrap_err(), PuzzleError::MalformedInput);
    assert_eq!(Grid::new("01\n2").unwrap_err(), PuzzleError::MalformedInput);
    assert_eq!(Grid::new("01\n2x").unwrap_err(), PuzzleError::InvalidCell);
    assert_eq!(solve("0.2"), Err(PuzzleError::InvalidCell));
}
