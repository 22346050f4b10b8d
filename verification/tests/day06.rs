use puzzle_solvers::day06::{
    count_different_loops, count_distinct_positions, is_loop, parse, solve, step, Direction, State,
};
use puzzle_solvers::error::PuzzleError;
use puzzle_solvers::grid::Grid;

const EXAMPLE: &str = "....#.....
.........#
..........
..#.......
.......#..
..........
.#..^.....
........#.
#.........
......#...";

#[test]
fn day06_test_example() {
    let (state, grid) = parse(EXAMPLE).unwrap();
    assert_eq!(count_distinct_positions(state.clone(), &grid), 41);
    assert_eq!(count_different_loops(state.clone(), &grid), 6);
}

#[test]
fn day06_solve_gives_both_answers() {
    assert_eq!(solve(EXAMPLE), Ok((41, 6)));
}

#[test]
fn day06_parse_finds_the_guard() {
    let (state, grid) = parse(EXAMPLE).unwrap();
    assert_eq!(state, State { row: 6, col: 4, direction: Direction::Up });
    assert_eq!(grid.width, 10);
    assert_eq!(grid.height, 10);
}

#[test]
fn day06_errors() {
    assert_eq!(parse("...\n...").unwrap_err(), PuzzleError::MissingSeed);
    assert_eq!(parse("..\n.^.").unwrap_err(), PuzzleError::MalformedInput);
    assert_eq!(solve(""), Err(PuzzleError::MalformedInput));
    assert_eq!(solve("#"), Err(PuzzleError::MissingSeed));
}

#[test]
fn day06_quarter_turns() {
    assert_eq!(Direction::Up.rotated_right(), Direction::Right);
    assert_eq!(Direction::Right.rotated_right(), Direction::Down);
    assert_eq!(Direction::Down.rotated_right(), Direction::Left);
    assert_eq!(Direction::Left.rotated_right(), Direction::Up);
}

#[test]
fn day06_step_turns_at_obstacles() {
    let grid = Grid::new(".#.\n...\n...").unwrap();
    let at = |row, col, direction| State { row, col, direction };
    assert_eq!(step(&at(1, 1, Direction::Up), &grid), Some(at(1, 2, Direction::Right)));
    assert_eq!(step(&at(1, 0, Direction::Up), &grid), Some(at(0, 0, Direction::Up)));
    assert_eq!(step(&at(0, 0, Direction::Up), &grid), None);
    assert_eq!(step(&at(0, 0, Direction::Right), &grid), Some(at(1, 0, Direction::Down)));
    assert_eq!(step(&at(0, 2, Direction::Left), &grid), None);
    assert_eq!(step(&at(2, 2, Direction::Down), &grid), None);
    assert_eq!(step(&at(2, 2, Direction::Right), &grid), None);
}

#[test]
fn day06_a_guard_between_four_obstacles_stays() {
    let grid = Grid::new(".#.\n#^#\n.#.").unwrap();
    let state = State { row: 1, col: 1, direction: Direction::Up };
    assert_eq!(step(&state, &grid), Some(state));
    assert!(is_loop(state, &grid));
    assert_eq!(count_distinct_positions(state, &grid), 1);
}

fn revisits_by_simulation(mut state: State, grid: &Grid) -> bool {
    let bound = 4 * grid.width * grid.height + 1;
    let mut earlier = vec![state];
    for _ in 0..bound {
        match step(&state, grid) {
            None => return false,
            Some(next) => {
                if earlier.contains(&next) {
                    return true;
                }
                earlier.push(next);
                state = next;
            }
        }
    }
    false
}

#[test]
fn day06_loop_detection_agrees_with_simulation() {
    let (state, grid) = parse(EXAMPLE).unwrap();
    assert!(!is_loop(state, &grid));
    let mut loops = 0;
    for index in 0..grid.data.len() {
        let mut changed = grid.duplicate();
        changed.data[index] = '#';
        let expected = revisits_by_simulation(state, &changed);
        assert_eq!(is_loop(state, &changed), expected, "obstacle at {}", index);
        if expected {
            loops += 1;
        }
    }
    assert_eq!(loops, 6);
}

#[test]
fn day06_small_round() {
    let grid = Grid::new(".#..\n...#\n#^..\n..#.").unwrap();
    let state = State { row: 2, col: 1, direction: Direction::Up };
    assert!(is_loop(state, &grid));
    assert_eq!(count_distinct_positions(state, &grid), 4);
}
