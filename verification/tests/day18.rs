use puzzle_solvers::day18::{first_blocking, parse, parse_in, solve, solve_1};
use puzzle_solvers::error::PuzzleError;
use puzzle_solvers::maze::{Elem, Tile};

const EXAMPLE: &str = "5,4
4,2
4,5
3,0
2,1
6,3
2,4
1,5
0,6
3,3
2,6
5,1";

const ALL_BYTES: &str = "5,4
4,2
4,5
3,0
2,1
6,3
2,4
1,5
0,6
3,3
2,6
5,1
1,2
5,5
2,5
6,5
1,4
0,4
6,4
1,1
6,1
1,0
0,5
1,6
2,0";

#[test]
fn day18_test_solve() {
    let example = parse_in(EXAMPLE, 12, 7).unwrap();
    assert_eq!(solve_1(&example).unwrap(), 22);
}

#[test]
fn day18_first_blocking_byte() {
    assert_eq!(first_blocking(ALL_BYTES, 12, 7), Ok(21));
    assert_eq!(first_blocking(ALL_BYTES, 0, 7), Ok(21));
    assert_eq!(first_blocking(ALL_BYTES, 21, 7), Ok(21));
    assert_eq!(first_blocking(EXAMPLE, 0, 7), Err(PuzzleError::NoSolution));
    assert_eq!(first_blocking(EXAMPLE, 40, 7), Err(PuzzleError::NoSolution));
}

#[test]
fn day18_layout() {
    let grid = parse_in("1,0\n0,1\n", 1, 2).unwrap();
    assert_eq!(
        grid,
        vec![
            Elem { row: 0, col: 0, tile: Tile::Start },
            Elem { row: 1, col: 0, tile: Tile::Empty },
            Elem { row: 1, col: 1, tile: Tile::End },
        ]
    );
    assert_eq!(parse_in("1,0\n0,1\n", 0, 2).unwrap().len(), 4);
    assert_eq!(parse_in("1,0\n0,1\n", 5, 2).unwrap().len(), 2);
    assert_eq!(parse_in("", 0, 1).unwrap(), vec![Elem { row: 0, col: 0, tile: Tile::End }]);
    assert_eq!(parse_in("", 0, 0).unwrap(), vec![]);
}

#[test]
fn day18_full_size_space() {
    let grid = parse("", 0).unwrap();
    assert_eq!(grid.len(), 71 * 71);
    assert_eq!(grid[0], Elem { row: 0, col: 0, tile: Tile::Start });
    assert_eq!(grid[71 * 71 - 1], Elem { row: 70, col: 70, tile: Tile::End });
}

#[test]
fn day18_errors() {
    assert_eq!(parse_in("1,x", 1, 7), Err(PuzzleError::MalformedInput));
    assert_eq!(parse_in("1", 1, 7), Err(PuzzleError::MalformedInput));
    assert!(parse_in("1,x", 0, 7).is_ok());
    assert_eq!(solve_1(&parse_in("0,0", 1, 7).unwrap()), Err(PuzzleError::MissingSeed));
    assert_eq!(solve_1(&parse_in("6,6", 1, 7).unwrap()), Err(PuzzleError::NoSolution));
    assert_eq!(solve_1(&parse_in("0,1\n1,0", 2, 7).unwrap()), Err(PuzzleError::NoSolution));
    assert_eq!(first_blocking("0,0", 1, 3), Err(PuzzleError::MissingSeed));
    assert_eq!(first_blocking("1,1\nx", 1, 3), Err(PuzzleError::MalformedInput));
}

#[test]
fn day18_fewer_bytes_leave_at_least_as_short_a_way() {
    let mut last = 0;
    for bytes in 0..=20 {
        let steps = solve_1(&parse_in(ALL_BYTES, bytes, 7).unwrap()).unwrap();
        assert!(steps >= last);
        last = steps;
    }
    assert_eq!(solve_1(&parse_in(ALL_BYTES, 0, 7).unwrap()), Ok(12));
}

#[test]
fn day18_solve_needs_a_blocking_byte() {
    assert_eq!(solve("1,1\n2,2"), Err(PuzzleError::NoSolution));
}
