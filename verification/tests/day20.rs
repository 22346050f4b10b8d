use puzzle_solvers::day20::{count_long_jumps, count_short_jumps, do_sth, do_sth2, solve, solve_1};
use puzzle_solvers::error::PuzzleError;
use puzzle_solvers::maze::{parse, Elem, Tile};

const EXAMPLE: &str = "###############
#...#...#.....#
#.#.#.#.#.###.#
#S#...#.#.#...#
#######.#.#.###
#######.#.#...#
#######.#.###.#
###..E#...#...#
###.#######.###
#...###...#...#
#.#####.#.###.#
#.#...#.#.#...#
#.#.#.#.#.#.###
#...#...#...###
###############";

#[test]
fn day20_test_solve_1() {
    assert_eq!(do_sth(&parse(EXAMPLE).unwrap()).unwrap(), 0);
}

#[test]
fn day20_test_solve_2() {
    assert_eq!(do_sth2(&parse(EXAMPLE).unwrap()).unwrap(), 0);
}

#[test]
fn day20_course_of_the_example() {
    let grid = parse(EXAMPLE).unwrap();
    let (steps, course) = solve_1(&grid).unwrap();
    assert_eq!(steps, 84);
    assert_eq!(course.len(), 85);
    assert_eq!(course[0], Elem { row: 3, col: 1, tile: Tile::Start });
    assert_eq!(course[84], Elem { row: 7, col: 5, tile: Tile::End });
    assert_eq!(solve(EXAMPLE), Ok((0, 0)));
}

#[test]
fn day20_short_jumps_by_saving() {
    let grid = parse(EXAMPLE).unwrap();
    let (_, course) = solve_1(&grid).unwrap();
    assert_eq!(count_short_jumps(&grid, &course, 64), 1);
    assert_eq!(count_short_jumps(&grid, &course, 65), 0);
    assert_eq!(count_short_jumps(&grid, &course, 40), 2);
    assert_eq!(count_short_jumps(&grid, &course, 20), 5);
    assert_eq!(count_short_jumps(&grid, &course, 12), 8);
    assert_eq!(count_short_jumps(&grid, &course, 2), 44);
}

#[test]
fn day20_long_jumps_by_saving() {
    let grid = parse(EXAMPLE).unwrap();
    let (_, course) = solve_1(&grid).unwrap();
    assert_eq!(count_long_jumps(&grid, &course, 20, 76), 3);
    assert_eq!(count_long_jumps(&grid, &course, 20, 74), 7);
    assert_eq!(count_long_jumps(&grid, &course, 20, 72), 29);
    assert_eq!(count_long_jumps(&grid, &course, 20, 50), 285);
    assert_eq!(count_long_jumps(&grid, &course, 2, 64), 1);
}

#[test]
fn day20_neighbours_and_jumps() {
    let grid = parse("S.E\n...\n...").unwrap();
    let middle = grid[4];
    assert_eq!(middle, Elem { row: 1, col: 1, tile: Tile::Empty });
    assert_eq!(middle.get_direct_neighbors(&grid), vec![grid[1], grid[3], grid[5], grid[7]]);
    assert_eq!(grid[0].cheat(&grid), vec![grid[2], grid[6]]);
    assert_eq!(middle.cheat(&grid), vec![]);
    assert_eq!(grid[0].cheat_manhattan(&grid), grid);
}

#[test]
fn day20_errors() {
    assert_eq!(do_sth(&parse("..E").unwrap()), Err(PuzzleError::MissingSeed));
    assert_eq!(do_sth2(&parse("S#E").unwrap()), Err(PuzzleError::NoSolution));
    assert_eq!(solve_1(&parse("S..").unwrap()), Err(PuzzleError::NoSolution));
}
