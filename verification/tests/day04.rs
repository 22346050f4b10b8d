use puzzle_solvers::day04::{count_mas, count_xmas, solve};
use puzzle_solvers::error::PuzzleError;
use puzzle_solvers::grid::Grid;

const EXAMPLE: &str = "MMMSXXMASM
MSAMXMSMSA
AMXSXMAAMM
MSAMASMSMX
XMASAMXAMM
XXAMMXXAMA
SMSMSASXSS
SAXAMASAAA
MAMMMXMMMM
MXMXAXMASX";

#[test]
fn day04_test_parse() {
    let grid = Grid::new(EXAMPLE).unwrap();
    assert_eq!(grid.get(Some(0), Some(0)), Some('M'));
    assert_eq!(grid.get(Some(9), Some(9)), Some('X'));
}

#[test]
fn test_count_xmas() {
    assert_eq!(count_xmas(EXAMPLE).unwrap(), 18);
}

#[test]
fn day04_counts_crossings() {
    assert_eq!(count_mas(EXAMPLE).unwrap(), 9);
    assert_eq!(solve(EXAMPLE), Ok((18, 9)));
}

#[test]
fn day04_every_direction_counts() {
    assert_eq!(count_xmas("XMAS"), Ok(1));
    assert_eq!(count_xmas("SAMX"), Ok(1));
    assert_eq!(count_xmas("X\nM\nA\nS"), Ok(1));
    assert_eq!(count_xmas("S\nA\nM\nX"), Ok(1));
    assert_eq!(count_xmas("X...\n.M..\n..A.\n...S"), Ok(1));
    assert_eq!(count_xmas("S...\n.A..\n..M.\n...X"), Ok(1));
    assert_eq!(count_xmas("...X\n..M.\n.A..\nS..."), Ok(1));
    assert_eq!(count_xmas("...S\n..A.\n.M..\nX..."), Ok(1));
    assert_eq!(count_xmas("XMASAMX"), Ok(2));
    assert_eq!(count_xmas("XMA"), Ok(0));
}

#[test]
fn day04_crossings_need_both_diagonals() {
    assert_eq!(count_mas("M.S\n.A.\nM.S"), Ok(1));
    assert_eq!(count_mas("S.S\n.A.\nM.M"), Ok(1));
    assert_eq!(count_mas("M.M\n.A.\nS.S"), Ok(1));
    assert_eq!(count_mas("S.M\n.A.\nS.M"), Ok(1));
    assert_eq!(count_mas("M.S\n.A.\nS.M"), Ok(0));
    assert_eq!(count_mas("M.S\n.A.\nM.."), Ok(0));
    assert_eq!(count_mas("A"), Ok(0));
}

#[test]
fn day04_rejects_text_that_is_no_rectangle() {
    assert_eq!(count_xmas(""), Err(PuzzleError::MalformedInput));
    assert_eq!(count_xmas("XMAS\nXM"), Err(PuzzleError::MalformedInput));
    assert_eq!(count_mas("\n"), Err(PuzzleError::MalformedInput));
    assert_eq!(solve("AB\nC"), Err(PuzzleError::MalformedInput));
}
