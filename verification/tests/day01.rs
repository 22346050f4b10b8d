use puzzle_solvers::day01::{parse, solve, Locations};
use puzzle_solvers::error::PuzzleError;

const EXAMPLE: &str = "3   4
4   3
2   5
1   3
3   9
3   3";

fn example_locations() -> Locations {
    Locations {
        left: vec![3, 4, 2, 1, 3, 3],
        right: vec![4, 3, 5, 3, 9, 3],
    }
}

#[test]
fn day01_parse_example() {
    assert_eq!(parse(EXAMPLE).unwrap(), example_locations());
}

#[test]
fn test_sort_and_abs_diff() {
    assert_eq!(example_locations().sort_and_abs_diff(), 11);
}

#[test]
fn test_frequency_in_right() {
    assert_eq!(example_locations().calculate_frequency_in_right(3), 3);
}

#[test]
fn test_similarity_score() {
    assert_eq!(example_locations().calculate_similarity_score(), 31);
}

#[test]
fn day01_solve_gives_both_answers() {
    assert_eq!(solve(EXAMPLE), Ok((11, 31)));
}

#[test]
fn day01_sorting_matters() {
    let l = Locations { left: vec![9, 1], right: vec![1, 9] };
    assert_eq!(l.sort_and_abs_diff(), 0);
    let l = Locations { left: vec![5, 1, 7], right: vec![2] };
    assert_eq!(l.sort_and_abs_diff(), 1);
}

#[test]
fn day01_rejects_a_line_with_one_number() {
    assert_eq!(parse("3 4\n5\n"), Err(PuzzleError::MalformedInput));
    assert_eq!(parse("3 x"), Err(PuzzleError::MalformedInput));
    assert_eq!(parse("3 4294967296"), Err(PuzzleError::MalformedInput));
}

#[test]
fn day01_empty_text_has_no_locations() {
    assert_eq!(parse("").unwrap(), Locations { left: vec![], right: vec![] });
}
