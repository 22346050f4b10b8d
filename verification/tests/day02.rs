use puzzle_solvers::day02::{parse, solve, solve_1, solve_2, Report};
use puzzle_solvers::error::PuzzleError;

const EXAMPLE: &str = "7 6 4 2 1
1 2 7 8 9
9 7 6 2 1
1 3 2 4 5
8 6 4 4 1
1 3 6 7 9";

fn example() -> Vec<Report> {
    parse(EXAMPLE).unwrap()
}

#[test]
fn day02_test_parse() {
    let expected = vec![
        Report { levels: vec![7, 6, 4, 2, 1] },
        Report { levels: vec![1, 2, 7, 8, 9] },
        Report { levels: vec![9, 7, 6, 2, 1] },
        Report { levels: vec![1, 3, 2, 4, 5] },
        Report { levels: vec![8, 6, 4, 4, 1] },
        Report { levels: vec![1, 3, 6, 7, 9] },
    ];
    assert_eq!(parse(EXAMPLE).unwrap(), expected);
}

#[test]
fn test_is_safe() {
    assert!(example()[0].is_safe());
    assert!(!example()[1].is_safe());
    assert!(!example()[2].is_safe());
    assert!(!example()[3].is_safe());
    assert!(!example()[4].is_safe());
    assert!(example()[5].is_safe());
}

#[test]
fn test_get_adj_difference() {
    assert_eq!(example()[0].get_adj_difference(), vec![1, 2, 2, 1]);
}

#[test]
fn day02_test_solve_1() {
    assert_eq!(solve_1(example()), 2);
}

#[test]
fn day02_test_solve_2() {
    assert!(example()[0].is_safe_more_tolerant());
    assert!(!example()[1].is_safe_more_tolerant());
    assert!(!example()[2].is_safe_more_tolerant());
    assert!(example()[3].is_safe_more_tolerant());
    assert!(example()[4].is_safe_more_tolerant());
    assert!(example()[5].is_safe_more_tolerant());
}

#[test]
fn day02_counts_tolerable_reports() {
    assert_eq!(solve_2(example()), 4);
    assert_eq!(solve(EXAMPLE), Ok((2, 4)));
}

#[test]
fn day02_short_reports() {
    assert!(Report { levels: vec![] }.is_safe());
    assert!(!Report { levels: vec![] }.is_safe_more_tolerant());
    assert!(Report { levels: vec![5] }.is_safe());
    assert!(Report { levels: vec![5] }.is_safe_more_tolerant());
    assert!(Report { levels: vec![5] }.is_strictly_monoton());
    assert_eq!(Report { levels: vec![5] }.get_adj_difference(), Vec::<u32>::new());
    assert!(!Report { levels: vec![5, 5] }.is_strictly_monoton());
    assert!(!Report { levels: vec![1, 5] }.is_safe());
    assert!(Report { levels: vec![1, 4] }.is_safe());
}

#[test]
fn day02_rejects_a_word_that_is_no_number() {
    assert_eq!(parse("1 2 x"), Err(PuzzleError::MalformedInput));
    assert_eq!(solve("1 2\n3 -4"), Err(PuzzleError::MalformedInput));
}
