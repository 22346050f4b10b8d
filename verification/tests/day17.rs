use puzzle_solvers::day17::{find_original_A, first_output, get_possible_inputs_for, parse, solve};
use puzzle_solvers::error::PuzzleError;

const INPUT: &str = "2,4,1,2,7,5,1,7,4,4,0,3,5,5,3,0";

#[test]
fn day17_test_parse() {
    assert_eq!(
        parse(INPUT).unwrap(),
        vec![2, 4, 1, 2, 7, 5, 1, 7, 4, 4, 0, 3, 5, 5, 3, 0],
    );
}

#[test]
fn day17_rejects_what_is_no_number() {
    assert_eq!(parse("1,,2"), Err(PuzzleError::MalformedInput));
    assert_eq!(parse(""), Err(PuzzleError::MalformedInput));
    assert_eq!(parse("1,2\n"), Err(PuzzleError::MalformedInput));
    assert_eq!(parse("7"), Ok(vec![7]));
}

#[test]
fn day17_first_outputs() {
    let outputs: Vec<u64> = (1..9).map(first_output).collect();
    assert_eq!(outputs, vec![4, 5, 7, 1, 0, 3, 2, 7]);
}

#[test]
fn day17_candidates() {
    assert_eq!(get_possible_inputs_for(&vec![1], 0), vec![5]);
    assert_eq!(get_possible_inputs_for(&vec![8, 16], 3), vec![11, 14]);
    assert_eq!(get_possible_inputs_for(&vec![], 3), vec![]);
}

#[test]
fn day17_search() {
    assert_eq!(find_original_A(&vec![]), Some(1));
    assert_eq!(find_original_A(&vec![0]), Some(5));
    assert_eq!(find_original_A(&vec![3, 0]), Some(43));
    assert_eq!(find_original_A(&vec![7]), Some(3));
    let program = vec![2, 4, 1, 2, 7, 5, 1, 7, 4, 4, 0, 3, 5, 5, 3, 0];
    assert_eq!(find_original_A(&program), Some(190593310997519));
    assert_eq!(solve("anything"), Some(190593310997519));
}

#[test]
fn day17_found_value_prints_the_program() {
    let program: Vec<u64> = vec![2, 4, 1, 2, 7, 5, 1, 7, 4, 4, 0, 3, 5, 5, 3, 0];
    let mut register = find_original_A(&program).unwrap();
    let mut printed = vec![];
    while register != 0 {
        printed.push(first_output(register));
        register /= 8;
    }
    assert_eq!(printed, program);
}
