use puzzle_solvers::day07::{
    apply, is_solvable, parse, solve, solve_1, solve_2, solve_equation, Equation, Operator,
};
use puzzle_solvers::error::PuzzleError;

const EXAMPLE: &str = "190: 10 19
3267: 81 40 27
83: 17 5
156: 15 6
7290: 6 8 6 15
161011: 16 10 13
192: 17 8 14
21037: 9 7 18 13
292: 11 6 16 20";

fn example_equations() -> Vec<Equation> {
    vec![
        Equation { target: 190, operands: vec![10, 19] },
        Equation { target: 3267, operands: vec![81, 40, 27] },
        Equation { target: 83, operands: vec![17, 5] },
        Equation { target: 156, operands: vec![15, 6] },
        Equation { target: 7290, operands: vec![6, 8, 6, 15] },
        Equation { target: 161011, operands: vec![16, 10, 13] },
        Equation { target: 192, operands: vec![17, 8, 14] },
        Equation { target: 21037, operands: vec![9, 7, 18, 13] },
        Equation { target: 292, operands: vec![11, 6, 16, 20] },
    ]
}

#[test]
fn day07_parse_example() {
    assert_eq!(parse(EXAMPLE).unwrap(), example_equations());
}

#[test]
fn day07_test_solve_1() {
    assert_eq!(solve_1(&parse(EXAMPLE).unwrap()), 3749);
}

#[test]
fn day07_test_solve_2() {
    assert_eq!(solve_2(&parse(EXAMPLE).unwrap()), 11387);
}

#[test]
fn day07_solve() {
    assert_eq!(solve(EXAMPLE), Ok((3749, 11387)));
    assert_eq!(solve("190 10 19"), Err(PuzzleError::MalformedInput));
    assert_eq!(solve("190: 10 x"), Err(PuzzleError::MalformedInput));
    assert_eq!(solve("x: 10 19"), Err(PuzzleError::MalformedInput));
    assert_eq!(solve(""), Ok((0, 0)));
}

#[test]
fn day07_operators() {
    assert_eq!(apply(12, 345, Operator::Add), 357);
    assert_eq!(apply(12, 345, Operator::Multiply), 4140);
    assert_eq!(apply(12, 345, Operator::Concat), 12345);
    assert_eq!(apply(12, 9, Operator::Concat), 129);
    assert_eq!(apply(12, 10, Operator::Concat), 1210);
    assert_eq!(apply(12, 0, Operator::Concat), 120);
    assert_eq!(apply(0, 7, Operator::Concat), 7);
    assert_eq!(apply(1, 9_999_999_999_999_999_999, Operator::Add), 10_000_000_000_000_000_000);
}

#[test]
fn day07_from_left_to_right() {
    let equation = Equation { target: 0, operands: vec![2, 3, 4] };
    let value = |ops: Vec<Operator>| solve_equation(&equation, &ops);
    assert_eq!(value(vec![Operator::Add, Operator::Multiply]), Some(20));
    assert_eq!(value(vec![Operator::Multiply, Operator::Add]), Some(10));
    assert_eq!(value(vec![Operator::Concat, Operator::Concat]), Some(234));
    assert_eq!(value(vec![Operator::Concat, Operator::Multiply]), Some(92));
    let large = Equation { target: 0, operands: vec![u64::MAX, 2, 0, 5] };
    assert_eq!(solve_equation(&large, &vec![Operator::Multiply, Operator::Add, Operator::Add]), None);
    assert_eq!(
        solve_equation(&large, &vec![Operator::Multiply, Operator::Multiply, Operator::Add]),
        Some(5)
    );
}

#[test]
fn day07_solvable() {
    let plain = vec![Operator::Add, Operator::Multiply];
    let all = vec![Operator::Add, Operator::Multiply, Operator::Concat];
    let equations = example_equations();
    let with_plain: Vec<bool> = equations.iter().map(|e| is_solvable(e, &plain)).collect();
    assert_eq!(with_plain, vec![true, true, false, false, false, false, false, false, true]);
    let with_all: Vec<bool> = equations.iter().map(|e| is_solvable(e, &all)).collect();
    assert_eq!(with_all, vec![true, true, false, true, true, false, true, false, true]);
    assert!(is_solvable(&Equation { target: 7, operands: vec![7] }, &plain));
    assert!(is_solvable(&Equation { target: 7, operands: vec![7] }, &vec![]));
    assert!(!is_solvable(&Equation { target: 7, operands: vec![3, 4] }, &vec![]));
    assert!(!is_solvable(&Equation { target: 7, operands: vec![] }, &plain));
    assert!(is_solvable(&Equation { target: 5, operands: vec![u64::MAX, 2, 0, 5] }, &plain));
}
