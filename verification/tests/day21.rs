use puzzle_solvers::day21::{
    calculate_complexity, calculate_complexity_after, count_presses, get_directional_way,
    get_shortest_sequence, get_shortest_sequence_after, iterate, keys_for, parse, solve, Code, Key,
};
use puzzle_solvers::day21::Key::{Down, Left, Right, Up, A};
use puzzle_solvers::error::PuzzleError;

const EXAMPLE: &str = "029A
980A
179A
456A
379A";

const INPUT: &str = "671A
826A
670A
085A
283A";

const SHORT: &str = "2";

#[test]
fn test_shortest_sequence() {
    let codes: Vec<Code> = parse(EXAMPLE);

    assert_eq!(get_shortest_sequence_after(&codes[0], 2), 68);
}

#[test]
fn test_total_complexities() {
    let codes: Vec<Code> = parse(EXAMPLE);

    assert_eq!(
        codes
            .iter()
            .map(|code| calculate_complexity_after(code, 2).unwrap())
            .sum::<u64>(),
        126384
    );
}

#[test]
fn test_input() {
    let codes: Vec<Code> = parse(INPUT);

    assert_eq!(
        codes
            .iter()
            .map(|code| calculate_complexity_after(code, 2).unwrap())
            .sum::<u64>(),
        182844
    );
}

#[test]
fn test_short_input() {
    let codes: Vec<Code> = parse(SHORT);

    assert_eq!(
        codes
            .iter()
            .map(|code| calculate_complexity_after(code, 2).unwrap())
            .sum::<u64>(),
        34
    );
}

#[test]
fn day21_whole_chain() {
    let codes: Vec<Code> = parse(EXAMPLE);
    let lengths: Vec<u64> = codes.iter().map(get_shortest_sequence).collect();
    assert_eq!(
        lengths,
        vec![82050061710, 72242026390, 81251039228, 80786362258, 77985628636]
    );
    assert_eq!(calculate_complexity(&codes[0]), Ok(82050061710 * 29));
    assert_eq!(solve(EXAMPLE), Ok(154115708116294));
    assert_eq!(solve(INPUT), Ok(226179529377982));
    assert_eq!(solve(SHORT), Ok(42403754294));
    assert_eq!(solve(""), Ok(0));
}

#[test]
fn day21_presses_are_the_length_of_what_is_typed() {
    let start = vec![Key::Left, Key::A, Key::Up, Key::A, Key::Up, Key::Up, Key::Right, Key::A];
    let mut typed = start.clone();
    for robots in 0..8 {
        assert_eq!(count_presses(&start, robots), typed.len() as u64);
        typed = iterate(&typed);
    }
    assert_eq!(count_presses(&[], 25), 0);
    assert_eq!(count_presses(&[Key::A], 25), 1);
    assert_eq!(count_presses(&[Key::Left], 1), 4);
}

#[test]
fn day21_iterate_starts_over_a() {
    assert_eq!(iterate(&[]), vec![]);
    assert_eq!(iterate(&[Up, Left]), vec![Left, A, Down, Left, A]);
    assert_eq!(iterate(&[A, A]), vec![A, A]);
    assert_eq!(iterate(&[Left, Right]), vec![Down, Left, Left, A, Right, Right, A]);
}

#[test]
fn day21_every_way_ends_with_a_press() {
    let keys = [Left, Up, Down, Right, A];
    for from in keys {
        for to in keys {
            let way = get_directional_way(from, to);
            assert_eq!(way.last(), Some(&A));
            assert!(way.len() <= 4);
            assert_eq!(way.len() == 1, from == to);
        }
    }
    assert_eq!(get_directional_way(A, Left), vec![Down, Left, Left, A]);
    assert_eq!(get_directional_way(Left, A), vec![Right, Right, Up, A]);
    assert_eq!(get_directional_way(Up, Right), vec![Down, Right, A]);
}

#[test]
fn day21_unknown_codes_take_no_presses() {
    let unknown: Code = "123A".chars().collect();
    assert_eq!(keys_for(&unknown), vec![]);
    assert_eq!(get_shortest_sequence(&unknown), 0);
    assert_eq!(calculate_complexity(&unknown), Ok(0));
    let known: Code = "029A".chars().collect();
    assert_eq!(keys_for(&known).len(), 12);
}

#[test]
fn day21_a_code_needs_a_number() {
    let no_digit: Code = "A".chars().collect();
    assert_eq!(calculate_complexity(&no_digit), Err(PuzzleError::MalformedInput));
    let too_large: Code = "99999999999999999999A".chars().collect();
    assert_eq!(calculate_complexity_after(&too_large, 2), Err(PuzzleError::MalformedInput));
    assert_eq!(solve("029A\n\n"), Err(PuzzleError::MalformedInput));
}
