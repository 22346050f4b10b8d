use puzzle_solvers::day22::{
    add_sales, calc_2000th_secret, calc_inflation, changes_of, get_bananas,
    get_bananas_for_given_inflation, mix, parse, prune, solve, step, sum_of_secrets,
    try_combinations, window_key,
};
use puzzle_solvers::error::PuzzleError;

const EXAMPLE: &str = "1
2
3
2024";

const ONE_BUYER: &str = "123";

#[test]
fn day22_test_solve_1() {
    let buyers = parse(EXAMPLE).unwrap();
    assert_eq!(try_combinations(&buyers, 2000), 23);
}

#[test]
fn test_banana() {
    let buyers = parse(ONE_BUYER).unwrap();
    assert_eq!(
        get_bananas_for_given_inflation(&get_bananas(buyers[0], 10), &[-1, -1, 0, 2]),
        6
    );
}

#[test]
fn day22_mix_and_prune() {
    assert_eq!(mix(42, 15), 37);
    assert_eq!(prune(100000000), 16113920);
    assert_eq!(prune(16777216), 0);
}

#[test]
fn day22_secrets_of_one_buyer() {
    let mut secret = 123;
    let mut seen = vec![];
    for _ in 0..10 {
        secret = step(secret);
        seen.push(secret);
    }
    assert_eq!(
        seen,
        vec![
            15887950, 16495136, 527345, 704524, 1553684, 12683156, 11100544, 12249484, 7753432,
            5908254
        ]
    );
}

#[test]
fn day22_last_secrets() {
    assert_eq!(calc_2000th_secret(1), 8685429);
    assert_eq!(calc_2000th_secret(10), 4700978);
    assert_eq!(calc_2000th_secret(100), 15273692);
    assert_eq!(calc_2000th_secret(2024), 8667524);
    assert_eq!(sum_of_secrets(&vec![1, 10, 100, 2024]), 37327623);
    assert_eq!(sum_of_secrets(&vec![]), 0);
}

#[test]
fn day22_prices_and_changes() {
    let prices = get_bananas(123, 10);
    assert_eq!(prices, vec![3, 0, 6, 5, 4, 4, 6, 4, 4, 2]);
    assert_eq!(calc_inflation(&prices), vec![-3, 6, -1, -1, 0, 2, -2, 0, -2]);
    assert_eq!(calc_inflation(&vec![]), Vec::<i64>::new());
    assert_eq!(calc_inflation(&vec![7]), Vec::<i64>::new());
    assert_eq!(get_bananas(123, 0), Vec::<u64>::new());
}

#[test]
fn day22_the_first_sight_of_the_changes_counts() {
    let prices = vec![1, 2, 3, 4, 5, 1, 2, 3, 4, 9];
    assert_eq!(get_bananas_for_given_inflation(&prices, &[1, 1, 1, 1]), 5);
    assert_eq!(get_bananas_for_given_inflation(&prices, &[1, 1, 1, 5]), 9);
    assert_eq!(get_bananas_for_given_inflation(&prices, &[1, 1, 1, 2]), 0);
    assert_eq!(get_bananas_for_given_inflation(&vec![1, 2, 3, 4], &[1, 1, 1, 1]), 0);
    let total: u64 = [1, 2, 3, 2024]
        .iter()
        .map(|&buyer| get_bananas_for_given_inflation(&get_bananas(buyer, 2000), &[-2, 1, -1, 3]))
        .sum();
    assert_eq!(total, 23);
}

#[test]
fn day22_parse() {
    assert_eq!(parse("1\n2\n3\n2024"), Ok(vec![1, 2, 3, 2024]));
    assert_eq!(parse("1\nx"), Err(PuzzleError::MalformedInput));
    assert_eq!(parse(""), Ok(vec![]));
}

#[test]
fn day22_rows_of_changes_are_numbered_last_fastest() {
    assert_eq!(changes_of(0), [-9, -9, -9, -9]);
    assert_eq!(changes_of(1), [-9, -9, -9, -8]);
    assert_eq!(changes_of(19), [-9, -9, -8, -9]);
    assert_eq!(changes_of(51787), [-2, 1, -1, 3]);
    assert_eq!(changes_of(130320), [9, 9, 9, 9]);
    let prices = get_bananas(123, 10);
    assert_eq!(window_key(&prices, 6), 57942);
    assert_eq!(changes_of(57942), [-1, -1, 0, 2]);
}

#[test]
fn day22_table_agrees_with_the_sale_for_every_row() {
    let prices = get_bananas(2024, 60);
    let mut table: Vec<u64> = vec![0; 130321];
    add_sales(&mut table, &prices);
    for k in 0..130321usize {
        assert_eq!(table[k], get_bananas_for_given_inflation(&prices, &changes_of(k)));
    }
    add_sales(&mut table, &prices);
    assert_eq!(table[57942], 2 * get_bananas_for_given_inflation(&prices, &[-1, -1, 0, 2]));
}

#[test]
fn day22_most_bananas() {
    assert_eq!(try_combinations(&vec![123], 10), 6);
    assert_eq!(try_combinations(&vec![123], 4), 0);
    assert_eq!(try_combinations(&vec![], 2000), 0);
    assert_eq!(try_combinations(&vec![1, 2, 3, 2024], 2000), 23);
    let buyers = vec![1, 2, 3, 2024];
    let by_hand: u64 = buyers
        .iter()
        .map(|&b| get_bananas_for_given_inflation(&get_bananas(b, 2000), &[-2, 1, -1, 3]))
        .sum();
    assert_eq!(by_hand, 23);
}

#[test]
fn day22_solve_example() {
    assert_eq!(solve(EXAMPLE), Ok((37990510, 23)));
    assert_eq!(solve("1\n10\n100\n2024").map(|r| r.0), Ok(37327623));
    assert_eq!(solve("1\nx"), Err(PuzzleError::MalformedInput));
    assert_eq!(solve("18446744073709551615"), Err(PuzzleError::MalformedInput));
}
