use puzzle_solvers::day08::{mark_antinodes, solve, City, Coordinate};
use puzzle_solvers::error::PuzzleError;

const EXAMPLE: &str = "............
........0...
.....0......
.......0....
....0.......
......A.....
............
............
........A...
.........A..
............
............";

fn example_locations() -> City {
    let mut grid: Vec<(Coordinate, char)> = Vec::new();
    grid.push(((8, 1), '0'));
    grid.push(((5, 2), '0'));
    grid.push(((7, 3), '0'));
    grid.push(((4, 4), '0'));
    grid.push(((6, 5), 'A'));
    grid.push(((8, 8), 'A'));
    grid.push(((9, 9), 'A'));
    City {
        antenna: grid,
        width: 12,
        height: 12,
    }
}

#[test]
fn day08_test_parse() {
    assert_eq!(City::new(EXAMPLE).unwrap(), example_locations());
}

#[test]
fn test_1() {
    assert_eq!(mark_antinodes(&City::new(EXAMPLE).unwrap(), 1, Some(2)).len(), 14);
}

#[test]
fn test_2() {
    assert_eq!(mark_antinodes(&City::new(EXAMPLE).unwrap(), 0, Some(12)).len(), 34);
}

#[test]
fn day08_solve() {
    assert_eq!(solve(EXAMPLE), Ok((14, 34)));
    assert_eq!(solve("a.\n."), Err(PuzzleError::MalformedInput));
    assert_eq!(solve(""), Err(PuzzleError::MalformedInput));
    assert_eq!(solve("..\n.."), Ok((0, 0)));
}

#[test]
fn day08_two_antennas() {
    let city = City::new("..........\n...a......\n.....a....\n..........\n..........").unwrap();
    assert_eq!(city.antenna, vec![((3, 1), 'a'), ((5, 2), 'a')]);
    assert_eq!(mark_antinodes(&city, 1, Some(2)), vec![(1, 0), (7, 3)]);
    assert_eq!(mark_antinodes(&city, 0, None), vec![(1, 0), (3, 1), (5, 2), (7, 3), (9, 4)]);
    assert_eq!(mark_antinodes(&city, 0, Some(1)), vec![(3, 1), (5, 2)]);
    assert_eq!(mark_antinodes(&city, 2, Some(3)), vec![(9, 4)]);
    assert_eq!(mark_antinodes(&city, 3, None), vec![]);
    assert_eq!(mark_antinodes(&city, 5, Some(2)), vec![]);
    // The multiples are gone through upwards and end with the first
    // that falls out of the city.
    assert_eq!(mark_antinodes(&city, -1, None), vec![(1, 0), (3, 1), (5, 2), (7, 3), (9, 4)]);
    assert_eq!(mark_antinodes(&city, -3, None), vec![(1, 0), (3, 1), (5, 2), (7, 3), (9, 4)]);
    assert_eq!(mark_antinodes(&city, -4, None), vec![]);
}

#[test]
fn day08_frequencies_do_not_mix() {
    let city = City::new("a.b.\n....").unwrap();
    assert_eq!(mark_antinodes(&city, 0, None), vec![]);
    let city = City::new("a.a.\n.A.a").unwrap();
    assert_eq!(mark_antinodes(&city, 1, Some(2)), vec![]);
    assert_eq!(mark_antinodes(&city, 0, Some(1)), vec![(0, 0), (2, 0), (3, 1)]);
}

#[test]
fn day08_antinodes_are_listed_once() {
    let city = City::new("a.a.a").unwrap();
    assert_eq!(mark_antinodes(&city, 1, Some(2)), vec![(0, 0), (4, 0)]);
    assert_eq!(mark_antinodes(&city, 0, None), vec![(0, 0), (2, 0), (4, 0)]);
}
