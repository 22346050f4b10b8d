use puzzle_solvers::day14::{
    count_quadrants, count_quadrants_in, form_christmas_tree, is_christmas_tree, move_robots,
    move_robots_in, parse, solve_1, solve_2, Position, Robot, Velocity,
};
use puzzle_solvers::error::PuzzleError;

const EXAMPLE: &str = "p=0,4 v=3,-3
p=6,3 v=-1,-3
p=10,3 v=-1,2
p=2,0 v=2,-1
p=0,0 v=1,3
p=3,0 v=-2,-2
p=7,6 v=-1,-3
p=3,0 v=-1,-2
p=9,3 v=2,3
p=7,3 v=-1,2
p=2,4 v=2,-3
p=9,5 v=-3,-3";

fn robot(x: i64, y: i64, vx: i64, vy: i64) -> Robot {
    Robot { pos: Position { x, y }, vel: Velocity { x: vx, y: vy } }
}

fn get_example() -> Vec<Robot> {
    vec![
        robot(0, 4, 3, -3),
        robot(6, 3, -1, -3),
        robot(10, 3, -1, 2),
        robot(2, 0, 2, -1),
        robot(0, 0, 1, 3),
        robot(3, 0, -2, -2),
        robot(7, 6, -1, -3),
        robot(3, 0, -1, -2),
        robot(9, 3, 2, 3),
        robot(7, 3, -1, 2),
        robot(2, 4, 2, -3),
        robot(9, 5, -3, -3),
    ]
}

#[test]
fn day14_parse_example() {
    assert_eq!(parse(EXAMPLE).unwrap(), get_example());
}

#[test]
fn day14_test_move() {
    let mut robot = Robot {
        pos: Position { x: 2, y: 4 },
        vel: Velocity { x: 2, y: -3 },
    };
    robot.move_it();

    assert_eq!(robot.pos, Position { x: 4, y: 1 });
    assert_eq!(robot.vel, Velocity { x: 2, y: -3 });
}

#[test]
fn test_count_quadrants() {
    let mut robots = get_example();
    move_robots_in(&mut robots, 100, 11, 7);

    assert_eq!(count_quadrants_in(&robots, 11, 7), 12);
}

#[test]
fn day14_full_floor() {
    let mut robots = get_example();
    move_robots(&mut robots, 100);
    assert_eq!(count_quadrants(&robots), 21);
    assert_eq!(solve_1(&get_example()), 21);
}

#[test]
fn day14_wrapping_round_the_edges() {
    let mut r = robot(2, 4, 2, -3);
    let mut seen = vec![];
    for _ in 0..5 {
        r.move_in(11, 7);
        seen.push((r.pos.x, r.pos.y));
    }
    assert_eq!(seen, vec![(4, 1), (6, 5), (8, 2), (10, 6), (1, 3)]);
    let mut far = robot(i64::MAX, i64::MIN, i64::MAX, i64::MIN);
    far.move_in(101, 103);
    assert!(0 <= far.pos.x && far.pos.x < 101 && 0 <= far.pos.y && far.pos.y < 103);
    let mut p = Position { x: -1, y: 103 };
    p.apply_restrictions();
    assert_eq!(p, Position { x: 100, y: 0 });
    let mut p = Position { x: 202, y: -104 };
    p.apply_restrictions();
    assert_eq!(p, Position { x: 0, y: 102 });
}

#[test]
fn day14_quarters() {
    assert_eq!(robot(0, 0, 0, 0).quadrant(), 0);
    assert_eq!(robot(51, 0, 0, 0).quadrant(), 1);
    assert_eq!(robot(49, 52, 0, 0).quadrant(), 2);
    assert_eq!(robot(100, 102, 0, 0).quadrant(), 3);
    assert_eq!(robot(50, 0, 0, 0).quadrant(), 4);
    assert_eq!(robot(0, 51, 0, 0).quadrant(), 4);
    assert_eq!(robot(5, 3, 0, 0).quadrant_in(11, 7), 4);
    assert_eq!(robot(6, 4, 0, 0).quadrant_in(11, 7), 3);
}

#[test]
fn day14_an_empty_quarter_does_not_count() {
    assert_eq!(count_quadrants(&vec![]), 1);
    assert_eq!(count_quadrants(&vec![robot(0, 0, 0, 0), robot(1, 1, 0, 0)]), 2);
    assert_eq!(count_quadrants(&vec![robot(50, 50, 0, 0)]), 1);
    assert_eq!(
        count_quadrants(&vec![robot(0, 0, 0, 0), robot(1, 1, 0, 0), robot(99, 0, 0, 0), robot(98, 0, 0, 0), robot(97, 0, 0, 0)]),
        6
    );
}

#[test]
fn day14_neighbours() {
    let p = Position { x: 5, y: 5 };
    let at = |x, y| Position { x, y };
    assert_eq!(
        p.get_neighbors(),
        vec![at(4, 4), at(5, 4), at(6, 4), at(4, 5), at(6, 5), at(4, 6), at(5, 6), at(6, 6)]
    );
}

#[test]
fn day14_pictures() {
    assert!(!is_christmas_tree(&vec![]));
    assert!(!is_christmas_tree(&vec![robot(0, 0, 0, 0)]));
    assert!(!is_christmas_tree(&vec![robot(0, 0, 0, 0), robot(1, 0, 0, 0)]));
    let row: Vec<Robot> = (0..5).map(|x| robot(x, 0, 0, 0)).collect();
    // Three of five places have two neighbours.
    assert!(is_christmas_tree(&row));
    let mut loose = row.clone();
    loose.push(robot(50, 50, 0, 0));
    assert!(!is_christmas_tree(&loose));
    let mut doubled = row.clone();
    doubled.push(robot(0, 0, 1, 1));
    assert!(is_christmas_tree(&doubled));
}

#[test]
fn day14_waiting_for_a_picture() {
    // Five robots that stand in a row after three seconds.
    let mut robots: Vec<Robot> = (0..5).map(|x| robot(x, 10 + 9 * x, 0, -3 * x)).collect();
    assert_eq!(solve_2(&robots), Some(3));
    assert_eq!(form_christmas_tree(&mut robots), Some(3));
    assert_eq!(robots[4].pos, Position { x: 4, y: 10 });
    let mut still = vec![robot(0, 0, 0, 0), robot(50, 50, 0, 0)];
    assert_eq!(form_christmas_tree(&mut still), None);
}

#[test]
fn day14_rejects_other_lines() {
    assert_eq!(parse("p=0,4 v=3,-3\np=1"), Err(PuzzleError::MalformedInput));
    assert_eq!(parse("p=0,4"), Err(PuzzleError::MalformedInput));
    assert_eq!(parse("x=0,4 v=3,-3"), Err(PuzzleError::MalformedInput));
    assert_eq!(parse("p=0,4 v=3;-3"), Err(PuzzleError::MalformedInput));
    assert_eq!(parse("p=0,4 v=3,a"), Err(PuzzleError::MalformedInput));
    assert_eq!(parse(""), Ok(vec![]));
}
