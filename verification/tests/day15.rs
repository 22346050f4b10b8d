use puzzle_solvers::day15::{
    apply_sequence, apply_sequence_for_extended_map, calculate_grid, can_it_move, extend,
    get_robot_pos, is_empty, is_wall, move_boxes_in_direction, move_robot, parse, solve, solve_1,
    solve_2, Direction, Position,
};
use puzzle_solvers::error::PuzzleError;
use puzzle_solvers::grid::Grid;

const SMALL_EXAMPLE: &str = "#######
#...O..
#......

<";

const EXAMPLE: &str = "########
#..O.O.#
##@.O..#
#...O..#
#.#.O..#
#...O..#
#......#
########

<^^>>>vv<v>>v<<";

const EXAMPLE_END: &str = "########
#....OO#
##.....#
#.....O#
#.#O@..#
#...O..#
#...O..#
########

<^^>>>vv<v>>v<<";

const LARGE_EXAMPLE: &str = "##########
#..O..O.O#
#......O.#
#.OO..O.O#
#..O@..O.#
#O#..O...#
#O..O..O.#
#.OO.O.OO#
#....O...#
##########";

const EXAMPLE2: &str = "#######
#...#.#
#.....#
#..OO@#
#..O..#
#.....#
#######

<vv<<^^<<^^";

const EXAMPLE2_EXTENDED: &str = "##############
##......##..##
##..........##
##....[][]@.##
##....[]....##
##..........##
##############

<vv<<^^<<^^";

const EXAMPLE2_EXTENDED_END: &str = "##############
##...[].##..##
##...@.[]...##
##....[]....##
##..........##
##..........##
##############

<vv<<^^<<^^";

const SMALL_EXAMPLE_EXTENDED: &str = "##########
##...[]...
##........

<";

const LARGE_EXAMPLE_EXTENDED: &str = "####################
##....[]....[]..[]##
##............[]..##
##..[][]....[]..[]##
##....[]@.....[]..##
##[]##....[]......##
##[]....[]....[]..##
##..[][]..[]..[][]##
##........[]......##
####################

<vv>^<v^>v>^vv^v>v<>v^v<v<^vv<<<^><<><>>v<vvv<>^v^>^<<<><<v<<<v^vv^v>^
vvv<<^>^v^^><<>>><>^<<><^vv^^<>vvv<>><^^v>^>vv<>v<<<<v<^v>^<^^>>>^<v<v
><>vv>v^v^<>><>>>><^^>vv>v<^^^>>v^v^<^^>v^^>v^<^v>v<>>v^v^<v>v^^<^^vv<
<<v<^>>^^^^>>>v^<>vvv^><v<<<>^^^vv^<vvv>^>v<^^^^v<>^>vvvv><>>v^<<^^^^^
^><^><>>><>^^<<^^v>>><^<v>^<vv>>v>>>^v><>^v><<<<v>>v<v<v>vvv>^<><<>^><
^>><>^v<><^vvv<^^<><v<<<<<><^v<<<><<<^^<v<^^^><^>>^<v^><<<^>>^v<v^v<v^
>^>>^v>vv>^<<^v<>><<><<v<<v><>v<^vv<<<>^^v^>^^>>><<^v>>v^v><^^>>^<>vv^
<><^^>^^^<><vvvvv^v<v<<>^v<v>v<<^><<><<><<<^^<<<^<<>><<><^^^>^^<>^>v<>
^^>vv<^v^v<vv>^<><v<^v>^^^>>>^^vvv^>vvv<>>>^<^>>>>>^<<^v>^vvv<>^<><<v>
v^^>>><<^^<>>^v^<v^vv<>v^<<>^<^v^v><^<<<><<^<v><v<>vv>>v><v^<vv<>v^<<^";

const LARGE_EXAMPLE_EXTENDED_END: &str = "####################
##[].......[].[][]##
##[]...........[].##
##[]........[][][]##
##[]......[]....[]##
##..##......[]....##
##..[]............##
##..@......[].[][]##
##......[][]..[]..##
####################";

#[test]
fn day15_parse_example() {
    let parsed = parse(EXAMPLE).unwrap();
    assert_eq!(parsed.map.width, 8);
    assert_eq!(parsed.map.height, 8);
    assert_eq!(parsed.sequence.len(), 15);
}

#[test]
fn test_move_robot() {
    let parsed = parse(EXAMPLE).unwrap();
    let grid = apply_sequence(&parsed.map, &parsed.sequence).unwrap();
    assert_eq!(calculate_grid(&grid), 2028);
}

#[test]
fn test_calculate_grid() {
    let parsed = parse(SMALL_EXAMPLE).unwrap();
    assert_eq!(calculate_grid(&parsed.map), 104);

    let parsed = parse(EXAMPLE_END).unwrap();
    assert_eq!(calculate_grid(&parsed.map), 2028);

    let parsed = parse(SMALL_EXAMPLE_EXTENDED).unwrap();
    assert_eq!(calculate_grid(&parsed.map), 105);

    let parsed = parse(LARGE_EXAMPLE_EXTENDED_END).unwrap();
    assert_eq!(calculate_grid(&parsed.map), 9021);
}

#[test]
fn test_extend() {
    let mut parsed = parse(LARGE_EXAMPLE).unwrap();
    extend(&mut parsed.map).unwrap();

    let parsed_extended = parse(LARGE_EXAMPLE_EXTENDED).unwrap();
    assert_eq!(parsed.map, parsed_extended.map);
}

#[test]
fn test_extended_move_robot() {
    let mut parsed = parse(EXAMPLE2).unwrap();
    extend(&mut parsed.map).unwrap();

    let parsed_extended = parse(EXAMPLE2_EXTENDED).unwrap();
    assert_eq!(parsed.map, parsed_extended.map);

    let grid = apply_sequence_for_extended_map(&parsed_extended.map, &parsed.sequence).unwrap();
    let parsed_extended_end = parse(EXAMPLE2_EXTENDED_END).unwrap();
    assert_eq!(grid, parsed_extended_end.map);
}

#[test]
fn test_large_extended_move_robot() {
    let parsed = parse(LARGE_EXAMPLE_EXTENDED).unwrap();
    let grid = apply_sequence_for_extended_map(&parsed.map, &parsed.sequence).unwrap();
    let parsed_extended_end = parse(LARGE_EXAMPLE_EXTENDED_END).unwrap();
    assert_eq!(grid, parsed_extended_end.map);
}

#[test]
fn day15_example_ends_as_drawn() {
    let parsed = parse(EXAMPLE).unwrap();
    let grid = apply_sequence(&parsed.map, &parsed.sequence).unwrap();
    assert_eq!(grid, parse(EXAMPLE_END).unwrap().map);
    assert_eq!(solve_1(&parsed), Ok(2028));
    assert_eq!(solve_2(&parsed), Ok(1751));
    assert_eq!(solve(EXAMPLE), Ok((2028, 1751)));
}

#[test]
fn day15_large_example() {
    let text = format!("{}\n\n{}", LARGE_EXAMPLE, LARGE_EXAMPLE_EXTENDED.split("\n\n").nth(1).unwrap());
    assert_eq!(solve(&text), Ok((10092, 9021)));
}

#[test]
fn day15_both_ways_of_moving_agree() {
    let parsed = parse(LARGE_EXAMPLE_EXTENDED).unwrap();
    assert_eq!(
        apply_sequence(&parsed.map, &parsed.sequence).unwrap(),
        apply_sequence_for_extended_map(&parsed.map, &parsed.sequence).unwrap()
    );
}

fn grid(text: &str) -> Grid {
    Grid::new(text).unwrap()
}

#[test]
fn day15_a_push_moves_everything_or_nothing() {
    let mut g = grid("#@OO.#");
    move_robot(&mut g, Direction::Right).unwrap();
    assert_eq!(g, grid("#.@OO#"));
    move_robot(&mut g, Direction::Right).unwrap();
    assert_eq!(g, grid("#.@OO#"));
    move_robot(&mut g, Direction::Left).unwrap();
    assert_eq!(g, grid("#@.OO#"));
    move_robot(&mut g, Direction::Left).unwrap();
    assert_eq!(g, grid("#@.OO#"));
    move_robot(&mut g, Direction::Up).unwrap();
    assert_eq!(g, grid("#@.OO#"));
}

#[test]
fn day15_wide_boxes_move_as_a_whole() {
    let mut g = grid("......\n.[][].\n..[]..\n..@...");
    assert!(can_it_move(&g, &Position { row: 3, col: 2 }, Direction::Up));
    move_robot(&mut g, Direction::Up).unwrap();
    assert_eq!(g, grid(".[][].\n..[]..\n..@...\n......"));
    assert!(!can_it_move(&g, &Position { row: 2, col: 2 }, Direction::Up));
    move_robot(&mut g, Direction::Up).unwrap();
    assert_eq!(g, grid(".[][].\n..[]..\n..@...\n......"));

    let mut g = grid("....#.\n.[][].\n..[]..\n..@...");
    move_robot(&mut g, Direction::Up).unwrap();
    assert_eq!(g, grid("....#.\n.[][].\n..[]..\n..@..."));

    let mut g = grid("#..[][]@");
    move_robot(&mut g, Direction::Left).unwrap();
    assert_eq!(g, grid("#.[][]@."));
}

#[test]
fn day15_pushing_any_cell() {
    let mut g = grid(".O.\n...\n...");
    move_boxes_in_direction(&mut g, &Position { row: 0, col: 1 }, Direction::Down);
    assert_eq!(g, grid("...\n.O.\n..."));
    move_boxes_in_direction(&mut g, &Position { row: 1, col: 1 }, Direction::Right);
    assert_eq!(g, grid("...\n..O\n..."));
    move_boxes_in_direction(&mut g, &Position { row: 1, col: 2 }, Direction::Right);
    assert_eq!(g, grid("...\n..O\n..."));
}

#[test]
fn day15_small_helpers() {
    let g = grid("#.@\n...");
    assert!(is_wall(&g, &Position { row: 0, col: 0 }));
    assert!(!is_wall(&g, &Position { row: 0, col: 1 }));
    assert!(is_empty(&g, &Position { row: 0, col: 1 }));
    assert!(!is_empty(&g, &Position { row: 0, col: 2 }));
    assert_eq!(get_robot_pos(&g), Some(Position { row: 0, col: 2 }));
    assert_eq!(get_robot_pos(&grid("#..")), None);
    assert!(Direction::Up.is_vertical() && Direction::Down.is_vertical());
    assert!(Direction::Left.is_horizontal() && Direction::Right.is_horizontal());
    assert!(!Direction::Left.is_vertical() && !Direction::Up.is_horizontal());
    let p = Position { row: 4, col: 4 };
    assert_eq!(p.go_to(Direction::Up), Position { row: 3, col: 4 });
    assert_eq!(p.go_to(Direction::Right), Position { row: 4, col: 5 });
    assert_eq!(p.go_to(Direction::Down), Position { row: 5, col: 4 });
    assert_eq!(p.go_to(Direction::Left), Position { row: 4, col: 3 });
}

#[test]
fn day15_errors() {
    assert_eq!(parse("##\n#\n\n<").unwrap_err(), PuzzleError::MalformedInput);
    assert_eq!(parse("").unwrap_err(), PuzzleError::MalformedInput);
    let g = grid("#.O");
    assert_eq!(apply_sequence(&g, &vec!['<']).unwrap_err(), PuzzleError::MissingSeed);
    assert_eq!(apply_sequence(&g, &vec![]).unwrap(), g);
    let g = grid("#.@");
    assert_eq!(apply_sequence(&g, &vec!['<', 'x', '<']).unwrap_err(), PuzzleError::MalformedInput);
    assert_eq!(
        apply_sequence_for_extended_map(&g, &vec!['x']).unwrap_err(),
        PuzzleError::MalformedInput
    );
    let mut odd = grid("#[]");
    assert_eq!(extend(&mut odd), Err(PuzzleError::InvalidCell));
    assert_eq!(odd, grid("#[]"));
    let mut none = grid("#.O");
    assert_eq!(move_robot(&mut none, Direction::Left), Err(PuzzleError::MissingSeed));
}
