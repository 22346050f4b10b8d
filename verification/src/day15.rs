//! A warehouse in which a robot pushes boxes. A push moves the robot and
//! every box in its way one cell on, or nothing at all when a wall, or the
//! edge of the warehouse, is in the way of any of them.
use vstd::prelude::*;
use crate::counting::{lemma_sum_grows, sum_below};
use crate::error::PuzzleError;
use crate::explorer::{
    add_state, charted, close_space, explore, laid_out, leads_to, lemma_seen_is_reached, offer,
    runs, unit_links, StateCache, StateSpace, Step, Trail,
};
use crate::grid::{lemma_cell_index, lemma_index_cell, rectangular, Board, Grid};
use crate::text::{chars_of, copy_range, find_char, lines, rows, split_lines};

verus! {

/// A wall.
pub const WALL: char = '#';

/// A free cell.
pub const FREE: char = '.';

/// The robot.
pub const ROBOT: char = '@';

/// A box that takes up one cell.
pub const CRATE: char = 'O';

/// The left half of a box that takes up two cells.
pub const LEFT_HALF: char = '[';

/// The right half of a box that takes up two cells.
pub const RIGHT_HALF: char = ']';

/// A position inside the warehouse.
#[derive(Debug, Clone, Copy, PartialEq, Eq, Hash, Structural)]
pub struct Position {
    pub row: usize,
    pub col: usize,
}

/// The way of a push.
#[derive(Debug, Clone, Copy, PartialEq, Eq, Hash, Structural)]
pub enum Direction {
    Up,
    Right,
    Down,
    Left,
}

/// Whether a push goes up or down.
pub open spec fn vertical(d: Direction) -> bool {
    d == Direction::Up || d == Direction::Down
}

/// The direction against `d`.
pub open spec fn against(d: Direction) -> Direction {
    match d {
        Direction::Up => Direction::Down,
        Direction::Down => Direction::Up,
        Direction::Left => Direction::Right,
        Direction::Right => Direction::Left,
    }
}

/// The index of the cell one step from cell `c` in direction `d`, counting
/// cells row after row; `-1` when that step leaves the warehouse.
pub open spec fn ahead(b: Board, d: Direction, c: int) -> int {
    match d {
        Direction::Up => if c >= b.width {
            c - b.width
        } else {
            -1
        },
        Direction::Down => if c + b.width < b.data.len() {
            c + b.width
        } else {
            -1
        },
        Direction::Left => if c % b.width != 0 {
            c - 1
        } else {
            -1
        },
        Direction::Right => if (c + 1) % b.width != 0 {
            c + 1
        } else {
            -1
        },
    }
}

/// Whether what a cell holds can be pushed: anything but a wall and a free cell.
pub open spec fn pushable(ch: char) -> bool {
    ch != FREE && ch != WALL
}

/// The index of the other half of the box of which cell `c` holds a half;
/// `-1` when `c` holds no half, or the other half would lie in another row.
pub open spec fn partner(b: Board, c: int) -> int {
    if b.data[c] == LEFT_HALF {
        ahead(b, Direction::Right, c)
    } else if b.data[c] == RIGHT_HALF {
        ahead(b, Direction::Left, c)
    } else {
        -1
    }
}

/// Whether cell `y` has to move when cell `x` moves in direction `d`: `y`
/// lies one step ahead of `x` and holds something that can be pushed, or,
/// in a push up or down, `y` holds the other half of the box ahead of `x`.
/// The price `c` is one.
pub open spec fn drags(b: Board, d: Direction, x: int, y: int, c: int) -> bool {
    &&& 0 <= x < b.data.len()
    &&& 0 <= y < b.data.len()
    &&& c == 1
    &&& ahead(b, d, x) >= 0
    &&& pushable(b.data[ahead(b, d, x)])
    &&& (y == ahead(b, d, x) || (vertical(d) && y == partner(b, ahead(b, d, x))))
}

/// The cells that drag one another in a push in direction `d`, as a relation.
pub open spec fn drag_links(b: Board, d: Direction) -> spec_fn(int, int, int) -> bool {
    |x: int, y: int, c: int| drags(b, d, x, y, c)
}

/// Whether cell `c` has to move when cell `from` is pushed in direction `d`.
pub open spec fn must_move(b: Board, d: Direction, from: int, c: int) -> bool {
    exists|t: Trail| #[trigger] runs(drag_links(b, d), seq![from as usize], t, c)
}

/// Whether a cell that has to move has a wall, or the edge of the warehouse, ahead.
pub open spec fn held(b: Board, d: Direction, c: int) -> bool {
    ahead(b, d, c) < 0 || b.data[ahead(b, d, c)] == WALL
}

/// Whether the push of cell `from` in direction `d` moves nothing.
pub open spec fn stuck(b: Board, d: Direction, from: int) -> bool {
    exists|c: int| 0 <= c < b.data.len() && #[trigger] must_move(b, d, from, c) && held(b, d, c)
}

/// What cell `c` holds after everything that has to move has moved one
/// step in direction `d`.
pub open spec fn shifted(b: Board, d: Direction, from: int, c: int) -> char {
    let source = ahead(b, against(d), c);
    if source >= 0 && must_move(b, d, from, source) {
        b.data[source]
    } else if must_move(b, d, from, c) {
        FREE
    } else {
        b.data[c]
    }
}

/// The warehouse after cell `from` has been pushed in direction `d`.
pub open spec fn pushed(b: Board, d: Direction, from: int) -> Board {
    if stuck(b, d, from) {
        b
    } else {
        Board {
            width: b.width,
            height: b.height,
            data: Seq::new(b.data.len(), |c: int| shifted(b, d, from, c)),
        }
    }
}

impl Direction {
    /// Whether the direction is up or down.
    pub fn is_vertical(self) -> (r: bool)
        ensures
            r == vertical(self),
    {
        self == Direction::Up || self == Direction::Down
    }

    /// Whether the direction is left or right.
    pub fn is_horizontal(self) -> (r: bool)
        ensures
            r == !vertical(self),
    {
        self == Direction::Left || self == Direction::Right
    }

    /// The opposite direction.
    pub fn reversed(self) -> (r: Direction)
        ensures
            r == against(self),
    {
        match self {
            Direction::Up => Direction::Down,
            Direction::Down => Direction::Up,
            Direction::Left => Direction::Right,
            Direction::Right => Direction::Left,
        }
    }
}

/// The index of the cell one step from cell `c`; `None` when the step
/// leaves the warehouse.
fn step_from(grid: &Grid, direction: Direction, c: usize) -> (r: Option<usize>)
    requires
        grid.wf(),
        c < grid.data.len(),
    ensures
        match r {
            Some(n) => n == ahead(grid@, direction, c as int) && n < grid.data.len(),
            None => ahead(grid@, direction, c as int) == -1,
        },
{
    let w = grid.width;
    proof {
        vstd::arithmetic::div_mod::lemma_small_mod(0, w as nat);
    }
    match direction {
        Direction::Up => if c >= w {
            Some(c - w)
        } else {
            None
        },
        Direction::Down => if w < grid.data.len() - c {
            Some(c + w)
        } else {
            None
        },
        Direction::Left => if c > 0 && c % w != 0 {
            Some(c - 1)
        } else {
            None
        },
        Direction::Right => if c + 1 < grid.data.len() && (c + 1) % w != 0 {
            Some(c + 1)
        } else {
            proof {
                if c + 1 == grid.data.len() {
                    assert(grid.data.len() == grid.height * grid.width) by (nonlinear_arith)
                        requires
                            grid.data.len() == grid.width * grid.height,
                    ;
                    vstd::arithmetic::div_mod::lemma_mod_multiples_basic(
                        grid.height as int,
                        w as int,
                    );
                }
            }
            None
        },
    }
}

/// Lays out, for a push in a direction, which cells drag which.
fn drag_space(grid: &Grid, direction: Direction) -> (space: StateSpace)
    requires
        grid.wf(),
    ensures
        space.wf(),
        space.positive(),
        space.moves.len() == grid.data.len(),
        space.links() == drag_links(grid@, direction),
{
    let ghost b = grid@;
    let ghost links = drag_links(b, direction);
    let cells = grid.data.len();
    let mut moves: Vec<Vec<Step>> = Vec::new();
    let mut x: usize = 0;
    while x < cells
        invariant
            x <= cells,
            b == grid@,
            links == drag_links(b, direction),
            grid.wf(),
            cells == grid.data.len(),
            moves.len() == x,
            laid_out(moves@, links),
        decreases cells - x,
    {
        let mut out: Vec<Step> = Vec::new();
        assert(forall|y: int| !leads_to(out@, y));
        match step_from(grid, direction, x) {
            Some(n) => {
                let ch = grid.data[n];
                if ch != FREE && ch != WALL {
                    offer(&mut out, true, n);
                    if direction.is_vertical() {
                        let other = if ch == LEFT_HALF {
                            step_from(grid, Direction::Right, n)
                        } else if ch == RIGHT_HALF {
                            step_from(grid, Direction::Left, n)
                        } else {
                            None
                        };
                        match other {
                            Some(p) => {
                                offer(&mut out, true, p);
                            },
                            None => {},
                        }
                    }
                }
            },
            None => {},
        }
        proof {
            assert forall|y: int| #![trigger leads_to(out@, y)] leads_to(out@, y) <==> links(
                x as int,
                y,
                1,
            ) by {}
        }
        add_state(&mut moves, out, Ghost(links));
        x += 1;
    }
    close_space(moves, Ghost(links))
}

/// Pushes the cell with index `from` one step: it moves, together with
/// everything that it drags along, unless a wall or the edge of the
/// warehouse holds any of it, in which case nothing moves. Tells whether
/// anything has moved.
fn push_cell(grid: &mut Grid, from: usize, direction: Direction) -> (moved: bool)
    requires
        old(grid).wf(),
        from < old(grid).data.len(),
    ensures
        final(grid).wf(),
        final(grid)@ == pushed(old(grid)@, direction, from as int),
        moved == !stuck(old(grid)@, direction, from as int),
{
    let ghost b = grid@;
    let ghost links = drag_links(b, direction);
    let cells = grid.data.len();
    let space = drag_space(grid, direction);
    let mut seeds: Vec<usize> = Vec::new();
    seeds.push(from);
    assert(seeds@ =~= seq![from]);
    let cache = explore(&space, &seeds);
    proof {
        assert(charted(links, seq![from], cache.best@));
        assert(unit_links(links, cells as int));
        assert forall|c: int| 0 <= c < cells implies (#[trigger] cache.best[c] is Some <==> must_move(
            b,
            direction,
            from as int,
            c,
        )) by {
            lemma_seen_is_reached(links, seq![from], cache.best@, c);
            assert(seq![from] =~= seq![(from as int) as usize]);
        }
    }
    let mut c: usize = 0;
    while c < cells
        invariant
            c <= cells,
            b == grid@,
            grid.wf(),
            cells == grid.data.len(),
            cache.best.len() == cells,
            forall|k: int|
                0 <= k < cells ==> (#[trigger] cache.best[k] is Some <==> must_move(
                    b,
                    direction,
                    from as int,
                    k,
                )),
            forall|k: int|
                0 <= k < c && #[trigger] must_move(b, direction, from as int, k) ==> !held(
                    b,
                    direction,
                    k,
                ),
        decreases cells - c,
    {
        if cache.best[c].is_some() {
            let free = match step_from(grid, direction, c) {
                Some(n) => grid.data[n] != WALL,
                None => false,
            };
            if !free {
                assert(must_move(b, direction, from as int, c as int) && held(
                    b,
                    direction,
                    c as int,
                ));
                return false;
            }
        }
        c += 1;
    }
    assert(!stuck(b, direction, from as int));
    let against = direction.reversed();
    let mut fresh: Vec<char> = Vec::new();
    let mut c: usize = 0;
    while c < cells
        invariant
            c <= cells,
            b == grid@,
            grid.wf(),
            cells == grid.data.len(),
            cache.best.len() == cells,
            against == crate::day15::against(direction),
            forall|k: int|
                0 <= k < cells ==> (#[trigger] cache.best[k] is Some <==> must_move(
                    b,
                    direction,
                    from as int,
                    k,
                )),
            fresh.len() == c,
            forall|k: int| 0 <= k < c ==> #[trigger] fresh[k] == shifted(b, direction, from as int, k),
        decreases cells - c,
    {
        let drawn = match step_from(grid, against, c) {
            Some(m) => if cache.best[m].is_some() {
                Some(grid.data[m])
            } else {
                None
            },
            None => None,
        };
        let ch = match drawn {
            Some(x) => x,
            None => if cache.best[c].is_some() {
                FREE
            } else {
                grid.data[c]
            },
        };
        fresh.push(ch);
        c += 1;
    }
    grid.data = fresh;
    assert(grid@.data =~= pushed(b, direction, from as int).data);
    true
}

/// The map of the warehouse and the moves that the robot attempts.
#[derive(Debug)]
pub struct Input {
    pub map: Grid,
    pub sequence: Vec<char>,
}

/// Whether a position lies inside the warehouse.
pub open spec fn inside(b: Board, p: Position) -> bool {
    p.row < b.height && p.col < b.width
}

/// The index of the cell at a position, counting cells row after row.
pub open spec fn index_of(b: Board, p: Position) -> int {
    p.row * b.width + p.col
}

/// The index of the first cell that holds the robot; the number of cells
/// if none does.
pub open spec fn robot_of(b: Board) -> int {
    find_char(b.data, ROBOT, 0)
}

/// The direction that a character of the list of moves stands for.
pub open spec fn direction_of(c: char) -> Option<Direction> {
    if c == '^' {
        Some(Direction::Up)
    } else if c == '>' {
        Some(Direction::Right)
    } else if c == 'v' {
        Some(Direction::Down)
    } else if c == '<' {
        Some(Direction::Left)
    } else {
        None
    }
}

/// The warehouse after the robot has attempted the first `n` moves of a
/// list. `MissingSeed` when the warehouse has lost its robot before one of
/// them, `MalformedInput` when one of them is no direction.
pub open spec fn outcome(b: Board, moves: Seq<char>, n: int) -> Result<Board, PuzzleError>
    decreases n,
{
    if n <= 0 {
        Ok(b)
    } else {
        match outcome(b, moves, n - 1) {
            Err(e) => Err(e),
            Ok(before) => if robot_of(before) >= before.data.len() {
                Err(PuzzleError::MissingSeed)
            } else {
                match direction_of(moves[n - 1]) {
                    None => Err(PuzzleError::MalformedInput),
                    Some(d) => Ok(pushed(before, d, robot_of(before))),
                }
            },
        }
    }
}

impl Position {
    /// The position one step away in a direction.
    pub fn go_to(&self, direction: Direction) -> (r: Position)
        requires
            direction == Direction::Up ==> self.row > 0,
            direction == Direction::Down ==> self.row < usize::MAX,
            direction == Direction::Left ==> self.col > 0,
            direction == Direction::Right ==> self.col < usize::MAX,
        ensures
            r == match direction {
                Direction::Up => Position { row: (self.row - 1) as usize, col: self.col },
                Direction::Right => Position { row: self.row, col: (self.col + 1) as usize },
                Direction::Down => Position { row: (self.row + 1) as usize, col: self.col },
                Direction::Left => Position { row: self.row, col: (self.col - 1) as usize },
            },
    {
        match direction {
            Direction::Up => Position { row: self.row - 1, col: self.col },
            Direction::Right => Position { row: self.row, col: self.col + 1 },
            Direction::Down => Position { row: self.row + 1, col: self.col },
            Direction::Left => Position { row: self.row, col: self.col - 1 },
        }
    }
}

/// Whether a cell of the warehouse is a wall.
pub fn is_wall(grid: &Grid, position: &Position) -> (r: bool)
    requires
        grid.wf(),
        inside(grid@, *position),
    ensures
        r == (grid@.data[index_of(grid@, *position)] == WALL),
{
    match grid.get_at(position.row, position.col) {
        Some(c) => c == WALL,
        None => false,
    }
}

/// Whether a cell of the warehouse is free.
pub fn is_empty(grid: &Grid, position: &Position) -> (r: bool)
    requires
        grid.wf(),
        inside(grid@, *position),
    ensures
        r == (grid@.data[index_of(grid@, *position)] == FREE),
{
    match grid.get_at(position.row, position.col) {
        Some(c) => c == FREE,
        None => false,
    }
}

/// The index of the first cell that holds the robot.
fn robot_index(grid: &Grid) -> (r: Option<usize>)
    ensures
        match r {
            Some(k) => k == robot_of(grid@) && k < grid.data.len(),
            None => robot_of(grid@) >= grid.data.len(),
        },
{
    let mut k: usize = 0;
    while k < grid.data.len()
        invariant
            k <= grid.data.len(),
            find_char(grid.data@, ROBOT, 0) == find_char(grid.data@, ROBOT, k as int),
        decreases grid.data.len() - k,
    {
        if grid.data[k] == ROBOT {
            return Some(k);
        }
        k += 1;
    }
    None
}

/// The position of the robot: the first cell, row after row, that holds it.
pub fn get_robot_pos(grid: &Grid) -> (r: Option<Position>)
    requires
        grid.wf(),
    ensures
        match r {
            Some(p) => inside(grid@, p) && index_of(grid@, p) == robot_of(grid@),
            None => robot_of(grid@) >= grid.data.len(),
        },
{
    match robot_index(grid) {
        Some(k) => {
            proof {
                assert(grid.width * grid.height == grid.height * grid.width) by (nonlinear_arith);
                lemma_index_cell(k as int, grid.height as int, grid.width as int);
            }
            Some(Position { row: k / grid.width, col: k % grid.width })
        },
        None => None,
    }
}

/// Pushes what stands at a position one step in a direction: it moves,
/// together with every box that it pushes along, and leaves a free cell
/// behind; or nothing moves at all, when a wall or the edge of the
/// warehouse is in the way of any of them. In a push up or down, a box
/// of two cells moves as a whole.
pub fn move_boxes_in_direction(grid: &mut Grid, elem_pos: &Position, direction: Direction)
    requires
        old(grid).wf(),
        inside(old(grid)@, *elem_pos),
    ensures
        final(grid).wf(),
        final(grid)@ == pushed(old(grid)@, direction, index_of(old(grid)@, *elem_pos)),
{
    proof {
        lemma_cell_index(
            elem_pos.row as int,
            elem_pos.col as int,
            grid.height as int,
            grid.width as int,
        );
        assert(grid.width * grid.height == grid.height * grid.width) by (nonlinear_arith);
    }
    let from = elem_pos.row * grid.width + elem_pos.col;
    push_cell(grid, from, direction);
}

/// Whether a push of what stands at a position moves anything.
pub fn can_it_move(grid: &Grid, initial_pos: &Position, direction: Direction) -> (r: bool)
    requires
        grid.wf(),
        inside(grid@, *initial_pos),
    ensures
        r == !stuck(grid@, direction, index_of(grid@, *initial_pos)),
{
    proof {
        lemma_cell_index(
            initial_pos.row as int,
            initial_pos.col as int,
            grid.height as int,
            grid.width as int,
        );
        assert(grid.width * grid.height == grid.height * grid.width) by (nonlinear_arith);
    }
    let from = initial_pos.row * grid.width + initial_pos.col;
    let mut copy = grid.duplicate();
    assert(copy@ == grid@);
    push_cell(&mut copy, from, direction)
}

/// Lets the robot attempt one move. Fails with `MissingSeed`, and leaves
/// the warehouse as it is, when there is no robot.
pub fn move_robot(grid: &mut Grid, direction: Direction) -> (r: Result<(), PuzzleError>)
    requires
        old(grid).wf(),
    ensures
        final(grid).wf(),
        match r {
            Ok(_) => robot_of(old(grid)@) < old(grid).data.len() && final(grid)@ == pushed(
                old(grid)@,
                direction,
                robot_of(old(grid)@),
            ),
            Err(e) => e == PuzzleError::MissingSeed && robot_of(old(grid)@) >= old(grid).data.len()
                && final(grid)@ == old(grid)@,
        },
{
    match robot_index(grid) {
        Some(from) => {
            push_cell(grid, from, direction);
            Ok(())
        },
        None => Err(PuzzleError::MissingSeed),
    }
}

/// Reads a character of the list of moves.
fn read_direction(c: char) -> (r: Option<Direction>)
    ensures
        r == direction_of(c),
{
    if c == '^' {
        Some(Direction::Up)
    } else if c == '>' {
        Some(Direction::Right)
    } else if c == 'v' {
        Some(Direction::Down)
    } else if c == '<' {
        Some(Direction::Left)
    } else {
        None
    }
}

/// Lets the robot attempt a list of moves, one after the other, on a copy
/// of the warehouse, and returns the copy.
///
/// Fails with `MissingSeed` when the warehouse has no robot and a move is
/// left to make, and with `MalformedInput` when a move is none of `^`,
/// `>`, `v` and `<`.
pub fn apply_sequence(grid: &Grid, sequence: &Vec<char>) -> (r: Result<Grid, PuzzleError>)
    requires
        grid.wf(),
    ensures
        match r {
            Ok(g) => g.wf() && outcome(grid@, sequence@, sequence.len() as int) == Ok::<
                Board,
                PuzzleError,
            >(g@),
            Err(e) => outcome(grid@, sequence@, sequence.len() as int) == Err::<Board, PuzzleError>(
                e,
            ),
        },
{
    let mut current = grid.duplicate();
    assert(current@ == grid@);
    let mut i: usize = 0;
    while i < sequence.len()
        invariant
            i <= sequence.len(),
            current.wf(),
            outcome(grid@, sequence@, i as int) == Ok::<Board, PuzzleError>(current@),
        decreases sequence.len() - i,
    {
        let from = match robot_index(&current) {
            Some(k) => k,
            None => {
                proof {
                    lemma_failed(grid@, sequence@, i + 1, sequence.len() as int);
                }
                return Err(PuzzleError::MissingSeed);
            },
        };
        let direction = match read_direction(sequence[i]) {
            Some(d) => d,
            None => {
                proof {
                    lemma_failed(grid@, sequence@, i + 1, sequence.len() as int);
                }
                return Err(PuzzleError::MalformedInput);
            },
        };
        push_cell(&mut current, from, direction);
        i += 1;
    }
    Ok(current)
}

/// Once a move has failed, the whole list has.
proof fn lemma_failed(b: Board, moves: Seq<char>, k: int, n: int)
    requires
        0 <= k <= n,
        outcome(b, moves, k) is Err,
    ensures
        outcome(b, moves, n) == outcome(b, moves, k),
    decreases n - k,
{
    if k < n {
        lemma_failed(b, moves, k, n - 1);
    }
}

/// Lets the robot attempt a list of moves in a warehouse whose boxes take
/// up two cells. The rules are those of `apply_sequence`.
pub fn apply_sequence_for_extended_map(grid: &Grid, sequence: &Vec<char>) -> (r: Result<
    Grid,
    PuzzleError,
>)
    requires
        grid.wf(),
    ensures
        match r {
            Ok(g) => g.wf() && outcome(grid@, sequence@, sequence.len() as int) == Ok::<
                Board,
                PuzzleError,
            >(g@),
            Err(e) => outcome(grid@, sequence@, sequence.len() as int) == Err::<Board, PuzzleError>(
                e,
            ),
        },
{
    let mut current = grid.duplicate();
    assert(current@ == grid@);
    let mut i: usize = 0;
    while i < sequence.len()
        invariant
            i <= sequence.len(),
            current.wf(),
            outcome(grid@, sequence@, i as int) == Ok::<Board, PuzzleError>(current@),
        decreases sequence.len() - i,
    {
        let ghost before = current@;
        let direction = read_direction(sequence[i]);
        let moved = match direction {
            Some(d) => move_robot(&mut current, d),
            None => match robot_index(&current) {
                Some(_) => Err(PuzzleError::MalformedInput),
                None => Err(PuzzleError::MissingSeed),
            },
        };
        match moved {
            Ok(_) => {},
            Err(e) => {
                proof {
                    lemma_failed(grid@, sequence@, i + 1, sequence.len() as int);
                }
                return Err(e);
            },
        }
        i += 1;
    }
    Ok(current)
}

/// What the `k`-th cell adds to the sum of the coordinates: a hundred times
/// its row plus its column if it holds a box or the left half of one.
pub open spec fn coordinate_at(b: Board) -> spec_fn(int) -> int {
    |k: int|
        if b.data[k] == CRATE || b.data[k] == LEFT_HALF {
            (k / b.width) * 100 + k % b.width
        } else {
            0
        }
}

/// The sum of the coordinates of all boxes.
pub open spec fn coordinates(b: Board) -> int {
    sum_below(b.data.len() as int, coordinate_at(b))
}

/// The sum of the coordinates of all boxes: for each, a hundred times its
/// row plus its column, a box of two cells counting by its left half.
pub fn calculate_grid(grid: &Grid) -> (r: usize)
    requires
        grid.wf(),
        coordinates(grid@) <= usize::MAX,
    ensures
        r == coordinates(grid@),
{
    let mut total: usize = 0;
    let mut k: usize = 0;
    proof {
        assert(grid.width * grid.height == grid.height * grid.width) by (nonlinear_arith);
    }
    while k < grid.data.len()
        invariant
            k <= grid.data.len(),
            grid.wf(),
            grid.data.len() == grid.height * grid.width,
            coordinates(grid@) <= usize::MAX,
            total == sum_below(k as int, coordinate_at(grid@)),
        decreases grid.data.len() - k,
    {
        proof {
            assert forall|j: int| 0 <= j < grid.data.len() implies 0 <= #[trigger] coordinate_at(
                grid@,
            )(j) by {
                lemma_index_cell(j, grid.height as int, grid.width as int);
            }
            lemma_sum_grows(k + 1, grid.data.len() as int, coordinate_at(grid@));
            lemma_sum_grows(k as int, k + 1, coordinate_at(grid@));
            lemma_index_cell(k as int, grid.height as int, grid.width as int);
        }
        let c = grid.data[k];
        if c == CRATE || c == LEFT_HALF {
            let row = k / grid.width;
            let col = k % grid.width;
            total += row * 100 + col;
        }
        k += 1;
    }
    total
}

/// What a cell of the warehouse becomes when the warehouse is made twice
/// as wide: its left half for `half` zero, its right half for `half` one.
pub open spec fn wide(c: char, half: int) -> char {
    if c == CRATE {
        if half == 0 {
            LEFT_HALF
        } else {
            RIGHT_HALF
        }
    } else if c == ROBOT && half != 0 {
        FREE
    } else {
        c
    }
}

/// Whether a character may stand in a warehouse that is to be made wider.
pub open spec fn extensible(c: char) -> bool {
    c == WALL || c == CRATE || c == FREE || c == ROBOT
}

/// Whether every cell of the warehouse may be made wider.
pub open spec fn all_extensible(b: Board) -> bool {
    forall|k: int| 0 <= k < b.data.len() ==> extensible(#[trigger] b.data[k])
}

/// The warehouse made twice as wide.
pub open spec fn extended(b: Board) -> Board {
    Board {
        width: 2 * b.width,
        height: b.height,
        data: Seq::new(2 * b.data.len(), |i: int| wide(b.data[i / 2], i % 2)),
    }
}

/// Makes the warehouse twice as wide: a wall becomes two walls, a box a
/// box of two cells, a free cell two free cells, and the robot the robot
/// and a free cell. Fails with `InvalidCell`, and leaves the warehouse as
/// it is, when a cell holds anything else.
pub fn extend(grid: &mut Grid) -> (r: Result<(), PuzzleError>)
    requires
        old(grid).wf(),
        2 * old(grid).data.len() <= usize::MAX,
    ensures
        match r {
            Ok(_) => {
                &&& all_extensible(old(grid)@)
                &&& final(grid)@ == extended(old(grid)@)
                &&& final(grid).wf()
            },
            Err(e) => e == PuzzleError::InvalidCell && !all_extensible(old(grid)@) && final(grid)@
                == old(grid)@,
        },
{
    let mut fresh: Vec<char> = Vec::new();
    let mut k: usize = 0;
    while k < grid.data.len()
        invariant
            k <= grid.data.len(),
            *grid == *old(grid),
            fresh.len() == 2 * k,
            forall|j: int| 0 <= j < k ==> extensible(#[trigger] grid.data[j]),
            forall|i: int| 0 <= i < 2 * k ==> #[trigger] fresh[i] == wide(grid.data[i / 2], i % 2),
        decreases grid.data.len() - k,
    {
        let c = grid.data[k];
        if !(c == WALL || c == CRATE || c == FREE || c == ROBOT) {
            assert(!extensible(grid@.data[k as int]));
            return Err(PuzzleError::InvalidCell);
        }
        let (left, right) = if c == CRATE {
            (LEFT_HALF, RIGHT_HALF)
        } else if c == ROBOT {
            (ROBOT, FREE)
        } else {
            (c, c)
        };
        fresh.push(left);
        fresh.push(right);
        k += 1;
    }
    proof {
        assert(2 * grid.width * grid.height == 2 * (grid.width * grid.height))
            by (nonlinear_arith);
        assert(2 * grid.width <= 2 * (grid.width * grid.height)) by (nonlinear_arith)
            requires
                grid.height >= 1,
                grid.width >= 1,
        ;
    }
    let ghost before = grid@;
    grid.width = 2 * grid.width;
    grid.data = fresh;
    assert(grid@.data =~= extended(before).data);
    Ok(())
}

/// The index of the first empty line at or after `from`; the number of
/// lines if there is none.
pub open spec fn first_blank(ls: Seq<Seq<char>>, from: int) -> int
    decreases ls.len() - from,
{
    if from >= ls.len() {
        ls.len() as int
    } else if ls[from].len() == 0 {
        from
    } else {
        first_blank(ls, from + 1)
    }
}

/// The lines that draw the warehouse: those before the first empty line.
pub open spec fn plan(ls: Seq<Seq<char>>) -> Seq<Seq<char>> {
    ls.take(first_blank(ls, 0))
}

/// The lines from `from` up to, not including, `upto`, one after the other.
pub open spec fn joined(ls: Seq<Seq<char>>, from: int, upto: int) -> Seq<char>
    decreases upto - from,
{
    if upto <= from {
        Seq::empty()
    } else {
        joined(ls, from, upto - 1) + ls[upto - 1]
    }
}

/// The list of moves: the lines after the first empty line, one after the other.
pub open spec fn move_list(ls: Seq<Seq<char>>) -> Seq<char> {
    joined(ls, first_blank(ls, 0) + 1, ls.len() as int)
}

/// Reads the drawing of a warehouse and, after an empty line, the moves of
/// the robot, which may run over several lines. Fails when the lines of
/// the drawing do not make a rectangle.
pub fn parse(input: &str) -> (r: Result<Input, PuzzleError>)
    ensures
        match r {
            Ok(parsed) => {
                &&& rectangular(plan(lines(input@)))
                &&& parsed.map.shows(plan(lines(input@)))
                &&& parsed.sequence@ == move_list(lines(input@))
            },
            Err(e) => e == PuzzleError::MalformedInput && !rectangular(plan(lines(input@))),
        },
{
    let text = chars_of(input);
    let all = split_lines(&text);
    let ghost ls = lines(input@);
    assert(rows(all@).len() == all.len());
    let mut drawing: Vec<Vec<char>> = Vec::new();
    let mut k: usize = 0;
    while k < all.len() && all[k].len() != 0
        invariant
            k <= all.len(),
            rows(all@) == ls,
            all.len() == ls.len(),
            first_blank(ls, 0) == first_blank(ls, k as int),
            rows(drawing@) == ls.take(k as int),
        decreases all.len() - k,
    {
        assert(ls[k as int] == all[k as int]@);
        let row = copy_range(&all[k], 0, all[k].len());
        assert(row@ =~= all[k as int]@);
        let ghost before = drawing@;
        drawing.push(row);
        k += 1;
        assert(rows(drawing@) =~= rows(before).push(row@));
        assert(ls.take(k as int) =~= ls.take(k - 1).push(ls[k - 1]));
    }
    proof {
        if k < all.len() {
            assert(ls[k as int] == all[k as int]@);
        }
        assert(k == first_blank(ls, 0));
    }
    let map = match Grid::from_rows(&drawing) {
        Ok(g) => g,
        Err(e) => {
            return Err(e);
        },
    };
    let mut sequence: Vec<char> = Vec::new();
    if k < all.len() {
        let mut i: usize = k + 1;
        while i < all.len()
            invariant
                k + 1 <= i <= all.len(),
                rows(all@) == ls,
                all.len() == ls.len(),
                sequence@ == joined(ls, k + 1, i as int),
            decreases all.len() - i,
        {
            assert(ls[i as int] == all[i as int]@);
            let line = &all[i];
            let ghost start = sequence@;
            let mut j: usize = 0;
            while j < line.len()
                invariant
                    j <= line.len(),
                    sequence@ == start + line@.take(j as int),
                decreases line.len() - j,
            {
                sequence.push(line[j]);
                j += 1;
                assert(sequence@ =~= start + line@.take(j as int));
            }
            assert(line@.take(line.len() as int) =~= line@);
            i += 1;
        }
    }
    Ok(Input { map, sequence })
}

/// The sum of the coordinates of the boxes after the robot has made its moves.
pub fn solve_1(input: &Input) -> (r: Result<usize, PuzzleError>)
    requires
        input.map.wf(),
        outcome(input.map@, input.sequence@, input.sequence.len() as int) is Ok ==> coordinates(
            outcome(input.map@, input.sequence@, input.sequence.len() as int)->Ok_0,
        ) <= usize::MAX,
    ensures
        match r {
            Ok(sum) => {
                &&& outcome(input.map@, input.sequence@, input.sequence.len() as int) is Ok
                &&& sum == coordinates(
                    outcome(input.map@, input.sequence@, input.sequence.len() as int)->Ok_0,
                )
            },
            Err(e) => outcome(input.map@, input.sequence@, input.sequence.len() as int) == Err::<
                Board,
                PuzzleError,
            >(e),
        },
{
    match apply_sequence(&input.map, &input.sequence) {
        Ok(grid) => Ok(calculate_grid(&grid)),
        Err(e) => Err(e),
    }
}

/// What becomes of a warehouse that is made twice as wide before the robot
/// makes its moves. `InvalidCell` when it cannot be made wider.
pub open spec fn wide_outcome(b: Board, moves: Seq<char>) -> Result<Board, PuzzleError> {
    if all_extensible(b) {
        outcome(extended(b), moves, moves.len() as int)
    } else {
        Err(PuzzleError::InvalidCell)
    }
}

/// The sum of the coordinates of the boxes after the warehouse has been
/// made twice as wide and the robot has made its moves.
pub fn solve_2(input: &Input) -> (r: Result<usize, PuzzleError>)
    requires
        input.map.wf(),
        2 * input.map.data.len() <= usize::MAX,
        wide_outcome(input.map@, input.sequence@) is Ok ==> coordinates(
            wide_outcome(input.map@, input.sequence@)->Ok_0,
        ) <= usize::MAX,
    ensures
        match r {
            Ok(sum) => {
                &&& wide_outcome(input.map@, input.sequence@) is Ok
                &&& sum == coordinates(wide_outcome(input.map@, input.sequence@)->Ok_0)
            },
            Err(e) => wide_outcome(input.map@, input.sequence@) == Err::<Board, PuzzleError>(e),
        },
{
    let mut map = input.map.duplicate();
    assert(map@ == input.map@);
    match extend(&mut map) {
        Ok(_) => {},
        Err(e) => {
            return Err(e);
        },
    }
    match apply_sequence_for_extended_map(&map, &input.sequence) {
        Ok(grid) => Ok(calculate_grid(&grid)),
        Err(e) => Err(e),
    }
}

/// Whether the sums of the coordinates that a text asks for fit in a
/// machine word, and the warehouse can be made twice as wide.
pub open spec fn workable(b: Board, moves: Seq<char>) -> bool {
    &&& 2 * b.data.len() <= usize::MAX
    &&& outcome(b, moves, moves.len() as int) is Ok ==> coordinates(
        outcome(b, moves, moves.len() as int)->Ok_0,
    ) <= usize::MAX
    &&& wide_outcome(b, moves) is Ok ==> coordinates(wide_outcome(b, moves)->Ok_0) <= usize::MAX
}

/// Both answers for a warehouse and a list of moves given as text: the sum
/// of the coordinates of the boxes after the moves, in the warehouse as it
/// is drawn and in the warehouse made twice as wide.
pub fn solve(input: &str) -> (r: Result<(usize, usize), PuzzleError>)
    requires
        rectangular(plan(lines(input@))) ==> workable(
            crate::grid::board_of(plan(lines(input@))),
            move_list(lines(input@)),
        ),
    ensures
        match r {
            Ok((narrow, broad)) => {
                let b = crate::grid::board_of(plan(lines(input@)));
                let moves = move_list(lines(input@));
                &&& rectangular(plan(lines(input@)))
                &&& outcome(b, moves, moves.len() as int) is Ok
                &&& narrow == coordinates(outcome(b, moves, moves.len() as int)->Ok_0)
                &&& wide_outcome(b, moves) is Ok
                &&& broad == coordinates(wide_outcome(b, moves)->Ok_0)
            },
            Err(e) => {
                let b = crate::grid::board_of(plan(lines(input@)));
                let moves = move_list(lines(input@));
                if !rectangular(plan(lines(input@))) {
                    e == PuzzleError::MalformedInput
                } else if outcome(b, moves, moves.len() as int) is Err {
                    outcome(b, moves, moves.len() as int) == Err::<Board, PuzzleError>(e)
                } else {
                    wide_outcome(b, moves) == Err::<Board, PuzzleError>(e)
                }
            },
        },
{
    let parsed = match parse(input) {
        Ok(p) => p,
        Err(e) => {
            return Err(e);
        },
    };
    proof {
        parsed.map.lemma_shows_board(plan(lines(input@)));
    }
    let narrow = match solve_1(&parsed) {
        Ok(n) => n,
        Err(e) => {
            return Err(e);
        },
    };
    let broad = match solve_2(&parsed) {
        Ok(n) => n,
        Err(e) => {
            return Err(e);
        },
    };
    Ok((narrow, broad))
}

} // verus!
