//! A guard who patrols a grid: straight on until an obstacle is in the way,
//! then a quarter turn to the right. Where the guard comes by, and which
//! single new obstacles make the patrol go round for ever.
use vstd::prelude::*;
use crate::counting::{
    count_below, lemma_count_bound, lemma_count_full, lemma_count_one_more, lemma_count_same,
    marks,
};
use crate::error::PuzzleError;
use crate::grid::{board_of, lemma_cell_index, rectangular, Board, Grid};
use crate::text::lines;

verus! {

/// The obstacle.
pub const WALL: char = '#';

/// The mark of the cell on which the guard starts, facing up.
pub const GUARD: char = '^';

/// The way the guard faces.
#[derive(Debug, Clone, Copy, PartialEq, Eq, Hash, Structural)]
pub enum Direction {
    Up,
    Down,
    Left,
    Right,
}

/// Where the guard stands and which way the guard faces.
#[derive(Debug, Clone, Copy, PartialEq, Eq, Hash, Structural)]
pub struct State {
    pub row: usize,
    pub col: usize,
    pub direction: Direction,
}

/// The direction a quarter turn to the right of `d`.
pub open spec fn turned(d: Direction) -> Direction {
    match d {
        Direction::Up => Direction::Right,
        Direction::Down => Direction::Left,
        Direction::Left => Direction::Up,
        Direction::Right => Direction::Down,
    }
}

/// The guard in the same place, facing `d`.
pub open spec fn facing(s: State, d: Direction) -> State {
    State { row: s.row, col: s.col, direction: d }
}

/// The position one step ahead of the guard.
pub open spec fn ahead(s: State) -> (int, int) {
    match s.direction {
        Direction::Up => (s.row - 1, s.col as int),
        Direction::Down => (s.row + 1, s.col as int),
        Direction::Left => (s.row as int, s.col - 1),
        Direction::Right => (s.row as int, s.col + 1),
    }
}

/// Whether an obstacle stands one step ahead of the guard.
pub open spec fn blocked(b: Board, s: State) -> bool {
    b.cell(ahead(s).0, ahead(s).1) == Some(WALL)
}

/// What one step straight on does when nothing is in the way: the guard
/// one cell further, or `None` when that cell is outside the grid.
pub open spec fn advance(b: Board, s: State) -> Option<State> {
    if b.cell(ahead(s).0, ahead(s).1) is Some {
        Some(State { row: ahead(s).0 as usize, col: ahead(s).1 as usize, direction: s.direction })
    } else {
        None
    }
}

/// The next state of the patrol: the guard turns right until nothing is in
/// the way and then takes one step, which may lead out of the grid
/// (`None`). A guard with an obstacle on all four sides stays as it is.
pub open spec fn next_state(b: Board, s: State) -> Option<State> {
    let s1 = facing(s, turned(s.direction));
    let s2 = facing(s, turned(s1.direction));
    let s3 = facing(s, turned(s2.direction));
    if !blocked(b, s) {
        advance(b, s)
    } else if !blocked(b, s1) {
        advance(b, s1)
    } else if !blocked(b, s2) {
        advance(b, s2)
    } else if !blocked(b, s3) {
        advance(b, s3)
    } else {
        Some(s)
    }
}

/// The state of the patrol after `k` steps; `None` once the guard has left the grid.
pub open spec fn walk(b: Board, s: State, k: int) -> Option<State>
    decreases k,
{
    if k <= 0 {
        Some(s)
    } else {
        match walk(b, s, k - 1) {
            Some(x) => next_state(b, x),
            None => None,
        }
    }
}

/// Whether the guard stands inside the grid.
pub open spec fn inside(b: Board, s: State) -> bool {
    s.row < b.height && s.col < b.width
}

/// The number of a direction.
pub open spec fn code(d: Direction) -> int {
    match d {
        Direction::Up => 0,
        Direction::Down => 1,
        Direction::Left => 2,
        Direction::Right => 3,
    }
}

/// The index of the cell on which the guard stands.
pub open spec fn spot(b: Board, s: State) -> int {
    s.row * b.width + s.col
}

/// The number of a state: every state inside the grid has its own.
pub open spec fn key(b: Board, s: State) -> int {
    code(s.direction) * (b.width * b.height) + spot(b, s)
}

/// Whether the patrol comes back, within its first `n` steps, to a state in
/// which it has been before.
pub open spec fn revisits_within(b: Board, s: State, n: int) -> bool {
    exists|i: int, j: int|
        0 <= i < j <= n && (#[trigger] walk(b, s, i)) is Some && walk(b, s, i) == #[trigger] walk(
            b,
            s,
            j,
        )
}

/// Whether the patrol ever comes back to a state in which it has been before.
pub open spec fn revisits(b: Board, s: State) -> bool {
    exists|i: int, j: int|
        0 <= i < j && (#[trigger] walk(b, s, i)) is Some && walk(b, s, i) == #[trigger] walk(b, s, j)
}

/// The cells, by index, on which the guard stands at some time of the patrol.
pub open spec fn stood_on(b: Board, s: State) -> spec_fn(int) -> bool {
    |c: int| exists|k: int| 0 <= k && (#[trigger] walk(b, s, k)) is Some && spot(b, walk(b, s, k)->0) == c
}

/// The new obstacles, by the index of their cell, that make the patrol come
/// back to a state in which it has been before.
pub open spec fn traps(b: Board, s: State) -> spec_fn(int) -> bool {
    |c: int| revisits(b.with(c, WALL), s)
}

/// States inside the grid have numbers of their own, and so have their cells.
proof fn lemma_key(b: Board, s: State, t: State)
    requires
        b.wf(),
        inside(b, s),
        inside(b, t),
    ensures
        0 <= spot(b, s) < b.width * b.height,
        0 <= key(b, s) < 4 * (b.width * b.height),
        key(b, s) == key(b, t) ==> s == t,
        spot(b, s) == spot(b, t) ==> s.row == t.row && s.col == t.col,
{
    let cells = b.width * b.height;
    assert(b.height * b.width == cells) by (nonlinear_arith)
        requires
            cells == b.width * b.height,
    ;
    lemma_cell_index(s.row as int, s.col as int, b.height, b.width);
    lemma_cell_index(t.row as int, t.col as int, b.height, b.width);
    lemma_cell_index(code(s.direction), spot(b, s), 4, cells);
    lemma_cell_index(code(t.direction), spot(b, t), 4, cells);
}

/// A step of the patrol leaves the guard inside the grid, or nowhere.
proof fn lemma_next_inside(b: Board, s: State)
    requires
        b.wf(),
        inside(b, s),
    ensures
        next_state(b, s) is Some ==> inside(b, next_state(b, s)->0),
{
}

/// Once the guard has left the grid, the guard stays away.
proof fn lemma_gone(b: Board, s: State, k: int, m: int)
    requires
        0 <= k <= m,
        walk(b, s, k) is None,
    ensures
        walk(b, s, m) is None,
    decreases m - k,
{
    if k < m {
        lemma_gone(b, s, k, m - 1);
    }
}

/// From two equal states the patrol goes on in the same way.
proof fn lemma_shift(b: Board, s: State, i: int, k: int, d: int)
    requires
        0 <= i,
        0 <= k,
        0 <= d,
        walk(b, s, i) == walk(b, s, k),
    ensures
        walk(b, s, i + d) == walk(b, s, k + d),
    decreases d,
{
    if d > 0 {
        lemma_shift(b, s, i, k, d - 1);
    }
}

/// A patrol that has come back to an earlier state after `k` steps is never
/// in a state in which it was not during its first `k` steps.
proof fn lemma_cycle(b: Board, s: State, i: int, k: int, m: int) -> (early: int)
    requires
        0 <= i < k,
        walk(b, s, i) == walk(b, s, k),
        0 <= m,
    ensures
        0 <= early < k,
        walk(b, s, early) == walk(b, s, m),
    decreases m,
{
    if m < k {
        m
    } else {
        lemma_shift(b, s, i, k, m - k);
        lemma_cycle(b, s, i, k, i + (m - k))
    }
}

impl Direction {
    /// The direction a quarter turn to the right.
    pub fn rotated_right(&self) -> (r: Direction)
        ensures
            r == turned(*self),
    {
        match self {
            Direction::Up => Direction::Right,
            Direction::Down => Direction::Left,
            Direction::Left => Direction::Up,
            Direction::Right => Direction::Down,
        }
    }
}

/// What stands one step ahead of the guard.
fn look_ahead(state: &State, grid: &Grid) -> (r: Option<char>)
    requires
        grid.wf(),
    ensures
        r == grid@.cell(ahead(*state).0, ahead(*state).1),
{
    let (down, right): (i64, i64) = match state.direction {
        Direction::Up => (-1, 0),
        Direction::Down => (1, 0),
        Direction::Left => (0, -1),
        Direction::Right => (0, 1),
    };
    grid.get_offset(state.row, state.col, down, right)
}

/// The guard one cell further on.
fn step_on(state: &State) -> (r: State)
    requires
        0 <= ahead(*state).0 <= usize::MAX,
        0 <= ahead(*state).1 <= usize::MAX,
    ensures
        r == (State {
            row: ahead(*state).0 as usize,
            col: ahead(*state).1 as usize,
            direction: state.direction,
        }),
{
    match state.direction {
        Direction::Up => State { row: state.row - 1, col: state.col, direction: state.direction },
        Direction::Down => State { row: state.row + 1, col: state.col, direction: state.direction },
        Direction::Left => State { row: state.row, col: state.col - 1, direction: state.direction },
        Direction::Right => State { row: state.row, col: state.col + 1, direction: state.direction },
    }
}

/// One step of the patrol: the guard turns right until nothing is in the
/// way and moves one cell on. `None` when that cell is outside the grid. A
/// guard with an obstacle on all four sides stays as it is.
pub fn step(state: &State, grid: &Grid) -> (r: Option<State>)
    requires
        grid.wf(),
    ensures
        r == next_state(grid@, *state),
{
    let mut current = *state;
    let mut tries: usize = 0;
    while tries < 4
        invariant
            tries <= 4,
            grid.wf(),
            current.row == state.row,
            current.col == state.col,
            tries == 0 ==> current == *state,
            tries == 1 ==> current == facing(*state, turned(state.direction)) && blocked(
                grid@,
                *state,
            ),
            tries == 2 ==> current == facing(*state, turned(turned(state.direction))) && blocked(
                grid@,
                *state,
            ) && blocked(grid@, facing(*state, turned(state.direction))),
            tries == 3 ==> current == facing(*state, turned(turned(turned(state.direction))))
                && blocked(grid@, *state) && blocked(
                grid@,
                facing(*state, turned(state.direction)),
            ) && blocked(grid@, facing(*state, turned(turned(state.direction)))),
            tries == 4 ==> blocked(grid@, *state) && blocked(
                grid@,
                facing(*state, turned(state.direction)),
            ) && blocked(grid@, facing(*state, turned(turned(state.direction)))) && blocked(
                grid@,
                facing(*state, turned(turned(turned(state.direction)))),
            ),
        decreases 4 - tries,
    {
        match look_ahead(&current, grid) {
            None => {
                return None;
            },
            Some(c) => {
                if c != WALL {
                    return Some(step_on(&current));
                }
            },
        }
        current = State {
            row: current.row,
            col: current.col,
            direction: current.direction.rotated_right(),
        };
        tries += 1;
    }
    Some(*state)
}

/// Whether the marks record the first `k` states of the patrol, which are
/// all different: `visited` marks their numbers, `seen` their cells.
pub open spec fn logged(b: Board, s: State, k: int, visited: Seq<bool>, seen: Seq<bool>) -> bool {
    &&& visited.len() == 4 * (b.width * b.height)
    &&& seen.len() == b.width * b.height
    &&& 0 <= k
    &&& forall|i: int|
        0 <= i < k ==> (#[trigger] walk(b, s, i)) is Some && inside(b, walk(b, s, i)->0)
            && visited[key(b, walk(b, s, i)->0)] && seen[spot(b, walk(b, s, i)->0)]
    &&& forall|c: int|
        0 <= c < visited.len() && #[trigger] visited[c] ==> exists|i: int|
            0 <= i < k && (#[trigger] walk(b, s, i)) is Some && key(b, walk(b, s, i)->0) == c
    &&& forall|c: int|
        0 <= c < seen.len() && #[trigger] seen[c] ==> exists|i: int|
            0 <= i < k && (#[trigger] walk(b, s, i)) is Some && spot(b, walk(b, s, i)->0) == c
    &&& forall|i: int, j: int|
        0 <= i < j < k ==> #[trigger] walk(b, s, i) != #[trigger] walk(b, s, j)
    &&& count_below(visited.len() as int, marks(visited)) == k
}

/// Recording a state that is new keeps the record in order.
proof fn lemma_log_step(b: Board, s: State, k: int, visited: Seq<bool>, seen: Seq<bool>, current: State)
    requires
        b.wf(),
        logged(b, s, k, visited, seen),
        walk(b, s, k) == Some(current),
        inside(b, current),
        !visited[key(b, current)],
    ensures
        0 <= key(b, current) < visited.len(),
        0 <= spot(b, current) < seen.len(),
        k < visited.len(),
        logged(
            b,
            s,
            k + 1,
            visited.update(key(b, current), true),
            seen.update(spot(b, current), true),
        ),
        count_below(seen.len() as int, marks(seen.update(spot(b, current), true))) == count_below(
            seen.len() as int,
            marks(seen),
        ) + if seen[spot(b, current)] {
            0int
        } else {
            1int
        },
{
    lemma_key(b, current, current);
    let index = key(b, current);
    let place = spot(b, current);
    let total = visited.len() as int;
    let cells = seen.len() as int;
    let visited2 = visited.update(index, true);
    let seen2 = seen.update(place, true);
    lemma_count_bound(total, marks(visited));
    if k == total {
        lemma_count_full(total, marks(visited));
        assert(marks(visited)(index));
    }
    lemma_count_one_more(total, marks(visited), marks(visited2), index);
    if seen[place] {
        lemma_count_same(cells, marks(seen), marks(seen2));
    } else {
        lemma_count_one_more(cells, marks(seen), marks(seen2), place);
    }
    assert forall|i: int, j: int| 0 <= i < j < k + 1 implies #[trigger] walk(b, s, i)
        != #[trigger] walk(b, s, j) by {
        if j == k && walk(b, s, i) == walk(b, s, j) {
            assert(visited[key(b, walk(b, s, i)->0)]);
        }
    }
    assert forall|c: int| 0 <= c < visited2.len() && #[trigger] visited2[c] implies exists|i: int|
        0 <= i < k + 1 && (#[trigger] walk(b, s, i)) is Some && key(b, walk(b, s, i)->0) == c by {
        if c == index {
            assert(walk(b, s, k) is Some && key(b, walk(b, s, k)->0) == c);
        } else {
            assert(visited[c]);
            let i = choose|i: int|
                0 <= i < k && (#[trigger] walk(b, s, i)) is Some && key(b, walk(b, s, i)->0) == c;
            assert(0 <= i < k + 1);
        }
    }
    assert forall|c: int| 0 <= c < seen2.len() && #[trigger] seen2[c] implies exists|i: int|
        0 <= i < k + 1 && (#[trigger] walk(b, s, i)) is Some && spot(b, walk(b, s, i)->0) == c by {
        if c == place {
            assert(walk(b, s, k) is Some && spot(b, walk(b, s, k)->0) == c);
        } else {
            assert(seen[c]);
            let i = choose|i: int|
                0 <= i < k && (#[trigger] walk(b, s, i)) is Some && spot(b, walk(b, s, i)->0) == c;
            assert(0 <= i < k + 1);
        }
    }
    assert forall|i: int| 0 <= i < k + 1 implies (#[trigger] walk(b, s, i)) is Some && inside(
        b,
        walk(b, s, i)->0,
    ) && visited2[key(b, walk(b, s, i)->0)] && seen2[spot(b, walk(b, s, i)->0)] by {
        if i < k {
            lemma_key(b, walk(b, s, i)->0, current);
        }
    }
}

/// A state that was recorded before closes a round: the patrol goes on for
/// ever, over the cells that are marked and no others.
proof fn lemma_log_repeat(b: Board, s: State, k: int, visited: Seq<bool>, seen: Seq<bool>, current: State)
    requires
        b.wf(),
        logged(b, s, k, visited, seen),
        walk(b, s, k) == Some(current),
        inside(b, current),
        visited[key(b, current)],
    ensures
        revisits(b, s),
        revisits_within(b, s, visited.len() as int),
        forall|c: int| 0 <= c < seen.len() ==> #[trigger] marks(seen)(c) == stood_on(b, s)(c),
{
    lemma_key(b, current, current);
    let index = key(b, current);
    let i = choose|i: int|
        0 <= i < k && (#[trigger] walk(b, s, i)) is Some && key(b, walk(b, s, i)->0) == index;
    lemma_key(b, walk(b, s, i)->0, current);
    assert(walk(b, s, i) == walk(b, s, k));
    lemma_count_bound(visited.len() as int, marks(visited));
    assert forall|c: int| 0 <= c < seen.len() implies #[trigger] marks(seen)(c) == stood_on(b, s)(
        c,
    ) by {
        if stood_on(b, s)(c) {
            let m = choose|m: int|
                0 <= m && (#[trigger] walk(b, s, m)) is Some && spot(b, walk(b, s, m)->0) == c;
            let early = lemma_cycle(b, s, i, k, m);
            assert(seen[spot(b, walk(b, s, early)->0)]);
        }
    }
}

/// A patrol that has left the grid has been in no state twice, and has
/// stood on the cells that are marked and no others.
proof fn lemma_log_gone(b: Board, s: State, k: int, visited: Seq<bool>, seen: Seq<bool>)
    requires
        b.wf(),
        logged(b, s, k, visited, seen),
        walk(b, s, k) is None,
    ensures
        !revisits(b, s),
        !revisits_within(b, s, visited.len() as int),
        forall|c: int| 0 <= c < seen.len() ==> #[trigger] marks(seen)(c) == stood_on(b, s)(c),
{
    assert forall|i: int, j: int|
        0 <= i < j && (#[trigger] walk(b, s, i)) is Some implies walk(b, s, i) != #[trigger] walk(
        b,
        s,
        j,
    ) by {
        if j >= k {
            lemma_gone(b, s, k, j);
        }
    }
    assert forall|c: int| 0 <= c < seen.len() implies #[trigger] marks(seen)(c) == stood_on(b, s)(
        c,
    ) by {
        if stood_on(b, s)(c) {
            let m = choose|m: int|
                0 <= m && (#[trigger] walk(b, s, m)) is Some && spot(b, walk(b, s, m)->0) == c;
            if m >= k {
                lemma_gone(b, s, k, m);
            }
            assert(seen[spot(b, walk(b, s, m)->0)]);
        }
    }
}

/// A list of `n` marks, none of them set.
fn blank(n: usize) -> (r: Vec<bool>)
    ensures
        r.len() == n,
        forall|i: int| 0 <= i < n ==> !r[i],
        count_below(n as int, marks(r@)) == 0,
{
    let mut out: Vec<bool> = Vec::new();
    let mut i: usize = 0;
    while i < n
        invariant
            i <= n,
            out.len() == i,
            forall|j: int| 0 <= j < i ==> !out[j],
        decreases n - i,
    {
        out.push(false);
        i += 1;
    }
    proof {
        crate::counting::lemma_count_zero(n as int, marks(out@));
    }
    out
}

/// Follows the patrol until the guard leaves the grid or comes back to an
/// earlier state. Tells which of the two happened, and on how many cells
/// the guard has stood.
fn patrol(state: State, grid: &Grid) -> (r: (bool, usize))
    requires
        grid.wf(),
        inside(grid@, state),
        4 * grid.data.len() <= usize::MAX,
    ensures
        r.0 == revisits(grid@, state),
        r.0 == revisits_within(grid@, state, 4 * grid.data.len()),
        r.1 == count_below(grid.data.len() as int, stood_on(grid@, state)),
{
    let ghost b = grid@;
    let cells = grid.data.len();
    let total = 4 * cells;
    let mut visited = blank(total);
    let mut seen = blank(cells);
    let mut current = state;
    let mut positions: usize = 0;
    let ghost mut k: int = 0;
    loop
        invariant
            b == grid@,
            grid.wf(),
            cells == grid.data.len(),
            total == 4 * cells,
            logged(b, state, k, visited@, seen@),
            walk(b, state, k) == Some(current),
            inside(b, current),
            positions == count_below(cells as int, marks(seen@)),
        decreases total - k,
    {
        proof {
            lemma_key(b, current, current);
            lemma_count_bound(cells as int, marks(seen@));
        }
        let place = current.row * grid.width + current.col;
        let code: usize = match current.direction {
            Direction::Up => 0,
            Direction::Down => 1,
            Direction::Left => 2,
            Direction::Right => 3,
        };
        assert(code * cells + place == key(b, current)) by (nonlinear_arith)
            requires
                code == crate::day06::code(current.direction),
                place == spot(b, current),
                cells == b.width * b.height,
        ;
        let index = code * cells + place;
        if visited[index] {
            proof {
                lemma_log_repeat(b, state, k, visited@, seen@, current);
                lemma_count_same(cells as int, marks(seen@), stood_on(b, state));
            }
            return (true, positions);
        }
        proof {
            lemma_log_step(b, state, k, visited@, seen@, current);
            lemma_next_inside(b, current);
        }
        visited[index] = true;
        if !seen[place] {
            positions += 1;
        }
        seen[place] = true;
        proof {
            k = k + 1;
        }
        match step(&current, grid) {
            None => {
                proof {
                    lemma_log_gone(b, state, k, visited@, seen@);
                    lemma_count_same(cells as int, marks(seen@), stood_on(b, state));
                }
                return (false, positions);
            },
            Some(next) => {
                current = next;
            },
        }
    }
}

/// Whether the patrol that starts in `state` goes on for ever, which it
/// does exactly when it comes back to a state in which it has been before.
/// If it does, it does so within as many steps as there are states.
pub fn is_loop(state: State, grid: &Grid) -> (r: bool)
    requires
        grid.wf(),
        inside(grid@, state),
        4 * grid.data.len() <= usize::MAX,
    ensures
        r == revisits(grid@, state),
        r == revisits_within(grid@, state, 4 * grid.data.len()),
{
    patrol(state, grid).0
}

/// The number of cells on which the guard stands at some time of the
/// patrol that starts in `state`.
pub fn count_distinct_positions(state: State, grid: &Grid) -> (r: usize)
    requires
        grid.wf(),
        inside(grid@, state),
        4 * grid.data.len() <= usize::MAX,
    ensures
        r == count_below(grid.data.len() as int, stood_on(grid@, state)),
{
    patrol(state, grid).1
}

/// The number of cells on which a new obstacle makes the patrol that
/// starts in `state` go on for ever.
pub fn count_different_loops(state: State, grid: &Grid) -> (r: usize)
    requires
        grid.wf(),
        inside(grid@, state),
        4 * grid.data.len() <= usize::MAX,
    ensures
        r == count_below(grid.data.len() as int, traps(grid@, state)),
{
    let mut count: usize = 0;
    let mut idx: usize = 0;
    while idx < grid.data.len()
        invariant
            idx <= grid.data.len(),
            grid.wf(),
            inside(grid@, state),
            4 * grid.data.len() <= usize::MAX,
            count == count_below(idx as int, traps(grid@, state)),
        decreases grid.data.len() - idx,
    {
        proof {
            lemma_count_bound(idx as int, traps(grid@, state));
        }
        let mut changed = grid.duplicate();
        changed.data[idx] = WALL;
        assert(changed@ == grid@.with(idx as int, WALL));
        if is_loop(state, &changed) {
            count += 1;
        }
        idx += 1;
    }
    count
}

/// Whether `s` is the state in which the patrol starts: on the first cell,
/// row after row, that holds the guard's mark, facing up.
pub open spec fn is_start(b: Board, s: State) -> bool {
    &&& inside(b, s)
    &&& s.direction == Direction::Up
    &&& b.data[spot(b, s)] == GUARD
    &&& forall|k: int| 0 <= k < spot(b, s) ==> b.data[k] != GUARD
}

/// Whether no cell holds the guard's mark.
pub open spec fn no_guard(b: Board) -> bool {
    forall|k: int| 0 <= k < b.data.len() ==> b.data[k] != GUARD
}

/// The row and the column of the first cell, row after row, that holds
/// the guard's mark.
pub fn find_starting_point(grid: &Grid) -> (r: Option<(usize, usize)>)
    requires
        grid.wf(),
    ensures
        match r {
            Some((row, col)) => is_start(grid@, State { row, col, direction: Direction::Up }),
            None => no_guard(grid@),
        },
{
    grid.find_first(GUARD)
}

/// The first states of the patrol, `limit` at most, the first being
/// `state`: fewer than `limit` only where the guard leaves the grid.
pub fn get_path(state: State, grid: &Grid, limit: usize) -> (path: Vec<State>)
    requires
        grid.wf(),
    ensures
        path.len() <= limit,
        forall|k: int| 0 <= k < path.len() ==> walk(grid@, state, k) == Some(#[trigger] path[k]),
        path.len() < limit ==> walk(grid@, state, path.len() as int) is None,
{
    let mut path: Vec<State> = Vec::new();
    let mut current: Option<State> = Some(state);
    while path.len() < limit
        invariant
            grid.wf(),
            path.len() <= limit,
            current == walk(grid@, state, path.len() as int),
            forall|k: int| 0 <= k < path.len() ==> walk(grid@, state, k) == Some(#[trigger] path[k]),
        decreases limit - path.len(),
    {
        match current {
            Some(s) => {
                path.push(s);
                current = step(&s, grid);
            },
            None => {
                return path;
            },
        }
    }
    path
}

/// Reads the grid and finds the guard, who faces up.
///
/// Fails with `MalformedInput` when the lines of the text do not make a
/// rectangle, and with `MissingSeed` when the guard is not in it.
pub fn parse(input: &str) -> (r: Result<(State, Grid), PuzzleError>)
    ensures
        match r {
            Ok((state, grid)) => {
                &&& rectangular(lines(input@))
                &&& grid.shows(lines(input@))
                &&& grid@ == board_of(lines(input@))
                &&& is_start(grid@, state)
            },
            Err(e) => if rectangular(lines(input@)) {
                e == PuzzleError::MissingSeed && no_guard(board_of(lines(input@)))
            } else {
                e == PuzzleError::MalformedInput
            },
        },
{
    let grid = match Grid::new(input) {
        Ok(g) => g,
        Err(e) => {
            return Err(e);
        },
    };
    proof {
        grid.lemma_shows_board(lines(input@));
    }
    match find_starting_point(&grid) {
        Some((row, col)) => Ok((State { row, col, direction: Direction::Up }, grid)),
        None => Err(PuzzleError::MissingSeed),
    }
}

/// Both answers for a patrol given as text: the number of cells that the
/// guard comes by, and the number of cells on which a new obstacle makes
/// the patrol go on for ever.
///
/// Fails with `MalformedInput` when the lines of the text do not make a
/// rectangle, and with `MissingSeed` when the guard is not in it.
pub fn solve(input: &str) -> (r: Result<(usize, usize), PuzzleError>)
    requires
        rectangular(lines(input@)) ==> 4 * board_of(lines(input@)).data.len() <= usize::MAX,
    ensures
        match r {
            Ok((cells, loops)) => {
                &&& rectangular(lines(input@))
                &&& exists|start: State| #[trigger]
                    is_start(board_of(lines(input@)), start) && cells == count_below(
                        board_of(lines(input@)).data.len() as int,
                        stood_on(board_of(lines(input@)), start),
                    ) && loops == count_below(
                        board_of(lines(input@)).data.len() as int,
                        traps(board_of(lines(input@)), start),
                    )
            },
            Err(e) => if rectangular(lines(input@)) {
                e == PuzzleError::MissingSeed && no_guard(board_of(lines(input@)))
            } else {
                e == PuzzleError::MalformedInput
            },
        },
{
    let (state, grid) = match parse(input) {
        Ok(p) => p,
        Err(e) => {
            return Err(e);
        },
    };
    let cells = count_distinct_positions(state, &grid);
    let loops = count_different_loops(state, &grid);
    assert(is_start(board_of(lines(input@)), state));
    Ok((cells, loops))
}

/// A patrol that comes back to an earlier state never leaves the grid, and
/// a patrol that never leaves the grid comes back to an earlier state
/// within as many steps as there are states.
pub proof fn lemma_loop_is_revisit(b: Board, s: State)
    requires
        b.wf(),
        inside(b, s),
    ensures
        revisits(b, s) <==> forall|k: int| 0 <= k ==> (#[trigger] walk(b, s, k)) is Some,
        revisits(b, s) <==> revisits_within(b, s, 4 * (b.width * b.height)),
{
    if revisits(b, s) {
        let (i, j) = choose|i: int, j: int|
            0 <= i < j && (#[trigger] walk(b, s, i)) is Some && walk(b, s, i) == #[trigger] walk(
                b,
                s,
                j,
            );
        assert forall|k: int| 0 <= k implies (#[trigger] walk(b, s, k)) is Some by {
            let early = lemma_cycle(b, s, i, j, k);
            if walk(b, s, early) is None {
                lemma_gone(b, s, early, j);
            }
        }
    }
    if forall|k: int| 0 <= k ==> (#[trigger] walk(b, s, k)) is Some {
        lemma_pigeonhole(b, s, 4 * (b.width * b.height));
    }
    if revisits_within(b, s, 4 * (b.width * b.height)) {
        let (i, j) = choose|i: int, j: int|
            0 <= i < j <= 4 * (b.width * b.height) && (#[trigger] walk(b, s, i)) is Some && walk(
                b,
                s,
                i,
            ) == #[trigger] walk(b, s, j);
        assert(revisits(b, s));
    }
}

/// Every state of a patrol that starts inside the grid is inside the grid.
proof fn lemma_walk_inside(b: Board, s: State, k: int)
    requires
        b.wf(),
        inside(b, s),
        0 <= k,
        walk(b, s, k) is Some,
    ensures
        inside(b, walk(b, s, k)->0),
    decreases k,
{
    if k > 0 {
        lemma_walk_inside(b, s, k - 1);
        lemma_next_inside(b, walk(b, s, k - 1)->0);
    }
}

/// A patrol that is still inside the grid after `n` steps, where `n` is the
/// number of states, has been in some state twice.
proof fn lemma_pigeonhole(b: Board, s: State, n: int)
    requires
        b.wf(),
        inside(b, s),
        n == 4 * (b.width * b.height),
        forall|k: int| 0 <= k ==> (#[trigger] walk(b, s, k)) is Some,
    ensures
        revisits_within(b, s, n),
{
    if !revisits_within(b, s, n) {
        let keys = Seq::new((n + 1) as nat, |k: int| key(b, walk(b, s, k)->0));
        assert forall|i: int, j: int| 0 <= i < keys.len() && 0 <= j < keys.len() && i != j implies keys[i]
            != keys[j] by {
            lemma_walk_inside(b, s, i);
            lemma_walk_inside(b, s, j);
            lemma_key(b, walk(b, s, i)->0, walk(b, s, j)->0);
            if i < j {
                assert(walk(b, s, i) != walk(b, s, j));
            } else {
                assert(walk(b, s, j) != walk(b, s, i));
            }
        }
        assert(keys.no_duplicates());
        keys.unique_seq_to_set();
        vstd::set_lib::lemma_int_range(0, n);
        assert forall|x: int| keys.to_set().contains(x) implies vstd::set_lib::set_int_range(
            0,
            n,
        ).contains(x) by {
            let i = choose|i: int| 0 <= i < keys.len() && keys[i] == x;
            lemma_walk_inside(b, s, i);
            lemma_key(b, walk(b, s, i)->0, walk(b, s, i)->0);
        }
        vstd::set_lib::lemma_len_subset(keys.to_set(), vstd::set_lib::set_int_range(0, n));
    }
}

} // verus!
