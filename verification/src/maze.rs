//! Mazes given as the list of their open cells.
use vstd::prelude::*;
use crate::counting::lemma_filter_step;
use crate::error::PuzzleError;
use crate::explorer::{
    charted, explore, head, joined, lemma_cut, lemma_join, linked_in, runs, tail, total,
    trace_back, weight, StateSpace, Step, Trail,
};
use crate::grid::{is_rectangular, rectangular};
use crate::text::{chars_of, lines, rows, split_lines};

verus! {

/// What stands on a cell.
#[derive(Debug, Clone, Copy, PartialEq, Eq, Hash, Structural)]
pub enum Tile {
    Empty,
    Start,
    End,
    NotEmpty,
}

/// An open cell of a maze.
#[derive(Debug, Clone, Copy, PartialEq, Eq, Hash, Structural)]
pub struct Elem {
    pub row: i64,
    pub col: i64,
    pub tile: Tile,
}

/// Whether two cells share an edge.
pub open spec fn adjacent(a: Elem, b: Elem) -> bool {
    ||| a.row == b.row && (a.col - b.col == 1 || b.col - a.col == 1)
    ||| a.col == b.col && (a.row - b.row == 1 || b.row - a.row == 1)
}

/// Whether two cells lie two steps apart in one row or one column.
pub open spec fn two_apart(a: Elem, b: Elem) -> bool {
    ||| a.row == b.row && (a.col - b.col == 2 || b.col - a.col == 2)
    ||| a.col == b.col && (a.row - b.row == 2 || b.row - a.row == 2)
}

/// How far apart two numbers are.
pub open spec fn span(a: i64, b: i64) -> int {
    if a >= b {
        a - b
    } else {
        b - a
    }
}

/// The number of steps between two cells when every step goes to a cell next door.
pub open spec fn distance(a: Elem, b: Elem) -> int {
    span(a.row, b.row) + span(a.col, b.col)
}

/// The cells that share an edge with `e`.
pub open spec fn next_to(e: Elem) -> spec_fn(Elem) -> bool {
    |other: Elem| adjacent(e, other)
}

/// The cells two steps from `e` in its row or its column.
pub open spec fn jump_from(e: Elem) -> spec_fn(Elem) -> bool {
    |other: Elem| two_apart(e, other)
}

/// The cells at most `reach` steps from `e`.
pub open spec fn within(e: Elem, reach: int) -> spec_fn(Elem) -> bool {
    |other: Elem| distance(e, other) <= reach
}

/// The open cell that a character of a maze drawing stands for; `None`
/// for every other character.
pub open spec fn tile_of(c: char) -> Option<Tile> {
    if c == '.' {
        Some(Tile::Empty)
    } else if c == 'S' {
        Some(Tile::Start)
    } else if c == 'E' {
        Some(Tile::End)
    } else {
        None
    }
}

/// The open cells among the first `n` characters of the line with number `row`.
pub open spec fn row_cells(line: Seq<char>, row: int, n: int) -> Seq<Elem>
    decreases n,
{
    if n <= 0 {
        Seq::empty()
    } else {
        match tile_of(line[n - 1]) {
            Some(tile) => row_cells(line, row, n - 1).push(
                Elem { row: row as i64, col: (n - 1) as i64, tile },
            ),
            None => row_cells(line, row, n - 1),
        }
    }
}

/// The open cells of the first `n` lines, line after line.
pub open spec fn maze_cells(ls: Seq<Seq<char>>, n: int) -> Seq<Elem>
    decreases n,
{
    if n <= 0 {
        Seq::empty()
    } else {
        maze_cells(ls, n - 1) + row_cells(ls[n - 1], n - 1, ls[n - 1].len() as int)
    }
}

/// The open cells of a maze drawing.
pub open spec fn drawn(text: Seq<char>) -> Seq<Elem> {
    maze_cells(lines(text), lines(text).len() as int)
}

/// Whether every row and column number of a drawing fits in 63 bits.
pub open spec fn addressable(text: Seq<char>) -> bool {
    &&& lines(text).len() <= i64::MAX
    &&& forall|i: int| 0 <= i < lines(text).len() ==> (#[trigger] lines(text)[i]).len() <= i64::MAX
}

/// The absolute difference of two numbers, if it is at most `limit`.
pub fn span_within(a: i64, b: i64, limit: u64) -> (r: Option<u64>)
    ensures
        r == if span(a, b) <= limit {
            Some(span(a, b) as u64)
        } else {
            None
        },
{
    let d: i128 = if a >= b {
        a as i128 - b as i128
    } else {
        b as i128 - a as i128
    };
    if d <= limit as i128 {
        Some(d as u64)
    } else {
        None
    }
}

/// Whether two cells share an edge.
pub fn touches(a: &Elem, b: &Elem) -> (r: bool)
    ensures
        r == adjacent(*a, *b),
{
    match (span_within(a.row, b.row, 1), span_within(a.col, b.col, 1)) {
        (Some(dr), Some(dc)) => dr + dc == 1,
        _ => false,
    }
}

impl Elem {
    /// The cells of `grid` that share an edge with this cell, in the order of `grid`.
    pub fn get_direct_neighbors(&self, grid: &Vec<Elem>) -> (out: Vec<Elem>)
        ensures
            out@ == grid@.filter(next_to(*self)),
    {
        let mut out: Vec<Elem> = Vec::new();
        let mut i: usize = 0;
        while i < grid.len()
            invariant
                i <= grid.len(),
                out@ == grid@.take(i as int).filter(next_to(*self)),
            decreases grid.len() - i,
        {
            proof {
                lemma_filter_step(grid@, i as int, next_to(*self));
            }
            if touches(self, &grid[i]) {
                out.push(grid[i]);
            }
            i += 1;
        }
        assert(grid@.take(grid.len() as int) =~= grid@);
        out
    }

    /// The cells of `grid` that lie two steps from this cell in its row or
    /// its column, in the order of `grid`.
    pub fn cheat(&self, grid: &Vec<Elem>) -> (out: Vec<Elem>)
        ensures
            out@ == grid@.filter(jump_from(*self)),
    {
        let mut out: Vec<Elem> = Vec::new();
        let mut i: usize = 0;
        while i < grid.len()
            invariant
                i <= grid.len(),
                out@ == grid@.take(i as int).filter(jump_from(*self)),
            decreases grid.len() - i,
        {
            proof {
                lemma_filter_step(grid@, i as int, jump_from(*self));
            }
            let other = &grid[i];
            let hit = match (
                span_within(self.row, other.row, 2),
                span_within(self.col, other.col, 2),
            ) {
                (Some(dr), Some(dc)) => (dr == 2 && dc == 0) || (dr == 0 && dc == 2),
                _ => false,
            };
            if hit {
                out.push(grid[i]);
            }
            i += 1;
        }
        assert(grid@.take(grid.len() as int) =~= grid@);
        out
    }

    /// The cells of `grid` that lie at most twenty steps from this cell, in
    /// the order of `grid`.
    pub fn cheat_manhattan(&self, grid: &Vec<Elem>) -> (out: Vec<Elem>)
        ensures
            out@ == grid@.filter(within(*self, 20)),
    {
        let mut out: Vec<Elem> = Vec::new();
        let mut i: usize = 0;
        while i < grid.len()
            invariant
                i <= grid.len(),
                out@ == grid@.take(i as int).filter(within(*self, 20)),
            decreases grid.len() - i,
        {
            proof {
                lemma_filter_step(grid@, i as int, within(*self, 20));
            }
            let other = &grid[i];
            let hit = match (
                span_within(self.row, other.row, 20),
                span_within(self.col, other.col, 20),
            ) {
                (Some(dr), Some(dc)) => dr + dc <= 20,
                _ => false,
            };
            if hit {
                out.push(grid[i]);
            }
            i += 1;
        }
        assert(grid@.take(grid.len() as int) =~= grid@);
        out
    }
}

/// The index of the first cell of `grid` at or after `from` that holds
/// `tile`; `grid.len()` if there is none.
pub open spec fn first_with(grid: Seq<Elem>, tile: Tile, from: int) -> int
    decreases grid.len() - from,
{
    if from >= grid.len() {
        grid.len() as int
    } else if grid[from].tile == tile {
        from
    } else {
        first_with(grid, tile, from + 1)
    }
}

/// No cell before the first one that holds `tile` holds it, and that one does.
pub proof fn lemma_first_with(grid: Seq<Elem>, tile: Tile, from: int)
    requires
        0 <= from,
    ensures
        from <= first_with(grid, tile, from) || first_with(grid, tile, from) == grid.len(),
        first_with(grid, tile, from) <= grid.len(),
        first_with(grid, tile, from) < grid.len() ==> grid[first_with(grid, tile, from)].tile == tile,
        forall|i: int| from <= i < first_with(grid, tile, from) ==> (#[trigger] grid[i]).tile != tile,
    decreases grid.len() - from,
{
    if from < grid.len() && grid[from].tile != tile {
        lemma_first_with(grid, tile, from + 1);
    }
}

/// Finds the first cell that holds `tile`.
pub fn find_tile(grid: &Vec<Elem>, tile: Tile) -> (r: Option<usize>)
    ensures
        match r {
            Some(i) => i == first_with(grid@, tile, 0) && i < grid.len() && grid[i as int].tile
                == tile,
            None => first_with(grid@, tile, 0) == grid.len() && forall|i: int|
                0 <= i < grid.len() ==> (#[trigger] grid[i]).tile != tile,
        },
{
    let mut i: usize = 0;
    while i < grid.len()
        invariant
            i <= grid.len(),
            first_with(grid@, tile, 0) == first_with(grid@, tile, i as int),
            forall|k: int| 0 <= k < i ==> (#[trigger] grid[k]).tile != tile,
        decreases grid.len() - i,
    {
        if grid[i].tile == tile {
            return Some(i);
        }
        i += 1;
    }
    None
}

/// Whether a character is one that a maze drawing is made of: a wall, an
/// open cell, the start or the end.
pub open spec fn known(c: char) -> bool {
    c == '#' || c == '.' || c == 'S' || c == 'E'
}

/// Whether every character of the first `n` lines is one that a maze
/// drawing is made of.
pub open spec fn known_lines(ls: Seq<Seq<char>>, n: int) -> bool {
    forall|i: int, j: int| 0 <= i < n && 0 <= j < ls[i].len() ==> known(#[trigger] ls[i][j])
}

/// Whether every character of every line of a text is one that a maze
/// drawing is made of.
pub open spec fn all_known(text: Seq<char>) -> bool {
    known_lines(lines(text), lines(text).len() as int)
}

/// Reads a maze drawing: `#` is a wall, `.` an open cell, `S` the start and
/// `E` the end. The open cells come out line after line, each with its
/// line number and its position in the line.
///
/// Fails with `MalformedInput` when the lines of the text do not make a
/// rectangle, and with `InvalidCell` when they do but hold another
/// character.
pub fn parse(input: &str) -> (r: Result<Vec<Elem>, PuzzleError>)
    requires
        addressable(input@),
    ensures
        match r {
            Ok(grid) => rectangular(lines(input@)) && all_known(input@) && grid@ == drawn(input@),
            Err(e) => if rectangular(lines(input@)) {
                e == PuzzleError::InvalidCell && !all_known(input@)
            } else {
                e == PuzzleError::MalformedInput
            },
        },
{
    let text = chars_of(input);
    let all = split_lines(&text);
    if !is_rectangular(&all) {
        return Err(PuzzleError::MalformedInput);
    }
    let mut grid: Vec<Elem> = Vec::new();
    let mut r: usize = 0;
    while r < all.len()
        invariant
            r <= all.len(),
            rows(all@) == lines(input@),
            rectangular(lines(input@)),
            addressable(input@),
            known_lines(lines(input@), r as int),
            grid@ == maze_cells(lines(input@), r as int),
        decreases all.len() - r,
    {
        let line = &all[r];
        assert(lines(input@)[r as int] == line@);
        let ghost before = grid@;
        let mut c: usize = 0;
        while c < line.len()
            invariant
                c <= line.len(),
                r < all.len(),
                all.len() <= i64::MAX,
                line.len() <= i64::MAX,
                rectangular(lines(input@)),
                rows(all@) == lines(input@),
                lines(input@)[r as int] == line@,
                forall|j: int| 0 <= j < c ==> known(#[trigger] line[j]),
                grid@ == before + row_cells(line@, r as int, c as int),
            decreases line.len() - c,
        {
            let ch = line[c];
            if ch == '.' {
                grid.push(Elem { row: r as i64, col: c as i64, tile: Tile::Empty });
            } else if ch == 'S' {
                grid.push(Elem { row: r as i64, col: c as i64, tile: Tile::Start });
            } else if ch == 'E' {
                grid.push(Elem { row: r as i64, col: c as i64, tile: Tile::End });
            } else if ch != '#' {
                assert(!known(lines(input@)[r as int][c as int]));
                return Err(PuzzleError::InvalidCell);
            }
            c += 1;
            assert(grid@ =~= before + row_cells(line@, r as int, c as int));
        }
        r += 1;
    }
    Ok(grid)
}

/// Whether the maze has a step from the cell with index `a` to the cell
/// with index `b`. Every step costs one, so `c` is one.
pub open spec fn grid_link(grid: Seq<Elem>, a: int, b: int, c: int) -> bool {
    &&& 0 <= a < grid.len()
    &&& 0 <= b < grid.len()
    &&& adjacent(grid[a], grid[b])
    &&& c == 1
}

/// The steps of the maze as a relation.
pub open spec fn grid_links(grid: Seq<Elem>) -> spec_fn(int, int, int) -> bool {
    |a: int, b: int, c: int| grid_link(grid, a, b, c)
}

/// The steps of the maze, each taken backwards.
pub open spec fn grid_links_back(grid: Seq<Elem>) -> spec_fn(int, int, int) -> bool {
    |a: int, b: int, c: int| grid_link(grid, b, a, c)
}

/// The index of the first start cell, as the only seed of a search.
pub open spec fn start_cell(grid: Seq<Elem>) -> Seq<usize> {
    seq![first_with(grid, Tile::Start, 0) as usize]
}

/// Whether `t` is a walk from the start cell to an end cell.
pub open spec fn reaches_end(grid: Seq<Elem>, t: Trail) -> bool {
    &&& t.states.len() > 0
    &&& 0 <= t.states.last() < grid.len()
    &&& grid[t.states.last()].tile == Tile::End
    &&& runs(grid_links(grid), start_cell(grid), t, t.states.last())
}

/// Whether `steps` is the number of steps of a shortest walk from the start
/// cell to an end cell.
pub open spec fn fewest_steps(grid: Seq<Elem>, steps: int) -> bool {
    &&& exists|t: Trail| #[trigger] reaches_end(grid, t) && t.fees.len() == steps
    &&& forall|t: Trail| #[trigger] reaches_end(grid, t) ==> steps <= t.fees.len()
}

/// Whether no walk leads from the start cell to an end cell.
pub open spec fn no_way(grid: Seq<Elem>) -> bool {
    forall|t: Trail| !#[trigger] reaches_end(grid, t)
}

/// Whether `path` lists the cells of a shortest walk from the start cell to
/// an end cell, by their indices.
pub open spec fn is_shortest_walk(grid: Seq<Elem>, path: Seq<usize>) -> bool {
    &&& path.len() >= 1
    &&& fewest_steps(grid, path.len() - 1)
    &&& exists|t: Trail| #[trigger]
        reaches_end(grid, t) && t.states.len() == path.len() && forall|i: int|
            0 <= i < path.len() ==> path[i] == t.states[i]
}

/// A walk whose steps cost one each costs as much as it has steps.
pub proof fn lemma_unit_total(grid: Seq<Elem>, t: Trail)
    requires
        crate::explorer::is_trail(grid_links(grid), t),
    ensures
        total(t.fees) == t.fees.len(),
    decreases t.fees.len(),
{
    if t.fees.len() > 0 {
        let n = t.fees.len() as int;
        let shorter = Trail { states: t.states.drop_last(), fees: t.fees.drop_last() };
        assert(grid_links(grid)(t.states[n - 1], t.states[n], t.fees[n - 1]));
        assert forall|i: int| 0 <= i < shorter.fees.len() implies grid_links(grid)(
            shorter.states[i],
            shorter.states[i + 1],
            #[trigger] shorter.fees[i],
        ) by {
            assert(grid_links(grid)(t.states[i], t.states[i + 1], t.fees[i]));
        }
        lemma_unit_total(grid, shorter);
    }
}

/// Every state of a walk from the start cell to an end cell is a cell of the grid.
pub proof fn lemma_walk_on_grid(grid: Seq<Elem>, t: Trail, i: int)
    requires
        reaches_end(grid, t),
        0 <= i < t.states.len(),
    ensures
        0 <= t.states[i] < grid.len(),
{
    if i < t.fees.len() {
        assert(grid_links(grid)(t.states[i], t.states[i + 1], t.fees[i]));
    }
}

/// A shortest walk comes through no cell twice, so it has no more cells
/// than the grid.
pub proof fn lemma_shortest_walk_is_simple(grid: Seq<Elem>, path: Seq<usize>)
    requires
        is_shortest_walk(grid, path),
    ensures
        path.no_duplicates(),
        path.len() <= grid.len(),
        forall|i: int| 0 <= i < path.len() ==> (#[trigger] path[i]) < grid.len(),
{
    let links = grid_links(grid);
    let t = choose|t: Trail| #[trigger]
        reaches_end(grid, t) && t.states.len() == path.len() && forall|i: int|
            0 <= i < path.len() ==> path[i] == t.states[i];
    assert forall|i: int, j: int| 0 <= i < j < t.states.len() implies t.states[i]
        != t.states[j] by {
        if t.states[i] == t.states[j] {
            lemma_cut(links, t, i);
            lemma_cut(links, t, j);
            let h = head(t, i);
            let l = tail(t, j);
            lemma_join(links, h, l);
            let s = joined(h, l);
            assert(reaches_end(grid, s));
            assert(s.fees.len() == i + (t.fees.len() - j));
        }
    }
    assert(t.states.no_duplicates());
    assert forall|i: int, j: int| 0 <= i < path.len() && 0 <= j < path.len() && i != j implies path[i]
        != path[j] by {
        assert(path[i] == t.states[i] && path[j] == t.states[j]);
    }
    t.states.unique_seq_to_set();
    vstd::set_lib::lemma_int_range(0, grid.len() as int);
    assert forall|x: int| t.states.to_set().contains(x) implies vstd::set_lib::set_int_range(
        0,
        grid.len() as int,
    ).contains(x) by {
        let i = choose|i: int| 0 <= i < t.states.len() && t.states[i] == x;
        lemma_walk_on_grid(grid, t, i);
    }
    vstd::set_lib::lemma_len_subset(
        t.states.to_set(),
        vstd::set_lib::set_int_range(0, grid.len() as int),
    );
    assert forall|i: int| 0 <= i < path.len() implies (#[trigger] path[i]) < grid.len() by {
        lemma_walk_on_grid(grid, t, i);
    }
}

/// Whether `list` holds a step to `b`.
pub open spec fn leads(list: Seq<Step>, b: int) -> bool {
    exists|k: int| 0 <= k < list.len() && (#[trigger] list[k]).to == b
}

/// Where a list of steps leads after one more step may have been appended.
pub proof fn lemma_leads_grown(before: Seq<Step>, after: Seq<Step>, b: int)
    requires
        after == before || (after.len() == before.len() + 1 && after.drop_last() == before),
    ensures
        leads(after, b) <==> (leads(before, b) || (after.len() > before.len() && after.last().to
            == b)),
{
    if after.len() > before.len() {
        if leads(before, b) {
            let k = choose|k: int| 0 <= k < before.len() && (#[trigger] before[k]).to == b;
            assert(after[k] == after.drop_last()[k]);
        }
        if leads(after, b) {
            let k = choose|k: int| 0 <= k < after.len() && (#[trigger] after[k]).to == b;
            if k < before.len() {
                assert(before[k] == after.drop_last()[k]);
            }
        }
    }
}

/// Lays out the cells of a maze as a state space in which every step
/// between cells that share an edge costs one.
pub fn unit_space(grid: &Vec<Elem>) -> (space: StateSpace)
    ensures
        space.wf(),
        space.positive(),
        space.moves.len() == grid.len(),
        space.links() == grid_links(grid@),
        space.backward_links() == grid_links_back(grid@),
{
    let n = grid.len();
    let mut moves: Vec<Vec<Step>> = Vec::new();
    let mut i: usize = 0;
    while i < n
        invariant
            i <= n,
            n == grid.len(),
            moves.len() == i,
            forall|v: int, k: int|
                0 <= v < moves.len() && 0 <= k < moves[v].len() ==> (#[trigger] moves[v][k]).to < n
                    && moves[v][k].cost == 1,
            forall|a: int, b: int|
                #![trigger linked_in(moves@, a, b, 1)]
                linked_in(moves@, a, b, 1) <==> (grid_link(grid@, a, b, 1) && a < i),
        decreases n - i,
    {
        let mut out: Vec<Step> = Vec::new();
        let mut j: usize = 0;
        while j < n
            invariant
                j <= n,
                i < n,
                n == grid.len(),
                forall|k: int| 0 <= k < out.len() ==> (#[trigger] out[k]).to < n && out[k].cost == 1,
                forall|b: int|
                    #![trigger leads(out@, b)]
                    leads(out@, b) <==> (grid_link(grid@, i as int, b, 1) && b < j),
            decreases n - j,
        {
            let ghost before = out@;
            if touches(&grid[i], &grid[j]) {
                out.push(Step { to: j, cost: 1 });
            }
            proof {
                assert(out@ == before || (out@.len() == before.len() + 1 && out@.drop_last()
                    =~= before));
                assert forall|b: int| #![trigger leads(out@, b)] leads(out@, b) <==> (grid_link(
                    grid@,
                    i as int,
                    b,
                    1,
                ) && b < j + 1) by {
                    lemma_leads_grown(before, out@, b);
                    if out@.len() > before.len() {
                        assert(out@.last() == out@[before.len() as int]);
                    }
                }
            }
            j += 1;
        }
        let ghost before = moves@;
        let ghost out_view = out@;
        moves.push(out);
        proof {
            assert(moves@[i as int]@ == out_view);
            assert forall|a: int, b: int|
                #![trigger linked_in(moves@, a, b, 1)]
                linked_in(moves@, a, b, 1) <==> (grid_link(grid@, a, b, 1) && a < i + 1) by {
                if 0 <= a < i {
                    assert(moves@[a] == before[a]);
                    assert(linked_in(moves@, a, b, 1) == linked_in(before, a, b, 1));
                } else if a == i {
                    if linked_in(moves@, a, b, 1) {
                        let k = choose|k: int|
                            0 <= k < moves[a].len() && (#[trigger] moves[a][k]).to == b
                                && moves[a][k].cost == 1;
                        assert(out_view[k].to == b);
                        assert(leads(out_view, b));
                    }
                    if grid_link(grid@, a, b, 1) {
                        assert(leads(out_view, b));
                        let k = choose|k: int| 0 <= k < out_view.len() && (#[trigger] out_view[k]).to == b;
                        assert(moves[a][k].to == b && moves[a][k].cost == 1);
                    }
                }
            }
            assert forall|v: int, k: int|
                0 <= v < moves.len() && 0 <= k < moves[v].len() implies (#[trigger] moves[v][k]).to
                < n && moves[v][k].cost == 1 by {
                if v < i {
                    assert(moves@[v] == before[v]);
                }
            }
        }
        i += 1;
    }
    let space = StateSpace { moves };
    proof {
        assert forall|a: int, b: int, c: int| space.linked(a, b, c) == grid_link(grid@, a, b, c) by {
            assert(space.linked(a, b, c) == linked_in(space.moves@, a, b, c));
            if space.linked(a, b, c) {
                let k = choose|k: int|
                    0 <= k < space.moves[a].len() && (#[trigger] space.moves[a][k]).to == b
                        && space.moves[a][k].cost == c;
                assert(c == 1);
            }
        }
        assert(space.links() =~= grid_links(grid@));
        assert(space.backward_links() =~= grid_links_back(grid@));
    }
    space
}

/// Finds a shortest walk from the start cell to an end cell and returns
/// the indices of its cells, the start cell first.
///
/// Fails with `MissingSeed` when the grid has no start cell, and with
/// `NoSolution` when no end cell is reached.
pub fn shortest_walk(grid: &Vec<Elem>) -> (r: Result<Vec<usize>, PuzzleError>)
    ensures
        match r {
            Ok(path) => {
                &&& first_with(grid@, Tile::Start, 0) < grid.len()
                &&& is_shortest_walk(grid@, path@)
                &&& path.len() <= grid.len()
                &&& forall|i: int| 0 <= i < path.len() ==> (#[trigger] path[i]) < grid.len()
            },
            Err(e) => if first_with(grid@, Tile::Start, 0) >= grid.len() {
                e == PuzzleError::MissingSeed
            } else {
                e == PuzzleError::NoSolution && no_way(grid@)
            },
        },
{
    let start = match find_tile(grid, Tile::Start) {
        Some(i) => i,
        None => {
            return Err(PuzzleError::MissingSeed);
        },
    };
    let space = unit_space(grid);
    let mut seeds: Vec<usize> = Vec::new();
    seeds.push(start);
    assert(seeds@ =~= start_cell(grid@));
    let cache = explore(&space, &seeds);
    assert(charted(grid_links(grid@), start_cell(grid@), cache.best@));
    let mut goal: Option<usize> = None;
    let mut i: usize = 0;
    while i < grid.len()
        invariant
            i <= grid.len(),
            cache.best.len() == grid.len(),
            match goal {
                Some(g) => {
                    &&& g < grid.len()
                    &&& grid[g as int].tile == Tile::End
                    &&& cache.best[g as int] is Some
                    &&& forall|e: int|
                        0 <= e < i && (#[trigger] grid[e]).tile == Tile::End ==> weight(
                            cache.best[e],
                        ) >= cache.best[g as int]->0
                },
                None => forall|e: int|
                    0 <= e < i && (#[trigger] grid[e]).tile == Tile::End ==> cache.best[e] is None,
            },
        decreases grid.len() - i,
    {
        if grid[i].tile == Tile::End {
            match cache.best[i] {
                Some(c) => {
                    let closer = match goal {
                        Some(g) => match cache.best[g] {
                            Some(known) => c < known,
                            None => true,
                        },
                        None => true,
                    };
                    if closer {
                        goal = Some(i);
                    }
                },
                None => {},
            }
        }
        i += 1;
    }
    let goal = match goal {
        Some(g) => g,
        None => {
            proof {
                assert forall|t: Trail| !#[trigger] reaches_end(grid@, t) by {
                    if reaches_end(grid@, t) {
                        assert forall|i: int| 0 <= i < t.states.len() implies 0
                            <= #[trigger] t.states[i] < grid.len() by {
                            lemma_walk_on_grid(grid@, t, i);
                        }
                        let s = crate::explorer::lemma_shorten(
                            grid_links(grid@),
                            t,
                            grid.len() as int,
                        );
                        lemma_unit_total(grid@, s);
                        assert(runs(grid_links(grid@), start_cell(grid@), s, s.states.last()));
                        assert(cache.best[s.states.last()] is None);
                    }
                }
            }
            return Err(PuzzleError::NoSolution);
        },
    };
    let back = space.reversed();
    proof {
        assert forall|a: int, b: int, c: int| back.linked(b, a, c) == grid_link(grid@, a, b, c) by {
            assert(back.linked(b, a, c) == space.linked(a, b, c));
            assert(space.links()(a, b, c) == grid_links(grid@)(a, b, c));
        }
        assert(back.backward_links() =~= grid_links(grid@));
    }
    let path = trace_back(&back, &cache, &seeds, goal);
    proof {
        let t = choose|t: Trail| #[trigger]
            runs(grid_links(grid@), seeds@, t, goal as int) && total(t.fees)
                == cache.best[goal as int]->0 && t.states.len() == path.len() && forall|i: int|
                0 <= i < path.len() ==> path[i] == t.states[i];
        lemma_unit_total(grid@, t);
        assert(reaches_end(grid@, t));
        assert forall|other: Trail| #[trigger] reaches_end(grid@, other) implies path.len() - 1
            <= other.fees.len() by {
            lemma_unit_total(grid@, other);
            assert(weight(cache.best[other.states.last()]) >= cache.best[goal as int]->0);
        }
        lemma_shortest_walk_is_simple(grid@, path@);
    }
    Ok(path)
}

} // verus!
