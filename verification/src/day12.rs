//! Garden plots: a grid of letters falls into regions of equal letters
//! that hang together along edges. A region is priced by its area times
//! the length of its fence, or times the number of its sides.
use vstd::prelude::*;
use crate::counting::{
    count_below, lemma_count_all, lemma_count_bound, lemma_count_one_more, marks, sum_below,
};
use crate::error::PuzzleError;
use crate::explorer::{
    charted, explore, flipped, is_trail, joined, lemma_flip, lemma_join, lemma_shorten,
    linked_in, runs, total, StateCache, StateSpace, Step, Trail,
};
use crate::grid::{lemma_index_cell, rectangular, board_of, Board, Grid};
use crate::maze::{leads, lemma_leads_grown};
use crate::text::lines;

verus! {

/// A position by row and column; rows and columns outside a grid, also
/// negative ones, can be named.
#[derive(Debug, Clone, Copy, PartialEq, Eq, Hash, Structural)]
pub struct Position {
    pub row: i64,
    pub col: i64,
}

/// The eight directions of the compass; north is towards row zero.
#[derive(Debug, Clone, Copy, PartialEq, Eq, Structural)]
pub enum Direction {
    NorthWest,
    North,
    NorthEast,
    East,
    SouthEast,
    South,
    SouthWest,
    West,
}

/// How many rows down and columns to the right one step in a direction goes.
pub open spec fn offset(d: Direction) -> (int, int) {
    match d {
        Direction::NorthWest => (-1, -1),
        Direction::North => (-1, 0),
        Direction::NorthEast => (-1, 1),
        Direction::East => (0, 1),
        Direction::SouthEast => (1, 1),
        Direction::South => (1, 0),
        Direction::SouthWest => (1, -1),
        Direction::West => (0, -1),
    }
}

/// Whether a list of positions holds the position in a row and a column.
pub open spec fn member(cells: Seq<Position>, row: int, col: int) -> bool {
    exists|i: int| 0 <= i < cells.len() && (#[trigger] cells[i]).row == row && cells[i].col == col
}

/// One for a hit, nothing for a miss.
pub open spec fn one_if(hit: bool) -> int {
    if hit {
        1
    } else {
        0
    }
}

/// The positions next to a position whose row and column fit in 64 bits:
/// north, south, west, east.
pub open spec fn beside(p: Position) -> Seq<Position> {
    let north: Seq<Position> = if p.row > i64::MIN {
        seq![Position { row: (p.row - 1) as i64, col: p.col }]
    } else {
        seq![]
    };
    let south: Seq<Position> = if p.row < i64::MAX {
        seq![Position { row: (p.row + 1) as i64, col: p.col }]
    } else {
        seq![]
    };
    let west: Seq<Position> = if p.col > i64::MIN {
        seq![Position { row: p.row, col: (p.col - 1) as i64 }]
    } else {
        seq![]
    };
    let east: Seq<Position> = if p.col < i64::MAX {
        seq![Position { row: p.row, col: (p.col + 1) as i64 }]
    } else {
        seq![]
    };
    north + south + west + east
}

/// The number of edges of the `i`-th cell that do not border on a cell of the list.
pub open spec fn fence_at(cells: Seq<Position>) -> spec_fn(int) -> int {
    |i: int|
        4 - one_if(member(cells, cells[i].row - 1, cells[i].col as int)) - one_if(
            member(cells, cells[i].row + 1, cells[i].col as int),
        ) - one_if(member(cells, cells[i].row as int, cells[i].col - 1)) - one_if(
            member(cells, cells[i].row as int, cells[i].col + 1),
        )
}

/// The length of the fence round a list of cells: the number of edges
/// between a cell of the list and a position that is not in it.
pub open spec fn perimeter(cells: Seq<Position>) -> int {
    sum_below(cells.len() as int, fence_at(cells))
}

/// The number of corners that the fence makes at a cell in a quarter: an
/// outer corner when neither neighbour along the two edges of the quarter
/// is in the list, an inner corner when both are but the cell between them
/// is not. `down` and `right` are one or minus one and pick the quarter.
pub open spec fn corner(cells: Seq<Position>, row: int, col: int, down: int, right: int) -> int {
    let upright = member(cells, row + down, col);
    let level = member(cells, row, col + right);
    let across = member(cells, row + down, col + right);
    one_if(!upright && !level) + one_if(upright && level && !across)
}

/// The number of corners that the fence makes at the `i`-th cell.
pub open spec fn corners_at(cells: Seq<Position>) -> spec_fn(int) -> int {
    |i: int|
        corner(cells, cells[i].row as int, cells[i].col as int, -1, -1) + corner(
            cells,
            cells[i].row as int,
            cells[i].col as int,
            -1,
            1,
        ) + corner(cells, cells[i].row as int, cells[i].col as int, 1, -1) + corner(
            cells,
            cells[i].row as int,
            cells[i].col as int,
            1,
            1,
        )
}

/// The number of corners, and so of straight sides, of the fence round a list of cells.
pub open spec fn corners(cells: Seq<Position>) -> int {
    sum_below(cells.len() as int, corners_at(cells))
}

impl Position {
    /// The positions next to this one: north, south, west and east, leaving
    /// out those whose row or column does not fit in 64 bits.
    pub fn get_direct_neighbors(&self) -> (r: Vec<Position>)
        ensures
            r@ == beside(*self),
    {
        let mut out: Vec<Position> = Vec::new();
        if self.row > i64::MIN {
            out.push(Position { row: self.row - 1, col: self.col });
        }
        if self.row < i64::MAX {
            out.push(Position { row: self.row + 1, col: self.col });
        }
        if self.col > i64::MIN {
            out.push(Position { row: self.row, col: self.col - 1 });
        }
        if self.col < i64::MAX {
            out.push(Position { row: self.row, col: self.col + 1 });
        }
        assert(out@ =~= beside(*self));
        out
    }

    /// The position one step away in a direction.
    pub fn get_neighbor(&self, direction: Direction) -> (r: Position)
        requires
            i64::MIN < self.row < i64::MAX,
            i64::MIN < self.col < i64::MAX,
        ensures
            r.row == self.row + offset(direction).0,
            r.col == self.col + offset(direction).1,
    {
        match direction {
            Direction::NorthWest => Position { row: self.row - 1, col: self.col - 1 },
            Direction::North => Position { row: self.row - 1, col: self.col },
            Direction::NorthEast => Position { row: self.row - 1, col: self.col + 1 },
            Direction::East => Position { row: self.row, col: self.col + 1 },
            Direction::SouthEast => Position { row: self.row + 1, col: self.col + 1 },
            Direction::South => Position { row: self.row + 1, col: self.col },
            Direction::SouthWest => Position { row: self.row + 1, col: self.col - 1 },
            Direction::West => Position { row: self.row, col: self.col - 1 },
        }
    }
}

/// Whether a list of positions holds the position in a row and a column.
fn contains_cell(cells: &Vec<Position>, row: i128, col: i128) -> (r: bool)
    ensures
        r == member(cells@, row as int, col as int),
{
    let mut i: usize = 0;
    while i < cells.len()
        invariant
            i <= cells.len(),
            forall|k: int|
                0 <= k < i ==> !((#[trigger] cells[k]).row == row && cells[k].col == col),
        decreases cells.len() - i,
    {
        if cells[i].row as i128 == row && cells[i].col as i128 == col {
            return true;
        }
        i += 1;
    }
    false
}

/// The length of the fence round a group of cells: for every cell, the
/// number of its four edges beyond which no cell of the group lies.
pub fn calculate_perimeter(group: &Vec<Position>) -> (r: usize)
    requires
        4 * group.len() <= usize::MAX,
    ensures
        r == perimeter(group@),
        r <= 4 * group.len(),
{
    let mut total: usize = 0;
    let mut i: usize = 0;
    while i < group.len()
        invariant
            i <= group.len(),
            4 * group.len() <= usize::MAX,
            total == sum_below(i as int, fence_at(group@)),
            total <= 4 * i,
        decreases group.len() - i,
    {
        let row = group[i].row as i128;
        let col = group[i].col as i128;
        let mut open: usize = 4;
        if contains_cell(group, row - 1, col) {
            open -= 1;
        }
        if contains_cell(group, row + 1, col) {
            open -= 1;
        }
        if contains_cell(group, row, col - 1) {
            open -= 1;
        }
        if contains_cell(group, row, col + 1) {
            open -= 1;
        }
        total += open;
        i += 1;
    }
    total
}

/// The number of corners of the fence at a cell in one quarter.
fn corner_in(segment: &Vec<Position>, row: i128, col: i128, down: i128, right: i128) -> (r: usize)
    requires
        i64::MIN <= row <= i64::MAX,
        i64::MIN <= col <= i64::MAX,
        -1 <= down <= 1,
        -1 <= right <= 1,
    ensures
        r == corner(segment@, row as int, col as int, down as int, right as int),
        r <= 1,
{
    let upright = contains_cell(segment, row + down, col);
    let level = contains_cell(segment, row, col + right);
    if !upright && !level {
        1
    } else if upright && level && !contains_cell(segment, row + down, col + right) {
        1
    } else {
        0
    }
}

/// The number of corners of the fence round a segment, which is the number
/// of its straight sides.
pub fn count_corners(segment: &Vec<Position>) -> (r: usize)
    requires
        4 * segment.len() <= usize::MAX,
    ensures
        r == corners(segment@),
        r <= 4 * segment.len(),
{
    let mut total: usize = 0;
    let mut i: usize = 0;
    while i < segment.len()
        invariant
            i <= segment.len(),
            4 * segment.len() <= usize::MAX,
            total == sum_below(i as int, corners_at(segment@)),
            total <= 4 * i,
        decreases segment.len() - i,
    {
        let row = segment[i].row as i128;
        let col = segment[i].col as i128;
        let a = corner_in(segment, row, col, -1, -1);
        let b = corner_in(segment, row, col, -1, 1);
        let c = corner_in(segment, row, col, 1, -1);
        let d = corner_in(segment, row, col, 1, 1);
        total += a + b + c + d;
        i += 1;
    }
    total
}

/// Whether the cells with the indices `x` and `y`, counted row after row,
/// share an edge.
pub open spec fn next_door(b: Board, x: int, y: int) -> bool {
    ||| y == x - b.width && x >= b.width
    ||| y == x + b.width
    ||| y == x - 1 && x % b.width != 0
    ||| y == x + 1 && y % b.width != 0
}

/// Whether the cells with the indices `x` and `y` share an edge and hold
/// the same letter. The price `c` of stepping from one to the other is one.
pub open spec fn plot_link(b: Board, x: int, y: int, c: int) -> bool {
    &&& 0 <= x < b.data.len()
    &&& 0 <= y < b.data.len()
    &&& c == 1
    &&& b.data[x] == b.data[y]
    &&& next_door(b, x, y)
}

/// The steps between cells of the same letter, as a relation.
pub open spec fn plot_links(b: Board) -> spec_fn(int, int, int) -> bool {
    |x: int, y: int, c: int| plot_link(b, x, y, c)
}

/// Whether `t` is a walk from cell `x` to cell `y` over cells of one letter.
pub open spec fn joins(b: Board, t: Trail, x: int, y: int) -> bool {
    &&& is_trail(plot_links(b), t)
    &&& 0 <= x < b.data.len()
    &&& t.states[0] == x
    &&& t.states.last() == y
}

/// Whether a walk over cells of one letter leads from cell `x` to cell `y`.
pub open spec fn connected(b: Board, x: int, y: int) -> bool {
    exists|t: Trail| #[trigger] joins(b, t, x, y)
}

/// Whether the region with number `k` holds the cell with index `v`.
pub open spec fn in_region(regs: Seq<Seq<int>>, k: int, v: int) -> bool {
    0 <= k < regs.len() && regs[k].contains(v)
}

/// Whether some region holds the cell with index `v`.
pub open spec fn covered(regs: Seq<Seq<int>>, v: int) -> bool {
    exists|k: int| #[trigger] in_region(regs, k, v)
}

/// Whether the regions, each a list of cell indices, are the classes of
/// cells that hang together: no region is empty or lists a cell twice,
/// two cells are in one region exactly when they are connected, and no
/// cell is in two regions.
pub open spec fn are_classes(b: Board, regs: Seq<Seq<int>>) -> bool {
    &&& forall|k: int|
        0 <= k < regs.len() ==> (#[trigger] regs[k]).len() >= 1 && regs[k].no_duplicates()
    &&& forall|k: int, v: int| #[trigger] in_region(regs, k, v) ==> 0 <= v < b.data.len()
    &&& forall|k: int, u: int, v: int|
        #![trigger in_region(regs, k, u), connected(b, u, v)]
        #![trigger in_region(regs, k, u), in_region(regs, k, v)]
        in_region(regs, k, u) ==> (in_region(regs, k, v) <==> connected(b, u, v))
    &&& forall|j: int, k: int, v: int|
        #![trigger in_region(regs, j, v), in_region(regs, k, v)]
        in_region(regs, j, v) && in_region(regs, k, v) ==> j == k
}

/// Whether the regions are the classes of cells that hang together and
/// leave out no cell.
pub open spec fn is_partition(b: Board, regs: Seq<Seq<int>>) -> bool {
    &&& are_classes(b, regs)
    &&& forall|v: int| 0 <= v < b.data.len() ==> #[trigger] covered(regs, v)
}

/// The index, counted row after row, of the cell at a position.
pub open spec fn plot_of(b: Board, p: Position) -> int {
    p.row * b.width + p.col
}

/// The indices of the cells at a list of positions.
pub open spec fn plots_of(b: Board, cells: Seq<Position>) -> Seq<int> {
    Seq::new(cells.len(), |i: int| plot_of(b, cells[i]))
}

/// The indices of the cells of a list of regions.
pub open spec fn all_plots(b: Board, regs: Seq<Vec<Position>>) -> Seq<Seq<int>> {
    Seq::new(regs.len(), |k: int| plots_of(b, regs[k]@))
}

/// The numbers of a list, as integers.
pub open spec fn numbers(v: Seq<usize>) -> Seq<int> {
    Seq::new(v.len(), |i: int| v[i] as int)
}

/// The regions of a list, as lists of integers.
pub open spec fn all_numbers(regs: Seq<Vec<usize>>) -> Seq<Seq<int>> {
    Seq::new(regs.len(), |k: int| numbers(regs[k]@))
}

/// The number of cells in the first `n` regions.
pub open spec fn area(regs: Seq<Seq<int>>, n: int) -> int
    decreases n,
{
    if n <= 0 {
        0
    } else {
        area(regs, n - 1) + regs[n - 1].len()
    }
}

/// Steps between cells go both ways.
proof fn lemma_links_both_ways(b: Board)
    requires
        b.wf(),
    ensures
        forall|x: int, y: int, c: int| #[trigger]
            plot_links(b)(x, y, c) ==> plot_links(b)(y, x, c),
{
}

/// Every cell is connected to itself.
proof fn lemma_connected_self(b: Board, x: int)
    requires
        0 <= x < b.data.len(),
    ensures
        connected(b, x, x),
{
    let t = Trail { states: seq![x], fees: Seq::empty() };
    assert(joins(b, t, x, x));
}

/// Every state of a walk over cells of one letter is a cell.
proof fn lemma_states_are_cells(b: Board, t: Trail, x: int, y: int, i: int)
    requires
        joins(b, t, x, y),
        0 <= i < t.states.len(),
    ensures
        0 <= t.states[i] < b.data.len(),
{
    if i > 0 {
        assert(plot_links(b)(t.states[i - 1], t.states[i], t.fees[i - 1]));
    }
}

/// A cell that is connected to another is connected from it.
proof fn lemma_connected_back(b: Board, x: int, y: int)
    requires
        b.wf(),
        connected(b, x, y),
    ensures
        connected(b, y, x),
        0 <= y < b.data.len(),
        0 <= x < b.data.len(),
{
    let t = choose|t: Trail| #[trigger] joins(b, t, x, y);
    lemma_links_both_ways(b);
    lemma_flip(plot_links(b), plot_links(b), t);
    lemma_states_are_cells(b, t, x, y, t.states.len() - 1);
    assert(joins(b, flipped(t), y, x));
}

/// Cells that are connected through a third are connected.
proof fn lemma_connected_on(b: Board, x: int, y: int, z: int)
    requires
        connected(b, x, y),
        connected(b, y, z),
    ensures
        connected(b, x, z),
{
    let t = choose|t: Trail| #[trigger] joins(b, t, x, y);
    let u = choose|u: Trail| #[trigger] joins(b, u, y, z);
    lemma_join(plot_links(b), t, u);
    assert(joins(b, joined(t, u), x, z));
}

/// Appends a step to `to` at price one if it is wanted.
fn offer(out: &mut Vec<Step>, wanted: bool, to: usize)
    ensures
        forall|y: int|
            #![trigger leads(final(out)@, y)]
            leads(final(out)@, y) <==> (leads(old(out)@, y) || (wanted && y == to)),
        (forall|k: int| 0 <= k < old(out).len() ==> (#[trigger] old(out)[k]).cost == 1) ==> (forall|
            k: int,
        | 0 <= k < final(out).len() ==> (#[trigger] final(out)[k]).cost == 1),
{
    let ghost before = out@;
    if wanted {
        out.push(Step { to, cost: 1 });
    }
    proof {
        assert(out@ == before || (out@.len() == before.len() + 1 && out@.drop_last() =~= before));
        assert forall|y: int| #![trigger leads(out@, y)] leads(out@, y) <==> (leads(before, y) || (
        wanted && y == to)) by {
            lemma_leads_grown(before, out@, y);
            if out@.len() > before.len() {
                assert(out@.last() == out@[before.len() as int]);
            }
        }
        if forall|k: int| 0 <= k < before.len() ==> (#[trigger] before[k]).cost == 1 {
            assert forall|k: int| 0 <= k < out.len() implies (#[trigger] out[k]).cost == 1 by {
                if k < before.len() {
                    assert(out[k] == before[k]);
                }
            }
        }
    }
}

/// Lays out the cells of a grid as a state space with a step between any
/// two cells that share an edge and hold the same letter.
fn plot_space(grid: &Grid) -> (space: StateSpace)
    requires
        grid.wf(),
    ensures
        space.wf(),
        space.positive(),
        space.moves.len() == grid.data.len(),
        space.links() == plot_links(grid@),
{
    let ghost b = grid@;
    let cells = grid.data.len();
    let w = grid.width;
    let mut moves: Vec<Vec<Step>> = Vec::new();
    let mut x: usize = 0;
    while x < cells
        invariant
            x <= cells,
            b == grid@,
            grid.wf(),
            cells == grid.data.len(),
            w == grid.width,
            moves.len() == x,
            forall|v: int, k: int|
                0 <= v < moves.len() && 0 <= k < moves[v].len() ==> (#[trigger] moves[v][k]).to
                    < cells && moves[v][k].cost == 1,
            forall|a: int, y: int|
                #![trigger linked_in(moves@, a, y, 1)]
                linked_in(moves@, a, y, 1) <==> (plot_link(b, a, y, 1) && a < x),
        decreases cells - x,
    {
        let letter = grid.data[x];
        let mut out: Vec<Step> = Vec::new();
        assert(forall|y: int| !leads(out@, y));
        let north = x >= w && grid.data[x - w] == letter;
        offer(&mut out, north, if north {
            x - w
        } else {
            0
        });
        let south = w < cells - x && grid.data[x + w] == letter;
        offer(&mut out, south, if south {
            x + w
        } else {
            0
        });
        proof {
            vstd::arithmetic::div_mod::lemma_small_mod(0, w as nat);
        }
        let west = x > 0 && x % w != 0 && grid.data[x - 1] == letter;
        offer(&mut out, west, if west {
            x - 1
        } else {
            0
        });
        let east = x + 1 < cells && (x + 1) % w != 0 && grid.data[x + 1] == letter;
        offer(&mut out, east, if east {
            x + 1
        } else {
            0
        });
        proof {
            assert forall|y: int| #![trigger leads(out@, y)] leads(out@, y) <==> plot_link(
                b,
                x as int,
                y,
                1,
            ) by {}
            assert forall|k: int| 0 <= k < out.len() implies (#[trigger] out[k]).to < cells by {
                assert(leads(out@, out[k].to as int));
            }
        }
        let ghost before = moves@;
        let ghost out_view = out@;
        moves.push(out);
        proof {
            assert(moves@[x as int]@ == out_view);
            assert forall|a: int, y: int|
                #![trigger linked_in(moves@, a, y, 1)]
                linked_in(moves@, a, y, 1) <==> (plot_link(b, a, y, 1) && a < x + 1) by {
                if 0 <= a < x {
                    assert(moves@[a] == before[a]);
                    assert(linked_in(moves@, a, y, 1) == linked_in(before, a, y, 1));
                } else if a == x {
                    if linked_in(moves@, a, y, 1) {
                        let k = choose|k: int|
                            0 <= k < moves[a].len() && (#[trigger] moves[a][k]).to == y
                                && moves[a][k].cost == 1;
                        assert(out_view[k].to == y);
                        assert(leads(out_view, y));
                    }
                    if plot_link(b, a, y, 1) {
                        assert(leads(out_view, y));
                        let k = choose|k: int|
                            0 <= k < out_view.len() && (#[trigger] out_view[k]).to == y;
                        assert(moves[a][k].to == y && moves[a][k].cost == 1);
                    }
                }
            }
            assert forall|v: int, k: int|
                0 <= v < moves.len() && 0 <= k < moves[v].len() implies (#[trigger] moves[v][k]).to
                < cells && moves[v][k].cost == 1 by {
                if v < x {
                    assert(moves@[v] == before[v]);
                }
            }
        }
        x += 1;
    }
    let space = StateSpace { moves };
    proof {
        assert forall|a: int, y: int, c: int| space.linked(a, y, c) == plot_link(b, a, y, c) by {
            assert(space.linked(a, y, c) == linked_in(space.moves@, a, y, c));
            if space.linked(a, y, c) {
                let k = choose|k: int|
                    0 <= k < space.moves[a].len() && (#[trigger] space.moves[a][k]).to == y
                        && space.moves[a][k].cost == c;
                assert(c == 1);
            }
        }
        assert(space.links() =~= plot_links(b));
    }
    space
}

/// A walk over cells of one letter costs as much as it has steps.
proof fn lemma_plot_total(b: Board, t: Trail)
    requires
        is_trail(plot_links(b), t),
    ensures
        total(t.fees) == t.fees.len(),
    decreases t.fees.len(),
{
    if t.fees.len() > 0 {
        let n = t.fees.len() as int;
        let shorter = Trail { states: t.states.drop_last(), fees: t.fees.drop_last() };
        assert(plot_links(b)(t.states[n - 1], t.states[n], t.fees[n - 1]));
        assert forall|i: int| 0 <= i < shorter.fees.len() implies plot_links(b)(
            shorter.states[i],
            shorter.states[i + 1],
            #[trigger] shorter.fees[i],
        ) by {
            assert(plot_links(b)(t.states[i], t.states[i + 1], t.fees[i]));
        }
        lemma_plot_total(b, shorter);
    }
}

/// The cells that a search from cell `v` sees are the cells connected to `v`.
proof fn lemma_seen_is_connected(b: Board, v: int, best: Seq<Option<u64>>, u: int)
    requires
        b.wf(),
        best.len() == b.data.len(),
        best.len() <= usize::MAX,
        0 <= v < best.len(),
        0 <= u < best.len(),
        charted(plot_links(b), seq![v as usize], best),
    ensures
        best[u] is Some <==> connected(b, v, u),
{
    let links = plot_links(b);
    let seeds = seq![v as usize];
    if best[u] is Some {
        let t = choose|t: Trail| #[trigger] runs(links, seeds, t, u) && total(t.fees) == best[u]->0;
        assert(joins(b, t, v, u));
    }
    if connected(b, v, u) {
        let t = choose|t: Trail| #[trigger] joins(b, t, v, u);
        assert forall|i: int| 0 <= i < t.states.len() implies 0 <= #[trigger] t.states[i]
            < best.len() by {
            lemma_states_are_cells(b, t, v, u, i);
        }
        let s = lemma_shorten(links, t, best.len() as int);
        lemma_plot_total(b, s);
        assert(seeds[0] == s.states[0]);
        assert(runs(links, seeds, s, u));
    }
}

/// Adding the class of a cell that no region holds yet keeps the regions classes.
proof fn lemma_new_class(b: Board, regs: Seq<Seq<int>>, region: Seq<int>, v: int)
    requires
        b.wf(),
        are_classes(b, regs),
        !covered(regs, v),
        0 <= v < b.data.len(),
        region.no_duplicates(),
        forall|u: int| region.contains(u) <==> (0 <= u < b.data.len() && connected(b, v, u)),
    ensures
        are_classes(b, regs.push(region)),
        forall|u: int|
            #![trigger covered(regs.push(region), u)]
            covered(regs.push(region), u) <==> (covered(regs, u) || region.contains(u)),
{
    let more = regs.push(region);
    let last = regs.len() as int;
    lemma_connected_self(b, v);
    assert(region.contains(v));
    assert forall|k: int, u: int| #[trigger] in_region(more, k, u) <==> (in_region(regs, k, u) || (k
        == last && region.contains(u))) by {
        if 0 <= k < last {
            assert(more[k] == regs[k]);
        }
    }
    assert forall|k: int| 0 <= k < more.len() implies (#[trigger] more[k]).len() >= 1
        && more[k].no_duplicates() by {
        if k < last {
            assert(more[k] == regs[k]);
        } else {
            let i = choose|i: int| 0 <= i < region.len() && region[i] == v;
        }
    }
    assert forall|k: int, u: int, w: int|
        #![trigger in_region(more, k, u), connected(b, u, w)]
        #![trigger in_region(more, k, u), in_region(more, k, w)]
        in_region(more, k, u) implies (in_region(more, k, w) <==> connected(b, u, w)) by {
        if k == last {
            lemma_connected_back(b, v, u);
            if connected(b, u, w) {
                lemma_connected_on(b, v, u, w);
                lemma_connected_back(b, u, w);
            }
            if region.contains(w) {
                lemma_connected_on(b, u, v, w);
            }
        } else {
            assert(in_region(regs, k, u));
        }
    }
    assert forall|j: int, k: int, u: int|
        #![trigger in_region(more, j, u), in_region(more, k, u)]
        in_region(more, j, u) && in_region(more, k, u) implies j == k by {
        if j != k {
            let old_one = if j == last {
                k
            } else {
                j
            };
            if j == last || k == last {
                assert(in_region(regs, old_one, u));
                lemma_connected_back(b, v, u);
                assert(in_region(regs, old_one, v));
                assert(covered(regs, v));
            } else {
                assert(in_region(regs, j, u) && in_region(regs, k, u));
            }
        }
    }
    assert forall|u: int| #![trigger covered(more, u)] covered(more, u) <==> (covered(regs, u)
        || region.contains(u)) by {
        if covered(more, u) {
            let k = choose|k: int| #[trigger] in_region(more, k, u);
            if k != last {
                assert(in_region(regs, k, u));
            }
        }
        if covered(regs, u) {
            let k = choose|k: int| #[trigger] in_region(regs, k, u);
            assert(in_region(more, k, u));
        }
        if region.contains(u) {
            assert(in_region(more, last, u));
        }
    }
}

/// The states that a cache has seen, in rising order.
fn gather(cache: &StateCache) -> (r: Vec<usize>)
    ensures
        numbers(r@).no_duplicates(),
        forall|u: int|
            numbers(r@).contains(u) <==> (0 <= u < cache.best.len() && cache.best[u] is Some),
{
    let mut out: Vec<usize> = Vec::new();
    let mut u: usize = 0;
    while u < cache.best.len()
        invariant
            u <= cache.best.len(),
            forall|i: int| 0 <= i < out.len() ==> (#[trigger] out[i]) < u,
            forall|i: int, j: int| 0 <= i < j < out.len() ==> out[i] < out[j],
            forall|x: int|
                0 <= x < u && cache.best[x] is Some ==> exists|i: int|
                    0 <= i < out.len() && #[trigger] out[i] == x,
            forall|i: int| 0 <= i < out.len() ==> cache.best[(#[trigger] out[i]) as int] is Some,
        decreases cache.best.len() - u,
    {
        if cache.best[u].is_some() {
            let ghost before = out@;
            out.push(u);
            proof {
                assert forall|x: int| 0 <= x < u + 1 && cache.best[x] is Some implies exists|i: int|
                    0 <= i < out.len() && #[trigger] out[i] == x by {
                    if x < u {
                        let i = choose|i: int| 0 <= i < before.len() && #[trigger] before[i] == x;
                        assert(out[i] == x);
                    } else {
                        assert(out[before.len() as int] == x);
                    }
                }
            }
        }
        u += 1;
    }
    proof {
        let nums = numbers(out@);
        assert forall|i: int, j: int| 0 <= i < nums.len() && 0 <= j < nums.len() && i != j implies nums[i]
            != nums[j] by {
            if i < j {
                assert(out[i] < out[j]);
            } else {
                assert(out[j] < out[i]);
            }
        }
        assert forall|x: int| nums.contains(x) <==> (0 <= x < cache.best.len()
            && cache.best[x] is Some) by {
            if nums.contains(x) {
                let i = choose|i: int| 0 <= i < nums.len() && nums[i] == x;
                assert(out[i] == x);
            }
            if 0 <= x < cache.best.len() && cache.best[x] is Some {
                let i = choose|i: int| 0 <= i < out.len() && #[trigger] out[i] == x;
                assert(nums[i] == x);
            }
        }
    }
    out
}

/// Splits the cells of a grid, by index, into the regions of cells that
/// hold the same letter and hang together along edges.
fn segment_cells(grid: &Grid) -> (r: Vec<Vec<usize>>)
    requires
        grid.wf(),
    ensures
        is_partition(grid@, all_numbers(r@)),
        area(all_numbers(r@), r.len() as int) == grid.data.len(),
{
    let ghost b = grid@;
    let cells = grid.data.len();
    let space = plot_space(grid);
    let mut assigned: Vec<bool> = Vec::new();
    let mut i: usize = 0;
    while i < cells
        invariant
            i <= cells,
            assigned.len() == i,
            forall|k: int| 0 <= k < i ==> !assigned[k],
        decreases cells - i,
    {
        assigned.push(false);
        i += 1;
    }
    let mut found: Vec<Vec<usize>> = Vec::new();
    let mut taken: usize = 0;
    proof {
        crate::counting::lemma_count_zero(cells as int, marks(assigned@));
        assert(all_numbers(found@) =~= Seq::<Seq<int>>::empty());
    }
    let mut v: usize = 0;
    while v < cells
        invariant
            v <= cells,
            b == grid@,
            b.wf(),
            cells == b.data.len(),
            space.wf(),
            space.moves.len() == cells,
            space.links() == plot_links(b),
            assigned.len() == cells,
            are_classes(b, all_numbers(found@)),
            forall|u: int|
                0 <= u < cells ==> (#[trigger] assigned[u] <==> covered(all_numbers(found@), u)),
            forall|u: int| 0 <= u < v ==> assigned[u],
            taken == count_below(cells as int, marks(assigned@)),
            taken == area(all_numbers(found@), found.len() as int),
        decreases cells - v,
    {
        if !assigned[v] {
            let mut seeds: Vec<usize> = Vec::new();
            seeds.push(v);
            assert(seeds@ =~= seq![v]);
            let cache = explore(&space, &seeds);
            assert(charted(plot_links(b), seq![v], cache.best@));
            let region = gather(&cache);
            let ghost regs = all_numbers(found@);
            let ghost cells_of_region = numbers(region@);
            proof {
                assert forall|u: int| cells_of_region.contains(u) <==> (0 <= u < b.data.len()
                    && connected(b, v as int, u)) by {
                    if 0 <= u < b.data.len() {
                        lemma_seen_is_connected(b, v as int, cache.best@, u);
                    }
                }
                lemma_new_class(b, regs, cells_of_region, v as int);
                assert forall|u: int| cells_of_region.contains(u) implies 0 <= u < cells
                    && !assigned[u] by {
                    if assigned[u] {
                        assert(covered(regs, u));
                        let k = choose|k: int| #[trigger] in_region(regs, k, u);
                        lemma_connected_back(b, v as int, u);
                        assert(in_region(regs, k, v as int));
                        assert(covered(regs, v as int));
                    }
                }
            }
            let ghost assigned_before = assigned@;
            let mut j: usize = 0;
            while j < region.len()
                invariant
                    j <= region.len(),
                    cells == b.data.len(),
                    assigned.len() == cells,
                    cells_of_region == numbers(region@),
                    cells_of_region.no_duplicates(),
                    forall|u: int|
                        cells_of_region.contains(u) ==> 0 <= u < cells && !assigned_before[u],
                    forall|u: int|
                        0 <= u < cells ==> (#[trigger] assigned[u] <==> (assigned_before[u]
                            || exists|i: int| 0 <= i < j && cells_of_region[i] == u)),
                    taken == count_below(cells as int, marks(assigned@)),
                    taken == area(regs, regs.len() as int) + j,
                decreases region.len() - j,
            {
                let u = region[j];
                proof {
                    assert(cells_of_region[j as int] == u);
                    assert(cells_of_region.contains(u as int));
                    if assigned[u as int] {
                        let i = choose|i: int| 0 <= i < j && cells_of_region[i] == u;
                        assert(cells_of_region[i] == cells_of_region[j as int]);
                    }
                    lemma_count_bound(cells as int, marks(assigned@));
                }
                let ghost marks_before = assigned@;
                assigned[u] = true;
                proof {
                    lemma_count_one_more(
                        cells as int,
                        marks(marks_before),
                        marks(assigned@),
                        u as int,
                    );
                    lemma_count_bound(cells as int, marks(assigned@));
                }
                taken += 1;
                j += 1;
            }
            let ghost found_before = found@;
            found.push(region);
            proof {
                assert(all_numbers(found@) =~= regs.push(cells_of_region));
                assert forall|u: int| 0 <= u < cells implies (#[trigger] assigned[u] <==> covered(
                    all_numbers(found@),
                    u,
                )) by {
                    if cells_of_region.contains(u) {
                        let i = choose|i: int|
                            0 <= i < cells_of_region.len() && cells_of_region[i] == u;
                    }
                }
                lemma_connected_self(b, v as int);
                assert(all_numbers(found@).drop_last() =~= regs);
                lemma_area_same(all_numbers(found@), regs, regs.len() as int);
            }
        }
        v += 1;
    }
    proof {
        assert forall|u: int| 0 <= u < cells implies #[trigger] marks(assigned@)(u) by {}
        lemma_count_all(cells as int, marks(assigned@));
        assert forall|u: int| 0 <= u < b.data.len() implies #[trigger] covered(
            all_numbers(found@),
            u,
        ) by {
            assert(assigned[u]);
        }
    }
    found
}

/// The area of the first `n` regions depends on those regions only.
proof fn lemma_area_same(a: Seq<Seq<int>>, b: Seq<Seq<int>>, n: int)
    requires
        n <= a.len(),
        n <= b.len(),
        forall|k: int| 0 <= k < n ==> a[k] == b[k],
    ensures
        area(a, n) == area(b, n),
    decreases n,
{
    if n > 0 {
        lemma_area_same(a, b, n - 1);
    }
}

/// The area of the regions grows with their number.
proof fn lemma_area_grows(regs: Seq<Seq<int>>, m: int, n: int)
    requires
        0 <= m <= n,
    ensures
        0 <= area(regs, m) <= area(regs, n),
    decreases n,
{
    if m < n {
        lemma_area_grows(regs, m, n - 1);
    } else if n > 0 {
        lemma_area_grows(regs, m - 1, n - 1);
    }
}

/// Whether every position of every region lies inside the board.
pub open spec fn all_inside(b: Board, regs: Seq<Vec<Position>>) -> bool {
    forall|k: int, i: int|
        0 <= k < regs.len() && 0 <= i < regs[k].len() ==> 0 <= (#[trigger] regs[k][i]).row
            < b.height && 0 <= regs[k][i].col < b.width
}

/// Whether `regs` splits the board into its regions: every position lies
/// inside the board, two cells are in one region exactly when they hold
/// the same letter and hang together along edges, and every cell is in
/// exactly one region, once.
pub open spec fn is_segmentation(b: Board, regs: Seq<Vec<Position>>) -> bool {
    &&& all_inside(b, regs)
    &&& is_partition(b, all_plots(b, regs))
    &&& area(all_plots(b, regs), regs.len() as int) == b.data.len()
}

/// Splits a grid into its regions: the sets of cells that hold the same
/// letter and hang together along edges. The cells of a region are listed
/// row after row, and the regions in the order of their first cells.
pub fn segment(grid: &Grid) -> (r: Vec<Vec<Position>>)
    requires
        grid.wf(),
        grid.height <= i64::MAX,
        grid.width <= i64::MAX,
    ensures
        is_segmentation(grid@, r@),
{
    let ghost b = grid@;
    let found = segment_cells(grid);
    let mut out: Vec<Vec<Position>> = Vec::new();
    let mut k: usize = 0;
    proof {
        assert(grid.width * grid.height == grid.height * grid.width) by (nonlinear_arith);
    }
    while k < found.len()
        invariant
            k <= found.len(),
            b == grid@,
            grid.wf(),
            grid.height <= i64::MAX,
            grid.width <= i64::MAX,
            grid.data.len() == grid.height * grid.width,
            are_classes(b, all_numbers(found@)),
            out.len() == k,
            all_inside(b, out@),
            forall|j: int| 0 <= j < k ==> plots_of(b, (#[trigger] out[j])@) == numbers(found[j]@),
        decreases found.len() - k,
    {
        let region = &found[k];
        let mut cells: Vec<Position> = Vec::new();
        let mut i: usize = 0;
        while i < region.len()
            invariant
                i <= region.len(),
                b == grid@,
                grid.wf(),
                grid.height <= i64::MAX,
                grid.width <= i64::MAX,
                grid.data.len() == grid.height * grid.width,
                k < found.len(),
                region == found[k as int],
                are_classes(b, all_numbers(found@)),
                cells.len() == i,
                forall|j: int|
                    0 <= j < i ==> 0 <= (#[trigger] cells[j]).row < b.height && 0 <= cells[j].col
                        < b.width && plot_of(b, cells[j]) == region[j],
            decreases region.len() - i,
        {
            let u = region[i];
            proof {
                assert(numbers(region@)[i as int] == u);
                assert(all_numbers(found@)[k as int] == numbers(region@));
                assert(in_region(all_numbers(found@), k as int, u as int));
                lemma_index_cell(u as int, grid.height as int, grid.width as int);
            }
            cells.push(Position { row: (u / grid.width) as i64, col: (u % grid.width) as i64 });
            i += 1;
        }
        assert(plots_of(b, cells@) =~= numbers(region@));
        let ghost before = out@;
        out.push(cells);
        proof {
            assert forall|a: int, i: int|
                0 <= a < out.len() && 0 <= i < out[a].len() implies 0 <= (#[trigger] out[a][i]).row
                < b.height && 0 <= out[a][i].col < b.width by {
                if a < k {
                    assert(out[a] == before[a]);
                }
            }
            assert forall|j: int| 0 <= j < k + 1 implies plots_of(b, (#[trigger] out[j])@) == numbers(
                found[j]@,
            ) by {
                if j < k {
                    assert(out[j] == before[j]);
                }
            }
        }
        k += 1;
    }
    assert(all_plots(b, out@) =~= all_numbers(found@));
    out
}

/// The price of the first `n` regions: for each, its area times the
/// length of its fence.
pub open spec fn price(regs: Seq<Vec<Position>>, n: int) -> int
    decreases n,
{
    if n <= 0 {
        0
    } else {
        price(regs, n - 1) + regs[n - 1].len() * perimeter(regs[n - 1]@)
    }
}

/// The discounted price of the first `n` regions: for each, its area times
/// the number of sides of its fence.
pub open spec fn bulk_price(regs: Seq<Vec<Position>>, n: int) -> int
    decreases n,
{
    if n <= 0 {
        0
    } else {
        bulk_price(regs, n - 1) + regs[n - 1].len() * corners(regs[n - 1]@)
    }
}

/// Adds up, over the regions, the area times what `sides` says when it is
/// set, and times the length of the fence otherwise.
fn priced(grid: &Grid, sides: bool) -> (r: (usize, Ghost<Seq<Vec<Position>>>))
    requires
        grid.wf(),
        grid.height <= i64::MAX,
        grid.width <= i64::MAX,
        4 * grid.data.len() * grid.data.len() <= usize::MAX,
    ensures
        is_segmentation(grid@, r.1@),
        r.0 == if sides {
            bulk_price(r.1@, r.1@.len() as int)
        } else {
            price(r.1@, r.1@.len() as int)
        },
{
    let ghost b = grid@;
    let cells = grid.data.len();
    let regs = segment(grid);
    let ghost plots = all_plots(b, regs@);
    assert(grid.width * grid.height >= 1) by (nonlinear_arith)
        requires
            grid.width >= 1,
            grid.height >= 1,
    ;
    let mut total: usize = 0;
    let mut k: usize = 0;
    while k < regs.len()
        invariant
            k <= regs.len(),
            cells == b.data.len(),
            cells >= 1,
            4 * cells * cells <= usize::MAX,
            plots == all_plots(b, regs@),
            area(plots, regs.len() as int) == cells,
            total == if sides {
                bulk_price(regs@, k as int)
            } else {
                price(regs@, k as int)
            },
            total <= 4 * cells * area(plots, k as int),
        decreases regs.len() - k,
    {
        let size = regs[k].len();
        proof {
            lemma_area_grows(plots, k + 1, regs.len() as int);
            lemma_area_grows(plots, k as int, k + 1);
            assert(plots[k as int].len() == size);
            assert(size <= cells);
            assert(4 * size <= 4 * cells * cells) by (nonlinear_arith)
                requires
                    size <= cells,
                    cells >= 1,
            ;
        }
        let fence = if sides {
            count_corners(&regs[k])
        } else {
            calculate_perimeter(&regs[k])
        };
        proof {
            assert(size * fence <= 4 * cells * size) by (nonlinear_arith)
                requires
                    fence <= 4 * size,
                    size <= cells,
            ;
            assert(4 * cells * area(plots, k as int) + 4 * cells * size == 4 * cells * area(
                plots,
                k + 1,
            )) by (nonlinear_arith)
                requires
                    area(plots, k + 1) == area(plots, k as int) + size,
            ;
            assert(4 * cells * area(plots, k + 1) <= 4 * cells * cells) by (nonlinear_arith)
                requires
                    0 <= area(plots, k + 1) <= cells,
            ;
        }
        total += size * fence;
        k += 1;
    }
    (total, Ghost(regs@))
}

/// The price of fencing all regions of a grid: for each region, its area
/// times the length of its fence.
pub fn total_price(grid: &Grid) -> (r: usize)
    requires
        grid.wf(),
        grid.height <= i64::MAX,
        grid.width <= i64::MAX,
        4 * grid.data.len() * grid.data.len() <= usize::MAX,
    ensures
        exists|regs: Seq<Vec<Position>>| #[trigger]
            is_segmentation(grid@, regs) && r == price(regs, regs.len() as int),
{
    let (total, Ghost(regs)) = priced(grid, false);
    assert(is_segmentation(grid@, regs) && total == price(regs, regs.len() as int));
    total
}

/// The discounted price of fencing all regions of a grid: for each region,
/// its area times the number of sides of its fence.
pub fn total_price_bulk_discount(grid: &Grid) -> (r: usize)
    requires
        grid.wf(),
        grid.height <= i64::MAX,
        grid.width <= i64::MAX,
        4 * grid.data.len() * grid.data.len() <= usize::MAX,
    ensures
        exists|regs: Seq<Vec<Position>>| #[trigger]
            is_segmentation(grid@, regs) && r == bulk_price(regs, regs.len() as int),
{
    let (total, Ghost(regs)) = priced(grid, true);
    assert(is_segmentation(grid@, regs) && total == bulk_price(regs, regs.len() as int));
    total
}

/// Whether a rectangle of lines is small enough for its prices to be
/// worked out in machine words.
pub open spec fn affordable(ls: Seq<Seq<char>>) -> bool {
    &&& ls.len() <= i64::MAX
    &&& ls[0].len() <= i64::MAX
    &&& 4 * (ls.len() * ls[0].len()) * (ls.len() * ls[0].len()) <= usize::MAX
}

/// Both answers for a garden given as text: the price of the fences, and
/// the discounted price. Fails when the lines of the text do not make a
/// rectangle.
pub fn solve(input: &str) -> (r: Result<(usize, usize), PuzzleError>)
    requires
        rectangular(lines(input@)) ==> affordable(lines(input@)),
    ensures
        match r {
            Ok((full, discounted)) => {
                &&& rectangular(lines(input@))
                &&& exists|regs: Seq<Vec<Position>>| #[trigger]
                    is_segmentation(board_of(lines(input@)), regs) && full == price(
                        regs,
                        regs.len() as int,
                    )
                &&& exists|regs: Seq<Vec<Position>>| #[trigger]
                    is_segmentation(board_of(lines(input@)), regs) && discounted == bulk_price(
                        regs,
                        regs.len() as int,
                    )
            },
            Err(e) => e == PuzzleError::MalformedInput && !rectangular(lines(input@)),
        },
{
    let grid = match Grid::new(input) {
        Ok(g) => g,
        Err(e) => {
            return Err(e);
        },
    };
    proof {
        grid.lemma_shows_board(lines(input@));
        assert(lines(input@)[0].len() == grid.width);
        assert(grid.width * grid.height == grid.height * grid.width) by (nonlinear_arith);
    }
    let full = total_price(&grid);
    let discounted = total_price_bulk_discount(&grid);
    Ok((full, discounted))
}

/// Whether the board `more` is the board `fewer` with the letter of the
/// cell `seed` on some cells that held another letter, and else the same.
pub open spec fn grown_at(fewer: Board, more: Board, seed: int) -> bool {
    &&& fewer.wf()
    &&& more.wf()
    &&& fewer.width == more.width
    &&& fewer.height == more.height
    &&& 0 <= seed < fewer.data.len()
    &&& forall|x: int|
        0 <= x < fewer.data.len() && #[trigger] fewer.data[x] != more.data[x] ==> fewer.data[x]
            != fewer.data[seed] && more.data[x] == fewer.data[seed]
}

/// Every cell of a walk that starts at a cell holds the letter of that cell.
proof fn lemma_one_letter(b: Board, t: Trail, x: int, y: int, i: int)
    requires
        joins(b, t, x, y),
        0 <= i < t.states.len(),
    ensures
        0 <= t.states[i] < b.data.len(),
        b.data[t.states[i]] == b.data[x],
    decreases i,
{
    if i > 0 {
        lemma_one_letter(b, t, x, y, i - 1);
        assert(plot_links(b)(t.states[i - 1], t.states[i], t.fees[i - 1]));
    }
}

/// A region only grows when more cells get its letter: what hangs together
/// with a cell still hangs together with it when cells of other letters
/// take its letter.
pub proof fn lemma_region_grows(fewer: Board, more: Board, seed: int, v: int)
    requires
        grown_at(fewer, more, seed),
        connected(fewer, seed, v),
    ensures
        connected(more, seed, v),
{
    let t = choose|t: Trail| #[trigger] joins(fewer, t, seed, v);
    assert(fewer.data.len() == more.data.len()) by {
        assert(fewer.data.len() == fewer.width * fewer.height);
        assert(more.data.len() == more.width * more.height);
    }
    assert forall|i: int| 0 <= i < t.fees.len() implies plot_links(more)(
        t.states[i],
        t.states[i + 1],
        #[trigger] t.fees[i],
    ) by {
        lemma_one_letter(fewer, t, seed, v, i);
        lemma_one_letter(fewer, t, seed, v, i + 1);
        assert(plot_links(fewer)(t.states[i], t.states[i + 1], t.fees[i]));
    }
    assert(joins(more, t, seed, v));
}

/// The region of a cell has no fewer cells when more cells get its letter:
/// of two boards split into their regions, the second being the first with
/// the letter of a cell on more cells, the region of that cell in the
/// second holds every cell of its region in the first.
pub proof fn lemma_region_count_grows(
    fewer: Board,
    more: Board,
    seed: int,
    before: Seq<Seq<int>>,
    after: Seq<Seq<int>>,
    j: int,
    k: int,
)
    requires
        grown_at(fewer, more, seed),
        is_partition(fewer, before),
        is_partition(more, after),
        in_region(before, j, seed),
        in_region(after, k, seed),
    ensures
        forall|v: int| in_region(before, j, v) ==> in_region(after, k, v),
        before[j].len() <= after[k].len(),
{
    assert forall|v: int| in_region(before, j, v) implies in_region(after, k, v) by {
        assert(connected(fewer, seed, v));
        lemma_region_grows(fewer, more, seed, v);
        assert(connected(more, seed, v));
    }
    assert forall|v: int| before[j].to_set().contains(v) implies after[k].to_set().contains(v) by {
        assert(in_region(before, j, v));
        assert(in_region(after, k, v));
    }
    before[j].unique_seq_to_set();
    after[k].unique_seq_to_set();
    vstd::set_lib::lemma_len_subset(before[j].to_set(), after[k].to_set());
}

} // verus!
