//! A map of heights: from every lowest cell, the trails that climb one
//! level per step up to the highest level.
use vstd::prelude::*;
use crate::counting::{count_below, lemma_count_bound, lemma_sum_grows, sum_below};
use crate::error::PuzzleError;
use crate::grid::{lemma_cell_index, lemma_index_cell, rectangular};
use crate::text::{is_digit, digit_value, lines};

verus! {

/// The level at which every trail ends.
pub const SUMMIT: usize = 9;

/// A rectangle of heights, stored row after row.
#[derive(Debug)]
pub struct Grid {
    pub width: usize,
    pub height: usize,
    pub data: Vec<usize>,
}

/// A position by row and column.
#[derive(Debug, Clone, Copy, PartialEq, Eq, Hash, Structural)]
pub struct Position {
    pub row: usize,
    pub col: usize,
}

/// What to measure of a trailhead.
#[derive(Debug, Clone, Copy, PartialEq, Eq, Structural)]
pub enum Measure {
    /// The number of summits that trails lead to.
    Score,
    /// The number of trails.
    Rating,
}

impl Grid {
    /// The grid has at least one cell and `data` holds exactly its cells.
    pub open spec fn wf(&self) -> bool {
        &&& self.width > 0
        &&& self.height > 0
        &&& self.data.len() == self.width * self.height
    }

    /// The height at a position: a number inside the grid, nothing outside.
    pub open spec fn level(&self, row: int, col: int) -> Option<usize> {
        if 0 <= row < self.height && 0 <= col < self.width {
            Some(self.data[row * self.width + col])
        } else {
            None
        }
    }

    /// The grid holds the digits of the rows `ls` as heights.
    pub open spec fn shows(&self, ls: Seq<Seq<char>>) -> bool {
        &&& self.wf()
        &&& self.height == ls.len()
        &&& self.width == ls[0].len()
        &&& forall|k: int|
            0 <= k < self.data.len() ==> #[trigger] self.data[k] == digit_value(
                ls[k / (self.width as int)][k % (self.width as int)],
            )
    }
}

/// Whether the `j`-th character of rows of width `w`, counting row after
/// row, is a digit.
pub open spec fn digit_at(ls: Seq<Seq<char>>, w: int, j: int) -> bool {
    is_digit(ls[j / w][j % w])
}

/// Whether every character of the rows is a digit.
pub open spec fn all_heights(ls: Seq<Seq<char>>) -> bool {
    forall|r: int, c: int|
        0 <= r < ls.len() && 0 <= c < ls[r].len() ==> is_digit(#[trigger] ls[r][c])
}

/// The number of trails that lead from `origin` to the position in `k`
/// steps, each step going to a cell next door and the `i`-th step arriving
/// at height `i`. The height of `origin` itself plays no part.
pub open spec fn ways(g: Grid, origin: Position, k: int, row: int, col: int) -> int
    decreases k,
{
    if k <= 0 {
        if row == origin.row && col == origin.col {
            1
        } else {
            0
        }
    } else if g.level(row, col) == Some(k as usize) {
        ways(g, origin, k - 1, row - 1, col) + ways(g, origin, k - 1, row + 1, col) + ways(
            g,
            origin,
            k - 1,
            row,
            col - 1,
        ) + ways(g, origin, k - 1, row, col + 1)
    } else {
        0
    }
}

/// Four to the power of `k`.
pub open spec fn four_to(k: int) -> int
    decreases k,
{
    if k <= 0 {
        1
    } else {
        4 * four_to(k - 1)
    }
}

/// No more than four to the `k` trails of `k` steps lead to a position.
pub proof fn lemma_ways_bound(g: Grid, origin: Position, k: int, row: int, col: int)
    ensures
        0 <= ways(g, origin, k, row, col) <= four_to(k),
    decreases k,
{
    if k > 0 {
        lemma_ways_bound(g, origin, k - 1, row - 1, col);
        lemma_ways_bound(g, origin, k - 1, row + 1, col);
        lemma_ways_bound(g, origin, k - 1, row, col - 1);
        lemma_ways_bound(g, origin, k - 1, row, col + 1);
    }
}

/// The number of trails from `origin` to the `c`-th cell, in `k` steps.
pub open spec fn ways_to(g: Grid, origin: Position, k: int) -> spec_fn(int) -> int {
    |c: int| ways(g, origin, k, c / (g.width as int), c % (g.width as int))
}

/// Whether a trail leads from `origin` to the `c`-th cell in `k` steps.
pub open spec fn reached(g: Grid, origin: Position, k: int) -> spec_fn(int) -> bool {
    |c: int| ways(g, origin, k, c / (g.width as int), c % (g.width as int)) > 0
}

/// The number of summits to which a trail leads from `origin`.
pub open spec fn score(g: Grid, origin: Position) -> int {
    count_below(g.data.len() as int, reached(g, origin, SUMMIT as int)) as int
}

/// The number of trails that lead from `origin` to a summit.
pub open spec fn rating(g: Grid, origin: Position) -> int {
    sum_below(g.data.len() as int, ways_to(g, origin, SUMMIT as int))
}

/// What the `c`-th cell adds to the sum over the grid: its measure if it is
/// a lowest cell, nothing otherwise.
pub open spec fn share(g: Grid, measure: Measure) -> spec_fn(int) -> int {
    |c: int|
        if g.data[c] == 0 {
            let origin = Position {
                row: (c / (g.width as int)) as usize,
                col: (c % (g.width as int)) as usize,
            };
            match measure {
                Measure::Score => score(g, origin),
                Measure::Rating => rating(g, origin),
            }
        } else {
            0
        }
}

/// The sum of a measure over the lowest cells of the grid.
pub open spec fn sum_over(g: Grid, measure: Measure) -> int {
    sum_below(g.data.len() as int, share(g, measure))
}

impl Grid {
    /// Reads a grid of heights, one digit per cell and one row per line.
    ///
    /// Fails with `MalformedInput` when the lines of the text do not make a
    /// rectangle, and with `InvalidCell` when they do but hold something
    /// else than digits.
    pub fn new(input: &str) -> (r: Result<Grid, PuzzleError>)
        ensures
            match r {
                Ok(g) => rectangular(lines(input@)) && all_heights(lines(input@)) && g.shows(
                    lines(input@),
                ),
                Err(e) => if rectangular(lines(input@)) {
                    e == PuzzleError::InvalidCell && !all_heights(lines(input@))
                } else {
                    e == PuzzleError::MalformedInput
                },
            },
    {
        let letters = match crate::grid::Grid::new(input) {
            Ok(g) => g,
            Err(e) => {
                return Err(e);
            },
        };
        let ghost ls = lines(input@);
        let ghost w = letters.width as int;
        let mut data: Vec<usize> = Vec::new();
        let mut k: usize = 0;
        proof {
            assert(letters.width * letters.height == letters.height * letters.width)
                by (nonlinear_arith);
            letters.lemma_shows_board(ls);
            assert(ls[0].len() == letters.width);
        }
        while k < letters.data.len()
            invariant
                k <= letters.data.len(),
                letters.shows(ls),
                w == letters.width,
                w == ls[0].len(),
                ls == lines(input@),
                rectangular(ls),
                letters.data.len() == letters.height * letters.width,
                letters.data@ == crate::grid::board_of(ls).data,
                data.len() == k,
                forall|j: int| 0 <= j < k ==> #[trigger] digit_at(ls, w, j),
                forall|j: int| 0 <= j < k ==> #[trigger] data[j] == digit_value(ls[j / w][j % w]),
            decreases letters.data.len() - k,
        {
            proof {
                lemma_index_cell(k as int, letters.height as int, w);
                assert(letters.data@[k as int] == ls[k as int / w][k as int % w]);
                assert(ls[k as int / w].len() == w);
            }
            let c = letters.data[k];
            let n: u32 = c as u32;
            if n < 0x30 || n > 0x39 {
                assert(!is_digit(ls[k as int / w][k as int % w]));
                return Err(PuzzleError::InvalidCell);
            }
            let ghost before = data@;
            data.push((n - 0x30) as usize);
            proof {
                let kk = k as int;
                assert(is_digit(ls[kk / w][kk % w]));
                assert(data[kk] == digit_value(ls[kk / w][kk % w]));
                assert(digit_at(ls, w, kk));
            }
            k += 1;
        }
        proof {
            assert forall|r: int, c: int| 0 <= r < ls.len() && 0 <= c < ls[r].len() implies is_digit(
                #[trigger] ls[r][c],
            ) by {
                assert(ls[r].len() == letters.width);
                lemma_cell_index(r, c, letters.height as int, w);
                let j = r * w + c;
                assert(digit_at(ls, w, j));
            }
        }
        Ok(Grid { width: letters.width, height: letters.height, data })
    }

    /// The height at a position; `None` outside the grid.
    pub fn get(&self, position: &Position) -> (r: Option<usize>)
        requires
            self.wf(),
        ensures
            r == self.level(position.row as int, position.col as int),
            position.row >= self.height || position.col >= self.width ==> r is None,
    {
        if position.row < self.height && position.col < self.width {
            proof {
                lemma_cell_index(
                    position.row as int,
                    position.col as int,
                    self.height as int,
                    self.width as int,
                );
                assert(self.height * self.width == self.width * self.height) by (nonlinear_arith);
            }
            Some(self.data[position.row * self.width + position.col])
        } else {
            None
        }
    }
}

/// The four positions next to a position, as far as their row and column
/// are not negative and fit in a machine word: above, below, left, right.
pub open spec fn beside(p: Position) -> Seq<Position> {
    let above: Seq<Position> = if p.row > 0 {
        seq![Position { row: (p.row - 1) as usize, col: p.col }]
    } else {
        seq![]
    };
    let below: Seq<Position> = if p.row < usize::MAX {
        seq![Position { row: (p.row + 1) as usize, col: p.col }]
    } else {
        seq![]
    };
    let left: Seq<Position> = if p.col > 0 {
        seq![Position { row: p.row, col: (p.col - 1) as usize }]
    } else {
        seq![]
    };
    let right: Seq<Position> = if p.col < usize::MAX {
        seq![Position { row: p.row, col: (p.col + 1) as usize }]
    } else {
        seq![]
    };
    above + below + left + right
}

impl Position {
    /// The positions next to this one: above, below, left and right, leaving
    /// out those whose row or column would be negative or too large.
    pub fn get_direct_neighbors(&self) -> (r: Vec<Position>)
        ensures
            r@ == beside(*self),
    {
        let mut out: Vec<Position> = Vec::new();
        if self.row > 0 {
            out.push(Position { row: self.row - 1, col: self.col });
        }
        let ghost first = out@;
        if self.row < usize::MAX {
            out.push(Position { row: self.row + 1, col: self.col });
        }
        let ghost second = out@;
        if self.col > 0 {
            out.push(Position { row: self.row, col: self.col - 1 });
        }
        let ghost third = out@;
        if self.col < usize::MAX {
            out.push(Position { row: self.row, col: self.col + 1 });
        }
        assert(out@ =~= beside(*self));
        out
    }
}

/// The number of trails that arrive at a position from the level below,
/// given the numbers of trails to every cell of that level.
fn arriving(grid: &Grid, origin: &Position, below: &Vec<usize>, level: usize, row: usize, col: usize) -> (r:
    usize)
    requires
        grid.wf(),
        1 <= level <= SUMMIT,
        row < grid.height,
        col < grid.width,
        below.len() == grid.data.len(),
        forall|c: int|
            0 <= c < below.len() ==> #[trigger] below[c] == ways_to(*grid, *origin, level - 1)(c),
    ensures
        r == ways(*grid, *origin, level - 1, row - 1, col as int) + ways(
            *grid,
            *origin,
            level - 1,
            row + 1,
            col as int,
        ) + ways(*grid, *origin, level - 1, row as int, col - 1) + ways(
            *grid,
            *origin,
            level - 1,
            row as int,
            col + 1,
        ),
{
    let a = trails_at(grid, origin, below, level, row as i128 - 1, col as i128);
    let b = trails_at(grid, origin, below, level, row as i128 + 1, col as i128);
    let c = trails_at(grid, origin, below, level, row as i128, col as i128 - 1);
    let d = trails_at(grid, origin, below, level, row as i128, col as i128 + 1);
    proof {
        lemma_ways_bound(*grid, *origin, level - 1, row - 1, col as int);
        lemma_ways_bound(*grid, *origin, level - 1, row + 1, col as int);
        lemma_ways_bound(*grid, *origin, level - 1, row as int, col - 1);
        lemma_ways_bound(*grid, *origin, level - 1, row as int, col + 1);
        lemma_four_to_nine(level - 1);
    }
    a + b + c + d
}

/// Four to a power of at most eight is at most 65536.
proof fn lemma_four_to_nine(k: int)
    requires
        k <= 8,
    ensures
        four_to(k) <= 65536,
    decreases 8 - k,
{
    reveal_with_fuel(four_to, 10);
}

/// The number of trails of `level - 1` steps that lead to a position, which
/// may lie outside the grid.
fn trails_at(grid: &Grid, origin: &Position, below: &Vec<usize>, level: usize, row: i128, col: i128) -> (r:
    usize)
    requires
        grid.wf(),
        1 <= level <= SUMMIT,
        -1 <= row <= usize::MAX + 1,
        -1 <= col <= usize::MAX + 1,
        below.len() == grid.data.len(),
        forall|c: int|
            0 <= c < below.len() ==> #[trigger] below[c] == ways_to(*grid, *origin, level - 1)(c),
    ensures
        r == ways(*grid, *origin, level - 1, row as int, col as int),
{
    if level == 1 {
        if row == origin.row as i128 && col == origin.col as i128 {
            1
        } else {
            0
        }
    } else if 0 <= row && row < grid.height as i128 && 0 <= col && col < grid.width as i128 {
        proof {
            lemma_cell_index(row as int, col as int, grid.height as int, grid.width as int);
            assert(grid.height * grid.width == grid.width * grid.height) by (nonlinear_arith);
        }
        let index = (row as usize) * grid.width + (col as usize);
        assert(below[index as int] == ways_to(*grid, *origin, level - 1)(index as int));
        below[index]
    } else {
        0
    }
}

/// For every cell, the number of trails that lead to it from `origin` in
/// nine steps.
fn climb(origin: &Position, grid: &Grid) -> (r: Vec<usize>)
    requires
        grid.wf(),
    ensures
        r.len() == grid.data.len(),
        forall|c: int|
            0 <= c < r.len() ==> #[trigger] r[c] == ways_to(*grid, *origin, SUMMIT as int)(c),
{
    let cells = grid.data.len();
    let mut below: Vec<usize> = Vec::new();
    let mut c: usize = 0;
    proof {
        assert(grid.height * grid.width == grid.width * grid.height) by (nonlinear_arith);
    }
    while c < cells
        invariant
            c <= cells,
            cells == grid.data.len(),
            cells == grid.height * grid.width,
            grid.wf(),
            below.len() == c,
            forall|j: int| 0 <= j < c ==> #[trigger] below[j] == ways_to(*grid, *origin, 0)(j),
        decreases cells - c,
    {
        proof {
            lemma_index_cell(c as int, grid.height as int, grid.width as int);
        }
        let row = c / grid.width;
        let col = c % grid.width;
        below.push(
            if row == origin.row && col == origin.col {
                1
            } else {
                0
            },
        );
        c += 1;
    }
    let mut level: usize = 1;
    while level <= SUMMIT
        invariant
            1 <= level <= SUMMIT + 1,
            cells == grid.data.len(),
            cells == grid.height * grid.width,
            grid.wf(),
            below.len() == cells,
            forall|j: int|
                0 <= j < cells ==> #[trigger] below[j] == ways_to(*grid, *origin, level - 1)(j),
        decreases SUMMIT + 1 - level,
    {
        let mut next: Vec<usize> = Vec::new();
        let mut c: usize = 0;
        while c < cells
            invariant
                c <= cells,
                1 <= level <= SUMMIT,
                cells == grid.data.len(),
                cells == grid.height * grid.width,
                grid.wf(),
                below.len() == cells,
                forall|j: int|
                    0 <= j < cells ==> #[trigger] below[j] == ways_to(*grid, *origin, level - 1)(j),
                next.len() == c,
                forall|j: int|
                    0 <= j < c ==> #[trigger] next[j] == ways_to(*grid, *origin, level as int)(j),
            decreases cells - c,
        {
            proof {
                lemma_index_cell(c as int, grid.height as int, grid.width as int);
            }
            let row = c / grid.width;
            let col = c % grid.width;
            let value = if grid.data[c] == level {
                arriving(grid, origin, &below, level, row, col)
            } else {
                0
            };
            next.push(value);
            c += 1;
        }
        below = next;
        level += 1;
    }
    below
}

/// The number of summits to which a trail leads from `origin`.
pub fn trailheads_score(origin: &Position, grid: &Grid) -> (r: usize)
    requires
        grid.wf(),
    ensures
        r == score(*grid, *origin),
{
    let top = climb(origin, grid);
    let mut count: usize = 0;
    let mut c: usize = 0;
    while c < top.len()
        invariant
            c <= top.len(),
            top.len() == grid.data.len(),
            forall|j: int|
                0 <= j < top.len() ==> #[trigger] top[j] == ways_to(*grid, *origin, SUMMIT as int)(
                    j,
                ),
            count == count_below(c as int, reached(*grid, *origin, SUMMIT as int)),
        decreases top.len() - c,
    {
        proof {
            lemma_count_bound(c as int, reached(*grid, *origin, SUMMIT as int));
            assert(top[c as int] == ways_to(*grid, *origin, SUMMIT as int)(c as int));
        }
        if top[c] > 0 {
            count += 1;
        }
        c += 1;
    }
    count
}

/// The number of trails that lead from `origin` to a summit.
pub fn trailheads_rating(origin: &Position, grid: &Grid) -> (r: usize)
    requires
        grid.wf(),
        rating(*grid, *origin) <= usize::MAX,
    ensures
        r == rating(*grid, *origin),
{
    let top = climb(origin, grid);
    let mut total: usize = 0;
    let mut c: usize = 0;
    while c < top.len()
        invariant
            c <= top.len(),
            top.len() == grid.data.len(),
            rating(*grid, *origin) <= usize::MAX,
            forall|j: int|
                0 <= j < top.len() ==> #[trigger] top[j] == ways_to(*grid, *origin, SUMMIT as int)(
                    j,
                ),
            total == sum_below(c as int, ways_to(*grid, *origin, SUMMIT as int)),
        decreases top.len() - c,
    {
        proof {
            assert forall|j: int| 0 <= j < top.len() implies 0 <= #[trigger] ways_to(
                *grid,
                *origin,
                SUMMIT as int,
            )(j) by {
                lemma_ways_bound(
                    *grid,
                    *origin,
                    SUMMIT as int,
                    j / (grid.width as int),
                    j % (grid.width as int),
                );
            }
            lemma_sum_grows(c + 1, top.len() as int, ways_to(*grid, *origin, SUMMIT as int));
            assert(top[c as int] == ways_to(*grid, *origin, SUMMIT as int)(c as int));
        }
        total += top[c];
        c += 1;
    }
    total
}

/// Whether every rating that the sum over the grid needs fits in a machine word.
pub open spec fn ratings_fit(g: Grid) -> bool {
    forall|c: int|
        0 <= c < g.data.len() ==> rating(
            g,
            Position {
                row: #[trigger] (c / (g.width as int)) as usize,
                col: (c % (g.width as int)) as usize,
            },
        ) <= usize::MAX
}

/// Adds up a measure over the lowest cells of the grid.
pub fn sum_over_grid(grid: &Grid, measure: Measure) -> (r: usize)
    requires
        grid.wf(),
        sum_over(*grid, measure) <= usize::MAX,
        measure == Measure::Rating ==> ratings_fit(*grid),
    ensures
        r == sum_over(*grid, measure),
{
    let mut total: usize = 0;
    let mut c: usize = 0;
    proof {
        assert(grid.height * grid.width == grid.width * grid.height) by (nonlinear_arith);
    }
    while c < grid.data.len()
        invariant
            c <= grid.data.len(),
            grid.wf(),
            grid.data.len() == grid.height * grid.width,
            sum_over(*grid, measure) <= usize::MAX,
            measure == Measure::Rating ==> ratings_fit(*grid),
            total == sum_below(c as int, share(*grid, measure)),
        decreases grid.data.len() - c,
    {
        proof {
            lemma_index_cell(c as int, grid.height as int, grid.width as int);
            assert forall|j: int| 0 <= j < grid.data.len() implies 0 <= #[trigger] share(
                *grid,
                measure,
            )(j) by {
                let origin = Position {
                    row: (j / (grid.width as int)) as usize,
                    col: (j % (grid.width as int)) as usize,
                };
                assert forall|i: int| 0 <= i < grid.data.len() implies 0 <= #[trigger] ways_to(
                    *grid,
                    origin,
                    SUMMIT as int,
                )(i) by {
                    lemma_ways_bound(
                        *grid,
                        origin,
                        SUMMIT as int,
                        i / (grid.width as int),
                        i % (grid.width as int),
                    );
                }
                lemma_sum_grows(
                    0,
                    grid.data.len() as int,
                    ways_to(*grid, origin, SUMMIT as int),
                );
            }
            lemma_sum_grows(c + 1, grid.data.len() as int, share(*grid, measure));
        }
        if grid.data[c] == 0 {
            let origin = Position { row: c / grid.width, col: c % grid.width };
            let value = match measure {
                Measure::Score => trailheads_score(&origin, grid),
                Measure::Rating => trailheads_rating(&origin, grid),
            };
            total += value;
        }
        c += 1;
    }
    total
}

/// Whether the sums over a grid, and the ratings that go into them, fit
/// in machine words.
pub open spec fn countable(g: Grid) -> bool {
    &&& sum_over(g, Measure::Score) <= usize::MAX
    &&& sum_over(g, Measure::Rating) <= usize::MAX
    &&& ratings_fit(g)
}

/// Both answers for a map of heights given as text: the sum of the scores
/// and the sum of the ratings of all lowest cells.
///
/// Fails with `MalformedInput` when the lines of the text do not make a
/// rectangle, and with `InvalidCell` when they do but hold something else
/// than digits.
pub fn solve(input: &str) -> (r: Result<(usize, usize), PuzzleError>)
    requires
        forall|g: Grid| #[trigger] g.shows(lines(input@)) ==> countable(g),
    ensures
        match r {
            Ok((scores, ratings)) => {
                &&& rectangular(lines(input@))
                &&& all_heights(lines(input@))
                &&& exists|g: Grid| #[trigger]
                    g.shows(lines(input@)) && scores == sum_over(g, Measure::Score) && ratings
                        == sum_over(g, Measure::Rating)
            },
            Err(e) => if rectangular(lines(input@)) {
                e == PuzzleError::InvalidCell && !all_heights(lines(input@))
            } else {
                e == PuzzleError::MalformedInput
            },
        },
{
    let grid = match Grid::new(input) {
        Ok(g) => g,
        Err(e) => {
            return Err(e);
        },
    };
    let scores = sum_over_grid(&grid, Measure::Score);
    let ratings = sum_over_grid(&grid, Measure::Rating);
    assert(grid.shows(lines(input@)));
    Ok((scores, ratings))
}

} // verus!
