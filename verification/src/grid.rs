//! A dense two-dimensional store of characters, addressed by row and column.
use vstd::prelude::*;
use crate::error::PuzzleError;
use crate::text::{chars_of, lines, rows, split_lines};

verus! {

/// Whether `ls` is a non-empty list of rows that all have the same, positive length.
pub open spec fn rectangular(ls: Seq<Seq<char>>) -> bool {
    ls.len() > 0 && ls[0].len() > 0 && forall|i: int|
        0 <= i < ls.len() ==> (#[trigger] ls[i]).len() == ls[0].len()
}

/// Whether rows make a rectangle: there is a row, the rows are not empty,
/// and all have the same length.
pub fn is_rectangular(source: &Vec<Vec<char>>) -> (r: bool)
    ensures
        r == rectangular(rows(source@)),
{
    if source.len() == 0 {
        return false;
    }
    let width = source[0].len();
    assert(rows(source@)[0] == source[0]@);
    if width == 0 {
        return false;
    }
    let mut i: usize = 0;
    while i < source.len()
        invariant
            i <= source.len(),
            source.len() > 0,
            width == source[0].len(),
            width > 0,
            rows(source@)[0] == source[0]@,
            forall|k: int| 0 <= k < i ==> (#[trigger] rows(source@)[k]).len() == width,
        decreases source.len() - i,
    {
        assert(rows(source@)[i as int] == source[i as int]@);
        if source[i].len() != width {
            return false;
        }
        i += 1;
    }
    true
}

/// A cell index lies inside the grid when its row and column do.
pub proof fn lemma_cell_index(row: int, col: int, height: int, width: int)
    requires
        0 <= row < height,
        0 <= col < width,
    ensures
        0 <= row * width + col < height * width,
        (row * width + col) / width == row,
        (row * width + col) % width == col,
{
    assert(0 <= row * width + col < height * width) by (nonlinear_arith)
        requires
            0 <= row < height,
            0 <= col < width,
    ;
    vstd::arithmetic::div_mod::lemma_fundamental_div_mod_converse(
        row * width + col,
        width,
        row,
        col,
    );
}

/// Every index into a grid's cells has a row and a column inside the grid.
pub proof fn lemma_index_cell(index: int, height: int, width: int)
    requires
        0 <= index < height * width,
        0 < width,
    ensures
        0 <= index / width < height,
        0 <= index % width < width,
        (index / width) * width + index % width == index,
{
    vstd::arithmetic::div_mod::lemma_fundamental_div_mod(index, width);
    let q = index / width;
    assert(q * width == width * q) by (nonlinear_arith);
    assert(0 <= q < height) by (nonlinear_arith)
        requires
            0 <= index < height * width,
            0 < width,
            index == q * width + index % width,
            0 <= index % width < width,
    ;
}

/// The character in row `row` and column `col` of a list of rows, if there is one.
pub open spec fn letter(ls: Seq<Seq<char>>, row: int, col: int) -> Option<char> {
    if 0 <= row < ls.len() && 0 <= col < ls[row].len() {
        Some(ls[row][col])
    } else {
        None
    }
}

/// A rectangle of characters, stored row after row.
#[derive(Debug, PartialEq, Eq, Hash)]
pub struct Grid {
    pub width: usize,
    pub height: usize,
    pub data: Vec<char>,
}

/// What a grid holds, as a mathematical value.
pub ghost struct Board {
    pub width: int,
    pub height: int,
    pub data: Seq<char>,
}

impl Board {
    /// What the board holds at a position: a character inside, nothing outside.
    pub open spec fn cell(&self, row: int, col: int) -> Option<char> {
        if 0 <= row < self.height && 0 <= col < self.width {
            Some(self.data[row * self.width + col])
        } else {
            None
        }
    }

    /// The board with the cell at `index` replaced by `value`.
    pub open spec fn with(&self, index: int, value: char) -> Board {
        Board { width: self.width, height: self.height, data: self.data.update(index, value) }
    }

    /// The board has at least one cell and `data` holds exactly its cells.
    pub open spec fn wf(&self) -> bool {
        &&& self.width > 0
        &&& self.height > 0
        &&& self.data.len() == self.width * self.height
    }
}

/// The board that a rectangle of rows makes.
pub open spec fn board_of(ls: Seq<Seq<char>>) -> Board {
    Board {
        width: ls[0].len() as int,
        height: ls.len() as int,
        data: Seq::new(
            ls.len() * ls[0].len(),
            |k: int| ls[k / (ls[0].len() as int)][k % (ls[0].len() as int)],
        ),
    }
}

impl View for Grid {
    type V = Board;

    open spec fn view(&self) -> Board {
        Board { width: self.width as int, height: self.height as int, data: self.data@ }
    }
}

impl Grid {
    /// The grid has at least one cell and `data` holds exactly its cells.
    pub open spec fn wf(&self) -> bool {
        &&& self.width > 0
        &&& self.height > 0
        &&& self.data.len() == self.width * self.height
    }

    /// The character at a position inside the grid.
    pub open spec fn at(&self, row: int, col: int) -> char {
        self.data[row * self.width + col]
    }

    /// What the grid holds at a position: a character inside, nothing outside.
    pub open spec fn cell(&self, row: int, col: int) -> Option<char> {
        if 0 <= row < self.height && 0 <= col < self.width {
            Some(self.at(row, col))
        } else {
            None
        }
    }

    /// The grid holds exactly the rows `ls`.
    pub open spec fn shows(&self, ls: Seq<Seq<char>>) -> bool {
        &&& self.wf()
        &&& self.height == ls.len()
        &&& forall|r: int| 0 <= r < self.height ==> (#[trigger] ls[r]).len() == self.width
        &&& forall|r: int, c: int|
            0 <= r < self.height && 0 <= c < self.width ==> #[trigger] self.at(r, c) == ls[r][c]
    }

    /// Builds a grid from rows of characters. Fails when there is no row,
    /// when the rows are empty, or when they differ in length.
    pub fn from_rows(source: &Vec<Vec<char>>) -> (r: Result<Grid, PuzzleError>)
        ensures
            match r {
                Ok(g) => rectangular(rows(source@)) && g.shows(rows(source@)),
                Err(e) => e == PuzzleError::MalformedInput && !rectangular(rows(source@)),
            },
    {
        let ghost ls = rows(source@);
        if source.len() == 0 {
            return Err(PuzzleError::MalformedInput);
        }
        let height = source.len();
        let width = source[0].len();
        assert(ls[0] == source[0]@);
        if width == 0 {
            return Err(PuzzleError::MalformedInput);
        }
        let mut data: Vec<char> = Vec::new();
        let mut r: usize = 0;
        while r < height
            invariant
                r <= height == source.len(),
                width == source[0].len(),
                width > 0,
                ls == rows(source@),
                data.len() == r * width,
                forall|i: int| 0 <= i < r ==> (#[trigger] ls[i]).len() == width,
                forall|i: int, c: int|
                    0 <= i < r && 0 <= c < width ==> data[#[trigger] (i * width + c)] == ls[i][c],
            decreases height - r,
        {
            let row = &source[r];
            assert(ls[r as int] == row@);
            if row.len() != width {
                return Err(PuzzleError::MalformedInput);
            }
            let ghost before = data@;
            let mut c: usize = 0;
            while c < width
                invariant
                    c <= width == row.len(),
                    before.len() == r * width,
                    data@ == before + row@.take(c as int),
                decreases width - c,
            {
                data.push(row[c]);
                c += 1;
                assert(data@ =~= before + row@.take(c as int));
            }
            assert(row@.take(width as int) =~= row@);
            assert((r + 1) * width == r * width + width) by (nonlinear_arith);
            assert forall|i: int, c: int| 0 <= i < r + 1 && 0 <= c < width implies data[#[trigger] (
            i * width + c)] == ls[i][c] by {
                lemma_cell_index(i, c, r + 1, width as int);
                if i < r {
                    lemma_cell_index(i, c, r as int, width as int);
                    assert(data[i * width + c] == before[i * width + c]);
                } else {
                    assert(data[i * width + c] == row@[c]);
                }
            }
            r += 1;
        }
        let g = Grid { width, height, data };
        assert(height * width == width * height) by (nonlinear_arith);
        assert forall|r: int, c: int| 0 <= r < g.height && 0 <= c < g.width implies #[trigger] g.at(
            r,
            c,
        ) == ls[r][c] by {
            assert(g.data[r * width + c] == ls[r][c]);
        }
        Ok(g)
    }

    /// Builds a grid from text, one row per line. Fails when the text has no
    /// line, when the lines are empty, or when they differ in length.
    pub fn new(input: &str) -> (r: Result<Grid, PuzzleError>)
        ensures
            match r {
                Ok(g) => rectangular(lines(input@)) && g.shows(lines(input@)),
                Err(e) => e == PuzzleError::MalformedInput && !rectangular(lines(input@)),
            },
    {
        let text = chars_of(input);
        let source = split_lines(&text);
        Grid::from_rows(&source)
    }

    /// Looks up a cell. A missing coordinate, or one outside the grid, gives `None`.
    pub fn get(&self, row: Option<usize>, col: Option<usize>) -> (r: Option<char>)
        requires
            self.wf(),
        ensures
            r == match (row, col) {
                (Some(y), Some(x)) => self.cell(y as int, x as int),
                _ => None,
            },
            row is None || col is None ==> r is None,
            row is Some && row->0 >= self.height ==> r is None,
            col is Some && col->0 >= self.width ==> r is None,
    {
        match (row, col) {
            (Some(y), Some(x)) => self.get_at(y, x),
            _ => None,
        }
    }

    /// Looks up the cell at a row and a column; `None` outside the grid.
    pub fn get_at(&self, row: usize, col: usize) -> (r: Option<char>)
        requires
            self.wf(),
        ensures
            r == self.cell(row as int, col as int),
            row >= self.height || col >= self.width ==> r is None,
    {
        if row < self.height && col < self.width {
            proof {
                lemma_cell_index(row as int, col as int, self.height as int, self.width as int);
                assert(self.height * self.width == self.width * self.height) by (nonlinear_arith);
            }
            Some(self.data[row * self.width + col])
        } else {
            None
        }
    }

    /// Writes `value` into a cell inside the grid; every other cell stays as it was.
    pub fn set(&mut self, row: usize, col: usize, value: char)
        requires
            old(self).wf(),
            row < old(self).height,
            col < old(self).width,
        ensures
            final(self).wf(),
            final(self).width == old(self).width,
            final(self).height == old(self).height,
            final(self).data@ == old(self).data@.update(row * old(self).width + col, value),
            final(self).cell(row as int, col as int) == Some(value),
            forall|r: int, c: int|
                (r != row || c != col) ==> #[trigger] final(self).cell(r, c) == old(self).cell(r, c),
    {
        proof {
            lemma_cell_index(row as int, col as int, self.height as int, self.width as int);
            assert(self.height * self.width == self.width * self.height) by (nonlinear_arith);
        }
        let ghost before = *self;
        let index = row * self.width + col;
        self.data[index] = value;
        assert forall|r: int, c: int| (r != row || c != col) implies #[trigger] self.cell(r, c)
            == before.cell(r, c) by {
            if 0 <= r < self.height && 0 <= c < self.width {
                lemma_cell_index(r, c, self.height as int, self.width as int);
                lemma_cell_index(row as int, col as int, self.height as int, self.width as int);
                assert(r * self.width + c != index);
            }
        }
    }

    /// Looks up the cell that lies `down` rows below and `right` columns to
    /// the right of a position; `None` outside the grid.
    pub fn get_offset(&self, row: usize, col: usize, down: i64, right: i64) -> (r: Option<char>)
        requires
            self.wf(),
        ensures
            r == self.cell(row + down, col + right),
    {
        let y: i128 = row as i128 + down as i128;
        let x: i128 = col as i128 + right as i128;
        if 0 <= y && y < self.height as i128 && 0 <= x && x < self.width as i128 {
            self.get_at(y as usize, x as usize)
        } else {
            None
        }
    }

    /// A grid that shows rows holds, at every position, the letter of the rows.
    pub proof fn lemma_shows_letter(&self, ls: Seq<Seq<char>>, row: int, col: int)
        requires
            self.shows(ls),
        ensures
            self.cell(row, col) == letter(ls, row, col),
    {
        if 0 <= row < self.height && 0 <= col < self.width {
            assert(ls[row].len() == self.width);
            assert(self.at(row, col) == ls[row][col]);
        } else if 0 <= row < self.height {
            assert(ls[row].len() == self.width);
        }
    }

    /// Finds the first cell, row after row, that holds `wanted`.
    pub fn find_first(&self, wanted: char) -> (r: Option<(usize, usize)>)
        requires
            self.wf(),
        ensures
            match r {
                Some((row, col)) => {
                    &&& row < self.height
                    &&& col < self.width
                    &&& self.at(row as int, col as int) == wanted
                    &&& forall|k: int| 0 <= k < row * self.width + col ==> self.data[k] != wanted
                },
                None => forall|k: int| 0 <= k < self.data.len() ==> self.data[k] != wanted,
            },
    {
        let mut k: usize = 0;
        while k < self.data.len()
            invariant
                k <= self.data.len(),
                self.wf(),
                forall|j: int| 0 <= j < k ==> self.data[j] != wanted,
            decreases self.data.len() - k,
        {
            if self.data[k] == wanted {
                proof {
                    assert(self.width * self.height == self.height * self.width)
                        by (nonlinear_arith);
                    lemma_index_cell(k as int, self.height as int, self.width as int);
                }
                return Some((k / self.width, k % self.width));
            }
            k += 1;
        }
        None
    }

    /// A grid that shows rows is the board that the rows make.
    pub proof fn lemma_shows_board(&self, ls: Seq<Seq<char>>)
        requires
            self.shows(ls),
        ensures
            self@ == board_of(ls),
    {
        assert(self.width * self.height == self.height * self.width) by (nonlinear_arith);
        assert(ls[0].len() == self.width);
        assert forall|k: int| 0 <= k < self.data.len() implies self.data[k] == board_of(ls).data[k] by {
            lemma_index_cell(k, self.height as int, self.width as int);
            assert(self.at(k / (self.width as int), k % (self.width as int)) == ls[k / (
            self.width as int)][k % (self.width as int)]);
        }
        assert(self@.data =~= board_of(ls).data);
    }

    /// A copy of the grid.
    pub fn duplicate(&self) -> (r: Grid)
        ensures
            r.width == self.width,
            r.height == self.height,
            r.data@ == self.data@,
    {
        Grid { width: self.width, height: self.height, data: self.data.clone() }
    }
}

} // verus!
