//! Reading a maze from its description.
//!
//! A description is text. Its first line writes the number of rows, its
//! second the number of columns, and one line for each row follows, with
//! one byte for each square: `#` for a wall, a space for a free square,
//! `S` for the start and `E` for the end. A row's line is taken as it
//! stands: every byte of it up to the newline counts as a square, so a
//! line with a blank too many, or with a carriage return before the
//! newline, is not a row.

use vstd::prelude::*;
use crate::cell::Cell;
use crate::cell::Coord;
use crate::cell::symbol_cell;
use crate::grid::cell_at;
use crate::grid::cells_of;
use crate::grid::in_grid;
use crate::grid::untouched;
use crate::model::MazeView;
use crate::text::lines;
use crate::text::number;
use crate::text::parse_number;
use crate::text::split_lines;

verus! {

/// Why a description is not a maze. Where several reasons apply, the one
/// that comes first here is given.
#[derive(Clone, Copy, Debug, PartialEq, Eq, Structural)]
pub enum LoadError {
    /// One of the first two lines is missing or writes no number.
    Dimension,
    /// The number of lines after the first two is not the number of rows.
    RowCount,
    /// Some row has not as many bytes as there are columns.
    RowLength,
    /// Some byte of a row stands for no square.
    Symbol,
    /// The rows hold no start, or more than one.
    StartCount,
    /// The rows hold no end, or more than one.
    EndCount,
}

/// Every byte of the line stands for a square.
pub open spec fn all_known(line: Seq<u8>) -> bool {
    forall|i: int| 0 <= i < line.len() ==> symbol_cell(#[trigger] line[i]) is Some
}

/// The squares that the bytes of a line stand for.
pub open spec fn row_cells(line: Seq<u8>) -> Seq<Cell> {
    Seq::new(line.len(), |i: int| symbol_cell(line[i]).unwrap())
}

/// The lines of the rows: those after the first two, each as it stands.
pub open spec fn row_lines(text: Seq<u8>) -> Seq<Seq<u8>> {
    Seq::new((lines(text).len() - 2) as nat, |r: int| lines(text)[r + 2])
}

/// `p` is the one position of the grid that holds `c`.
pub open spec fn sole(cells: Seq<Seq<Cell>>, c: Cell, p: Coord) -> bool {
    &&& in_grid(cells, p)
    &&& cell_at(cells, p) == c
    &&& forall|q: Coord| in_grid(cells, q) && #[trigger] cell_at(cells, q) == c ==> q == p
}

/// Exactly one position of the grid holds `c`.
pub open spec fn has_sole(cells: Seq<Seq<Cell>>, c: Cell) -> bool {
    exists|p: Coord| sole(cells, c, p)
}

/// The maze that a description stands for, or the reason why it stands
/// for none.
pub open spec fn loaded(text: Seq<u8>) -> Result<MazeView, LoadError> {
    let head = lines(text);
    if head.len() < 2 || number(head[0]) is None || number(head[1]) is None {
        Err(LoadError::Dimension)
    } else {
        let rows = number(head[0]).unwrap();
        let cols = number(head[1]).unwrap();
        let body = row_lines(text);
        let cells = Seq::new(body.len(), |r: int| row_cells(body[r]));
        if body.len() != rows {
            Err(LoadError::RowCount)
        } else if exists|r: int| 0 <= r < body.len() && (#[trigger] body[r]).len() != cols {
            Err(LoadError::RowLength)
        } else if exists|r: int| 0 <= r < body.len() && !all_known(#[trigger] body[r]) {
            Err(LoadError::Symbol)
        } else if !has_sole(cells, Cell::Start) {
            Err(LoadError::StartCount)
        } else if !has_sole(cells, Cell::End) {
            Err(LoadError::EndCount)
        } else {
            Ok(
                MazeView {
                    cells,
                    parents: Map::empty(),
                    start: choose|p: Coord| sole(cells, Cell::Start, p),
                    end: choose|p: Coord| sole(cells, Cell::End, p),
                },
            )
        }
    }
}

/// A maze that a description stands for is valid, no search has touched
/// it, and its start and its end are different squares.
pub proof fn lemma_loaded_valid(text: Seq<u8>)
    requires
        loaded(text) is Ok,
    ensures
        loaded(text).unwrap().valid(),
        untouched(loaded(text).unwrap().cells),
        loaded(text).unwrap().start != loaded(text).unwrap().end,
{
    let m = loaded(text).unwrap();
    let body = row_lines(text);
    let cols = number(lines(text)[1]).unwrap();
    assert(sole(m.cells, Cell::Start, m.start));
    assert(sole(m.cells, Cell::End, m.end));
    assert forall|r: int| 0 <= r < m.cells.len() implies (#[trigger] m.cells[r]).len() == cols by {
        assert(body[r].len() == cols);
    }
    assert forall|p: Coord| in_grid(m.cells, p) implies #[trigger] cell_at(m.cells, p)
        != Cell::PathVisited && cell_at(m.cells, p) != Cell::PathSolution by {
        assert(all_known(body[p.row as int]));
        assert(symbol_cell(body[p.row as int][p.col as int]) is Some);
    }
}

/// In a description that stands for a maze, every line after the first
/// two is a row as it is written: it has one byte for each column, every
/// byte of it stands for a square, and the row holds those squares.
pub proof fn lemma_loaded_rows_as_written(text: Seq<u8>, r: int)
    requires
        loaded(text) is Ok,
        0 <= r < lines(text).len() - 2,
    ensures
        loaded(text).unwrap().cells.len() == lines(text).len() - 2,
        lines(text)[r + 2].len() == number(lines(text)[1]).unwrap(),
        all_known(lines(text)[r + 2]),
        loaded(text).unwrap().cells[r] == row_cells(lines(text)[r + 2]),
{
    let body = row_lines(text);
    assert(body[r] == lines(text)[r + 2]);
}

/// One byte that stands for no square, anywhere in a line after the first
/// two, and the description stands for no maze.
pub proof fn lemma_unknown_byte_is_refused(text: Seq<u8>, r: int, i: int)
    requires
        2 <= r < lines(text).len(),
        0 <= i < lines(text)[r].len(),
        symbol_cell(lines(text)[r][i]) is None,
    ensures
        loaded(text) is Err,
{
    let body = row_lines(text);
    assert(body[r - 2] == lines(text)[r]);
    assert(!all_known(body[r - 2]));
}

/// A line after the first two that has not exactly one byte for each
/// column, and the description stands for no maze.
pub proof fn lemma_wrong_length_is_refused(text: Seq<u8>, r: int)
    requires
        2 <= r < lines(text).len(),
        number(lines(text)[1]) is Some ==> lines(text)[r].len() != number(lines(text)[1]).unwrap(),
    ensures
        loaded(text) is Err,
{
    let body = row_lines(text);
    assert(body[r - 2] == lines(text)[r]);
}

/// Finds the one position of the grid that holds `c`.
pub fn find_sole(grid: &Vec<Vec<Cell>>, c: Cell) -> (out: Option<Coord>)
    ensures
        match out {
            Some(p) => sole(cells_of(*grid), c, p),
            None => !has_sole(cells_of(*grid), c),
        },
{
    let ghost cells = cells_of(*grid);
    let mut found: Option<Coord> = None;
    let mut r: usize = 0;
    while r < grid.len()
        invariant
            r <= grid@.len(),
            cells == cells_of(*grid),
            match found {
                Some(p) => in_grid(cells, p) && cell_at(cells, p) == c && p.row < r,
                None => true,
            },
            forall|q: Coord|
                in_grid(cells, q) && q.row < r && #[trigger] cell_at(cells, q) == c ==> found == Some(q),
        decreases grid@.len() - r,
    {
        let mut k: usize = 0;
        while k < grid[r].len()
            invariant
                r < grid@.len(),
                k <= grid@[r as int]@.len(),
                cells == cells_of(*grid),
                match found {
                    Some(p) => in_grid(cells, p) && cell_at(cells, p) == c && (p.row < r || (p.row == r
                        && p.col < k)),
                    None => true,
                },
                forall|q: Coord|
                    in_grid(cells, q) && (q.row < r || (q.row == r && q.col < k)) && #[trigger] cell_at(
                        cells,
                        q,
                    ) == c ==> found == Some(q),
            decreases grid@[r as int]@.len() - k,
        {
            if grid[r][k] == c {
                let here = Coord { row: r, col: k };
                assert(in_grid(cells, here) && cell_at(cells, here) == c);
                match found {
                    Some(first) => {
                        assert forall|p: Coord| !sole(cells, c, p) by {
                            if sole(cells, c, p) {
                                assert(cell_at(cells, here) == c);
                                assert(cell_at(cells, first) == c);
                            }
                        }
                        return None;
                    },
                    None => {
                        found = Some(here);
                    },
                }
            }
            k = k + 1;
        }
        r = r + 1;
    }
    proof {
        if found is None {
            assert forall|p: Coord| !sole(cells, c, p) by {
                if sole(cells, c, p) {
                    assert(cell_at(cells, p) == c);
                }
            }
        }
    }
    found
}

/// Reads a description: the grid that it stands for, with its numbers of
/// rows and columns and the positions of the start and the end.
#[verifier::loop_isolation(false)]
pub fn read_maze(text: &[u8]) -> (out: Result<(usize, usize, Vec<Vec<Cell>>, Coord, Coord), LoadError>)
    ensures
        match loaded(text@) {
            Ok(m) => {
                &&& out is Ok
                &&& out.unwrap().0 == m.cells.len()
                &&& forall|r: int| 0 <= r < m.cells.len() ==> (#[trigger] m.cells[r]).len() == out.unwrap().1
                &&& cells_of(out.unwrap().2) == m.cells
                &&& out.unwrap().3 == m.start
                &&& out.unwrap().4 == m.end
            },
            Err(e) => out == Err::<(usize, usize, Vec<Vec<Cell>>, Coord, Coord), LoadError>(e),
        },
{
    let all = split_lines(text);
    if all.len() < 2 {
        return Err(LoadError::Dimension);
    }
    let rows = match parse_number(all[0]) {
        Some(n) => n as usize,
        None => {
            return Err(LoadError::Dimension);
        },
    };
    let cols = match parse_number(all[1]) {
        Some(n) => n as usize,
        None => {
            return Err(LoadError::Dimension);
        },
    };
    if all.len() - 2 != rows {
        return Err(LoadError::RowCount);
    }
    let ghost body = row_lines(text@);
    let mut r: usize = 0;
    while r < rows
        invariant
            r <= rows,
            all@.len() == rows + 2,
            body == row_lines(text@),
            body.len() == rows,
            all@.len() == lines(text@).len(),
            forall|i: int| 0 <= i < all@.len() ==> (#[trigger] all@[i])@ == lines(text@)[i],
            forall|i: int| 0 <= i < r ==> (#[trigger] body[i]).len() == cols,
        decreases rows - r,
    {
        let line = all[r + 2];
        assert(line@ == body[r as int]);
        if line.len() != cols {
            return Err(LoadError::RowLength);
        }
        r = r + 1;
    }
    let mut grid: Vec<Vec<Cell>> = Vec::new();
    let mut r: usize = 0;
    while r < rows
        invariant
            r <= rows,
            all@.len() == rows + 2,
            body == row_lines(text@),
            body.len() == rows,
            all@.len() == lines(text@).len(),
            forall|i: int| 0 <= i < all@.len() ==> (#[trigger] all@[i])@ == lines(text@)[i],
            forall|i: int| 0 <= i < rows ==> (#[trigger] body[i]).len() == cols,
            forall|i: int| 0 <= i < r ==> all_known(#[trigger] body[i]),
            grid@.len() == r,
            forall|i: int| 0 <= i < r ==> (#[trigger] grid@[i])@ == row_cells(body[i]),
        decreases rows - r,
    {
        let line = all[r + 2];
        assert(line@ == body[r as int]);
        let mut row: Vec<Cell> = Vec::new();
        let mut k: usize = 0;
        while k < cols
            invariant
                k <= cols,
                line@.len() == cols,
                row@.len() == k,
                forall|i: int| 0 <= i < k ==> symbol_cell(#[trigger] line@[i]) == Some(row@[i]),
            decreases cols - k,
        {
            match Cell::from_symbol(line[k]) {
                Some(cell) => {
                    row.push(cell);
                },
                None => {
                    assert(symbol_cell(body[r as int][k as int]) is None);
                    assert(!all_known(body[r as int]));
                    return Err(LoadError::Symbol);
                },
            }
            k = k + 1;
        }
        assert(row@ =~= row_cells(body[r as int]));
        grid.push(row);
        r = r + 1;
    }
    let ghost cells = Seq::new(body.len(), |r: int| row_cells(body[r]));
    assert(cells_of(grid) =~= cells);
    let start = match find_sole(&grid, Cell::Start) {
        Some(p) => p,
        None => {
            return Err(LoadError::StartCount);
        },
    };
    let end = match find_sole(&grid, Cell::End) {
        Some(p) => p,
        None => {
            return Err(LoadError::EndCount);
        },
    };
    proof {
        let m = loaded(text@).unwrap();
        assert(sole(cells, Cell::Start, m.start));
        assert(sole(cells, Cell::End, m.end));
    }
    Ok((rows, cols, grid, start, end))
}

} // verus!
