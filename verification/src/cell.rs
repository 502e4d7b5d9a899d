//! Grid squares and their coordinates.

use vstd::prelude::*;

verus! {

/// What one square of the maze holds.
#[derive(Clone, Copy, Debug, PartialEq, Eq, Structural)]
pub enum Cell {
    /// Free square the search has not expanded.
    Path,
    /// Free square the search has expanded.
    PathVisited,
    /// Free square on the recovered route.
    PathSolution,
    /// Blocked square.
    Wall,
    /// Where the search begins.
    Start,
    /// Where the search wants to arrive.
    End,
}

/// Position of a square: row counted from the top, column from the left.
#[derive(Clone, Copy, Debug, PartialEq, Eq, Hash, Structural)]
pub struct Coord {
    pub row: usize,
    pub col: usize,
}

/// The square that an input byte stands for, if it stands for one.
pub open spec fn symbol_cell(b: u8) -> Option<Cell> {
    if b == 0x23 {
        Some(Cell::Wall)
    } else if b == 0x20 {
        Some(Cell::Path)
    } else if b == 0x53 {
        Some(Cell::Start)
    } else if b == 0x45 {
        Some(Cell::End)
    } else {
        None
    }
}

/// The first of the two characters that a square is drawn with; the second
/// is always a space.
pub open spec fn cell_glyph(c: Cell) -> char {
    match c {
        Cell::Path | Cell::PathVisited => ' ',
        Cell::PathSolution => '.',
        Cell::Wall => '#',
        Cell::Start => 'S',
        Cell::End => 'E',
    }
}

impl Cell {
    /// A square that the search may still step onto.
    pub open spec fn is_open(self) -> bool {
        self == Cell::Path || self == Cell::End
    }

    /// Reads one input byte: `#` is a wall, a space is free, `S` and `E` are
    /// the two endpoints; every other byte stands for nothing.
    pub fn from_symbol(b: u8) -> (cell: Option<Cell>)
        ensures
            cell == symbol_cell(b),
    {
        if b == 0x23 {
            Some(Cell::Wall)
        } else if b == 0x20 {
            Some(Cell::Path)
        } else if b == 0x53 {
            Some(Cell::Start)
        } else if b == 0x45 {
            Some(Cell::End)
        } else {
            None
        }
    }

    /// The character that marks this square in the drawing.
    pub fn glyph(self) -> (g: char)
        ensures
            g == cell_glyph(self),
    {
        match self {
            Cell::Path | Cell::PathVisited => ' ',
            Cell::PathSolution => '.',
            Cell::Wall => '#',
            Cell::Start => 'S',
            Cell::End => 'E',
        }
    }

    /// Whether the search may still step onto this square.
    pub fn open(self) -> (b: bool)
        ensures
            b == self.is_open(),
    {
        match self {
            Cell::Path | Cell::End => true,
            _ => false,
        }
    }
}

} // verus!
