//! The mathematical grid: a sequence of rows of squares, and the geometry
//! of walking on it.

use vstd::prelude::*;
use crate::cell::Cell;
use crate::cell::Coord;

verus! {

/// The squares that a stored grid holds, row by row.
pub open spec fn cells_of(grid: Vec<Vec<Cell>>) -> Seq<Seq<Cell>> {
    Seq::new(grid@.len(), |r: int| grid@[r]@)
}

/// Number of columns: the length of the first row, zero for no rows.
pub open spec fn width(cells: Seq<Seq<Cell>>) -> nat {
    if cells.len() == 0 {
        0
    } else {
        cells[0].len()
    }
}

/// Every row is as long as the first.
pub open spec fn rectangular(cells: Seq<Seq<Cell>>) -> bool {
    forall|r: int| 0 <= r < cells.len() ==> (#[trigger] cells[r]).len() == width(cells)
}

/// The position lies on the grid.
pub open spec fn in_grid(cells: Seq<Seq<Cell>>, p: Coord) -> bool {
    p.row < cells.len() && p.col < cells[p.row as int].len()
}

/// The square at a position.
pub open spec fn cell_at(cells: Seq<Seq<Cell>>, p: Coord) -> Cell {
    cells[p.row as int][p.col as int]
}

/// The grid with one square replaced; a position off the grid changes
/// nothing.
pub open spec fn with_cell(cells: Seq<Seq<Cell>>, p: Coord, c: Cell) -> Seq<Seq<Cell>> {
    if in_grid(cells, p) {
        cells.update(p.row as int, cells[p.row as int].update(p.col as int, c))
    } else {
        cells
    }
}

/// Two positions share an edge.
pub open spec fn adjacent(a: Coord, b: Coord) -> bool {
    ||| a.col == b.col && (a.row + 1 == b.row || b.row + 1 == a.row)
    ||| a.row == b.row && (a.col + 1 == b.col || b.col + 1 == a.col)
}

/// A walk from `from` to `to`: it has at least two positions, each on the
/// grid and sharing an edge with the next, and every position strictly
/// between the two ends is a `Path` square.
pub open spec fn is_route(cells: Seq<Seq<Cell>>, walk: Seq<Coord>, from: Coord, to: Coord) -> bool {
    &&& walk.len() >= 2
    &&& walk[0] == from
    &&& walk[walk.len() - 1] == to
    &&& forall|i: int| 0 <= i < walk.len() ==> in_grid(cells, #[trigger] walk[i])
    &&& forall|i: int| 0 <= i < walk.len() - 1 ==> adjacent(#[trigger] walk[i], walk[i + 1])
    &&& forall|i: int| 0 < i < walk.len() - 1 ==> cell_at(cells, #[trigger] walk[i]) == Cell::Path
}

/// Some walk over free squares joins the two positions.
pub open spec fn reachable(cells: Seq<Seq<Cell>>, from: Coord, to: Coord) -> bool {
    exists|walk: Seq<Coord>| is_route(cells, walk, from, to)
}

/// No square of the grid has been touched by a search.
pub open spec fn untouched(cells: Seq<Seq<Cell>>) -> bool {
    forall|p: Coord|
        in_grid(cells, p) ==> #[trigger] cell_at(cells, p) != Cell::PathVisited && cell_at(cells, p)
            != Cell::PathSolution
}

/// How many squares of a row are `Path`.
pub open spec fn path_count_row(row: Seq<Cell>) -> nat
    decreases row.len(),
{
    if row.len() == 0 {
        0
    } else {
        path_count_row(row.drop_last()) + if row.last() == Cell::Path {
            1nat
        } else {
            0nat
        }
    }
}

/// How many squares of the grid are `Path`.
pub open spec fn path_count(cells: Seq<Seq<Cell>>) -> nat
    decreases cells.len(),
{
    if cells.len() == 0 {
        0
    } else {
        path_count(cells.drop_last()) + path_count_row(cells.last())
    }
}

/// Replacing one square of a row changes the count by what the two squares
/// contribute.
pub proof fn lemma_path_count_row_update(row: Seq<Cell>, i: int, c: Cell)
    requires
        0 <= i < row.len(),
    ensures
        path_count_row(row.update(i, c)) + (if row[i] == Cell::Path { 1nat } else { 0nat })
            == path_count_row(row) + (if c == Cell::Path { 1nat } else { 0nat }),
    decreases row.len(),
{
    let after = row.update(i, c);
    if i == row.len() - 1 {
        assert(after.drop_last() =~= row.drop_last());
    } else {
        assert(after.drop_last() =~= row.drop_last().update(i, c));
        lemma_path_count_row_update(row.drop_last(), i, c);
    }
}

/// Replacing one row changes the count by what the two rows contribute.
pub proof fn lemma_path_count_update(cells: Seq<Seq<Cell>>, r: int, row: Seq<Cell>)
    requires
        0 <= r < cells.len(),
    ensures
        path_count(cells.update(r, row)) + path_count_row(cells[r]) == path_count(cells)
            + path_count_row(row),
    decreases cells.len(),
{
    let after = cells.update(r, row);
    if r == cells.len() - 1 {
        assert(after.drop_last() =~= cells.drop_last());
    } else {
        assert(after.drop_last() =~= cells.drop_last().update(r, row));
        lemma_path_count_update(cells.drop_last(), r, row);
    }
}

/// Replacing one square of the grid changes the count by what the two
/// squares contribute.
pub proof fn lemma_path_count_with_cell(cells: Seq<Seq<Cell>>, p: Coord, c: Cell)
    requires
        in_grid(cells, p),
    ensures
        path_count(with_cell(cells, p, c)) + (if cell_at(cells, p) == Cell::Path { 1nat } else { 0nat })
            == path_count(cells) + (if c == Cell::Path { 1nat } else { 0nat }),
{
    let row = cells[p.row as int];
    lemma_path_count_row_update(row, p.col as int, c);
    lemma_path_count_update(cells, p.row as int, row.update(p.col as int, c));
}

} // verus!
