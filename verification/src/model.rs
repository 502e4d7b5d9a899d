//! The maze as a mathematical value, and what solving it means.

use vstd::prelude::*;
use crate::cell::Cell;
use crate::cell::Coord;
use crate::grid::cell_at;
use crate::grid::in_grid;
use crate::grid::rectangular;
use crate::grid::width;
use crate::search::Search;
use crate::search::run;
use crate::trail::traced;

verus! {

/// What a maze is, apart from how it is stored.
pub ghost struct MazeView {
    /// The squares, row by row.
    pub cells: Seq<Seq<Cell>>,
    /// The parents recorded by the searches made so far.
    pub parents: Map<Coord, Coord>,
    /// The position of the `Start` square.
    pub start: Coord,
    /// The position of the `End` square.
    pub end: Coord,
}

impl MazeView {
    /// The grid is rectangular and small enough for every square to have
    /// a position, it holds exactly one `Start` and exactly one `End`, at
    /// the two recorded positions, and only positions of the grid have a
    /// parent.
    pub open spec fn valid(self) -> bool {
        &&& rectangular(self.cells)
        &&& self.cells.len() <= usize::MAX
        &&& width(self.cells) <= usize::MAX
        &&& in_grid(self.cells, self.start)
        &&& in_grid(self.cells, self.end)
        &&& forall|p: Coord|
            in_grid(self.cells, p) ==> (#[trigger] cell_at(self.cells, p) == Cell::Start <==> p
                == self.start)
        &&& forall|p: Coord|
            in_grid(self.cells, p) ==> (#[trigger] cell_at(self.cells, p) == Cell::End <==> p
                == self.end)
        &&& forall|p: Coord| self.parents.dom().contains(p) ==> in_grid(self.cells, p)
    }

    /// The search as it stands before the first expansion: only the start
    /// waits on the stack.
    pub open spec fn opening(self) -> Search {
        Search { cells: self.cells, parents: self.parents, stack: seq![self.start], solved: false }
    }

    /// The maze after solving: the search is run until it halts; if it took
    /// `End` off the stack, the squares on the way back from `End` to
    /// `Start` are marked as the solution.
    pub open spec fn solved(self) -> MazeView {
        let last = run(self.opening());
        MazeView {
            cells: if last.solved {
                traced(last.cells, last.parents, self.end, self.start)
            } else {
                last.cells
            },
            parents: last.parents,
            start: self.start,
            end: self.end,
        }
    }
}

/// The start and the end of a valid maze are different squares.
pub proof fn lemma_start_is_not_end(m: MazeView)
    requires
        m.valid(),
    ensures
        m.start != m.end,
{
    assert(cell_at(m.cells, m.start) == Cell::Start);
    assert(cell_at(m.cells, m.end) == Cell::End);
}

} // verus!
