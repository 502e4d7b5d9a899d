//! The depth-first search as a machine on mathematical values: a grid, a
//! parent map and a stack of positions still to expand.

use vstd::prelude::*;
use crate::cell::Cell;
use crate::cell::Coord;
use crate::grid::cell_at;
use crate::grid::in_grid;
use crate::grid::lemma_path_count_with_cell;
use crate::grid::path_count;
use crate::grid::with_cell;

verus! {

/// The state of a search between two expansions.
pub ghost struct Search {
    /// The grid, with the squares expanded so far marked.
    pub cells: Seq<Seq<Cell>>,
    /// For each discovered position, the position it was last discovered from.
    pub parents: Map<Coord, Coord>,
    /// Positions waiting to be expanded; the last one is expanded next.
    pub stack: Seq<Coord>,
    /// Whether the `End` square has been taken off the stack.
    pub solved: bool,
}

/// The position one row up.
pub open spec fn above(p: Coord) -> Coord {
    Coord { row: (p.row - 1) as usize, col: p.col }
}

/// The position one column to the right.
pub open spec fn right_of(p: Coord) -> Coord {
    Coord { row: p.row, col: (p.col + 1) as usize }
}

/// The position one row down.
pub open spec fn below(p: Coord) -> Coord {
    Coord { row: (p.row + 1) as usize, col: p.col }
}

/// The position one column to the left.
pub open spec fn left_of(p: Coord) -> Coord {
    Coord { row: p.row, col: (p.col - 1) as usize }
}

/// A neighbour is taken up when it exists, lies on the grid and is open.
pub open spec fn takes(cells: Seq<Seq<Cell>>, exists_at_all: bool, n: Coord) -> bool {
    exists_at_all && in_grid(cells, n) && cell_at(cells, n).is_open()
}

/// `found` with the neighbour appended if it is taken up.
pub open spec fn offer(cells: Seq<Seq<Cell>>, found: Seq<Coord>, exists_at_all: bool, n: Coord) -> Seq<
    Coord,
> {
    if takes(cells, exists_at_all, n) {
        found.push(n)
    } else {
        found
    }
}

/// The open neighbours of `cur`, looked at in the order top, right, bottom,
/// left.
pub open spec fn frontier(cells: Seq<Seq<Cell>>, cur: Coord) -> Seq<Coord> {
    let top = offer(cells, Seq::empty(), cur.row > 0, above(cur));
    let right = offer(cells, top, cur.col < usize::MAX, right_of(cur));
    let bottom = offer(cells, right, cur.row < usize::MAX, below(cur));
    offer(cells, bottom, cur.col > 0, left_of(cur))
}

/// The parent map after `cur` has discovered `found`: each of them now has
/// `cur` as its parent, whatever it had before.
pub open spec fn adopt(parents: Map<Coord, Coord>, found: Seq<Coord>, cur: Coord) -> Map<Coord, Coord> {
    Map::new(
        |p: Coord| parents.dom().contains(p) || found.contains(p),
        |p: Coord|
            if found.contains(p) {
                cur
            } else {
                parents[p]
            },
    )
}

/// One expansion: the last position of the stack is taken off. If it holds
/// `End` the search is solved. Otherwise the square is marked visited,
/// unless it is `Start`, and its open neighbours are given it as parent
/// and put on the stack.
pub open spec fn step(st: Search) -> Search
    recommends
        st.stack.len() > 0,
{
    let cur = st.stack.last();
    let rest = st.stack.drop_last();
    let here = cell_at(st.cells, cur);
    if here == Cell::End {
        Search { cells: st.cells, parents: st.parents, stack: rest, solved: true }
    } else {
        let cells = if here == Cell::Start {
            st.cells
        } else {
            with_cell(st.cells, cur, Cell::PathVisited)
        };
        let found = frontier(cells, cur);
        Search { cells, parents: adopt(st.parents, found, cur), stack: rest + found, solved: false }
    }
}

/// The search has nothing left to do.
pub open spec fn halted(st: Search) -> bool {
    st.solved || st.stack.len() == 0
}

/// What one stack entry adds to the measure by which a run ends.
pub open spec fn cost(cells: Seq<Seq<Cell>>, p: Coord) -> nat {
    if in_grid(cells, p) && cell_at(cells, p).is_open() {
        1
    } else {
        5
    }
}

/// The second part of the measure by which a run ends: the summed cost of
/// the stack entries.
pub open spec fn load(cells: Seq<Seq<Cell>>, stack: Seq<Coord>) -> nat
    decreases stack.len(),
{
    if stack.len() == 0 {
        0
    } else {
        load(cells, stack.drop_last()) + cost(cells, stack.last())
    }
}

/// The search carried on until it halts.
pub open spec fn run(st: Search) -> Search
    decreases path_count(st.cells), load(st.cells, st.stack),
{
    if halted(st) {
        st
    } else {
        proof {
            lemma_step_decreases(st);
        }
        run(step(st))
    }
}

/// The load of two stacks put together is the sum of their loads.
pub proof fn lemma_load_concat(cells: Seq<Seq<Cell>>, a: Seq<Coord>, b: Seq<Coord>)
    ensures
        load(cells, a + b) == load(cells, a) + load(cells, b),
    decreases b.len(),
{
    if b.len() == 0 {
        assert(a + b =~= a);
    } else {
        assert((a + b).drop_last() =~= a + b.drop_last());
        lemma_load_concat(cells, a, b.drop_last());
    }
}

/// Two grids with the same open squares give a stack the same load.
pub proof fn lemma_load_same_open(c1: Seq<Seq<Cell>>, c2: Seq<Seq<Cell>>, stack: Seq<Coord>)
    requires
        forall|p: Coord| cost(c1, p) == cost(c2, p),
    ensures
        load(c1, stack) == load(c2, stack),
    decreases stack.len(),
{
    if stack.len() > 0 {
        lemma_load_same_open(c1, c2, stack.drop_last());
    }
}

/// What the frontier holds: at most four positions, each on the grid, open,
/// and one of the four neighbours of `cur`.
pub proof fn lemma_frontier_members(cells: Seq<Seq<Cell>>, cur: Coord)
    ensures
        frontier(cells, cur).len() <= 4,
        forall|i: int|
            0 <= i < frontier(cells, cur).len() ==> {
                let n = #[trigger] frontier(cells, cur)[i];
                &&& in_grid(cells, n)
                &&& cell_at(cells, n).is_open()
                &&& (takes(cells, cur.row > 0, above(cur)) && n == above(cur)
                    || takes(cells, cur.col < usize::MAX, right_of(cur)) && n == right_of(cur)
                    || takes(cells, cur.row < usize::MAX, below(cur)) && n == below(cur)
                    || takes(cells, cur.col > 0, left_of(cur)) && n == left_of(cur))
            },
        forall|n: Coord|
            frontier(cells, cur).contains(n) <==> (takes(cells, cur.row > 0, above(cur)) && n == above(cur)
                || takes(cells, cur.col < usize::MAX, right_of(cur)) && n == right_of(cur)
                || takes(cells, cur.row < usize::MAX, below(cur)) && n == below(cur)
                || takes(cells, cur.col > 0, left_of(cur)) && n == left_of(cur)),
{
    let top = offer(cells, Seq::empty(), cur.row > 0, above(cur));
    let right = offer(cells, top, cur.col < usize::MAX, right_of(cur));
    let bottom = offer(cells, right, cur.row < usize::MAX, below(cur));
    let all = offer(cells, bottom, cur.col > 0, left_of(cur));
    assert forall|n: Coord|
        (takes(cells, cur.row > 0, above(cur)) && n == above(cur) || takes(
            cells,
            cur.col < usize::MAX,
            right_of(cur),
        ) && n == right_of(cur) || takes(cells, cur.row < usize::MAX, below(cur)) && n == below(cur)
            || takes(cells, cur.col > 0, left_of(cur)) && n == left_of(cur)) implies all.contains(n) by {
        if takes(cells, cur.row > 0, above(cur)) && n == above(cur) {
            assert(top[top.len() - 1] == n);
            assert(all[top.len() - 1] == n);
        } else if takes(cells, cur.col < usize::MAX, right_of(cur)) && n == right_of(cur) {
            assert(right[right.len() - 1] == n);
            assert(all[right.len() - 1] == n);
        } else if takes(cells, cur.row < usize::MAX, below(cur)) && n == below(cur) {
            assert(bottom[bottom.len() - 1] == n);
            assert(all[bottom.len() - 1] == n);
        } else {
            assert(all[all.len() - 1] == n);
        }
    }
}

/// The frontier costs one for each of its positions.
pub proof fn lemma_frontier_load(cells: Seq<Seq<Cell>>, cur: Coord)
    ensures
        load(cells, frontier(cells, cur)) <= 4,
{
    lemma_frontier_members(cells, cur);
    lemma_load_open(cells, frontier(cells, cur));
}

/// A stack of open positions of the grid costs one for each.
pub proof fn lemma_load_open(cells: Seq<Seq<Cell>>, stack: Seq<Coord>)
    requires
        forall|i: int| 0 <= i < stack.len() ==> cost(cells, #[trigger] stack[i]) == 1,
    ensures
        load(cells, stack) == stack.len(),
    decreases stack.len(),
{
    if stack.len() > 0 {
        lemma_load_open(cells, stack.drop_last());
    }
}

/// Each expansion brings the measure down: the number of `Path` squares
/// falls, or it stays and the load of the stack falls.
pub proof fn lemma_step_decreases(st: Search)
    requires
        !halted(st),
    ensures
        path_count(step(st).cells) < path_count(st.cells) || (path_count(step(st).cells) == path_count(
            st.cells,
        ) && load(step(st).cells, step(st).stack) < load(st.cells, st.stack)),
{
    let cur = st.stack.last();
    let rest = st.stack.drop_last();
    let here = cell_at(st.cells, cur);
    let next = step(st);
    if here == Cell::End {
    } else {
        let found = frontier(next.cells, cur);
        lemma_frontier_load(next.cells, cur);
        lemma_load_concat(next.cells, rest, found);
        if here != Cell::Start && in_grid(st.cells, cur) {
            lemma_path_count_with_cell(st.cells, cur, Cell::PathVisited);
        }
        if path_count(next.cells) == path_count(st.cells) {
            assert forall|p: Coord| cost(st.cells, p) == cost(next.cells, p) by {
                if in_grid(st.cells, p) && p != cur && in_grid(st.cells, cur) && here != Cell::Start {
                    assert(cell_at(next.cells, p) == cell_at(st.cells, p));
                }
            }
            lemma_load_same_open(st.cells, next.cells, rest);
        }
    }
}

} // verus!
