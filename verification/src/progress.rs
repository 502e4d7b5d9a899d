//! What holds of a search at every moment, from the opening state to the
//! halt.

use vstd::prelude::*;
use crate::cell::Cell;
use crate::cell::Coord;
use crate::grid::adjacent;
use crate::grid::cell_at;
use crate::grid::in_grid;
use crate::grid::lemma_path_count_with_cell;
use crate::grid::path_count;
use crate::model::MazeView;
use crate::search::Search;
use crate::search::above;
use crate::search::below;
use crate::search::frontier;
use crate::search::halted;
use crate::search::left_of;
use crate::search::lemma_frontier_members;
use crate::search::lemma_step_decreases;
use crate::search::load;
use crate::search::right_of;
use crate::search::run;
use crate::search::step;

verus! {

/// The search has expanded `p`: the start once it has left the stack, any
/// other position once its free square has been marked visited.
pub open spec fn seen(m: MazeView, st: Search, p: Coord) -> bool {
    if p == m.start {
        !st.stack.contains(m.start)
    } else {
        in_grid(m.cells, p) && cell_at(m.cells, p) == Cell::Path && cell_at(st.cells, p)
            == Cell::PathVisited
    }
}

/// Going to the parent `n` times from `p` arrives at the start, over
/// expanded squares each of which shares an edge with its parent.
pub open spec fn linked(m: MazeView, st: Search, p: Coord, n: nat) -> bool
    decreases n,
{
    if n == 0 {
        p == m.start
    } else {
        &&& p != m.start
        &&& seen(m, st, p)
        &&& st.parents.dom().contains(p)
        &&& adjacent(st.parents[p], p)
        &&& linked(m, st, st.parents[p], (n - 1) as nat)
    }
}

/// Some number of parent steps links `p` to the start.
pub open spec fn rooted(m: MazeView, st: Search, p: Coord) -> bool {
    exists|n: nat| linked(m, st, p, n)
}

/// `s` may stand on the stack: it is the start, or a square that was open
/// in the maze and whose parent is an expanded neighbour.
pub open spec fn waiting(m: MazeView, st: Search, s: Coord) -> bool {
    &&& in_grid(m.cells, s)
    &&& s != m.start ==> {
        &&& cell_at(m.cells, s).is_open()
        &&& st.parents.dom().contains(s)
        &&& seen(m, st, st.parents[s])
        &&& adjacent(st.parents[s], s)
    }
}

/// The grid of the search has the rows and columns of the maze.
pub open spec fn same_shape(a: Seq<Seq<Cell>>, b: Seq<Seq<Cell>>) -> bool {
    &&& a.len() == b.len()
    &&& forall|r: int| 0 <= r < a.len() ==> (#[trigger] a[r]).len() == b[r].len()
}

/// A square of the search is what it was in the maze, or a free square
/// since marked visited.
pub open spec fn only_visits(m: MazeView, st: Search) -> bool {
    forall|p: Coord|
        in_grid(m.cells, p) ==> #[trigger] cell_at(st.cells, p) == cell_at(m.cells, p) || (cell_at(
            m.cells,
            p,
        ) == Cell::Path && cell_at(st.cells, p) == Cell::PathVisited)
}

/// Every open neighbour of an expanded square waits on the stack.
pub open spec fn nothing_missed(m: MazeView, st: Search) -> bool {
    forall|a: Coord, n: Coord|
        #![trigger seen(m, st, a), adjacent(a, n)]
        seen(m, st, a) && in_grid(m.cells, n) && adjacent(a, n) && cell_at(st.cells, n).is_open()
            ==> st.stack.contains(n)
}

/// Every open neighbour of an expanded square that still has an entry on
/// the stack waits above that entry.
pub open spec fn nothing_left_below(m: MazeView, st: Search) -> bool {
    forall|i: int, n: Coord|
        #![trigger st.stack[i], adjacent(st.stack[i], n)]
        0 <= i < st.stack.len() && seen(m, st, st.stack[i]) && in_grid(m.cells, n) && adjacent(
            st.stack[i],
            n,
        ) && cell_at(st.cells, n).is_open() ==> exists|j: int|
            i < j < st.stack.len() && st.stack[j] == n
}

/// The stack holds at most four entries for the start and four for each
/// free square that has been marked visited.
pub open spec fn within_bound(m: MazeView, st: Search) -> bool {
    st.stack.len() + 4 * path_count(st.cells) <= 4 * path_count(m.cells) + 4
}

/// What holds of every state that a search of the maze `m` passes through.
#[verifier::opaque]
pub open spec fn inv(m: MazeView, st: Search) -> bool {
    &&& same_shape(st.cells, m.cells)
    &&& only_visits(m, st)
    &&& forall|p: Coord| st.parents.dom().contains(p) ==> in_grid(m.cells, p)
    &&& st.stack.contains(m.start) ==> st.stack =~= seq![m.start] && st.cells == m.cells
    &&& forall|i: int| 0 <= i < st.stack.len() ==> waiting(m, st, #[trigger] st.stack[i])
    &&& forall|p: Coord| #[trigger] seen(m, st, p) ==> rooted(m, st, p)
    &&& !st.solved ==> nothing_missed(m, st)
    &&& !st.solved ==> nothing_left_below(m, st)
    &&& within_bound(m, st)
    &&& st.solved ==> waiting(m, st, m.end)
}

/// Each of the four neighbours shares an edge with the position itself,
/// and a position of the grid that shares an edge with it is one of the
/// four.
pub proof fn lemma_neighbours(cur: Coord, n: Coord)
    ensures
        cur.row > 0 ==> adjacent(cur, above(cur)),
        cur.col < usize::MAX ==> adjacent(cur, right_of(cur)),
        cur.row < usize::MAX ==> adjacent(cur, below(cur)),
        cur.col > 0 ==> adjacent(cur, left_of(cur)),
        adjacent(cur, n) ==> (cur.row > 0 && n == above(cur)) || (cur.col < usize::MAX && n == right_of(
            cur,
        )) || (cur.row < usize::MAX && n == below(cur)) || (cur.col > 0 && n == left_of(cur)),
{
}

/// The frontier of `cur` holds exactly the open squares of the grid that
/// share an edge with `cur`.
pub proof fn lemma_frontier_is_open_neighbours(cells: Seq<Seq<Cell>>, cur: Coord)
    ensures
        forall|n: Coord|
            frontier(cells, cur).contains(n) <==> (adjacent(cur, n) && in_grid(cells, n) && cell_at(
                cells,
                n,
            ).is_open()),
{
    lemma_frontier_members(cells, cur);
    assert forall|n: Coord|
        frontier(cells, cur).contains(n) <==> (adjacent(cur, n) && in_grid(cells, n) && cell_at(
            cells,
            n,
        ).is_open()) by {
        lemma_neighbours(cur, n);
    }
}

/// The opening state of a valid maze satisfies the invariant.
pub proof fn lemma_inv_opening(m: MazeView)
    requires
        m.valid(),
    ensures
        inv(m, m.opening()),
{
    reveal(inv);
    let st = m.opening();
    assert(st.stack[0] == m.start);
    assert forall|p: Coord| #[trigger] seen(m, st, p) implies rooted(m, st, p) by {
        if p == m.start {
            assert(st.stack.contains(m.start));
        }
    }
    assert(nothing_missed(m, st)) by {
        assert forall|a: Coord, n: Coord|
            #![trigger seen(m, st, a), adjacent(a, n)]
            seen(m, st, a) implies false by {
            if a == m.start {
                assert(st.stack.contains(m.start));
            }
        }
    }
    assert(nothing_left_below(m, st)) by {
        assert(!seen(m, st, m.start));
    }
}

/// A link to the start survives a change of state that keeps expanded
/// squares expanded and leaves their parents alone.
pub proof fn lemma_linked_survives(m: MazeView, st: Search, next: Search, p: Coord, n: nat)
    requires
        linked(m, st, p, n),
        forall|q: Coord| seen(m, st, q) ==> seen(m, next, q),
        forall|q: Coord|
            q != m.start && seen(m, st, q) && st.parents.dom().contains(q) ==> next.parents.dom().contains(
                q,
            ) && next.parents[q] == st.parents[q],
    ensures
        linked(m, next, p, n),
    decreases n,
{
    if n > 0 {
        lemma_linked_survives(m, st, next, st.parents[p], (n - 1) as nat);
    }
}

/// Taking `End` off the stack keeps the invariant.
proof fn lemma_inv_step_end(m: MazeView, st: Search)
    requires
        m.valid(),
        inv(m, st),
        !halted(st),
        cell_at(st.cells, st.stack.last()) == Cell::End,
    ensures
        inv(m, step(st)),
{
    reveal(inv);
    let cur = st.stack.last();
    let next = step(st);
    assert(st.stack[st.stack.len() - 1] == cur);
    assert(waiting(m, st, cur));
    assert(cell_at(m.cells, cur) == Cell::End);
    assert(cur == m.end);
    assert(cur != m.start);
    assert(!st.stack.contains(m.start));
    assert forall|q: Coord| seen(m, st, q) <==> seen(m, next, q) by {
        if q == m.start && next.stack.contains(m.start) {
            let i = choose|i: int| 0 <= i < next.stack.len() && next.stack[i] == m.start;
            assert(st.stack[i] == m.start);
        }
    }
    assert forall|i: int| 0 <= i < next.stack.len() implies waiting(m, next, #[trigger] next.stack[i]) by {
        assert(next.stack[i] == st.stack[i]);
        assert(waiting(m, st, st.stack[i]));
    }
    assert forall|p: Coord| #[trigger] seen(m, next, p) implies rooted(m, next, p) by {
        assert(seen(m, st, p));
        let n = choose|n: nat| linked(m, st, p, n);
        lemma_linked_survives(m, st, next, p, n);
    }
    if next.stack.contains(m.start) {
        let i = choose|i: int| 0 <= i < next.stack.len() && next.stack[i] == m.start;
        assert(st.stack[i] == m.start);
    }
}

/// Expanding a square other than `End` keeps the invariant.
proof fn lemma_inv_step_expand(m: MazeView, st: Search)
    requires
        m.valid(),
        inv(m, st),
        !halted(st),
        cell_at(st.cells, st.stack.last()) != Cell::End,
    ensures
        inv(m, step(st)),
{
    reveal(inv);
    let cur = st.stack.last();
    let rest = st.stack.drop_last();
    let next = step(st);
    let found = frontier(next.cells, cur);
    assert(st.stack[st.stack.len() - 1] == cur);
    assert(waiting(m, st, cur));
    lemma_frontier_members(next.cells, cur);
    lemma_frontier_is_open_neighbours(next.cells, cur);
    // The start is on the stack only in the opening state.
    if cur != m.start {
        assert(!st.stack.contains(m.start));
        assert(cell_at(m.cells, cur) == Cell::Path);
    } else {
        assert(rest.len() == 0);
        assert(next.cells == st.cells);
    }
    assert(same_shape(next.cells, m.cells));
    assert(only_visits(m, next)) by {
        assert forall|p: Coord| in_grid(m.cells, p) implies #[trigger] cell_at(next.cells, p) == cell_at(
            m.cells,
            p,
        ) || (cell_at(m.cells, p) == Cell::Path && cell_at(next.cells, p) == Cell::PathVisited) by {
            assert(cell_at(st.cells, p) == cell_at(m.cells, p) || (cell_at(m.cells, p) == Cell::Path
                && cell_at(st.cells, p) == Cell::PathVisited));
        }
    }
    assert(!found.contains(m.start)) by {
        assert(cell_at(next.cells, m.start) == cell_at(m.cells, m.start) || (cell_at(m.cells, m.start)
            == Cell::Path && cell_at(next.cells, m.start) == Cell::PathVisited));
    }
    assert(!next.stack.contains(m.start)) by {
        if next.stack.contains(m.start) {
            let i = choose|i: int| 0 <= i < next.stack.len() && next.stack[i] == m.start;
            if i < rest.len() {
                assert(st.stack[i] == m.start);
            } else {
                assert(found[i - rest.len()] == m.start);
            }
        }
    }
    assert(seen(m, next, cur));
    assert forall|q: Coord| seen(m, st, q) implies seen(m, next, q) by {
        if q != m.start {
            assert(cell_at(next.cells, q) == Cell::PathVisited);
        }
    }
    assert forall|q: Coord| seen(m, next, q) && q != cur implies seen(m, st, q) by {
        if q != m.start {
            assert(cell_at(st.cells, q) == cell_at(next.cells, q));
        }
    }
    assert forall|q: Coord|
        q != m.start && seen(m, next, q) && st.parents.dom().contains(q) implies next.parents.dom().contains(
        q,
    ) && next.parents[q] == st.parents[q] by {
        assert(!cell_at(next.cells, q).is_open());
        assert(!found.contains(q));
    }
    assert forall|p: Coord| next.parents.dom().contains(p) implies in_grid(m.cells, p) by {
        if found.contains(p) {
            assert(in_grid(next.cells, p));
        }
    }
    assert forall|i: int| 0 <= i < next.stack.len() implies waiting(m, next, #[trigger] next.stack[i]) by {
        let s = next.stack[i];
        if i < rest.len() {
            assert(s == st.stack[i]);
            assert(waiting(m, st, s));
        } else {
            assert(s == found[i - rest.len()]);
            assert(found.contains(s));
            assert(in_grid(next.cells, s));
        }
        if found.contains(s) {
            assert(cell_at(next.cells, s) == cell_at(m.cells, s) || (cell_at(m.cells, s) == Cell::Path
                && cell_at(next.cells, s) == Cell::PathVisited));
            assert(next.parents[s] == cur);
        } else {
            assert(next.parents[s] == st.parents[s]);
        }
    }
    assert forall|p: Coord| #[trigger] seen(m, next, p) implies rooted(m, next, p) by {
        if p == m.start {
            assert(linked(m, next, p, 0));
        } else if p == cur {
            let a = st.parents[cur];
            assert(seen(m, st, a));
            let n = choose|n: nat| linked(m, st, a, n);
            lemma_linked_survives(m, st, next, a, n);
            assert(next.parents[cur] == a);
            assert(linked(m, next, cur, n + 1));
        } else {
            assert(seen(m, st, p));
            let n = choose|n: nat| linked(m, st, p, n);
            lemma_linked_survives(m, st, next, p, n);
        }
    }
    assert(nothing_missed(m, next)) by {
        assert forall|a: Coord, n: Coord|
            #![trigger seen(m, next, a), adjacent(a, n)]
            seen(m, next, a) && in_grid(m.cells, n) && adjacent(a, n) && cell_at(next.cells, n).is_open()
            implies next.stack.contains(n) by {
            if a == cur {
                assert(found.contains(n));
                let j = choose|j: int| 0 <= j < found.len() && found[j] == n;
                assert(next.stack[rest.len() + j] == n);
            } else {
                assert(seen(m, st, a));
                assert(n != cur);
                assert(cell_at(st.cells, n) == cell_at(next.cells, n));
                assert(st.stack.contains(n));
                let j = choose|j: int| 0 <= j < st.stack.len() && st.stack[j] == n;
                assert(next.stack[j] == n);
            }
        }
    }
    assert(within_bound(m, next)) by {
        if cur == m.start {
        } else if cell_at(st.cells, cur) == Cell::Path {
            lemma_path_count_with_cell(st.cells, cur, Cell::PathVisited);
        } else {
            assert(st.cells[cur.row as int].update(cur.col as int, Cell::PathVisited)
                =~= st.cells[cur.row as int]);
            assert(next.cells =~= st.cells);
            assert(seen(m, st, cur));
            if found.len() > 0 {
                let n = found[0];
                assert(found.contains(n));
                assert(adjacent(st.stack[st.stack.len() - 1], n));
                assert(nothing_left_below(m, st));
            }
        }
    }
    assert(nothing_left_below(m, next)) by {
        assert forall|i: int, n: Coord|
            #![trigger next.stack[i], adjacent(next.stack[i], n)]
            0 <= i < next.stack.len() && seen(m, next, next.stack[i]) && in_grid(m.cells, n) && adjacent(
                next.stack[i],
                n,
            ) && cell_at(next.cells, n).is_open() implies exists|j: int|
            i < j < next.stack.len() && next.stack[j] == n by {
            let s = next.stack[i];
            if i < rest.len() {
                assert(s == st.stack[i]);
                if s == cur {
                    assert(found.contains(n));
                    let j = choose|j: int| 0 <= j < found.len() && found[j] == n;
                    assert(next.stack[rest.len() + j] == n);
                } else {
                    assert(seen(m, st, s));
                    assert(n != cur);
                    assert(cell_at(st.cells, n) == cell_at(next.cells, n));
                    assert(adjacent(st.stack[i], n));
                    let j = choose|j: int| i < j < st.stack.len() && st.stack[j] == n;
                    assert(next.stack[j] == n);
                }
            } else {
                assert(s == found[i - rest.len()]);
                assert(found.contains(s));
            }
        }
    }
}

/// The position that is expanded next lies on the grid, which has the
/// rows and columns of the maze.
pub proof fn lemma_inv_top(m: MazeView, st: Search)
    requires
        inv(m, st),
        st.stack.len() > 0,
    ensures
        same_shape(st.cells, m.cells),
        in_grid(st.cells, st.stack.last()),
{
    reveal(inv);
    assert(waiting(m, st, st.stack[st.stack.len() - 1]));
}

/// What the invariant says of the grid, of the parents, and of the squares
/// that have been expanded.
pub proof fn lemma_inv_facts(m: MazeView, st: Search)
    requires
        inv(m, st),
    ensures
        same_shape(st.cells, m.cells),
        only_visits(m, st),
        forall|p: Coord| st.parents.dom().contains(p) ==> in_grid(m.cells, p),
        forall|p: Coord| #[trigger] seen(m, st, p) ==> rooted(m, st, p),
        !st.solved ==> nothing_missed(m, st),
        st.solved ==> waiting(m, st, m.end),
{
    reveal(inv);
}

/// The grid of the search has the rows and columns of the maze.
pub proof fn lemma_inv_shape(m: MazeView, st: Search)
    requires
        inv(m, st),
    ensures
        same_shape(st.cells, m.cells),
{
    reveal(inv);
}

/// Once a square has been expanded its parent is settled: no later
/// expansion gives it another.
pub proof fn lemma_expanded_parent_is_settled(m: MazeView, st: Search, p: Coord)
    requires
        m.valid(),
        inv(m, st),
        !halted(st),
        p != m.start,
        seen(m, st, p),
        st.parents.dom().contains(p),
    ensures
        step(st).parents.dom().contains(p),
        step(st).parents[p] == st.parents[p],
{
    reveal(inv);
    let cur = st.stack.last();
    let next = step(st);
    assert(st.stack[st.stack.len() - 1] == cur);
    assert(waiting(m, st, cur));
    if cell_at(st.cells, cur) != Cell::End {
        lemma_frontier_members(next.cells, cur);
        lemma_frontier_is_open_neighbours(next.cells, cur);
        assert(cell_at(next.cells, p) == Cell::PathVisited);
        assert(!frontier(next.cells, cur).contains(p));
    }
}

/// A square is linked to the start by one number of steps only.
pub proof fn lemma_linked_once(m: MazeView, st: Search, p: Coord, a: nat, b: nat)
    requires
        linked(m, st, p, a),
        linked(m, st, p, b),
    ensures
        a == b,
    decreases a,
{
    if a > 0 && b > 0 {
        lemma_linked_once(m, st, st.parents[p], (a - 1) as nat, (b - 1) as nat);
    }
}

/// Expanding a square a second time finds nothing: all that the expansion
/// does is take the entry off the stack.
pub proof fn lemma_second_expansion_finds_nothing(m: MazeView, st: Search)
    requires
        m.valid(),
        inv(m, st),
        !halted(st),
        cell_at(st.cells, st.stack.last()) == Cell::PathVisited,
    ensures
        frontier(st.cells, st.stack.last()).len() == 0,
        step(st).cells == st.cells,
        step(st).parents == st.parents,
        step(st).stack == st.stack.drop_last(),
        !step(st).solved,
{
    reveal(inv);
    let cur = st.stack.last();
    let last = st.stack.len() - 1;
    let next = step(st);
    assert(st.stack[last] == cur);
    assert(waiting(m, st, cur));
    assert(cell_at(st.cells, cur) == cell_at(m.cells, cur) || (cell_at(m.cells, cur) == Cell::Path
        && cell_at(st.cells, cur) == Cell::PathVisited));
    assert(cur != m.start);
    assert(seen(m, st, cur));
    assert(st.cells[cur.row as int].update(cur.col as int, Cell::PathVisited) =~= st.cells[cur.row as int]);
    assert(next.cells =~= st.cells);
    let found = frontier(st.cells, cur);
    lemma_frontier_is_open_neighbours(st.cells, cur);
    if found.len() > 0 {
        let n = found[0];
        assert(found.contains(n));
        assert(adjacent(st.stack[last], n));
        assert(nothing_left_below(m, st));
    }
    assert(next.parents =~= st.parents);
    assert(next.stack =~= st.stack.drop_last());
}

/// The stack never holds more than four entries for each free square
/// of the maze and four more.
pub proof fn lemma_stack_is_bounded(m: MazeView, st: Search)
    requires
        inv(m, st),
    ensures
        st.stack.len() <= 4 * path_count(m.cells) + 4,
{
    reveal(inv);
}

/// One expansion keeps the invariant.
pub proof fn lemma_inv_step(m: MazeView, st: Search)
    requires
        m.valid(),
        inv(m, st),
        !halted(st),
    ensures
        inv(m, step(st)),
{
    if cell_at(st.cells, st.stack.last()) == Cell::End {
        lemma_inv_step_end(m, st);
    } else {
        lemma_inv_step_expand(m, st);
    }
}

/// A run keeps the invariant, and ends in a state that has halted.
pub proof fn lemma_inv_run(m: MazeView, st: Search)
    requires
        m.valid(),
        inv(m, st),
    ensures
        inv(m, run(st)),
        halted(run(st)),
    decreases path_count(st.cells), load(st.cells, st.stack),
{
    if !halted(st) {
        lemma_step_decreases(st);
        lemma_inv_step(m, st);
        lemma_inv_run(m, step(st));
    }
}

} // verus!
