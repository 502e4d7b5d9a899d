//! What a finished search says about the maze: whether the end can be
//! reached, which squares were visited, and which route was marked.

use vstd::prelude::*;
use crate::cell::Cell;
use crate::cell::Coord;
use crate::cell::cell_glyph;
use crate::drawing::drawing;
use crate::drawing::lemma_visits_are_not_drawn;
use crate::grid::adjacent;
use crate::grid::cell_at;
use crate::grid::in_grid;
use crate::grid::is_route;
use crate::grid::reachable;
use crate::grid::untouched;
use crate::model::MazeView;
use crate::progress::inv;
use crate::progress::lemma_inv_facts;
use crate::progress::lemma_inv_opening;
use crate::progress::lemma_inv_run;
use crate::progress::lemma_linked_once;
use crate::progress::linked;
use crate::progress::nothing_missed;
use crate::progress::rooted;
use crate::progress::same_shape;
use crate::progress::seen;
use crate::progress::waiting;
use crate::search::Search;
use crate::search::run;
use crate::trail::ancestor;
use crate::trail::leads_back;
use crate::trail::lemma_ancestor_next;
use crate::trail::lemma_on_trail_before;
use crate::trail::on_trail;
use crate::trail::traced;

verus! {

/// The positions from the `n`-th ancestor of `p` down to `p` itself.
pub open spec fn descent(parents: Map<Coord, Coord>, p: Coord, n: nat) -> Seq<Coord> {
    Seq::new(n + 1, |i: int| ancestor(parents, p, (n - i) as nat))
}

/// `after` shows `walk` as the solution of `before`: the walk is a route
/// between the two ends that passes no square twice, every square strictly
/// between the ends is marked, and no square off the walk has been newly
/// marked.
pub open spec fn marks_route(
    before: Seq<Seq<Cell>>,
    after: Seq<Seq<Cell>>,
    walk: Seq<Coord>,
    from: Coord,
    to: Coord,
) -> bool {
    &&& is_route(before, walk, from, to)
    &&& walk.no_duplicates()
    &&& forall|i: int| 0 < i < walk.len() - 1 ==> cell_at(after, #[trigger] walk[i]) == Cell::PathSolution
    &&& forall|p: Coord|
        in_grid(before, p) && #[trigger] cell_at(after, p) == Cell::PathSolution && cell_at(before, p)
            != Cell::PathSolution ==> exists|i: int| 0 < i < walk.len() - 1 && walk[i] == p
}

/// Solving changes nothing but free squares, which may become visited or
/// part of the solution.
pub open spec fn only_marks(before: Seq<Seq<Cell>>, after: Seq<Seq<Cell>>) -> bool {
    &&& same_shape(after, before)
    &&& forall|p: Coord|
        in_grid(before, p) ==> #[trigger] cell_at(after, p) == cell_at(before, p) || (cell_at(before, p)
            == Cell::Path && (cell_at(after, p) == Cell::PathVisited || cell_at(after, p)
            == Cell::PathSolution))
}

/// Every ancestor on a link to the start is itself linked to the start.
pub proof fn lemma_linked_ancestor(m: MazeView, st: Search, p: Coord, n: nat, k: nat)
    requires
        linked(m, st, p, n),
        k <= n,
    ensures
        linked(m, st, ancestor(st.parents, p, k), (n - k) as nat),
    decreases k,
{
    if k > 0 {
        lemma_linked_ancestor(m, st, st.parents[p], (n - 1) as nat, (k - 1) as nat);
    }
}

/// A link to the start read forwards is a route from the start over
/// squares that were free in the maze.
pub proof fn lemma_descent_is_route(m: MazeView, st: Search, p: Coord, n: nat)
    requires
        m.valid(),
        inv(m, st),
        linked(m, st, p, n),
    ensures
        descent(st.parents, p, n).len() == n + 1,
        descent(st.parents, p, n)[0] == m.start,
        descent(st.parents, p, n)[n as int] == p,
        forall|i: int| 0 <= i <= n ==> in_grid(m.cells, #[trigger] descent(st.parents, p, n)[i]),
        forall|i: int|
            0 <= i < n ==> adjacent(#[trigger] descent(st.parents, p, n)[i], descent(st.parents, p, n)[i + 1]),
        forall|i: int|
            0 < i <= n ==> cell_at(m.cells, #[trigger] descent(st.parents, p, n)[i]) == Cell::Path,
        descent(st.parents, p, n).no_duplicates(),
{
    let w = descent(st.parents, p, n);
    lemma_linked_ancestor(m, st, p, n, n);
    assert forall|i: int, j: int| 0 <= i < w.len() && 0 <= j < w.len() && i != j implies w[i] != w[j] by {
        lemma_linked_ancestor(m, st, p, n, (n - i) as nat);
        lemma_linked_ancestor(m, st, p, n, (n - j) as nat);
        if w[i] == w[j] {
            lemma_linked_once(m, st, w[i], i as nat, j as nat);
        }
    }
    assert forall|i: int| 0 < i <= n implies cell_at(m.cells, #[trigger] w[i]) == Cell::Path && in_grid(
        m.cells,
        w[i],
    ) && adjacent(w[i - 1], w[i]) by {
        let k = (n - i) as nat;
        lemma_linked_ancestor(m, st, p, n, k);
        lemma_ancestor_next(st.parents, p, k);
        assert(linked(m, st, w[i], i as nat));
    }
    assert forall|i: int| 0 <= i < n implies adjacent(#[trigger] w[i], w[i + 1]) by {
        assert(cell_at(m.cells, w[i + 1]) == Cell::Path);
    }
}

/// Once the stack is empty, every position of a route from the start,
/// but perhaps the last, has been expanded.
pub proof fn lemma_route_is_seen(m: MazeView, st: Search, walk: Seq<Coord>, to: Coord, i: int)
    requires
        m.valid(),
        inv(m, st),
        !st.solved,
        st.stack.len() == 0,
        is_route(m.cells, walk, m.start, to),
        0 <= i < walk.len() - 1,
    ensures
        seen(m, st, walk[i]),
    decreases i,
{
    lemma_inv_facts(m, st);
    if i > 0 {
        lemma_route_is_seen(m, st, walk, to, i - 1);
        let a = walk[i - 1];
        let n = walk[i];
        assert(adjacent(a, n));
        assert(in_grid(m.cells, n));
        assert(cell_at(m.cells, n) == Cell::Path);
        assert(cell_at(st.cells, n) == cell_at(m.cells, n) || (cell_at(m.cells, n) == Cell::Path
            && cell_at(st.cells, n) == Cell::PathVisited));
        assert(nothing_missed(m, st));
        if cell_at(st.cells, n) == Cell::Path {
            assert(st.stack.contains(n));
        }
    }
}

/// Once the stack is empty, the last position of a route from the start
/// is not open any more.
pub proof fn lemma_route_end_closed(m: MazeView, st: Search, walk: Seq<Coord>, to: Coord)
    requires
        m.valid(),
        inv(m, st),
        !st.solved,
        st.stack.len() == 0,
        is_route(m.cells, walk, m.start, to),
    ensures
        !cell_at(st.cells, to).is_open(),
{
    lemma_inv_facts(m, st);
    let a = walk[walk.len() - 2];
    lemma_route_is_seen(m, st, walk, to, walk.len() - 2);
    assert(adjacent(a, walk[walk.len() - 2 + 1]));
    assert(in_grid(m.cells, walk[walk.len() - 1]));
    assert(nothing_missed(m, st));
    if cell_at(st.cells, to).is_open() {
        assert(st.stack.contains(to));
    }
}

/// The search takes `End` off the stack exactly when a route leads from
/// `Start` to `End`.
pub proof fn lemma_solved_iff_reachable(m: MazeView)
    requires
        m.valid(),
    ensures
        run(m.opening()).solved <==> reachable(m.cells, m.start, m.end),
{
    let last = run(m.opening());
    lemma_inv_opening(m);
    lemma_inv_run(m, m.opening());
    lemma_inv_facts(m, run(m.opening()));
    if last.solved {
        lemma_solved_marks_route(m);
    } else {
        if reachable(m.cells, m.start, m.end) {
            let walk = choose|walk: Seq<Coord>| is_route(m.cells, walk, m.start, m.end);
            lemma_route_end_closed(m, last, walk, m.end);
            assert(cell_at(last.cells, m.end) == cell_at(m.cells, m.end) || (cell_at(m.cells, m.end)
                == Cell::Path && cell_at(last.cells, m.end) == Cell::PathVisited));
        }
    }
}

/// Where the search fails, the free squares that a route joins to the
/// start have become visited, and every other square is as it was.
pub proof fn lemma_unsolved_visits_reachable(m: MazeView, p: Coord)
    requires
        m.valid(),
        !run(m.opening()).solved,
        in_grid(m.cells, p),
    ensures
        cell_at(m.solved().cells, p) == if cell_at(m.cells, p) == Cell::Path && reachable(
            m.cells,
            m.start,
            p,
        ) {
            Cell::PathVisited
        } else {
            cell_at(m.cells, p)
        },
{
    let last = run(m.opening());
    lemma_inv_opening(m);
    lemma_inv_run(m, m.opening());
    lemma_inv_facts(m, run(m.opening()));
    assert(cell_at(last.cells, p) == cell_at(m.cells, p) || (cell_at(m.cells, p) == Cell::Path && cell_at(
        last.cells,
        p,
    ) == Cell::PathVisited));
    if cell_at(m.cells, p) == Cell::Path {
        if reachable(m.cells, m.start, p) {
            let walk = choose|walk: Seq<Coord>| is_route(m.cells, walk, m.start, p);
            lemma_route_end_closed(m, last, walk, p);
        }
        if cell_at(last.cells, p) == Cell::PathVisited {
            assert(seen(m, last, p));
            assert(rooted(m, last, p));
            let n = choose|n: nat| linked(m, last, p, n);
            lemma_descent_is_route(m, last, p, n);
            let walk = descent(last.parents, p, n);
            assert(n > 0);
            assert(is_route(m.cells, walk, m.start, p));
        }
    }
}

/// Where the search succeeds, the way back from `End` arrives at `Start`,
/// and the marked squares are the inner squares of a route from `Start` to
/// `End`.
pub proof fn lemma_solved_marks_route(m: MazeView)
    requires
        m.valid(),
        run(m.opening()).solved,
    ensures
        exists|n: nat| leads_back(run(m.opening()).parents, m.end, m.start, n),
        exists|walk: Seq<Coord>| marks_route(m.cells, m.solved().cells, walk, m.start, m.end),
        reachable(m.cells, m.start, m.end),
{
    let last = run(m.opening());
    let after = m.solved().cells;
    lemma_inv_opening(m);
    lemma_inv_run(m, m.opening());
    lemma_inv_facts(m, run(m.opening()));
    assert(waiting(m, last, m.end));
    assert(m.end != m.start);
    let a = last.parents[m.end];
    assert(rooted(m, last, a));
    let n = choose|n: nat| linked(m, last, a, n);
    lemma_descent_is_route(m, last, a, n);
    let base = descent(last.parents, a, n);
    let walk = base.push(m.end);
    assert forall|k: nat| ancestor(last.parents, m.end, k + 1) == ancestor(last.parents, a, k) by {}
    assert(leads_back(last.parents, m.end, m.start, n + 1)) by {
        lemma_linked_ancestor(m, last, a, n, n);
        assert forall|k: nat| 1 <= k < n + 1 implies #[trigger] ancestor(last.parents, m.end, k)
            != m.start && last.parents.dom().contains(ancestor(last.parents, m.end, k)) by {
            let j = (k - 1) as nat;
            assert(ancestor(last.parents, m.end, j + 1) == ancestor(last.parents, a, j));
            lemma_linked_ancestor(m, last, a, n, j);
        }
        assert(ancestor(last.parents, m.end, 0) == m.end);
        assert(ancestor(last.parents, m.end, (n + 1) as nat) == ancestor(last.parents, a, n));
    }
    assert(is_route(m.cells, walk, m.start, m.end)) by {
        assert forall|i: int| 0 <= i < walk.len() - 1 implies adjacent(#[trigger] walk[i], walk[i + 1]) by {
            if i < n {
                assert(adjacent(base[i], base[i + 1]));
            }
        }
        assert forall|i: int| 0 < i < walk.len() - 1 implies cell_at(m.cells, #[trigger] walk[i])
            == Cell::Path by {
            assert(cell_at(m.cells, base[i]) == Cell::Path);
        }
        assert forall|i: int| 0 <= i < walk.len() implies in_grid(m.cells, #[trigger] walk[i]) by {
            if i <= n {
                assert(in_grid(m.cells, base[i]));
            }
        }
    }
    assert forall|i: int| 0 < i < walk.len() - 1 implies cell_at(after, #[trigger] walk[i])
        == Cell::PathSolution by {
        let p = walk[i];
        let k = (n + 1 - i) as nat;
        assert(p == base[i]);
        assert(in_grid(m.cells, base[i]));
        assert(ancestor(last.parents, m.end, ((n - i) as nat) + 1) == ancestor(last.parents, a, (n - i) as nat));
        assert(1 <= k < n + 1 && ancestor(last.parents, m.end, k) == p);
        lemma_on_trail_before(last.parents, m.end, m.start, n + 1, p);
        lemma_traced_cell(last.cells, last.parents, m.end, m.start, p);
    }
    assert forall|p: Coord|
        in_grid(m.cells, p) && #[trigger] cell_at(after, p) == Cell::PathSolution && cell_at(m.cells, p)
            != Cell::PathSolution implies exists|i: int| 0 < i < walk.len() - 1 && walk[i] == p by {
        lemma_traced_cell(last.cells, last.parents, m.end, m.start, p);
        assert(cell_at(last.cells, p) == cell_at(m.cells, p) || (cell_at(m.cells, p) == Cell::Path
            && cell_at(last.cells, p) == Cell::PathVisited));
        assert(on_trail(last.parents, m.end, m.start, p));
        lemma_on_trail_before(last.parents, m.end, m.start, n + 1, p);
        let k = choose|k: nat| 1 <= k < n + 1 && #[trigger] ancestor(last.parents, m.end, k) == p;
        let i = n + 1 - k;
        assert(ancestor(last.parents, m.end, ((k - 1) as nat) + 1) == ancestor(last.parents, a, (k - 1) as nat));
        assert(base[i] == ancestor(last.parents, a, (n - i) as nat));
        assert(walk[i] == p);
    }
    assert(walk.no_duplicates()) by {
        assert forall|i: int, j: int| 0 <= i < walk.len() && 0 <= j < walk.len() && i != j implies walk[i]
            != walk[j] by {
            if i <= n && j <= n {
                assert(base[i] != base[j]);
            } else if i <= n {
                assert(in_grid(m.cells, base[i]));
                assert(i > 0 ==> cell_at(m.cells, base[i]) == Cell::Path);
            } else {
                assert(in_grid(m.cells, base[j]));
                assert(j > 0 ==> cell_at(m.cells, base[j]) == Cell::Path);
            }
        }
    }
    assert(marks_route(m.cells, after, walk, m.start, m.end));
}

/// A square of the traced grid is marked when it lies on the trail, and is
/// otherwise what it was.
pub proof fn lemma_traced_cell(
    cells: Seq<Seq<Cell>>,
    parents: Map<Coord, Coord>,
    from: Coord,
    stop: Coord,
    p: Coord,
)
    requires
        in_grid(cells, p),
    ensures
        in_grid(traced(cells, parents, from, stop), p),
        cell_at(traced(cells, parents, from, stop), p) == if on_trail(parents, from, stop, p) {
            Cell::PathSolution
        } else {
            cell_at(cells, p)
        },
{
    assert(Coord { row: p.row as int as usize, col: p.col as int as usize } == p);
}

/// Solving a valid maze leaves it valid, and changes nothing but free
/// squares.
pub proof fn lemma_solved_valid(m: MazeView)
    requires
        m.valid(),
    ensures
        m.solved().valid(),
        only_marks(m.cells, m.solved().cells),
{
    let last = run(m.opening());
    let after = m.solved().cells;
    lemma_inv_opening(m);
    lemma_inv_run(m, m.opening());
    lemma_inv_facts(m, run(m.opening()));
    assert(same_shape(after, m.cells));
    assert forall|p: Coord| in_grid(m.cells, p) implies #[trigger] cell_at(after, p) == cell_at(
        m.cells,
        p,
    ) || (cell_at(m.cells, p) == Cell::Path && (cell_at(after, p) == Cell::PathVisited || cell_at(
        after,
        p,
    ) == Cell::PathSolution)) by {
        assert(in_grid(last.cells, p));
        assert(cell_at(last.cells, p) == cell_at(m.cells, p) || (cell_at(m.cells, p) == Cell::Path
            && cell_at(last.cells, p) == Cell::PathVisited));
        if last.solved {
            lemma_traced_cell(last.cells, last.parents, m.end, m.start, p);
            if cell_at(after, p) == Cell::PathSolution && cell_at(m.cells, p) != Cell::PathSolution {
                lemma_solved_marks_route(m);
                let walk = choose|walk: Seq<Coord>| marks_route(m.cells, after, walk, m.start, m.end);
                let i = choose|i: int| 0 < i < walk.len() - 1 && walk[i] == p;
                assert(cell_at(m.cells, walk[i]) == Cell::Path);
            }
        }
    }
    assert(m.solved().valid()) by {
        assert forall|r: int| 0 <= r < after.len() implies (#[trigger] after[r]).len() == crate::grid::width(
            after,
        ) by {
            assert(after[r].len() == m.cells[r].len());
            assert(after[0].len() == m.cells[0].len());
        }
        assert forall|p: Coord| in_grid(after, p) implies (#[trigger] cell_at(after, p) == Cell::Start <==> p
            == m.start) && (cell_at(after, p) == Cell::End <==> p == m.end) by {
            assert(in_grid(m.cells, p));
            assert(cell_at(after, p) == cell_at(m.cells, p) || (cell_at(m.cells, p) == Cell::Path && (
            cell_at(after, p) == Cell::PathVisited || cell_at(after, p) == Cell::PathSolution)));
        }
        assert forall|p: Coord| m.solved().parents.dom().contains(p) implies in_grid(after, p) by {
            assert(in_grid(m.cells, p));
        }
        assert(in_grid(after, m.start));
        assert(in_grid(after, m.end));
        assert(crate::grid::rectangular(after));
    }
}

/// Where no route leads to the end, solving turns the free squares that a
/// route joins to the start into visited ones and changes nothing else.
pub open spec fn visits_reachable(before: MazeView, after: Seq<Seq<Cell>>) -> bool {
    forall|p: Coord|
        in_grid(before.cells, p) ==> #[trigger] cell_at(after, p) == if cell_at(before.cells, p)
            == Cell::Path && reachable(before.cells, before.start, p) {
            Cell::PathVisited
        } else {
            cell_at(before.cells, p)
        }
}

/// Solving a valid maze marks a route from `Start` to `End` where there is
/// one, and where there is none it marks nothing and visits what can be
/// reached.
pub proof fn lemma_solved_outcome(m: MazeView)
    requires
        m.valid(),
    ensures
        m.solved().valid(),
        only_marks(m.cells, m.solved().cells),
        reachable(m.cells, m.start, m.end) ==> exists|walk: Seq<Coord>|
            marks_route(m.cells, m.solved().cells, walk, m.start, m.end),
        !reachable(m.cells, m.start, m.end) ==> visits_reachable(m, m.solved().cells),
{
    lemma_solved_valid(m);
    lemma_solved_iff_reachable(m);
    if reachable(m.cells, m.start, m.end) {
        lemma_solved_marks_route(m);
    } else {
        assert forall|p: Coord| in_grid(m.cells, p) implies #[trigger] cell_at(m.solved().cells, p)
            == if cell_at(m.cells, p) == Cell::Path && reachable(m.cells, m.start, p) {
            Cell::PathVisited
        } else {
            cell_at(m.cells, p)
        } by {
            lemma_unsolved_visits_reachable(m, p);
        }
    }
}

/// Solving a maze that no search has touched, and in which no route leads
/// from `Start` to `End`, leaves no square marked as part of a solution.
pub proof fn lemma_unsolvable_marks_nothing(m: MazeView)
    requires
        m.valid(),
        untouched(m.cells),
        !reachable(m.cells, m.start, m.end),
    ensures
        forall|p: Coord|
            in_grid(m.solved().cells, p) ==> #[trigger] cell_at(m.solved().cells, p) != Cell::PathSolution,
{
    lemma_solved_outcome(m);
    assert forall|p: Coord| in_grid(m.solved().cells, p) implies #[trigger] cell_at(m.solved().cells, p)
        != Cell::PathSolution by {
        assert(in_grid(m.cells, p));
        assert(cell_at(m.cells, p) != Cell::PathSolution);
    }
}

/// What solving makes of a maze is fixed by its squares, its recorded
/// parents and its two ends: mazes that agree in these agree after
/// solving, square by square.
pub proof fn lemma_solved_is_determined(a: MazeView, b: MazeView)
    requires
        a.cells =~= b.cells,
        a.parents =~= b.parents,
        a.start == b.start,
        a.end == b.end,
    ensures
        a.solved() == b.solved(),
{
}

/// Where no route leads from `Start` to `End`, the solved maze is drawn
/// exactly as the maze was before: the search shows only in squares that
/// are drawn blank either way.
pub proof fn lemma_unsolvable_drawn_as_before(m: MazeView)
    requires
        m.valid(),
        !reachable(m.cells, m.start, m.end),
    ensures
        drawing(m.solved().cells) == drawing(m.cells),
{
    lemma_solved_outcome(m);
    let after = m.solved().cells;
    assert forall|r: int, c: int| 0 <= r < after.len() && 0 <= c < after[r].len() implies #[trigger] cell_glyph(
        after[r][c],
    ) == cell_glyph(m.cells[r][c]) by {
        let p = Coord { row: r as usize, col: c as usize };
        assert(in_grid(m.cells, p));
        assert(cell_at(after, p) == after[r][c]);
    }
    lemma_visits_are_not_drawn(after, m.cells);
}

} // verus!
