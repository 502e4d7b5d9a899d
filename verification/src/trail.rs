//! Following parents back from a position, and marking the squares passed.

use vstd::prelude::*;
use crate::cell::Cell;
use crate::cell::Coord;

verus! {

/// The position reached from `p` by going to the parent `n` times.
pub open spec fn ancestor(parents: Map<Coord, Coord>, p: Coord, n: nat) -> Coord
    decreases n,
{
    if n == 0 {
        p
    } else {
        ancestor(parents, parents[p], (n - 1) as nat)
    }
}

/// Going to the parent `n` times from `from` arrives at `stop` for the
/// first time, and every position left on the way has a parent.
pub open spec fn leads_back(parents: Map<Coord, Coord>, from: Coord, stop: Coord, n: nat) -> bool {
    &&& n >= 1
    &&& ancestor(parents, from, n) == stop
    &&& forall|k: nat| 1 <= k < n ==> #[trigger] ancestor(parents, from, k) != stop
    &&& forall|k: nat| k < n ==> parents.dom().contains(#[trigger] ancestor(parents, from, k))
}

/// `p` is passed on the way back from `from` before `stop` is reached: it
/// is some ancestor of `from`, and neither it nor any ancestor before it is
/// `stop`.
pub open spec fn on_trail(parents: Map<Coord, Coord>, from: Coord, stop: Coord, p: Coord) -> bool {
    exists|k: nat|
        k >= 1 && #[trigger] ancestor(parents, from, k) == p && forall|j: nat|
            1 <= j <= k ==> #[trigger] ancestor(parents, from, j) != stop
}

/// The grid with every square on the way back from `from` to `stop` marked
/// as part of the solution; `from` and `stop` themselves stay as they are.
pub open spec fn traced(cells: Seq<Seq<Cell>>, parents: Map<Coord, Coord>, from: Coord, stop: Coord) -> Seq<
    Seq<Cell>,
> {
    Seq::new(
        cells.len(),
        |r: int|
            Seq::new(
                cells[r].len(),
                |c: int|
                    if on_trail(parents, from, stop, Coord { row: r as usize, col: c as usize }) {
                        Cell::PathSolution
                    } else {
                        cells[r][c]
                    },
            ),
    )
}

/// One more step back: the ancestor after the `n`-th is the parent of the
/// `n`-th.
pub proof fn lemma_ancestor_next(parents: Map<Coord, Coord>, p: Coord, n: nat)
    ensures
        ancestor(parents, p, n + 1) == parents[ancestor(parents, p, n)],
    decreases n,
{
    if n > 0 {
        lemma_ancestor_next(parents, parents[p], (n - 1) as nat);
        assert(ancestor(parents, p, n + 1) == ancestor(parents, parents[p], n));
    } else {
        assert(ancestor(parents, p, 1) == ancestor(parents, parents[p], 0));
    }
}

/// Where the way back arrives at `stop` after `n` steps, the squares on the
/// trail are the ancestors before the `n`-th.
pub proof fn lemma_on_trail_before(parents: Map<Coord, Coord>, from: Coord, stop: Coord, n: nat, p: Coord)
    requires
        leads_back(parents, from, stop, n),
    ensures
        on_trail(parents, from, stop, p) <==> exists|k: nat|
            1 <= k < n && #[trigger] ancestor(parents, from, k) == p,
{
    if on_trail(parents, from, stop, p) {
        let k = choose|k: nat|
            k >= 1 && #[trigger] ancestor(parents, from, k) == p && forall|j: nat|
                1 <= j <= k ==> #[trigger] ancestor(parents, from, j) != stop;
        if k >= n {
            assert(ancestor(parents, from, n) != stop);
        }
        assert(1 <= k < n && ancestor(parents, from, k) == p);
    }
    if exists|k: nat| 1 <= k < n && #[trigger] ancestor(parents, from, k) == p {
        let k = choose|k: nat| 1 <= k < n && #[trigger] ancestor(parents, from, k) == p;
        assert(k >= 1 && ancestor(parents, from, k) == p && forall|j: nat|
            1 <= j <= k ==> #[trigger] ancestor(parents, from, j) != stop);
    }
}

} // verus!
